//! Keyboard to action.
//!
//! The most recently pressed direction wins while several are held, which is
//! how players expect a grid game to feel: tap Left while holding Up and you
//! turn left, let go of Left and you carry on up.

use vstd::prelude::*;

use crate::domain::{moving_spec, Action, Direction};

verus! {

/// A bomb request is repeated for this many ticks, so a single lost datagram
/// does not swallow it; the server ignores a second bomb on the same cell.
pub const BOMB_REPEAT_TICKS: u8 = 3;

#[derive(Debug, Default)]
pub struct Steering {
    held: Vec<Direction>,
    bomb_ticks: u8,
}

pub open spec fn without_dir(held: Seq<Direction>, d: Direction) -> Seq<Direction> {
    held.filter(|x: Direction| x != d)
}

/// The action a tick sends for what is held and whether a bomb is pending.
pub open spec fn action_spec(held: Seq<Direction>, bomb: bool) -> Action {
    if held.len() > 0 {
        moving_spec(held.last(), bomb)
    } else if bomb {
        Action::Bomb
    } else {
        Action::Idle
    }
}

impl Steering {
    /// The held directions, oldest first.
    pub closed spec fn held(&self) -> Seq<Direction> {
        self.held@
    }

    /// Ticks for which a bomb request is still repeated.
    pub closed spec fn bomb_ticks(&self) -> u8 {
        self.bomb_ticks
    }

    pub fn new() -> (s: Steering)
        ensures
            s.held() == Seq::<Direction>::empty(),
            s.bomb_ticks() == 0,
    {
        Steering { held: Vec::new(), bomb_ticks: 0 }
    }

    fn remove(&mut self, dir: Direction)
        ensures
            final(self).held() == without_dir(old(self).held(), dir),
            final(self).bomb_ticks() == old(self).bomb_ticks(),
    {
        let mut kept: Vec<Direction> = Vec::new();
        let mut i: usize = 0;
        while i < self.held.len()
            invariant
                i <= self.held@.len(),
                self.held@ == old(self).held@,
                self.bomb_ticks == old(self).bomb_ticks,
                kept@ == without_dir(self.held@.subrange(0, i as int), dir),
            decreases self.held.len() - i,
        {
            let d = self.held[i];
            proof {
                let s = self.held@.subrange(0, i as int + 1);
                assert(s.drop_last() =~= self.held@.subrange(0, i as int));
                reveal_with_fuel(Seq::filter, 1);
            }
            if d != dir {
                kept.push(d);
            }
            i = i + 1;
        }
        assert(self.held@.subrange(0, self.held@.len() as int) =~= self.held@);
        self.held = kept;
    }

    /// A direction key went down: it is now the one that counts.
    pub fn press(&mut self, dir: Direction)
        ensures
            final(self).held() == without_dir(old(self).held(), dir).push(dir),
            final(self).bomb_ticks() == old(self).bomb_ticks(),
    {
        self.remove(dir);
        self.held.push(dir);
    }

    /// A direction key came up.
    pub fn release(&mut self, dir: Direction)
        ensures
            final(self).held() == without_dir(old(self).held(), dir),
            final(self).bomb_ticks() == old(self).bomb_ticks(),
    {
        self.remove(dir);
    }

    pub fn bomb(&mut self)
        ensures
            final(self).held() == old(self).held(),
            final(self).bomb_ticks() == BOMB_REPEAT_TICKS,
    {
        self.bomb_ticks = BOMB_REPEAT_TICKS;
    }

    pub fn clear(&mut self)
        ensures
            final(self).held() == Seq::<Direction>::empty(),
            final(self).bomb_ticks() == 0,
    {
        self.held.clear();
        self.bomb_ticks = 0;
    }

    /// The action for this tick. Call once per game tick.
    pub fn action(&mut self) -> (a: Action)
        ensures
            a == action_spec(old(self).held(), old(self).bomb_ticks() > 0),
            final(self).held() == old(self).held(),
            final(self).bomb_ticks() == if old(self).bomb_ticks() > 0 {
                (old(self).bomb_ticks() - 1) as u8
            } else {
                0
            },
    {
        let bomb = self.bomb_ticks > 0;
        if bomb {
            self.bomb_ticks = self.bomb_ticks - 1;
        }
        let n = self.held.len();
        if n > 0 {
            Action::moving(self.held[n - 1], bomb)
        } else if bomb {
            Action::Bomb
        } else {
            Action::Idle
        }
    }
}

/// No direction is held twice.
pub open spec fn distinct(held: Seq<Direction>) -> bool {
    forall|i: int, j: int| 0 <= i < j < held.len() ==> held[i] != held[j]
}

proof fn lemma_without_dir(held: Seq<Direction>, d: Direction)
    ensures
        !without_dir(held, d).contains(d),
        forall|x: Direction| x != d ==> (without_dir(held, d).contains(x) == held.contains(x)),
        distinct(held) ==> distinct(without_dir(held, d)),
        !held.contains(d) ==> without_dir(held, d) == held,
    decreases held.len(),
{
    reveal_with_fuel(Seq::filter, 1);
    if held.len() > 0 {
        let init = held.drop_last();
        lemma_without_dir(init, d);
        assert(held =~= init.push(held.last()));
        let w = without_dir(held, d);
        let wi = without_dir(init, d);
        if held.last() == d {
            assert(w == wi);
        } else {
            assert(w == wi.push(held.last()));
            if distinct(held) {
                assert forall|i: int, j: int| 0 <= i < j < init.len() implies init[i]
                    != init[j] by {
                    assert(init[i] == held[i] && init[j] == held[j]);
                }
                assert(!init.contains(held.last())) by {
                    if init.contains(held.last()) {
                        let k = choose|k: int| 0 <= k < init.len() && init[k] == held.last();
                        assert(held[k] == held[held.len() - 1]);
                    }
                }
                assert(!wi.contains(held.last()));
            }
        }
        assert forall|x: Direction| x != d implies (without_dir(held, d).contains(x)
            == held.contains(x)) by {
            if held.contains(x) && !init.contains(x) {
                assert(x == held.last()) by {
                    let k = choose|k: int| 0 <= k < held.len() && held[k] == x;
                    if k < init.len() {
                        assert(init[k] == x);
                    }
                }
                assert(w.last() == x);
            }
            if init.contains(x) {
                let k = choose|k: int| 0 <= k < init.len() && init[k] == x;
                assert(held[k] == x);
            }
            if w.contains(x) && !wi.contains(x) {
                assert(held.last() == x);
            }
            if wi.contains(x) {
                let k = choose|k: int| 0 <= k < wi.len() && wi[k] == x;
                assert(w[k] == x);
            }
        }
        if !held.contains(d) {
            assert(!init.contains(d)) by {
                if init.contains(d) {
                    let k = choose|k: int| 0 <= k < init.len() && init[k] == d;
                    assert(held[k] == d);
                }
            }
        }
    } else {
        assert(without_dir(held, d) =~= held);
    }
}

/// Pressing a direction makes it the one that counts, and no direction is
/// ever held twice.
pub proof fn lemma_press_wins(held: Seq<Direction>, d: Direction)
    requires
        distinct(held),
    ensures
        without_dir(held, d).push(d).last() == d,
        distinct(without_dir(held, d).push(d)),
{
    lemma_without_dir(held, d);
    let w = without_dir(held, d);
    assert forall|i: int, j: int| 0 <= i < j < w.push(d).len() implies w.push(d)[i] != w.push(
        d,
    )[j] by {
        if j == w.len() {
            assert(w[i] != d);
        } else {
            assert(w.push(d)[i] == w[i] && w.push(d)[j] == w[j]);
        }
    }
}

/// Letting go of the direction that counts falls back to the one pressed
/// before it, if that is still held.
pub proof fn lemma_release_falls_back(held: Seq<Direction>, d: Direction)
    requires
        distinct(held),
        held.len() > 0,
        held.last() == d,
    ensures
        without_dir(held, d) == held.drop_last(),
{
    reveal_with_fuel(Seq::filter, 1);
    let init = held.drop_last();
    assert(held =~= init.push(d));
    assert(!init.contains(d)) by {
        if init.contains(d) {
            let k = choose|k: int| 0 <= k < init.len() && init[k] == d;
            assert(held[k] == held[held.len() - 1]);
        }
    }
    lemma_without_dir(init, d);
}

} // verus!
