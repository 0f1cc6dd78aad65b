//! What the player typed last time, so the next start is one keypress.
//!
//! The settings file is a few `key=value` lines. Reading it is forgiving:
//! unknown keys, malformed lines and unparsable ports are skipped, so a file
//! from another version never stops anyone from playing.

use vstd::prelude::*;

use crate::text::{lemma_first_pair_none, 
    chars_of, decimal, decimal_of, find_between, find_last, find_pair_from, first_index,
    first_pair_index, lemma_first_pair_index, is_control, is_control_char, is_white_space, last_index, lemma_last_index, lemma_first_index,
    lemma_first_index_is, lemma_first_index_none, lemma_last_index_is, lemma_parse_decimal,
    lemma_decimal_digits, lemma_digit_is_plain, lemma_trim_identity,
    lemma_trimmed_ends, all_digits, parse_u16, parse_u16_spec, push_all, push_char, push_lit, same_lit, slice_of,
    string_lit, string_of, trim, trim_end, trim_start, trimmed,
};

verus! {

broadcast use vstd::array::group_array_axioms;

/// The UDP port the arena listens on unless told otherwise.
pub const DEFAULT_UDP_PORT: u16 = 47800;

/// Names are cut to this many characters.
pub const MAX_NAME_CHARS: usize = 24;

#[derive(Debug, Clone, PartialEq, Eq)]
pub struct Settings {
    pub name: String,
    pub host: String,
    pub port: u16,
    pub sound: bool,
    pub bot: bool,
}

/// The settings as plain values.
pub struct SettingsView {
    pub name: Seq<char>,
    pub host: Seq<char>,
    pub port: u16,
    pub sound: bool,
    pub bot: bool,
}

impl View for Settings {
    type V = SettingsView;

    open spec fn view(&self) -> SettingsView {
        SettingsView {
            name: self.name@,
            host: self.host@,
            port: self.port,
            sound: self.sound,
            bot: self.bot,
        }
    }
}

/// At most the first `n` characters of `s`.
pub open spec fn take_chars(s: Seq<char>, n: int) -> Seq<char> {
    if s.len() <= n {
        s
    } else {
        s.subrange(0, n)
    }
}

/// `s` without its control characters.
pub open spec fn without_controls(s: Seq<char>) -> Seq<char> {
    s.filter(|c: char| !is_control_char(c))
}

/// The name a fresh install proposes: the account name without control
/// characters and cut to length, or "Spieler" if nothing is left.
pub open spec fn default_name_spec(user: Seq<char>) -> Seq<char> {
    let name = take_chars(without_controls(user), MAX_NAME_CHARS as int);
    if name.len() == 0 {
        seq!['S', 'p', 'i', 'e', 'l', 'e', 'r']
    } else {
        name
    }
}

pub open spec fn defaults_spec(user: Seq<char>) -> SettingsView {
    SettingsView {
        name: default_name_spec(user),
        host: seq!['1', '2', '7', '.', '0', '.', '0', '.', '1'],
        port: DEFAULT_UDP_PORT,
        sound: true,
        bot: false,
    }
}

/// One `key=value` line applied to the settings.
pub open spec fn merge_line(st: SettingsView, line: Seq<char>) -> SettingsView {
    let e = first_index(line, '=');
    if e < 0 {
        st
    } else {
        let key = trim(line.subrange(0, e));
        let value = trim(line.subrange(e + 1, line.len() as int));
        if key == seq!['n', 'a', 'm', 'e'] {
            if value.len() > 0 {
                SettingsView { name: take_chars(value, MAX_NAME_CHARS as int), ..st }
            } else {
                st
            }
        } else if key == seq!['h', 'o', 's', 't'] {
            if value.len() > 0 {
                SettingsView { host: value, ..st }
            } else {
                st
            }
        } else if key == seq!['p', 'o', 'r', 't'] {
            match parse_u16_spec(value) {
                Some(p) => SettingsView { port: p, ..st },
                None => st,
            }
        } else if key == seq!['s', 'o', 'u', 'n', 'd'] {
            SettingsView { sound: value != seq!['0'], ..st }
        } else if key == seq!['b', 'o', 't'] {
            SettingsView { bot: value == seq!['1'], ..st }
        } else {
            st
        }
    }
}

/// Every line of `text`, in order, applied to the settings.
pub open spec fn merge_text(st: SettingsView, text: Seq<char>) -> SettingsView
    decreases text.len(),
{
    let i = first_index(text, '\n');
    if i < 0 {
        merge_line(st, text)
    } else {
        proof {
            lemma_first_index(text, '\n');
        }
        merge_text(merge_line(st, text.subrange(0, i)), text.subrange(i + 1, text.len() as int))
    }
}

pub open spec fn flag_text(b: bool) -> Seq<char> {
    if b {
        seq!['1']
    } else {
        seq!['0']
    }
}

/// The file format: one line per setting.
pub open spec fn to_text_spec(st: SettingsView) -> Seq<char> {
    seq!['n', 'a', 'm', 'e', '='] + st.name + seq!['\n', 'h', 'o', 's', 't', '='] + st.host
        + seq!['\n', 'p', 'o', 'r', 't', '='] + decimal(st.port as nat) + seq![
        '\n',
        's',
        'o',
        'u',
        'n',
        'd',
        '=',
    ] + flag_text(st.sound) + seq!['\n', 'b', 'o', 't', '='] + flag_text(st.bot) + seq!['\n']
}

/// `host`, `host:port`, or `[v6]:port`, applied to the settings.
pub open spec fn set_address_spec(st: SettingsView, text: Seq<char>) -> SettingsView {
    let t = trim(text);
    let rest = t.drop_first();
    let close = first_pair_index(rest, ']', ':');
    if t.len() > 0 && t[0] == '[' && close >= 0 {
        SettingsView {
            host: rest.subrange(0, close),
            port: match parse_u16_spec(rest.subrange(close + 2, rest.len() as int)) {
                Some(p) => p,
                None => st.port,
            },
            ..st
        }
    } else {
        let k = last_index(t, ':');
        if k >= 0 && first_index(t.subrange(0, k), ':') == -1 && parse_u16_spec(
            t.subrange(k + 1, t.len() as int),
        ) is Some {
            SettingsView {
                host: t.subrange(0, k),
                port: parse_u16_spec(t.subrange(k + 1, t.len() as int))->0,
                ..st
            }
        } else {
            SettingsView { host: t, ..st }
        }
    }
}

/// The address as the player would type it: the port only when it is not
/// the default one.
pub open spec fn address_spec(st: SettingsView) -> Seq<char> {
    if st.port == DEFAULT_UDP_PORT {
        st.host
    } else {
        st.host + seq![':'] + decimal(st.port as nat)
    }
}

impl Default for Settings {
    /// Defaults for an anonymous user; see [`Settings::defaults_for`].
    fn default() -> (s: Settings)
        ensures
            s@ == defaults_spec(Seq::<char>::empty()),
    {
        proof {
            reveal_strlit("");
        }
        Settings::defaults_for("")
    }
}

impl Settings {
    /// The defaults for the account `user`.
    pub fn defaults_for(user: &str) -> (s: Settings)
        ensures
            s@ == defaults_spec(user@),
    {
        Settings {
            name: default_name(user),
            host: string_lit(['1', '2', '7', '.', '0', '.', '0', '.', '1']),
            port: DEFAULT_UDP_PORT,
            sound: true,
            bot: false,
        }
    }

    /// Apply the lines of a settings file on top of these settings.
    pub fn merge(&mut self, text: &str)
        ensures
            final(self)@ == merge_text(old(self)@, text@),
    {
        let v = chars_of(text);
        let mut start: usize = 0;
        assert(v@.subrange(0, v@.len() as int) =~= v@);
        loop
            invariant
                start <= v@.len(),
                v@ == text@,
                merge_text(old(self)@, text@) == merge_text(
                    self@,
                    v@.subrange(start as int, v@.len() as int),
                ),
            decreases v@.len() - start,
        {
            let ghost rest = v@.subrange(start as int, v@.len() as int);
            match find_between(&v, '\n', start, v.len()) {
                Some(k) => {
                    proof {
                        lemma_first_index(rest, '\n');
                        assert(rest.subrange(0, k - start) =~= v@.subrange(
                            start as int,
                            k as int,
                        ));
                        assert(rest.subrange(k - start + 1, rest.len() as int) =~= v@.subrange(
                            k + 1,
                            v@.len() as int,
                        ));
                    }
                    self.merge_line(&v, start, k);
                    start = k + 1;
                },
                None => {
                    self.merge_line(&v, start, v.len());
                    return ;
                },
            }
        }
    }

    fn merge_line(&mut self, v: &Vec<char>, from: usize, to: usize)
        requires
            from <= to <= v@.len(),
        ensures
            final(self)@ == merge_line(old(self)@, v@.subrange(from as int, to as int)),
    {
        let ghost line = v@.subrange(from as int, to as int);
        let e = match find_between(v, '=', from, to) {
            Some(e) => e,
            None => return ,
        };
        proof {
            lemma_first_index(line, '=');
            assert(line.subrange(0, e - from) =~= v@.subrange(from as int, e as int));
            assert(line.subrange(e - from + 1, line.len() as int) =~= v@.subrange(
                e + 1,
                to as int,
            ));
        }
        let key = trimmed(v, from, e);
        let value = trimmed(v, e + 1, to);
        let name_key = ['n', 'a', 'm', 'e'];
        let host_key = ['h', 'o', 's', 't'];
        let port_key = ['p', 'o', 'r', 't'];
        let sound_key = ['s', 'o', 'u', 'n', 'd'];
        let bot_key = ['b', 'o', 't'];
        let zero = ['0'];
        let one = ['1'];
        assert(name_key@ =~= seq!['n', 'a', 'm', 'e']);
        assert(host_key@ =~= seq!['h', 'o', 's', 't']);
        assert(port_key@ =~= seq!['p', 'o', 'r', 't']);
        assert(sound_key@ =~= seq!['s', 'o', 'u', 'n', 'd']);
        assert(bot_key@ =~= seq!['b', 'o', 't']);
        assert(zero@ =~= seq!['0']);
        assert(one@ =~= seq!['1']);
        if same_lit(&key, name_key) {
            if value.len() > 0 {
                let n = if value.len() <= MAX_NAME_CHARS {
                    value.len()
                } else {
                    MAX_NAME_CHARS
                };
                let taken = slice_of(&value, 0, n);
                assert(taken@ =~= take_chars(value@, MAX_NAME_CHARS as int));
                self.name = string_of(&taken);
            }
        } else if same_lit(&key, host_key) {
            if value.len() > 0 {
                self.host = string_of(&value);
            }
        } else if same_lit(&key, port_key) {
            if let Some(p) = parse_u16(&value) {
                self.port = p;
            }
        } else if same_lit(&key, sound_key) {
            self.sound = !same_lit(&value, zero);
        } else if same_lit(&key, bot_key) {
            self.bot = same_lit(&value, one);
        }
    }

    /// The settings in the file format [`Settings::merge`] reads.
    pub fn to_text(&self) -> (t: String)
        ensures
            t@ == to_text_spec(self@),
    {
        let mut t = String::new();
        push_lit(&mut t, ['n', 'a', 'm', 'e', '=']);
        let name = chars_of(self.name.as_str());
        push_all(&mut t, &name);
        push_lit(&mut t, ['\n', 'h', 'o', 's', 't', '=']);
        let host = chars_of(self.host.as_str());
        push_all(&mut t, &host);
        push_lit(&mut t, ['\n', 'p', 'o', 'r', 't', '=']);
        let port = decimal_of(self.port);
        push_all(&mut t, &port);
        push_lit(&mut t, ['\n', 's', 'o', 'u', 'n', 'd', '=']);
        push_char(&mut t, if self.sound { '1' } else { '0' });
        push_lit(&mut t, ['\n', 'b', 'o', 't', '=']);
        push_char(&mut t, if self.bot { '1' } else { '0' });
        push_char(&mut t, '\n');
        assert(t@ =~= to_text_spec(self@));
        t
    }

    /// Take `host`, `host:port`, or `[v6]:port`. A port that does not parse
    /// leaves the current one; a name with several colons is taken whole.
    pub fn set_address(&mut self, text: &str)
        ensures
            final(self)@ == set_address_spec(old(self)@, text@),
    {
        let all = chars_of(text);
        let t = trimmed(&all, 0, all.len());
        assert(all@.subrange(0, all@.len() as int) =~= all@);
        let ghost rest = t@.drop_first();
        if t.len() > 0 && t[0] == '[' {
            let close = find_pair_from(&t, ']', ':', 1);
            assert(t@.subrange(1, t@.len() as int) =~= rest);
            proof {
                lemma_first_pair_index(rest, ']', ':');
            }
            if let Some(c) = close {
                let host = slice_of(&t, 1, c);
                let port_text = slice_of(&t, c + 2, t.len());
                assert(host@ =~= rest.subrange(0, c - 1));
                assert(port_text@ =~= rest.subrange(c - 1 + 2, rest.len() as int));
                self.host = string_of(&host);
                if let Some(p) = parse_u16(&port_text) {
                    self.port = p;
                }
                return ;
            }
        }
        match find_last(&t, ':') {
            Some(k) => {
                proof {
                    lemma_last_index(t@, ':');
                }
                let head = slice_of(&t, 0, k);
                let tail = slice_of(&t, k + 1, t.len());
                let inner = find_between(&t, ':', 0, k);
                let parsed = parse_u16(&tail);
                if inner.is_none() && parsed.is_some() {
                    self.host = string_of(&head);
                    self.port = parsed.unwrap();
                } else {
                    self.host = string_of(&t);
                }
            },
            None => {
                self.host = string_of(&t);
            },
        }
    }

    /// The address as shown in the menu.
    pub fn address(&self) -> (a: String)
        ensures
            a@ == address_spec(self@),
    {
        if self.port == DEFAULT_UDP_PORT {
            let host = chars_of(self.host.as_str());
            string_of(&host)
        } else {
            let mut a = String::new();
            let host = chars_of(self.host.as_str());
            push_all(&mut a, &host);
            push_char(&mut a, ':');
            let port = decimal_of(self.port);
            push_all(&mut a, &port);
            assert(a@ =~= address_spec(self@));
            a
        }
    }
}

/// The name a fresh install proposes for the account `user`.
pub fn default_name(user: &str) -> (name: String)
    ensures
        name@ == default_name_spec(user@),
{
    let chars = chars_of(user);
    let mut kept: Vec<char> = Vec::new();
    let mut i: usize = 0;
    while i < chars.len()
        invariant
            i <= chars@.len(),
            kept@ == without_controls(chars@.subrange(0, i as int)),
        decreases chars.len() - i,
    {
        let c = chars[i];
        proof {
            let s = chars@.subrange(0, i as int + 1);
            assert(s.drop_last() =~= chars@.subrange(0, i as int));
            reveal_with_fuel(Seq::filter, 1);
        }
        if !is_control(c) {
            kept.push(c);
        }
        i = i + 1;
    }
    assert(chars@.subrange(0, chars@.len() as int) =~= chars@);
    let n = if kept.len() <= MAX_NAME_CHARS {
        kept.len()
    } else {
        MAX_NAME_CHARS
    };
    let name = slice_of(&kept, 0, n);
    assert(name@ =~= take_chars(kept@, MAX_NAME_CHARS as int));
    if n == 0 {
        string_lit(['S', 'p', 'i', 'e', 'l', 'e', 'r'])
    } else {
        string_of(&name)
    }
}

/// A field the settings file can carry: non-empty, on one line, with no
/// white space around it.
pub open spec fn storable(s: Seq<char>) -> bool {
    s.len() > 0 && !s.contains('\n') && trim(s) == s
}

proof fn lemma_next_line(st: SettingsView, line: Seq<char>, rest: Seq<char>)
    requires
        !line.contains('\n'),
    ensures
        merge_text(st, line + seq!['\n'] + rest) == merge_text(merge_line(st, line), rest),
{
    let text = line + seq!['\n'] + rest;
    assert forall|j: int| 0 <= j < line.len() implies text[j] != '\n' by {
        assert(text[j] == line[j]);
    }
    lemma_first_index_is(text, '\n', line.len() as int);
    assert(text.subrange(0, line.len() as int) =~= line);
    assert(text.subrange(line.len() as int + 1, text.len() as int) =~= rest);
}

proof fn lemma_key_value(key: Seq<char>, value: Seq<char>)
    requires
        !key.contains('='),
        key.len() > 0,
        !is_white_space(key[0]),
        !is_white_space(key.last()),
        trim(value) == value,
    ensures
        ({
            let line = key + seq!['='] + value;
            let e = first_index(line, '=');
            &&& e == key.len()
            &&& trim(line.subrange(0, e)) == key
            &&& trim(line.subrange(e + 1, line.len() as int)) == value
        }),
{
    let line = key + seq!['='] + value;
    assert forall|j: int| 0 <= j < key.len() implies line[j] != '=' by {
        assert(line[j] == key[j]);
    }
    lemma_first_index_is(line, '=', key.len() as int);
    assert(line.subrange(0, key.len() as int) =~= key);
    assert(line.subrange(key.len() as int + 1, line.len() as int) =~= value);
    lemma_trim_identity(key);
}

proof fn lemma_flag_text(b: bool)
    ensures
        trim(flag_text(b)) == flag_text(b),
        !flag_text(b).contains('\n'),
        (flag_text(b) != seq!['0']) == b,
        (flag_text(b) == seq!['1']) == b,
{
    lemma_trim_identity(flag_text(b));
    if !b {
        assert(flag_text(b) != seq!['1']) by {
            assert(flag_text(b)[0] != seq!['1'][0]);
        }
    } else {
        assert(flag_text(b) != seq!['0']) by {
            assert(flag_text(b)[0] != seq!['0'][0]);
        }
    }
}

proof fn lemma_decimal_plain(n: u16)
    ensures
        trim(decimal(n as nat)) == decimal(n as nat),
        !decimal(n as nat).contains('\n'),
        !decimal(n as nat).contains(':'),
        decimal(n as nat)[0] != '[',
{
    let d = decimal(n as nat);
    lemma_decimal_digits(n as nat);
    lemma_digit_is_plain(d[0]);
    lemma_digit_is_plain(d.last());
    lemma_trim_identity(d);
    assert forall|j: int| 0 <= j < d.len() implies d[j] != '\n' && d[j] != ':' by {
        lemma_digit_is_plain(d[j]);
    }
}

/// Reading back what [`Settings::to_text`] wrote restores every setting,
/// whatever the settings were before, as long as the name (at most 24
/// characters) and the host can be stored in the file.
pub proof fn lemma_text_round_trip(start: SettingsView, s: SettingsView)
    requires
        storable(s.name),
        s.name.len() <= MAX_NAME_CHARS,
        storable(s.host),
    ensures
        merge_text(start, to_text_spec(s)) == s,
{
    let k1 = seq!['n', 'a', 'm', 'e'];
    let k2 = seq!['h', 'o', 's', 't'];
    let k3 = seq!['p', 'o', 'r', 't'];
    let k4 = seq!['s', 'o', 'u', 'n', 'd'];
    let k5 = seq!['b', 'o', 't'];
    let port = decimal(s.port as nat);
    let l1 = k1 + seq!['='] + s.name;
    let l2 = k2 + seq!['='] + s.host;
    let l3 = k3 + seq!['='] + port;
    let l4 = k4 + seq!['='] + flag_text(s.sound);
    let l5 = k5 + seq!['='] + flag_text(s.bot);
    let nl = seq!['\n'];
    let empty = Seq::<char>::empty();
    assert(to_text_spec(s) =~= l1 + nl + (l2 + nl + (l3 + nl + (l4 + nl + (l5 + nl + empty)))));
    lemma_decimal_plain(s.port);
    lemma_flag_text(s.sound);
    lemma_flag_text(s.bot);
    lemma_trimmed_ends(s.name);
    lemma_trimmed_ends(s.host);
    assert(!k1.contains('=') && !k2.contains('=') && !k3.contains('=') && !k4.contains('=')
        && !k5.contains('='));
    lemma_key_value(k1, s.name);
    lemma_key_value(k2, s.host);
    lemma_key_value(k3, port);
    lemma_key_value(k4, flag_text(s.sound));
    lemma_key_value(k5, flag_text(s.bot));
    assert forall|l: Seq<char>, k: Seq<char>, v: Seq<char>|
        l == k + seq!['='] + v && !k.contains('\n') && !v.contains('\n') implies !l.contains(
        '\n',
    ) by {
        if l.contains('\n') {
            let j = choose|j: int| 0 <= j < l.len() && l[j] == '\n';
            if j < k.len() {
                assert(k[j] == '\n');
            } else if j > k.len() {
                assert(v[j - k.len() - 1] == '\n');
            }
        }
    }
    assert(!k1.contains('\n') && !k2.contains('\n') && !k3.contains('\n') && !k4.contains(
        '\n',
    ) && !k5.contains('\n'));
    let st1 = merge_line(start, l1);
    let st2 = merge_line(st1, l2);
    let st3 = merge_line(st2, l3);
    let st4 = merge_line(st3, l4);
    let st5 = merge_line(st4, l5);
    assert(take_chars(s.name, MAX_NAME_CHARS as int) == s.name);
    lemma_parse_decimal(s.port);
    lemma_next_line(start, l1, l2 + nl + (l3 + nl + (l4 + nl + (l5 + nl + empty))));
    lemma_next_line(st1, l2, l3 + nl + (l4 + nl + (l5 + nl + empty)));
    lemma_next_line(st2, l3, l4 + nl + (l5 + nl + empty));
    lemma_next_line(st3, l4, l5 + nl + empty);
    lemma_next_line(st4, l5, empty);
    assert(merge_text(st5, empty) == st5);
    assert(st5.name =~= s.name);
    assert(st5.host =~= s.host);
}

/// A host the address field can carry: no colon, no white space around it.
pub open spec fn plain_host(h: Seq<char>) -> bool {
    &&& !h.contains(':')
    &&& trim(h) == h
}

/// A host in brackets, as an IPv6 address is written before its port.
pub open spec fn bracketed(h: Seq<char>) -> bool {
    h.len() > 0 && h[0] == '[' && h.last() == ']'
}

/// Typing back the address the menu shows changes nothing, unless a host in
/// brackets comes with a port: `[h]:port` is then read as host `h`.
pub proof fn lemma_address_round_trip(s: SettingsView)
    requires
        plain_host(s.host),
        !(bracketed(s.host) && s.port != DEFAULT_UDP_PORT),
    ensures
        set_address_spec(s, address_spec(s)) == s,
{
    let a = address_spec(s);
    let h = s.host;
    if h.len() > 0 {
        lemma_trimmed_ends(h);
    }
    if s.port == DEFAULT_UDP_PORT {
        assert(trim(a) == a);
        assert(a == h);
        if h.len() > 0 {
            assert forall|i: int| 0 <= i < a.drop_first().len() - 1 implies !(#[trigger] a.drop_first()[i]
                == ']' && a.drop_first()[i + 1] == ':') by {
                assert(a.drop_first()[i + 1] == h[i + 2]);
            }
            lemma_first_pair_none(a.drop_first(), ']', ':');
        }
        lemma_last_index_is(a, ':', -1);
        assert(set_address_spec(s, a).host =~= h);
    } else {
        let d = decimal(s.port as nat);
        lemma_decimal_plain(s.port);
        lemma_decimal_digits(s.port as nat);
        lemma_digit_is_plain(d.last());
        assert(a.last() == d.last());
        if h.len() > 0 {
            assert(a[0] == h[0]);
        } else {
            assert(a[0] == ':');
        }
        lemma_trim_identity(a);
        if h.len() > 0 && h[0] == '[' {
            assert(a =~= h + seq![':'] + d);
            assert forall|i: int| 0 <= i < a.drop_first().len() - 1 implies !(#[trigger] a.drop_first()[i]
                == ']' && a.drop_first()[i + 1] == ':') by {
                assert(a.drop_first()[i] == a[i + 1] && a.drop_first()[i + 1] == a[i + 2]);
                if i + 2 < h.len() {
                    assert(a[i + 2] == h[i + 2]);
                } else if i + 2 == h.len() {
                    assert(a[i + 1] == h.last());
                } else {
                    assert(a[i + 2] == d[i + 2 - h.len() - 1]);
                }
            }
            lemma_first_pair_none(a.drop_first(), ']', ':');
        }
        assert forall|j: int| h.len() < j < a.len() implies a[j] != ':' by {
            assert(a[j] == d[j - h.len() - 1]);
        }
        lemma_last_index_is(a, ':', h.len() as int);
        assert(a.subrange(0, h.len() as int) =~= h);
        assert(a.subrange(h.len() as int + 1, a.len() as int) =~= d);
        assert forall|j: int| 0 <= j < h.len() implies h[j] != ':' by {}
        lemma_first_index_none(h, ':');
        lemma_parse_decimal(s.port);
        assert(set_address_spec(s, a).host =~= h);
    }
}

} // verus!
