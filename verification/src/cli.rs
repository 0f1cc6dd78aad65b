//! The command line of the player client.
//!
//! `--host ADDRESS`, `--port PORT`, `--name NAME` (each also as
//! `--key=value`), and the switches `--bot`, `--connect`, `--autostart`,
//! `--debug`, `--help`/`-h`. Unknown arguments are ignored. A value that is
//! missing reads as empty.

use vstd::prelude::*;

use crate::settings::{set_address_spec, take_chars, Settings, SettingsView, MAX_NAME_CHARS};
use crate::text::{
    chars_of, find_between, first_index, parse_u16, parse_u16_spec, same_lit, slice_of, string_of,
};

verus! {

/// What the command line asks for.
pub struct Options {
    pub settings: Settings,
    /// Skip the menu and connect at once.
    pub connect: bool,
    /// Start the match as soon as it may be started.
    pub autostart: bool,
    pub debug: bool,
}

/// The options, and whether the usage text was asked for; parsing stops
/// there.
pub struct Parsed {
    pub options: Options,
    pub help: bool,
}

/// The options as plain values.
pub struct ParseState {
    pub settings: SettingsView,
    pub connect: bool,
    pub autostart: bool,
    pub debug: bool,
    pub help: bool,
}

/// An argument's key: everything before its first `=`.
pub open spec fn key_of(arg: Seq<char>) -> Seq<char> {
    let i = first_index(arg, '=');
    if i >= 0 {
        arg.subrange(0, i)
    } else {
        arg
    }
}

/// The value written into the argument itself, after its first `=`.
pub open spec fn inline_of(arg: Seq<char>) -> Option<Seq<char>> {
    let i = first_index(arg, '=');
    if i >= 0 {
        Some(arg.subrange(i + 1, arg.len() as int))
    } else {
        None
    }
}

pub open spec fn takes_value(key: Seq<char>) -> bool {
    key == seq!['-', '-', 'h', 'o', 's', 't'] || key == seq!['-', '-', 'p', 'o', 'r', 't'] || key
        == seq!['-', '-', 'n', 'a', 'm', 'e']
}

/// The arguments from `i` on, read into `st`.
pub open spec fn parse_from(args: Seq<Seq<char>>, i: int, st: ParseState) -> ParseState
    decreases args.len() - i,
{
    if i >= args.len() || i < 0 || st.help {
        st
    } else {
        let arg = args[i];
        let key = key_of(arg);
        let from_next = takes_value(key) && inline_of(arg) is None && i + 1 < args.len();
        let value = match inline_of(arg) {
            Some(v) => v,
            None => if i + 1 < args.len() {
                args[i + 1]
            } else {
                Seq::empty()
            },
        };
        let next = if from_next {
            i + 2
        } else {
            i + 1
        };
        let st2 = if key == seq!['-', '-', 'h', 'o', 's', 't'] {
            ParseState { settings: set_address_spec(st.settings, value), ..st }
        } else if key == seq!['-', '-', 'p', 'o', 'r', 't'] {
            ParseState {
                settings: SettingsView {
                    port: match parse_u16_spec(value) {
                        Some(p) => p,
                        None => st.settings.port,
                    },
                    ..st.settings
                },
                ..st
            }
        } else if key == seq!['-', '-', 'n', 'a', 'm', 'e'] {
            ParseState {
                settings: SettingsView { name: take_chars(value, MAX_NAME_CHARS as int), ..st.settings },
                ..st
            }
        } else if key == seq!['-', '-', 'b', 'o', 't'] {
            ParseState { settings: SettingsView { bot: true, ..st.settings }, ..st }
        } else if key == seq!['-', '-', 'c', 'o', 'n', 'n', 'e', 'c', 't'] {
            ParseState { connect: true, ..st }
        } else if key == seq!['-', '-', 'a', 'u', 't', 'o', 's', 't', 'a', 'r', 't'] {
            ParseState { autostart: true, ..st }
        } else if key == seq!['-', '-', 'd', 'e', 'b', 'u', 'g'] {
            ParseState { debug: true, ..st }
        } else if key == seq!['-', '-', 'h', 'e', 'l', 'p'] || key == seq!['-', 'h'] {
            ParseState { help: true, ..st }
        } else {
            st
        };
        parse_from(args, next, st2)
    }
}

pub open spec fn parsed_view(p: Parsed) -> ParseState {
    ParseState {
        settings: p.options.settings@,
        connect: p.options.connect,
        autostart: p.options.autostart,
        debug: p.options.debug,
        help: p.help,
    }
}

/// The views of the arguments.
pub open spec fn arg_views(args: Seq<String>) -> Seq<Seq<char>> {
    Seq::new(args.len(), |i: int| args[i]@)
}

/// Reads the arguments (the program name left out) over `settings`.
pub fn parse_args(args: &Vec<String>, settings: Settings) -> (p: Parsed)
    ensures
        parsed_view(p) == parse_from(
            arg_views(args@),
            0,
            ParseState { settings: settings@, connect: false, autostart: false, debug: false, help: false },
        ),
{
    broadcast use vstd::array::group_array_axioms;

    let ghost views = arg_views(args@);
    let mut p = Parsed {
        options: Options { settings, connect: false, autostart: false, debug: false },
        help: false,
    };
    let mut i: usize = 0;
    while i < args.len() && !p.help
        invariant
            views == arg_views(args@),
            i <= args@.len() + 1,
            parse_from(views, i as int, parsed_view(p)) == parse_from(
                views,
                0,
                ParseState { settings: settings@, connect: false, autostart: false, debug: false, help: false },
            ),
        decreases args@.len() + 1 - i,
    {
        let arg = chars_of(args[i].as_str());
        assert(arg@ == views[i as int]);
        assert(arg@.subrange(0, arg@.len() as int) =~= arg@);
        proof {
            crate::text::lemma_first_index(arg@, '=');
        }
        let eq = find_between(arg.as_slice(), '=', 0, arg.len());
        let (key, inline) = match eq {
            Some(k) => (slice_of(arg.as_slice(), 0, k), Some(slice_of(arg.as_slice(), k + 1, arg.len()))),
            None => (slice_of(arg.as_slice(), 0, arg.len()), None),
        };
        let is_host = same_lit(key.as_slice(), ['-', '-', 'h', 'o', 's', 't']);
        let is_port = same_lit(key.as_slice(), ['-', '-', 'p', 'o', 'r', 't']);
        let is_name = same_lit(key.as_slice(), ['-', '-', 'n', 'a', 'm', 'e']);
        let mut next = i + 1;
        let value: Vec<char> = match inline {
            Some(v) => v,
            None => if i + 1 < args.len() {
                if is_host || is_port || is_name {
                    next = i + 2;
                }
                chars_of(args[i + 1].as_str())
            } else {
                Vec::new()
            },
        };
        proof {
            assert(key@ == key_of(views[i as int]));
            if i + 1 < args@.len() {
                assert(views[i as int + 1] == args@[i as int + 1]@);
            }
        }
        if is_host {
            let text = string_of(value.as_slice());
            p.options.settings.set_address(text.as_str());
        } else if is_port {
            match parse_u16(value.as_slice()) {
                Some(port) => p.options.settings.port = port,
                None => {},
            }
        } else if is_name {
            let n = if value.len() <= MAX_NAME_CHARS { value.len() } else { MAX_NAME_CHARS };
            let name = slice_of(value.as_slice(), 0, n);
            p.options.settings.name = string_of(name.as_slice());
            proof {
                assert(value@.subrange(0, value@.len() as int) =~= value@);
            }
        } else if same_lit(key.as_slice(), ['-', '-', 'b', 'o', 't']) {
            p.options.settings.bot = true;
        } else if same_lit(key.as_slice(), ['-', '-', 'c', 'o', 'n', 'n', 'e', 'c', 't']) {
            p.options.connect = true;
        } else if same_lit(key.as_slice(), ['-', '-', 'a', 'u', 't', 'o', 's', 't', 'a', 'r', 't']) {
            p.options.autostart = true;
        } else if same_lit(key.as_slice(), ['-', '-', 'd', 'e', 'b', 'u', 'g']) {
            p.options.debug = true;
        } else if same_lit(key.as_slice(), ['-', '-', 'h', 'e', 'l', 'p']) || same_lit(
            key.as_slice(),
            ['-', 'h'],
        ) {
            p.help = true;
        }
        i = next;
    }
    p
}

} // verus!
