//! The flags the benchmark server takes, the ones every server of the
//! suite defines, in the suite's flag syntax; and how often it samples
//! itself.

use vstd::prelude::*;

use crate::flags::{arg_shape, arg_start, parse_bool, read_bool, slice_chars, ArgShape, ArgStart};
use crate::numbers::{parse_i64, parse_unsigned, read_i64, read_unsigned};
use crate::procfs::{parse_i32, trim_white, trimmed};
use crate::text::{chars_of, find_char, first_of, is_text, string_of};

verus! {

/// The server's flags.
#[derive(Clone, Copy, Debug, PartialEq, Eq, Structural)]
pub struct ServerFlags {
    /// `-nodelay`: TCP_NODELAY on accepted connections.
    pub nodelay: bool,
    /// `-reuseport`: SO_REUSEPORT on the listeners.
    pub reuseport: bool,
    /// `-b`: the request body size the client sends.
    pub payload: usize,
    /// `-m`: the memory limit a garbage-collected server sets; taken and
    /// ignored.
    pub mem_limit: i64,
}

/// The flags before any argument: both socket options on, a 1024-byte
/// payload, and a 2 GiB memory limit.
pub open spec fn server_defaults() -> ServerFlags {
    ServerFlags { nodelay: true, reuseport: true, payload: 1024, mem_limit: 2_147_483_648 }
}

/// Why the server's arguments were not taken.
#[derive(Debug)]
pub enum ServerFlagError {
    /// `-h` or `-help`: the usage was asked for.
    Help,
    /// An argument that is not a flag.
    Unexpected(String),
    /// A flag the server does not define.
    Undefined(String),
    /// `-b` or `-m` at the end, with no value after it.
    NeedsArgument(String),
    /// A bool flag's value that is not a bool.
    InvalidBool { name: String, value: String },
    /// A number flag's value that is not a number of its type.
    InvalidValue { name: String, value: String },
    /// An argument with a dash or `=` right after its dashes.
    BadSyntax(String),
}

/// `ServerFlagError`, text as characters.
pub enum ServerFlagErrorView {
    Help,
    Unexpected(Seq<char>),
    Undefined(Seq<char>),
    NeedsArgument(Seq<char>),
    InvalidBool { name: Seq<char>, value: Seq<char> },
    InvalidValue { name: Seq<char>, value: Seq<char> },
    BadSyntax(Seq<char>),
}

impl View for ServerFlagError {
    type V = ServerFlagErrorView;

    open spec fn view(&self) -> ServerFlagErrorView {
        match self {
            ServerFlagError::Help => ServerFlagErrorView::Help,
            ServerFlagError::Unexpected(a) => ServerFlagErrorView::Unexpected(a@),
            ServerFlagError::Undefined(n) => ServerFlagErrorView::Undefined(n@),
            ServerFlagError::NeedsArgument(n) => ServerFlagErrorView::NeedsArgument(n@),
            ServerFlagError::InvalidBool { name, value } => ServerFlagErrorView::InvalidBool {
                name: name@,
                value: value@,
            },
            ServerFlagError::InvalidValue { name, value } => ServerFlagErrorView::InvalidValue {
                name: name@,
                value: value@,
            },
            ServerFlagError::BadSyntax(a) => ServerFlagErrorView::BadSyntax(a@),
        }
    }
}

/// The flags after the arguments from `i` on, read on top of `f`: a bool
/// flag takes only a value after `=`, and stands alone for true; `-b` and
/// `-m` take one after `=` or the next argument; `--` ends the flags, and
/// any other argument that is not a flag is refused.
pub open spec fn server_parse_from(args: Seq<Seq<char>>, i: int, f: ServerFlags) -> Result<
    ServerFlags,
    ServerFlagErrorView,
>
    decreases args.len() - i,
{
    if i < 0 || i >= args.len() {
        Ok(f)
    } else {
        match arg_shape(args[i]) {
            ArgShape::NotFlag => Err(ServerFlagErrorView::Unexpected(args[i])),
            ArgShape::End => Ok(f),
            ArgShape::Bad => Err(ServerFlagErrorView::BadSyntax(args[i])),
            ArgShape::Flag(text) => {
                let eq = first_of(text, '=');
                let name = text.subrange(0, eq);
                let inline = if eq < text.len() {
                    Some(text.subrange(eq + 1, text.len() as int))
                } else {
                    None
                };
                if name == "nodelay"@ || name == "reuseport"@ {
                    let on = match inline {
                        None => Some(true),
                        Some(v) => parse_bool(v),
                    };
                    match on {
                        None => Err(
                            ServerFlagErrorView::InvalidBool { name, value: inline->Some_0 },
                        ),
                        Some(b) => server_parse_from(
                            args,
                            i + 1,
                            if name == "nodelay"@ {
                                ServerFlags { nodelay: b, ..f }
                            } else {
                                ServerFlags { reuseport: b, ..f }
                            },
                        ),
                    }
                } else if name == "b"@ || name == "m"@ {
                    let (value, next) = match inline {
                        Some(v) => (Some(v), i + 1),
                        None => if i + 1 < args.len() {
                            (Some(args[i + 1]), i + 2)
                        } else {
                            (None, i + 1)
                        },
                    };
                    match value {
                        None => Err(ServerFlagErrorView::NeedsArgument(name)),
                        Some(v) => if name == "b"@ {
                            match parse_unsigned(v, usize::MAX as int) {
                                None => Err(ServerFlagErrorView::InvalidValue { name, value: v }),
                                Some(n) => server_parse_from(
                                    args,
                                    next,
                                    ServerFlags { payload: n as usize, ..f },
                                ),
                            }
                        } else {
                            match parse_i64(v) {
                                None => Err(ServerFlagErrorView::InvalidValue { name, value: v }),
                                Some(n) => server_parse_from(
                                    args,
                                    next,
                                    ServerFlags { mem_limit: n as i64, ..f },
                                ),
                            }
                        },
                    }
                } else if name == "h"@ || name == "help"@ {
                    Err(ServerFlagErrorView::Help)
                } else {
                    Err(ServerFlagErrorView::Undefined(name))
                }
            },
        }
    }
}

/// The arguments as characters.
pub open spec fn server_args(args: Seq<String>) -> Seq<Seq<char>> {
    args.map_values(|a: String| a@)
}

/// Reads the server's arguments (without the program's name) on top of
/// the defaults.
pub fn parse_flags(args: &Vec<String>) -> (r: Result<ServerFlags, ServerFlagError>)
    ensures
        match r {
            Ok(f) => server_parse_from(server_args(args@), 0, server_defaults()) == Ok::<
                ServerFlags,
                ServerFlagErrorView,
            >(f),
            Err(e) => server_parse_from(server_args(args@), 0, server_defaults()) == Err::<
                ServerFlags,
                ServerFlagErrorView,
            >(e@),
        },
{
    let ghost all = server_args(args@);
    let mut f = ServerFlags { nodelay: true, reuseport: true, payload: 1024, mem_limit: 2_147_483_648 };
    assert(f == server_defaults());
    let mut i: usize = 0;
    while i < args.len()
        invariant
            all == server_args(args@),
            i <= args@.len(),
            server_parse_from(all, i as int, f) == server_parse_from(all, 0, server_defaults()),
        decreases args@.len() - i,
    {
        let a = chars_of(args[i].as_str());
        assert(a@ == all[i as int]);
        let start: usize = match arg_start(&a) {
            ArgStart::NotFlag => {
                return Err(ServerFlagError::Unexpected(string_of(&a)));
            },
            ArgStart::End => {
                return Ok(f);
            },
            ArgStart::Bad => {
                return Err(ServerFlagError::BadSyntax(string_of(&a)));
            },
            ArgStart::At(k) => k,
        };
        let ghost text = a@.skip(start as int);
        let eq = find_char(&a, start, a.len(), '=');
        assert(a@.subrange(start as int, a@.len() as int) =~= text);
        let name = slice_chars(&a, start, eq);
        assert(name@ =~= text.subrange(0, eq - start));
        let has_inline = eq < a.len();
        let inline = if has_inline {
            slice_chars(&a, eq + 1, a.len())
        } else {
            Vec::new()
        };
        proof {
            if has_inline {
                assert(inline@ =~= text.subrange(eq - start + 1, text.len() as int));
            }
        }
        if is_text(&name, "nodelay") || is_text(&name, "reuseport") {
            let on = if has_inline {
                read_bool(&inline)
            } else {
                Some(true)
            };
            match on {
                None => {
                    return Err(
                        ServerFlagError::InvalidBool { name: string_of(&name), value: string_of(&inline) },
                    );
                },
                Some(b) => {
                    if is_text(&name, "nodelay") {
                        f.nodelay = b;
                    } else {
                        f.reuseport = b;
                    }
                },
            }
            i = i + 1;
        } else if is_text(&name, "b") || is_text(&name, "m") {
            let value: Vec<char>;
            let next: usize;
            if has_inline {
                value = inline;
                next = i + 1;
            } else if i + 1 < args.len() {
                value = chars_of(args[i + 1].as_str());
                assert(value@ == all[i + 1]);
                next = i + 2;
            } else {
                return Err(ServerFlagError::NeedsArgument(string_of(&name)));
            }
            if is_text(&name, "b") {
                match read_unsigned(&value, usize::MAX as u64) {
                    None => {
                        return Err(
                            ServerFlagError::InvalidValue { name: string_of(&name), value: string_of(&value) },
                        );
                    },
                    Some(n) => {
                        f.payload = n as usize;
                    },
                }
            } else {
                match read_i64(&value) {
                    None => {
                        return Err(
                            ServerFlagError::InvalidValue { name: string_of(&name), value: string_of(&value) },
                        );
                    },
                    Some(n) => {
                        f.mem_limit = n;
                    },
                }
            }
            i = next;
        } else if is_text(&name, "h") || is_text(&name, "help") {
            return Err(ServerFlagError::Help);
        } else {
            return Err(ServerFlagError::Undefined(string_of(&name)));
        }
    }
    Ok(f)
}

/// How often the server samples itself once `/init` asks it to: the
/// nanoseconds asked for, or a second when none, or none above zero, are.
pub fn sample_interval(requested: Option<u64>) -> (r: u64)
    ensures
        r == match requested {
            Some(ns) => if ns > 0 { ns } else { 1_000_000_000 },
            None => 1_000_000_000,
        },
{
    match requested {
        Some(ns) => if ns > 0 {
            ns
        } else {
            1_000_000_000
        },
        None => 1_000_000_000,
    }
}

/// The `PsInterval` an `/init` body asks for: the number under that key of
/// the JSON object the body holds, when it is one that fits a `u64`.
pub uninterp spec fn ps_interval_of(body: Seq<u8>) -> Option<u64>;

/// `serde_json::from_slice` of the body into a `serde_json::Value`, then
/// `get("PsInterval")` and `as_u64` on what it finds: None where the body is
/// not JSON, has no such key, or holds there no whole number that fits a
/// `u64`. The result is a function of the body's bytes alone, and is named.
#[verifier::external_body]
fn read_ps_interval(body: &[u8]) -> (r: Option<u64>)
    ensures
        r == ps_interval_of(body@),
{
    match serde_json::from_slice::<serde_json::Value>(body) {
        Ok(v) => match v.get("PsInterval") {
            Some(n) => n.as_u64(),
            None => None,
        },
        Err(_) => None,
    }
}

/// How often the server samples itself after the `/init` request whose
/// body is `body`: the `PsInterval` it asks for, in nanoseconds, or a
/// second when it asks for none, or for none above zero.
pub fn init_interval(body: &[u8]) -> (r: u64)
    ensures
        r == match ps_interval_of(body@) {
            Some(ns) => if ns > 0 { ns } else { 1_000_000_000 },
            None => 1_000_000_000,
        },
{
    sample_interval(read_ps_interval(body))
}

/// The listen backlog `/proc/sys/net/core/somaxconn` gives: its number,
/// trimmed, or 4096 when it holds none.
pub fn somaxconn_of(text: &str) -> (r: i32)
    ensures
        r == match parse_i32(trimmed(text@)) {
            Some(v) => v,
            None => 4096,
        },
{
    let cs = chars_of(text);
    let t = trim_white(&cs);
    match read_i64(&t) {
        Some(v) => if -2147483648 <= v && v <= 2147483647 {
            v as i32
        } else {
            4096
        },
        None => 4096,
    }
}

} // verus!
