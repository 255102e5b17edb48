//! Command-line launch options: client (optionally with a server address),
//! dedicated server, or host, each with a port.

use vstd::prelude::*;
use vstd::string::StringExecFns;
use crate::chars::{chars_of, push_char};

verus! {

pub const DEFAULT_PORT: u16 = 3456;

/// Options of a windowed client.
pub struct ClientLaunchOptions {
    pub server_ip: Option<String>,
    pub server_port: u16,
}

/// Options of a dedicated server.
pub struct ServerLaunchOptions {
    pub port: u16,
}

/// Options of a host (server and local client in one process).
pub struct HostLaunchOptions {
    pub port: u16,
}

/// How the program starts.
pub enum StartupMode {
    Client(ClientLaunchOptions),
    Server(ServerLaunchOptions),
    Host(HostLaunchOptions),
}

/// The mode chosen so far while reading the arguments.
#[derive(Clone, Copy, Debug, PartialEq, Eq, Structural)]
pub enum LaunchMode {
    Client,
    Server,
    Host,
}

/// Whether `c` is an ASCII decimal digit.
pub open spec fn is_digit(c: char) -> bool {
    '0' <= c <= '9'
}

/// The decimal value of the digits `s`.
pub open spec fn decimal_value(s: Seq<char>) -> int
    decreases s.len(),
{
    if s.len() == 0 {
        0
    } else {
        decimal_value(s.drop_last()) * 10 + (s.last() as int - '0' as int)
    }
}

/// Whether every character of `s` is a decimal digit.
pub open spec fn all_digits(s: Seq<char>) -> bool {
    forall|i: int| 0 <= i < s.len() ==> is_digit(#[trigger] s[i])
}

/// `s` without a leading `+`, if it has one.
pub open spec fn unsigned_digits(s: Seq<char>) -> Seq<char> {
    if s.len() > 0 && s[0] == '+' { s.drop_first() } else { s }
}

/// The port number written by `s` as `u16::from_str` reads it: an optional
/// `+`, then one or more decimal digits, with a value of at most 65535.
pub open spec fn port_text(s: Seq<char>) -> Option<u16> {
    let digits = unsigned_digits(s);
    if digits.len() > 0 && all_digits(digits) && decimal_value(digits) <= 65535 {
        Some(decimal_value(digits) as u16)
    } else {
        None
    }
}

/// Parses a port number; the error names the text that is not one.
pub fn parse_port(value: &str) -> (r: Result<u16, String>)
    ensures
        match port_text(value@) {
            Some(p) => r == Ok::<u16, String>(p),
            None => r matches Err(e) && e@ == "invalid port: "@ + value@,
        },
{
    let cs = chars_of(value);
    let ghost s = value@;
    let start: usize = if cs.len() > 0 && cs[0] == '+' { 1 } else { 0 };
    let ghost digits = unsigned_digits(s);
    proof {
        assert(digits =~= s.skip(start as int));
    }
    let mut ok: bool = cs.len() > start;
    let mut acc: u32 = 0;
    let mut i: usize = start;
    while ok && i < cs.len()
        invariant
            cs@ == s,
            start <= i <= cs@.len(),
            digits == s.skip(start as int),
            digits == unsigned_digits(s),
            ok ==> acc == decimal_value(digits.take(i - start)),
            ok ==> acc <= 65535,
            ok ==> forall|k: int| 0 <= k < i - start ==> is_digit(#[trigger] digits[k]),
            ok ==> digits.len() > 0,
            !ok ==> port_text(s) is None,
        decreases cs@.len() - i + if ok { 1int } else { 0 },
    {
        let c: char = cs[i];
        proof {
            assert(digits.take(i - start + 1).drop_last() =~= digits.take(i - start));
            assert(digits[i - start] == c);
        }
        if c >= '0' && c <= '9' {
            let d: u32 = (c as u32) - ('0' as u32);
            let next: u32 = acc * 10 + d;
            proof {
                assert(decimal_value(digits.take(i - start + 1)) == next);
            }
            if next > 65535 {
                proof {
                    if all_digits(digits) {
                        lemma_decimal_prefix_bound(digits, i - start + 1);
                    }
                }
                ok = false;
            } else {
                acc = next;
                i = i + 1;
            }
        } else {
            assert(!is_digit(digits[i - start]));
            ok = false;
        }
    }
    if ok {
        proof {
            assert(digits.take(i - start) =~= digits);
        }
        Ok(acc as u16)
    } else {
        let mut e = String::from_str("invalid port: ");
        e.append(value);
        Err(e)
    }
}

/// A digit string is worth at least any of its prefixes.
proof fn lemma_decimal_prefix_bound(s: Seq<char>, n: int)
    requires
        0 <= n <= s.len(),
        all_digits(s),
    ensures
        decimal_value(s.take(n)) <= decimal_value(s),
    decreases s.len() - n,
{
    if n < s.len() {
        lemma_decimal_prefix_bound(s, n + 1);
        assert(s.take(n + 1).drop_last() =~= s.take(n));
        assert(s.take(n) =~= s.take(n + 1).drop_last());
        assert(all_digits(s.take(n)));
        lemma_decimal_nonneg(s.take(n));
        assert(is_digit(s[n]));
    } else {
        assert(s.take(n) =~= s);
    }
}

proof fn lemma_decimal_nonneg(s: Seq<char>)
    requires
        all_digits(s),
    ensures
        decimal_value(s) >= 0,
    decreases s.len(),
{
    if s.len() > 0 {
        assert(all_digits(s.drop_last()));
        lemma_decimal_nonneg(s.drop_last());
        assert(is_digit(s[s.len() - 1]));
    }
}

/// What the arguments so far have chosen: mode, server address and port.
pub type LaunchState = (LaunchMode, Option<Seq<char>>, u16);

/// The usage line printed for `--help`.
pub open spec fn usage_text() -> Seq<char> {
    "usage: cpu-game [--client|--server|--host|--mode=client|--mode=server|--mode=host] [--ip <addr>] [--port <port>]"@
}

/// Reads `args` from state `st`, left to right: a mode word sets the mode;
/// `--ip <addr>` / `--ip=<addr>` the server address; `--port <port>` /
/// `--port=<port>` the port; `--help` / `-h` stops with the usage line; a
/// missing value, a bad port or any other argument stops with an error.
pub open spec fn read_args(args: Seq<Seq<char>>, st: LaunchState) -> Result<LaunchState, Seq<char>>
    decreases args.len(),
{
    if args.len() == 0 {
        Ok(st)
    } else {
        let a = args[0];
        let rest = args.drop_first();
        if a == "client"@ || a == "--client"@ || a == "--mode=client"@ {
            read_args(rest, (LaunchMode::Client, st.1, st.2))
        } else if a == "server"@ || a == "--server"@ || a == "--mode=server"@ {
            read_args(rest, (LaunchMode::Server, st.1, st.2))
        } else if a == "host"@ || a == "--host"@ || a == "--mode=host"@ {
            read_args(rest, (LaunchMode::Host, st.1, st.2))
        } else if a == "--ip"@ {
            if rest.len() == 0 {
                Err("missing value after --ip"@)
            } else {
                read_args(rest.drop_first(), (st.0, Some(rest[0]), st.2))
            }
        } else if a == "--port"@ {
            if rest.len() == 0 {
                Err("missing value after --port"@)
            } else {
                match port_text(rest[0]) {
                    Some(p) => read_args(rest.drop_first(), (st.0, st.1, p)),
                    None => Err("invalid port: "@ + rest[0]),
                }
            }
        } else if a == "--help"@ || a == "-h"@ {
            Err(usage_text())
        } else if "--ip="@.is_prefix_of(a) {
            read_args(rest, (st.0, Some(a.skip("--ip="@.len() as int)), st.2))
        } else if "--port="@.is_prefix_of(a) {
            let v = a.skip("--port="@.len() as int);
            match port_text(v) {
                Some(p) => read_args(rest, (st.0, st.1, p)),
                None => Err("invalid port: "@ + v),
            }
        } else {
            Err("unrecognized argument: "@ + a)
        }
    }
}

/// The text of an optional string.
pub open spec fn text_of(s: Option<String>) -> Option<Seq<char>> {
    match s {
        Some(t) => Some(t@),
        None => None,
    }
}

/// The texts of `args`.
pub open spec fn arg_texts(args: Seq<String>) -> Seq<Seq<char>> {
    args.map_values(|a: String| a@)
}

impl StartupMode {
    /// Whether this mode is what state `st` describes.
    pub open spec fn describes(&self, st: LaunchState) -> bool {
        match self {
            StartupMode::Client(o) => st.0 == LaunchMode::Client && o.server_port == st.2 && st.1 == text_of(o.server_ip),
            StartupMode::Server(o) => st.0 == LaunchMode::Server && o.port == st.2,
            StartupMode::Host(o) => st.0 == LaunchMode::Host && o.port == st.2,
        }
    }

    /// Reads the program arguments (without the program name), starting from
    /// client mode, no server address and the default port.
    pub fn from_args(args: &Vec<String>) -> (r: Result<StartupMode, String>)
        ensures
            match read_args(arg_texts(args@), (LaunchMode::Client, None, DEFAULT_PORT)) {
                Ok(st) => r matches Ok(m) && m.describes(st),
                Err(e) => r matches Err(msg) && msg@ == e,
            },
    {
        let ghost texts = arg_texts(args@);
        let mut mode = LaunchMode::Client;
        let mut server_ip: Option<String> = None;
        let mut port: u16 = DEFAULT_PORT;
        let mut i: usize = 0;
        assert(texts.skip(0) =~= texts);
        while i < args.len()
            invariant
                texts == arg_texts(args@),
                i <= args@.len(),
                read_args(texts, (LaunchMode::Client, None, DEFAULT_PORT))
                    == read_args(texts.skip(i as int), (mode, text_of(server_ip), port)),
            decreases args@.len() - i,
        {
            let ghost rest = texts.skip(i as int);
            let arg = args[i].as_str();
            let a = chars_of(arg);
            proof {
                assert(rest[0] == a@);
                assert(rest.drop_first() =~= texts.skip(i + 1));
            }
            if str_eq(arg, "client") || str_eq(arg, "--client") || str_eq(arg, "--mode=client") {
                mode = LaunchMode::Client;
                i = i + 1;
            } else if str_eq(arg, "server") || str_eq(arg, "--server") || str_eq(arg, "--mode=server") {
                mode = LaunchMode::Server;
                i = i + 1;
            } else if str_eq(arg, "host") || str_eq(arg, "--host") || str_eq(arg, "--mode=host") {
                mode = LaunchMode::Host;
                i = i + 1;
            } else if str_eq(arg, "--ip") {
                if i + 1 >= args.len() {
                    return Err(String::from_str("missing value after --ip"));
                }
                proof {
                    assert(rest.drop_first()[0] == args@[i + 1]@);
                    assert(rest.drop_first().drop_first() =~= texts.skip(i + 2));
                }
                server_ip = Some(args[i + 1].clone());
                i = i + 2;
            } else if str_eq(arg, "--port") {
                if i + 1 >= args.len() {
                    return Err(String::from_str("missing value after --port"));
                }
                proof {
                    assert(rest.drop_first()[0] == args@[i + 1]@);
                    assert(rest.drop_first().drop_first() =~= texts.skip(i + 2));
                }
                match parse_port(args[i + 1].as_str()) {
                    Ok(p) => {
                        port = p;
                    },
                    Err(e) => {
                        return Err(e);
                    },
                }
                i = i + 2;
            } else if str_eq(arg, "--help") || str_eq(arg, "-h") {
                return Err(String::from_str(
                    "usage: cpu-game [--client|--server|--host|--mode=client|--mode=server|--mode=host] [--ip <addr>] [--port <port>]",
                ));
            } else {
                match strip_prefix(arg, "--ip=") {
                    Some(value) => {
                        server_ip = Some(value);
                        i = i + 1;
                    },
                    None => {
                        match strip_prefix(arg, "--port=") {
                            Some(value) => {
                                match parse_port(value.as_str()) {
                                    Ok(p) => {
                                        port = p;
                                    },
                                    Err(e) => {
                                        return Err(e);
                                    },
                                }
                                i = i + 1;
                            },
                            None => {
                                let mut e = String::from_str("unrecognized argument: ");
                                e.append(arg);
                                return Err(e);
                            },
                        }
                    },
                }
            }
        }
        proof {
            assert(texts.skip(i as int).len() == 0);
        }
        match mode {
            LaunchMode::Client => Ok(StartupMode::Client(ClientLaunchOptions { server_ip, server_port: port })),
            LaunchMode::Server => Ok(StartupMode::Server(ServerLaunchOptions { port })),
            LaunchMode::Host => Ok(StartupMode::Host(HostLaunchOptions { port })),
        }
    }
}

/// Whether two strings are equal.
fn str_eq(a: &str, b: &str) -> (r: bool)
    ensures
        r == (a@ == b@),
{
    let x = chars_of(a);
    let y = chars_of(b);
    if x.len() != y.len() {
        return false;
    }
    let mut i: usize = 0;
    while i < x.len()
        invariant
            x@ == a@,
            y@ == b@,
            x@.len() == y@.len(),
            i <= x@.len(),
            forall|k: int| 0 <= k < i ==> x@[k] == y@[k],
        decreases x@.len() - i,
    {
        if x[i] != y[i] {
            return false;
        }
        i = i + 1;
    }
    proof {
        assert(x@ =~= y@);
    }
    true
}

/// `s` without `prefix`, if it starts with it.
fn strip_prefix(s: &str, prefix: &str) -> (r: Option<String>)
    ensures
        match r {
            Some(t) => prefix@.is_prefix_of(s@) && t@ == s@.skip(prefix@.len() as int),
            None => !prefix@.is_prefix_of(s@),
        },
{
    let x = chars_of(s);
    let p = chars_of(prefix);
    if p.len() > x.len() {
        return None;
    }
    let mut i: usize = 0;
    while i < p.len()
        invariant
            x@ == s@,
            p@ == prefix@,
            p@.len() <= x@.len(),
            i <= p@.len(),
            forall|k: int| 0 <= k < i ==> x@[k] == p@[k],
        decreases p@.len() - i,
    {
        if x[i] != p[i] {
            return None;
        }
        i = i + 1;
    }
    let mut t = String::new();
    let mut j: usize = p.len();
    while j < x.len()
        invariant
            x@ == s@,
            p@ == prefix@,
            p@.len() <= j <= x@.len(),
            t@ == x@.subrange(p@.len() as int, j as int),
        decreases x@.len() - j,
    {
        push_char(&mut t, x[j]);
        j = j + 1;
        proof {
            assert(t@ =~= x@.subrange(p@.len() as int, j as int));
        }
    }
    proof {
        assert(x@.subrange(p@.len() as int, x@.len() as int) =~= s@.skip(prefix@.len() as int));
        assert(prefix@.is_prefix_of(s@)) by {
            assert(s@.subrange(0, prefix@.len() as int) =~= prefix@);
        }
    }
    Some(t)
}

} // verus!
