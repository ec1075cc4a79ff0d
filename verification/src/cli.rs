//! The `fux` command line: what the program is asked to do, read from its
//! arguments (the program's name left out).
use vstd::prelude::*;
use crate::text::{chars_of, push_str, string_of};

verus! {

/// What the program is asked to do.
#[derive(Clone, Debug, PartialEq, Eq)]
pub enum Invocation {
    /// Print the usage.
    Help,
    /// Serve on the socket given, if any, with the configuration file given.
    Server { socket: Option<String>, config: String },
    /// Attach to the workspace named, if any.
    Attach { workspace: Option<String> },
    /// Call a method of the server, with its parameters as JSON text.
    Rpc { method: String, params: Option<String> },
    /// Stop the server.
    Stop,
}

/// What the program is asked to do, its texts as characters.
pub ghost enum Asked {
    Help,
    Server { socket: Option<Seq<char>>, config: Seq<char> },
    Attach { workspace: Option<Seq<char>> },
    Rpc { method: Seq<char>, params: Option<Seq<char>> },
    Stop,
}

/// The characters of an optional text.
pub open spec fn text_of(o: Option<String>) -> Option<Seq<char>> {
    match o {
        Some(s) => Some(s@),
        None => None,
    }
}

impl View for Invocation {
    type V = Asked;

    open spec fn view(&self) -> Asked {
        match self {
            Invocation::Help => Asked::Help,
            Invocation::Server { socket, config } => Asked::Server {
                socket: text_of(*socket),
                config: config@,
            },
            Invocation::Attach { workspace } => Asked::Attach { workspace: text_of(*workspace) },
            Invocation::Rpc { method, params } => Asked::Rpc {
                method: method@,
                params: text_of(*params),
            },
            Invocation::Stop => Asked::Stop,
        }
    }
}

/// The characters of each argument.
pub open spec fn texts(args: Seq<String>) -> Seq<Seq<char>> {
    args.map_values(|s: String| s@)
}

/// The argument at `i`, if there is one.
pub open spec fn arg_at(args: Seq<Seq<char>>, i: int) -> Option<Seq<char>> {
    if 0 <= i < args.len() {
        Some(args[i])
    } else {
        None
    }
}

/// The server's options, read in pairs of a flag and its value: `--socket`
/// and `--config` set theirs, the last one given counting; `--address` and
/// `--port`, which were removed, and any other flag are refused, as is a
/// flag without a value.
pub open spec fn server_options(flags: Seq<Seq<char>>, socket: Option<Seq<char>>, config: Seq<char>) -> Result<
    (Option<Seq<char>>, Seq<char>),
    Seq<char>,
>
    decreases flags.len(),
{
    if flags.len() == 0 {
        Ok((socket, config))
    } else {
        let flag = flags[0];
        if flag == "--address"@ || flag == "--port"@ {
            Err(flag + " was removed: fux serves only on a Unix domain socket; use --socket PATH"@)
        } else if flags.len() < 2 {
            Err("missing value for "@ + flag)
        } else if flag == "--socket"@ {
            server_options(flags.skip(2), Some(flags[1]), config)
        } else if flag == "--config"@ {
            server_options(flags.skip(2), socket, flags[1])
        } else {
            Err("unknown server option "@ + flag)
        }
    }
}

/// The word that says what the program is to do: the first argument, else
/// `help`.
pub open spec fn mode_word(args: Seq<Seq<char>>) -> Seq<char> {
    if args.len() == 0 {
        "help"@
    } else {
        args[0]
    }
}

/// What `serde_json` says of a text read as a JSON value: nothing where it
/// is one, else the message of its error.
pub uninterp spec fn json_refusal(text: Seq<char>) -> Option<Seq<char>>;

/// Reads `text` as a JSON value with `serde_json::from_str`; the contract
/// claims only that the answer is `json_refusal` of the text: `None` when it
/// parses, else the error's message (its `Display`).
#[verifier::external_body]
fn json_error(text: &str) -> (r: Option<String>)
    ensures
        match r {
            Some(e) => json_refusal(text@) == Some(e@),
            None => json_refusal(text@) is None,
        },
{
    serde_json::from_str::<serde_json::Value>(text).err().map(|e| e.to_string())
}

/// What the arguments ask for, or why they are refused. `help`, `--help`
/// and `-h` ask for the usage; `server` reads its options, with `fux.json`
/// as the configuration where none is given; `attach` takes an optional
/// workspace; `rpc` needs a method and takes optional parameters, which
/// must be JSON; `stop` takes nothing; any other word is refused.
pub open spec fn invocation_of(args: Seq<Seq<char>>) -> Result<Asked, Seq<char>> {
    let mode = mode_word(args);
    if mode == "help"@ || mode == "--help"@ || mode == "-h"@ {
        Ok(Asked::Help)
    } else if mode == "server"@ {
        match server_options(args.skip(1), None, "fux.json"@) {
            Ok((socket, config)) => Ok(Asked::Server { socket, config }),
            Err(e) => Err(e),
        }
    } else if mode == "attach"@ {
        Ok(Asked::Attach { workspace: arg_at(args, 1) })
    } else if mode == "rpc"@ {
        if args.len() >= 2 {
            match arg_at(args, 2) {
                Some(p) => match json_refusal(p) {
                    Some(e) => Err(e),
                    None => Ok(Asked::Rpc { method: args[1], params: Some(p) }),
                },
                None => Ok(Asked::Rpc { method: args[1], params: None }),
            }
        } else {
            Err("rpc requires METHOD [JSON]"@)
        }
    } else if mode == "stop"@ {
        Ok(Asked::Stop)
    } else {
        Err("expected server, attach, rpc, stop or help"@)
    }
}

/// Whether two texts hold the same characters.
pub fn same_text(a: &str, b: &str) -> (r: bool)
    ensures
        r == (a@ == b@),
{
    let x = chars_of(a);
    let y = chars_of(b);
    if x.len() != y.len() {
        return false;
    }
    let mut i: usize = 0;
    while i < x.len()
        invariant
            x@ == a@,
            y@ == b@,
            x.len() == y.len(),
            i <= x.len(),
            forall|j: int| 0 <= j < i ==> x@[j] == y@[j],
        decreases x.len() - i,
    {
        if x[i] != y[i] {
            return false;
        }
        i = i + 1;
    }
    assert(x@ =~= y@);
    true
}

/// `head` followed by `tail`.
fn joined(head: &str, tail: &str) -> (s: String)
    ensures
        s@ == head@ + tail@,
{
    let mut s = string_of(head);
    push_str(&mut s, tail);
    s
}

/// A copy of the argument at `i`, if there is one.
fn copy_at(args: &Vec<String>, i: usize) -> (r: Option<String>)
    ensures
        text_of(r) == arg_at(texts(args@), i as int),
{
    if i < args.len() {
        Some(args[i].clone())
    } else {
        None
    }
}

/// What the arguments ask for, or the message they are refused with.
pub fn parse_invocation(args: &Vec<String>) -> (r: Result<Invocation, String>)
    ensures
        match r {
            Ok(inv) => invocation_of(texts(args@)) == Ok::<Asked, Seq<char>>(inv@),
            Err(e) => invocation_of(texts(args@)) == Err::<Asked, Seq<char>>(e@),
        },
{
    let ghost a = texts(args@);
    let mode: String = if args.len() == 0 {
        string_of("help")
    } else {
        args[0].clone()
    };
    assert(mode@ == mode_word(a));
    if same_text(mode.as_str(), "help") || same_text(mode.as_str(), "--help") || same_text(
        mode.as_str(),
        "-h",
    ) {
        return Ok(Invocation::Help);
    }
    if same_text(mode.as_str(), "server") {
        let mut socket: Option<String> = None;
        let mut config = string_of("fux.json");
        let mut i: usize = 1;
        while i < args.len()
            invariant
                a == texts(args@),
                args.len() >= 1,
                invocation_of(a) == match server_options(a.skip(1), None, "fux.json"@) {
                    Ok((s, c)) => Ok::<Asked, Seq<char>>(Asked::Server { socket: s, config: c }),
                    Err(e) => Err(e),
                },
                1 <= i,
                i <= args.len() + 1,
                server_options(a.skip(1), None, "fux.json"@) == server_options(
                    if i <= a.len() {
                        a.skip(i as int)
                    } else {
                        Seq::empty()
                    },
                    text_of(socket),
                    config@,
                ),
            decreases args.len() + 1 - i,
        {
            let ghost flags = a.skip(i as int);
            assert(flags[0] == args@[i as int]@);
            let flag = args[i].as_str();
            if same_text(flag, "--address") || same_text(flag, "--port") {
                return Err(
                    joined(
                        flag,
                        " was removed: fux serves only on a Unix domain socket; use --socket PATH",
                    ),
                );
            }
            if i + 1 >= args.len() {
                return Err(joined("missing value for ", flag));
            }
            assert(flags[1] == args@[i + 1]@);
            assert(flags.skip(2) =~= (if i + 2 <= a.len() {
                a.skip(i + 2)
            } else {
                Seq::empty()
            }));
            if same_text(flag, "--socket") {
                socket = Some(args[i + 1].clone());
            } else if same_text(flag, "--config") {
                config = args[i + 1].clone();
            } else {
                return Err(joined("unknown server option ", flag));
            }
            i = i + 2;
        }
        proof {
            if i <= a.len() {
                assert(a.skip(i as int) =~= Seq::<Seq<char>>::empty());
            }
        }
        return Ok(Invocation::Server { socket, config });
    }
    if same_text(mode.as_str(), "attach") {
        return Ok(Invocation::Attach { workspace: copy_at(args, 1) });
    }
    if same_text(mode.as_str(), "rpc") {
        if args.len() < 2 {
            return Err(string_of("rpc requires METHOD [JSON]"));
        }
        let params = copy_at(args, 2);
        if let Some(p) = &params {
            if let Some(e) = json_error(p.as_str()) {
                return Err(e);
            }
        }
        return Ok(Invocation::Rpc { method: args[1].clone(), params });
    }
    if same_text(mode.as_str(), "stop") {
        return Ok(Invocation::Stop);
    }
    Err(string_of("expected server, attach, rpc, stop or help"))
}

} // verus!
