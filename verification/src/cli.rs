//! The commands that a user can give.

use vstd::prelude::*;
use vstd::string::*;

use crate::config::{Config, ConfigView};
use crate::decimal;
use crate::error::{err, Error};
use crate::text;
use crate::visible;

verus! {

/// Where the option `flag` stands with a value behind it, from position `i` on.
pub open spec fn option_at(args: Seq<Seq<char>>, flag: Seq<char>, i: int) -> Option<int>
    decreases args.len() - i,
{
    if i + 1 >= args.len() {
        None
    } else if args[i] == flag {
        Some(i)
    } else {
        option_at(args, flag, i + 1)
    }
}

/// The value of the option `flag`: what stands behind its first occurrence.
pub open spec fn option_of(args: Seq<Seq<char>>, flag: Seq<char>) -> Option<Seq<char>> {
    match option_at(args, flag, 0) {
        Some(i) => Some(args[i + 1]),
        None => None,
    }
}

/// Finds the value of an option.
pub fn opt_value(args: &Vec<String>, flag: &str) -> (r: Option<String>)
    ensures
        visible::opt_string(r) == option_of(text::views(args@), flag@),
{
    let ghost av = text::views(args@);
    let n = args.len();
    let mut i: usize = 0;
    while n > 0 && i < n - 1
        invariant
            n == args@.len(),
            n > 0 ==> i <= n - 1,
            n == 0 ==> i == 0,
            av == text::views(args@),
            option_at(av, flag@, i as int) == option_at(av, flag@, 0),
        decreases n - i,
    {
        assert(av[i as int] == args@[i as int]@);
        if text::same(&args[i], flag) {
            assert(av[i + 1] == args@[i + 1]@);
            return Some(args[i + 1].clone());
        }
        i = i + 1;
    }
    None
}

/// The values of an option that can be given more than once, from position `i` on. A value is
/// not taken for an option.
pub open spec fn options_from(args: Seq<Seq<char>>, flag: Seq<char>, i: int) -> Seq<Seq<char>>
    decreases args.len() - i,
{
    if i + 1 >= args.len() {
        Seq::empty()
    } else if args[i] == flag {
        seq![args[i + 1]] + options_from(args, flag, i + 2)
    } else {
        options_from(args, flag, i + 1)
    }
}

/// Finds the values of an option that can be given more than once.
pub fn all_opt_values(args: &Vec<String>, flag: &str) -> (r: Vec<String>)
    ensures
        text::views(r@) == options_from(text::views(args@), flag@, 0),
{
    let ghost av = text::views(args@);
    let n = args.len();
    let mut out: Vec<String> = Vec::new();
    let mut i: usize = 0;
    assert(text::views(out@) + options_from(av, flag@, 0) =~= options_from(av, flag@, 0));
    while i < n && n - i > 1
        invariant
            n == args@.len(),
            i <= n,
            av == text::views(args@),
            text::views(out@) + options_from(av, flag@, i as int) == options_from(av, flag@, 0),
        decreases n - i,
    {
        assert(av[i as int] == args@[i as int]@);
        if text::same(&args[i], flag) {
            let ghost before = text::views(out@);
            let ghost v = av[i + 1];
            assert(v == args@[i + 1]@);
            out.push(args[i + 1].clone());
            proof {
                assert(text::views(out@) =~= before.push(v));
                assert(text::views(out@) + options_from(av, flag@, i + 2) =~= before
                    + options_from(av, flag@, i as int));
            }
            i = i + 2;
        } else {
            i = i + 1;
        }
    }
    assert(text::views(out@) =~= options_from(av, flag@, 0));
    out
}

/// Tests whether a flag is given.
pub fn has_flag(args: &Vec<String>, flag: &str) -> (r: bool)
    ensures
        r == text::views(args@).contains(flag@),
{
    text::is_one_of(args, flag)
}

/// Which peer a command works with.
pub enum PeerSource {
    /// The one at this address.
    Given(String),
    /// The first one that is discovered.
    Discovered,
}

/// Decides which peer a command works with: the one that `--peer` names, else one that is
/// discovered.
pub fn resolve_peer(args: &Vec<String>) -> (r: PeerSource)
    ensures
        match option_of(text::views(args@), "--peer"@) {
            Some(p) => r matches PeerSource::Given(s) && s@ == p,
            None => r is Discovered,
        },
{
    match opt_value(args, "--peer") {
        Some(p) => PeerSource::Given(p),
        None => PeerSource::Discovered,
    }
}

/// Picks the peer that a command works with among those that were discovered.
pub fn first_peer(peers: &Vec<String>) -> (r: Result<String, Error>)
    ensures
        match r {
            Ok(p) => peers@.len() > 0 && p@ == peers@[0]@,
            Err(e) => peers@.len() == 0 && e@ == "no mDNS peers found for this account"@,
        },
{
    if peers.len() > 0 {
        Ok(peers[0].clone())
    } else {
        Err(err("no mDNS peers found for this account"))
    }
}

/// A command with what it was given. An argument that is missing shows as an error, which is
/// raised when the command comes to need the argument.
pub enum Command {
    /// Nothing that is known: how the program is used is to be shown.
    Usage,
    /// Log in: with this name and this password, where they are given, on this port, starting a
    /// daemon or not, and looking for peers for so many seconds or not at all.
    Login {
        user: Option<String>,
        password: Option<String>,
        port: Option<u16>,
        start: bool,
        search: Option<u64>,
    },
    /// Make this account the active one.
    Use { name: Result<String, Error> },
    /// Show the name of the account.
    Whoami { account: Option<String> },
    /// Share this folder.
    Init { account: Option<String>, path: Result<String, Error> },
    /// List the shares here, and those of this peer and of those that are discovered.
    List { account: Option<String>, peer: Option<String>, discover: bool },
    /// List the peers that are discovered within so many seconds.
    Peers { account: Option<String>, timeout: u64 },
    /// Clone the share with this name into this folder.
    Clone { account: Option<String>, target: Result<(String, String), Error> },
    /// Run the daemon of the account.
    Daemon { account: Option<String>, bind: Option<String>, peers: Vec<String>, discover: bool },
    /// Sync with a peer once.
    Sync { account: Option<String> },
    /// Show how one account is, or all.
    Status { account: Option<String> },
    /// Stop the daemon of one account, or of all.
    Stop { account: Option<String>, all: bool },
}

/// The number that an option gives, or another one.
pub open spec fn option_number(args: Seq<Seq<char>>, flag: Seq<char>, other: nat) -> nat {
    match option_of(args, flag) {
        Some(v) => match decimal::number_up_to(v, u64::MAX as nat) {
            Some(n) => n,
            None => other,
        },
        None => other,
    }
}

/// Reads the number that an option gives.
fn number_option(args: &Vec<String>, flag: &str, other: u64) -> (r: u64)
    ensures
        r == option_number(text::views(args@), flag@, other as nat),
{
    match opt_value(args, flag) {
        Some(v) => match decimal::parse_u64(&v) {
            Some(n) => n,
            None => other,
        },
        None => other,
    }
}

/// The port that `--port` gives, if it gives one.
pub open spec fn option_port(args: Seq<Seq<char>>) -> Option<nat> {
    match option_of(args, "--port"@) {
        Some(v) => decimal::number_up_to(v, 65535),
        None => None,
    }
}

/// Reads the port that `--port` gives.
fn port_option(args: &Vec<String>) -> (r: Option<u16>)
    ensures
        match r {
            Some(p) => option_port(text::views(args@)) == Some(p as nat),
            None => option_port(text::views(args@)) is None,
        },
{
    match opt_value(args, "--port") {
        Some(v) => decimal::parse_u16(&v),
        None => None,
    }
}

/// The argument at position `i`, if it is there.
pub open spec fn arg_at(args: Seq<Seq<char>>, i: int) -> Option<Seq<char>> {
    if i < args.len() {
        Some(args[i])
    } else {
        None
    }
}

/// Reads the argument at a position.
fn argument(args: &Vec<String>, i: usize) -> (r: Option<String>)
    ensures
        visible::opt_string(r) == arg_at(text::views(args@), i as int),
{
    if i < args.len() {
        Some(args[i].clone())
    } else {
        None
    }
}

/// What the argument at position `i` is, or the error that stands for it.
fn needed(args: &Vec<String>, i: usize, usage: &str) -> (r: Result<String, Error>)
    ensures
        match r {
            Ok(s) => arg_at(text::views(args@), i as int) == Some(s@),
            Err(e) => arg_at(text::views(args@), i as int) is None && e@ == usage@,
        },
{
    match argument(args, i) {
        Some(s) => Ok(s),
        None => Err(err(usage)),
    }
}

/// Reads the command line. The first argument is the name of the program.
pub fn parse_command(args: &Vec<String>) -> (r: Command)
    ensures
        ({
            let av = text::views(args@);
            let account = option_of(av, "--account"@);
            match arg_at(av, 1) {
                None => r is Usage,
                Some(name) => if name == "login"@ {
                    r matches Command::Login { user, password, port, start, search }
                        && visible::opt_string(user) == arg_at(av, 2) && visible::opt_string(
                        password,
                    ) == option_of(av, "--password"@) && (match port {
                        Some(p) => option_port(av) == Some(p as nat),
                        None => option_port(av) is None,
                    }) && start == !av.contains("--no-start"@) && (match search {
                        Some(t) => !av.contains("--no-discover"@) && t == option_number(
                            av,
                            "--discover-timeout"@,
                            10,
                        ),
                        None => av.contains("--no-discover"@),
                    })
                } else if name == "use"@ {
                    r matches Command::Use { name: a } && match a {
                        Ok(s) => arg_at(av, 2) == Some(s@),
                        Err(e) => arg_at(av, 2) is None && e@
                            == "usage: earth use <user-or-account-id>"@,
                    }
                } else if name == "whoami"@ {
                    r matches Command::Whoami { account: a } && visible::opt_string(a) == account
                } else if name == "init"@ {
                    r matches Command::Init { account: a, path } && visible::opt_string(a)
                        == account && match path {
                        Ok(s) => arg_at(av, 2) == Some(s@),
                        Err(e) => arg_at(av, 2) is None && e@
                            == "usage: earth init <path> [--account user]"@,
                    }
                } else if name == "list"@ {
                    r matches Command::List { account: a, peer, discover } && visible::opt_string(
                        a,
                    ) == account && visible::opt_string(peer) == option_of(av, "--peer"@)
                        && discover == (av.contains("--discover"@) || option_of(
                        av,
                        "--peer"@,
                    ) is None)
                } else if name == "peers"@ {
                    r matches Command::Peers { account: a, timeout } && visible::opt_string(a)
                        == account && timeout == option_number(av, "--timeout"@, 5)
                } else if name == "clone"@ {
                    r matches Command::Clone { account: a, target } && visible::opt_string(a)
                        == account && match target {
                        Ok((s, p)) => arg_at(av, 2) == Some(s@) && arg_at(av, 3) == Some(p@),
                        Err(e) => arg_at(av, 3) is None && e@
                            == "usage: earth clone <share-name> <path> [--peer host:port | --discover] [--account user]"@,
                    }
                } else if name == "daemon"@ {
                    r matches Command::Daemon { account: a, bind, peers, discover }
                        && visible::opt_string(a) == account && visible::opt_string(bind)
                        == option_of(av, "--bind"@) && text::views(peers@) == options_from(
                        av,
                        "--peer"@,
                        0,
                    ) && discover == (!av.contains("--no-discover"@) || av.contains(
                        "--discover"@,
                    ))
                } else if name == "sync"@ {
                    r matches Command::Sync { account: a } && visible::opt_string(a) == account
                } else if name == "status"@ {
                    r matches Command::Status { account: a } && visible::opt_string(a) == account
                } else if name == "stop"@ {
                    r matches Command::Stop { account: a, all } && visible::opt_string(a)
                        == account && all == av.contains("--all"@)
                } else {
                    r is Usage
                },
            }
        }),
{
    let name = match argument(args, 1) {
        Some(n) => n,
        None => return Command::Usage,
    };
    if text::same(&name, "login") {
        return Command::Login {
            user: argument(args, 2),
            password: opt_value(args, "--password"),
            port: port_option(args),
            start: !has_flag(args, "--no-start"),
            search: if has_flag(args, "--no-discover") {
                None
            } else {
                Some(number_option(args, "--discover-timeout", 10))
            },
        };
    }
    if text::same(&name, "use") {
        return Command::Use { name: needed(args, 2, "usage: earth use <user-or-account-id>") };
    }
    let account = opt_value(args, "--account");
    if text::same(&name, "whoami") {
        Command::Whoami { account }
    } else if text::same(&name, "init") {
        Command::Init {
            account,
            path: needed(args, 2, "usage: earth init <path> [--account user]"),
        }
    } else if text::same(&name, "list") {
        let peer = opt_value(args, "--peer");
        let discover = has_flag(args, "--discover") || peer.is_none();
        Command::List { account, peer, discover }
    } else if text::same(&name, "peers") {
        Command::Peers { account, timeout: number_option(args, "--timeout", 5) }
    } else if text::same(&name, "clone") {
        let target = match argument(args, 3) {
            Some(path) => Ok((args[2].clone(), path)),
            None => Err(
                err(
                    "usage: earth clone <share-name> <path> [--peer host:port | --discover] [--account user]",
                ),
            ),
        };
        Command::Clone { account, target }
    } else if text::same(&name, "daemon") {
        Command::Daemon {
            account,
            bind: opt_value(args, "--bind"),
            peers: all_opt_values(args, "--peer"),
            discover: !has_flag(args, "--no-discover") || has_flag(args, "--discover"),
        }
    } else if text::same(&name, "sync") {
        Command::Sync { account }
    } else if text::same(&name, "status") {
        Command::Status { account }
    } else if text::same(&name, "stop") {
        Command::Stop { account, all: has_flag(args, "--all") }
    } else {
        Command::Usage
    }
}

/// The address that the daemon of an account binds.
pub open spec fn bind_address_of(c: ConfigView) -> Seq<char> {
    "0.0.0.0:"@ + decimal::digits(c.port)
}

/// The address that the daemon of an account binds, unless another one is given.
pub fn bind_address(cfg: &Config) -> (r: String)
    ensures
        r@ == bind_address_of(cfg@),
{
    let mut s = text::owned("0.0.0.0:");
    s.append(&decimal::decimal(cfg.port as u128));
    s
}

} // verus!
