//! What holds of what devices say to each other, of the daemon, and of the command line.

use vstd::prelude::*;
use vstd::utf8::*;

use crate::auth;
use crate::cli;
use crate::codec;
use crate::commands;
use crate::config;
use crate::config::ConfigView;
use crate::daemon;
use crate::daemon::{Phase, Service, StepView};
use crate::decimal;
use crate::entries;
use crate::hash;
use crate::order;
use crate::paths;
use crate::protocol;
use crate::protocol::RequestView;
use crate::rule_laws;
use crate::shares::ShareView;
use crate::store_laws;
use crate::table;
use crate::text;

verus! {

/// A device that shows its account is admitted if and only if its user and its account are those
/// of this device, both of them and exactly, whatever else stands in its line.
pub proof fn law_shown_accounts_are_judged(
    here: ConfigView,
    user: Seq<char>,
    account: Seq<char>,
    rest: Seq<char>,
)
    ensures
        ({
            let line = "AUTH\t"@ + codec::escaped(user) + "\t"@ + codec::escaped(account) + "\t"@
                + rest;
            &&& user == here.user && account == here.account_id ==> protocol::auth_refused(
                here,
                line,
            ) is None
            &&& !(user == here.user && account == here.account_id) ==> protocol::auth_refused(
                here,
                line,
            ) == Some("peer is not authenticated for this account"@)
        }),
{
    let u = codec::escaped(user);
    let a = codec::escaped(account);
    let line = "AUTH\t"@ + u + "\t"@ + a + "\t"@ + rest;
    reveal_strlit("AUTH\t");
    reveal_strlit("AUTH");
    reveal_strlit("\t");
    entries::lemma_escaped_column(user);
    entries::lemma_escaped_column(account);
    let c = a.push('\t') + rest;
    let b = u.push('\t') + c;
    assert(line =~= "AUTH"@.push('\t') + b);
    assert(!"AUTH"@.contains('\t'));
    store_laws::law_pieces_stand_between_separators("AUTH"@, b, '\t');
    store_laws::law_pieces_stand_between_separators(u, c, '\t');
    store_laws::law_pieces_stand_between_separators(a, rest, '\t');
    text::lemma_split_nonempty(rest, '\t');
    let cols = table::columns_of(line);
    assert(cols[0] == "AUTH"@);
    assert(cols[1] == u);
    assert(cols[2] == a);
}

/// Where the first piece of a text ends.
proof fn lemma_first_piece(s: Seq<char>, sep: char)
    ensures
        ({
            let p = text::split_at_char(s, sep);
            &&& p.len() >= 1
            &&& p.len() == 1 ==> p[0] == s
            &&& p.len() > 1 ==> s.len() > p[0].len() && s.take(p[0].len() as int + 1) == p[0].push(
                sep,
            )
        }),
    decreases s.len(),
{
    if s.len() > 0 {
        let r = s.drop_last();
        let h = text::split_at_char(r, sep);
        let p = text::split_at_char(s, sep);
        lemma_first_piece(r, sep);
        if s.last() == sep {
            if h.len() == 1 {
                assert(s =~= r.push(sep));
                assert(s.take(p[0].len() as int + 1) =~= p[0].push(sep));
            } else {
                assert(s.take(p[0].len() as int + 1) =~= r.take(p[0].len() as int + 1));
            }
        } else if h.len() == 1 {
            assert(p[0] =~= s);
        } else {
            assert(p[0] == h[0]);
            assert(s.take(p[0].len() as int + 1) =~= r.take(p[0].len() as int + 1));
        }
    }
}

/// A line that does not begin as that of a device which shows its account is refused.
pub proof fn law_devices_must_show_their_account(here: ConfigView, line: Seq<char>)
    requires
        !(line.len() >= 5 && line.take(5) == "AUTH\t"@),
    ensures
        protocol::auth_refused(here, line) == Some("missing AUTH header"@),
{
    lemma_first_piece(line, '\t');
    reveal_strlit("AUTH");
    reveal_strlit("AUTH\t");
    assert("AUTH"@.push('\t') =~= "AUTH\t"@);
}

/// What a device shows of its account.
pub proof fn law_a_device_shows_its_account(c: ConfigView, msg: Seq<char>)
    ensures
        protocol::auth_text(c) == "AUTH\t"@ + codec::escaped(c.user) + "\t"@ + codec::escaped(
            c.account_id,
        ) + "\t"@ + codec::escaped(c.device) + "\n"@,
        protocol::request_text_of(c, msg) == "AUTH\t"@ + codec::escaped(c.user) + "\t"@
            + codec::escaped(c.account_id) + "\t"@ + codec::escaped(c.device) + "\n"@ + msg,
{
    reveal_strlit("AUTH\t");
    reveal_strlit("AUTH");
    reveal_strlit("\t");
    reveal_strlit("\n");
    let u = codec::escaped(c.user);
    let a = codec::escaped(c.account_id);
    let d = codec::escaped(c.device);
    let cols = seq!["AUTH"@, u, a, d];
    assert(cols.drop_last() =~= seq!["AUTH"@, u, a]);
    assert(seq!["AUTH"@, u, a].drop_last() =~= seq!["AUTH"@, u]);
    assert(seq!["AUTH"@, u].drop_last() =~= seq!["AUTH"@]);
    assert(table::tabbed(seq!["AUTH"@]) == "AUTH"@);
    assert(table::tabbed(seq!["AUTH"@, u]) == "AUTH"@.push('\t') + u);
    assert(table::tabbed(seq!["AUTH"@, u, a]) == ("AUTH"@.push('\t') + u).push('\t') + a);
    assert(protocol::auth_text(c) =~= "AUTH\t"@ + u + "\t"@ + a + "\t"@ + d + "\n"@);
}

/// Each command is understood as what it says, and nothing else is.
pub proof fn law_commands_are_understood(cmd: Seq<char>)
    ensures
        protocol::request_of(cmd) is Ping <==> cmd == "PING"@,
        protocol::request_of(cmd) is Status <==> cmd == "STATUS"@,
        protocol::request_of(cmd) is Shutdown <==> cmd == "SHUTDOWN"@,
        protocol::request_of(cmd) is GetShares <==> cmd == "GET_SHARES"@,
        protocol::request_of(cmd) is GetSnapshot <==> cmd == "GET_SNAPSHOT"@,
        protocol::request_of(cmd) is ImportSnapshot <==> cmd == "IMPORT_SNAPSHOT"@,
        protocol::request_of(cmd) is Export <==> cmd.len() >= 7 && cmd.take(7) == "EXPORT "@,
        protocol::request_of(cmd) matches RequestView::Export(id) ==> cmd == "EXPORT "@ + id,
{
    reveal_strlit("PING");
    reveal_strlit("STATUS");
    reveal_strlit("SHUTDOWN");
    reveal_strlit("GET_SHARES");
    reveal_strlit("EXPORT ");
    reveal_strlit("GET_SNAPSHOT");
    reveal_strlit("IMPORT_SNAPSHOT");
    assert("PING"@.len() == 4 && "STATUS"@.len() == 6 && "SHUTDOWN"@.len() == 8);
    assert("GET_SHARES"@.len() == 10 && "GET_SNAPSHOT"@.len() == 12);
    assert("IMPORT_SNAPSHOT"@.len() == 15 && "EXPORT "@.len() == 7);
    assert("EXPORT "@[0] == 'E' && "PING"@[0] == 'P' && "STATUS"@[0] == 'S');
    assert("SHUTDOWN"@[0] == 'S' && "GET_SHARES"@[0] == 'G' && "GET_SNAPSHOT"@[0] == 'G');
    assert("IMPORT_SNAPSHOT"@[0] == 'I');
    if cmd.len() >= 7 && cmd.take(7) == "EXPORT "@ {
        assert(cmd.take(7)[0] == cmd[0]);
        assert(cmd =~= "EXPORT "@ + cmd.skip(7));
    }
}

/// One line more makes a text that is longer by this line.
proof fn lemma_joined_lines(ls: Seq<Seq<char>>, l: Seq<char>)
    ensures
        text::joined(ls.push(l)) == text::joined(ls) + l.push('\n'),
{
    assert(ls.push(l).drop_last() =~= ls);
}

/// What a daemon answers about itself names its account, line by line.
pub proof fn law_daemons_answer_about_themselves(c: ConfigView, n: nat, pid: nat)
    ensures
        protocol::ping_answer(c) == "PONG\nuser\t"@ + c.user + "\naccount\t"@ + c.account_id
            + "\nport\t"@ + decimal::digits(c.port) + "\n"@,
        protocol::status_answer(c, n) == "status\trunning\nuser\t"@ + c.user + "\naccount\t"@
            + c.account_id + "\nport\t"@ + decimal::digits(c.port) + "\nshares\t"@
            + decimal::digits(n) + "\n"@,
        protocol::lock_text_of(pid, c) == "pid\t"@ + decimal::digits(pid) + "\naccount\t"@
            + c.account_id + "\nuser\t"@ + c.user + "\n"@,
{
    reveal_strlit("PONG\nuser\t");
    reveal_strlit("PONG");
    reveal_strlit("\naccount\t");
    reveal_strlit("\nport\t");
    reveal_strlit("\n");
    reveal_strlit("user\t");
    reveal_strlit("account\t");
    reveal_strlit("port\t");
    reveal_strlit("status\trunning\nuser\t");
    reveal_strlit("status\trunning");
    reveal_strlit("\nshares\t");
    reveal_strlit("shares\t");
    reveal_strlit("pid\t");
    reveal_strlit("\nuser\t");
    let none = Seq::<Seq<char>>::empty();
    let u = "user\t"@ + c.user;
    let a = "account\t"@ + c.account_id;
    let p = "port\t"@ + decimal::digits(c.port);
    let s = "shares\t"@ + decimal::digits(n);
    let pp = "pid\t"@ + decimal::digits(pid);
    assert(text::joined(none) =~= Seq::<char>::empty());
    lemma_joined_lines(none, "PONG"@);
    lemma_joined_lines(none.push("PONG"@), u);
    lemma_joined_lines(none.push("PONG"@).push(u), a);
    lemma_joined_lines(none.push("PONG"@).push(u).push(a), p);
    assert(seq!["PONG"@] + protocol::identity_lines(c) =~= none.push("PONG"@).push(u).push(a).push(
        p,
    ));
    assert(protocol::ping_answer(c) =~= "PONG\nuser\t"@ + c.user + "\naccount\t"@ + c.account_id
        + "\nport\t"@ + decimal::digits(c.port) + "\n"@);
    let run = "status\trunning"@;
    lemma_joined_lines(none, run);
    lemma_joined_lines(none.push(run), u);
    lemma_joined_lines(none.push(run).push(u), a);
    lemma_joined_lines(none.push(run).push(u).push(a), p);
    lemma_joined_lines(none.push(run).push(u).push(a).push(p), s);
    assert((seq![run] + protocol::identity_lines(c)).push(s) =~= none.push(run).push(u).push(
        a,
    ).push(p).push(s));
    assert(protocol::status_answer(c, n) =~= "status\trunning\nuser\t"@ + c.user + "\naccount\t"@
        + c.account_id + "\nport\t"@ + decimal::digits(c.port) + "\nshares\t"@ + decimal::digits(n)
        + "\n"@);
    lemma_joined_lines(none, pp);
    lemma_joined_lines(none.push(pp), a);
    lemma_joined_lines(none.push(pp).push(a), u);
    assert(seq![pp, a, u] =~= none.push(pp).push(a).push(u));
    assert(protocol::lock_text_of(pid, c) =~= "pid\t"@ + decimal::digits(pid) + "\naccount\t"@
        + c.account_id + "\nuser\t"@ + c.user + "\n"@);
}

/// The list of shares that a device sends has one line for each, with its id and its name as they
/// are.
pub proof fn law_shares_are_listed_one_by_one(ss: Seq<ShareView>, s: ShareView)
    ensures
        protocol::shares_answer(ss.push(s)) == protocol::shares_answer(ss) + s.id + "\t"@ + s.name
            + "\n"@,
        protocol::shares_answer(Seq::empty()) == Seq::<char>::empty(),
{
    reveal_strlit("\t");
    reveal_strlit("\n");
    let head = Seq::new(ss.len(), |i: int| protocol::share_entry(ss[i]));
    let all = Seq::new(ss.push(s).len(), |i: int| protocol::share_entry(ss.push(s)[i]));
    lemma_joined_lines(head, protocol::share_entry(s));
    assert(all =~= head.push(protocol::share_entry(s)));
    assert(protocol::shares_answer(ss.push(s)) =~= protocol::shares_answer(ss) + s.id + "\t"@
        + s.name + "\n"@);
    let none = Seq::new(0, |i: int| protocol::share_entry(Seq::<ShareView>::empty()[i]));
    assert(none =~= Seq::<Seq<char>>::empty());
}

/// An answer shows that the daemon of an account runs if and only if it names the account
/// somewhere, or begins as the answer to a ping does.
pub proof fn law_running_daemons_are_known(c: ConfigView, answer: Seq<char>)
    ensures
        daemon::shows_daemon(c, answer) <==> (answer.len() >= 4 && answer.take(4) == "PONG"@)
            || exists|x: Seq<char>, y: Seq<char>|
            answer == #[trigger] (x + "account\t"@ + c.account_id + y),
        daemon::shows_daemon(c, protocol::ping_answer(c)),
{
    let part = "account\t"@ + c.account_id;
    reveal_strlit("PONG");
    reveal_strlit("account\t");
    if text::has_part(answer, part) {
        let i = choose|i: int|
            0 <= i <= answer.len() - part.len() && #[trigger] answer.subrange(i, i + part.len())
                == part;
        let x = answer.take(i);
        let y = answer.skip(i + part.len() as int);
        assert(answer =~= x + answer.subrange(i, i + part.len()) + y);
        assert(answer =~= x + "account\t"@ + c.account_id + y);
    }
    if exists|x: Seq<char>, y: Seq<char>|
        answer == #[trigger] (x + "account\t"@ + c.account_id + y) {
        let (x, y) = choose|x: Seq<char>, y: Seq<char>|
            answer == #[trigger] (x + "account\t"@ + c.account_id + y);
        let i = x.len() as int;
        assert(answer.subrange(i, i + part.len()) =~= part);
    }
    law_daemons_answer_about_themselves(c, 0, 0);
    reveal_strlit("PONG\nuser\t");
    let own = protocol::ping_answer(c);
    assert(own.take(4) =~= "PONG"@);
}

/// What is said of a daemon names its user and its address on this device.
pub proof fn law_addresses_of_a_daemon(what: Seq<char>, c: ConfigView)
    requires
        c.port <= 65535,
    ensures
        daemon::daemon_note(what, c) == what + c.user + " on 127.0.0.1:"@ + decimal::digits(c.port),
        config::daemon_addr_of(c) == "127.0.0.1:"@ + decimal::digits(c.port),
        cli::bind_address_of(c) == "0.0.0.0:"@ + decimal::digits(c.port),
        daemon::bind_port_of(cli::bind_address_of(c)) == c.port,
        daemon::bind_port_of(config::daemon_addr_of(c)) == c.port,
{
    reveal_strlit(" on 127.0.0.1:");
    reveal_strlit(" on ");
    reveal_strlit("127.0.0.1:");
    reveal_strlit("0.0.0.0:");
    reveal_strlit("0.0.0.0");
    reveal_strlit("127.0.0.1");
    let d = decimal::digits(c.port);
    assert(daemon::daemon_note(what, c) =~= what + c.user + " on 127.0.0.1:"@ + d);
    law_port_stands_behind_the_last_colon("0.0.0.0"@, c.port);
    law_port_stands_behind_the_last_colon("127.0.0.1"@, c.port);
    assert("0.0.0.0:"@ + d =~= "0.0.0.0"@.push(':') + d);
    assert("127.0.0.1:"@ + d =~= "127.0.0.1"@.push(':') + d);
}

/// The port of an address stands behind its last colon.
pub proof fn law_port_stands_behind_the_last_colon(host: Seq<char>, port: nat)
    requires
        port <= 65535,
    ensures
        daemon::bind_port_of(host.push(':') + decimal::digits(port)) == port,
        daemon::bind_port_of(decimal::digits(port)) == port,
        daemon::address_text(host, port) == host + ":"@ + decimal::digits(port),
{
    let d = decimal::digits(port);
    let s = host.push(':') + d;
    reveal_strlit(":");
    assert(daemon::address_text(host, port) =~= host + ":"@ + d);
    decimal::lemma_digits(port);
    decimal::law_number_of_digits(port);
    assert forall|i: int| 0 <= i < d.len() implies d[i] != ':' by {
        assert(decimal::is_digit(d[i]));
    }
    lemma_after_colon(s, s.len() as int, host.len() as int + 1);
    assert(s.skip(host.len() as int + 1) =~= d);
    lemma_after_colon(d, d.len() as int, 0);
    assert(d.skip(0) =~= d);
}

proof fn lemma_after_colon(s: Seq<char>, n: int, b: int)
    requires
        0 <= b <= n <= s.len(),
        b > 0 ==> s[b - 1] == ':',
        forall|i: int| b <= i < n ==> s[i] != ':',
    ensures
        daemon::after_colon(s, n) == s.skip(b),
    decreases n,
{
    if n > b {
        lemma_after_colon(s, n - 1, b);
    }
}

/// The name of the host under which a device is announced: its own, with hyphens for underscores
/// and spaces.
pub proof fn law_hosts_are_named_by_their_device(device: Seq<char>, i: int)
    requires
        0 <= i < device.len(),
    ensures
        ({
            let h = daemon::host_of(device);
            &&& h.len() == device.len() + 7
            &&& h.skip(device.len() as int) == ".local."@
            &&& h[i] == if device[i] == '_' || device[i] == ' ' {
                '-'
            } else {
                device[i]
            }
        }),
{
    reveal_strlit(".local.");
    let h = daemon::host_of(device);
    assert(h.skip(device.len() as int) =~= ".local."@);
}

/// An address is one of a peer if and only if a service of the same account and of another device
/// has it, and it does not lead back to the device itself.
pub proof fn law_peers_are_other_devices_of_the_account(
    c: ConfigView,
    ss: Seq<Service>,
    p: Seq<char>,
)
    ensures
        daemon::is_peer_address(c, ss, p) <==> exists|i: int, j: int|
            0 <= i < ss.len() && 0 <= j < ss[i].addresses@.len() && ss[i].account@ == c.account_id
                && ss[i].device@ != c.device && !(#[trigger] ss[i].addresses@[j]).loopback && p
                == ss[i].addresses@[j].ip@ + ":"@ + decimal::digits(ss[i].port as nat),
{
    reveal_strlit(":");
    assert forall|ip: Seq<char>, n: nat|
        #[trigger] daemon::address_text(ip, n) == ip + ":"@ + decimal::digits(n) by {
        assert(daemon::address_text(ip, n) =~= ip + ":"@ + decimal::digits(n));
    }
    if daemon::is_peer_address(c, ss, p) {
        let i = choose|i: int|
            0 <= i < ss.len() && daemon::is_peer(c, #[trigger] ss[i]) && daemon::is_address_of(
                ss[i],
                p,
            );
        let j = choose|j: int|
            0 <= j < ss[i].addresses@.len() && !(#[trigger] ss[i].addresses@[j]).loopback && p
                == daemon::address_text(ss[i].addresses@[j].ip@, ss[i].port as nat);
        assert(!ss[i].addresses@[j].loopback);
    }
    if exists|i: int, j: int|
        0 <= i < ss.len() && 0 <= j < ss[i].addresses@.len() && ss[i].account@ == c.account_id
            && ss[i].device@ != c.device && !(#[trigger] ss[i].addresses@[j]).loopback && p
            == ss[i].addresses@[j].ip@ + ":"@ + decimal::digits(ss[i].port as nat) {
        let (i, j) = choose|i: int, j: int|
            0 <= i < ss.len() && 0 <= j < ss[i].addresses@.len() && ss[i].account@ == c.account_id
                && ss[i].device@ != c.device && !(#[trigger] ss[i].addresses@[j]).loopback && p
                == ss[i].addresses@[j].ip@ + ":"@ + decimal::digits(ss[i].port as nat);
        assert(p == daemon::address_text(ss[i].addresses@[j].ip@, ss[i].port as nat));
        assert(daemon::is_address_of(ss[i], p));
        assert(daemon::is_peer(c, ss[i]));
    }
}

/// The peers of a round are those that were given and those that were found, each once and in
/// their order.
pub proof fn law_peers_of_a_round(
    peers: Seq<Seq<char>>,
    given: Seq<Seq<char>>,
    found: Seq<Seq<char>>,
    p: Seq<char>,
)
    requires
        daemon::is_peer_list(peers, given, found),
    ensures
        peers.contains(p) <==> given.contains(p) || found.contains(p),
        peers.no_duplicates(),
        forall|i: int, j: int|
            0 <= i < j < peers.len() ==> order::before(#[trigger] peers[i], #[trigger] peers[j]),
{
    assert forall|i: int, j: int|
        0 <= i < peers.len() && 0 <= j < peers.len() && i != j implies peers[i] != peers[j] by {
        order::lemma_before_irreflexive(peers[i]);
        if i < j {
            assert(order::before(peers[i], peers[j]));
        } else {
            assert(order::before(peers[j], peers[i]));
        }
    }
}

/// A round of the daemon begins with a scan, unless it was asked to stop, goes on with discovery
/// where it is asked for, and then with the first peer. It stops nowhere else.
pub proof fn law_how_a_round_begins(
    phase: Phase,
    discover: bool,
    peers: Seq<Seq<char>>,
    stop: bool,
)
    ensures
        daemon::next_step(Phase::Top, discover, peers, false) == (
            StepView::Scan,
            Phase::Scanned,
        ),
        daemon::next_step(Phase::Top, discover, peers, true).0 is Stop,
        daemon::next_step(Phase::Scanned, true, peers, stop) == (
            StepView::Discover,
            Phase::Peer(0),
        ),
        daemon::next_step(Phase::Scanned, false, peers, stop) == daemon::next_step(
            Phase::Peer(0),
            false,
            peers,
            stop,
        ),
        daemon::next_step(phase, discover, peers, stop).0 is Stop <==> phase is Top && stop,
        daemon::next_step(phase, discover, peers, stop).0 is Scan <==> phase is Top && !stop,
        peers.len() > 0 ==> daemon::next_step(Phase::Peer(0), discover, peers, stop)
            == (StepView::Sync(peers[0]), Phase::Synced(0)),
{
}

/// The value of an option is what stands behind its first flag; an option without a flag before
/// the last word has none.
pub proof fn law_options_stand_behind_their_flags(args: Seq<Seq<char>>, flag: Seq<char>)
    ensures
        cli::option_of(args, flag) matches Some(v) ==> exists|i: int|
            0 <= i && i + 1 < args.len() && #[trigger] args[i] == flag && args[i + 1] == v && forall|
                j: int,
            |
                0 <= j < i ==> args[j] != flag,
        cli::option_of(args, flag) is None ==> forall|i: int|
            0 <= i && i + 1 < args.len() ==> #[trigger] args[i] != flag,
{
    lemma_option_at(args, flag, 0);
    if cli::option_of(args, flag) is Some {
        let i = cli::option_at(args, flag, 0)->Some_0;
        assert(args[i] == flag);
    }
}

proof fn lemma_option_at(args: Seq<Seq<char>>, flag: Seq<char>, from: int)
    requires
        0 <= from,
    ensures
        match cli::option_at(args, flag, from) {
            Some(i) => from <= i && i + 1 < args.len() && args[i] == flag && forall|j: int|
                from <= j < i ==> args[j] != flag,
            None => forall|i: int| from <= i && i + 1 < args.len() ==> args[i] != flag,
        },
    decreases args.len() - from,
{
    if from + 1 < args.len() && args[from] != flag {
        lemma_option_at(args, flag, from + 1);
    }
}

/// The values of an option that may be given more than once are what stands behind its flags, one
/// after the other; what stands behind a flag is not taken for a flag.
pub proof fn law_repeated_options_are_all_taken(
    args: Seq<Seq<char>>,
    flag: Seq<char>,
    word: Seq<char>,
    value: Seq<char>,
)
    ensures
        word != flag ==> cli::options_from(seq![word] + args, flag, 0) == cli::options_from(
            args,
            flag,
            0,
        ),
        cli::options_from(seq![flag, value] + args, flag, 0) == seq![value] + cli::options_from(
            args,
            flag,
            0,
        ),
        cli::options_from(Seq::empty(), flag, 0) == Seq::<Seq<char>>::empty(),
        cli::options_from(seq![flag], flag, 0) == Seq::<Seq<char>>::empty(),
{
    lemma_options_shifted(seq![word], args, flag, 0);
    lemma_options_shifted(seq![flag, value], args, flag, 0);
    let a = seq![word] + args;
    let b = seq![flag, value] + args;
    assert(a[0] == word);
    assert(b[0] == flag && b[1] == value);
    if word != flag && args.len() == 0 {
        assert(cli::options_from(a, flag, 0) =~= Seq::<Seq<char>>::empty());
    }
}

proof fn lemma_options_shifted(
    front: Seq<Seq<char>>,
    args: Seq<Seq<char>>,
    flag: Seq<char>,
    i: int,
)
    requires
        0 <= i,
    ensures
        cli::options_from(front + args, flag, front.len() + i) == cli::options_from(args, flag, i),
    decreases args.len() - i,
{
    let all = front + args;
    let n = front.len() as int;
    if i + 1 < args.len() {
        assert(all[n + i] == args[i]);
        assert(all[n + i + 1] == args[i + 1]);
        lemma_options_shifted(front, args, flag, i + 1);
        lemma_options_shifted(front, args, flag, i + 2);
    }
}

/// An option that is a number is taken where it is one; otherwise what is usual is.
pub proof fn law_number_options(args: Seq<Seq<char>>, flag: Seq<char>, other: nat, n: nat)
    ensures
        cli::option_of(args, flag) is None ==> cli::option_number(args, flag, other) == other,
        cli::option_of(args, flag) == Some(decimal::digits(n)) && n <= u64::MAX
            ==> cli::option_number(args, flag, other) == n,
        cli::option_of(args, flag) == Some(decimal::digits(n)) && n > u64::MAX
            ==> cli::option_number(args, flag, other) == other,
        cli::option_of(args, flag) matches Some(v) ==> (decimal::number(v) is None
            ==> cli::option_number(args, flag, other) == other),
        cli::option_of(args, "--port"@) is None ==> cli::option_port(args) is None,
        cli::option_of(args, "--port"@) == Some(decimal::digits(n)) ==> cli::option_port(args)
            == if n <= 65535 {
            Some(n)
        } else {
            None
        },
        cli::option_of(args, "--port"@) matches Some(v) ==> (decimal::number(v) is None
            ==> cli::option_port(args) is None),
{
    decimal::law_number_of_digits(n);
}

/// A word of the command line is there if and only if it is long enough.
pub proof fn law_words_of_the_command_line(args: Seq<Seq<char>>, i: int)
    requires
        0 <= i,
    ensures
        i < args.len() ==> cli::arg_at(args, i) == Some(args[i]),
        i >= args.len() ==> cli::arg_at(args, i) is None,
{
}

/// A share that is made of a folder bears the name of the folder, lies where the folder lies, and
/// has an id of the hash of the user and the name, and of the time.
pub proof fn law_shares_are_named_by_their_folder(
    user: Seq<char>,
    dir: Seq<char>,
    name: Seq<char>,
    now_ms: nat,
)
    requires
        dir.len() > 0,
        dir.last() != '/',
        !(dir.len() >= 2 && dir[dir.len() - 2] == '/' && dir.last() == '.'),
        paths::is_name(name),
    ensures
        ({
            let s = commands::share_of(user, dir.push('/') + name, now_ms);
            &&& s.name == name
            &&& s.root == dir.push('/') + name
            &&& s.id == hash::text_hash(user + name) + "-"@ + decimal::digits(now_ms)
        }),
{
    rule_laws::law_path_is_directory_and_name(dir, name);
    reveal_strlit("-");
    let s = commands::share_of(user, dir.push('/') + name, now_ms);
    assert(s.id =~= hash::text_hash(user + name) + "-"@ + decimal::digits(now_ms));
}

/// The share that is found in a list is the first one with exactly the name that was asked for;
/// where none has it, none is found.
pub proof fn law_share_is_found_by_its_name(ls: Seq<Seq<char>>, name: Seq<char>)
    ensures
        match commands::share_at(ls, name, 0) {
            Some(i) => {
                &&& 0 <= i < ls.len()
                &&& text::split_at_char(ls[i], '\t').len() >= 2
                &&& text::split_at_char(ls[i], '\t')[1] == name
                &&& forall|j: int|
                    0 <= j < i && text::split_at_char(#[trigger] ls[j], '\t').len() >= 2
                        ==> text::split_at_char(ls[j], '\t')[1] != name
            },
            None => forall|j: int|
                0 <= j < ls.len() && text::split_at_char(#[trigger] ls[j], '\t').len() >= 2
                    ==> text::split_at_char(ls[j], '\t')[1] != name,
        },
{
    lemma_share_found(ls, name, 0);
}

proof fn lemma_share_found(ls: Seq<Seq<char>>, name: Seq<char>, from: int)
    requires
        0 <= from,
    ensures
        match commands::share_at(ls, name, from) {
            Some(i) => {
                &&& from <= i < ls.len()
                &&& text::split_at_char(ls[i], '\t').len() >= 2
                &&& text::split_at_char(ls[i], '\t')[1] == name
                &&& forall|j: int|
                    from <= j < i && text::split_at_char(#[trigger] ls[j], '\t').len() >= 2
                        ==> text::split_at_char(ls[j], '\t')[1] != name
            },
            None => forall|j: int|
                from <= j < ls.len() && text::split_at_char(#[trigger] ls[j], '\t').len() >= 2
                    ==> text::split_at_char(ls[j], '\t')[1] != name,
        },
    decreases ls.len() - from,
{
    if from < ls.len() && !(table::columns_of(ls[from]).len() >= 2 && table::columns_of(ls[from])[1]
        == name) {
        lemma_share_found(ls, name, from + 1);
    }
}

/// What is said of an account that runs, and of one that does not.
pub proof fn law_status_is_said(c: ConfigView, answer: Seq<char>, n: nat, i: int)
    requires
        0 <= i < text::lines_of(answer).len(),
    ensures
        commands::status_said(c, None, n) == seq![
            c.user,
            "  account: "@ + c.account_id,
            "  port: "@ + decimal::digits(c.port),
            "  status: stopped"@,
            "  shares: "@ + decimal::digits(n),
        ],
        ({
            let said = commands::status_said(c, Some(answer), n);
            &&& said.len() == text::lines_of(answer).len() + 5
            &&& said[0] == c.user
            &&& said[1] == "  account: "@ + c.account_id
            &&& said[2] == "  port: "@ + decimal::digits(c.port)
            &&& said[3] == "  status: running"@
            &&& said[4 + i] == "  "@ + text::lines_of(answer)[i]
            &&& said.last() == "  shares: "@ + decimal::digits(n)
        }),
{
    assert(commands::status_said(c, None, n) =~= seq![
        c.user,
        "  account: "@ + c.account_id,
        "  port: "@ + decimal::digits(c.port),
        "  status: stopped"@,
        "  shares: "@ + decimal::digits(n),
    ]);
}

/// Lines that are not blank are shown with the name of the share in them, one for each, in their
/// order.
pub proof fn law_remote_shares_are_shown(ls: Seq<Seq<char>>, id: Seq<char>, name: Seq<char>)
    requires
        !id.contains('\t'),
        !name.contains('\t'),
        !text::blank(id.push('\t') + name),
    ensures
        commands::remote_lines(ls.push(id.push('\t') + name)) == commands::remote_lines(ls).push(
            "    "@ + codec::unescaped(name),
        ),
        commands::remote_lines(ls.push(Seq::empty())) == commands::remote_lines(ls),
        commands::remote_lines(Seq::empty()) == Seq::<Seq<char>>::empty(),
{
    let line = id.push('\t') + name;
    let none = Seq::<char>::empty();
    assert(ls.push(line).drop_last() =~= ls);
    assert(ls.push(none).drop_last() =~= ls);
    assert(text::blank(none));
    store_laws::law_pieces_stand_between_separators(id, name, '\t');
    text::lemma_split_one(name, '\t');
    let cols = table::columns_of(line);
    assert(cols =~= seq![id, name]);
}

/// What is said of peers: all of them, or that there are none; a share that is listed is said
/// with its id, its name and its folder.
pub proof fn law_peers_and_shares_are_said(peers: Seq<Seq<char>>, s: ShareView)
    ensures
        peers.len() > 0 ==> commands::peers_said(peers) == peers,
        peers.len() == 0 ==> commands::peers_said(peers) == seq!["no earth peers discovered"@],
        commands::local_line(s) == "  "@ + s.id + "\t"@ + s.name + "\t"@ + s.root,
        forall|i: int|
            0 <= i < peers.len() ==> #[trigger] commands::indented_lines(peers)[i] == "  "@
                + peers[i],
        commands::indented_lines(peers).len() == peers.len(),
{
}

/// What comes to a peer is said in a part of its own: that it has shares, which ones, or why they
/// could not be listed.
pub proof fn law_each_peer_is_reported(peer: Seq<char>, answer: Seq<char>, why: Seq<char>)
    ensures
        ({
            let shown = commands::remote_lines(text::lines_of(answer));
            let said = commands::peer_section(peer, Ok(answer));
            &&& shown.len() == 0 ==> said == seq!["  "@ + peer + ": no shares"@]
            &&& shown.len() > 0 ==> said.len() == shown.len() + 1 && said[0] == "  from "@ + peer
                + ":"@ && said.skip(1) == shown
            &&& commands::has_shares(Ok(answer)) <==> shown.len() > 0
        }),
        commands::peer_section(peer, Err(why)) == seq![
            "  "@ + peer + ": could not list shares: "@ + why,
        ],
        !commands::has_shares(Err(why)),
{
    let shown = commands::remote_lines(text::lines_of(answer));
    let said = commands::peer_section(peer, Ok(answer));
    if shown.len() > 0 {
        assert(said.skip(1) =~= shown);
    }
}

/// The base64 characters of six bits tell them apart.
proof fn lemma_base64_tells_apart(a: Seq<u8>, b: Seq<u8>)
    requires
        a.len() == b.len(),
        auth::base64_url(a) == auth::base64_url(b),
    ensures
        a == b,
    decreases a.len(),
{
    let x = auth::base64_url(a);
    let y = auth::base64_url(b);
    assert forall|v: int, w: int|
        0 <= v < 64 && 0 <= w < 64 && #[trigger] auth::base64_char(v)
            == #[trigger] auth::base64_char(w) implies v == w by {}
    if a.len() == 0 {
        assert(a =~= b);
    } else if a.len() == 1 {
        assert(x[0] == y[0] && x[1] == y[1]);
        assert(a =~= b);
    } else if a.len() == 2 {
        assert(x[0] == y[0] && x[1] == y[1] && x[2] == y[2]);
        assert(a =~= b);
    } else {
        assert(x[0] == y[0] && x[1] == y[1] && x[2] == y[2] && x[3] == y[3]);
        assert(x.skip(4) =~= auth::base64_url(a.skip(3)));
        assert(y.skip(4) =~= auth::base64_url(b.skip(3)));
        lemma_base64_tells_apart(a.skip(3), b.skip(3));
        assert forall|i: int| 0 <= i < a.len() implies a[i] == b[i] by {
            if i >= 3 {
                assert(a.skip(3)[i - 3] == b.skip(3)[i - 3]);
            }
        }
        assert(a =~= b);
    }
}

/// The id of an account is made of the first half of the digest, and of all of it: two digests
/// give one id if and only if they agree on their first sixteen bytes.
pub proof fn law_account_ids_tell_digests_apart(d: Seq<u8>, e: Seq<u8>)
    requires
        d.len() == 32,
        e.len() == 32,
    ensures
        auth::id_of_digest(d) == auth::id_of_digest(e) <==> d.take(16) == e.take(16),
{
    if auth::id_of_digest(d) == auth::id_of_digest(e) {
        lemma_base64_tells_apart(d.take(16), e.take(16));
    }
}

/// The digest of an account is taken of a fixed word, the user and the password, parted by zeros.
pub proof fn law_account_ids_are_made_of_user_and_password(user: Seq<char>, password: Seq<char>)
    ensures
        auth::account_id_of(user, password) == auth::id_of_digest(
            auth::sha256_of(
                encode_utf8("earth-account-v1"@) + seq![0u8] + encode_utf8(user) + seq![0u8]
                    + encode_utf8(password),
            ),
        ),
{
    assert(auth::account_seed(user, password) =~= encode_utf8("earth-account-v1"@) + seq![0u8]
        + encode_utf8(user) + seq![0u8] + encode_utf8(password));
}

/// A hash asks for too many lanes if and only if nine digits or more stand behind its last `p=`.
pub proof fn law_lanes_are_counted(a: Seq<char>, b: Seq<char>)
    requires
        forall|i: int| 0 <= i < b.len() ==> b[i] != '=',
    ensures
        auth::too_many_lanes(a + "p="@ + b) <==> b.len() >= 9 && forall|i: int|
            0 <= i < 9 ==> '0' <= #[trigger] b[i] <= '9',
        !auth::too_many_lanes(b),
{
    reveal_strlit("p=");
    let s = a + "p="@ + b;
    let n = a.len() as int + 2;
    assert(s[n - 2] == 'p' && s[n - 1] == '=');
    assert forall|i: int| n <= i < s.len() implies s[i] != '=' by {
        assert(s[i] == b[i - n]);
    }
    lemma_lanes(s, s.len() as int, n);
    lemma_no_lanes(b, b.len() as int);
    if auth::too_many_lanes(s) {
        assert forall|i: int| 0 <= i < 9 implies '0' <= #[trigger] b[i] <= '9' by {
            assert(decimal::is_digit(s[n + i]));
            assert(s[n + i] == b[i]);
        }
    }
    if b.len() >= 9 && forall|i: int| 0 <= i < 9 ==> '0' <= #[trigger] b[i] <= '9' {
        assert forall|i: int| n <= i < n + 9 implies decimal::is_digit(#[trigger] s[i]) by {
            assert(s[i] == b[i - n]);
        }
    }
}

proof fn lemma_lanes(s: Seq<char>, m: int, n: int)
    requires
        2 <= n <= m <= s.len(),
        s[n - 2] == 'p' && s[n - 1] == '=',
        forall|i: int| n <= i < s.len() ==> s[i] != '=',
    ensures
        auth::behind_last_lanes(s, m) == Some(n),
    decreases m,
{
    if m > n {
        lemma_lanes(s, m - 1, n);
    }
}

proof fn lemma_no_lanes(s: Seq<char>, m: int)
    requires
        0 <= m <= s.len(),
        forall|i: int| 0 <= i < s.len() ==> s[i] != '=',
    ensures
        auth::behind_last_lanes(s, m) is None,
    decreases m,
{
    if m >= 2 {
        lemma_no_lanes(s, m - 1);
    }
}

} // verus!
