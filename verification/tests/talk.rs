use earth::cli::{
    all_opt_values, bind_address, first_peer, has_flag, opt_value, parse_command, resolve_peer,
    Command, PeerSource,
};
use earth::commands::{
    cmd_clone, cmd_init, cmd_peers, created_note, find_remote_share, init_note, list_local, new_share,
    post_login_discovery, print_account_status, print_indented, stop_note, unlocked_note,
};
use earth::config::Config;
use earth::daemon::{
    bind_port, daemon_args, discover_peers, ensure_daemon_running, peer_list, register_mdns,
    Address, Daemon, Service, StartStep, Step,
};
use earth::error::err;
use earth::hash::stable_hash;
use earth::protocol::{
    auth_line, export_command, handle_client, list_shares, lock_text, parse_request, push_text,
    read_request, request_text, verify_auth_line, Answer, Request,
};
use earth::shares::Share;

fn config() -> Config {
    Config {
        user: "alice".to_string(),
        device: "box-1".to_string(),
        password_hash: "h".to_string(),
        account_id: "id1".to_string(),
        port: 7878,
    }
}

fn args(a: &[&str]) -> Vec<String> {
    a.iter().map(|s| s.to_string()).collect()
}

fn share(id: &str, name: &str) -> Share {
    Share { id: id.to_string(), name: name.to_string(), root: "/r".to_string() }
}

#[test]
fn a_device_shows_its_account() {
    let mut c = config();
    c.user = "al\tice".to_string();
    assert_eq!(auth_line(&c), "AUTH\tal%09ice\tid1\tbox-1\n");
    assert!(verify_auth_line(&c, "AUTH\tal%09ice\tid1\tbox-2").is_ok());
    assert_eq!(request_text(&c, "PING\n"), "AUTH\tal%09ice\tid1\tbox-1\nPING\n");
    assert_eq!(push_text(&c, "SNAPSHOT 1\nEND\n"), "AUTH\tal%09ice\tid1\tbox-1\nIMPORT_SNAPSHOT\nSNAPSHOT 1\nEND\n");
    assert_eq!(export_command("s1"), "EXPORT s1\n");
}

#[test]
fn what_follows_the_first_line_is_the_command() {
    let mut c = config();
    c.user = "al\nice".to_string();
    c.device = "d\n1".to_string();
    let sent = request_text(&c, "STATUS\n");
    let ls: Vec<&str> = sent.lines().collect();
    assert_eq!(ls, vec!["AUTH\tal%0Aice\tid1\td%0A1", "STATUS"]);
    assert!(matches!(read_request(&c, ls[0], ls[1]), Ok(Request::Status)));
}

#[test]
fn other_devices_are_refused() {
    let c = config();
    let said = |l: &str| verify_auth_line(&c, l).err().unwrap().message;
    assert_eq!(said(""), "missing AUTH header");
    assert_eq!(said("AUTH\talice\tid1"), "missing AUTH header");
    assert_eq!(said("auth\talice\tid1\tx"), "missing AUTH header");
    assert_eq!(said("AUTH\tbob\tid1\tx"), "peer is not authenticated for this account");
    assert_eq!(said("AUTH\talice\tid2\tx"), "peer is not authenticated for this account");
    assert_eq!(read_request(&c, "AUTH\tbob\tid1\tx\n", "PING\n").err().unwrap().message, "peer is not authenticated for this account");
}

#[test]
fn a_device_is_admitted_by_its_own_line() {
    let c = config();
    assert!(matches!(read_request(&c, &auth_line(&c), "PING\r\n"), Ok(Request::Ping)));
    let mut other = config();
    other.device = "elsewhere \t".to_string();
    assert!(read_request(&c, &auth_line(&other), "PING\n").is_ok());
    other.device = " ".to_string();
    assert!(read_request(&c, &auth_line(&other), "PING\n").is_err());
}

#[test]
fn commands_are_understood() {
    assert!(matches!(parse_request("PING"), Request::Ping));
    assert!(matches!(parse_request("STATUS"), Request::Status));
    assert!(matches!(parse_request("SHUTDOWN"), Request::Shutdown));
    assert!(matches!(parse_request("GET_SHARES"), Request::GetShares));
    assert!(matches!(parse_request("GET_SNAPSHOT"), Request::GetSnapshot));
    assert!(matches!(parse_request("IMPORT_SNAPSHOT"), Request::ImportSnapshot));
    assert!(matches!(parse_request("ping"), Request::Unknown));
    assert!(matches!(parse_request("EXPORT"), Request::Unknown));
    let c = config();
    match read_request(&c, &auth_line(&c), &export_command("s 1")) {
        Ok(Request::Export(id)) => assert_eq!(id, "s 1"),
        _ => panic!("a share is asked for"),
    }
}

fn answer(r: Request, loopback: bool) -> String {
    let shares = vec![share("1", "docs"), share("2", "pics")];
    match handle_client(&config(), r, loopback, &shares) {
        Answer::Text(t) => t,
        Answer::Stop(t) => format!("stop {t}"),
        Answer::Export(id) => format!("export {id:?}"),
        Answer::Import(t) => format!("import {t}"),
    }
}

#[test]
fn requests_are_answered() {
    assert_eq!(answer(Request::Ping, false), "PONG\nuser\talice\naccount\tid1\nport\t7878\n");
    assert_eq!(answer(Request::Status, false), "status\trunning\nuser\talice\naccount\tid1\nport\t7878\nshares\t2\n");
    assert_eq!(answer(Request::Shutdown, true), "stop OK shutting down\n");
    assert_eq!(answer(Request::Shutdown, false), "ERR shutdown only allowed from localhost\n");
    assert_eq!(answer(Request::GetShares, false), "1\tdocs\n2\tpics\n");
    assert_eq!(answer(Request::Export("1".to_string()), false), "export Some(\"1\")");
    assert_eq!(answer(Request::GetSnapshot, false), "export None");
    assert_eq!(answer(Request::ImportSnapshot, false), "import OK\n");
    assert_eq!(answer(Request::Unknown, true), "ERR unknown command\n");
}

#[test]
fn the_lock_names_its_daemon() {
    assert_eq!(lock_text(42, &config()), "pid\t42\naccount\tid1\nuser\talice\n");
}

#[test]
fn options_are_found() {
    let a = args(&["earth", "daemon", "--peer", "a:1", "--peer", "--peer", "b:2", "--all", "--bind"]);
    assert_eq!(opt_value(&a, "--peer").as_deref(), Some("a:1"));
    assert_eq!(opt_value(&a, "--bind"), None);
    assert_eq!(opt_value(&a, "--none"), None);
    assert_eq!(all_opt_values(&a, "--peer"), vec!["a:1", "--peer"]);
    assert_eq!(all_opt_values(&args(&[]), "--peer"), Vec::<String>::new());
    assert_eq!(opt_value(&args(&[]), "--peer"), None);
    assert_eq!(opt_value(&args(&["--peer"]), "--peer"), None);
    assert!(has_flag(&a, "--all"));
    assert!(!has_flag(&a, "--no"));
}

#[test]
fn peers_are_given_or_discovered() {
    assert!(matches!(resolve_peer(&args(&["earth", "sync", "--peer", "h:1", "--discover"])), PeerSource::Given(p) if p == "h:1"));
    assert!(matches!(resolve_peer(&args(&["earth", "sync", "--discover"])), PeerSource::Discovered));
    assert!(matches!(resolve_peer(&args(&["earth", "sync"])), PeerSource::Discovered));
    assert_eq!(first_peer(&args(&["b", "a"])).ok().unwrap(), "b");
    assert_eq!(first_peer(&args(&[])).err().unwrap().message, "no mDNS peers found for this account");
}

#[test]
fn logins_are_read_from_the_command_line() {
    match parse_command(&args(&["earth", "login", "alice", "--password", "pw", "--port", "9001", "--no-start"])) {
        Command::Login { user, password, port, start, search } => {
            assert_eq!(user.as_deref(), Some("alice"));
            assert_eq!(password.as_deref(), Some("pw"));
            assert_eq!(port, Some(9001));
            assert!(!start);
            assert_eq!(search, Some(10));
        },
        _ => panic!("a login is asked for"),
    }
    match parse_command(&args(&["earth", "login", "--port", "x", "--discover-timeout", "3"])) {
        Command::Login { user, port, start, search, .. } => {
            assert_eq!(user.as_deref(), Some("--port"));
            assert_eq!(port, None);
            assert!(start);
            assert_eq!(search, Some(3));
        },
        _ => panic!("a login is asked for"),
    }
    assert!(matches!(
        parse_command(&args(&["earth", "login", "--no-discover"])),
        Command::Login { search: None, .. }
    ));
}

#[test]
fn commands_are_read_from_the_command_line() {
    assert!(matches!(parse_command(&args(&["earth"])), Command::Usage));
    assert!(matches!(parse_command(&args(&["earth", "--help"])), Command::Usage));
    assert!(matches!(parse_command(&args(&["earth", "use", "alice"])), Command::Use { name: Ok(n) } if n == "alice"));
    match parse_command(&args(&["earth", "use"])) {
        Command::Use { name: Err(e) } => assert_eq!(e.message, "usage: earth use <user-or-account-id>"),
        _ => panic!("an account is missing"),
    }
    assert!(matches!(parse_command(&args(&["earth", "whoami", "--account", "x"])), Command::Whoami { account: Some(a) } if a == "x"));
    assert!(matches!(parse_command(&args(&["earth", "init", "./d"])), Command::Init { account: None, path: Ok(p) } if p == "./d"));
    match parse_command(&args(&["earth", "init"])) {
        Command::Init { path: Err(e), .. } => assert_eq!(e.message, "usage: earth init <path> [--account user]"),
        _ => panic!("a path is missing"),
    }
    assert!(matches!(parse_command(&args(&["earth", "peers"])), Command::Peers { timeout: 5, .. }));
    assert!(matches!(parse_command(&args(&["earth", "peers", "--timeout", "10"])), Command::Peers { timeout: 10, .. }));
    match parse_command(&args(&["earth", "clone", "n"])) {
        Command::Clone { target: Err(e), .. } => assert_eq!(
            e.message,
            "usage: earth clone <share-name> <path> [--peer host:port | --discover] [--account user]"
        ),
        _ => panic!("a path is missing"),
    }
    match parse_command(&args(&["earth", "clone", "example_dir", "./example_dir"])) {
        Command::Clone { target: Ok((n, p)), .. } => assert_eq!((n.as_str(), p.as_str()), ("example_dir", "./example_dir")),
        _ => panic!("a clone is asked for"),
    }
    assert!(matches!(parse_command(&args(&["earth", "sync"])), Command::Sync { account: None }));
    assert!(matches!(parse_command(&args(&["earth", "status"])), Command::Status { account: None }));
    assert!(matches!(parse_command(&args(&["earth", "stop", "--all"])), Command::Stop { account: None, all: true }));
    assert!(matches!(parse_command(&args(&["earth", "stop", "--account", "alice"])), Command::Stop { account: Some(_), all: false }));
}

#[test]
fn lists_and_daemons_discover_unless_told_otherwise() {
    let list = |a: &[&str]| match parse_command(&args(a)) {
        Command::List { peer, discover, .. } => (peer, discover),
        _ => panic!("a list is asked for"),
    };
    assert_eq!(list(&["earth", "list"]), (None, true));
    assert_eq!(list(&["earth", "list", "--discover"]), (None, true));
    assert_eq!(list(&["earth", "list", "--peer", "h:1"]), (Some("h:1".to_string()), false));
    assert_eq!(list(&["earth", "list", "--peer", "h:1", "--discover"]), (Some("h:1".to_string()), true));
    let daemon = |a: &[&str]| match parse_command(&args(a)) {
        Command::Daemon { bind, peers, discover, .. } => (bind, peers.len(), discover),
        _ => panic!("a daemon is asked for"),
    };
    assert_eq!(daemon(&["earth", "daemon"]), (None, 0, true));
    assert_eq!(daemon(&["earth", "daemon", "--no-discover", "--peer", "h:1"]), (None, 1, false));
    assert_eq!(daemon(&["earth", "daemon", "--no-discover", "--discover", "--bind", "h:2"]), (Some("h:2".to_string()), 0, true));
    assert_eq!(bind_address(&config()), "0.0.0.0:7878");
}

fn start(since: Option<u128>, answer: Option<&str>) -> String {
    match ensure_daemon_running(&config(), since, answer) {
        StartStep::Done(s) => s,
        StartStep::Spawn => "spawn".to_string(),
        StartStep::Wait => "wait".to_string(),
        StartStep::Failed(e) => e.message,
    }
}

#[test]
fn a_daemon_is_started_where_none_runs() {
    assert_eq!(start(None, Some("PONG\n")), "daemon already running for alice on 127.0.0.1:7878");
    assert_eq!(start(None, Some("x\naccount\tid1\n")), "daemon already running for alice on 127.0.0.1:7878");
    assert_eq!(start(None, Some("")), "spawn");
    assert_eq!(start(None, None), "spawn");
    assert_eq!(start(Some(0), None), "wait");
    assert_eq!(start(Some(4999), Some("account\tid1\n")), "wait");
    assert_eq!(start(Some(9000), Some("PONG\nuser\talice\n")), "started daemon for alice on 127.0.0.1:7878");
    assert_eq!(start(Some(5000), None), "started daemon process, but it did not become ready within 5s");
    assert_eq!(daemon_args(&config()), vec!["daemon", "--account", "alice", "--bind", "0.0.0.0:7878", "--discover"]);
}

fn run(d: &mut Daemon, n: usize) -> Vec<String> {
    (0..n)
        .map(|_| match d.next(false) {
            Step::Scan => "scan".to_string(),
            Step::Discover => "discover".to_string(),
            Step::Sync(p) => format!("sync {p}"),
            Step::Render => "render".to_string(),
            Step::Rest => "rest".to_string(),
            Step::Stop => "stop".to_string(),
        })
        .collect()
}

#[test]
fn a_daemon_goes_its_rounds() {
    let mut d = Daemon::new(args(&["b:1", "a:1", "b:1"]), false);
    assert_eq!(run(&mut d, 7), vec!["scan", "sync a:1", "render", "sync b:1", "render", "rest", "scan"]);
    let mut d = Daemon::new(args(&["b:1"]), true);
    assert_eq!(run(&mut d, 2), vec!["scan", "discover"]);
    d.set_found(&args(&["a:2", "b:1"]));
    assert_eq!(run(&mut d, 6), vec!["sync a:2", "render", "sync b:1", "render", "rest", "scan"]);
    let mut d = Daemon::new(Vec::new(), false);
    assert_eq!(run(&mut d, 3), vec!["scan", "rest", "scan"]);
}

#[test]
fn a_daemon_stops_at_the_beginning_of_a_round() {
    let mut d = Daemon::new(args(&["a:1"]), false);
    assert!(matches!(d.next(false), Step::Scan));
    assert!(matches!(d.next(true), Step::Sync(_)));
    assert!(matches!(d.next(true), Step::Render));
    assert!(matches!(d.next(true), Step::Rest));
    assert!(matches!(d.next(true), Step::Stop));
}

fn service(account: &str, device: &str, port: u16, ips: &[(&str, bool)]) -> Service {
    Service {
        account: account.to_string(),
        device: device.to_string(),
        port,
        addresses: ips.iter().map(|(ip, l)| Address { ip: ip.to_string(), loopback: *l }).collect(),
    }
}

#[test]
fn peers_are_other_devices_of_the_account() {
    let ss = vec![
        service("id1", "box-2", 7878, &[("192.168.0.9", false), ("127.0.0.1", true), ("10.0.0.2", false)]),
        service("id1", "box-1", 7878, &[("192.168.0.1", false)]),
        service("id2", "box-3", 7878, &[("192.168.0.3", false)]),
        service("id1", "box-4", 9001, &[("10.0.0.2", false), ("fe80::1", false)]),
        service("id1", "box-2", 7878, &[("10.0.0.2", false)]),
    ];
    assert_eq!(
        discover_peers(&config(), &ss),
        vec!["10.0.0.2:7878", "10.0.0.2:9001", "192.168.0.9:7878", "fe80::1:9001"]
    );
    assert!(discover_peers(&config(), &Vec::new()).is_empty());
    assert_eq!(peer_list(&args(&["b", "a"]), &args(&["c", "a"])), vec!["a", "b", "c"]);
}

#[test]
fn a_daemon_announces_itself() {
    let mut c = config();
    c.device = "my_big box-1".to_string();
    let a = register_mdns(&c, "0.0.0.0:9001");
    assert_eq!(a.instance, "alice-my_big box-1");
    assert_eq!(a.host, "my-big-box-1.local.");
    assert_eq!(a.port, 9001);
    assert_eq!((a.user.as_str(), a.account.as_str(), a.device.as_str()), ("alice", "id1", "my_big box-1"));
    assert_eq!(bind_port("[::1]:80"), 80);
    assert_eq!(bind_port("localhost:81"), 81);
    assert_eq!(bind_port("82"), 82);
    assert_eq!(bind_port("host"), 7878);
    assert_eq!(bind_port("h:70000"), 7878);
    assert_eq!(bind_port(""), 7878);
}

#[test]
fn shares_are_made_and_found() {
    let s = new_share(&config(), "/home/u/example_dir", 1700000000123);
    assert_eq!(s.name, "example_dir");
    assert_eq!(s.root, "/home/u/example_dir");
    assert_eq!(s.id, format!("{}-1700000000123", stable_hash("aliceexample_dir")));
    assert_eq!(init_note(&s), format!("initialized share 'example_dir' as {}", s.id));
    assert_eq!(new_share(&config(), "/", 1).name, "");
    assert!(!new_share(&config(), "/", 1).id.contains('/'));
    let now = cmd_init(&config(), "/home/u/example_dir");
    let (head, time) = now.id.rsplit_once('-').unwrap();
    assert_eq!(head, stable_hash("aliceexample_dir"));
    assert!(time.parse::<u128>().unwrap() > 1_600_000_000_000);
    let list = list_shares(&vec![share("1", "docs"), share("2", "pics"), share("3", "docs")]);
    let (id, name) = find_remote_share(&list, "docs").ok().unwrap();
    assert_eq!((id.as_str(), name.as_str()), ("1", "docs"));
    assert_eq!(find_remote_share(&list, "pics").ok().unwrap().0, "2");
    assert_eq!(find_remote_share(&list, "none").err().unwrap().message, "remote share not found");
    let c = cmd_clone(&id, &name, "/x");
    assert_eq!((c.id.as_str(), c.name.as_str(), c.root.as_str()), ("1", "docs", "/x"));
}

#[test]
fn lists_are_shown() {
    assert_eq!(list_local(&vec![share("1", "docs")]), vec!["local shares:", "  1\tdocs\t/r"]);
    assert_eq!(print_indented("a\n\nb"), vec!["  a", "  ", "  b"]);
    assert_eq!(cmd_peers(&args(&["x:1", "y:2"])), vec!["x:1", "y:2"]);
    assert_eq!(cmd_peers(&args(&[])), vec!["no earth peers discovered"]);
}

#[test]
fn discovery_is_reported_after_a_login() {
    let peers = args(&["a:1", "b:2", "c:3"]);
    let answers = vec![Ok("1\tdocs%09\n \nodd\n".to_string()), Ok("\n".to_string()), Err(err("refused"))];
    assert_eq!(
        post_login_discovery(&peers, &answers),
        vec![
            "discovered peers:",
            "  a:1",
            "  b:2",
            "  c:3",
            "available remote shares:",
            "  from a:1:",
            "    docs\t",
            "    odd",
            "  b:2: no shares",
            "  c:3: could not list shares: refused",
        ]
    );
    assert_eq!(
        post_login_discovery(&args(&["b:2"]), &vec![Ok(String::new())]),
        vec!["discovered peers:", "  b:2", "available remote shares:", "  b:2: no shares", "  none found yet"]
    );
    assert_eq!(
        post_login_discovery(&args(&[]), &Vec::new()),
        vec![
            "no earth peers discovered",
            "hint: on another device, run: earth daemon --bind 0.0.0.0:7878 --discover",
        ]
    );
}

#[test]
fn accounts_are_described() {
    let c = config();
    assert_eq!(
        print_account_status(&c, Some("status\trunning\nshares\t1\n"), 1),
        vec!["alice", "  account: id1", "  port: 7878", "  status: running", "  status\trunning", "  shares\t1", "  shares: 1"]
    );
    assert_eq!(
        print_account_status(&c, None, 0),
        vec!["alice", "  account: id1", "  port: 7878", "  status: stopped", "  shares: 0"]
    );
    assert_eq!(stop_note(&c, &Ok("OK shutting down\n".to_string())), "OK shutting down\n");
    assert_eq!(stop_note(&c, &Err(err("refused"))), "alice daemon not running or unreachable: refused\n");
    assert_eq!(unlocked_note(&c), "unlocked account alice on device box-1");
    assert_eq!(created_note(&c), "created password-backed account for alice; device box-1; assigned daemon port 7878");
}
