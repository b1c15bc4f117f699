use earth::accounts::{
    check_login, device_name, find_account_dir, get_or_assign_port, hostname,
    load_port_allocations, login, needs_port, new_account, new_credentials, new_device_name, read_active_account,
    save_port_allocation, select_account, set_active_account, unlock_account, AccountEntry,
    Login, PortStep, Selection, FIRST_PORT,
};
use earth::auth::{hash_password, verify_password};
use earth::clock::{epoch_ms, now_ms};
use earth::config::{daemon_addr, load_config, parse_config_file, save_config, Config};
use earth::error::err;
use earth::home::{
    account_dirs, active_account_path, blobs_dir, config_path, crdt_path, crdts_dir, global_dirs,
    global_home, lock_path, manifest_path, manifests_dir, port_allocations_path, program_home,
    remote_shares_path, shares_path,
};

fn config(user: &str, id: &str, port: u16) -> Config {
    Config {
        user: user.to_string(),
        device: format!("{user}-box-1"),
        password_hash: "hash".to_string(),
        account_id: id.to_string(),
        port,
    }
}

#[test]
fn homes_are_found() {
    assert_eq!(global_home(Some("/tmp/lsdev1"), Some("/home/u")), "/tmp/lsdev1");
    assert_eq!(global_home(None, Some("/home/u")), "/home/u/.earth");
    assert_eq!(global_home(None, None), "./.earth");
    assert_eq!(program_home("/g", Some("/x"), Some("/y"), Some("id")), "/x");
    assert_eq!(program_home("/g", None, Some("/y"), Some("id")), "/y");
    assert_eq!(program_home("/g", None, None, Some("i d")), "/g/accounts/i_d");
    assert_eq!(program_home("/g", None, None, None), "/g/accounts/unselected");
}

#[test]
fn files_of_an_account_are_in_its_directory() {
    assert_eq!(config_path("/h"), "/h/config.tsv");
    assert_eq!(shares_path("/h"), "/h/shares.tsv");
    assert_eq!(manifests_dir("/h"), "/h/shares");
    assert_eq!(crdts_dir("/h"), "/h/crdts");
    assert_eq!(blobs_dir("/h"), "/h/blobs");
    assert_eq!(lock_path("/h"), "/h/account.lock");
    assert_eq!(remote_shares_path("/h"), "/h/remote_shares.tsv");
    assert_eq!(manifest_path("/h", "s1"), "/h/shares/s1.manifest");
    assert_eq!(crdt_path("/h", "s1", "f.crdt"), "/h/crdts/s1/f.crdt");
    assert_eq!(active_account_path("/g"), "/g/global/active_account.tsv");
    assert_eq!(port_allocations_path("/g"), "/g/global/port_allocations.tsv");
    assert_eq!(global_dirs("/g"), vec!["/g/accounts", "/g/global"]);
    assert_eq!(account_dirs("/h"), vec!["/h/shares", "/h/crdts", "/h/blobs", "/h/logs"]);
}

#[test]
fn settings_are_saved_and_read_back() {
    let c = Config {
        user: "a\tb%".to_string(),
        device: "dev\n1".to_string(),
        password_hash: "$argon2id$x".to_string(),
        account_id: "id".to_string(),
        port: 9001,
    };
    let text = save_config(&c);
    assert_eq!(
        text,
        "user\ta%09b%25\ndevice\tdev%0A1\npassword_hash\t$argon2id$x\naccount_id\tid\nport\t9001\n"
    );
    let d = load_config(Some(&text)).unwrap();
    assert_eq!(save_config(&d), text);
    assert_eq!(d.user, c.user);
    assert_eq!(d.port, 9001);
    assert_eq!(save_config(&c.copy()), text);
}

#[test]
fn settings_that_are_missing_are_reported() {
    let e = |t: Option<&str>| parse_config_file(t).err().unwrap().message;
    assert_eq!(e(None), "not logged in; run earth login <user>");
    assert_eq!(e(Some("")), "bad config; run login again");
    assert_eq!(e(Some("user\ta\ndevice\tb\n")), "bad config; run login again");
    assert_eq!(e(Some("user\t\ndevice\tb\naccount_id\tc\n")), "bad config; run login again");
}

#[test]
fn settings_take_defaults_and_later_lines() {
    let c = parse_config_file(Some("user\ta\tb\nuser\tc\td\r\ndevice\tx\naccount_id\ty\nport\t70000\nnoise\n")).unwrap();
    assert_eq!(c.user, "c\td");
    assert_eq!(c.password_hash, "");
    assert_eq!(c.port, 7878);
    assert_eq!(daemon_addr(&c), "127.0.0.1:7878");
}

#[test]
fn a_carriage_return_at_an_end_is_lost() {
    let mut c = config("u", "i", 1);
    c.user = "u\r".to_string();
    assert_eq!(load_config(Some(&save_config(&c))).unwrap().user, "u");
}

#[test]
fn the_active_account_is_saved_and_read_back() {
    let c = config("al\tice", "id%1", 7880);
    let text = set_active_account(&c);
    assert_eq!(text, "id%251\tal%09ice\t7880\n");
    let (id, user, port) = read_active_account(Some(&text)).ok().unwrap();
    assert_eq!((id.as_str(), user.as_str(), port), ("id%1", "al\tice", 7880));
    let e = |t: Option<&str>| read_active_account(t).err().unwrap().message;
    assert_eq!(e(None), "no active account");
    assert_eq!(e(Some("")), "bad active account file");
    assert_eq!(e(Some("a\tb\n")), "bad active account file");
    assert_eq!(read_active_account(Some("a\tb\tx\n")).ok().unwrap().2, 7878);
}

#[test]
fn ports_are_saved_and_read_back() {
    let one = save_port_allocation(None, "b", 7879);
    assert_eq!(one, "b\t7879\n");
    let two = save_port_allocation(Some(&one), "a\t", 7878);
    assert_eq!(two, "a%09\t7878\nb\t7879\n");
    let three = save_port_allocation(Some(&two), "b", 9001);
    let m = load_port_allocations(Some(&three));
    assert_eq!(m.len(), 2);
    assert_eq!(m.get("a\t"), Some(&7878));
    assert_eq!(m.get("b"), Some(&9001));
    assert_eq!(load_port_allocations(None).len(), 0);
    assert_eq!(load_port_allocations(Some("x\ty\nz\n")).get("x"), Some(&7878));
}

fn tried(m: &str, id: &str, from: u16) -> Option<u16> {
    match get_or_assign_port(&load_port_allocations(Some(m)), id, from) {
        Ok(PortStep::Try(p)) => Some(p),
        _ => None,
    }
}

#[test]
fn ports_are_given_in_order() {
    assert_eq!(tried("", "a", FIRST_PORT), Some(7878));
    assert_eq!(tried("a\t7878\n", "b", FIRST_PORT), Some(7879));
    assert_eq!(tried("a\t7878\nb\t7879\n", "c", FIRST_PORT), Some(7880));
    assert_eq!(tried("a\t7879\n", "b", 7879), Some(7880));
    assert_eq!(tried("a\t9001\n", "b", 7977), Some(7977));
    assert!(matches!(
        get_or_assign_port(&load_port_allocations(Some("a\t9001\n")), "a", FIRST_PORT),
        Ok(PortStep::Known(9001))
    ));
    let e = get_or_assign_port(&load_port_allocations(None), "a", 7978).err().unwrap();
    assert_eq!(e.message, "could not find a free daemon port in 7878..7978");
    assert!(get_or_assign_port(&load_port_allocations(Some("z\t7977\n")), "a", 7977).is_err());
}

/// Goes on behind each port that cannot be bound.
fn given(m: &str, bindable: &[u16]) -> Option<u16> {
    let mut from = FIRST_PORT;
    while let Some(p) = tried(m, "new", from) {
        if bindable.contains(&p) {
            return Some(p);
        }
        from = p + 1;
    }
    None
}

#[test]
fn an_account_gets_the_least_port_that_is_free() {
    assert_eq!(given("a\t7879\n", &[7990, 7900, 7881, 7879]), Some(7881));
    assert_eq!(given("a\t7881\nb\t9001\n", &[7881, 7977]), Some(7977));
    assert_eq!(given("", &[7878, 7879]), Some(7878));
    assert_eq!(given("a\t7881\n", &[7881, 7877, 7978]), None);
    assert_eq!(given("", &[]), None);
}

fn entry(dir: &str, c: &Config) -> AccountEntry {
    AccountEntry { dir: dir.to_string(), file: Ok(save_config(c)) }
}

#[test]
fn accounts_are_found_by_name_or_id() {
    let es = vec![entry("/g/accounts/i1", &config("alice", "i1", 1)), entry("/g/accounts/i2", &config("alex", "i2", 2))];
    assert_eq!(find_account_dir("alex", None, &es).ok().unwrap(), "/g/accounts/i2");
    assert_eq!(find_account_dir("i1", None, &es).ok().unwrap(), "/g/accounts/i1");
    assert_eq!(find_account_dir("alex", Some("/g/accounts/alex"), &es).ok().unwrap(), "/g/accounts/alex");
    assert_eq!(
        find_account_dir("bob", None, &es).err().unwrap().message,
        "account not found: bob; run earth login bob"
    );
}

#[test]
fn settings_that_cannot_be_read_end_the_search() {
    let broken = AccountEntry { dir: "/b".to_string(), file: Ok("junk".to_string()) };
    let es = vec![entry("/a", &config("alice", "i1", 1)), broken, entry("/c", &config("alex", "i2", 2))];
    assert_eq!(find_account_dir("alice", None, &es).ok().unwrap(), "/a");
    assert_eq!(find_account_dir("alex", None, &es).err().unwrap().message, "bad config; run login again");
    let es = vec![AccountEntry { dir: "/d".to_string(), file: Err(err("denied")) }];
    assert_eq!(find_account_dir("x", None, &es).err().unwrap().message, "denied");
}

#[test]
fn the_account_is_resolved_in_order() {
    let active = set_active_account(&config("alice", "i1", 1));
    let named = |r: Selection| match r {
        Selection::Named(n) => n,
        Selection::Dir(d) => format!("dir {d}"),
    };
    let pick = |a: Option<&str>, e: Option<&str>, f: Option<&str>| select_account("/g", a, e, f).map(named).map_err(|e| e.message);
    assert_eq!(pick(Some("bob"), Some("eve"), Some(&active)), Ok("bob".to_string()));
    assert_eq!(pick(None, Some("eve"), Some(&active)), Ok("eve".to_string()));
    assert_eq!(pick(None, None, Some(&active)), Ok("dir /g/accounts/i1".to_string()));
    assert_eq!(pick(None, None, None), Err("no active account; run earth login <user>".to_string()));
    assert_eq!(pick(None, None, Some("x")), Err("no active account; run earth login <user>".to_string()));
}

#[test]
fn logins_are_checked() {
    assert!(check_login("alice", "test-password-123").is_ok());
    assert!(check_login("alice", "12345678").is_ok());
    assert!(check_login("alice", "\u{e9}\u{e9}\u{e9}\u{e9}").is_ok());
    assert_eq!(check_login(" \t\u{a0}", "12345678").err().unwrap().message, "username cannot be empty");
    assert_eq!(check_login("", "x").err().unwrap().message, "username cannot be empty");
    assert_eq!(check_login("alice", "1234567").err().unwrap().message, "password must be at least 8 characters");
}

#[test]
fn an_account_is_unlocked_by_its_password() {
    let mut c = config("alice", "i1", 7878);
    c.password_hash = hash_password("test-password-123").ok().unwrap();
    assert_eq!(unlock_account(&c, "test-password-123", None).ok().unwrap().port, 7878);
    let d = unlock_account(&c, "test-password-123", Some(9001)).ok().unwrap();
    assert_eq!(d.port, 9001);
    assert_eq!(d.user, "alice");
    assert_eq!(unlock_account(&c, "wrong-password", Some(9001)).err().unwrap().message, "wrong password");
    c.password_hash = String::new();
    assert!(unlock_account(&c, "test-password-123", None).err().unwrap().message.starts_with("bad password hash: "));
}

#[test]
fn an_account_is_created_from_its_password() {
    let cr = new_credentials("alice", "test-password-123").ok().unwrap();
    assert_eq!(cr.account_id, "esaORboBCn9Fe8Y-n9G60A");
    assert!(verify_password("test-password-123", &cr.password_hash).is_ok());
    let device = device_name(&hostname(Some("box")), 1700000000123);
    assert_eq!(device, "box-1700000000123");
    let c = new_account("alice", cr, device, None, Some(7879));
    assert_eq!(c.port, 7879);
    assert_eq!(c.device, "box-1700000000123");
    let cr = new_credentials("alice", "test-password-123").ok().unwrap();
    assert_eq!(new_account("alice", cr, "d".to_string(), Some(9001), None).port, 9001);
    assert_eq!(hostname(None), "device");
}

#[test]
fn a_login_opens_or_creates_an_account() {
    let mut c = config("alice", "i1", 7878);
    c.password_hash = hash_password("test-password-123").ok().unwrap();
    match login("alice", "test-password-123", Some(9001), Some(&c)) {
        Ok(Login::Unlocked(d)) => assert_eq!((d.port, d.account_id.as_str()), (9001, "i1")),
        _ => panic!("the account is there"),
    }
    let said = |u: &str, p: &str, e: Option<&Config>| login(u, p, None, e).err().unwrap().message;
    assert_eq!(said("alice", "wrong-password", Some(&c)), "wrong password");
    assert_eq!(said(" ", "test-password-123", Some(&c)), "username cannot be empty");
    assert_eq!(said("alice", "short", None), "password must be at least 8 characters");
    match login("alice", "test-password-123", None, None) {
        Ok(Login::New(n)) => assert_eq!(n.account_id, "esaORboBCn9Fe8Y-n9G60A"),
        _ => panic!("the account is new"),
    }
}

#[test]
fn no_port_is_looked_for_where_one_is_given() {
    assert!(needs_port(None));
    assert!(!needs_port(Some(9001)));
    let cr = new_credentials("alice", "test-password-123").ok().unwrap();
    assert_eq!(new_account("alice", cr, "d".to_string(), Some(9001), Some(7879)).port, 9001);
}

#[test]
fn devices_are_named_by_the_time() {
    let name = new_device_name("box");
    let time = name.strip_prefix("box-").unwrap();
    assert!(time.parse::<u128>().unwrap() > 1_600_000_000_000);
    assert!(now_ms() >= time.parse::<u128>().unwrap());
}

#[test]
fn readings_of_the_clock_are_whole_milliseconds() {
    assert_eq!(epoch_ms(Some((1_700_000_000, 123_999_999))), 1_700_000_000_123);
    assert_eq!(epoch_ms(Some((0, 999_999))), 0);
    assert_eq!(epoch_ms(Some((0, 1_000_000))), 1);
    assert_eq!(epoch_ms(Some((u64::MAX, 999_999_999))), 18_446_744_073_709_551_615_999);
    assert_eq!(epoch_ms(None), 0);
    assert!(now_ms() > 1_600_000_000_000);
}
