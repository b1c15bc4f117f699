//! Which account is worked with, and the ports of the accounts of a machine.

use vstd::prelude::*;
use vstd::string::*;
use vstd::utf8::*;

use crate::auth;
use crate::clock;
use crate::codec;
use crate::config;
use crate::config::{Config, ConfigView};
use crate::decimal;
use crate::entries;
use crate::error::{err, Error};
use crate::home;
use crate::ordmap;
use crate::ordmap::OrdMap;
use crate::table;
use crate::text;

verus! {

/// The line that names the active account.
pub open spec fn active_columns(id: Seq<char>, user: Seq<char>, port: nat) -> Seq<Seq<char>> {
    seq![codec::escaped(id), codec::escaped(user), decimal::digits(port)]
}

/// What is read from the file that names the active account: its id, its user and its port.
pub open spec fn parsed_active(file: Option<Seq<char>>) -> Result<
    (Seq<char>, Seq<char>, nat),
    Seq<char>,
> {
    match file {
        None => Err("no active account"@),
        Some(s) => {
            let ls = text::lines_of(s);
            if ls.len() == 0 || table::columns_of(ls[0]).len() < 3 {
                Err("bad active account file"@)
            } else {
                let cols = table::columns_of(ls[0]);
                Ok(
                    (
                        codec::unescaped(cols[0]),
                        codec::unescaped(cols[1]),
                        config::port_in(cols[2]),
                    ),
                )
            }
        },
    }
}

/// The text of the file that makes an account the active one.
pub fn set_active_account(cfg: &Config) -> (r: String)
    ensures
        r@ == text::joined(
            seq![table::tabbed(active_columns(cfg@.account_id, cfg@.user, cfg@.port))],
        ),
{
    let cols: Vec<String> = vec![
        codec::esc(&cfg.account_id),
        codec::esc(&cfg.user),
        decimal::decimal(cfg.port as u128),
    ];
    assert(text::views(cols@) =~= active_columns(cfg@.account_id, cfg@.user, cfg@.port));
    let rows: Vec<String> = vec![table::row(&cols)];
    assert(text::views(rows@) =~= seq![
        table::tabbed(active_columns(cfg@.account_id, cfg@.user, cfg@.port)),
    ]);
    text::join_lines(&rows)
}

/// Reads which account is the active one: its id, its user and its port.
pub fn read_active_account(file: Option<&str>) -> (r: Result<(String, String, u16), Error>)
    ensures
        match r {
            Ok((id, user, port)) => parsed_active(home::opt(file)) == Ok::<
                (Seq<char>, Seq<char>, nat),
                Seq<char>,
            >((id@, user@, port as nat)),
            Err(e) => parsed_active(home::opt(file)) == Err::<
                (Seq<char>, Seq<char>, nat),
                Seq<char>,
            >(e@),
        },
{
    let s = match file {
        None => return Err(err("no active account")),
        Some(s) => s,
    };
    let lines = text::lines(s);
    if lines.len() == 0 {
        return Err(err("bad active account file"));
    }
    assert(text::views(lines@)[0] == lines@[0]@);
    let cols = table::columns(&lines[0]);
    if cols.len() < 3 {
        return Err(err("bad active account file"));
    }
    proof {
        assert(text::views(cols@)[0] == cols@[0]@);
        assert(text::views(cols@)[1] == cols@[1]@);
        assert(text::views(cols@)[2] == cols@[2]@);
    }
    let port = match decimal::parse_u16(&cols[2]) {
        Some(n) => n,
        None => config::DEFAULT_PORT,
    };
    Ok((codec::unesc(&cols[0]), codec::unesc(&cols[1]), port))
}

/// The account that was made the active one is read back as the active one.
pub proof fn law_active_account_is_read_back(id: Seq<char>, user: Seq<char>, port: nat)
    requires
        port <= 65535,
    ensures
        parsed_active(Some(text::joined(seq![table::tabbed(active_columns(id, user, port))])))
            == Ok::<(Seq<char>, Seq<char>, nat), Seq<char>>((id, user, port)),
{
    let cols = active_columns(id, user, port);
    entries::lemma_escaped_column(id);
    entries::lemma_escaped_column(user);
    entries::lemma_number_column(port);
    assert(entries::fits_line(cols)) by {
        assert forall|i: int| 0 <= i < cols.len() implies !(#[trigger] cols[i]).contains('\t')
            && !cols[i].contains('\n') by {
            if i == 0 {
                assert(cols[i] == codec::escaped(id));
            } else if i == 1 {
                assert(cols[i] == codec::escaped(user));
            } else {
                assert(cols[i] == decimal::digits(port));
            }
        }
    }
    entries::lemma_fits_line(cols);
    let ls = seq![table::tabbed(cols)];
    text::lemma_lines_of_joined(ls);
}

/// The entry that a line of the file with the ports holds: an account id and its port.
pub open spec fn port_entry(cols: Seq<Seq<char>>) -> Option<(Seq<char>, u16)> {
    if cols.len() >= 2 {
        Some((codec::unescaped(cols[0]), config::port_in(cols[1]) as u16))
    } else {
        None
    }
}

/// How a line of the file with the ports is read.
pub open spec fn port_reader() -> spec_fn(Seq<Seq<char>>) -> Option<(Seq<char>, u16)> {
    |cols: Seq<Seq<char>>| port_entry(cols)
}

/// How an entry of the file with the ports is written.
pub open spec fn port_writer() -> spec_fn(Seq<char>, u16) -> Seq<Seq<char>> {
    |id: Seq<char>, port: u16| seq![codec::escaped(id), decimal::digits(port as nat)]
}

/// The ports that the file with the ports names.
pub open spec fn ports_in(file: Option<Seq<char>>) -> Map<Seq<char>, u16> {
    match file {
        None => Map::empty(),
        Some(s) => entries::entries_of(text::lines_of(s), port_reader()),
    }
}

/// The text of the file with the ports `m`.
pub open spec fn ports_text(m: Map<Seq<char>, u16>) -> Seq<char> {
    text::joined(entries::entry_lines(m, port_writer()))
}

/// Reads the ports of the accounts.
pub fn load_port_allocations(file: Option<&str>) -> (r: OrdMap<u16>)
    ensures
        r.wf(),
        r@ == ports_in(home::opt(file)),
{
    let mut m: OrdMap<u16> = OrdMap::new();
    let s = match file {
        None => return m,
        Some(s) => s,
    };
    let lines = text::lines(s);
    let ghost ls = text::lines_of(s@);
    let mut i: usize = 0;
    assert(ls.take(0) =~= Seq::<Seq<char>>::empty());
    while i < lines.len()
        invariant
            m.wf(),
            i <= lines@.len(),
            text::views(lines@) == ls,
            m@ == entries::entries_of(ls.take(i as int), port_reader()),
        decreases lines@.len() - i,
    {
        proof {
            assert(ls.take(i + 1).drop_last() =~= ls.take(i as int));
            assert(ls.take(i + 1).last() == ls[i as int]);
            assert(ls[i as int] == lines@[i as int]@);
        }
        let cols = table::columns(&lines[i]);
        if cols.len() >= 2 {
            proof {
                assert(text::views(cols@)[0] == cols@[0]@);
                assert(text::views(cols@)[1] == cols@[1]@);
            }
            let port = match decimal::parse_u16(&cols[1]) {
                Some(n) => n,
                None => config::DEFAULT_PORT,
            };
            m.insert(codec::unesc(&cols[0]), port);
        }
        i = i + 1;
    }
    assert(ls.take(i as int) =~= ls);
    m
}

/// The text of the file with the ports.
fn port_lines(m: &OrdMap<u16>) -> (r: String)
    requires
        m.wf(),
    ensures
        r@ == ports_text(m@),
{
    let mut rows: Vec<String> = Vec::new();
    let n = m.len();
    let ghost all = entries::entry_lines(m@, port_writer());
    let ghost keys = ordmap::sorted(m@.dom());
    let mut i: usize = 0;
    while i < n
        invariant
            m.wf(),
            i <= n == keys.len(),
            keys == ordmap::sorted(m@.dom()),
            all == entries::entry_lines(m@, port_writer()),
            text::views(rows@) =~= all.take(i as int),
        decreases n - i,
    {
        let cols: Vec<String> = vec![
            codec::esc(m.key(i)),
            decimal::decimal(*m.value(i) as u128),
        ];
        let ghost k = keys[i as int];
        assert(text::views(cols@) =~= port_writer()(k, m@[k]));
        let record = table::row(&cols);
        let ghost done = text::views(rows@);
        assert(all[i as int] == record@);
        rows.push(record);
        assert(text::views(rows@) =~= done.push(all[i as int]));
        i = i + 1;
    }
    assert(all.take(i as int) =~= all);
    text::join_lines(&rows)
}

/// The text of the file with the ports after the port of an account was set.
pub fn save_port_allocation(file: Option<&str>, account_id: &str, port: u16) -> (r: String)
    ensures
        r@ == ports_text(ports_in(home::opt(file)).insert(account_id@, port)),
{
    let mut m = load_port_allocations(file);
    m.insert(text::owned(account_id), port);
    port_lines(&m)
}

/// Ports that were saved are read back unchanged.
pub proof fn law_saved_ports_are_read_back(m: Map<Seq<char>, u16>)
    requires
        m.dom().finite(),
    ensures
        ports_in(Some(ports_text(m))) == m,
{
    assert forall|k: Seq<char>| #[trigger] m.dom().contains(k) implies entries::fits_line(
        port_writer()(k, m[k]),
    ) && port_reader()(port_writer()(k, m[k])) == Some((k, m[k])) by {
        let cols = port_writer()(k, m[k]);
        entries::lemma_escaped_column(k);
        entries::lemma_number_column(m[k] as nat);
        assert forall|i: int| 0 <= i < cols.len() implies !(#[trigger] cols[i]).contains('\t')
            && !cols[i].contains('\n') by {
            if i == 0 {
                assert(cols[i] == codec::escaped(k));
            } else {
                assert(cols[i] == decimal::digits(m[k] as nat));
            }
        }
    }
    entries::lemma_entries_read_back(m, port_reader(), port_writer());
}

/// The first port that is given out.
pub const FIRST_PORT: u16 = 7878;

/// The port behind the last one that is given out.
pub const END_PORT: u16 = 7978;

/// What is to be done to find a port for an account.
pub enum PortStep {
    /// The account has this port.
    Known(u16),
    /// This port belongs to no account: if it can be bound, it is taken.
    Try(u16),
}

/// Whether some account has the port `port`.
pub open spec fn port_used(m: Map<Seq<char>, u16>, port: int) -> bool {
    exists|k: Seq<char>| #[trigger] m.dom().contains(k) && m[k] as int == port
}

/// The first port from `from` on that is given out and that no account has.
pub open spec fn next_port(m: Map<Seq<char>, u16>, from: int) -> Option<int>
    decreases END_PORT - from,
{
    if from >= END_PORT {
        None
    } else if port_used(m, from) {
        next_port(m, from + 1)
    } else {
        Some(from)
    }
}

/// Tests whether some account has a port.
fn is_port_used(m: &OrdMap<u16>, port: u16) -> (r: bool)
    requires
        m.wf(),
    ensures
        r == port_used(m@, port as int),
{
    let n = m.len();
    let ghost keys = ordmap::sorted(m@.dom());
    proof {
        ordmap::lemma_sorted_exists(m@.dom());
    }
    let mut i: usize = 0;
    while i < n
        invariant
            m.wf(),
            i <= n == keys.len(),
            keys == ordmap::sorted(m@.dom()),
            ordmap::lists(keys, m@.dom()),
            forall|j: int| 0 <= j < i ==> m@[#[trigger] keys[j]] != port,
        decreases n - i,
    {
        let v = *m.value(i);
        if v == port {
            proof {
                let k = keys[i as int];
                assert(keys.contains(k));
                assert(m@.dom().contains(k));
            }
            return true;
        }
        i = i + 1;
    }
    proof {
        assert forall|k: Seq<char>| #[trigger] m@.dom().contains(k) implies m@[k] as int
            != port as int by {
            assert(keys.contains(k));
            let j = choose|j: int| 0 <= j < keys.len() && keys[j] == k;
            assert(keys[j] == k);
        }
    }
    false
}

/// Finds the port of an account, or the next one to try for it. The ports before `from` were
/// tried and could not be bound.
pub fn get_or_assign_port(m: &OrdMap<u16>, account_id: &str, from: u16) -> (r: Result<
    PortStep,
    Error,
>)
    requires
        m.wf(),
    ensures
        match r {
            Ok(PortStep::Known(p)) => m@.dom().contains(account_id@) && m@[account_id@] == p,
            Ok(PortStep::Try(p)) => !m@.dom().contains(account_id@) && next_port(m@, from as int)
                == Some(p as int),
            Err(e) => !m@.dom().contains(account_id@) && next_port(m@, from as int) is None && e@
                == "could not find a free daemon port in 7878..7978"@,
        },
{
    if let Some(p) = m.get(account_id) {
        return Ok(PortStep::Known(*p));
    }
    let mut port: u16 = from;
    while port < END_PORT
        invariant
            m.wf(),
            !m@.dom().contains(account_id@),
            next_port(m@, port as int) == next_port(m@, from as int),
        decreases END_PORT - port,
    {
        if !is_port_used(m, port) {
            return Ok(PortStep::Try(port));
        }
        port = port + 1;
    }
    Err(err("could not find a free daemon port in 7878..7978"))
}

/// A port that is tried for an account belongs to no other account and is one of those that are
/// given out, and all that come before it are taken.
pub proof fn law_tried_port_is_free(m: Map<Seq<char>, u16>, from: int)
    requires
        FIRST_PORT <= from,
    ensures
        match next_port(m, from) {
            Some(p) => {
                &&& from <= p < END_PORT
                &&& !port_used(m, p)
                &&& forall|q: int| from <= q < p ==> #[trigger] port_used(m, q)
            },
            None => forall|q: int| from <= q < END_PORT ==> #[trigger] port_used(m, q),
        },
    decreases END_PORT - from,
{
    if from < END_PORT && port_used(m, from) {
        law_tried_port_is_free(m, from + 1);
    }
}

/// The first account is offered the first port, and where the first `n` ports are taken and no
/// other, the next account is offered the one behind them.
pub proof fn law_ports_are_given_in_order(m: Map<Seq<char>, u16>, n: int)
    requires
        0 <= n < END_PORT - FIRST_PORT,
        forall|q: int|
            FIRST_PORT <= q < END_PORT ==> (#[trigger] port_used(m, q) <==> q < FIRST_PORT + n),
    ensures
        next_port(m, FIRST_PORT as int) == Some(FIRST_PORT + n),
{
    law_tried_port_is_free(m, FIRST_PORT as int);
    assert(!port_used(m, FIRST_PORT + n));
}

/// The port that an account without one gets where the ports `bindable` can be bound: from `from`
/// on, the next one is tried, and where it cannot be bound, the one after it.
pub open spec fn port_found(m: Map<Seq<char>, u16>, bindable: Set<int>, from: int) -> Option<int>
    decreases END_PORT - from,
{
    match next_port(m, from) {
        Some(p) => if bindable.contains(p) {
            Some(p)
        } else if from <= p < END_PORT {
            port_found(m, bindable, p + 1)
        } else {
            None
        },
        None => None,
    }
}

proof fn lemma_port_found(m: Map<Seq<char>, u16>, bindable: Set<int>, from: int)
    requires
        FIRST_PORT <= from,
    ensures
        match port_found(m, bindable, from) {
            Some(p) => {
                &&& from <= p < END_PORT
                &&& bindable.contains(p)
                &&& !port_used(m, p)
                &&& forall|q: int|
                    from <= q < p ==> #[trigger] port_used(m, q) || !bindable.contains(q)
            },
            None => forall|q: int|
                from <= q < END_PORT ==> #[trigger] port_used(m, q) || !bindable.contains(q),
        },
    decreases END_PORT - from,
{
    law_tried_port_is_free(m, from);
    if let Some(p) = next_port(m, from) {
        if !bindable.contains(p) {
            lemma_port_found(m, bindable, p + 1);
        }
    }
}

/// An account without a port gets the least port from 7878 to 7977 that can be bound and that no
/// account has, and none where there is no such port.
pub proof fn law_account_gets_the_least_port(m: Map<Seq<char>, u16>, bindable: Set<int>)
    ensures
        match port_found(m, bindable, FIRST_PORT as int) {
            Some(p) => {
                &&& FIRST_PORT <= p < END_PORT
                &&& bindable.contains(p)
                &&& !port_used(m, p)
                &&& forall|q: int|
                    FIRST_PORT <= q < p ==> #[trigger] port_used(m, q) || !bindable.contains(q)
            },
            None => forall|q: int|
                FIRST_PORT <= q < END_PORT ==> #[trigger] port_used(m, q) || !bindable.contains(q),
        },
{
    lemma_port_found(m, bindable, FIRST_PORT as int);
}

/// A directory among those of the accounts that holds a file of settings, and the text of that
/// file or why it cannot be read.
pub struct AccountEntry {
    pub dir: String,
    pub file: Result<String, Error>,
}

/// Whether an account goes by the name `name`.
pub open spec fn goes_by(c: ConfigView, name: Seq<char>) -> bool {
    c.user == name || c.account_id == name
}

/// What the settings of an entry are.
pub open spec fn entry_config(e: AccountEntry) -> Result<ConfigView, Seq<char>> {
    match e.file {
        Ok(s) => config::parsed_config(Some(s@)),
        Err(e) => Err(e@),
    }
}

/// The directory of the account that goes by `name`, among the entries from `i` on. Settings
/// that cannot be read end the search.
pub open spec fn search(es: Seq<AccountEntry>, name: Seq<char>, i: int) -> Result<
    Seq<char>,
    Seq<char>,
>
    decreases es.len() - i,
{
    if i >= es.len() {
        Err("account not found: "@ + name + "; run earth login "@ + name)
    } else {
        match entry_config(es[i]) {
            Err(e) => Err(e),
            Ok(c) => if goes_by(c, name) {
                Ok(es[i].dir@)
            } else {
                search(es, name, i + 1)
            },
        }
    }
}

/// Finds the directory of the account that goes by a user name or an account id. `direct` is the
/// directory that an account with this id would have, where it holds a file of settings.
pub fn find_account_dir(user_or_id: &str, direct: Option<&str>, entries: &Vec<AccountEntry>) -> (r:
    Result<String, Error>)
    ensures
        match r {
            Ok(dir) => dir@ == match direct {
                Some(d) => d@,
                None => search(entries@, user_or_id@, 0)->Ok_0,
            } && (direct is Some || search(entries@, user_or_id@, 0) is Ok),
            Err(e) => direct is None && search(entries@, user_or_id@, 0) == Err::<
                Seq<char>,
                Seq<char>,
            >(e@),
        },
{
    if let Some(d) = direct {
        return Ok(text::owned(d));
    }
    let mut i: usize = 0;
    while i < entries.len()
        invariant
            i <= entries@.len(),
            direct is None,
            search(entries@, user_or_id@, i as int) == search(entries@, user_or_id@, 0),
        decreases entries@.len() - i,
    {
        match &entries[i].file {
            Err(e) => {
                return Err(err(&e.message));
            },
            Ok(s) => {
                let c = match config::parse_config_file(Some(s.as_str())) {
                    Err(e) => return Err(e),
                    Ok(c) => c,
                };
                if text::same(&c.user, user_or_id) || text::same(&c.account_id, user_or_id) {
                    return Ok(entries[i].dir.clone());
                }
            },
        }
        i = i + 1;
    }
    let mut m = text::owned("account not found: ");
    m.append(user_or_id);
    m.append("; run earth login ");
    m.append(user_or_id);
    Err(err(&m))
}

/// Which account a command works with.
pub enum Selection {
    /// The account that goes by this name.
    Named(String),
    /// The account with this directory.
    Dir(String),
}

/// Which account a command works with: the one that `--account` names, else the one that
/// `EARTH_ACCOUNT` names, else the active one.
pub fn select_account(
    global: &str,
    account: Option<&str>,
    env_account: Option<&str>,
    active_file: Option<&str>,
) -> (r: Result<Selection, Error>)
    ensures
        match account {
            Some(a) => r matches Ok(Selection::Named(n)) && n@ == a@,
            None => match env_account {
                Some(a) => r matches Ok(Selection::Named(n)) && n@ == a@,
                None => match parsed_active(home::opt(active_file)) {
                    Ok((id, user, port)) => r matches Ok(Selection::Dir(d)) && d@
                        == home::account_dir(global@, id),
                    Err(_) => r matches Err(e) && e@
                        == "no active account; run earth login <user>"@,
                },
            },
        },
{
    if let Some(a) = account {
        return Ok(Selection::Named(text::owned(a)));
    }
    if let Some(a) = env_account {
        return Ok(Selection::Named(text::owned(a)));
    }
    match read_active_account(active_file) {
        Ok((id, _, _)) => Ok(Selection::Dir(home::account_dir_for_id(global, &id))),
        Err(_) => Err(err("no active account; run earth login <user>")),
    }
}

/// Why `user` cannot log in with `password`, where that shows before an account is looked for.
pub open spec fn login_refused(user: Seq<char>, password: Seq<char>) -> Option<Seq<char>> {
    if text::blank(user) {
        Some("username cannot be empty"@)
    } else if encode_utf8(password).len() < 8 {
        Some("password must be at least 8 characters"@)
    } else {
        None
    }
}

/// Tests whether a name and a password can be used at all.
pub fn check_login(user: &str, password: &str) -> (r: Result<(), Error>)
    ensures
        match r {
            Ok(_) => login_refused(user@, password@) is None,
            Err(e) => login_refused(user@, password@) == Some(e@),
        },
{
    if text::is_blank(user) {
        return Err(err("username cannot be empty"));
    }
    if password.as_bytes().len() < 8 {
        return Err(err("password must be at least 8 characters"));
    }
    Ok(())
}

/// Opens an account that is there: the password must be right, and a port that is given takes
/// the place of the one that the account had.
pub fn unlock_account(cfg: &Config, password: &str, explicit_port: Option<u16>) -> (r: Result<
    Config,
    Error,
>)
    ensures
        match auth::password_check(password@, cfg@.password_hash) {
            Ok(_) => r matches Ok(c) && c@ == (ConfigView {
                port: match explicit_port {
                    Some(p) => p as nat,
                    None => cfg@.port,
                },
                ..cfg@
            }),
            Err(m) => r matches Err(e) && e@ == m,
        },
{
    match auth::verify_password(password, &cfg.password_hash) {
        Err(e) => Err(e),
        Ok(_) => {
            let mut c = cfg.copy();
            if let Some(p) = explicit_port {
                c.port = p;
            }
            Ok(c)
        },
    }
}

/// What a new account has from its password.
pub struct Credentials {
    pub password_hash: String,
    pub account_id: String,
}

/// Makes what a new account has from its password: the id that the name and the password stand
/// for, and a hash against which the password verifies. That fails for a password that is too
/// long, and for no other.
pub fn new_credentials(user: &str, password: &str) -> (r: Result<Credentials, Error>)
    ensures
        match r {
            Ok(c) => !auth::too_long(password@) && c.account_id@ == auth::account_id_of(
                user@,
                password@,
            ) && auth::password_check(password@, c.password_hash@) == Ok::<(), Seq<char>>(()),
            Err(e) => auth::too_long(password@) && e@ == "argon2 hash failed: "@
                + "invalid password"@,
        },
{
    match auth::hash_password(password) {
        Ok(password_hash) => Ok(
            Credentials { password_hash, account_id: auth::derive_account_id(user, password) },
        ),
        Err(e) => Err(e),
    }
}

/// What comes of a login.
pub enum Login {
    /// An account is there and was opened: these are its settings.
    Unlocked(Config),
    /// A new account is to be made with this.
    New(Credentials),
}

/// Logs in: opens the account whose settings are `existing`, where one was found for the user,
/// or makes what a new account has from its password. A port that is given takes the place of
/// the one that the account had.
pub fn login(
    user: &str,
    password: &str,
    explicit_port: Option<u16>,
    existing: Option<&Config>,
) -> (r: Result<Login, Error>)
    ensures
        match login_refused(user@, password@) {
            Some(m) => r matches Err(e) && e@ == m,
            None => match existing {
                Some(cfg) => match auth::password_check(password@, cfg@.password_hash) {
                    Ok(_) => r matches Ok(Login::Unlocked(c)) && c@ == (ConfigView {
                        port: match explicit_port {
                            Some(p) => p as nat,
                            None => cfg@.port,
                        },
                        ..cfg@
                    }),
                    Err(m) => r matches Err(e) && e@ == m,
                },
                None => match r {
                    Ok(Login::New(c)) => !auth::too_long(password@) && c.account_id@
                        == auth::account_id_of(user@, password@) && auth::password_check(
                        password@,
                        c.password_hash@,
                    ) == Ok::<(), Seq<char>>(()),
                    Ok(Login::Unlocked(_)) => false,
                    Err(e) => auth::too_long(password@) && e@ == "argon2 hash failed: "@
                        + "invalid password"@,
                },
            },
        },
{
    match check_login(user, password) {
        Err(e) => Err(e),
        Ok(_) => match existing {
            Some(cfg) => match unlock_account(cfg, password, explicit_port) {
                Ok(c) => Ok(Login::Unlocked(c)),
                Err(e) => Err(e),
            },
            None => match new_credentials(user, password) {
                Ok(c) => Ok(Login::New(c)),
                Err(e) => Err(e),
            },
        },
    }
}

/// The name of this device as the system gives it, or one that fits every device.
pub fn hostname(var: Option<&str>) -> (r: String)
    ensures
        r@ == match var {
            Some(v) => v@,
            None => "device"@,
        },
{
    match var {
        Some(v) => text::owned(v),
        None => text::owned("device"),
    }
}

/// The name of a new device of an account: that of the machine and the time.
pub open spec fn device_name_of(host: Seq<char>, now_ms: nat) -> Seq<char> {
    host.push('-') + decimal::digits(now_ms)
}

/// The name of a device that becomes one of an account at this time.
pub fn new_device_name(host: &str) -> (r: String)
    ensures
        exists|now_ms: nat| r@ == #[trigger] device_name_of(host@, now_ms),
{
    device_name(host, clock::now_ms())
}

/// The name of a new device of an account.
pub fn device_name(host: &str, now_ms: u128) -> (r: String)
    ensures
        r@ == device_name_of(host@, now_ms as nat),
{
    let mut s = text::owned(host);
    s.push('-');
    s.append(&decimal::decimal(now_ms));
    s
}

/// Tests whether a port has to be assigned to a new account: none is looked for where one is
/// given.
pub fn needs_port(explicit_port: Option<u16>) -> (r: bool)
    ensures
        r == (explicit_port is None),
{
    match explicit_port {
        Some(_) => false,
        None => true,
    }
}

/// The settings of a new account, on the port that is given or else on the one that was assigned.
pub fn new_account(
    user: &str,
    credentials: Credentials,
    device: String,
    explicit_port: Option<u16>,
    assigned_port: Option<u16>,
) -> (r: Config)
    requires
        explicit_port is None ==> assigned_port is Some,
    ensures
        r@ == (ConfigView {
            user: user@,
            device: device@,
            password_hash: credentials.password_hash@,
            account_id: credentials.account_id@,
            port: match explicit_port {
                Some(p) => p as nat,
                None => assigned_port->Some_0 as nat,
            },
        }),
{
    Config {
        user: text::owned(user),
        device,
        password_hash: credentials.password_hash,
        account_id: credentials.account_id,
        port: match explicit_port {
            Some(p) => p,
            None => assigned_port.unwrap(),
        },
    }
}

} // verus!
