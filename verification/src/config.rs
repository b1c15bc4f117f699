//! The settings of an account.

use vstd::prelude::*;
use vstd::string::*;

use crate::codec;
use crate::decimal;
use crate::entries;
use crate::error::{err, Error};
use crate::home;
use crate::table;
use crate::text;

verus! {

/// The port of an account whose settings name none.
pub const DEFAULT_PORT: u16 = 7878;

/// What the settings of an account are.
#[verifier::ext_equal]
pub struct ConfigView {
    pub user: Seq<char>,
    pub device: Seq<char>,
    pub password_hash: Seq<char>,
    pub account_id: Seq<char>,
    pub port: nat,
}

/// The settings of an account on a device.
pub struct Config {
    pub user: String,
    pub device: String,
    pub password_hash: String,
    pub account_id: String,
    pub port: u16,
}

impl View for Config {
    type V = ConfigView;

    open spec fn view(&self) -> ConfigView {
        ConfigView {
            user: self.user@,
            device: self.device@,
            password_hash: self.password_hash@,
            account_id: self.account_id@,
            port: self.port as nat,
        }
    }
}

impl Config {
    /// A copy.
    pub fn copy(&self) -> (r: Config)
        ensures
            r@ == self@,
    {
        Config {
            user: self.user.clone(),
            device: self.device.clone(),
            password_hash: self.password_hash.clone(),
            account_id: self.account_id.clone(),
            port: self.port,
        }
    }
}

/// Where the first tab at or behind `i` stands in `line`.
pub open spec fn first_tab(line: Seq<char>, i: int) -> int
    decreases line.len() - i,
{
    if i >= line.len() || line[i] == '\t' {
        i
    } else {
        first_tab(line, i + 1)
    }
}

/// What stands before the first tab of `line` and what stands behind it.
pub open spec fn field_of(line: Seq<char>) -> Option<(Seq<char>, Seq<char>)> {
    let t = first_tab(line, 0);
    if t < line.len() {
        Some((line.take(t), line.skip(t + 1)))
    } else {
        None
    }
}

/// The port that `s` names, or the default one.
pub open spec fn port_in(s: Seq<char>) -> nat {
    match decimal::number_up_to(s, 65535) {
        Some(n) => n,
        None => DEFAULT_PORT as nat,
    }
}

/// The settings `c` after the line `line` was read.
pub open spec fn with_field(c: ConfigView, line: Seq<char>) -> ConfigView {
    match field_of(line) {
        None => c,
        Some((k, v)) => if k == "user"@ {
            ConfigView { user: codec::unescaped(v), ..c }
        } else if k == "device"@ {
            ConfigView { device: codec::unescaped(v), ..c }
        } else if k == "password_hash"@ {
            ConfigView { password_hash: codec::unescaped(v), ..c }
        } else if k == "account_id"@ {
            ConfigView { account_id: codec::unescaped(v), ..c }
        } else if k == "port"@ {
            ConfigView { port: port_in(v), ..c }
        } else {
            c
        },
    }
}

/// Settings of which nothing is known.
pub open spec fn blank_config() -> ConfigView {
    ConfigView {
        user: Seq::empty(),
        device: Seq::empty(),
        password_hash: Seq::empty(),
        account_id: Seq::empty(),
        port: DEFAULT_PORT as nat,
    }
}

/// The settings that the lines `ls` make.
pub open spec fn of_fields(ls: Seq<Seq<char>>) -> ConfigView
    decreases ls.len(),
{
    if ls.len() == 0 {
        blank_config()
    } else {
        with_field(of_fields(ls.drop_last()), ls.last())
    }
}

/// What is read from a file of settings. A user, a device and an account must be named.
pub open spec fn parsed_config(file: Option<Seq<char>>) -> Result<ConfigView, Seq<char>> {
    match file {
        None => Err("not logged in; run earth login <user>"@),
        Some(s) => {
            let c = of_fields(text::lines_of(s));
            if c.user.len() == 0 || c.device.len() == 0 || c.account_id.len() == 0 {
                Err("bad config; run login again"@)
            } else {
                Ok(c)
            }
        },
    }
}

/// The lines of the file with the settings `c`.
pub open spec fn config_lines(c: ConfigView) -> Seq<Seq<char>> {
    seq![
        table::tabbed(seq!["user"@, codec::escaped(c.user)]),
        table::tabbed(seq!["device"@, codec::escaped(c.device)]),
        table::tabbed(seq!["password_hash"@, codec::escaped(c.password_hash)]),
        table::tabbed(seq!["account_id"@, codec::escaped(c.account_id)]),
        table::tabbed(seq!["port"@, decimal::digits(c.port)]),
    ]
}

/// A line of two columns.
fn pair(key: &str, value: String) -> (r: String)
    ensures
        r@ == table::tabbed(seq![key@, value@]),
{
    let cols: Vec<String> = vec![text::owned(key), value];
    assert(text::views(cols@) =~= seq![key@, value@]);
    table::row(&cols)
}

/// The text of the file with the settings of an account.
pub fn save_config(cfg: &Config) -> (r: String)
    ensures
        r@ == text::joined(config_lines(cfg@)),
{
    let rows: Vec<String> = vec![
        pair("user", codec::esc(&cfg.user)),
        pair("device", codec::esc(&cfg.device)),
        pair("password_hash", codec::esc(&cfg.password_hash)),
        pair("account_id", codec::esc(&cfg.account_id)),
        pair("port", decimal::decimal(cfg.port as u128)),
    ];
    assert(text::views(rows@) =~= config_lines(cfg@));
    text::join_lines(&rows)
}

/// Reads what stands before the first tab of a line and what stands behind it.
fn field(line: &str) -> (r: Option<(String, String)>)
    ensures
        match r {
            Some((k, v)) => field_of(line@) == Some((k@, v@)),
            None => field_of(line@) is None,
        },
{
    let chars = text::chars_of(line);
    let n = chars.len();
    let mut i: usize = 0;
    while i < n
        invariant
            i <= n == chars@.len(),
            chars@ == line@,
            first_tab(line@, i as int) == first_tab(line@, 0),
        decreases n - i,
    {
        if chars[i] == '\t' {
            assert(line@.subrange(0, i as int) =~= line@.take(i as int));
            assert(line@.subrange(i + 1, n as int) =~= line@.skip(i + 1));
            return Some((text::string_of(&chars, 0, i), text::string_of(&chars, i + 1, n)));
        }
        i = i + 1;
    }
    None
}

/// Reads the settings of an account; `file` is the text of their file, where it is there.
pub fn parse_config_file(file: Option<&str>) -> (r: Result<Config, Error>)
    ensures
        match r {
            Ok(c) => parsed_config(home::opt(file)) == Ok::<ConfigView, Seq<char>>(c@),
            Err(e) => parsed_config(home::opt(file)) == Err::<ConfigView, Seq<char>>(e@),
        },
{
    let s = match file {
        None => return Err(err("not logged in; run earth login <user>")),
        Some(s) => s,
    };
    let mut c = Config {
        user: String::new(),
        device: String::new(),
        password_hash: String::new(),
        account_id: String::new(),
        port: DEFAULT_PORT,
    };
    let lines = text::lines(s);
    let ghost ls = text::lines_of(s@);
    let mut i: usize = 0;
    assert(ls.take(0) =~= Seq::<Seq<char>>::empty());
    assert(c@ =~= blank_config());
    while i < lines.len()
        invariant
            i <= lines@.len(),
            text::views(lines@) == ls,
            c@ == of_fields(ls.take(i as int)),
        decreases lines@.len() - i,
    {
        proof {
            assert(ls.take(i + 1).drop_last() =~= ls.take(i as int));
            assert(ls.take(i + 1).last() == ls[i as int]);
            assert(ls[i as int] == lines@[i as int]@);
        }
        if let Some((k, v)) = field(&lines[i]) {
            if text::same(&k, "user") {
                c.user = codec::unesc(&v);
            } else if text::same(&k, "device") {
                c.device = codec::unesc(&v);
            } else if text::same(&k, "password_hash") {
                c.password_hash = codec::unesc(&v);
            } else if text::same(&k, "account_id") {
                c.account_id = codec::unesc(&v);
            } else if text::same(&k, "port") {
                c.port = match decimal::parse_u16(&v) {
                    Some(n) => n,
                    None => DEFAULT_PORT,
                };
            }
        }
        assert(c@ =~= of_fields(ls.take(i + 1)));
        i = i + 1;
    }
    assert(ls.take(i as int) =~= ls);
    if c.user.as_str().is_empty() || c.device.as_str().is_empty()
        || c.account_id.as_str().is_empty() {
        Err(err("bad config; run login again"))
    } else {
        Ok(c)
    }
}

/// Reads the settings of an account. Whether a password is right is not asked.
pub fn load_config_unverified(file: Option<&str>) -> (r: Result<Config, Error>)
    ensures
        match r {
            Ok(c) => parsed_config(home::opt(file)) == Ok::<ConfigView, Seq<char>>(c@),
            Err(e) => parsed_config(home::opt(file)) == Err::<ConfigView, Seq<char>>(e@),
        },
{
    parse_config_file(file)
}

/// Reads the settings of an account.
pub fn load_config(file: Option<&str>) -> (r: Result<Config, Error>)
    ensures
        match r {
            Ok(c) => parsed_config(home::opt(file)) == Ok::<ConfigView, Seq<char>>(c@),
            Err(e) => parsed_config(home::opt(file)) == Err::<ConfigView, Seq<char>>(e@),
        },
{
    load_config_unverified(file)
}

/// Whether a text does not end in a carriage return.
pub open spec fn plain_end(s: Seq<char>) -> bool {
    s.len() > 0 ==> s.last() != '\r'
}

/// The address at which the daemon of an account is reached on its own device.
pub open spec fn daemon_addr_of(c: ConfigView) -> Seq<char> {
    "127.0.0.1:"@ + decimal::digits(c.port)
}

/// The address at which the daemon of an account is reached on its own device.
pub fn daemon_addr(cfg: &Config) -> (r: String)
    ensures
        r@ == daemon_addr_of(cfg@),
{
    let mut s = text::owned("127.0.0.1:");
    s.append(&decimal::decimal(cfg.port as u128));
    s
}

/// The first tab of a line of two columns is the one between them.
proof fn lemma_field(k: Seq<char>, v: Seq<char>)
    requires
        !k.contains('\t'),
    ensures
        field_of(table::tabbed(seq![k, v])) == Some((k, v)),
{
    let cols = seq![k, v];
    let line = table::tabbed(cols);
    assert(cols.drop_last() =~= seq![k]);
    assert(table::tabbed(cols.drop_last()) == k);
    assert(line =~= k.push('\t') + v);
    lemma_first_tab(line, 0, k.len() as int);
    assert(line.take(k.len() as int) =~= k);
    assert(line.skip(k.len() as int + 1) =~= v);
}

proof fn lemma_first_tab(line: Seq<char>, i: int, t: int)
    requires
        0 <= i <= t < line.len(),
        line[t] == '\t',
        !line.take(t).contains('\t'),
    ensures
        first_tab(line, i) == t,
    decreases t - i,
{
    if i < t {
        assert(line.take(t)[i] == line[i]);
        assert(line.take(t).contains(line.take(t)[i]));
        lemma_first_tab(line, i + 1, t);
    }
}

/// The keys of the settings hold no tab and differ.
proof fn lemma_keys()
    ensures
        !"user"@.contains('\t') && !"user"@.contains('\n'),
        !"device"@.contains('\t') && !"device"@.contains('\n'),
        !"password_hash"@.contains('\t') && !"password_hash"@.contains('\n'),
        !"account_id"@.contains('\t') && !"account_id"@.contains('\n'),
        !"port"@.contains('\t') && !"port"@.contains('\n'),
        "user"@ != "device"@,
        "user"@ != "password_hash"@,
        "user"@ != "account_id"@,
        "user"@ != "port"@,
        "device"@ != "password_hash"@,
        "device"@ != "account_id"@,
        "device"@ != "port"@,
        "password_hash"@ != "account_id"@,
        "password_hash"@ != "port"@,
        "account_id"@ != "port"@,
{
    reveal_strlit("user");
    reveal_strlit("device");
    reveal_strlit("password_hash");
    reveal_strlit("account_id");
    reveal_strlit("port");
    assert("user"@[0] == 'u' && "device"@[0] == 'd' && "password_hash"@[0] == 'p');
    assert("account_id"@[0] == 'a' && "port"@[0] == 'p');
    assert("password_hash"@.len() == 13 && "port"@.len() == 4);
}

proof fn lemma_pair_line(k: Seq<char>, v: Seq<char>)
    requires
        !k.contains('\t'),
        !k.contains('\n'),
        !v.contains('\t'),
        !v.contains('\n'),
        plain_end(v),
    ensures
        !table::tabbed(seq![k, v]).contains('\n'),
        text::strip_cr(table::tabbed(seq![k, v])) == table::tabbed(seq![k, v]),
        field_of(table::tabbed(seq![k, v])) == Some((k, v)),
{
    let cols = seq![k, v];
    assert(entries::fits_line(cols));
    entries::lemma_fits_line(cols);
    lemma_field(k, v);
}

/// Settings that were saved are read back unchanged. A text that ends in a carriage return
/// would lose it.
pub proof fn law_saved_config_is_read_back(c: ConfigView)
    requires
        c.user.len() > 0,
        c.device.len() > 0,
        c.account_id.len() > 0,
        c.port <= 65535,
        plain_end(c.user),
        plain_end(c.device),
        plain_end(c.password_hash),
        plain_end(c.account_id),
    ensures
        parsed_config(Some(text::joined(config_lines(c)))) == Ok::<ConfigView, Seq<char>>(c),
{
    let ls = config_lines(c);
    let port = decimal::digits(c.port);
    lemma_keys();
    entries::lemma_escaped_column(c.user);
    entries::lemma_escaped_column(c.device);
    entries::lemma_escaped_column(c.password_hash);
    entries::lemma_escaped_column(c.account_id);
    entries::lemma_number_column(c.port);
    lemma_pair_line("user"@, codec::escaped(c.user));
    lemma_pair_line("device"@, codec::escaped(c.device));
    lemma_pair_line("password_hash"@, codec::escaped(c.password_hash));
    lemma_pair_line("account_id"@, codec::escaped(c.account_id));
    lemma_pair_line("port"@, port);
    text::lemma_lines_of_joined(ls);
    let l1 = ls.take(1);
    let l2 = ls.take(2);
    let l3 = ls.take(3);
    let l4 = ls.take(4);
    assert(ls.take(5) =~= ls);
    assert(ls.drop_last() =~= l4);
    assert(l4.drop_last() =~= l3);
    assert(l3.drop_last() =~= l2);
    assert(l2.drop_last() =~= l1);
    assert(l1.drop_last() =~= Seq::<Seq<char>>::empty());
    assert(of_fields(l1.drop_last()) == blank_config());
    assert(of_fields(l1) == (ConfigView { user: c.user, ..blank_config() }));
    assert(of_fields(l2) == (ConfigView { user: c.user, device: c.device, ..blank_config() }));
    assert(of_fields(l3) == (ConfigView {
        user: c.user,
        device: c.device,
        password_hash: c.password_hash,
        ..blank_config()
    }));
    assert(of_fields(l4) == (ConfigView {
        user: c.user,
        device: c.device,
        password_hash: c.password_hash,
        account_id: c.account_id,
        port: DEFAULT_PORT as nat,
    }));
    assert(of_fields(ls) =~= c);
}

} // verus!
