//! What devices of an account say to each other.

use vstd::prelude::*;
use vstd::string::*;

use crate::codec;
use crate::config::{Config, ConfigView};
use crate::decimal;
use crate::entries;
use crate::error::{err, Error};
use crate::shares;
use crate::shares::{Share, ShareView};
use crate::table;
use crate::text;

verus! {

/// The columns of the line by which a device shows its account.
pub open spec fn auth_columns(c: ConfigView) -> Seq<Seq<char>> {
    seq!["AUTH"@, codec::escaped(c.user), codec::escaped(c.account_id), codec::escaped(c.device)]
}

/// The line by which a device shows its account.
pub open spec fn auth_text(c: ConfigView) -> Seq<char> {
    table::tabbed(auth_columns(c)).push('\n')
}

/// The line by which a device shows its account.
pub fn auth_line(cfg: &Config) -> (r: String)
    ensures
        r@ == auth_text(cfg@),
{
    let cols: Vec<String> = vec![
        text::owned("AUTH"),
        codec::esc(&cfg.user),
        codec::esc(&cfg.account_id),
        codec::esc(&cfg.device),
    ];
    assert(text::views(cols@) =~= auth_columns(cfg@));
    let mut s = table::row(&cols);
    s.push('\n');
    s
}

/// Why a device that shows its account by the line `line` is refused, if it is.
pub open spec fn auth_refused(c: ConfigView, line: Seq<char>) -> Option<Seq<char>> {
    let cols = table::columns_of(line);
    if cols.len() < 4 || cols[0] != "AUTH"@ {
        Some("missing AUTH header"@)
    } else if codec::unescaped(cols[1]) != c.user || codec::unescaped(cols[2]) != c.account_id {
        Some("peer is not authenticated for this account"@)
    } else {
        None
    }
}

/// Tests whether the line by which another device shows its account fits the one here.
pub fn verify_auth_line(cfg: &Config, line: &str) -> (r: Result<(), Error>)
    ensures
        match r {
            Ok(_) => auth_refused(cfg@, line@) is None,
            Err(e) => auth_refused(cfg@, line@) == Some(e@),
        },
{
    let cols = table::columns(line);
    let ghost cv = table::columns_of(line@);
    proof {
        assert forall|k: int| 0 <= k < cols@.len() implies cv[k] == (#[trigger] cols@[k])@ by {
            assert(text::views(cols@)[k] == cols@[k]@);
        }
    }
    if cols.len() < 4 || !text::same(&cols[0], "AUTH") {
        return Err(err("missing AUTH header"));
    }
    let user = codec::unesc(&cols[1]);
    let account = codec::unesc(&cols[2]);
    if !text::same(&user, &cfg.user) || !text::same(&account, &cfg.account_id) {
        return Err(err("peer is not authenticated for this account"));
    }
    Ok(())
}

/// What a device asks for.
pub enum Request {
    /// Whether a daemon is there.
    Ping,
    /// How it is.
    Status,
    /// That it stops.
    Shutdown,
    /// Which shares it has.
    GetShares,
    /// A snapshot of the share with this id.
    Export(String),
    /// A snapshot of all shares.
    GetSnapshot,
    /// That it takes over the snapshot that follows.
    ImportSnapshot,
    /// Something that is not known.
    Unknown,
}

/// What a device asks for, in terms of values.
pub enum RequestView {
    Ping,
    Status,
    Shutdown,
    GetShares,
    Export(Seq<char>),
    GetSnapshot,
    ImportSnapshot,
    Unknown,
}

impl View for Request {
    type V = RequestView;

    open spec fn view(&self) -> RequestView {
        match self {
            Request::Ping => RequestView::Ping,
            Request::Status => RequestView::Status,
            Request::Shutdown => RequestView::Shutdown,
            Request::GetShares => RequestView::GetShares,
            Request::Export(id) => RequestView::Export(id@),
            Request::GetSnapshot => RequestView::GetSnapshot,
            Request::ImportSnapshot => RequestView::ImportSnapshot,
            Request::Unknown => RequestView::Unknown,
        }
    }
}

/// What the command `cmd` asks for.
pub open spec fn request_of(cmd: Seq<char>) -> RequestView {
    if cmd == "PING"@ {
        RequestView::Ping
    } else if cmd == "STATUS"@ {
        RequestView::Status
    } else if cmd == "SHUTDOWN"@ {
        RequestView::Shutdown
    } else if cmd == "GET_SHARES"@ {
        RequestView::GetShares
    } else if text::has_prefix(cmd, "EXPORT "@) {
        RequestView::Export(cmd.skip("EXPORT "@.len() as int))
    } else if cmd == "GET_SNAPSHOT"@ {
        RequestView::GetSnapshot
    } else if cmd == "IMPORT_SNAPSHOT"@ {
        RequestView::ImportSnapshot
    } else {
        RequestView::Unknown
    }
}

/// Reads a command.
pub fn parse_request(cmd: &str) -> (r: Request)
    ensures
        r@ == request_of(cmd@),
{
    if text::same(cmd, "PING") {
        return Request::Ping;
    }
    if text::same(cmd, "STATUS") {
        return Request::Status;
    }
    if text::same(cmd, "SHUTDOWN") {
        return Request::Shutdown;
    }
    if text::same(cmd, "GET_SHARES") {
        return Request::GetShares;
    }
    if let Some(id) = text::strip_prefix(cmd, "EXPORT ") {
        return Request::Export(id);
    }
    if text::same(cmd, "GET_SNAPSHOT") {
        return Request::GetSnapshot;
    }
    if text::same(cmd, "IMPORT_SNAPSHOT") {
        return Request::ImportSnapshot;
    }
    Request::Unknown
}

/// Reads what another device asks for: the line by which it shows its account, and its command.
/// A device that does not belong to the account is refused, whatever it asks for.
pub fn read_request(cfg: &Config, auth: &str, command: &str) -> (r: Result<Request, Error>)
    ensures
        match auth_refused(cfg@, text::trimmed_end(auth@)) {
            Some(m) => r matches Err(e) && e@ == m,
            None => r matches Ok(q) && q@ == request_of(text::trimmed_end(command@)),
        },
{
    match verify_auth_line(cfg, &text::trim_end(auth)) {
        Err(e) => Err(e),
        Ok(_) => Ok(parse_request(&text::trim_end(command))),
    }
}

/// The lines that say whose daemon answers.
pub open spec fn identity_lines(c: ConfigView) -> Seq<Seq<char>> {
    seq![
        "user\t"@ + c.user,
        "account\t"@ + c.account_id,
        "port\t"@ + decimal::digits(c.port),
    ]
}

/// The line of a share in the list of shares.
pub open spec fn share_entry(s: ShareView) -> Seq<char> {
    s.id.push('\t') + s.name
}

/// The answer with the shares `ss`.
pub open spec fn shares_answer(ss: Seq<ShareView>) -> Seq<char> {
    text::joined(Seq::new(ss.len(), |i: int| share_entry(ss[i])))
}

/// What is done about a request.
pub enum Answer {
    /// This text is the answer.
    Text(String),
    /// This text is the answer, and the daemon stops.
    Stop(String),
    /// The answer is a snapshot, of one share or of all.
    Export(Option<String>),
    /// The snapshot that follows is taken over and the shares are written out; then this text is
    /// the answer.
    Import(String),
}

/// A text of two parts.
fn concat(a: &str, b: &str) -> (r: String)
    ensures
        r@ == a@ + b@,
{
    let mut s = text::owned(a);
    s.append(b);
    s
}

/// The lines that say whose daemon answers, behind a first line and before more.
fn identity(cfg: &Config, first: &str) -> (r: Vec<String>)
    ensures
        text::views(r@) == seq![first@] + identity_lines(cfg@),
{
    let r: Vec<String> = vec![
        text::owned(first),
        concat("user\t", &cfg.user),
        concat("account\t", &cfg.account_id),
        concat("port\t", &decimal::decimal(cfg.port as u128)),
    ];
    assert(text::views(r@) =~= seq![first@] + identity_lines(cfg@));
    r
}

/// The answer to the question whether a daemon is there.
pub open spec fn ping_answer(c: ConfigView) -> Seq<char> {
    text::joined(seq!["PONG"@] + identity_lines(c))
}

/// The answer to the question how a daemon is, which has `n` shares.
pub open spec fn status_answer(c: ConfigView, n: nat) -> Seq<char> {
    text::joined(
        (seq!["status\trunning"@] + identity_lines(c)).push("shares\t"@ + decimal::digits(n)),
    )
}

/// The text with the shares of a device.
pub fn list_shares(shares: &Vec<Share>) -> (r: String)
    ensures
        r@ == shares_answer(shares::share_views(shares@)),
{
    let ghost ss = shares::share_views(shares@);
    let ghost all = Seq::new(ss.len(), |i: int| share_entry(ss[i]));
    let mut rows: Vec<String> = Vec::new();
    let mut i: usize = 0;
    while i < shares.len()
        invariant
            i <= shares@.len(),
            ss == shares::share_views(shares@),
            all == Seq::new(ss.len(), |i: int| share_entry(ss[i])),
            text::views(rows@) =~= all.take(i as int),
        decreases shares@.len() - i,
    {
        let mut s = shares[i].id.clone();
        s.push('\t');
        s.append(&shares[i].name);
        let ghost done = text::views(rows@);
        assert(s@ == all[i as int]);
        rows.push(s);
        assert(text::views(rows@) =~= done.push(all[i as int]));
        i = i + 1;
    }
    assert(all.take(i as int) =~= all);
    text::join_lines(&rows)
}

/// Decides what is done about a request. `loopback` says whether it came from this device;
/// `shares` are the shares here.
pub fn handle_client(cfg: &Config, request: Request, loopback: bool, shares: &Vec<Share>) -> (r:
    Answer)
    ensures
        match request {
            Request::Ping => r matches Answer::Text(t) && t@ == ping_answer(cfg@),
            Request::Status => r matches Answer::Text(t) && t@ == status_answer(
                cfg@,
                shares@.len(),
            ),
            Request::Shutdown => if loopback {
                r matches Answer::Stop(t) && t@ == "OK shutting down\n"@
            } else {
                r matches Answer::Text(t) && t@ == "ERR shutdown only allowed from localhost\n"@
            },
            Request::GetShares => r matches Answer::Text(t) && t@ == shares_answer(
                shares::share_views(shares@),
            ),
            Request::Export(id) => r matches Answer::Export(Some(s)) && s@ == id@,
            Request::GetSnapshot => r matches Answer::Export(None),
            Request::ImportSnapshot => r matches Answer::Import(t) && t@ == "OK\n"@,
            Request::Unknown => r matches Answer::Text(t) && t@ == "ERR unknown command\n"@,
        },
{
    match request {
        Request::Ping => Answer::Text(text::join_lines(&identity(cfg, "PONG"))),
        Request::Status => {
            let mut rows = identity(cfg, "status\trunning");
            let ghost before = text::views(rows@);
            let last = concat("shares\t", &decimal::decimal(shares.len() as u128));
            let ghost lv = last@;
            rows.push(last);
            assert(text::views(rows@) =~= before.push(lv));
            Answer::Text(text::join_lines(&rows))
        },
        Request::Shutdown => {
            if loopback {
                Answer::Stop(text::owned("OK shutting down\n"))
            } else {
                Answer::Text(text::owned("ERR shutdown only allowed from localhost\n"))
            }
        },
        Request::GetShares => Answer::Text(list_shares(shares)),
        Request::Export(id) => Answer::Export(Some(id)),
        Request::GetSnapshot => Answer::Export(None),
        Request::ImportSnapshot => Answer::Import(text::owned("OK\n")),
        Request::Unknown => Answer::Text(text::owned("ERR unknown command\n")),
    }
}

/// What is sent to another device for a command.
pub open spec fn request_text_of(c: ConfigView, msg: Seq<char>) -> Seq<char> {
    auth_text(c) + msg
}

/// What is sent to another device for a command.
pub fn request_text(cfg: &Config, msg: &str) -> (r: String)
    ensures
        r@ == request_text_of(cfg@, msg@),
{
    concat(&auth_line(cfg), msg)
}

/// What is sent to another device so that it takes over a snapshot.
pub fn push_text(cfg: &Config, snapshot: &str) -> (r: String)
    ensures
        r@ == request_text_of(cfg@, "IMPORT_SNAPSHOT\n"@ + snapshot@),
{
    request_text(cfg, &concat("IMPORT_SNAPSHOT\n", snapshot))
}

/// The command for a snapshot of the share with the id `share_id`.
pub fn export_command(share_id: &str) -> (r: String)
    ensures
        r@ == "EXPORT "@ + share_id@ + "\n"@,
{
    let s = concat("EXPORT ", share_id);
    concat(&s, "\n")
}

/// The text of the file that shows that a daemon runs.
pub open spec fn lock_text_of(pid: nat, c: ConfigView) -> Seq<char> {
    text::joined(
        seq!["pid\t"@ + decimal::digits(pid), "account\t"@ + c.account_id, "user\t"@ + c.user],
    )
}

/// The text of the file that shows that a daemon runs.
pub fn lock_text(pid: u32, cfg: &Config) -> (r: String)
    ensures
        r@ == lock_text_of(pid as nat, cfg@),
{
    let rows: Vec<String> = vec![
        concat("pid\t", &decimal::decimal(pid as u128)),
        concat("account\t", &cfg.account_id),
        concat("user\t", &cfg.user),
    ];
    assert(text::views(rows@) =~= seq![
        "pid\t"@ + decimal::digits(pid as nat),
        "account\t"@ + cfg@.account_id,
        "user\t"@ + cfg@.user,
    ]);
    text::join_lines(&rows)
}

/// Whitespace at the end of what follows a text is removed from both together, unless nothing
/// else follows.
proof fn lemma_trimmed_end(a: Seq<char>, b: Seq<char>)
    requires
        !text::blank(b),
    ensures
        text::trimmed_end(a + b) == a + text::trimmed_end(b),
        text::trimmed_end(b).len() > 0,
    decreases b.len(),
{
    if b.len() == 0 {
        assert(text::blank(b));
    } else {
        assert((a + b).last() == b.last());
        if text::is_white(b.last()) {
            let r = b.drop_last();
            assert((a + b).drop_last() =~= a + r);
            if text::blank(r) {
                assert forall|i: int| 0 <= i < b.len() implies text::is_white(#[trigger] b[i]) by {
                    if i < r.len() {
                        assert(r[i] == b[i]);
                    }
                }
            }
            lemma_trimmed_end(a, r);
        }
    }
}

/// A text is blank if and only if it is so when it is escaped, but for tabs and newlines.
proof fn lemma_escaped_not_blank(s: Seq<char>)
    requires
        !text::blank(s),
    ensures
        !text::blank(codec::escaped(s)),
    decreases s.len(),
{
    if s.len() == 0 {
        assert(text::blank(s));
    } else {
        let e = codec::escaped(s);
        let h = codec::escaped(s.drop_last());
        let t = codec::escape_char(s.last());
        if text::is_white(s.last()) {
            let r = s.drop_last();
            if text::blank(r) {
                assert forall|i: int| 0 <= i < s.len() implies text::is_white(#[trigger] s[i]) by {
                    if i < r.len() {
                        assert(r[i] == s[i]);
                    }
                }
            }
            lemma_escaped_not_blank(r);
            let i = choose|i: int| 0 <= i < h.len() && !text::is_white(#[trigger] h[i]);
            assert(!text::is_white(e[i]));
        } else {
            assert(e[h.len() as int] == t[0]);
            assert(!text::is_white(e[h.len() as int]));
        }
    }
}

/// What is left of text that holds no tab when whitespace at its end is removed holds none.
proof fn lemma_trimmed_end_part(s: Seq<char>, c: char)
    requires
        !s.contains(c),
    ensures
        !text::trimmed_end(s).contains(c),
    decreases s.len(),
{
    if s.len() > 0 && text::is_white(s.last()) {
        let r = s.drop_last();
        assert forall|i: int| 0 <= i < r.len() implies r[i] != c by {
            assert(s.contains(s[i]));
        }
        lemma_trimmed_end_part(r, c);
    }
}

/// A device is admitted by the daemon of an account if and only if its user and its account id
/// are those of the account, as long as its name is not blank.
pub proof fn law_only_own_devices_are_admitted(here: ConfigView, there: ConfigView)
    requires
        !text::blank(there.device),
    ensures
        auth_refused(here, text::trimmed_end(auth_text(there))) is None <==> there.user
            == here.user && there.account_id == here.account_id,
        auth_refused(here, text::trimmed_end(auth_text(there))) is Some ==> auth_refused(
            here,
            text::trimmed_end(auth_text(there)),
        ) == Some("peer is not authenticated for this account"@),
{
    let cols = auth_columns(there);
    let d = codec::escaped(there.device);
    let head = table::tabbed(cols.drop_last()).push('\t');
    reveal_strlit("AUTH");
    entries::lemma_escaped_column(there.user);
    entries::lemma_escaped_column(there.account_id);
    entries::lemma_escaped_column(there.device);
    lemma_escaped_not_blank(there.device);
    let dn = d.push('\n');
    assert(auth_text(there) =~= head + dn);
    assert(!text::blank(dn)) by {
        let i = choose|i: int| 0 <= i < d.len() && !text::is_white(#[trigger] d[i]);
        assert(!text::is_white(dn[i]));
    }
    lemma_trimmed_end(head, dn);
    let t = text::trimmed_end(dn);
    assert(dn.drop_last() =~= d);
    assert(t == text::trimmed_end(d));
    lemma_trimmed_end_part(d, '\t');
    let left = cols.drop_last().push(t);
    assert(left.drop_last() =~= cols.drop_last());
    assert(table::tabbed(left) =~= head + t);
    assert forall|i: int| 0 <= i < left.len() implies !(#[trigger] left[i]).contains('\t') by {
        if i == 0 {
            assert(left[i] == "AUTH"@);
        } else if i == 1 {
            assert(left[i] == codec::escaped(there.user));
        } else if i == 2 {
            assert(left[i] == codec::escaped(there.account_id));
        } else {
            assert(left[i] == t);
        }
    }
    table::lemma_columns_of_tabbed(left);
}

/// The line by which a device shows its account is one line, whatever the names hold: what is
/// sent behind it begins with the command.
pub proof fn law_auth_text_is_one_line(c: ConfigView, msg: Seq<char>)
    ensures
        auth_text(c).last() == '\n',
        !auth_text(c).drop_last().contains('\n'),
        request_text_of(c, msg).take(auth_text(c).len() as int) == auth_text(c),
        request_text_of(c, msg).skip(auth_text(c).len() as int) == msg,
{
    let cols = auth_columns(c);
    reveal_strlit("AUTH");
    entries::lemma_escaped_column(c.user);
    entries::lemma_escaped_column(c.account_id);
    entries::lemma_escaped_column(c.device);
    assert forall|i: int| 0 <= i < cols.len() implies !(#[trigger] cols[i]).contains('\n') by {
        if i == 0 {
            assert(cols[i] == "AUTH"@);
        } else if i == 1 {
            assert(cols[i] == codec::escaped(c.user));
        } else if i == 2 {
            assert(cols[i] == codec::escaped(c.account_id));
        } else {
            assert(cols[i] == codec::escaped(c.device));
        }
    }
    table::lemma_tabbed_no_newline(cols);
    assert(auth_text(c).drop_last() =~= table::tabbed(cols));
    let r = request_text_of(c, msg);
    assert(r.take(auth_text(c).len() as int) =~= auth_text(c));
    assert(r.skip(auth_text(c).len() as int) =~= msg);
}

/// The command for a snapshot of a share is understood as such, for every id that does not end
/// in whitespace.
pub proof fn law_export_command_is_understood(id: Seq<char>)
    requires
        id.len() > 0,
        !text::is_white(id.last()),
    ensures
        request_of(text::trimmed_end("EXPORT "@ + id + "\n"@)) == RequestView::Export(id),
{
    reveal_strlit("EXPORT ");
    reveal_strlit("\n");
    reveal_strlit("PING");
    reveal_strlit("STATUS");
    reveal_strlit("SHUTDOWN");
    reveal_strlit("GET_SHARES");
    let cmd = "EXPORT "@ + id;
    let sent = cmd + "\n"@;
    assert(sent.last() == '\n');
    assert(sent.drop_last() =~= cmd);
    assert(cmd.last() == id.last());
    assert(text::trimmed_end(cmd) == cmd);
    assert(text::trimmed_end(sent) == cmd);
    assert(cmd[0] == 'E');
    assert("PING"@[0] == 'P' && "STATUS"@[0] == 'S' && "SHUTDOWN"@[0] == 'S');
    assert("GET_SHARES"@[0] == 'G');
    assert(cmd.take(7) =~= "EXPORT "@);
    assert(cmd.skip(7) =~= id);
}

} // verus!
