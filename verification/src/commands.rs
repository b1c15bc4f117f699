//! What the commands make and what they say.

use vstd::prelude::*;
use vstd::string::*;

use crate::clock;
use crate::codec;
use crate::config::{Config, ConfigView};
use crate::decimal;
use crate::error::{err, Error};
use crate::hash;
use crate::home;
use crate::paths;
use crate::protocol;
use crate::shares::{Share, ShareView};
use crate::snapshot;
use crate::table;
use crate::text;

verus! {

/// The share that is made of the folder `root` at the time `now_ms`.
pub open spec fn share_of(user: Seq<char>, root: Seq<char>, now_ms: nat) -> ShareView {
    let name = snapshot::record_name(root);
    ShareView {
        id: hash::text_hash(user + name).push('-') + decimal::digits(now_ms),
        name,
        root,
    }
}

/// Makes a share of a folder, which is given by its absolute path, at this time.
pub fn cmd_init(cfg: &Config, root: &str) -> (r: Share)
    ensures
        exists|now_ms: nat| r@ == #[trigger] share_of(cfg@.user, root@, now_ms),
{
    new_share(cfg, root, clock::now_ms())
}

/// Makes a share of a folder, which is given by its absolute path, at the time `now_ms`.
pub fn new_share(cfg: &Config, root: &str, now_ms: u128) -> (r: Share)
    ensures
        r@ == share_of(cfg@.user, root@, now_ms as nat),
{
    let name = match paths::file_name(root) {
        Some(n) => n,
        None => String::new(),
    };
    assert(name@ =~= snapshot::record_name(root@));
    let mut both = cfg.user.clone();
    both.append(&name);
    let mut id = hash::stable_hash(&both);
    id.push('-');
    id.append(&decimal::decimal(now_ms));
    Share { id, name, root: text::owned(root) }
}

/// The id of a share that was made of a folder can name a file.
pub proof fn law_new_share_id_is_a_name(user: Seq<char>, root: Seq<char>, now_ms: nat)
    ensures
        paths::is_name(share_of(user, root, now_ms).id),
{
    let h = hash::text_hash(user + snapshot::record_name(root));
    let d = decimal::digits(now_ms);
    let id = share_of(user, root, now_ms).id;
    hash::lemma_digest(hash::text_writes(user + snapshot::record_name(root)));
    decimal::lemma_digits(now_ms);
    reveal_strlit(".");
    reveal_strlit("..");
    assert(id.len() > 2 && "."@.len() == 1 && ".."@.len() == 2);
    assert forall|i: int| 0 <= i < id.len() implies id[i] != '/' by {
        if i < h.len() {
            assert(id[i] == h[i]);
        } else if i > h.len() {
            assert(id[i] == d[i - h.len() - 1]);
            assert(decimal::is_digit(d[i - h.len() - 1]));
        }
    }
}

/// Where a share with the name `name` stands in a list of shares, from the line `i` on.
pub open spec fn share_at(ls: Seq<Seq<char>>, name: Seq<char>, i: int) -> Option<int>
    decreases ls.len() - i,
{
    if i >= ls.len() {
        None
    } else if table::columns_of(ls[i]).len() >= 2 && table::columns_of(ls[i])[1] == name {
        Some(i)
    } else {
        share_at(ls, name, i + 1)
    }
}

/// Finds a share by its name in the list of shares that a peer sent. Gives its id and its name.
pub fn find_remote_share(list: &str, name: &str) -> (r: Result<(String, String), Error>)
    ensures
        match share_at(text::lines_of(list@), name@, 0) {
            Some(i) => r matches Ok((id, n)) && id@ == table::columns_of(
                text::lines_of(list@)[i],
            )[0] && n@ == name@,
            None => r matches Err(e) && e@ == "remote share not found"@,
        },
{
    let lines = text::lines(list);
    let ghost ls = text::lines_of(list@);
    let mut i: usize = 0;
    while i < lines.len()
        invariant
            i <= lines@.len(),
            text::views(lines@) == ls,
            ls == text::lines_of(list@),
            share_at(ls, name@, i as int) == share_at(ls, name@, 0),
        decreases lines@.len() - i,
    {
        assert(ls[i as int] == lines@[i as int]@);
        let cols = table::columns(&lines[i]);
        if cols.len() >= 2 {
            proof {
                assert(text::views(cols@)[0] == cols@[0]@);
                assert(text::views(cols@)[1] == cols@[1]@);
            }
            if text::same(&cols[1], name) {
                return Ok((cols[0].clone(), cols[1].clone()));
            }
        }
        i = i + 1;
    }
    Err(err("remote share not found"))
}

/// The share that a clone of a remote share makes here.
pub fn cmd_clone(id: &str, name: &str, root: &str) -> (r: Share)
    ensures
        r@ == (ShareView { id: id@, name: name@, root: root@ }),
{
    Share { id: text::owned(id), name: text::owned(name), root: text::owned(root) }
}

/// Whether the id and the name of a share can be sent in a list of shares.
pub open spec fn is_listable(s: ShareView) -> bool {
    &&& !s.id.contains('\t') && !s.id.contains('\n')
    &&& !s.name.contains('\t') && !s.name.contains('\n')
    &&& s.name.len() > 0 ==> s.name.last() != '\r'
}

/// A share that a peer has is found by its name in the list that the peer sends: the first one
/// with this name, as long as ids and names hold no tab and no newline.
pub proof fn law_listed_share_is_found(ss: Seq<ShareView>, k: int)
    requires
        forall|i: int| 0 <= i < ss.len() ==> is_listable(#[trigger] ss[i]),
        0 <= k < ss.len(),
        forall|i: int| 0 <= i < k ==> (#[trigger] ss[i]).name != ss[k].name,
    ensures
        ({
            let ls = text::lines_of(protocol::shares_answer(ss));
            &&& share_at(ls, ss[k].name, 0) == Some(k)
            &&& table::columns_of(ls[k])[0] == ss[k].id
        }),
{
    let rows = Seq::new(ss.len(), |i: int| protocol::share_entry(ss[i]));
    assert forall|i: int| 0 <= i < rows.len() implies {
        &&& !(#[trigger] rows[i]).contains('\n')
        &&& text::strip_cr(rows[i]) == rows[i]
        &&& table::columns_of(rows[i]) == seq![ss[i].id, ss[i].name]
    } by {
        let s = ss[i];
        let cols = seq![s.id, s.name];
        assert(is_listable(s));
        assert(cols.drop_last() =~= seq![s.id]);
        assert(table::tabbed(cols.drop_last()) == s.id);
        assert(rows[i] =~= table::tabbed(cols));
        table::lemma_columns_of_tabbed(cols);
        table::lemma_tabbed_is_line(cols);
    }
    text::lemma_lines_of_joined(rows);
    lemma_share_at(rows, ss[k].name, 0, k);
}

proof fn lemma_share_at(ls: Seq<Seq<char>>, name: Seq<char>, i: int, k: int)
    requires
        0 <= i <= k < ls.len(),
        forall|j: int|
            i <= j < k ==> table::columns_of(#[trigger] ls[j]).len() >= 2 && table::columns_of(
                ls[j],
            )[1] != name,
        table::columns_of(ls[k]).len() >= 2,
        table::columns_of(ls[k])[1] == name,
    ensures
        share_at(ls, name, i) == Some(k),
    decreases k - i,
{
    if i < k {
        assert(table::columns_of(ls[i])[1] != name);
        lemma_share_at(ls, name, i + 1, k);
    }
}

/// The lines `ls`, each behind two spaces.
pub open spec fn indented_lines(ls: Seq<Seq<char>>) -> Seq<Seq<char>> {
    Seq::new(ls.len(), |i: int| "  "@ + ls[i])
}

/// The lines of a text, each behind two spaces.
pub fn print_indented(s: &str) -> (r: Vec<String>)
    ensures
        text::views(r@) == indented_lines(text::lines_of(s@)),
{
    let lines = text::lines(s);
    let ghost all = indented_lines(text::lines_of(s@));
    let mut out: Vec<String> = Vec::new();
    let mut i: usize = 0;
    while i < lines.len()
        invariant
            i <= lines@.len(),
            text::views(lines@) == text::lines_of(s@),
            all == indented_lines(text::lines_of(s@)),
            text::views(out@) =~= all.take(i as int),
        decreases lines@.len() - i,
    {
        let mut line = text::owned("  ");
        line.append(&lines[i]);
        let ghost before = text::views(out@);
        assert(text::views(lines@)[i as int] == lines@[i as int]@);
        assert(line@ == all[i as int]);
        out.push(line);
        assert(text::views(out@) =~= before.push(all[i as int]));
        i = i + 1;
    }
    assert(all.take(i as int) =~= all);
    out
}

/// The line for a share of this device.
pub open spec fn local_line(s: ShareView) -> Seq<char> {
    "  "@ + s.id + "\t"@ + s.name + "\t"@ + s.root
}

/// What is said of the shares of this device.
pub fn list_local(shares: &Vec<Share>) -> (r: Vec<String>)
    ensures
        text::views(r@) == seq!["local shares:"@] + Seq::new(
            shares@.len(),
            |i: int| local_line(shares@[i]@),
        ),
{
    let ghost all = seq!["local shares:"@] + Seq::new(
        shares@.len(),
        |i: int| local_line(shares@[i]@),
    );
    let mut out: Vec<String> = vec![text::owned("local shares:")];
    let mut i: usize = 0;
    while i < shares.len()
        invariant
            i <= shares@.len(),
            all == seq!["local shares:"@] + Seq::new(
                shares@.len(),
                |i: int| local_line(shares@[i]@),
            ),
            text::views(out@) =~= all.take(i + 1),
        decreases shares@.len() - i,
    {
        let s = &shares[i];
        let mut line = line_of("  ", &s.id, "\t", &s.name);
        line.append("\t");
        line.append(&s.root);
        let ghost before = text::views(out@);
        assert(line@ == all[i + 1]);
        out.push(line);
        assert(text::views(out@) =~= before.push(all[i + 1]));
        i = i + 1;
    }
    assert(all.take(i + 1) =~= all);
    out
}

/// What is said of the peers that were discovered.
pub open spec fn peers_said(peers: Seq<Seq<char>>) -> Seq<Seq<char>> {
    if peers.len() == 0 {
        seq!["no earth peers discovered"@]
    } else {
        peers
    }
}

/// What is said of the peers that were discovered.
pub fn cmd_peers(peers: &Vec<String>) -> (r: Vec<String>)
    ensures
        text::views(r@) == peers_said(text::views(peers@)),
{
    let mut out: Vec<String> = Vec::new();
    if peers.len() == 0 {
        out.push(text::owned("no earth peers discovered"));
        assert(text::views(out@) =~= peers_said(text::views(peers@)));
        return out;
    }
    let mut i: usize = 0;
    while i < peers.len()
        invariant
            i <= peers@.len(),
            text::views(out@) =~= text::views(peers@).take(i as int),
        decreases peers@.len() - i,
    {
        let ghost before = text::views(out@);
        out.push(peers[i].clone());
        assert(text::views(out@) =~= before.push(text::views(peers@)[i as int]));
        i = i + 1;
    }
    assert(text::views(out@) =~= text::views(peers@));
    out
}

/// What is said of a share that a peer has.
pub open spec fn remote_line(line: Seq<char>) -> Seq<char> {
    let cols = table::columns_of(line);
    "    "@ + if cols.len() >= 2 {
        codec::unescaped(cols[1])
    } else {
        line
    }
}

/// The lines of `ls` that are not blank, as shares that a peer has.
pub open spec fn remote_lines(ls: Seq<Seq<char>>) -> Seq<Seq<char>>
    decreases ls.len(),
{
    if ls.len() == 0 {
        Seq::empty()
    } else if text::blank(ls.last()) {
        remote_lines(ls.drop_last())
    } else {
        remote_lines(ls.drop_last()).push(remote_line(ls.last()))
    }
}

/// What a peer answered when it was asked for its shares, in terms of values.
pub open spec fn answer_view(a: Result<String, Error>) -> Result<Seq<char>, Seq<char>> {
    match a {
        Ok(s) => Ok(s@),
        Err(e) => Err(e@),
    }
}

/// What is said of the shares of one peer.
pub open spec fn peer_section(peer: Seq<char>, answer: Result<Seq<char>, Seq<char>>) -> Seq<
    Seq<char>,
> {
    match answer {
        Ok(s) => {
            let ls = remote_lines(text::lines_of(s));
            if ls.len() == 0 {
                seq!["  "@ + peer + ": no shares"@]
            } else {
                seq!["  from "@ + peer + ":"@] + ls
            }
        },
        Err(e) => seq!["  "@ + peer + ": could not list shares: "@ + e],
    }
}

/// Whether a peer answered with shares.
pub open spec fn has_shares(answer: Result<Seq<char>, Seq<char>>) -> bool {
    answer matches Ok(s) && remote_lines(text::lines_of(s)).len() > 0
}

/// What is said of the shares of the first `n` peers.
pub open spec fn sections(
    peers: Seq<Seq<char>>,
    answers: Seq<Result<String, Error>>,
    n: int,
) -> Seq<Seq<char>>
    decreases n,
{
    if n <= 0 {
        Seq::empty()
    } else {
        sections(peers, answers, n - 1) + peer_section(peers[n - 1], answer_view(answers[n - 1]))
    }
}

/// Whether one of the first `n` peers answered with shares.
pub open spec fn any_shares(answers: Seq<Result<String, Error>>, n: int) -> bool {
    exists|i: int| 0 <= i < n && has_shares(answer_view(#[trigger] answers[i]))
}

/// What is said after a login of the peers that were discovered and of their shares.
pub open spec fn discovery_said(
    peers: Seq<Seq<char>>,
    answers: Seq<Result<String, Error>>,
) -> Seq<Seq<char>> {
    if peers.len() == 0 {
        seq![
            "no earth peers discovered"@,
            "hint: on another device, run: earth daemon --bind 0.0.0.0:7878 --discover"@,
        ]
    } else {
        let said = seq!["discovered peers:"@] + indented_lines(peers) + seq![
            "available remote shares:"@,
        ] + sections(peers, answers, peers.len() as int);
        if any_shares(answers, peers.len() as int) {
            said
        } else {
            said.push("  none found yet"@)
        }
    }
}

/// A line of four parts.
fn line_of(a: &str, b: &str, c: &str, d: &str) -> (r: String)
    ensures
        r@ == a@ + b@ + c@ + d@,
{
    let mut s = text::owned(a);
    s.append(b);
    s.append(c);
    s.append(d);
    s
}

/// Reads the shares that a peer answered with.
fn remote_shares_said(answer: &str) -> (r: Vec<String>)
    ensures
        text::views(r@) == remote_lines(text::lines_of(answer@)),
{
    let lines = text::lines(answer);
    let ghost ls = text::lines_of(answer@);
    let mut out: Vec<String> = Vec::new();
    let mut i: usize = 0;
    assert(ls.take(0) =~= Seq::<Seq<char>>::empty());
    while i < lines.len()
        invariant
            i <= lines@.len(),
            text::views(lines@) == ls,
            text::views(out@) =~= remote_lines(ls.take(i as int)),
        decreases lines@.len() - i,
    {
        proof {
            assert(ls.take(i + 1).drop_last() =~= ls.take(i as int));
            assert(ls.take(i + 1).last() == ls[i as int]);
            assert(ls[i as int] == lines@[i as int]@);
        }
        if !text::is_blank(&lines[i]) {
            let cols = table::columns(&lines[i]);
            let mut line = text::owned("    ");
            if cols.len() >= 2 {
                assert(text::views(cols@)[1] == cols@[1]@);
                line.append(&codec::unesc(&cols[1]));
            } else {
                line.append(&lines[i]);
            }
            let ghost before = text::views(out@);
            let ghost lv = line@;
            assert(lv == remote_line(ls[i as int]));
            out.push(line);
            assert(text::views(out@) =~= before.push(lv));
        }
        i = i + 1;
    }
    assert(ls.take(i as int) =~= ls);
    out
}

/// Adds lines to lines.
fn append_lines(out: &mut Vec<String>, more: &Vec<String>)
    ensures
        text::views(final(out)@) == text::views(old(out)@) + text::views(more@),
{
    let ghost was = text::views(out@);
    let ghost all = text::views(more@);
    let mut i: usize = 0;
    while i < more.len()
        invariant
            i <= more@.len(),
            all == text::views(more@),
            text::views(out@) =~= was + all.take(i as int),
        decreases more@.len() - i,
    {
        let ghost before = text::views(out@);
        out.push(more[i].clone());
        assert(text::views(out@) =~= before.push(all[i as int]));
        i = i + 1;
    }
    assert(text::views(out@) =~= was + all);
}

/// What is said after a login of the peers that were discovered and of their shares. `answers`
/// holds what each peer answered when it was asked for its shares.
pub fn post_login_discovery(peers: &Vec<String>, answers: &Vec<Result<String, Error>>) -> (r: Vec<
    String,
>)
    requires
        answers@.len() == peers@.len(),
    ensures
        text::views(r@) == discovery_said(text::views(peers@), answers@),
{
    let ghost pv = text::views(peers@);
    if peers.len() == 0 {
        let out: Vec<String> = vec![
            text::owned("no earth peers discovered"),
            text::owned(
                "hint: on another device, run: earth daemon --bind 0.0.0.0:7878 --discover",
            ),
        ];
        assert(text::views(out@) =~= discovery_said(pv, answers@));
        return out;
    }
    let mut out: Vec<String> = vec![text::owned("discovered peers:")];
    let ghost one = seq!["discovered peers:"@];
    let mut i: usize = 0;
    while i < peers.len()
        invariant
            i <= peers@.len(),
            pv == text::views(peers@),
            one == seq!["discovered peers:"@],
            text::views(out@) =~= one + indented_lines(pv).take(i as int),
        decreases peers@.len() - i,
    {
        let mut line = text::owned("  ");
        line.append(&peers[i]);
        let ghost before = text::views(out@);
        assert(line@ == indented_lines(pv)[i as int]);
        out.push(line);
        assert(text::views(out@) =~= before.push(indented_lines(pv)[i as int]));
        i = i + 1;
    }
    assert(indented_lines(pv).take(i as int) =~= indented_lines(pv));
    let ghost before = text::views(out@);
    out.push(text::owned("available remote shares:"));
    let ghost head = one + indented_lines(pv) + seq!["available remote shares:"@];
    assert(text::views(out@) =~= before.push("available remote shares:"@));
    assert(text::views(out@) =~= head);
    let mut any = false;
    let mut j: usize = 0;
    assert(head + sections(pv, answers@, 0) =~= head);
    while j < peers.len()
        invariant
            j <= peers@.len(),
            answers@.len() == peers@.len(),
            pv == text::views(peers@),
            any == any_shares(answers@, j as int),
            text::views(out@) =~= head + sections(pv, answers@, j as int),
        decreases peers@.len() - j,
    {
        assert(pv[j as int] == peers@[j as int]@);
        let ghost so_far = sections(pv, answers@, j as int);
        let ghost av = answer_view(answers@[j as int]);
        match &answers[j] {
            Ok(s) => {
                let listed = remote_shares_said(s);
                if listed.len() == 0 {
                    let ghost was = text::views(out@);
                    let mut line = pair_of("  ", &peers[j]);
                    line.append(": no shares");
                    out.push(line);
                    assert(text::views(out@) =~= was + peer_section(pv[j as int], av));
                } else {
                    any = true;
                    let ghost was = text::views(out@);
                    let mut line = pair_of("  from ", &peers[j]);
                    line.append(":");
                    out.push(line);
                    append_lines(&mut out, &listed);
                    proof {
                        assert(text::views(out@) =~= was + peer_section(pv[j as int], av));
                        assert(has_shares(answer_view(answers@[j as int])));
                    }
                }
            },
            Err(e) => {
                let ghost was = text::views(out@);
                out.push(line_of("  ", &peers[j], ": could not list shares: ", &e.message));
                assert(text::views(out@) =~= was + peer_section(pv[j as int], av));
            },
        }
        j = j + 1;
        proof {
            assert(any == any_shares(answers@, j as int)) by {
                if any_shares(answers@, j - 1) {
                    let k = choose|k: int|
                        0 <= k < j - 1 && has_shares(answer_view(#[trigger] answers@[k]));
                    assert(has_shares(answer_view(answers@[k])));
                }
            }
        }
    }
    if !any {
        let ghost was = text::views(out@);
        out.push(text::owned("  none found yet"));
        assert(text::views(out@) =~= was.push("  none found yet"@));
    }
    out
}

/// What is said of an account.
pub open spec fn status_said(c: ConfigView, answer: Option<Seq<char>>, n: nat) -> Seq<Seq<char>> {
    seq![c.user, "  account: "@ + c.account_id, "  port: "@ + decimal::digits(c.port)] + (
    match answer {
        Some(a) => seq!["  status: running"@] + indented_lines(text::lines_of(a)),
        None => seq!["  status: stopped"@],
    }) + seq!["  shares: "@ + decimal::digits(n)]
}

/// A line of two parts.
fn pair_of(a: &str, b: &str) -> (r: String)
    ensures
        r@ == a@ + b@,
{
    let mut s = text::owned(a);
    s.append(b);
    s
}

/// What is said of an account that has `n` shares; `answer` is what its daemon answered when it
/// was asked how it is, if it did.
pub fn print_account_status(cfg: &Config, answer: Option<&str>, n: usize) -> (r: Vec<String>)
    ensures
        text::views(r@) == status_said(cfg@, home::opt(answer), n as nat),
{
    let mut out: Vec<String> = vec![
        cfg.user.clone(),
        pair_of("  account: ", &cfg.account_id),
        pair_of("  port: ", &decimal::decimal(cfg.port as u128)),
    ];
    let ghost head = seq![
        cfg@.user,
        "  account: "@ + cfg@.account_id,
        "  port: "@ + decimal::digits(cfg@.port),
    ];
    assert(text::views(out@) =~= head);
    match answer {
        Some(a) => {
            out.push(text::owned("  status: running"));
            assert(text::views(out@) =~= head + seq!["  status: running"@]);
            append_lines(&mut out, &print_indented(a));
            assert(text::views(out@) =~= head + (seq!["  status: running"@] + indented_lines(
                text::lines_of(a@),
            )));
        },
        None => {
            out.push(text::owned("  status: stopped"));
            assert(text::views(out@) =~= head + seq!["  status: stopped"@]);
        },
    }
    let ghost was = text::views(out@);
    out.push(pair_of("  shares: ", &decimal::decimal(n as u128)));
    assert(text::views(out@) =~= was + seq!["  shares: "@ + decimal::digits(n as nat)]);
    out
}

/// What is said when the daemon of an account was asked to stop: its answer, or why there is
/// none.
pub fn stop_note(cfg: &Config, answer: &Result<String, Error>) -> (r: String)
    ensures
        r@ == match *answer {
            Ok(s) => s@,
            Err(e) => cfg@.user + " daemon not running or unreachable: "@ + e@ + "\n"@,
        },
{
    match answer {
        Ok(s) => s.clone(),
        Err(e) => line_of(&cfg.user, " daemon not running or unreachable: ", &e.message, "\n"),
    }
}

/// What is said when an account was unlocked.
pub fn unlocked_note(cfg: &Config) -> (r: String)
    ensures
        r@ == "unlocked account "@ + cfg@.user + " on device "@ + cfg@.device,
{
    line_of("unlocked account ", &cfg.user, " on device ", &cfg.device)
}

/// What is said when an account was created.
pub fn created_note(cfg: &Config) -> (r: String)
    ensures
        r@ == "created password-backed account for "@ + cfg@.user + "; device "@ + cfg@.device
            + "; assigned daemon port "@ + decimal::digits(cfg@.port),
{
    let s = line_of("created password-backed account for ", &cfg.user, "; device ", &cfg.device);
    let mut t = s;
    t.append("; assigned daemon port ");
    t.append(&decimal::decimal(cfg.port as u128));
    t
}

/// What is said when a share was made.
pub fn init_note(share: &Share) -> (r: String)
    ensures
        r@ == "initialized share '"@ + share@.name + "' as "@ + share@.id,
{
    line_of("initialized share '", &share.name, "' as ", &share.id)
}

} // verus!
