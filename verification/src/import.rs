//! What a snapshot from another device does to the files of an account.

use vstd::prelude::*;
use vstd::string::*;
use vstd::utf8::*;

use crate::bytes;
use crate::docfile;
use crate::error::{err, Error};
use crate::home;
use crate::manifest;
use crate::ordmap::OrdMap;
use crate::paths;
use crate::shares;
use crate::snapshot;
use crate::snapshot::{Entry, FileRecord, Item, RecordView};
use crate::text;
use crate::textdoc;

verus! {

/// What the files of an account hold, by their paths.
pub type Files = Map<Seq<char>, Seq<u8>>;

/// What is said of a file that should be a text and is not one.
pub open spec fn not_text() -> Seq<char> {
    "stream did not contain valid UTF-8"@
}

/// Where what a record holds is kept. Names that say nothing are left out of the path, and two
/// dots take back the name before them, so that one file has one path.
pub open spec fn destination(base: Seq<char>, r: RecordView) -> Option<Seq<char>> {
    if r.kind == "MANIFEST"@ {
        Some(paths::plain(home::manifest_file(base, r.share)))
    } else if r.kind == "CRDT"@ {
        Some(paths::plain(home::crdt_file(base, r.share, r.name)))
    } else if r.kind == "BLOB"@ {
        Some(paths::plain(home::blob_file(base, r.name)))
    } else {
        None
    }
}

/// The text of a document after the one with the text `remote` was merged into it.
pub open spec fn merged_doc_text(local: Seq<char>, remote: Seq<char>) -> Seq<char> {
    docfile::doc_text(
        textdoc::merged(docfile::parsed_doc(local), docfile::parsed_doc(remote)),
    )
}

/// What a file holds after a record of the kind `kind` with the content `sent` came in, where it
/// held `local`. What was not there is taken over as it is; a manifest and a text document are
/// merged; other contents stay as they are.
pub open spec fn placed(kind: Seq<char>, local: Option<Seq<u8>>, sent: Seq<u8>) -> Result<
    Seq<u8>,
    Seq<char>,
> {
    match local {
        None => Ok(sent),
        Some(b) => if kind == "MANIFEST"@ {
            if valid_utf8(b) {
                Ok(
                    encode_utf8(
                        manifest::merged_text(decode_utf8(b), bytes::text_of(sent)),
                    ),
                )
            } else {
                Err(not_text())
            }
        } else if kind == "CRDT"@ {
            if valid_utf8(b) {
                Ok(encode_utf8(merged_doc_text(decode_utf8(b), bytes::text_of(sent))))
            } else {
                Err(not_text())
            }
        } else {
            Ok(b)
        },
    }
}

/// What a file of `files` holds.
pub open spec fn held(files: Files, path: Seq<char>) -> Option<Seq<u8>> {
    if files.dom().contains(path) {
        Some(files[path])
    } else {
        None
    }
}

/// How far an import has come: what the files hold, which shares were named, and why it stopped,
/// if it did.
#[verifier::ext_equal]
pub struct Progress {
    pub files: Files,
    pub named: Seq<(Seq<char>, Seq<char>)>,
    pub failed: Option<Seq<char>>,
}

/// The import after the next line of the snapshot.
pub open spec fn step(base: Seq<char>, p: Progress, line: Seq<char>) -> Progress {
    if p.failed is Some {
        p
    } else {
        match snapshot::item_of(line) {
            Item::Nothing => p,
            Item::Share(id, name) => Progress { named: p.named.push((id, name)), ..p },
            Item::Broken(e) => Progress { failed: Some(e), ..p },
            Item::File(r) => match destination(base, r) {
                None => p,
                Some(path) => match placed(r.kind, held(p.files, path), r.bytes) {
                    Ok(b) => Progress { files: p.files.insert(path, b), ..p },
                    Err(e) => Progress { failed: Some(e), ..p },
                },
            },
        }
    }
}

/// The import after the lines `ls`.
pub open spec fn after_lines(base: Seq<char>, files: Files, ls: Seq<Seq<char>>) -> Progress
    decreases ls.len(),
{
    if ls.len() == 0 {
        Progress { files, named: Seq::empty(), failed: None }
    } else {
        step(base, after_lines(base, files, ls.drop_last()), ls.last())
    }
}

/// The names `known` with those of the shares `named`, later ones in place of earlier ones.
pub open spec fn remembered(
    known: Map<Seq<char>, Seq<char>>,
    named: Seq<(Seq<char>, Seq<char>)>,
) -> Map<Seq<char>, Seq<char>>
    decreases named.len(),
{
    if named.len() == 0 {
        known
    } else {
        remembered(known, named.drop_last()).insert(named.last().0, named.last().1)
    }
}

/// Where the names of remote shares are kept.
pub open spec fn remote_file(base: Seq<char>) -> Seq<char> {
    paths::plain(paths::joined_path(base, "remote_shares.tsv"@))
}

/// The outcome of the import of a snapshot with the text `data`: what the files hold then, and
/// why it stopped, if it did.
pub open spec fn imported(base: Seq<char>, files: Files, data: Seq<char>) -> (
    Files,
    Option<Seq<char>>,
) {
    let p = after_lines(base, files, text::lines_of(data));
    if p.failed is Some {
        (p.files, p.failed)
    } else {
        match held(p.files, remote_file(base)) {
            Some(b) => if valid_utf8(b) {
                (
                    p.files.insert(
                        remote_file(base),
                        encode_utf8(
                            shares::remote_shares_text(
                                remembered(
                                    shares::remote_shares_in(Some(decode_utf8(b))),
                                    p.named,
                                ),
                            ),
                        ),
                    ),
                    None,
                )
            } else {
                (p.files, Some(not_text()))
            },
            None => (
                p.files.insert(
                    remote_file(base),
                    encode_utf8(
                        shares::remote_shares_text(remembered(Map::empty(), p.named)),
                    ),
                ),
                None,
            ),
        }
    }
}

/// The bytes of a text.
fn text_bytes(s: &str) -> (r: Vec<u8>)
    ensures
        r@ == encode_utf8(s@),
{
    bytes::copy_of(s.as_bytes())
}

/// What is handed to the import in place of a file where there is a directory: bytes that are no
/// text, so that nothing is merged into it, and what is kept as it is stays.
pub fn no_file() -> (r: Vec<u8>)
    ensures
        !valid_utf8(r@),
{
    let r: Vec<u8> = vec![0xff];
    assert(r@ =~= seq![0xffu8]);
    r
}

/// Merges the text document that another device sent into the one that is here.
pub fn merge_doc_text(local: &str, remote: &str) -> (r: String)
    ensures
        r@ == merged_doc_text(local@, remote@),
{
    let mut a = docfile::parse_doc(local);
    let b = docfile::parse_doc(remote);
    a.merge(&b);
    docfile::save_doc(&a)
}

/// What a file holds after a record came in.
pub fn place(kind: &str, local: Option<&Vec<u8>>, sent: &Vec<u8>) -> (r: Result<Vec<u8>, Error>)
    ensures
        ({
            let before = match local {
                Some(b) => Some(b@),
                None => None,
            };
            match r {
                Ok(b) => placed(kind@, before, sent@) == Ok::<Seq<u8>, Seq<char>>(b@),
                Err(e) => placed(kind@, before, sent@) == Err::<Seq<u8>, Seq<char>>(e@),
            }
        }),
{
    let here = match local {
        None => return Ok(bytes::copy_of(sent.as_slice())),
        Some(b) => b,
    };
    let is_manifest = text::same(kind, "MANIFEST");
    if is_manifest || text::same(kind, "CRDT") {
        match bytes::utf8_text(bytes::copy_of(here.as_slice())) {
            None => Err(err("stream did not contain valid UTF-8")),
            Some(mine) => {
                let theirs = bytes::lossy_text(sent.as_slice());
                let merged = if is_manifest {
                    manifest::merge_manifests_text(&mine, &theirs)
                } else {
                    merge_doc_text(&mine, &theirs)
                };
                Ok(text_bytes(&merged))
            },
        }
    } else {
        Ok(bytes::copy_of(here.as_slice()))
    }
}

/// Where what a record holds is kept.
pub fn record_path(base: &str, r: &FileRecord) -> (p: Option<String>)
    ensures
        match p {
            Some(path) => destination(base@, r@) == Some(path@),
            None => destination(base@, r@) is None,
        },
{
    if text::same(&r.kind, "MANIFEST") {
        Some(paths::plain_path(&home::manifest_path(base, &r.share)))
    } else if text::same(&r.kind, "CRDT") {
        Some(paths::plain_path(&home::crdt_path(base, &r.share, &r.name)))
    } else if text::same(&r.kind, "BLOB") {
        Some(paths::plain_path(&home::blob_path(base, &r.name)))
    } else {
        None
    }
}

/// What the shares of a list are, by their ids and names.
pub open spec fn named_views(v: Seq<(String, String)>) -> Seq<(Seq<char>, Seq<char>)> {
    Seq::new(v.len(), |i: int| (v[i].0@, v[i].1@))
}

/// Takes over a snapshot. `files` holds the files of the account in `base` that the snapshot
/// touches, as [`snapshot_paths`] lists them. Where the import stops, what was taken over before
/// stays.
pub fn import_snapshot(base: &str, files: &mut OrdMap<Vec<u8>>, data: &str) -> (r: Result<
    (),
    Error,
>)
    requires
        old(files).wf(),
    ensures
        final(files).wf(),
        ({
            let (after, failed) = imported(base@, old(files)@, data@);
            final(files)@ == after && match r {
                Ok(_) => failed is None,
                Err(e) => failed == Some(e@),
            }
        }),
{
    let ghost was = files@;
    let lines = text::lines(data);
    let ghost ls = text::lines_of(data@);
    let mut named: Vec<(String, String)> = Vec::new();
    let mut i: usize = 0;
    proof {
        assert(ls.take(0) =~= Seq::<Seq<char>>::empty());
        assert(named_views(named@) =~= Seq::<(Seq<char>, Seq<char>)>::empty());
    }
    while i < lines.len()
        invariant
            files.wf(),
            i <= lines@.len(),
            text::views(lines@) == ls,
            ls == text::lines_of(data@),
            after_lines(base@, was, ls.take(i as int)) == (Progress {
                files: files@,
                named: named_views(named@),
                failed: None,
            }),
            was == old(files)@,
        decreases lines@.len() - i,
    {
        let ghost done = after_lines(base@, was, ls.take(i as int));
        proof {
            assert(ls.take(i + 1).drop_last() =~= ls.take(i as int));
            assert(ls.take(i + 1).last() == ls[i as int]);
            assert(ls[i as int] == lines@[i as int]@);
        }
        let ghost next = after_lines(base@, was, ls.take(i + 1));
        assert(next == step(base@, done, ls[i as int]));
        match snapshot::parse_line(&lines[i]) {
            Entry::Nothing => {},
            Entry::Share(id, name) => {
                let ghost before = named_views(named@);
                let ghost pair = (id@, name@);
                named.push((id, name));
                assert(named_views(named@) =~= before.push(pair));
            },
            Entry::Broken(e) => {
                proof {
                    lemma_stopped(base@, was, ls, i + 1);
                }
                return Err(e);
            },
            Entry::File(record) => {
                if let Some(path) = record_path(base, &record) {
                    match place(&record.kind, files.get(&path), &record.bytes) {
                        Err(e) => {
                            proof {
                                lemma_stopped(base@, was, ls, i + 1);
                            }
                            return Err(e);
                        },
                        Ok(b) => {
                            files.insert(path, b);
                        },
                    }
                }
            },
        }
        i = i + 1;
    }
    assert(ls.take(i as int) =~= ls);
    let known_path = paths::plain_path(&home::remote_shares_path(base));
    let mut known = match files.get(&known_path) {
        None => shares::load_remote_shares(None),
        Some(b) => match bytes::utf8_text(bytes::copy_of(b.as_slice())) {
            None => return Err(err("stream did not contain valid UTF-8")),
            Some(s) => shares::load_remote_shares(Some(s.as_str())),
        },
    };
    remember(&mut known, &named);
    files.insert(known_path, text_bytes(&shares::save_remote_shares(&known)));
    Ok(())
}

/// An import that has stopped does not go on.
proof fn lemma_stopped(base: Seq<char>, files: Files, ls: Seq<Seq<char>>, n: int)
    requires
        0 <= n <= ls.len(),
        after_lines(base, files, ls.take(n)).failed is Some,
    ensures
        after_lines(base, files, ls) == after_lines(base, files, ls.take(n)),
    decreases ls.len() - n,
{
    if n == ls.len() {
        assert(ls.take(n) =~= ls);
    } else {
        assert(ls.take(n + 1).drop_last() =~= ls.take(n));
        lemma_stopped(base, files, ls, n + 1);
    }
}

/// Adds the names of shares to those that are known.
fn remember(known: &mut OrdMap<String>, named: &Vec<(String, String)>)
    requires
        old(known).wf(),
    ensures
        final(known).wf(),
        final(known)@ == remembered(old(known)@, named_views(named@)),
{
    let ghost was = known@;
    let ghost all = named_views(named@);
    let mut i: usize = 0;
    assert(all.take(0) =~= Seq::<(Seq<char>, Seq<char>)>::empty());
    while i < named.len()
        invariant
            known.wf(),
            i <= named@.len(),
            all == named_views(named@),
            known@ == remembered(was, all.take(i as int)),
        decreases named@.len() - i,
    {
        proof {
            assert(all.take(i + 1).drop_last() =~= all.take(i as int));
            assert(all.take(i + 1).last() == all[i as int]);
        }
        known.insert(named[i].0.clone(), named[i].1.clone());
        i = i + 1;
    }
    assert(all.take(i as int) =~= all);
}

/// The files that the import of the lines `ls` may read or write.
pub open spec fn touched(base: Seq<char>, ls: Seq<Seq<char>>) -> Seq<Seq<char>>
    decreases ls.len(),
{
    if ls.len() == 0 {
        seq![remote_file(base)]
    } else {
        let head = touched(base, ls.drop_last());
        match snapshot::item_of(ls.last()) {
            Item::File(r) => match destination(base, r) {
                Some(path) => head.push(path),
                None => head,
            },
            _ => head,
        }
    }
}

/// The files that the import of a snapshot may read or write.
pub fn snapshot_paths(base: &str, data: &str) -> (r: Vec<String>)
    ensures
        text::views(r@) == touched(base@, text::lines_of(data@)),
{
    let mut out: Vec<String> = vec![paths::plain_path(&home::remote_shares_path(base))];
    let lines = text::lines(data);
    let ghost ls = text::lines_of(data@);
    let mut i: usize = 0;
    assert(ls.take(0) =~= Seq::<Seq<char>>::empty());
    while i < lines.len()
        invariant
            i <= lines@.len(),
            text::views(lines@) == ls,
            text::views(out@) =~= touched(base@, ls.take(i as int)),
        decreases lines@.len() - i,
    {
        proof {
            assert(ls.take(i + 1).drop_last() =~= ls.take(i as int));
            assert(ls.take(i + 1).last() == ls[i as int]);
            assert(ls[i as int] == lines@[i as int]@);
        }
        if let Entry::File(record) = snapshot::parse_line(&lines[i]) {
            if let Some(path) = record_path(base, &record) {
                let ghost before = text::views(out@);
                let ghost pv = path@;
                out.push(path);
                assert(text::views(out@) =~= before.push(pv));
            }
        }
        i = i + 1;
    }
    assert(ls.take(i as int) =~= ls);
    out
}

} // verus!
