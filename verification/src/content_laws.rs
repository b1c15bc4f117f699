//! What of the files of one device arrives at another.

use vstd::prelude::*;
use vstd::utf8::*;

use crate::export_laws;
use crate::import;
use crate::import_laws;
use crate::paths;
use crate::reimport_laws;
use crate::snapshot;
use crate::snapshot::{Item, RecordView, ShareFilesView, StoredView};
use crate::text;

verus! {

/// The lines of the snapshot of the shares `ss` and the contents `blobs`, as they are read.
pub open spec fn sent_lines(
    only: Option<Seq<char>>,
    ss: Seq<ShareFilesView>,
    blobs: Seq<StoredView>,
) -> Seq<Seq<char>> {
    text::lines_of(text::joined(snapshot::snapshot_lines(only, ss, blobs)))
}

/// Where the records of the share at `i` are among what the lines for shares say.
proof fn lemma_share_items_at(
    only: Option<Seq<char>>,
    ss: Seq<ShareFilesView>,
    n: int,
    i: int,
) -> (at: int)
    requires
        0 <= i < n <= ss.len(),
        snapshot::is_wanted(only, ss[i]),
    ensures
        ({
            let items = import_laws::share_items(only, ss.take(n));
            let rs = snapshot::share_records(ss[i]);
            &&& 0 <= at
            &&& at + 1 + rs.len() <= items.len()
            &&& items[at] == import_laws::share_item(ss[i])
            &&& forall|k: int| 0 <= k < rs.len() ==> items[at + 1 + k] == Item::File(#[trigger] rs[k])
        }),
    decreases n,
{
    let s = ss[n - 1];
    let head = import_laws::share_items(only, ss.take(n - 1));
    let items = import_laws::share_items(only, ss.take(n));
    let rs = snapshot::share_records(ss[i]);
    assert(ss.take(n).drop_last() =~= ss.take(n - 1));
    assert(ss.take(n).last() == s);
    if i == n - 1 {
        let at = head.len() as int;
        assert forall|k: int| 0 <= k < rs.len() implies items[at + 1 + k] == Item::File(
            #[trigger] rs[k],
        ) by {
            assert(items[at + 1 + k] == import_laws::file_items(rs)[k]);
        }
        at
    } else {
        let at = lemma_share_items_at(only, ss, n - 1, i);
        assert forall|k: int| 0 <= k < rs.len() implies items[at + 1 + k] == Item::File(
            #[trigger] rs[k],
        ) by {
            assert(items[at + 1 + k] == head[at + 1 + k]);
        }
        assert(items[at] == head[at]);
        at
    }
}

/// What the lines of a snapshot say, line by line.
proof fn lemma_lines_say(
    only: Option<Seq<char>>,
    ss: Seq<ShareFilesView>,
    blobs: Seq<StoredView>,
)
    ensures
        ({
            let ls = sent_lines(only, ss, blobs);
            let items = import_laws::snapshot_items(only, ss, blobs);
            let part = import_laws::share_items(only, ss);
            &&& ls.len() == items.len()
            &&& ls.len() == part.len() + blobs.len() + 2
            &&& forall|k: int|
                0 <= k < ls.len() ==> snapshot::item_of(#[trigger] ls[k]) == items[k]
            &&& forall|k: int| 0 <= k < part.len() ==> items[k + 1] == #[trigger] part[k]
            &&& forall|k: int|
                0 <= k < blobs.len() ==> items[part.len() + 1 + k] == Item::File(
                    snapshot::record_of("BLOB"@, "_"@, #[trigger] blobs[k]),
                )
            &&& items[0] is Nothing
            &&& items[items.len() - 1] is Nothing
        }),
{
    let data = text::joined(snapshot::snapshot_lines(only, ss, blobs));
    let ls = sent_lines(only, ss, blobs);
    let items = import_laws::snapshot_items(only, ss, blobs);
    let part = import_laws::share_items(only, ss);
    let fs = import_laws::file_items(snapshot::records_of("BLOB"@, "_"@, blobs));
    import_laws::law_snapshot_is_read_back(only, ss, blobs);
    assert(import_laws::items_in(data).len() == ls.len());
    assert forall|k: int| 0 <= k < ls.len() implies snapshot::item_of(#[trigger] ls[k])
        == items[k] by {
        assert(import_laws::items_in(data)[k] == snapshot::item_of(ls[k]));
    }
    assert forall|k: int| 0 <= k < blobs.len() implies items[part.len() + 1 + k] == Item::File(
        snapshot::record_of("BLOB"@, "_"@, #[trigger] blobs[k]),
    ) by {
        assert(items[part.len() + 1 + k] == fs[k]);
    }
    assert(items[0] == seq![Item::Nothing][0]);
}

/// A content that is kept as it is is sent whole: the snapshot is read back as one that holds a
/// record with exactly its bytes, under its name.
pub proof fn law_contents_are_sent_whole(
    only: Option<Seq<char>>,
    ss: Seq<ShareFilesView>,
    blobs: Seq<StoredView>,
    j: int,
)
    requires
        0 <= j < blobs.len(),
    ensures
        exists|k: int|
            0 <= k < sent_lines(only, ss, blobs).len() && (snapshot::item_of(
                #[trigger] sent_lines(only, ss, blobs)[k],
            ) matches Item::File(r) && r.kind == "BLOB"@ && r.bytes == blobs[j].bytes && (
            paths::file_name_of(blobs[j].path) matches Some(name) ==> r.name == name)),
{
    lemma_lines_say(only, ss, blobs);
    let part = import_laws::share_items(only, ss);
    let k = part.len() as int + 1 + j;
    let ls = sent_lines(only, ss, blobs);
    assert(snapshot::item_of(ls[k]) == Item::File(
        snapshot::record_of("BLOB"@, "_"@, blobs[j]),
    ));
}

/// A share that is sent is named, and its manifest and its text documents are sent whole, each
/// under the id of the share and its own name.
pub proof fn law_shares_are_sent_whole(
    only: Option<Seq<char>>,
    ss: Seq<ShareFilesView>,
    blobs: Seq<StoredView>,
    i: int,
)
    requires
        0 <= i < ss.len(),
        only matches Some(id) ==> id == ss[i].share.id,
    ensures
        exists|k: int|
            0 <= k < sent_lines(only, ss, blobs).len() && (snapshot::item_of(
                #[trigger] sent_lines(only, ss, blobs)[k],
            ) matches Item::Share(id, name) && id == ss[i].share.id && name == text::strip_cr(
                ss[i].share.name,
            )),
        ss[i].manifest matches Some(f) ==> exists|k: int|
            0 <= k < sent_lines(only, ss, blobs).len() && (snapshot::item_of(
                #[trigger] sent_lines(only, ss, blobs)[k],
            ) matches Item::File(r) && r.kind == "MANIFEST"@ && r.share == ss[i].share.id
                && r.bytes == f.bytes),
        forall|j: int|
            0 <= j < ss[i].crdts.len() ==> exists|k: int|
                0 <= k < sent_lines(only, ss, blobs).len() && (snapshot::item_of(
                    #[trigger] sent_lines(only, ss, blobs)[k],
                ) matches Item::File(r) && r.kind == "CRDT"@ && r.share == ss[i].share.id
                    && r.bytes == (#[trigger] ss[i].crdts[j]).bytes && (paths::file_name_of(
                    ss[i].crdts[j].path,
                ) matches Some(name) ==> r.name == name)),
{
    let n = ss.len() as int;
    let ls = sent_lines(only, ss, blobs);
    let part = import_laws::share_items(only, ss);
    let rs = snapshot::share_records(ss[i]);
    lemma_lines_say(only, ss, blobs);
    let at = lemma_share_items_at(only, ss, n, i);
    assert(ss.take(n) =~= ss);
    assert(snapshot::item_of(ls[at + 1]) == part[at]);
    let first: int = if ss[i].manifest is Some {
        1
    } else {
        0
    };
    if ss[i].manifest is Some {
        assert(rs[0].kind == "MANIFEST"@);
        assert(part[at + 1 + 0] == Item::File(rs[0]));
        assert(snapshot::item_of(ls[at + 2]) == part[at + 1]);
    }
    assert forall|j: int| 0 <= j < ss[i].crdts.len() implies exists|k: int|
        0 <= k < sent_lines(only, ss, blobs).len() && (snapshot::item_of(
            #[trigger] sent_lines(only, ss, blobs)[k],
        ) matches Item::File(r) && r.kind == "CRDT"@ && r.share == ss[i].share.id && r.bytes == (
        #[trigger] ss[i].crdts[j]).bytes && (paths::file_name_of(
            ss[i].crdts[j].path,
        ) matches Some(name) ==> r.name == name)) by {
        let m = first + j;
        assert(rs[m] == snapshot::record_of("CRDT"@, ss[i].share.id, ss[i].crdts[j]));
        assert(part[at + 1 + m] == Item::File(rs[m]));
        let k = at + 2 + m;
        assert(snapshot::item_of(ls[k]) == part[k - 1]);
        assert(snapshot::item_of(ls[k]) == Item::File(rs[m]));
    }
}

/// Nothing else is sent: every record of a snapshot is a content, or the manifest or a text
/// document of a share that was asked for, and every share that is named was asked for.
pub proof fn law_nothing_else_is_sent(
    only: Option<Seq<char>>,
    ss: Seq<ShareFilesView>,
    blobs: Seq<StoredView>,
    k: int,
)
    requires
        0 <= k < sent_lines(only, ss, blobs).len(),
    ensures
        match snapshot::item_of(sent_lines(only, ss, blobs)[k]) {
            Item::Nothing => true,
            Item::Broken(e) => false,
            Item::Share(id, name) => exists|i: int|
                0 <= i < ss.len() && (#[trigger] ss[i]).share.id == id && (only matches Some(asked)
                    ==> asked == id),
            Item::File(r) => (exists|j: int|
                0 <= j < blobs.len() && (#[trigger] blobs[j]).bytes == r.bytes && r.kind
                    == "BLOB"@) || (exists|i: int|
                0 <= i < ss.len() && (#[trigger] ss[i]).share.id == r.share && (
                only matches Some(asked) ==> asked == r.share) && ((r.kind == "MANIFEST"@
                    && (ss[i].manifest matches Some(f) && f.bytes == r.bytes)) || (r.kind == "CRDT"@
                    && exists|j: int|
                    0 <= j < ss[i].crdts.len() && (#[trigger] ss[i].crdts[j]).bytes == r.bytes))),
        },
{
    let n = ss.len() as int;
    let ls = sent_lines(only, ss, blobs);
    let part = import_laws::share_items(only, ss);
    lemma_lines_say(only, ss, blobs);
    assert(ss.take(n) =~= ss);
    if 1 <= k <= part.len() {
        assert(snapshot::item_of(ls[k]) == part[k - 1]);
        lemma_share_items_only(only, ss, n, k - 1);
    } else if part.len() < k < ls.len() - 1 {
        let j = k - 1 - part.len();
        assert(snapshot::item_of(ls[k]) == Item::File(
            snapshot::record_of("BLOB"@, "_"@, blobs[j]),
        ));
    }
}

proof fn lemma_share_items_only(
    only: Option<Seq<char>>,
    ss: Seq<ShareFilesView>,
    n: int,
    k: int,
)
    requires
        0 <= n <= ss.len(),
        0 <= k < import_laws::share_items(only, ss.take(n)).len(),
    ensures
        match import_laws::share_items(only, ss.take(n))[k] {
            Item::Nothing => false,
            Item::Broken(e) => false,
            Item::Share(id, name) => exists|i: int|
                0 <= i < ss.len() && (#[trigger] ss[i]).share.id == id && (only matches Some(asked)
                    ==> asked == id),
            Item::File(r) => exists|i: int|
                0 <= i < ss.len() && (#[trigger] ss[i]).share.id == r.share && (
                only matches Some(asked) ==> asked == r.share) && ((r.kind == "MANIFEST"@
                    && (ss[i].manifest matches Some(f) && f.bytes == r.bytes)) || (r.kind == "CRDT"@
                    && exists|j: int|
                    0 <= j < ss[i].crdts.len() && (#[trigger] ss[i].crdts[j]).bytes == r.bytes)),
        },
    decreases n,
{
    if n == 0 {
        assert(ss.take(0) =~= Seq::<ShareFilesView>::empty());
    } else {
        let s = ss[n - 1];
        let rs = snapshot::share_records(s);
        let head = import_laws::share_items(only, ss.take(n - 1));
        let all = import_laws::share_items(only, ss.take(n));
        assert(ss.take(n).drop_last() =~= ss.take(n - 1));
        assert(ss.take(n).last() == s);
        if k < head.len() {
            assert(all[k] == head[k]);
            lemma_share_items_only(only, ss, n - 1, k);
        } else if k == head.len() {
            assert(all[k] == import_laws::share_item(s));
            assert(ss[n - 1].share.id == s.share.id);
        } else {
            let m = k - head.len() - 1;
            let r = rs[m];
            assert(all[k] == import_laws::file_items(rs)[m]);
            let first: int = if s.manifest is Some {
                1
            } else {
                0
            };
            assert(ss[n - 1].share.id == r.share);
            if m < first {
                assert(r.kind == "MANIFEST"@);
            } else {
                assert(ss[n - 1].crdts[m - first].bytes == r.bytes);
            }
        }
    }
}

/// Where the records in two lines for shares go to one file, they are in one line.
proof fn lemma_share_lines_lead_apart(
    base: Seq<char>,
    only: Option<Seq<char>>,
    ss: Seq<ShareFilesView>,
    blobs: Seq<StoredView>,
    n: int,
    k: int,
    l: int,
    r: RecordView,
    s: RecordView,
)
    requires
        export_laws::well_stored(only, ss, blobs),
        0 <= n <= ss.len(),
        0 <= k < l < import_laws::share_items(only, ss.take(n)).len(),
        import_laws::share_items(only, ss.take(n))[k] == Item::File(r),
        import_laws::share_items(only, ss.take(n))[l] == Item::File(s),
    ensures
        import::destination(base, r) != import::destination(base, s),
    decreases n,
{
    if n == 0 {
        assert(ss.take(0) =~= Seq::<ShareFilesView>::empty());
    } else {
        let last = ss[n - 1];
        let rs = snapshot::share_records(last);
        let none = Seq::<StoredView>::empty();
        let head = import_laws::share_items(only, ss.take(n - 1));
        let all = import_laws::share_items(only, ss.take(n));
        assert(ss.take(n).drop_last() =~= ss.take(n - 1));
        assert(ss.take(n).last() == last);
        let first: int = if last.manifest is Some {
            1
        } else {
            0
        };
        if l < head.len() {
            assert(all[k] == head[k] && all[l] == head[l]);
            lemma_share_lines_lead_apart(base, only, ss, blobs, n - 1, k, l, r, s);
        } else {
            let b = l - head.len() - 1;
            assert(l != head.len());
            assert(all[l] == import_laws::file_items(rs)[b]);
            assert(s == rs[b]);
            assert(export_laws::share_well_stored(ss[n - 1]));
            if b < first {
                assert(export_laws::is_manifest_of(only, ss, n - 1, s));
            } else {
                assert(export_laws::is_document_of(only, ss, n - 1, b - first, s));
            }
            if k < head.len() {
                assert(all[k] == head[k]);
                let part = ss.take(n - 1);
                assert(part.take(n - 1) =~= part);
                export_laws::lemma_share_items_are_sent(only, part, none, n - 1);
                assert(export_laws::is_sent(only, part, none, r));
                let i = export_laws::lemma_share_of_record(only, part, none, r);
                assert(part[i] == ss[i]);
                assert(r.share == ss[i].share.id);
                assert(ss[i].share.id != ss[n - 1].share.id);
                if exists|i: int| export_laws::is_manifest_of(only, part, i, r) {
                    let x = choose|x: int| export_laws::is_manifest_of(only, part, x, r);
                    assert(export_laws::is_manifest_of(only, ss, x, r));
                } else {
                    let (x, y) = choose|x: int, y: int|
                        export_laws::is_document_of(only, part, x, y, r);
                    assert(export_laws::is_document_of(only, ss, x, y, r));
                }
                assert(export_laws::is_sent(only, ss, blobs, r));
                export_laws::lemma_same_destination(base, only, ss, blobs, r, s);
            } else {
                let a = k - head.len() - 1;
                assert(k != head.len());
                assert(all[k] == import_laws::file_items(rs)[a]);
                assert(r == rs[a]);
                if a < first {
                    assert(export_laws::is_manifest_of(only, ss, n - 1, r));
                } else {
                    assert(export_laws::is_document_of(only, ss, n - 1, a - first, r));
                    let x = last.crdts[a - first];
                    let y = last.crdts[b - first];
                    assert(paths::file_name_of(x.path) != paths::file_name_of(y.path));
                }
                import_laws::lemma_kinds();
                export_laws::lemma_same_destination(base, only, ss, blobs, r, s);
            }
        }
    }
}

/// No two records of the snapshot that a device makes of what it wrote go to one file, and none
/// to that with the names of remote shares.
pub proof fn law_snapshot_of_stored_files_is_separate(
    base: Seq<char>,
    only: Option<Seq<char>>,
    ss: Seq<ShareFilesView>,
    blobs: Seq<StoredView>,
)
    requires
        export_laws::well_stored(only, ss, blobs),
    ensures
        import_laws::separate(base, sent_lines(only, ss, blobs)),
{
    let n = ss.len() as int;
    let ls = sent_lines(only, ss, blobs);
    let part = import_laws::share_items(only, ss);
    lemma_lines_say(only, ss, blobs);
    assert(ss.take(n) =~= ss);
    export_laws::law_snapshot_of_stored_files_is_consistent(base, only, ss, blobs);
    assert forall|i: int| 0 <= i < ls.len() implies #[trigger] import_laws::line_destination(
        base,
        ls[i],
    ) != Some(import::remote_file(base)) by {
        if import_laws::line_destination(base, ls[i]) is Some {
            assert(reimport_laws::record_at(base, ls, i) is Some);
        }
    }
    assert forall|i: int, j: int|
        0 <= i < j < ls.len() && import_laws::line_destination(base, ls[i]) is Some implies
        #[trigger] import_laws::line_destination(base, ls[i])
        != #[trigger] import_laws::line_destination(base, ls[j]) by {
        if import_laws::line_destination(base, ls[j]) is Some {
            let r = reimport_laws::record_at(base, ls, i)->Some_0.0;
            let s = reimport_laws::record_at(base, ls, j)->Some_0.0;
            export_laws::lemma_records_are_sent(base, only, ss, blobs, i);
            export_laws::lemma_records_are_sent(base, only, ss, blobs, j);
            let a = i - 1 - part.len();
            let b = j - 1 - part.len();
            assert(snapshot::item_of(ls[i]) == Item::File(r));
            assert(snapshot::item_of(ls[j]) == Item::File(s));
            if j <= part.len() {
                assert(part[i - 1] == Item::File(r));
                assert(part[j - 1] == Item::File(s));
                lemma_share_lines_lead_apart(base, only, ss, blobs, n, i - 1, j - 1, r, s);
            } else {
                assert(s == snapshot::record_of("BLOB"@, "_"@, blobs[b]));
                import_laws::lemma_kinds();
                if i <= part.len() {
                    assert(part[i - 1] == Item::File(r));
                    lemma_share_items_only(only, ss, n, i - 1);
                } else {
                    assert(r == snapshot::record_of("BLOB"@, "_"@, blobs[a]));
                    assert(paths::file_name_of(blobs[a].path) != paths::file_name_of(
                        blobs[b].path,
                    ));
                }
                export_laws::lemma_same_destination(base, only, ss, blobs, r, s);
            }
        }
    }
}

/// A content that was not there equals the sender's file byte for byte after its snapshot was
/// taken over, and one that was there stays as it is.
pub proof fn law_contents_arrive_whole(
    base: Seq<char>,
    files: import::Files,
    only: Option<Seq<char>>,
    ss: Seq<ShareFilesView>,
    blobs: Seq<StoredView>,
    j: int,
    name: Seq<char>,
)
    requires
        export_laws::well_stored(only, ss, blobs),
        base.len() > 0,
        base.last() != '/',
        0 <= j < blobs.len(),
        paths::file_name_of(blobs[j].path) == Some(name),
        import::imported(
            base,
            files,
            text::joined(snapshot::snapshot_lines(only, ss, blobs)),
        ).1 is None,
    ensures
        ({
            let path = paths::plain(base + "/blobs/"@ + name);
            let after = import::imported(
                base,
                files,
                text::joined(snapshot::snapshot_lines(only, ss, blobs)),
            ).0;
            &&& !files.dom().contains(path) ==> after.dom().contains(path) && after[path]
                == blobs[j].bytes
            &&& files.dom().contains(path) ==> after.dom().contains(path) && after[path]
                == files[path]
        }),
{
    let data = text::joined(snapshot::snapshot_lines(only, ss, blobs));
    let ls = sent_lines(only, ss, blobs);
    let path = paths::plain(base + "/blobs/"@ + name);
    law_snapshot_of_stored_files_is_separate(base, only, ss, blobs);
    lemma_lines_say(only, ss, blobs);
    let k = import_laws::share_items(only, ss).len() as int + 1 + j;
    let r = snapshot::record_of("BLOB"@, "_"@, blobs[j]);
    assert(snapshot::item_of(ls[k]) == Item::File(r));
    paths::lemma_file_name_is_name(blobs[j].path);
    assert(name.contains(name[0]));
    lemma_in_directory(base, name);
    import_laws::lemma_kinds();
    assert(import::destination(base, r) == Some(path));
    import_laws::law_each_record_is_placed(base, files, data, k, r, path);
    let after = import::imported(base, files, data).0;
    assert(import::held(after, path) == Some(
        import::placed(r.kind, import::held(files, path), r.bytes)->Ok_0,
    ));
}

/// A file in a directory of an account.
proof fn lemma_in_directory(base: Seq<char>, name: Seq<char>)
    requires
        base.len() > 0,
        base.last() != '/',
        name.len() > 0,
        name[0] != '/',
    ensures
        paths::joined_path(paths::joined_path(base, "blobs"@), name) == base + "/blobs/"@ + name,
{
    reveal_strlit("blobs");
    reveal_strlit("/blobs/");
    assert(paths::joined_path(paths::joined_path(base, "blobs"@), name) =~= base + "/blobs/"@
        + name);
}

/// A manifest or a text document that was not there equals the sender's file byte for byte after
/// its snapshot was taken over.
#[verifier::spinoff_prover]
#[verifier::rlimit(60)]
pub proof fn law_share_files_arrive_whole(
    base: Seq<char>,
    files: import::Files,
    only: Option<Seq<char>>,
    ss: Seq<ShareFilesView>,
    blobs: Seq<StoredView>,
    i: int,
)
    requires
        export_laws::well_stored(only, ss, blobs),
        base.len() > 0,
        base.last() != '/',
        0 <= i < ss.len(),
        only matches Some(id) ==> id == ss[i].share.id,
        import::imported(
            base,
            files,
            text::joined(snapshot::snapshot_lines(only, ss, blobs)),
        ).1 is None,
    ensures
        ({
            let id = ss[i].share.id;
            let after = import::imported(
                base,
                files,
                text::joined(snapshot::snapshot_lines(only, ss, blobs)),
            ).0;
            &&& ss[i].manifest matches Some(f) ==> ({
                let path = paths::plain(base + "/shares/"@ + id + ".manifest"@);
                !files.dom().contains(path) ==> after.dom().contains(path) && after[path] == f.bytes
            })
            &&& forall|j: int, name: Seq<char>|
                0 <= j < ss[i].crdts.len() && #[trigger] paths::file_name_of(ss[i].crdts[j].path)
                    == Some(name) ==> ({
                    let path = #[trigger] paths::plain(base + "/crdts/"@ + id + "/"@ + name);
                    !files.dom().contains(path) ==> after.dom().contains(path) && after[path]
                        == ss[i].crdts[j].bytes
                })
        }),
{
    let n = ss.len() as int;
    let id = ss[i].share.id;
    let data = text::joined(snapshot::snapshot_lines(only, ss, blobs));
    let ls = sent_lines(only, ss, blobs);
    let part = import_laws::share_items(only, ss);
    let rs = snapshot::share_records(ss[i]);
    let after = import::imported(base, files, data).0;
    law_snapshot_of_stored_files_is_separate(base, only, ss, blobs);
    lemma_lines_say(only, ss, blobs);
    let at = lemma_share_items_at(only, ss, n, i);
    assert(ss.take(n) =~= ss);
    assert(export_laws::share_well_stored(ss[i]));
    assert(id.contains(id[0]));
    assert(id.contains(id[id.len() - 1]));
    import_laws::lemma_kinds();
    let first: int = if ss[i].manifest is Some {
        1
    } else {
        0
    };
    reveal_strlit("shares");
    reveal_strlit("crdts");
    reveal_strlit("/shares/");
    reveal_strlit("/crdts/");
    reveal_strlit("/");
    reveal_strlit(".manifest");
    if let Some(f) = ss[i].manifest {
        let r = rs[0];
        assert(part[at + 1 + 0] == Item::File(r));
        assert(snapshot::item_of(ls[at + 2]) == part[at + 1]);
        assert((id + ".manifest"@)[0] == id[0]);
        let path = paths::plain(base + "/shares/"@ + id + ".manifest"@);
        assert(paths::joined_path(paths::joined_path(base, "shares"@), id + ".manifest"@) =~= base
            + "/shares/"@ + id + ".manifest"@);
        import_laws::law_each_record_is_placed(base, files, data, at + 2, r, path);
        assert(import::held(after, path) is Some);
    }
    assert forall|j: int, name: Seq<char>|
        0 <= j < ss[i].crdts.len() && #[trigger] paths::file_name_of(ss[i].crdts[j].path) == Some(
            name,
        ) implies ({
        let path = #[trigger] paths::plain(base + "/crdts/"@ + id + "/"@ + name);
        !files.dom().contains(path) ==> after.dom().contains(path) && after[path]
            == ss[i].crdts[j].bytes
    }) by {
        let m = first + j;
        let r = rs[m];
        assert(r == snapshot::record_of("CRDT"@, id, ss[i].crdts[j]));
        assert(part[at + 1 + m] == Item::File(r));
        let k = at + 2 + m;
        assert(snapshot::item_of(ls[k]) == part[k - 1]);
        paths::lemma_file_name_is_name(ss[i].crdts[j].path);
        assert(name.contains(name[0]));
        let path = paths::plain(base + "/crdts/"@ + id + "/"@ + name);
        assert(paths::joined_path(
            paths::joined_path(paths::joined_path(base, "crdts"@), id),
            name,
        ) =~= base + "/crdts/"@ + id + "/"@ + name);
        import_laws::law_each_record_is_placed(base, files, data, k, r, path);
        assert(import::held(after, path) is Some);
    }
}

} // verus!
