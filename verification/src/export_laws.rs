//! What holds of the snapshots that a device makes of its own files.

use vstd::prelude::*;
use vstd::utf8::*;

use crate::bytes;
use crate::docfile;
use crate::import;
use crate::import_laws;
use crate::manifest;
use crate::manifest::Manifest;
use crate::paths;
use crate::reimport_laws;
use crate::snapshot;
use crate::snapshot::{Item, RecordView, ShareFilesView, StoredView};
use crate::text;
use crate::textdoc::DocView;

verus! {

/// Whether `r` is the record of the manifest of the share at `i`, which is sent.
pub open spec fn is_manifest_of(
    only: Option<Seq<char>>,
    ss: Seq<ShareFilesView>,
    i: int,
    r: RecordView,
) -> bool {
    0 <= i < ss.len() && snapshot::is_wanted(only, ss[i]) && (ss[i].manifest matches Some(f) && r
        == snapshot::record_of("MANIFEST"@, ss[i].share.id, f))
}

/// Whether `r` is the record of the text document at `j` of the share at `i`, which is sent.
pub open spec fn is_document_of(
    only: Option<Seq<char>>,
    ss: Seq<ShareFilesView>,
    i: int,
    j: int,
    r: RecordView,
) -> bool {
    0 <= i < ss.len() && snapshot::is_wanted(only, ss[i]) && 0 <= j < ss[i].crdts.len() && r
        == snapshot::record_of("CRDT"@, ss[i].share.id, ss[i].crdts[j])
}

/// Whether `r` is the record of the content at `j`.
pub open spec fn is_content_of(blobs: Seq<StoredView>, j: int, r: RecordView) -> bool {
    0 <= j < blobs.len() && r == snapshot::record_of("BLOB"@, "_"@, blobs[j])
}

/// Whether `r` is a record of the snapshot of the shares `ss` and the contents `blobs`.
pub open spec fn is_sent(
    only: Option<Seq<char>>,
    ss: Seq<ShareFilesView>,
    blobs: Seq<StoredView>,
    r: RecordView,
) -> bool {
    ||| exists|i: int| is_manifest_of(only, ss, i, r)
    ||| exists|i: int, j: int| is_document_of(only, ss, i, j, r)
    ||| exists|j: int| is_content_of(blobs, j, r)
}

/// Whether stored files are files of one directory: each has a name, and no two have the same.
pub open spec fn in_one_directory(fs: Seq<StoredView>) -> bool {
    &&& forall|i: int| 0 <= i < fs.len() ==> paths::file_name_of(#[trigger] fs[i].path) is Some
    &&& forall|i: int, j: int|
        0 <= i < j < fs.len() ==> paths::file_name_of(#[trigger] fs[i].path)
            != paths::file_name_of(#[trigger] fs[j].path)
}

/// Whether what is stored of the shares that are sent is as a device writes it: their ids are
/// names and differ, each has its own directory of text documents, which are texts, and their
/// manifests are texts that are written as manifests are.
pub open spec fn well_stored(
    only: Option<Seq<char>>,
    ss: Seq<ShareFilesView>,
    blobs: Seq<StoredView>,
) -> bool {
    &&& forall|i: int|
        0 <= i < ss.len() && snapshot::is_wanted(only, ss[i]) ==> share_well_stored(
            #[trigger] ss[i],
        )
    &&& forall|i: int, j: int|
        0 <= i < j < ss.len() && snapshot::is_wanted(only, ss[i]) && snapshot::is_wanted(
            only,
            ss[j],
        ) ==> (#[trigger] ss[i]).share.id != (#[trigger] ss[j]).share.id
    &&& in_one_directory(blobs)
}

/// Whether what is stored of a share is as a device writes it.
pub open spec fn share_well_stored(s: ShareFilesView) -> bool {
    &&& paths::is_name(s.share.id)
    &&& s.manifest matches Some(f) ==> is_manifest(f.bytes)
    &&& in_one_directory(s.crdts)
    &&& forall|j: int| 0 <= j < s.crdts.len() ==> valid_utf8(#[trigger] s.crdts[j].bytes)
}

/// Whether bytes are a text that is written as manifests are.
pub open spec fn is_manifest(b: Seq<u8>) -> bool {
    valid_utf8(b) && manifest::well_written(decode_utf8(b))
}

/// What a device writes is fit to be sent: a manifest that it saved, merged or took over is a text
/// that is written as manifests are, and a text document that it saved, merged or took over is a
/// text.
pub proof fn law_written_files_are_fit(m: Manifest, d: DocView, a: Seq<u8>, b: Seq<u8>)
    requires
        m.dom().finite(),
        manifest::well_kept(m),
        forall|k: Seq<char>| #[trigger] m.dom().contains(k) ==> k.len() > 0,
    ensures
        is_manifest(encode_utf8(manifest::manifest_text(m))),
        is_manifest(a) && is_manifest(b) ==> (import::placed("MANIFEST"@, Some(a), b) matches Ok(c)
            && is_manifest(c)),
        is_manifest(b) ==> (import::placed("MANIFEST"@, None, b) matches Ok(c) && is_manifest(c)),
        valid_utf8(encode_utf8(docfile::doc_text(d))),
        valid_utf8(a) ==> (import::placed("CRDT"@, Some(a), b) matches Ok(c) && valid_utf8(c)),
        valid_utf8(b) ==> (import::placed("CRDT"@, None, b) matches Ok(c) && valid_utf8(c)),
{
    let s = decode_utf8(a);
    let t = bytes::text_of(b);
    import_laws::lemma_kinds();
    manifest::law_saved_manifest_is_well_written(m);
    import_laws::lemma_text_of_bytes(manifest::manifest_text(m));
    import_laws::lemma_text_of_bytes(manifest::merged_text(s, t));
    import_laws::lemma_text_of_bytes(docfile::doc_text(d));
    import_laws::lemma_text_of_bytes(import::merged_doc_text(s, t));
    if is_manifest(a) && is_manifest(b) {
        manifest::law_merged_manifest_is_well_written(s, t);
    }
}

/// The names that lead from the directory of an account to the file of a record.
spec fn names_to(r: RecordView) -> Seq<Seq<char>> {
    if r.kind == "MANIFEST"@ {
        seq!["shares"@, r.share + ".manifest"@]
    } else if r.kind == "CRDT"@ {
        seq!["crdts"@, r.share, r.name]
    } else {
        seq!["blobs"@, r.name]
    }
}

/// A directory of an account and a name in it.
proof fn lemma_dir_and_name(base: Seq<char>, dir: Seq<char>, name: Seq<char>)
    requires
        paths::is_name(dir),
        paths::is_name(name),
    ensures
        paths::joined_path(paths::joined_path(base, dir), name) == paths::below(
            base,
            seq![dir, name],
        ),
        paths::are_names(seq![dir, name]),
{
    assert(paths::slashed(seq![dir]) == dir);
    paths::lemma_step_below(base, seq![dir], name);
    assert(seq![dir].push(name) =~= seq![dir, name]);
}

/// Where the records of a snapshot that a device makes go to.
proof fn lemma_sent_record(
    base: Seq<char>,
    only: Option<Seq<char>>,
    ss: Seq<ShareFilesView>,
    blobs: Seq<StoredView>,
    r: RecordView,
)
    requires
        well_stored(only, ss, blobs),
        is_sent(only, ss, blobs, r),
    ensures
        paths::are_names(names_to(r)),
        import::destination(base, r) == Some(paths::plain(paths::below(base, names_to(r)))),
        r.kind == "MANIFEST"@ ==> is_manifest(r.bytes),
        r.kind == "CRDT"@ ==> valid_utf8(r.bytes),
        r.kind == "MANIFEST"@ || r.kind == "CRDT"@ || r.kind == "BLOB"@,
        r.kind == "MANIFEST"@ ==> exists|i: int| is_manifest_of(only, ss, i, r),
        r.kind == "CRDT"@ ==> exists|i: int, j: int| is_document_of(only, ss, i, j, r),
        r.kind == "BLOB"@ ==> exists|j: int| is_content_of(blobs, j, r),
{
    import_laws::lemma_kinds();
    reveal_strlit("shares");
    reveal_strlit("crdts");
    reveal_strlit("blobs");
    reveal_strlit(".manifest");
    reveal_strlit(".");
    reveal_strlit("..");
    assert("shares"@.len() == 6 && "crdts"@.len() == 5 && "blobs"@.len() == 5);
    assert(".manifest"@.len() == 9 && "."@.len() == 1 && ".."@.len() == 2);
    assert(paths::is_name("shares"@) && paths::is_name("crdts"@) && paths::is_name("blobs"@));
    if exists|i: int| is_manifest_of(only, ss, i, r) {
        let i = choose|i: int| is_manifest_of(only, ss, i, r);
        assert(share_well_stored(ss[i]));
        let name = r.share + ".manifest"@;
        assert forall|k: int| 0 <= k < name.len() implies name[k] != '/' by {
            if k < r.share.len() {
                assert(r.share.contains(r.share[k]));
            }
        }
        lemma_dir_and_name(base, "shares"@, name);
    } else if exists|i: int, j: int| is_document_of(only, ss, i, j, r) {
        let (i, j) = choose|i: int, j: int| is_document_of(only, ss, i, j, r);
        assert(share_well_stored(ss[i]));
        assert(valid_utf8(ss[i].crdts[j].bytes));
        paths::lemma_file_name_is_name(ss[i].crdts[j].path);
        lemma_dir_and_name(base, "crdts"@, r.share);
        paths::lemma_step_below(base, seq!["crdts"@, r.share], r.name);
        assert(seq!["crdts"@, r.share].push(r.name) =~= names_to(r));
    } else {
        let j = choose|j: int| is_content_of(blobs, j, r);
        paths::lemma_file_name_is_name(blobs[j].path);
        lemma_dir_and_name(base, "blobs"@, r.name);
    }
}

/// Records of a snapshot that a device makes go to one file only where they are of one kind and
/// belong to one share, if they belong to any, and have one name, if they are not manifests.
pub proof fn lemma_same_destination(
    base: Seq<char>,
    only: Option<Seq<char>>,
    ss: Seq<ShareFilesView>,
    blobs: Seq<StoredView>,
    r: RecordView,
    s: RecordView,
)
    requires
        well_stored(only, ss, blobs),
        is_sent(only, ss, blobs, r),
        is_sent(only, ss, blobs, s),
    ensures
        import::destination(base, r) == import::destination(base, s) ==> r.kind == s.kind && (r.kind
            == "MANIFEST"@ || r.kind == "CRDT"@ ==> r.share == s.share) && (r.kind == "CRDT"@
            || r.kind == "BLOB"@ ==> r.name == s.name),
{
    if import::destination(base, r) == import::destination(base, s) {
        lemma_sent_record(base, only, ss, blobs, r);
        lemma_sent_record(base, only, ss, blobs, s);
        let a = names_to(r);
        let b = names_to(s);
        paths::law_names_below_lead_apart(base, a, b);
        import_laws::lemma_kinds();
        reveal_strlit("shares");
        reveal_strlit("crdts");
        reveal_strlit("blobs");
        assert("shares"@[0] == 's' && "crdts"@[0] == 'c' && "blobs"@[0] == 'b');
        assert(a[0] == b[0]);
        assert(r.kind == s.kind);
        assert(a[1] == b[1]);
        if r.kind == "MANIFEST"@ {
            assert(r.share.len() + ".manifest"@.len() == a[1].len());
            assert(s.share.len() + ".manifest"@.len() == b[1].len());
            assert(a[1].take(r.share.len() as int) =~= r.share);
            assert(b[1].take(r.share.len() as int) =~= s.share);
        } else if r.kind == "CRDT"@ {
            assert(a[2] == b[2]);
        }
    }
}

/// The share that a record belongs to.
pub proof fn lemma_share_of_record(
    only: Option<Seq<char>>,
    ss: Seq<ShareFilesView>,
    blobs: Seq<StoredView>,
    r: RecordView,
) -> (i: int)
    requires
        is_sent(only, ss, blobs, r),
        blobs.len() == 0,
    ensures
        0 <= i < ss.len(),
        snapshot::is_wanted(only, ss[i]),
        r.share == ss[i].share.id,
{
    if exists|i: int| is_manifest_of(only, ss, i, r) {
        choose|i: int| is_manifest_of(only, ss, i, r)
    } else {
        let (i, j) = choose|i: int, j: int| is_document_of(only, ss, i, j, r);
        i
    }
}

/// Records of a snapshot that a device makes go to one file only where they are one record.
proof fn lemma_sent_records_lead_apart(
    base: Seq<char>,
    only: Option<Seq<char>>,
    ss: Seq<ShareFilesView>,
    blobs: Seq<StoredView>,
    r: RecordView,
    s: RecordView,
)
    requires
        well_stored(only, ss, blobs),
        is_sent(only, ss, blobs, r),
        is_sent(only, ss, blobs, s),
        import::destination(base, r) == import::destination(base, s),
    ensures
        r.kind == s.kind,
        r.bytes == s.bytes,
{
    lemma_sent_record(base, only, ss, blobs, r);
    lemma_sent_record(base, only, ss, blobs, s);
    let a = names_to(r);
    let b = names_to(s);
    paths::law_names_below_lead_apart(base, a, b);
    import_laws::lemma_kinds();
    reveal_strlit("shares");
    reveal_strlit("crdts");
    reveal_strlit("blobs");
    assert("shares"@[0] == 's' && "crdts"@[0] == 'c' && "blobs"@[0] == 'b');
    assert(a[0] == b[0]);
    assert(r.kind == s.kind);
    assert(a[1] == b[1]);
    if r.kind == "MANIFEST"@ {
        let i = choose|i: int| is_manifest_of(only, ss, i, r);
        let k = choose|k: int| is_manifest_of(only, ss, k, s);
        assert(r.share.len() + ".manifest"@.len() == a[1].len());
        assert(s.share.len() + ".manifest"@.len() == b[1].len());
        assert(a[1].take(r.share.len() as int) =~= r.share);
        assert(b[1].take(r.share.len() as int) =~= s.share);
        assert(ss[i].share.id == ss[k].share.id);
        assert(i == k);
    } else if r.kind == "CRDT"@ {
        let (i, j) = choose|i: int, j: int| is_document_of(only, ss, i, j, r);
        let (k, l) = choose|k: int, l: int| is_document_of(only, ss, k, l, s);
        assert(a[2] == b[2]);
        assert(ss[i].share.id == ss[k].share.id);
        assert(i == k);
        assert(share_well_stored(ss[i]));
        let fs = ss[i].crdts;
        assert(paths::file_name_of(fs[j].path) == paths::file_name_of(fs[l].path));
        assert(j == l);
    } else {
        let j = choose|j: int| is_content_of(blobs, j, r);
        let l = choose|l: int| is_content_of(blobs, l, s);
        assert(paths::file_name_of(blobs[j].path) == paths::file_name_of(blobs[l].path));
        assert(j == l);
    }
}

/// What the lines for shares say of files are records that are sent.
pub proof fn lemma_share_items_are_sent(
    only: Option<Seq<char>>,
    ss: Seq<ShareFilesView>,
    blobs: Seq<StoredView>,
    n: int,
)
    requires
        0 <= n <= ss.len(),
    ensures
        forall|k: int|
            0 <= k < import_laws::share_items(only, ss.take(n)).len() ==> (
            #[trigger] import_laws::share_items(only, ss.take(n))[k] matches Item::File(r)
                ==> is_sent(only, ss, blobs, r)),
    decreases n,
{
    if n == 0 {
        assert(ss.take(0) =~= Seq::<ShareFilesView>::empty());
    } else {
        let s = ss[n - 1];
        let rs = snapshot::share_records(s);
        let head = import_laws::share_items(only, ss.take(n - 1));
        let all = import_laws::share_items(only, ss.take(n));
        lemma_share_items_are_sent(only, ss, blobs, n - 1);
        assert(ss.take(n).drop_last() =~= ss.take(n - 1));
        assert(ss.take(n).last() == s);
        assert forall|k: int| 0 <= k < all.len() implies (#[trigger] all[k] matches Item::File(r)
            ==> is_sent(only, ss, blobs, r)) by {
            if k < head.len() {
                assert(all[k] == head[k]);
            } else if k > head.len() {
                let j = k - head.len() - 1;
                let r = rs[j];
                assert(all[k] == Item::File(r));
                let first: int = if s.manifest is Some {
                    1
                } else {
                    0
                };
                if j < first {
                    assert(is_manifest_of(only, ss, n - 1, r));
                } else {
                    assert(is_document_of(only, ss, n - 1, j - first, r));
                }
            }
        }
    }
}

/// The records in the lines of a snapshot that a device makes are those that are sent.
pub proof fn lemma_records_are_sent(
    base: Seq<char>,
    only: Option<Seq<char>>,
    ss: Seq<ShareFilesView>,
    blobs: Seq<StoredView>,
    i: int,
)
    requires
        0 <= i < text::lines_of(text::joined(snapshot::snapshot_lines(only, ss, blobs))).len(),
    ensures
        reimport_laws::record_at(
            base,
            text::lines_of(text::joined(snapshot::snapshot_lines(only, ss, blobs))),
            i,
        ) matches Some((r, p)) ==> is_sent(only, ss, blobs, r) && import::destination(base, r)
            == Some(p),
{
    let data = text::joined(snapshot::snapshot_lines(only, ss, blobs));
    let ls = text::lines_of(data);
    import_laws::law_snapshot_is_read_back(only, ss, blobs);
    let items = import_laws::snapshot_items(only, ss, blobs);
    assert(import_laws::items_in(data)[i] == snapshot::item_of(ls[i]));
    assert(items[i] == snapshot::item_of(ls[i]));
    if let Item::File(r) = items[i] {
        let n = ss.len() as int;
        let part = import_laws::share_items(only, ss);
        lemma_share_items_are_sent(only, ss, blobs, n);
        assert(ss.take(n) =~= ss);
        let fs = import_laws::file_items(snapshot::records_of("BLOB"@, "_"@, blobs));
        let j = i - 1 - part.len();
        if 1 <= i <= part.len() {
            assert(items[i] == part[i - 1]);
        } else if 0 <= j < fs.len() {
            assert(items[i] == fs[j]);
            assert(is_content_of(blobs, j, r));
        } else if i == 0 {
            assert(items[i] == seq![Item::Nothing][0]);
        } else {
            assert(items.len() == import_laws::items_in(data).len());
            assert(i == items.len() - 1);
            assert(items[i] == Item::Nothing);
        }
    }
}

/// The snapshot that a device makes of what it wrote can be taken over: records that go to one
/// file are one record, none goes to the file with the names of remote shares, its manifests are
/// written as manifests are, and what is merged are texts.
pub proof fn law_snapshot_of_stored_files_is_consistent(
    base: Seq<char>,
    only: Option<Seq<char>>,
    ss: Seq<ShareFilesView>,
    blobs: Seq<StoredView>,
)
    requires
        well_stored(only, ss, blobs),
    ensures
        ({
            let ls = text::lines_of(text::joined(snapshot::snapshot_lines(only, ss, blobs)));
            &&& reimport_laws::consistent(base, ls)
            &&& forall|i: int|
                0 <= i < ls.len() ==> (#[trigger] reimport_laws::record_at(base, ls, i) matches Some(
                    (r, p),
                ) ==> (r.kind == "MANIFEST"@ ==> is_manifest(r.bytes)) && (
                reimport_laws::is_merged(r.kind) ==> valid_utf8(r.bytes)))
        }),
{
    let ls = text::lines_of(text::joined(snapshot::snapshot_lines(only, ss, blobs)));
    assert forall|i: int| 0 <= i < ls.len() implies (#[trigger] reimport_laws::record_at(
        base,
        ls,
        i,
    ) matches Some((r, p)) ==> p != import::remote_file(base) && (r.kind == "MANIFEST"@
        ==> is_manifest(r.bytes)) && (reimport_laws::is_merged(r.kind) ==> valid_utf8(
        r.bytes,
    ))) by {
        if let Some((r, p)) = reimport_laws::record_at(base, ls, i) {
            lemma_records_are_sent(base, only, ss, blobs, i);
            lemma_sent_record(base, only, ss, blobs, r);
            let name = "remote_shares.tsv"@;
            reveal_strlit("remote_shares.tsv");
            reveal_strlit(".");
            reveal_strlit("..");
            assert(name.len() == 17 && "."@.len() == 1 && ".."@.len() == 2);
            assert(paths::is_name(name));
            assert(paths::slashed(seq![name]) == name);
            assert(paths::are_names(seq![name]));
            if p == import::remote_file(base) {
                paths::law_names_below_lead_apart(base, names_to(r), seq![name]);
                assert(names_to(r).len() > 1);
            }
        }
    }
    assert forall|i: int, j: int| 0 <= i < ls.len() && 0 <= j < ls.len() implies (
    #[trigger] reimport_laws::record_at(base, ls, i) matches Some((r, p)) ==> (
    #[trigger] reimport_laws::record_at(base, ls, j) matches Some((s, q)) ==> (p == q ==> r.kind
        == s.kind && r.bytes == s.bytes))) by {
        if let Some((r, p)) = reimport_laws::record_at(base, ls, i) {
            if let Some((s, q)) = reimport_laws::record_at(base, ls, j) {
                lemma_records_are_sent(base, only, ss, blobs, i);
                lemma_records_are_sent(base, only, ss, blobs, j);
                if p == q {
                    lemma_sent_records_lead_apart(base, only, ss, blobs, r, s);
                }
            }
        }
    }
}

/// Whether the manifests that are here merge steadily with those of a snapshot.
pub open spec fn local_manifests_fit(
    base: Seq<char>,
    files: import::Files,
    ls: Seq<Seq<char>>,
) -> bool {
    forall|i: int|
        0 <= i < ls.len() ==> (#[trigger] reimport_laws::record_at(base, ls, i) matches Some((r, p))
            ==> (r.kind == "MANIFEST"@ ==> (import::held(files, p) matches Some(l)
            ==> manifest::merges_steadily(decode_utf8(l), bytes::text_of(r.bytes)))))
}

/// Manifests that a device wrote merge steadily with those of a snapshot that another device made
/// of what it wrote.
pub proof fn law_written_manifests_fit(base: Seq<char>, files: import::Files, ls: Seq<Seq<char>>)
    requires
        forall|i: int|
            0 <= i < ls.len() ==> (#[trigger] reimport_laws::record_at(base, ls, i) matches Some(
                (r, p),
            ) ==> (r.kind == "MANIFEST"@ ==> is_manifest(r.bytes) && (import::held(
                files,
                p,
            ) matches Some(l) ==> is_manifest(l)))),
    ensures
        local_manifests_fit(base, files, ls),
{
    assert forall|i: int| 0 <= i < ls.len() implies (#[trigger] reimport_laws::record_at(
        base,
        ls,
        i,
    ) matches Some((r, p)) ==> (r.kind == "MANIFEST"@ ==> (import::held(files, p) matches Some(l)
        ==> manifest::merges_steadily(decode_utf8(l), bytes::text_of(r.bytes))))) by {
        if let Some((r, p)) = reimport_laws::record_at(base, ls, i) {
            if r.kind == "MANIFEST"@ && import::held(files, p) is Some {
                manifest::law_plain_manifests_merge_steadily(
                    decode_utf8(import::held(files, p)->Some_0),
                    bytes::text_of(r.bytes),
                );
            }
        }
    }
}

/// The snapshot that a device makes of what it wrote changes nothing when another device takes it
/// over again.
pub proof fn law_snapshot_of_stored_files_taken_over_twice(
    base: Seq<char>,
    files: import::Files,
    only: Option<Seq<char>>,
    ss: Seq<ShareFilesView>,
    blobs: Seq<StoredView>,
)
    requires
        well_stored(only, ss, blobs),
        ({
            let data = text::joined(snapshot::snapshot_lines(only, ss, blobs));
            &&& import::imported(base, files, data).1 is None
            &&& local_manifests_fit(base, files, text::lines_of(data))
            &&& reimport_laws::names_fit(base, files, data)
        }),
    ensures
        reimport_laws::taken_over_twice(
            base,
            files,
            text::joined(snapshot::snapshot_lines(only, ss, blobs)),
        ),
{
    let data = text::joined(snapshot::snapshot_lines(only, ss, blobs));
    law_snapshot_of_stored_files_is_consistent(base, only, ss, blobs);
    reimport_laws::law_texts_taken_over_twice(base, files, data);
}

} // verus!
