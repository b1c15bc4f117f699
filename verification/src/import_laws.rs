//! What holds of snapshots and of their import.

use vstd::prelude::*;
use vstd::utf8::*;

use crate::bytes;
use crate::codec;
use crate::doc_laws;
use crate::docfile;
use crate::entries;
use crate::import;
use crate::manifest;
use crate::paths;
use crate::snapshot;
use crate::snapshot::{Item, RecordView, ShareFilesView, StoredView};
use crate::table;
use crate::text;
use crate::textdoc;
use crate::textdoc::DocView;
use crate::tree;

verus! {

/// A text is read back from its bytes.
pub proof fn lemma_text_of_bytes(s: Seq<char>)
    ensures
        valid_utf8(encode_utf8(s)),
        decode_utf8(encode_utf8(s)) == s,
        bytes::text_of(encode_utf8(s)) == s,
{
    encode_utf8_valid_utf8(s);
    encode_utf8_decode_utf8(s);
}

/// What was touched before is touched after more lines.
proof fn lemma_touched_grows(base: Seq<char>, ls: Seq<Seq<char>>, path: Seq<char>)
    requires
        ls.len() > 0,
        import::touched(base, ls.drop_last()).contains(path),
    ensures
        import::touched(base, ls).contains(path),
{
    let head = import::touched(base, ls.drop_last());
    let all = import::touched(base, ls);
    let i = choose|i: int| 0 <= i < head.len() && head[i] == path;
    assert(all[i] == path);
}

/// The file with the names of remote shares is always touched.
proof fn lemma_remote_file_is_touched(base: Seq<char>, ls: Seq<Seq<char>>)
    ensures
        import::touched(base, ls).contains(import::remote_file(base)),
    decreases ls.len(),
{
    if ls.len() == 0 {
        assert(import::touched(base, ls)[0] == import::remote_file(base));
    } else {
        lemma_remote_file_is_touched(base, ls.drop_last());
        lemma_touched_grows(base, ls, import::remote_file(base));
    }
}

/// The lines of a snapshot leave the files alone that they do not touch.
proof fn lemma_lines_leave_alone(
    base: Seq<char>,
    files: import::Files,
    ls: Seq<Seq<char>>,
    path: Seq<char>,
)
    requires
        !import::touched(base, ls).contains(path),
    ensures
        import::held(import::after_lines(base, files, ls).files, path) == import::held(files, path),
    decreases ls.len(),
{
    if ls.len() > 0 {
        if import::touched(base, ls.drop_last()).contains(path) {
            lemma_touched_grows(base, ls, path);
        }
        lemma_lines_leave_alone(base, files, ls.drop_last(), path);
        if let Item::File(r) = snapshot::item_of(ls.last()) {
            if let Some(p) = import::destination(base, r) {
                let all = import::touched(base, ls);
                assert(all[all.len() - 1] == p);
            }
        }
    }
}

/// The import of a snapshot changes no file but those that [`import::touched`] lists.
pub proof fn law_import_leaves_other_files_alone(
    base: Seq<char>,
    files: import::Files,
    data: Seq<char>,
    path: Seq<char>,
)
    requires
        !import::touched(base, text::lines_of(data)).contains(path),
    ensures
        import::held(import::imported(base, files, data).0, path) == import::held(files, path),
{
    let ls = text::lines_of(data);
    lemma_remote_file_is_touched(base, ls);
    lemma_lines_leave_alone(base, files, ls, path);
}

/// Whether two collections of files agree on the paths `ps`.
pub open spec fn same_on(f: import::Files, g: import::Files, ps: Seq<Seq<char>>) -> bool {
    forall|i: int|
        0 <= i < ps.len() ==> import::held(f, #[trigger] ps[i]) == import::held(g, ps[i])
}

proof fn lemma_lines_same(
    base: Seq<char>,
    f: import::Files,
    g: import::Files,
    ls: Seq<Seq<char>>,
    ps: Seq<Seq<char>>,
)
    requires
        same_on(f, g, ps),
        forall|i: int|
            0 <= i < import::touched(base, ls).len() ==> ps.contains(
                #[trigger] import::touched(base, ls)[i],
            ),
    ensures
        same_on(
            import::after_lines(base, f, ls).files,
            import::after_lines(base, g, ls).files,
            ps,
        ),
        import::after_lines(base, f, ls).named == import::after_lines(base, g, ls).named,
        import::after_lines(base, f, ls).failed == import::after_lines(base, g, ls).failed,
    decreases ls.len(),
{
    if ls.len() > 0 {
        let r = ls.drop_last();
        let head = import::touched(base, r);
        let all = import::touched(base, ls);
        assert forall|i: int| 0 <= i < head.len() implies ps.contains(#[trigger] head[i]) by {
            assert(all[i] == head[i]);
        }
        lemma_lines_same(base, f, g, r, ps);
        if let Item::File(rec) = snapshot::item_of(ls.last()) {
            if let Some(p) = import::destination(base, rec) {
                assert(all[all.len() - 1] == p);
                assert(ps.contains(p));
                let j = choose|j: int| 0 <= j < ps.len() && ps[j] == p;
                assert(import::held(import::after_lines(base, f, r).files, ps[j]) == import::held(
                    import::after_lines(base, g, r).files,
                    ps[j],
                ));
                let a = import::after_lines(base, f, ls).files;
                let b = import::after_lines(base, g, ls).files;
                assert forall|i: int| 0 <= i < ps.len() implies import::held(a, #[trigger] ps[i])
                    == import::held(b, ps[i]) by {
                    assert(import::held(import::after_lines(base, f, r).files, ps[i])
                        == import::held(import::after_lines(base, g, r).files, ps[i]));
                }
            }
        }
    }
}

/// The import of a snapshot depends on no file but those that [`import::touched`] lists: where
/// two collections of files agree on these, they do so after the import, and it fails on both or
/// on none.
pub proof fn law_import_depends_on_touched_files(
    base: Seq<char>,
    f: import::Files,
    g: import::Files,
    data: Seq<char>,
)
    requires
        same_on(f, g, import::touched(base, text::lines_of(data))),
    ensures
        same_on(
            import::imported(base, f, data).0,
            import::imported(base, g, data).0,
            import::touched(base, text::lines_of(data)),
        ),
        import::imported(base, f, data).1 == import::imported(base, g, data).1,
{
    let ls = text::lines_of(data);
    let ps = import::touched(base, ls);
    let remote = import::remote_file(base);
    lemma_lines_same(base, f, g, ls, ps);
    lemma_remote_file_is_touched(base, ls);
    let a = import::after_lines(base, f, ls).files;
    let b = import::after_lines(base, g, ls).files;
    let j = choose|j: int| 0 <= j < ps.len() && ps[j] == remote;
    assert(import::held(a, ps[j]) == import::held(b, ps[j]));
    let x = import::imported(base, f, data).0;
    let y = import::imported(base, g, data).0;
    assert forall|i: int| 0 <= i < ps.len() implies import::held(x, #[trigger] ps[i])
        == import::held(y, ps[i]) by {
        assert(import::held(a, ps[i]) == import::held(b, ps[i]));
    }
}

/// Where the record in the line `line` is kept, if it holds one.
pub open spec fn line_destination(base: Seq<char>, line: Seq<char>) -> Option<Seq<char>> {
    match snapshot::item_of(line) {
        Item::File(r) => import::destination(base, r),
        _ => None,
    }
}

/// Whether no two records of `ls` go to one file, and none to that with the names of remote
/// shares.
pub open spec fn separate(base: Seq<char>, ls: Seq<Seq<char>>) -> bool {
    &&& forall|i: int, j: int|
        0 <= i < j < ls.len() && line_destination(base, ls[i]) is Some ==> #[trigger]
            line_destination(base, ls[i]) != #[trigger] line_destination(base, ls[j])
    &&& forall|i: int|
        0 <= i < ls.len() ==> #[trigger] line_destination(base, ls[i]) != Some(
            import::remote_file(base),
        )
}

proof fn lemma_line_is_placed(
    base: Seq<char>,
    files: import::Files,
    ls: Seq<Seq<char>>,
    i: int,
    r: RecordView,
    path: Seq<char>,
)
    requires
        separate(base, ls),
        import::after_lines(base, files, ls).failed is None,
        0 <= i < ls.len(),
        snapshot::item_of(ls[i]) == Item::File(r),
        import::destination(base, r) == Some(path),
    ensures
        import::placed(r.kind, import::held(files, path), r.bytes) is Ok,
        import::held(import::after_lines(base, files, ls).files, path) == Some(
            import::placed(r.kind, import::held(files, path), r.bytes)->Ok_0,
        ),
    decreases ls.len(),
{
    let head = ls.drop_last();
    let before = import::after_lines(base, files, head);
    assert(line_destination(base, ls[i]) == Some(path));
    assert(separate(base, head)) by {
        assert forall|a: int, b: int|
            0 <= a < b < head.len() && line_destination(base, head[a]) is Some implies #[trigger]
            line_destination(base, head[a]) != #[trigger] line_destination(base, head[b]) by {
            assert(head[a] == ls[a] && head[b] == ls[b]);
            assert(line_destination(base, ls[a]) != line_destination(base, ls[b]));
        }
        assert forall|a: int| 0 <= a < head.len() implies #[trigger] line_destination(
            base,
            head[a],
        ) != Some(import::remote_file(base)) by {
            assert(head[a] == ls[a]);
            assert(line_destination(base, ls[a]) != Some(import::remote_file(base)));
        }
    }
    if i < head.len() {
        assert(head[i] == ls[i]);
        lemma_line_is_placed(base, files, head, i, r, path);
        let last = ls[ls.len() - 1];
        assert(line_destination(base, ls[i]) != line_destination(base, last));
        assert(ls.last() == last);
        assert(import::after_lines(base, files, ls) == import::step(base, before, last));
    } else {
        lemma_not_yet(base, files, ls, i, path);
    }
}

/// Before the record in the line `i`, nothing was written to where it goes.
proof fn lemma_not_yet(
    base: Seq<char>,
    files: import::Files,
    ls: Seq<Seq<char>>,
    i: int,
    path: Seq<char>,
)
    requires
        separate(base, ls),
        0 <= i < ls.len(),
        line_destination(base, ls[i]) == Some(path),
    ensures
        import::held(import::after_lines(base, files, ls.take(i)).files, path) == import::held(
            files,
            path,
        ),
        i == ls.len() - 1 ==> ls.take(i) == ls.drop_last(),
{
    let head = ls.take(i);
    if i == ls.len() - 1 {
        assert(head =~= ls.drop_last());
    }
    lemma_not_touched(base, ls, i, i, path);
    lemma_lines_leave_alone(base, files, head, path);
}

proof fn lemma_not_touched(base: Seq<char>, ls: Seq<Seq<char>>, n: int, i: int, path: Seq<char>)
    requires
        separate(base, ls),
        0 <= n <= i < ls.len(),
        line_destination(base, ls[i]) == Some(path),
    ensures
        !import::touched(base, ls.take(n)).contains(path),
    decreases n,
{
    let head = ls.take(n);
    if n == 0 {
        assert(head =~= Seq::<Seq<char>>::empty());
        let t = import::touched(base, head);
        assert(line_destination(base, ls[i]) != Some(import::remote_file(base)));
        assert forall|k: int| 0 <= k < t.len() implies t[k] != path by {}
    } else {
        lemma_not_touched(base, ls, n - 1, i, path);
        assert(head.drop_last() =~= ls.take(n - 1));
        assert(head.last() == ls[n - 1]);
        if line_destination(base, ls[n - 1]) is Some {
            assert(line_destination(base, ls[n - 1]) != line_destination(base, ls[i]));
        }
        let t = import::touched(base, head);
        let before = import::touched(base, ls.take(n - 1));
        assert forall|k: int| 0 <= k < t.len() implies t[k] != path by {
            if k < before.len() {
                assert(before.contains(before[k]));
            }
        }
    }
}

/// Where an import succeeds and no two records go to one file, each file ends as its record and
/// what it held say, whatever else the snapshot holds.
pub proof fn law_each_record_is_placed(
    base: Seq<char>,
    files: import::Files,
    data: Seq<char>,
    i: int,
    r: RecordView,
    path: Seq<char>,
)
    requires
        separate(base, text::lines_of(data)),
        import::imported(base, files, data).1 is None,
        0 <= i < text::lines_of(data).len(),
        snapshot::item_of(text::lines_of(data)[i]) == Item::File(r),
        import::destination(base, r) == Some(path),
    ensures
        import::placed(r.kind, import::held(files, path), r.bytes) is Ok,
        import::held(import::imported(base, files, data).0, path) == Some(
            import::placed(r.kind, import::held(files, path), r.bytes)->Ok_0,
        ),
{
    let ls = text::lines_of(data);
    assert(line_destination(base, ls[i]) == Some(path));
    lemma_line_is_placed(base, files, ls, i, r, path);
}

/// A dot before a name that does not begin with a slash does not change where a record goes: both
/// name one file.
pub proof fn law_dot_names_the_same_file(base: Seq<char>, r: RecordView, name: Seq<char>)
    requires
        name.len() == 0 || name[0] != '/',
    ensures
        import::destination(base, RecordView { name: "."@.push('/') + name, ..r })
            == import::destination(base, RecordView { name, ..r }),
{
    let dotted = "."@.push('/') + name;
    reveal_strlit(".");
    assert(dotted[0] == '.');
    lemma_dot_in_dir(paths::joined_path(paths::joined_path(base, "crdts"@), r.share), name);
    lemma_dot_in_dir(paths::joined_path(base, "blobs"@), name);
    reveal_strlit("crdts");
    reveal_strlit("blobs");
}

/// A content goes to the same file where its name leads out of the directory of the contents and
/// back into it.
pub proof fn law_way_round_names_the_same_file(base: Seq<char>, r: RecordView, name: Seq<char>)
    requires
        r.kind == "BLOB"@,
        base.len() > 0,
        name.len() == 0 || name[0] != '/',
    ensures
        import::destination(base, RecordView { name: "../blobs/"@ + name, ..r })
            == import::destination(base, RecordView { name, ..r }),
{
    let round = "../blobs/"@ + name;
    let a = if base.last() == '/' {
        base.drop_last()
    } else {
        base
    };
    lemma_kinds();
    reveal_strlit("..");
    reveal_strlit(".");
    reveal_strlit("blobs");
    reveal_strlit("../blobs/");
    assert(round[0] == '.');
    let dir = paths::joined_path(base, "blobs"@);
    assert(dir =~= a.push('/') + "blobs"@);
    let inside = "blobs"@.push('/') + name;
    assert(paths::joined_path(dir, round) =~= a.push('/') + "blobs"@.push('/') + ".."@.push('/')
        + inside);
    assert(paths::joined_path(dir, name) =~= a.push('/') + inside);
    assert("blobs"@.len() == 5 && "."@.len() == 1 && ".."@.len() == 2);
    assert(!"blobs"@.contains('/'));
    paths::law_names_are_taken_back(a, "blobs"@, inside);
}

proof fn lemma_dot_in_dir(dir: Seq<char>, name: Seq<char>)
    requires
        name.len() == 0 || name[0] != '/',
    ensures
        dir.len() > 0 ==> paths::plain(paths::joined_path(dir, "."@.push('/') + name))
            == paths::plain(paths::joined_path(dir, name)),
{
    let dotted = "."@.push('/') + name;
    reveal_strlit(".");
    assert(dotted[0] == '.');
    if dir.len() > 0 {
        let a = if dir.last() == '/' {
            dir.drop_last()
        } else {
            dir
        };
        assert(paths::joined_path(dir, dotted) =~= a.push('/') + "."@.push('/') + name);
        assert(paths::joined_path(dir, name) =~= a.push('/') + name);
        paths::law_idle_names_are_left_out(a, name);
    }
}

/// What a file holds that a text document was saved to.
pub open spec fn doc_bytes(d: DocView) -> Seq<u8> {
    encode_utf8(docfile::doc_text(d))
}

/// Whether a document can be saved and read back.
pub open spec fn is_storable(d: DocView) -> bool {
    d.clock <= u64::MAX && d.lines.dom().finite() && tree::keyed(d.lines)
}

pub proof fn lemma_merged_storable(a: DocView, b: DocView)
    requires
        is_storable(a),
        is_storable(b),
    ensures
        is_storable(textdoc::merged(a, b)),
{
    let m = textdoc::merged(a, b);
    assert(m.lines.dom() =~= a.lines.dom().union(b.lines.dom()));
    assert forall|k: Seq<char>| #[trigger] m.lines.dom().contains(k) implies m.lines[k].id == k by {
        if a.lines.dom().contains(k) {
            assert(a.lines[k].id == k);
        } else {
            assert(b.lines.dom().contains(k));
            assert(b.lines[k].id == k);
        }
    }
}

/// A text document that comes in is merged with the one that is there.
pub proof fn law_document_is_merged(a: DocView, b: DocView)
    requires
        is_storable(a),
        is_storable(b),
    ensures
        import::placed("CRDT"@, Some(doc_bytes(a)), doc_bytes(b)) == Ok::<Seq<u8>, Seq<char>>(
            doc_bytes(textdoc::merged(a, b)),
        ),
        is_storable(textdoc::merged(a, b)),
{
    lemma_text_of_bytes(docfile::doc_text(a));
    lemma_text_of_bytes(docfile::doc_text(b));
    docfile::law_saved_doc_is_read_back(a);
    docfile::law_saved_doc_is_read_back(b);
    lemma_merged_storable(a, b);
    lemma_kinds();
}

/// The kinds of records differ.
pub proof fn lemma_kinds()
    ensures
        "CRDT"@ != "MANIFEST"@,
        "BLOB"@ != "MANIFEST"@,
        "BLOB"@ != "CRDT"@,
{
    reveal_strlit("CRDT");
    reveal_strlit("MANIFEST");
    reveal_strlit("BLOB");
    assert("CRDT"@[0] == 'C' && "MANIFEST"@[0] == 'M' && "BLOB"@[0] == 'B');
}

/// After a sync the files of a text document are the same on both devices, and hold the merged
/// document: one device takes over what the other has and sends back the outcome. A document
/// that only one of them has, the other takes over as it is.
pub proof fn law_document_sync_converges(a: DocView, b: DocView)
    requires
        is_storable(a),
        is_storable(b),
        doc_laws::agree(a, b),
    ensures
        ({
            let first = import::placed("CRDT"@, Some(doc_bytes(a)), doc_bytes(b));
            let second = import::placed("CRDT"@, Some(doc_bytes(b)), first->Ok_0);
            &&& first == Ok::<Seq<u8>, Seq<char>>(doc_bytes(textdoc::merged(a, b)))
            &&& second == first
        }),
        import::placed("CRDT"@, None, doc_bytes(b)) == Ok::<Seq<u8>, Seq<char>>(doc_bytes(b)),
        import::placed("CRDT"@, Some(doc_bytes(b)), doc_bytes(b)) == Ok::<Seq<u8>, Seq<char>>(
            doc_bytes(b),
        ),
{
    let m = textdoc::merged(a, b);
    law_document_is_merged(a, b);
    law_document_is_merged(b, m);
    doc_laws::law_sync_converges(a, b);
    law_document_is_merged(b, b);
    doc_laws::law_merge_idempotent(b);
}

/// After a sync the manifests of a share are the same on both devices.
pub proof fn law_manifest_file_sync_converges(a: Seq<char>, b: Seq<char>)
    requires
        manifest::plain_lines(a),
        manifest::plain_lines(b),
    ensures
        ({
            let first = import::placed("MANIFEST"@, Some(encode_utf8(a)), encode_utf8(b));
            let second = import::placed("MANIFEST"@, Some(encode_utf8(b)), first->Ok_0);
            &&& first == Ok::<Seq<u8>, Seq<char>>(encode_utf8(manifest::merged_text(a, b)))
            &&& second == first
        }),
        import::placed("MANIFEST"@, None, encode_utf8(b)) == Ok::<Seq<u8>, Seq<char>>(
            encode_utf8(b),
        ),
{
    lemma_text_of_bytes(a);
    lemma_text_of_bytes(b);
    lemma_text_of_bytes(manifest::merged_text(a, b));
    manifest::law_manifest_sync_converges(a, b);
}

/// A content that is kept as it is never changes once it is there, and one that is not there is
/// taken over.
pub proof fn law_blob_is_kept(local: Option<Seq<u8>>, sent: Seq<u8>)
    ensures
        import::placed("BLOB"@, local, sent) == Ok::<Seq<u8>, Seq<char>>(
            match local {
                Some(b) => b,
                None => sent,
            },
        ),
{
    lemma_kinds();
}

/// Two devices with the accounts in `base_a` and `base_b` hold the same text document, and the
/// same bytes for it, after a sync: the first imports a snapshot of the second, and the second
/// one of the first, and each snapshot holds what the file of the document held when it was
/// made.
pub proof fn law_devices_converge(
    base_a: Seq<char>,
    base_b: Seq<char>,
    files_a: import::Files,
    files_b: import::Files,
    from_b: Seq<char>,
    from_a: Seq<char>,
    i: int,
    j: int,
    sent: RecordView,
    answer: RecordView,
    a: DocView,
    b: DocView,
)
    requires
        sent.kind == "CRDT"@,
        answer.kind == "CRDT"@,
        answer.share == sent.share,
        answer.name == sent.name,
        is_storable(a),
        is_storable(b),
        doc_laws::agree(a, b),
        separate(base_a, text::lines_of(from_b)),
        separate(base_b, text::lines_of(from_a)),
        import::imported(base_a, files_a, from_b).1 is None,
        import::imported(base_b, files_b, from_a).1 is None,
        0 <= i < text::lines_of(from_b).len(),
        snapshot::item_of(text::lines_of(from_b)[i]) == Item::File(sent),
        0 <= j < text::lines_of(from_a).len(),
        snapshot::item_of(text::lines_of(from_a)[j]) == Item::File(answer),
        import::held(files_a, import::destination(base_a, sent)->Some_0) == Some(doc_bytes(a)),
        import::held(files_b, import::destination(base_b, sent)->Some_0) == Some(doc_bytes(b)),
        sent.bytes == doc_bytes(b),
        Some(answer.bytes) == import::held(
            import::imported(base_a, files_a, from_b).0,
            import::destination(base_a, sent)->Some_0,
        ),
    ensures
        import::held(
            import::imported(base_a, files_a, from_b).0,
            import::destination(base_a, sent)->Some_0,
        ) == Some(doc_bytes(textdoc::merged(a, b))),
        import::held(
            import::imported(base_b, files_b, from_a).0,
            import::destination(base_b, sent)->Some_0,
        ) == Some(doc_bytes(textdoc::merged(a, b))),
{
    lemma_kinds();
    let path_a = import::destination(base_a, sent)->Some_0;
    let path_b = import::destination(base_b, sent)->Some_0;
    law_each_record_is_placed(base_a, files_a, from_b, i, sent, path_a);
    law_each_record_is_placed(base_b, files_b, from_a, j, answer, path_b);
    law_document_sync_converges(a, b);
}

/// Two devices with the accounts in `base_a` and `base_b` have the same manifest of a share after
/// a sync.
pub proof fn law_devices_share_one_manifest(
    base_a: Seq<char>,
    base_b: Seq<char>,
    files_a: import::Files,
    files_b: import::Files,
    from_b: Seq<char>,
    from_a: Seq<char>,
    i: int,
    j: int,
    sent: RecordView,
    answer: RecordView,
    a: Seq<char>,
    b: Seq<char>,
)
    requires
        sent.kind == "MANIFEST"@,
        answer.kind == "MANIFEST"@,
        answer.share == sent.share,
        manifest::plain_lines(a),
        manifest::plain_lines(b),
        separate(base_a, text::lines_of(from_b)),
        separate(base_b, text::lines_of(from_a)),
        import::imported(base_a, files_a, from_b).1 is None,
        import::imported(base_b, files_b, from_a).1 is None,
        0 <= i < text::lines_of(from_b).len(),
        snapshot::item_of(text::lines_of(from_b)[i]) == Item::File(sent),
        0 <= j < text::lines_of(from_a).len(),
        snapshot::item_of(text::lines_of(from_a)[j]) == Item::File(answer),
        import::held(files_a, import::destination(base_a, sent)->Some_0) == Some(encode_utf8(a)),
        import::held(files_b, import::destination(base_b, sent)->Some_0) == Some(encode_utf8(b)),
        sent.bytes == encode_utf8(b),
        Some(answer.bytes) == import::held(
            import::imported(base_a, files_a, from_b).0,
            import::destination(base_a, sent)->Some_0,
        ),
    ensures
        import::held(
            import::imported(base_a, files_a, from_b).0,
            import::destination(base_a, sent)->Some_0,
        ) == Some(encode_utf8(manifest::merged_text(a, b))),
        import::held(
            import::imported(base_b, files_b, from_a).0,
            import::destination(base_b, sent)->Some_0,
        ) == Some(encode_utf8(manifest::merged_text(a, b))),
{
    let path_a = import::destination(base_a, sent)->Some_0;
    let path_b = import::destination(base_b, sent)->Some_0;
    law_each_record_is_placed(base_a, files_a, from_b, i, sent, path_a);
    law_each_record_is_placed(base_b, files_b, from_a, j, answer, path_b);
    law_manifest_file_sync_converges(a, b);
}

/// A record that comes in a second time changes nothing more.
pub proof fn law_second_import_changes_nothing(
    a: DocView,
    b: DocView,
    m: Seq<char>,
    n: Seq<char>,
    local: Option<Seq<u8>>,
    sent: Seq<u8>,
)
    requires
        is_storable(a),
        is_storable(b),
        manifest::plain_lines(m),
        manifest::plain_lines(n),
    ensures
        ({
            let once = import::placed("CRDT"@, Some(doc_bytes(a)), doc_bytes(b));
            once is Ok && import::placed("CRDT"@, Some(once->Ok_0), doc_bytes(b)) == once
        }),
        ({
            let once = import::placed("MANIFEST"@, Some(encode_utf8(m)), encode_utf8(n));
            once is Ok && import::placed("MANIFEST"@, Some(once->Ok_0), encode_utf8(n)) == once
        }),
        ({
            let once = import::placed("BLOB"@, local, sent);
            once is Ok && import::placed("BLOB"@, Some(once->Ok_0), sent) == once
        }),
{
    let ab = textdoc::merged(a, b);
    law_document_is_merged(a, b);
    law_document_is_merged(ab, b);
    doc_laws::law_merge_associative(a, b, b);
    doc_laws::law_merge_idempotent(b);
    lemma_text_of_bytes(m);
    lemma_text_of_bytes(n);
    lemma_text_of_bytes(manifest::merged_text(m, n));
    manifest::law_manifest_merge_idempotent(m, n);
    lemma_kinds();
}

/// What the lines of a text say as those of a snapshot.
pub open spec fn items_in(data: Seq<char>) -> Seq<Item> {
    Seq::new(text::lines_of(data).len(), |i: int| snapshot::item_of(text::lines_of(data)[i]))
}

/// What the lines of records say.
pub open spec fn file_items(rs: Seq<RecordView>) -> Seq<Item> {
    Seq::new(rs.len(), |i: int| Item::File(rs[i]))
}

/// What the line of a share says.
pub open spec fn share_item(s: ShareFilesView) -> Item {
    Item::Share(s.share.id, text::strip_cr(s.share.name))
}

/// What the lines for the shares that are sent say. A name that ends in a carriage return loses
/// it.
pub open spec fn share_items(only: Option<Seq<char>>, ss: Seq<ShareFilesView>) -> Seq<Item>
    decreases ss.len(),
{
    if ss.len() == 0 {
        Seq::empty()
    } else {
        let s = ss.last();
        let head = share_items(only, ss.drop_last());
        if snapshot::is_wanted(only, s) {
            head.push(share_item(s)) + file_items(snapshot::share_records(s))
        } else {
            head
        }
    }
}

/// What the lines of a snapshot say.
pub open spec fn snapshot_items(
    only: Option<Seq<char>>,
    ss: Seq<ShareFilesView>,
    blobs: Seq<StoredView>,
) -> Seq<Item> {
    (seq![Item::Nothing] + share_items(only, ss) + file_items(
        snapshot::records_of("BLOB"@, "_"@, blobs),
    )).push(Item::Nothing)
}

/// Whether lines hold no newline, and say what `items` says when they are read.
spec fn say(ls: Seq<Seq<char>>, items: Seq<Item>) -> bool {
    &&& ls.len() == items.len()
    &&& forall|i: int| 0 <= i < ls.len() ==> !(#[trigger] ls[i]).contains('\n')
    &&& forall|i: int|
        0 <= i < ls.len() ==> snapshot::item_of(text::strip_cr(#[trigger] ls[i])) == items[i]
}

proof fn lemma_say_both(a: Seq<Seq<char>>, x: Seq<Item>, b: Seq<Seq<char>>, y: Seq<Item>)
    requires
        say(a, x),
        say(b, y),
    ensures
        say(a + b, x + y),
{
    let ls = a + b;
    assert forall|i: int| 0 <= i < ls.len() implies !(#[trigger] ls[i]).contains('\n')
        && snapshot::item_of(text::strip_cr(ls[i])) == (x + y)[i] by {
        if i < a.len() {
            assert(ls[i] == a[i]);
        } else {
            assert(ls[i] == b[i - a.len()]);
        }
    }
}

/// A line that begins with a column of its own is not one that is passed over.
proof fn lemma_not_passed_over(line: Seq<char>, word: Seq<char>)
    requires
        table::columns_of(line)[0] == word,
        word == "FILE"@ || word == "SHARE"@,
    ensures
        line != "SNAPSHOT 1"@,
        line != "END"@,
        line.len() > 0,
        "FILE"@ != "SHARE"@,
{
    reveal_strlit("SNAPSHOT 1");
    reveal_strlit("END");
    reveal_strlit("FILE");
    reveal_strlit("SHARE");
    assert("FILE"@[0] == 'F' && "SHARE"@[0] == 'S' && "END"@[0] == 'E');
    assert("SHARE"@.len() == 5 && "SNAPSHOT 1"@.len() == 10);
    assert(!"SNAPSHOT 1"@.contains('\t'));
    assert(!"END"@.contains('\t'));
    text::lemma_split_one("SNAPSHOT 1"@, '\t');
    text::lemma_split_one("END"@, '\t');
    text::lemma_split_one(Seq::<char>::empty(), '\t');
    assert(line.len() == 0 ==> line =~= Seq::<char>::empty());
}

proof fn lemma_record_line(r: RecordView)
    requires
        !r.kind.contains('\t'),
        !r.kind.contains('\n'),
    ensures
        say(seq![snapshot::record_line(r)], seq![Item::File(r)]),
{
    let cols = snapshot::record_columns(r);
    let line = snapshot::record_line(r);
    let h = codec::hex_of(r.bytes);
    reveal_strlit("FILE");
    entries::lemma_escaped_column(r.share);
    entries::lemma_escaped_column(r.name);
    codec::lemma_hex_of(r.bytes);
    codec::law_unhexed_hex_of(r.bytes);
    assert forall|k: int| 0 <= k < h.len() implies h[k] != '\t' && h[k] != '\n' && h[k] != '\r' by {}
    assert forall|i: int| 0 <= i < cols.len() implies !(#[trigger] cols[i]).contains('\t')
        && !cols[i].contains('\n') by {
        if i == 0 {
            assert(cols[i] == "FILE"@);
        } else if i == 1 {
            assert(cols[i] == r.kind);
        } else if i == 2 {
            assert(cols[i] == codec::escaped(r.share));
        } else if i == 3 {
            assert(cols[i] == codec::escaped(r.name));
        } else {
            assert(cols[i] == h);
        }
    }
    entries::lemma_fits_line(cols);
    lemma_not_passed_over(line, "FILE"@);
}

proof fn lemma_share_line(s: ShareFilesView)
    ensures
        say(seq![snapshot::share_line(s.share.id, s.share.name)], seq![share_item(s)]),
{
    let id = s.share.id;
    let name = s.share.name;
    let read = text::strip_cr(name);
    let line = snapshot::share_line(id, name);
    let cols = seq!["SHARE"@, codec::escaped(id), codec::escaped(name)];
    let kept = seq!["SHARE"@, codec::escaped(id), codec::escaped(read)];
    reveal_strlit("SHARE");
    entries::lemma_escaped_column(id);
    entries::lemma_escaped_column(name);
    entries::lemma_escaped_column(read);
    codec::lemma_escaped_strip(name);
    assert forall|i: int| 0 <= i < cols.len() implies !(#[trigger] cols[i]).contains('\n') by {
        if i == 0 {
            assert(cols[i] == "SHARE"@);
        } else if i == 1 {
            assert(cols[i] == codec::escaped(id));
        } else {
            assert(cols[i] == codec::escaped(name));
        }
    }
    assert forall|i: int| 0 <= i < kept.len() implies !(#[trigger] kept[i]).contains('\t') by {
        if i == 0 {
            assert(kept[i] == "SHARE"@);
        } else if i == 1 {
            assert(kept[i] == codec::escaped(id));
        } else {
            assert(kept[i] == codec::escaped(read));
        }
    }
    table::lemma_tabbed_no_newline(cols);
    table::lemma_columns_of_tabbed(kept);
    let head = table::tabbed(cols.drop_last()).push('\t');
    let last = codec::escaped(name);
    assert(cols.drop_last() =~= kept.drop_last());
    if last.len() > 0 {
        assert(line.last() == last.last());
        assert(line.drop_last() =~= head + last.drop_last());
    } else {
        assert(line.last() == '\t');
    }
    assert(text::strip_cr(line) =~= table::tabbed(kept));
    lemma_not_passed_over(table::tabbed(kept), "SHARE"@);
}

proof fn lemma_record_lines(rs: Seq<RecordView>)
    requires
        forall|i: int|
            0 <= i < rs.len() ==> !(#[trigger] rs[i]).kind.contains('\t')
                && !rs[i].kind.contains('\n'),
    ensures
        say(snapshot::record_lines(rs), file_items(rs)),
{
    let ls = snapshot::record_lines(rs);
    assert forall|i: int| 0 <= i < ls.len() implies !(#[trigger] ls[i]).contains('\n')
        && snapshot::item_of(text::strip_cr(ls[i])) == file_items(rs)[i] by {
        let r = rs[i];
        lemma_record_line(r);
        let one = seq![snapshot::record_line(r)];
        assert(one[0] == ls[i]);
    }
}

proof fn lemma_shares_part(only: Option<Seq<char>>, ss: Seq<ShareFilesView>)
    ensures
        say(snapshot::shares_part(only, ss), share_items(only, ss)),
    decreases ss.len(),
{
    if ss.len() > 0 {
        let r = ss.drop_last();
        let s = ss[ss.len() - 1];
        assert(ss.last() == s);
        lemma_shares_part(only, r);
        if snapshot::is_wanted(only, s) {
            lemma_kinds_fit();
            lemma_share_line(s);
            lemma_say_both(
                snapshot::shares_part(only, r),
                share_items(only, r),
                seq![snapshot::share_line(s.share.id, s.share.name)],
                seq![share_item(s)],
            );
            let head = snapshot::shares_part(only, r).push(
                snapshot::share_line(s.share.id, s.share.name),
            );
            let items = share_items(only, r).push(share_item(s));
            assert(head =~= snapshot::shares_part(only, r) + seq![
                snapshot::share_line(s.share.id, s.share.name),
            ]);
            assert(items =~= share_items(only, r) + seq![share_item(s)]);
            let rs = snapshot::share_records(s);
            assert forall|i: int| 0 <= i < rs.len() implies !(#[trigger] rs[i]).kind.contains('\t')
                && !rs[i].kind.contains('\n') by {
                assert(rs[i].kind == "MANIFEST"@ || rs[i].kind == "CRDT"@);
            }
            lemma_record_lines(rs);
            lemma_say_both(head, items, snapshot::record_lines(rs), file_items(rs));
        }
    }
}

/// The kinds of records fit in a column.
proof fn lemma_kinds_fit()
    ensures
        !"MANIFEST"@.contains('\t') && !"MANIFEST"@.contains('\n'),
        !"CRDT"@.contains('\t') && !"CRDT"@.contains('\n'),
        !"BLOB"@.contains('\t') && !"BLOB"@.contains('\n'),
{
    reveal_strlit("CRDT");
    reveal_strlit("MANIFEST");
    reveal_strlit("BLOB");
}

/// A snapshot is read as what it was made of: the shares that were asked for, with their
/// manifests and text documents, and the contents that are kept as they are, in their order. The
/// name of a share that ends in a carriage return loses it.
pub proof fn law_snapshot_is_read_back(
    only: Option<Seq<char>>,
    ss: Seq<ShareFilesView>,
    blobs: Seq<StoredView>,
)
    ensures
        items_in(text::joined(snapshot::snapshot_lines(only, ss, blobs))) == snapshot_items(
            only,
            ss,
            blobs,
        ),
{
    let part = snapshot::shares_part(only, ss);
    let rs = snapshot::records_of("BLOB"@, "_"@, blobs);
    reveal_strlit("SNAPSHOT 1");
    reveal_strlit("END");
    lemma_kinds_fit();
    lemma_shares_part(only, ss);
    assert forall|i: int| 0 <= i < rs.len() implies !(#[trigger] rs[i]).kind.contains('\t')
        && !rs[i].kind.contains('\n') by {
        assert(rs[i].kind == "BLOB"@);
    }
    lemma_record_lines(rs);
    let first = seq!["SNAPSHOT 1"@];
    let end = seq!["END"@];
    let nothing = seq![Item::Nothing];
    assert(say(first, nothing));
    assert(say(end, nothing));
    lemma_say_both(first, nothing, part, share_items(only, ss));
    lemma_say_both(
        first + part,
        nothing + share_items(only, ss),
        snapshot::record_lines(rs),
        file_items(rs),
    );
    let ls = snapshot::snapshot_lines(only, ss, blobs);
    let items = snapshot_items(only, ss, blobs);
    lemma_say_both(
        first + part + snapshot::record_lines(rs),
        nothing + share_items(only, ss) + file_items(rs),
        end,
        nothing,
    );
    assert(ls =~= first + part + snapshot::record_lines(rs) + end);
    assert(items =~= nothing + share_items(only, ss) + file_items(rs) + nothing);
    text::lemma_lines_lose_ends(ls);
    assert(items_in(text::joined(ls)) =~= items);
}

} // verus!
