//! What scans do with the files of a shared folder, where a share is written to, and when a file
//! is taken to hold already what it should.

use std::collections::hash_map::DefaultHasher;

use vstd::prelude::*;
use vstd::std_specs::hash::*;

use crate::decimal;
use crate::hash;
use crate::hash::ByteOrder;
use crate::ignore;
use crate::manifest::Manifest;
use crate::ordmap;
use crate::paths;
use crate::scan;
use crate::scan::{FoundView, SourceView, StateView};

verus! {

/// A text file that was found is read into its document if and only if it is new to the manifest
/// or was found with another time or another size, be it larger or smaller. Other files, and
/// files that are busy, are not.
pub proof fn law_text_is_read_where_time_or_size_differ(m: Manifest, fs: Seq<FoundView>, i: int)
    requires
        forall|a: int, b: int|
            0 <= a < b < fs.len() ==> (#[trigger] fs[a]).rel != (#[trigger] fs[b]).rel,
        0 <= i < fs.len(),
    ensures
        fs[i].state matches StateView::Text { mtime, size } ==> (scan::to_read(m, fs).contains(
            fs[i].rel,
        ) <==> !m.dom().contains(fs[i].rel) || ignore::ignored_rel(fs[i].rel)
            || m[fs[i].rel].mtime != mtime || m[fs[i].rel].size != size),
        !(fs[i].state is Text) ==> !scan::to_read(m, fs).contains(fs[i].rel),
{
    scan::law_changed_files_are_read(m, fs, i);
}

/// What is read are files that were found.
pub proof fn law_only_found_files_are_read(m: Manifest, fs: Seq<FoundView>, rel: Seq<char>)
    requires
        scan::to_read(m, fs).contains(rel),
    ensures
        exists|i: int| 0 <= i < fs.len() && (#[trigger] fs[i]).rel == rel && fs[i].state is Text,
    decreases fs.len(),
{
    let h = fs.drop_last();
    let all = scan::to_read(m, fs);
    let head = scan::to_read(m, h);
    let j = choose|j: int| 0 <= j < all.len() && all[j] == rel;
    if fs.len() > 0 {
        if j < head.len() {
            assert(head[j] == rel);
            law_only_found_files_are_read(m, h, rel);
            let i = choose|i: int|
                0 <= i < h.len() && (#[trigger] h[i]).rel == rel && h[i].state is Text;
            assert(fs[i] == h[i]);
        } else {
            assert(fs[fs.len() - 1].rel == rel);
        }
    }
}

/// After a scan a manifest lists a path if and only if it is not left alone, and a file was found
/// there that is not busy, or one that is busy and was listed before.
pub proof fn law_scan_lists_what_is_there(m: Manifest, fs: Seq<FoundView>, rel: Seq<char>)
    requires
        forall|a: int, b: int|
            0 <= a < b < fs.len() ==> (#[trigger] fs[a]).rel != (#[trigger] fs[b]).rel,
    ensures
        scan::scanned(m, fs).dom().contains(rel) <==> !ignore::ignored_rel(rel) && exists|i: int|
            0 <= i < fs.len() && (#[trigger] fs[i]).rel == rel && (!(fs[i].state is Busy)
                || m.dom().contains(rel)),
{
    if scan::was_seen(fs, rel) && !ignore::ignored_rel(rel) {
        let i = choose|i: int| 0 <= i < fs.len() && (#[trigger] fs[i]).rel == rel;
        scan::law_scan_lists_found_files(m, fs, i);
        assert forall|k: int| 0 <= k < fs.len() && (#[trigger] fs[k]).rel == rel implies k == i by {
        }
    }
}

/// After a scan a file is listed with the time, the size and the content with which it was found:
/// a text file with its document, which is named by the hash of the path, another file with the
/// hash of its content. What is busy is listed as it was.
pub proof fn law_scan_lists_files_as_found(m: Manifest, fs: Seq<FoundView>, i: int)
    requires
        forall|a: int, b: int|
            0 <= a < b < fs.len() ==> (#[trigger] fs[a]).rel != (#[trigger] fs[b]).rel,
        0 <= i < fs.len(),
        scan::scanned(m, fs).dom().contains(fs[i].rel),
    ensures
        ({
            let e = scan::scanned(m, fs)[fs[i].rel];
            match fs[i].state {
                StateView::Busy => e == m[fs[i].rel],
                StateView::Text { mtime, size } => {
                    &&& e.path == fs[i].rel
                    &&& e.kind == "text"@
                    &&& e.object == hash::text_hash(fs[i].rel) + ".crdt"@
                    &&& e.mtime == mtime
                    &&& e.size == size
                },
                StateView::Blob { hash, mtime, size } => {
                    &&& e.path == fs[i].rel
                    &&& e.kind == "blob"@
                    &&& e.object == hash
                    &&& e.mtime == mtime
                    &&& e.size == size
                },
            }
        }),
{
    scan::law_scan_lists_found_files(m, fs, i);
}

/// Where a share is written out, the file of an entry that is not left alone is written in the
/// folder, under exactly the path that the manifest lists, from the document or the content that
/// it lists. So what is found there is found under the same path again. A path that begins at the
/// root leads where it says.
pub proof fn law_entry_is_written_under_its_path(root: Seq<char>, m: Manifest, k: Seq<char>)
    requires
        m.dom().finite(),
        m.dom().contains(k),
        !ignore::ignored_rel(m[k].path),
    ensures
        ({
            let rs = scan::renders(root, m, ordmap::sorted(m.dom()).len() as int);
            let e = m[k];
            exists|n: int|
                0 <= n < rs.len() && {
                    let w = #[trigger] rs[n];
                    &&& e.path.len() > 0 && e.path[0] == '/' ==> w.path == e.path
                    &&& (e.path.len() == 0 || e.path[0] != '/') && root.len() > 0 && root.last()
                        != '/' ==> w.path.len() == root.len() + 1 + e.path.len() && w.path.take(
                        root.len() as int,
                    ) == root && w.path[root.len() as int] == '/' && w.path.skip(root.len() as int + 1)
                        == e.path
                    &&& (e.path.len() == 0 || e.path[0] != '/') && (root.len() == 0 || root.last()
                        == '/') ==> w.path == root + e.path
                    &&& e.kind == "text"@ ==> w.source == SourceView::Doc(e.object)
                    &&& e.kind == "blob"@ ==> w.source == SourceView::Blob(e.object)
                    &&& e.kind != "text"@ && e.kind != "blob"@ ==> w.source is Nowhere
                    &&& w.dir == paths::parent_of(w.path)
                }
        }),
{
    let keys = ordmap::sorted(m.dom());
    ordmap::lemma_sorted_exists(m.dom());
    assert(keys.contains(k));
    let i = choose|i: int| 0 <= i < keys.len() && keys[i] == k;
    let n = lemma_rendered_at(root, m, keys.len() as int, i);
    let w = scan::renders(root, m, keys.len() as int)[n];
    let e = m[k];
    assert(w == scan::render_of(root, e));
    if !(e.path.len() > 0 && e.path[0] == '/') && root.len() > 0 && root.last() != '/' {
        assert(w.path == root.push('/') + e.path);
        assert(w.path.take(root.len() as int) =~= root);
        assert(w.path.skip(root.len() as int + 1) =~= e.path);
    }
    reveal_strlit("text");
    reveal_strlit("blob");
    assert("text"@[0] == 't' && "blob"@[0] == 'b');
}

/// Where the file of the entry at `i` is among those that are written.
proof fn lemma_rendered_at(root: Seq<char>, m: Manifest, n: int, i: int) -> (at: int)
    requires
        0 <= i < n <= ordmap::sorted(m.dom()).len(),
        !ignore::ignored_rel(m[ordmap::sorted(m.dom())[i]].path),
    ensures
        0 <= at < scan::renders(root, m, n).len(),
        scan::renders(root, m, n)[at] == scan::render_of(root, m[ordmap::sorted(m.dom())[i]]),
    decreases n,
{
    if i == n - 1 {
        scan::renders(root, m, n).len() - 1
    } else {
        lemma_rendered_at(root, m, n - 1, i)
    }
}

/// Nothing is written but files of entries that are not left alone.
pub proof fn law_only_entries_are_written(root: Seq<char>, m: Manifest, n: int)
    requires
        m.dom().finite(),
        0 <= n < scan::renders(root, m, ordmap::sorted(m.dom()).len() as int).len(),
    ensures
        ({
            let w = scan::renders(root, m, ordmap::sorted(m.dom()).len() as int)[n];
            exists|k: Seq<char>| #[trigger]
                m.dom().contains(k) && !ignore::ignored_rel(m[k].path) && (w.path == m[k].path
                    || w.path == root + m[k].path || w.path == root.push('/') + m[k].path)
        }),
{
    let keys = ordmap::sorted(m.dom());
    ordmap::lemma_sorted_exists(m.dom());
    let i = lemma_written_from(root, m, keys.len() as int, n);
    assert(keys.contains(keys[i]));
    assert(m.dom().contains(keys[i]));
}

/// Which entry a file that is written belongs to.
proof fn lemma_written_from(root: Seq<char>, m: Manifest, n: int, at: int) -> (i: int)
    requires
        n <= ordmap::sorted(m.dom()).len(),
        0 <= at < scan::renders(root, m, n).len(),
    ensures
        0 <= i < n,
        !ignore::ignored_rel(m[ordmap::sorted(m.dom())[i]].path),
        scan::renders(root, m, n)[at] == scan::render_of(root, m[ordmap::sorted(m.dom())[i]]),
    decreases n,
{
    let before = scan::renders(root, m, n - 1);
    if at < before.len() {
        lemma_written_from(root, m, n - 1, at)
    } else {
        n - 1
    }
}

/// Files are written in the order of their keys, each once.
pub proof fn law_files_are_written_in_order(root: Seq<char>, m: Manifest)
    requires
        m.dom().finite(),
        forall|k: Seq<char>| #[trigger] m.dom().contains(k) ==> !ignore::ignored_rel(m[k].path),
    ensures
        ({
            let keys = ordmap::sorted(m.dom());
            let rs = scan::renders(root, m, keys.len() as int);
            &&& rs.len() == m.dom().len()
            &&& forall|i: int|
                0 <= i < rs.len() ==> (#[trigger] rs[i]).path == if m[keys[i]].path.len() > 0
                    && m[keys[i]].path[0] == '/' {
                    m[keys[i]].path
                } else if root.len() > 0 && root.last() != '/' {
                    root.push('/') + m[keys[i]].path
                } else {
                    root + m[keys[i]].path
                }
        }),
{
    let keys = ordmap::sorted(m.dom());
    ordmap::lemma_sorted_exists(m.dom());
    lemma_all_written(root, m, keys.len() as int);
    ordmap::lemma_sorted_len(m.dom());
}

proof fn lemma_all_written(root: Seq<char>, m: Manifest, n: int)
    requires
        m.dom().finite(),
        0 <= n <= ordmap::sorted(m.dom()).len(),
        forall|k: Seq<char>| #[trigger] m.dom().contains(k) ==> !ignore::ignored_rel(m[k].path),
    ensures
        scan::renders(root, m, n).len() == n,
        forall|i: int|
            0 <= i < n ==> #[trigger] scan::renders(root, m, n)[i] == scan::render_of(
                root,
                m[ordmap::sorted(m.dom())[i]],
            ),
    decreases n,
{
    let keys = ordmap::sorted(m.dom());
    if n > 0 {
        ordmap::lemma_sorted_exists(m.dom());
        lemma_all_written(root, m, n - 1);
        assert(keys.contains(keys[n - 1]));
        assert(m.dom().contains(keys[n - 1]));
    }
}

/// Sixteen to the power of `w`.
spec fn power_of_sixteen(w: nat) -> nat
    decreases w,
{
    if w == 0 {
        1
    } else {
        16 * power_of_sixteen((w - 1) as nat)
    }
}

/// Numbers that are small enough are told apart by their hexadecimal digits.
proof fn lemma_hex_digits_tell_apart(a: nat, b: nat, w: nat)
    requires
        a < power_of_sixteen(w),
        b < power_of_sixteen(w),
        decimal::hex_digits(a, w) == decimal::hex_digits(b, w),
    ensures
        a == b,
    decreases w,
{
    if w > 0 {
        let x = decimal::hex_digits(a, w);
        let y = decimal::hex_digits(b, w);
        assert(x.last() == y.last());
        assert(decimal::hex_char(a % 16) == decimal::hex_char(b % 16));
        assert(a % 16 == b % 16);
        assert(x.drop_last() =~= decimal::hex_digits(a / 16, (w - 1) as nat));
        assert(y.drop_last() =~= decimal::hex_digits(b / 16, (w - 1) as nat));
        lemma_hex_digits_tell_apart(a / 16, b / 16, (w - 1) as nat);
    }
}

/// Two hashes are the same text only where they are the same number.
pub proof fn law_hashes_are_told_apart(v: Seq<Seq<u8>>, w: Seq<Seq<u8>>)
    ensures
        hash::digest(v) == hash::digest(w) <==> DefaultHasher::spec_finish(v)
            == DefaultHasher::spec_finish(w),
{
    reveal_with_fuel(power_of_sixteen, 17);
    assert(power_of_sixteen(16) == 0x1_0000_0000_0000_0000);
    if hash::digest(v) == hash::digest(w) {
        lemma_hex_digits_tell_apart(
            DefaultHasher::spec_finish(v) as nat,
            DefaultHasher::spec_finish(w) as nat,
            16,
        );
    }
}

/// Whether `w` is all of `data`, cut into pieces of 8192 bytes from its beginning on, each behind
/// the number of its bytes.
pub open spec fn is_cut_into(data: Seq<u8>, order: ByteOrder, w: Seq<Seq<u8>>) -> bool {
    &&& w.len() == 2 * ((data.len() + 8191) / 8192)
    &&& forall|i: int|
        0 <= i < w.len() && i % 2 == 1 ==> #[trigger] w[i] == data.subrange(
            i / 2 * 8192,
            if i / 2 * 8192 + 8192 < data.len() {
                i / 2 * 8192 + 8192
            } else {
                data.len() as int
            },
        )
    &&& forall|i: int|
        0 <= i < w.len() && i % 2 == 0 ==> #[trigger] w[i] == hash::number_bytes(
            w[i + 1].len(),
            order,
        )
}

/// Bytes that are cut so are what is hashed of them.
pub proof fn lemma_cut_is_written(data: Seq<u8>, order: ByteOrder, w: Seq<Seq<u8>>)
    requires
        is_cut_into(data, order, w),
    ensures
        w == hash::chunk_writes(data, order),
    decreases data.len(),
{
    let n = data.len();
    if n == 0 {
        assert(w =~= Seq::<Seq<u8>>::empty());
    } else {
        assert(w[1] == data.subrange(0, if 8192 < n { 8192 } else { n as int }));
        assert(w[0] == hash::number_bytes(w[0int + 1].len(), order));
        if n <= 8192 {
            assert(w[1] =~= data);
            assert(w =~= hash::run_writes(data, order));
        } else {
            let rest = data.skip(8192);
            let v = w.skip(2);
            assert((n + 8191) / 8192 == (rest.len() + 8191) / 8192 + 1);
            assert forall|i: int| 0 <= i < v.len() && i % 2 == 1 implies #[trigger] v[i]
                == rest.subrange(
                i / 2 * 8192,
                if i / 2 * 8192 + 8192 < rest.len() {
                    i / 2 * 8192 + 8192
                } else {
                    rest.len() as int
                },
            ) by {
                let j = i + 2;
                assert(v[i] == w[j]);
                assert(j / 2 == i / 2 + 1);
                let a = i / 2 * 8192;
                let end = if a + 8192 < rest.len() {
                    a + 8192
                } else {
                    rest.len() as int
                };
                assert(w[j] == data.subrange(a + 8192, end + 8192));
                assert(data.subrange(a + 8192, end + 8192) =~= rest.subrange(a, end));
            }
            assert forall|i: int| 0 <= i < v.len() && i % 2 == 0 implies #[trigger] v[i]
                == hash::number_bytes(v[i + 1].len(), order) by {
                assert(v[i] == w[i + 2]);
                assert(v[i + 1] == w[i + 3]);
                assert(w[i + 2] == hash::number_bytes(w[i + 2 + 1].len(), order));
            }
            lemma_cut_is_written(rest, order, v);
            assert(w[1] =~= data.take(8192));
            assert(w =~= hash::run_writes(data.take(8192), order) + v);
        }
    }
}

/// A file is taken to hold `data` if and only if it is as long, and the hash of all that it holds,
/// piece by piece from the first one on, is that of all of `data`: every byte of both goes into
/// the comparison, however long they are.
pub proof fn law_every_byte_is_compared(
    content: Seq<u8>,
    data: Seq<u8>,
    order: ByteOrder,
    v: Seq<Seq<u8>>,
    w: Seq<Seq<u8>>,
)
    requires
        is_cut_into(content, order, v),
        is_cut_into(data, order, w),
    ensures
        hash::holds(Some(content), data, order) <==> content.len() == data.len()
            && DefaultHasher::spec_finish(v) == DefaultHasher::spec_finish(w),
        !hash::holds(None, data, order),
{
    lemma_cut_is_written(content, order, v);
    lemma_cut_is_written(data, order, w);
    law_hashes_are_told_apart(v, w);
}

} // verus!
