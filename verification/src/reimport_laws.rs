//! What the import of a snapshot does when the same one comes in again: nothing more.

use vstd::prelude::*;
use vstd::utf8::*;

use crate::bytes;
use crate::doc_laws;
use crate::docfile;
use crate::entries;
use crate::import;
use crate::import_laws;
use crate::manifest;
use crate::shares;
use crate::snapshot;
use crate::snapshot::{Item, RecordView};
use crate::text;
use crate::textdoc;

verus! {

/// The record in the line `i`, with the file that it goes to, if there is one.
pub open spec fn record_at(base: Seq<char>, ls: Seq<Seq<char>>, i: int) -> Option<
    (RecordView, Seq<char>),
> {
    match snapshot::item_of(ls[i]) {
        Item::File(r) => match import::destination(base, r) {
            Some(path) => Some((r, path)),
            None => None,
        },
        _ => None,
    }
}

/// Whether records that go to one file are of one kind and hold the same, and none goes to the
/// file with the names of remote shares: so it is in a snapshot of what a device holds.
pub open spec fn consistent(base: Seq<char>, ls: Seq<Seq<char>>) -> bool {
    &&& forall|i: int, j: int|
        0 <= i < ls.len() && 0 <= j < ls.len() ==> (#[trigger] record_at(base, ls, i) matches Some(
            (r, p),
        ) ==> (#[trigger] record_at(base, ls, j) matches Some((s, q)) ==> (p == q ==> r.kind
            == s.kind && r.bytes == s.bytes)))
    &&& forall|i: int|
        0 <= i < ls.len() ==> (#[trigger] record_at(base, ls, i) matches Some((r, p)) ==> p
            != import::remote_file(base))
}

/// Whether records of the kind `kind` hold texts that are merged.
pub open spec fn is_merged(kind: Seq<char>) -> bool {
    kind == "MANIFEST"@ || kind == "CRDT"@
}

/// Whether a file says the same, for a record of the kind `kind`, where it held `a` and holds
/// `b`: the same document, the same manifest, or the same bytes.
pub open spec fn says_same(kind: Seq<char>, a: Option<Seq<u8>>, b: Option<Seq<u8>>) -> bool {
    match (a, b) {
        (Some(x), Some(y)) => if kind == "MANIFEST"@ {
            valid_utf8(x) && valid_utf8(y) && manifest::manifest_in(Some(decode_utf8(x)))
                == manifest::manifest_in(Some(decode_utf8(y)))
        } else if kind == "CRDT"@ {
            valid_utf8(x) && valid_utf8(y) && docfile::parsed_doc(decode_utf8(x))
                == docfile::parsed_doc(decode_utf8(y))
        } else {
            x == y
        },
        _ => false,
    }
}

/// Whether a record with the content `sent` has nothing to add to a file that holds `c`.
spec fn settled(kind: Seq<char>, c: Seq<u8>, sent: Seq<u8>) -> bool {
    if kind == "MANIFEST"@ {
        let s = decode_utf8(c);
        let t = bytes::text_of(sent);
        valid_utf8(c) && manifest::plain_lines(t) && (text::lines_of(manifest::merged_text(s, t))
            == text::lines_of(s) || (s == t && manifest::well_written(t)))
    } else if kind == "CRDT"@ {
        let d = docfile::parsed_doc(decode_utf8(c));
        valid_utf8(c) && textdoc::merged(d, docfile::parsed_doc(bytes::text_of(sent))) == d
    } else {
        true
    }
}

/// A record that was placed has nothing to add.
proof fn lemma_placed_is_settled(
    kind: Seq<char>,
    local: Option<Seq<u8>>,
    sent: Seq<u8>,
    c: Seq<u8>,
)
    requires
        import::placed(kind, local, sent) == Ok::<Seq<u8>, Seq<char>>(c),
        is_merged(kind) ==> valid_utf8(c),
        kind == "MANIFEST"@ ==> manifest::well_written(bytes::text_of(sent)),
        kind == "MANIFEST"@ ==> (local matches Some(l) ==> manifest::merges_steadily(
            decode_utf8(l),
            bytes::text_of(sent),
        )),
    ensures
        settled(kind, c, sent),
{
    let t = bytes::text_of(sent);
    import_laws::lemma_kinds();
    if kind == "MANIFEST"@ {
        if let Some(l) = local {
            let s = decode_utf8(l);
            import_laws::lemma_text_of_bytes(manifest::merged_text(s, t));
            manifest::law_manifest_merged_again(s, t);
        }
    } else if kind == "CRDT"@ {
        let b = docfile::parsed_doc(t);
        doc_laws::law_merge_idempotent(b);
        if let Some(l) = local {
            let a = docfile::parsed_doc(decode_utf8(l));
            let m = textdoc::merged(a, b);
            docfile::lemma_read_doc(text::lines_of(decode_utf8(l)));
            docfile::lemma_read_doc(text::lines_of(t));
            import_laws::lemma_merged_storable(a, b);
            import_laws::lemma_text_of_bytes(docfile::doc_text(m));
            docfile::law_saved_doc_is_read_back(m);
            doc_laws::law_merge_associative(a, b, b);
        }
    }
}

/// A text that was placed, or merged into what was there, is a text.
pub proof fn lemma_placed_is_text(
    kind: Seq<char>,
    local: Option<Seq<u8>>,
    sent: Seq<u8>,
    c: Seq<u8>,
)
    requires
        import::placed(kind, local, sent) == Ok::<Seq<u8>, Seq<char>>(c),
    ensures
        is_merged(kind) && valid_utf8(sent) ==> valid_utf8(c),
{
    let t = bytes::text_of(sent);
    if let Some(l) = local {
        let s = decode_utf8(l);
        import_laws::lemma_text_of_bytes(manifest::merged_text(s, t));
        import_laws::lemma_text_of_bytes(import::merged_doc_text(s, t));
    }
}

/// A record that has nothing to add changes nothing that is said, and has nothing to add after.
proof fn lemma_settled_again(kind: Seq<char>, c: Seq<u8>, sent: Seq<u8>) -> (d: Seq<u8>)
    requires
        settled(kind, c, sent),
    ensures
        import::placed(kind, Some(c), sent) == Ok::<Seq<u8>, Seq<char>>(d),
        settled(kind, d, sent),
        says_same(kind, Some(c), Some(d)),
        !is_merged(kind) ==> d == c,
{
    let t = bytes::text_of(sent);
    import_laws::lemma_kinds();
    if kind == "MANIFEST"@ {
        let s = decode_utf8(c);
        let m = manifest::merged_text(s, t);
        import_laws::lemma_text_of_bytes(m);
        if text::lines_of(m) != text::lines_of(s) {
            manifest::law_manifest_merged_with_itself(t);
            manifest::law_manifest_merge_idempotent(t, t);
        }
        encode_utf8(m)
    } else if kind == "CRDT"@ {
        let a = docfile::parsed_doc(decode_utf8(c));
        let b = docfile::parsed_doc(t);
        let m = textdoc::merged(a, b);
        docfile::lemma_read_doc(text::lines_of(decode_utf8(c)));
        import_laws::lemma_text_of_bytes(docfile::doc_text(m));
        docfile::law_saved_doc_is_read_back(m);
        encode_utf8(docfile::doc_text(m))
    } else {
        c
    }
}

/// An import that came through all lines came through the first ones.
proof fn lemma_not_stopped(base: Seq<char>, files: import::Files, ls: Seq<Seq<char>>, n: int)
    requires
        0 <= n <= ls.len(),
        import::after_lines(base, files, ls).failed is None,
    ensures
        import::after_lines(base, files, ls.take(n)).failed is None,
        n < ls.len() ==> import::after_lines(base, files, ls.take(n + 1)) == import::step(
            base,
            import::after_lines(base, files, ls.take(n)),
            ls[n],
        ),
    decreases ls.len() - n,
{
    if n == ls.len() {
        assert(ls.take(n) =~= ls);
    } else {
        assert(ls.take(n + 1).drop_last() =~= ls.take(n));
        assert(ls.take(n + 1).last() == ls[n]);
        lemma_not_stopped(base, files, ls, n + 1);
    }
}

/// Whether the manifests of a snapshot are written as devices write them, and merge steadily with
/// those that they are merged into.
pub open spec fn manifests_fit(base: Seq<char>, files: import::Files, ls: Seq<Seq<char>>) -> bool {
    forall|i: int|
        0 <= i < ls.len() ==> (#[trigger] record_at(base, ls, i) matches Some((r, p)) ==> (r.kind
            == "MANIFEST"@ ==> manifest::well_written(bytes::text_of(r.bytes)) && (import::held(
            files,
            p,
        ) matches Some(l) ==> manifest::merges_steadily(
            decode_utf8(l),
            bytes::text_of(r.bytes),
        ))))
}

/// Whether a file that was written by the first `n` lines has what they hold, and is a text where
/// what is merged into it is one.
spec fn all_settled(base: Seq<char>, files: import::Files, ls: Seq<Seq<char>>, n: int) -> bool {
    forall|i: int|
        0 <= i < n ==> (#[trigger] record_at(base, ls, i) matches Some((r, p)) ==> (import::held(
            files,
            p,
        ) matches Some(c) && ((is_merged(r.kind) ==> valid_utf8(c)) ==> settled(
            r.kind,
            c,
            r.bytes,
        )) && (is_merged(r.kind) && valid_utf8(r.bytes) ==> valid_utf8(c))))
}

/// While a snapshot comes in for the first time, each file gets what its record holds.
proof fn lemma_first_import(base: Seq<char>, files: import::Files, ls: Seq<Seq<char>>, n: int)
    requires
        0 <= n <= ls.len(),
        consistent(base, ls),
        manifests_fit(base, files, ls),
        import::after_lines(base, files, ls).failed is None,
    ensures
        all_settled(base, import::after_lines(base, files, ls.take(n)).files, ls, n),
        forall|q: Seq<char>|
            (forall|i: int|
                0 <= i < n ==> !(#[trigger] record_at(base, ls, i) matches Some((r, p)) && p == q))
                ==> #[trigger] import::held(
                import::after_lines(base, files, ls.take(n)).files,
                q,
            ) == import::held(files, q),
    decreases n,
{
    if n == 0 {
        assert(ls.take(0) =~= Seq::<Seq<char>>::empty());
    } else {
        let m = n - 1;
        lemma_first_import(base, files, ls, m);
        lemma_not_stopped(base, files, ls, m);
        lemma_not_stopped(base, files, ls, n);
        let before = import::after_lines(base, files, ls.take(m));
        let after = import::after_lines(base, files, ls.take(n));
        assert(after == import::step(base, before, ls[m]));
        if let Some((r, p)) = record_at(base, ls, m) {
            let local = import::held(before.files, p);
            let placed = import::placed(r.kind, local, r.bytes);
            assert(placed is Ok);
            let c = placed->Ok_0;
            assert(after.files == before.files.insert(p, c));
            lemma_placed_is_text(r.kind, local, r.bytes, c);
            if exists|i: int|
                0 <= i < m && (#[trigger] record_at(base, ls, i) matches Some((s, q)) && p == q) {
                let i = choose|i: int|
                    0 <= i < m && (#[trigger] record_at(base, ls, i) matches Some((s, q)) && p
                        == q);
                let s = record_at(base, ls, i)->Some_0.0;
                assert(s.kind == r.kind && s.bytes == r.bytes);
                assert(local is Some);
                import_laws::lemma_kinds();
                let d = lemma_settled_again(r.kind, local->Some_0, r.bytes);
                assert(d == c);
            } else {
                assert(local == import::held(files, p));
                if is_merged(r.kind) ==> valid_utf8(c) {
                    lemma_placed_is_settled(r.kind, local, r.bytes, c);
                }
            }
            assert forall|i: int| 0 <= i < n implies (#[trigger] record_at(base, ls, i) matches Some(
                (s, q),
            ) ==> (import::held(after.files, q) matches Some(x) && ((is_merged(s.kind)
                ==> valid_utf8(x)) ==> settled(s.kind, x, s.bytes)) && (is_merged(s.kind)
                && valid_utf8(s.bytes) ==> valid_utf8(x)))) by {
                if let Some((s, q)) = record_at(base, ls, i) {
                    if q == p {
                        assert(record_at(base, ls, m) is Some);
                        assert(s.kind == r.kind && s.bytes == r.bytes);
                    } else {
                        assert(i < m);
                        assert(import::held(after.files, q) == import::held(before.files, q));
                    }
                }
            }
            assert forall|q: Seq<char>|
                (forall|i: int|
                    0 <= i < n ==> !(#[trigger] record_at(base, ls, i) matches Some((s, x)) && x
                        == q)) implies #[trigger] import::held(after.files, q) == import::held(
                files,
                q,
            ) by {
                assert(record_at(base, ls, m) is Some);
                assert(q != p);
                assert(import::held(before.files, q) == import::held(files, q));
            }
        } else {
            assert(after.files == before.files);
            assert forall|q: Seq<char>|
                (forall|i: int|
                    0 <= i < n ==> !(#[trigger] record_at(base, ls, i) matches Some((s, x)) && x
                        == q)) implies #[trigger] import::held(after.files, q) == import::held(
                files,
                q,
            ) by {
                assert(import::held(before.files, q) == import::held(files, q));
            }
        }
    }
}

/// Whether each file that a record goes to has what the record holds, and says what it said.
spec fn unchanged_so_far(
    base: Seq<char>,
    was: import::Files,
    now: import::Files,
    ls: Seq<Seq<char>>,
) -> bool {
    &&& forall|i: int|
        0 <= i < ls.len() ==> (#[trigger] record_at(base, ls, i) matches Some((r, p)) ==> (
        import::held(now, p) matches Some(c) && settled(r.kind, c, r.bytes) && says_same(
            r.kind,
            import::held(was, p),
            Some(c),
        )))
    &&& forall|q: Seq<char>|
        untouched(base, ls, q) ==> #[trigger] import::held(now, q) == import::held(was, q)
}

/// Whether no manifest and no text document of a snapshot goes to the file `q`.
pub open spec fn untouched(base: Seq<char>, ls: Seq<Seq<char>>, q: Seq<char>) -> bool {
    forall|i: int|
        0 <= i < ls.len() ==> !(#[trigger] record_at(base, ls, i) matches Some((r, p)) && p == q
            && is_merged(r.kind))
}

/// While a snapshot comes in again, nothing changes.
proof fn lemma_second_import(
    base: Seq<char>,
    files: import::Files,
    was: import::Files,
    ls: Seq<Seq<char>>,
    n: int,
)
    requires
        0 <= n <= ls.len(),
        consistent(base, ls),
        import::after_lines(base, files, ls).failed is None,
        unchanged_so_far(base, was, was, ls),
    ensures
        ({
            let p = import::after_lines(base, was, ls.take(n));
            &&& p.failed is None
            &&& p.named == import::after_lines(base, files, ls.take(n)).named
            &&& unchanged_so_far(base, was, p.files, ls)
        }),
    decreases n,
{
    if n == 0 {
        assert(ls.take(0) =~= Seq::<Seq<char>>::empty());
    } else {
        let m = n - 1;
        lemma_second_import(base, files, was, ls, m);
        lemma_not_stopped(base, files, ls, m);
        lemma_not_stopped(base, files, ls, n);
        let head = ls.take(n);
        assert(head.drop_last() =~= ls.take(m));
        assert(head.last() == ls[m]);
        let before = import::after_lines(base, was, ls.take(m));
        let after = import::after_lines(base, was, head);
        assert(after == import::step(base, before, ls[m]));
        if let Some((r, p)) = record_at(base, ls, m) {
            let c = import::held(before.files, p)->Some_0;
            let d = lemma_settled_again(r.kind, c, r.bytes);
            assert(after.files == before.files.insert(p, d));
            assert forall|i: int| 0 <= i < ls.len() implies (#[trigger] record_at(
                base,
                ls,
                i,
            ) matches Some((s, q)) ==> (import::held(after.files, q) matches Some(x) && settled(
                s.kind,
                x,
                s.bytes,
            ) && says_same(s.kind, import::held(was, q), Some(x)))) by {
                if let Some((s, q)) = record_at(base, ls, i) {
                    if q == p {
                        assert(record_at(base, ls, m) is Some);
                        assert(s.kind == r.kind && s.bytes == r.bytes);
                    } else {
                        assert(import::held(after.files, q) == import::held(before.files, q));
                    }
                }
            }
            assert forall|q: Seq<char>| untouched(base, ls, q) implies #[trigger] import::held(
                after.files,
                q,
            ) == import::held(was, q) by {
                assert(import::held(before.files, q) == import::held(was, q));
                if q == p {
                    assert(record_at(base, ls, m) is Some);
                    assert(d == c);
                }
            }
        } else {
            assert(after.files == before.files);
        }
    }
}

/// The last name that `named` gives to the share `id`.
pub open spec fn last_name(named: Seq<(Seq<char>, Seq<char>)>, id: Seq<char>) -> Option<Seq<char>>
    decreases named.len(),
{
    if named.len() == 0 {
        None
    } else if named.last().0 == id {
        Some(named.last().1)
    } else {
        last_name(named.drop_last(), id)
    }
}

/// What is remembered of a share.
pub proof fn lemma_remembered(known: Map<Seq<char>, Seq<char>>, named: Seq<(Seq<char>, Seq<char>)>)
    ensures
        forall|id: Seq<char>| #[trigger]
            import::remembered(known, named).dom().contains(id) <==> known.dom().contains(id)
                || last_name(named, id) is Some,
        forall|id: Seq<char>| #[trigger]
            import::remembered(known, named).dom().contains(id) ==> import::remembered(
                known,
                named,
            )[id] == match last_name(named, id) {
                Some(name) => name,
                None => known[id],
            },
        known.dom().finite() ==> import::remembered(known, named).dom().finite(),
    decreases named.len(),
{
    if named.len() > 0 {
        let r = named.drop_last();
        let head = import::remembered(known, r);
        let all = import::remembered(known, named);
        lemma_remembered(known, r);
        assert forall|id: Seq<char>|
            (#[trigger] all.dom().contains(id) <==> known.dom().contains(id) || last_name(
                named,
                id,
            ) is Some) && (all.dom().contains(id) ==> all[id] == match last_name(named, id) {
                Some(name) => name,
                None => known[id],
            }) by {
            assert(head.dom().contains(id) <==> known.dom().contains(id) || last_name(r, id)
                is Some);
        }
    }
}

/// Entries that were read are finitely many.
pub proof fn lemma_entries_finite<V>(
    ls: Seq<Seq<char>>,
    read: spec_fn(Seq<Seq<char>>) -> Option<(Seq<char>, V)>,
)
    ensures
        entries::entries_of(ls, read).dom().finite(),
    decreases ls.len(),
{
    if ls.len() > 0 {
        lemma_entries_finite(ls.drop_last(), read);
    }
}

/// The names of remote shares that are known after an import.
pub open spec fn names_after(base: Seq<char>, files: import::Files, data: Seq<char>) -> Map<
    Seq<char>,
    Seq<char>,
> {
    let p = import::after_lines(base, files, text::lines_of(data));
    import::remembered(
        match import::held(p.files, import::remote_file(base)) {
            Some(b) => shares::remote_shares_in(Some(decode_utf8(b))),
            None => Map::empty(),
        },
        p.named,
    )
}

/// Whether a name is found again when it was written and read twice: it ends in no more than one
/// carriage return.
pub open spec fn is_steady_name(name: Seq<char>) -> bool {
    text::strip_cr(text::strip_cr(name)) == text::strip_cr(name)
}

/// Whether the names of remote shares that the import of a snapshot leaves as they were are found
/// again when they were written and read twice.
pub open spec fn names_fit(base: Seq<char>, files: import::Files, data: Seq<char>) -> bool {
    let named = import::after_lines(base, files, text::lines_of(data)).named;
    let names = names_after(base, files, data);
    forall|id: Seq<char>| #[trigger]
        names.dom().contains(id) && last_name(named, id) is None ==> is_steady_name(names[id])
}

/// The names of remote shares in a file that holds `b`.
pub open spec fn names_in(b: Option<Seq<u8>>) -> Map<Seq<char>, Seq<char>> {
    match b {
        Some(b) => shares::remote_shares_in(Some(decode_utf8(b))),
        None => Map::empty(),
    }
}

/// Names that were remembered, written and read are read the same after they were remembered
/// again.
proof fn lemma_remembered_again(
    known: Map<Seq<char>, Seq<char>>,
    named: Seq<(Seq<char>, Seq<char>)>,
)
    requires
        forall|id: Seq<char>| #[trigger]
            import::remembered(known, named).dom().contains(id) && last_name(named, id) is None
                ==> is_steady_name(import::remembered(known, named)[id]),
    ensures
        ({
            let read = shares::without_ends(import::remembered(known, named));
            shares::without_ends(import::remembered(read, named)) == read
        }),
{
    let once = import::remembered(known, named);
    let read = shares::without_ends(once);
    let twice = import::remembered(read, named);
    lemma_remembered(known, named);
    lemma_remembered(read, named);
    assert forall|id: Seq<char>| shares::without_ends(twice).dom().contains(id)
        == read.dom().contains(id) by {
        assert(twice.dom().contains(id) <==> read.dom().contains(id) || last_name(named, id)
            is Some);
        assert(once.dom().contains(id) <==> known.dom().contains(id) || last_name(named, id)
            is Some);
    }
    assert forall|id: Seq<char>| read.dom().contains(id) implies #[trigger] shares::without_ends(
        twice,
    )[id] == read[id] by {
        assert(once.dom().contains(id));
        assert(twice.dom().contains(id));
    }
    assert(shares::without_ends(twice) =~= read);
}

/// A snapshot that was taken over changes nothing when it is taken over again: the import
/// succeeds, every manifest and every text document in it says what it said, the same names of
/// remote shares are known, and every other file holds what it held. The files that are merged
/// must be texts. A row of a manifest that was here, and a name of a remote share that the
/// snapshot does not give, must not lose a second carriage return when it is read again.
pub proof fn law_snapshot_taken_over_twice(base: Seq<char>, files: import::Files, data: Seq<char>)
    requires
        consistent(base, text::lines_of(data)),
        manifests_fit(base, files, text::lines_of(data)),
        import::imported(base, files, data).1 is None,
        forall|i: int|
            0 <= i < text::lines_of(data).len() ==> (#[trigger] record_at(
                base,
                text::lines_of(data),
                i,
            ) matches Some((r, p)) ==> (is_merged(r.kind) ==> (import::held(
                import::imported(base, files, data).0,
                p,
            ) matches Some(c) ==> valid_utf8(c)))),
        names_fit(base, files, data),
    ensures
        taken_over_twice(base, files, data),
{
    let ls = text::lines_of(data);
    let n = ls.len() as int;
    let remote = import::remote_file(base);
    let p = import::after_lines(base, files, ls);
    let once = import::imported(base, files, data).0;
    let names = names_after(base, files, data);
    let named_text = shares::remote_shares_text(names);
    assert(ls.take(n) =~= ls);
    lemma_first_import(base, files, ls, n);
    assert(once == p.files.insert(remote, encode_utf8(named_text)));
    assert forall|i: int| 0 <= i < n implies (#[trigger] record_at(base, ls, i) matches Some(
        (r, q),
    ) ==> (import::held(once, q) matches Some(c) && settled(r.kind, c, r.bytes) && says_same(
        r.kind,
        import::held(once, q),
        Some(c),
    ))) by {
        if let Some((r, q)) = record_at(base, ls, i) {
            assert(q != remote);
            assert(import::held(once, q) == import::held(p.files, q));
        }
    }
    assert(unchanged_so_far(base, once, once, ls));
    lemma_second_import(base, files, once, ls, n);
    let again = import::after_lines(base, once, ls);
    assert(untouched(base, ls, remote)) by {
        assert forall|i: int| 0 <= i < n implies !(#[trigger] record_at(base, ls, i) matches Some(
            (r, q),
        ) && q == remote && is_merged(r.kind)) by {}
    }
    assert(import::held(again.files, remote) == import::held(once, remote));
    import_laws::lemma_text_of_bytes(named_text);
    let known = names_in(import::held(p.files, remote));
    if let Some(b) = import::held(p.files, remote) {
        lemma_entries_finite(text::lines_of(decode_utf8(b)), shares::remote_reader());
    }
    lemma_remembered(known, p.named);
    shares::law_saved_remote_shares_lose_ends(names);
    lemma_remembered_again(known, p.named);
    let read = shares::without_ends(names);
    assert(read.dom() =~= names.dom());
    lemma_remembered(read, p.named);
    let later = import::remembered(read, p.named);
    let later_text = shares::remote_shares_text(later);
    import_laws::lemma_text_of_bytes(later_text);
    shares::law_saved_remote_shares_lose_ends(later);
    let twice = import::imported(base, once, data).0;
    assert(twice == again.files.insert(remote, encode_utf8(later_text)));
    assert forall|i: int| 0 <= i < n implies (#[trigger] record_at(base, ls, i) matches Some((r, q))
        ==> says_same(r.kind, import::held(once, q), import::held(twice, q))) by {
        if let Some((r, q)) = record_at(base, ls, i) {
            assert(q != remote);
            assert(import::held(twice, q) == import::held(again.files, q));
        }
    }
    assert forall|q: Seq<char>|
        untouched(base, ls, q) && q != remote implies #[trigger] import::held(twice, q)
        == import::held(once, q) by {
        assert(import::held(again.files, q) == import::held(once, q));
    }
}

/// A snapshot of texts that was taken over changes nothing when it is taken over again.
pub proof fn law_texts_taken_over_twice(base: Seq<char>, files: import::Files, data: Seq<char>)
    requires
        consistent(base, text::lines_of(data)),
        manifests_fit(base, files, text::lines_of(data)),
        import::imported(base, files, data).1 is None,
        forall|i: int|
            0 <= i < text::lines_of(data).len() ==> (#[trigger] record_at(
                base,
                text::lines_of(data),
                i,
            ) matches Some((r, p)) ==> (is_merged(r.kind) ==> valid_utf8(r.bytes))),
        names_fit(base, files, data),
    ensures
        taken_over_twice(base, files, data),
{
    let ls = text::lines_of(data);
    let n = ls.len() as int;
    let p = import::after_lines(base, files, ls);
    let once = import::imported(base, files, data).0;
    assert(ls.take(n) =~= ls);
    lemma_first_import(base, files, ls, n);
    assert forall|i: int| 0 <= i < n implies (#[trigger] record_at(base, ls, i) matches Some((r, q))
        ==> (is_merged(r.kind) ==> (import::held(once, q) matches Some(c) ==> valid_utf8(c)))) by {
        if let Some((r, q)) = record_at(base, ls, i) {
            assert(q != import::remote_file(base));
            assert(import::held(once, q) == import::held(p.files, q));
        }
    }
    law_snapshot_taken_over_twice(base, files, data);
}

/// Whether the import of the snapshot with the text `data` into files that it was imported into
/// before succeeds and changes nothing that they say.
pub open spec fn taken_over_twice(base: Seq<char>, files: import::Files, data: Seq<char>) -> bool {
    let ls = text::lines_of(data);
    let remote = import::remote_file(base);
    let once = import::imported(base, files, data).0;
    let (twice, failed) = import::imported(base, once, data);
    &&& failed is None
    &&& forall|i: int|
        0 <= i < ls.len() ==> (#[trigger] record_at(base, ls, i) matches Some((r, p)) ==> says_same(
            r.kind,
            import::held(once, p),
            import::held(twice, p),
        ))
    &&& names_in(import::held(once, remote)) == names_in(import::held(twice, remote))
    &&& forall|q: Seq<char>|
        untouched(base, ls, q) && q != remote ==> #[trigger] import::held(twice, q)
            == import::held(once, q)
}

} // verus!
