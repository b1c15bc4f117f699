//! When a snapshot can be taken over, where it stops, and what is known of shares and manifests
//! then.

use vstd::prelude::*;
use vstd::utf8::*;

use crate::codec;
use crate::commands;
use crate::error::Error;
use crate::ignore;
use crate::import;
use crate::import_laws;
use crate::manifest;
use crate::order;
use crate::ordmap;
use crate::paths;
use crate::reimport_laws;
use crate::rule_laws;
use crate::shares;
use crate::snapshot;
use crate::snapshot::Item;
use crate::text;
use crate::textdoc;
use crate::textdoc::DocView;

verus! {

/// An import that has stopped does not go on.
proof fn lemma_stopped(base: Seq<char>, files: import::Files, ls: Seq<Seq<char>>, n: int)
    requires
        0 <= n <= ls.len(),
        import::after_lines(base, files, ls.take(n)).failed is Some,
    ensures
        import::after_lines(base, files, ls) == import::after_lines(base, files, ls.take(n)),
    decreases ls.len() - n,
{
    if n == ls.len() {
        assert(ls.take(n) =~= ls);
    } else {
        assert(ls.take(n + 1).drop_last() =~= ls.take(n));
        lemma_stopped(base, files, ls, n + 1);
    }
}

/// A record that cannot be read stops an import where it stands: what came before it stays, and
/// nothing that comes after it is taken over.
pub proof fn law_broken_record_stops_an_import(
    base: Seq<char>,
    files: import::Files,
    data: Seq<char>,
    n: int,
    e: Seq<char>,
)
    requires
        0 <= n < text::lines_of(data).len(),
        import::after_lines(base, files, text::lines_of(data).take(n)).failed is None,
        snapshot::item_of(text::lines_of(data)[n]) == Item::Broken(e),
    ensures
        import::imported(base, files, data).1 == Some(e),
        import::imported(base, files, data).0 == import::after_lines(
            base,
            files,
            text::lines_of(data).take(n),
        ).files,
{
    let ls = text::lines_of(data);
    assert(ls.take(n + 1).drop_last() =~= ls.take(n));
    assert(ls.take(n + 1).last() == ls[n]);
    lemma_stopped(base, files, ls, n + 1);
}

/// A manifest or a text document that should be merged into what is no text stops an import where
/// it stands.
pub proof fn law_unreadable_file_stops_an_import(
    base: Seq<char>,
    files: import::Files,
    data: Seq<char>,
    n: int,
)
    requires
        0 <= n < text::lines_of(data).len(),
        import::after_lines(base, files, text::lines_of(data).take(n)).failed is None,
        reimport_laws::record_at(base, text::lines_of(data), n) matches Some((r, p)) && (r.kind
            == "MANIFEST"@ || r.kind == "CRDT"@) && (import::held(
            import::after_lines(base, files, text::lines_of(data).take(n)).files,
            p,
        ) matches Some(c) && !valid_utf8(c)),
    ensures
        import::imported(base, files, data).1 == Some("stream did not contain valid UTF-8"@),
        import::imported(base, files, data).0 == import::after_lines(
            base,
            files,
            text::lines_of(data).take(n),
        ).files,
{
    let ls = text::lines_of(data);
    assert(ls.take(n + 1).drop_last() =~= ls.take(n));
    assert(ls.take(n + 1).last() == ls[n]);
    import_laws::lemma_kinds();
    lemma_stopped(base, files, ls, n + 1);
}

/// Whether each file that a manifest or a text document of a snapshot goes to is a text, if it is
/// there.
pub open spec fn texts_there(base: Seq<char>, files: import::Files, ls: Seq<Seq<char>>) -> bool {
    forall|i: int|
        0 <= i < ls.len() ==> (#[trigger] reimport_laws::record_at(base, ls, i) matches Some((r, p))
            ==> (reimport_laws::is_merged(r.kind) ==> (import::held(files, p) matches Some(c)
            ==> valid_utf8(c))))
}

/// A snapshot whose records can be read and whose manifests and text documents are texts is taken
/// over, where the files that they are merged into are texts too.
pub proof fn law_readable_snapshot_is_taken_over(
    base: Seq<char>,
    files: import::Files,
    data: Seq<char>,
)
    requires
        reimport_laws::consistent(base, text::lines_of(data)),
        texts_there(base, files, text::lines_of(data)),
        import::held(files, import::remote_file(base)) matches Some(c) ==> valid_utf8(c),
        forall|i: int|
            0 <= i < text::lines_of(data).len() ==> !(snapshot::item_of(
                #[trigger] text::lines_of(data)[i],
            ) is Broken),
        forall|i: int|
            0 <= i < text::lines_of(data).len() ==> (#[trigger] reimport_laws::record_at(
                base,
                text::lines_of(data),
                i,
            ) matches Some((r, p)) ==> (reimport_laws::is_merged(r.kind) ==> valid_utf8(r.bytes))),
    ensures
        import::imported(base, files, data).1 is None,
{
    let ls = text::lines_of(data);
    let n = ls.len() as int;
    lemma_taken_over(base, files, ls, n);
    assert(ls.take(n) =~= ls);
}

proof fn lemma_taken_over(base: Seq<char>, files: import::Files, ls: Seq<Seq<char>>, n: int)
    requires
        0 <= n <= ls.len(),
        reimport_laws::consistent(base, ls),
        texts_there(base, files, ls),
        forall|i: int| 0 <= i < ls.len() ==> !(snapshot::item_of(#[trigger] ls[i]) is Broken),
        forall|i: int|
            0 <= i < ls.len() ==> (#[trigger] reimport_laws::record_at(base, ls, i) matches Some(
                (r, p),
            ) ==> (reimport_laws::is_merged(r.kind) ==> valid_utf8(r.bytes))),
    ensures
        import::after_lines(base, files, ls.take(n)).failed is None,
        texts_there(base, import::after_lines(base, files, ls.take(n)).files, ls),
        import::held(
            import::after_lines(base, files, ls.take(n)).files,
            import::remote_file(base),
        ) == import::held(files, import::remote_file(base)),
    decreases n,
{
    if n == 0 {
        assert(ls.take(0) =~= Seq::<Seq<char>>::empty());
    } else {
        lemma_taken_over(base, files, ls, n - 1);
        assert(ls.take(n).drop_last() =~= ls.take(n - 1));
        assert(ls.take(n).last() == ls[n - 1]);
        let before = import::after_lines(base, files, ls.take(n - 1));
        let after = import::after_lines(base, files, ls.take(n));
        assert(after == import::step(base, before, ls[n - 1]));
        if let Some((r, p)) = reimport_laws::record_at(base, ls, n - 1) {
            let local = import::held(before.files, p);
            let placed = import::placed(r.kind, local, r.bytes);
            assert(placed is Ok);
            let c = placed->Ok_0;
            reimport_laws::lemma_placed_is_text(r.kind, local, r.bytes, c);
            assert(after.files == before.files.insert(p, c));
            assert forall|i: int| 0 <= i < ls.len() implies (#[trigger] reimport_laws::record_at(
                base,
                ls,
                i,
            ) matches Some((s, q)) ==> (reimport_laws::is_merged(s.kind) ==> (import::held(
                after.files,
                q,
            ) matches Some(x) ==> valid_utf8(x)))) by {
                if let Some((s, q)) = reimport_laws::record_at(base, ls, i) {
                    assert(reimport_laws::record_at(base, ls, n - 1) is Some);
                    if q != p {
                        assert(import::held(after.files, q) == import::held(before.files, q));
                    }
                }
            }
        } else {
            assert(after.files == before.files);
        }
    }
}

/// What is known of a share after the lines of a snapshot.
proof fn lemma_named(base: Seq<char>, files: import::Files, ls: Seq<Seq<char>>, id: Seq<char>)
    requires
        import::after_lines(base, files, ls).failed is None,
    ensures
        ({
            let named = import::after_lines(base, files, ls).named;
            &&& forall|i: int, name: Seq<char>|
                0 <= i < ls.len() && snapshot::item_of(ls[i]) == #[trigger] said(i, id, name) && (
                forall|j: int|
                    i < j < ls.len() ==> !names_share(#[trigger] ls[j], id))
                    ==> reimport_laws::last_name(named, id) == Some(name)
            &&& (forall|j: int| 0 <= j < ls.len() ==> !names_share(#[trigger] ls[j], id))
                ==> reimport_laws::last_name(named, id) is None
        }),
    decreases ls.len(),
{
    if ls.len() > 0 {
        let h = ls.drop_last();
        let before = import::after_lines(base, files, h);
        assert(before.failed is None);
        lemma_named(base, files, h, id);
        let l = ls[ls.len() - 1];
        assert(ls.last() == l);
        let named = import::after_lines(base, files, ls).named;
        if let Item::Share(x, y) = snapshot::item_of(l) {
            assert(named.drop_last() =~= before.named);
            assert(named.last() == (x, y));
        } else {
            assert(named == before.named);
        }
        assert forall|i: int, name: Seq<char>|
            0 <= i < ls.len() && snapshot::item_of(ls[i]) == #[trigger] said(i, id, name) && (
            forall|j: int|
                i < j < ls.len() ==> !names_share(#[trigger] ls[j], id)) implies
            reimport_laws::last_name(named, id) == Some(name) by {
            if i < h.len() {
                assert(h[i] == ls[i]);
                assert(!names_share(ls[ls.len() - 1], id));
                assert forall|j: int| i < j < h.len() implies !names_share(#[trigger] h[j], id) by {
                    assert(h[j] == ls[j]);
                }
                assert(snapshot::item_of(h[i]) == said(i, id, name));
                assert(reimport_laws::last_name(before.named, id) == Some(name));
            }
        }
        if forall|j: int| 0 <= j < ls.len() ==> !names_share(#[trigger] ls[j], id) {
            assert forall|j: int| 0 <= j < h.len() implies !names_share(#[trigger] h[j], id) by {
                assert(h[j] == ls[j]);
            }
            assert(!names_share(ls[ls.len() - 1], id));
        }
    }
}

/// What the line `i` says where it names a share.
pub open spec fn said(i: int, id: Seq<char>, name: Seq<char>) -> Item {
    Item::Share(id, name)
}

/// Whether `line` names the share `id`.
pub open spec fn names_share(line: Seq<char>, id: Seq<char>) -> bool {
    snapshot::item_of(line) matches Item::Share(x, _) && x == id
}

/// After a snapshot was taken over, the shares that it names are known by the last name that it
/// gives them, and the others as before. A carriage return at the end of a name is lost.
pub proof fn law_named_shares_are_known(
    base: Seq<char>,
    files: import::Files,
    data: Seq<char>,
    i: int,
    id: Seq<char>,
    name: Seq<char>,
)
    requires
        import::imported(base, files, data).1 is None,
        0 <= i < text::lines_of(data).len(),
        snapshot::item_of(text::lines_of(data)[i]) == Item::Share(id, name),
        forall|j: int|
            i < j < text::lines_of(data).len() ==> !names_share(
                #[trigger] text::lines_of(data)[j],
                id,
            ),
    ensures
        ({
            let after = import::held(
                import::imported(base, files, data).0,
                import::remote_file(base),
            );
            &&& after is Some
            &&& valid_utf8(after->Some_0)
            &&& shares::remote_shares_in(Some(decode_utf8(after->Some_0))).dom().contains(id)
            &&& shares::remote_shares_in(Some(decode_utf8(after->Some_0)))[id] == text::strip_cr(
                name,
            )
        }),
{
    let ls = text::lines_of(data);
    assert(snapshot::item_of(ls[i]) == said(i, id, name));
    lemma_known_after(base, files, data, id);
}

/// Shares that a snapshot does not name are known as before when it was taken over.
pub proof fn law_other_shares_stay_known(
    base: Seq<char>,
    files: import::Files,
    data: Seq<char>,
    id: Seq<char>,
)
    requires
        import::imported(base, files, data).1 is None,
        reimport_laws::consistent(base, text::lines_of(data)),
        forall|j: int|
            0 <= j < text::lines_of(data).len() ==> !names_share(
                #[trigger] text::lines_of(data)[j],
                id,
            ),
    ensures
        ({
            let remote = import::remote_file(base);
            let before = reimport_laws::names_in(import::held(files, remote));
            let after = reimport_laws::names_in(
                import::held(import::imported(base, files, data).0, remote),
            );
            &&& after.dom().contains(id) <==> before.dom().contains(id)
            &&& before.dom().contains(id) ==> after[id] == text::strip_cr(before[id])
        }),
{
    let ls = text::lines_of(data);
    let n = ls.len() as int;
    lemma_known_after(base, files, data, id);
    assert(ls.take(n) =~= ls);
    lemma_remote_untouched(base, files, ls, n);
}

/// The lines of a snapshot do not touch the file with the names of remote shares.
proof fn lemma_remote_untouched(base: Seq<char>, files: import::Files, ls: Seq<Seq<char>>, n: int)
    requires
        0 <= n <= ls.len(),
        reimport_laws::consistent(base, ls),
    ensures
        import::held(
            import::after_lines(base, files, ls.take(n)).files,
            import::remote_file(base),
        ) == import::held(files, import::remote_file(base)),
    decreases n,
{
    if n == 0 {
        assert(ls.take(0) =~= Seq::<Seq<char>>::empty());
    } else {
        lemma_remote_untouched(base, files, ls, n - 1);
        assert(ls.take(n).drop_last() =~= ls.take(n - 1));
        assert(ls.take(n).last() == ls[n - 1]);
        if let Some((r, p)) = reimport_laws::record_at(base, ls, n - 1) {
            assert(p != import::remote_file(base));
        }
    }
}

proof fn lemma_known_after(
    base: Seq<char>,
    files: import::Files,
    data: Seq<char>,
    id: Seq<char>,
)
    requires
        import::imported(base, files, data).1 is None,
    ensures
        ({
            let ls = text::lines_of(data);
            let remote = import::remote_file(base);
            let p = import::after_lines(base, files, ls);
            let known = reimport_laws::names_in(import::held(p.files, remote));
            let b = import::held(import::imported(base, files, data).0, remote);
            let after = reimport_laws::names_in(b);
            &&& p.failed is None
            &&& b is Some && valid_utf8(b->Some_0)
            &&& after.dom().contains(id) <==> known.dom().contains(id) || reimport_laws::last_name(
                p.named,
                id,
            ) is Some
            &&& after.dom().contains(id) ==> after[id] == text::strip_cr(
                match reimport_laws::last_name(p.named, id) {
                    Some(name) => name,
                    None => known[id],
                },
            )
            &&& forall|i: int, name: Seq<char>|
                0 <= i < ls.len() && snapshot::item_of(ls[i]) == #[trigger] said(i, id, name) && (
                forall|j: int|
                    i < j < ls.len() ==> !names_share(#[trigger] ls[j], id))
                    ==> reimport_laws::last_name(p.named, id) == Some(name)
            &&& (forall|j: int| 0 <= j < ls.len() ==> !names_share(#[trigger] ls[j], id))
                ==> reimport_laws::last_name(p.named, id) is None
        }),
{
    let ls = text::lines_of(data);
    let remote = import::remote_file(base);
    let p = import::after_lines(base, files, ls);
    let known = reimport_laws::names_in(import::held(p.files, remote));
    lemma_named(base, files, ls, id);
    if let Some(b) = import::held(p.files, remote) {
        reimport_laws::lemma_entries_finite(
            text::lines_of(decode_utf8(b)),
            shares::remote_reader(),
        );
    }
    reimport_laws::lemma_remembered(known, p.named);
    let names = import::remembered(known, p.named);
    shares::law_saved_remote_shares_lose_ends(names);
    import_laws::lemma_text_of_bytes(shares::remote_shares_text(names));
    assert(names.dom().contains(id) <==> known.dom().contains(id) || reimport_laws::last_name(
        p.named,
        id,
    ) is Some);
}

/// The names of remote shares are kept in a file of the account.
pub proof fn law_where_remote_shares_are_kept(base: Seq<char>)
    requires
        base.len() > 0,
        base.last() != '/',
    ensures
        import::remote_file(base) == paths::plain(base + "/remote_shares.tsv"@),
{
    reveal_strlit("remote_shares.tsv");
    reveal_strlit("/remote_shares.tsv");
    assert(paths::joined_path(base, "remote_shares.tsv"@) =~= base + "/remote_shares.tsv"@);
}

/// The last line with its first column is the one that stays.
proof fn lemma_last_row(ls: Seq<Seq<char>>, i: int)
    requires
        0 <= i < ls.len(),
        manifest::row_key(ls[i]).len() > 0,
        forall|j: int| i < j < ls.len() ==> manifest::row_key(#[trigger] ls[j]) != manifest::row_key(
            ls[i],
        ),
    ensures
        manifest::rows_of(ls).dom().contains(manifest::row_key(ls[i])),
        manifest::rows_of(ls)[manifest::row_key(ls[i])] == ls[i],
    decreases ls.len(),
{
    if i < ls.len() - 1 {
        let r = ls.drop_last();
        assert(r[i] == ls[i]);
        assert forall|j: int| i < j < r.len() implies manifest::row_key(#[trigger] r[j])
            != manifest::row_key(r[i]) by {
            assert(r[j] == ls[j]);
        }
        lemma_last_row(r, i);
        assert(manifest::row_key(ls[ls.len() - 1]) != manifest::row_key(ls[i]));
    }
}

/// Whether a row with the first column `key` is among the lines of `s` behind the line `i`.
pub open spec fn has_row_behind(s: Seq<char>, i: int, key: Seq<char>) -> bool {
    exists|j: int|
        i < j < text::lines_of(s).len() && text::split_at_char(
            #[trigger] text::lines_of(s)[j],
            '\t',
        )[0] == key
}

/// Of the rows of two manifests that are merged, the last one of each path stays as it is, that of
/// the other device before that of this one, and none else, in the order of their paths.
pub proof fn law_last_row_of_a_path_stays(a: Seq<char>, b: Seq<char>, i: int)
    requires
        manifest::plain_lines(a),
        manifest::plain_lines(b),
    ensures
        ({
            let la = text::lines_of(a);
            let lb = text::lines_of(b);
            let merged = text::lines_of(manifest::merged_text(a, b));
            &&& 0 <= i < lb.len() && text::split_at_char(lb[i], '\t')[0].len() > 0
                && !has_row_behind(b, i, text::split_at_char(lb[i], '\t')[0]) ==> merged.contains(
                lb[i],
            )
            &&& 0 <= i < la.len() && text::split_at_char(la[i], '\t')[0].len() > 0
                && !has_row_behind(a, i, text::split_at_char(la[i], '\t')[0]) && !has_row_behind(
                b,
                -1,
                text::split_at_char(la[i], '\t')[0],
            ) ==> merged.contains(la[i])
            &&& 0 <= i < merged.len() ==> (la.contains(merged[i]) || lb.contains(merged[i]))
                && text::split_at_char(merged[i], '\t')[0].len() > 0
            &&& forall|j: int|
                0 <= i < j < merged.len() ==> order::before(
                    text::split_at_char(merged[i], '\t')[0],
                    text::split_at_char(#[trigger] merged[j], '\t')[0],
                )
        }),
{
    let la = text::lines_of(a);
    let lb = text::lines_of(b);
    let all = la + lb;
    let rows = manifest::merged_rows(a, b);
    let keys = ordmap::sorted(rows.dom());
    let merged = text::lines_of(manifest::merged_text(a, b));
    manifest::lemma_merged_read_back(a, b);
    manifest::lemma_rows_of(all);
    ordmap::lemma_sorted_exists(rows.dom());
    assert forall|j: int| 0 <= j < merged.len() implies manifest::row_key(#[trigger] merged[j])
        == keys[j] && all.contains(merged[j]) && keys[j].len() > 0 by {
        assert(keys.contains(keys[j]));
        assert(rows.dom().contains(keys[j]));
    }
    if 0 <= i < lb.len() && text::split_at_char(lb[i], '\t')[0].len() > 0 && !has_row_behind(
        b,
        i,
        text::split_at_char(lb[i], '\t')[0],
    ) {
        let k = la.len() + i;
        assert(all[k] == lb[i]);
        assert forall|j: int| k < j < all.len() implies manifest::row_key(#[trigger] all[j])
            != manifest::row_key(all[k]) by {
            assert(all[j] == lb[j - la.len()]);
        }
        lemma_last_row(all, k);
        lemma_row_is_line(a, b, lb[i]);
    }
    if 0 <= i < la.len() && text::split_at_char(la[i], '\t')[0].len() > 0 && !has_row_behind(
        a,
        i,
        text::split_at_char(la[i], '\t')[0],
    ) && !has_row_behind(b, -1, text::split_at_char(la[i], '\t')[0]) {
        assert(all[i] == la[i]);
        assert forall|j: int| i < j < all.len() implies manifest::row_key(#[trigger] all[j])
            != manifest::row_key(all[i]) by {
            if j < la.len() {
                assert(all[j] == la[j]);
            } else {
                assert(all[j] == lb[j - la.len()]);
            }
        }
        lemma_last_row(all, i);
        lemma_row_is_line(a, b, la[i]);
    }
    if 0 <= i < merged.len() {
        assert(all.contains(merged[i]));
        let j = choose|j: int| 0 <= j < all.len() && all[j] == merged[i];
        if j < la.len() {
            assert(la[j] == merged[i]);
        } else {
            assert(lb[j - la.len()] == merged[i]);
        }
    }
}

/// A row that stays is a line of the merged manifest.
proof fn lemma_row_is_line(a: Seq<char>, b: Seq<char>, l: Seq<char>)
    requires
        manifest::plain_lines(a),
        manifest::plain_lines(b),
        manifest::merged_rows(a, b).dom().contains(manifest::row_key(l)),
        manifest::merged_rows(a, b)[manifest::row_key(l)] == l,
    ensures
        text::lines_of(manifest::merged_text(a, b)).contains(l),
{
    let rows = manifest::merged_rows(a, b);
    let keys = ordmap::sorted(rows.dom());
    let merged = text::lines_of(manifest::merged_text(a, b));
    manifest::lemma_merged_read_back(a, b);
    ordmap::lemma_sorted_exists(rows.dom());
    assert(keys.contains(manifest::row_key(l)));
    let j = choose|j: int| 0 <= j < keys.len() && keys[j] == manifest::row_key(l);
    assert(merged[j] == l);
}

/// A merged document has the later clock of the two and the lines of both, and no other.
pub proof fn law_merged_documents(a: DocView, b: DocView, k: Seq<char>)
    ensures
        textdoc::merged(a, b).clock >= a.clock,
        textdoc::merged(a, b).clock >= b.clock,
        textdoc::merged(a, b).clock == a.clock || textdoc::merged(a, b).clock == b.clock,
        textdoc::merged(a, b).lines.dom().contains(k) <==> a.lines.dom().contains(k)
            || b.lines.dom().contains(k),
{
}

/// A text can be taken over wherever the document can be read and has numbers left for all of its
/// lines.
pub proof fn law_texts_can_be_taken_over(d: DocView, s: Seq<char>)
    requires
        textdoc::readable(d),
        d.clock + textdoc::lines_in(s).len() <= u64::MAX,
    ensures
        textdoc::takes(d, s),
{
}

/// A percent sign that begins no escape stands for itself, and each escape for its character.
pub proof fn law_escapes_are_read(s: Seq<char>)
    ensures
        codec::unescaped("%0A"@ + s) == seq!['\n'] + codec::unescaped(s),
        codec::unescaped("%09"@ + s) == seq!['\t'] + codec::unescaped(s),
        codec::unescaped("%25"@ + s) == seq!['%'] + codec::unescaped(s),
        !(s.len() >= 2 && ((s[0] == '0' && (s[1] == 'A' || s[1] == '9')) || (s[0] == '2' && s[1]
            == '5'))) ==> codec::unescaped(seq!['%'] + s) == seq!['%'] + codec::unescaped(s),
{
    reveal_strlit("%0A");
    reveal_strlit("%09");
    reveal_strlit("%25");
    assert(("%0A"@ + s).skip(3) =~= s);
    assert(("%09"@ + s).skip(3) =~= s);
    assert(("%25"@ + s).skip(3) =~= s);
    let p = seq!['%'] + s;
    assert(p.skip(1) =~= s);
    assert(s.len() >= 2 ==> p[1] == s[0] && p[2] == s[1]);
}

/// A file without an extension is written beside itself first, under its name with one.
#[verifier::spinoff_prover]
#[verifier::rlimit(60)]
pub proof fn law_extension_is_added(dir: Seq<char>, name: Seq<char>, new: Seq<char>)
    requires
        dir.len() > 0,
        paths::is_name(name),
        !name.contains('.'),
    ensures
        paths::extension_of(dir.push('/') + name) is None,
        paths::with_extension(dir.push('/') + name, new) == dir.push('/') + name + "."@ + new,
{
    let path = dir.push('/') + name;
    let n = path.len() as int;
    let b = dir.len() as int + 1;
    assert(name.contains(name[name.len() - 1]));
    assert(path[n - 1] == name[name.len() - 1]);
    paths::lemma_name_start(path, n);
    let s = paths::name_start(path, n);
    assert(path[dir.len() as int] == '/');
    if s > b {
        assert(path[s - 1] == name[s - 1 - b]);
        assert(name.contains(name[s - 1 - b]));
    }
    assert(s == b);
    assert(path.subrange(b, n) =~= name);
    if name[0] == '.' {
        assert(name.contains(name[0]));
    }
    assert(path[b] == name[0]);
    assert(name.contains(name[0]));
    assert(paths::last_name_before(path, n) == Some((b, n)));
    lemma_no_dot(name, name.len() as int);
    assert(path.take(n) =~= path);
}

proof fn lemma_no_dot(name: Seq<char>, n: int)
    requires
        0 <= n <= name.len(),
        !name.contains('.'),
    ensures
        paths::last_dot(name, n) is None,
    decreases n,
{
    if n > 0 {
        assert(name.contains(name[n - 1]));
        lemma_no_dot(name, n - 1);
    }
}

/// A hidden file is shared where what stands behind its last dot begins as the extension of a swap
/// file does and is shorter or longer.
pub proof fn law_longer_extensions_are_shared(name: Seq<char>, d: int)
    requires
        name.len() > 1,
        !name.contains('/'),
        is_ascii_chars(name),
        name[0] == '.',
        name[1] != '#',
        name != ".."@,
        name.last() != '~',
        !rule_laws::ends_in_any_case(name, ".tmp"@),
        !rule_laws::ends_in_any_case(name, ".temp"@),
        !rule_laws::ends_in_any_case(name, ".part"@),
        !rule_laws::ends_in_any_case(name, ".crdownload"@),
        name != ".DS_Store"@,
        0 < d < name.len(),
        name[d] == '.',
        forall|i: int| d < i < name.len() ==> name[i] != '.',
        name.len() - d - 1 != 3,
    ensures
        !ignore::ignored_name(name, false),
{
    let n = name.len() as int;
    rule_laws::lemma_leftovers(name);
    reveal_strlit("4913");
    reveal_strlit("Thumbs.db");
    reveal_strlit("desktop.ini");
    assert("4913"@[0] == '4' && "Thumbs.db"@[0] == 'T' && "desktop.ini"@[0] == 'd');
    assert forall|i: int| 0 <= i < n implies name[i] != '/' by {
        assert(name.contains(name[i]));
    }
    paths::lemma_one_name(name, n);
    assert(name.subrange(0, n) =~= name);
    rule_laws::lemma_last_dot_is(name, n, d);
    let ext = name.skip(d + 1);
    let low = text::lowered(ext);
    is_ascii_chars_nat_bound(name);
    assert(is_ascii_chars(low)) by {
        assert forall|i: int| 0 <= i < low.len() implies 0 <= (#[trigger] low[i]) as nat && (low[i]
            as nat) < 128 by {
            assert(low[i] == text::lower_char(ext[i]));
            assert(ext[i] == name[d + 1 + i]);
        }
    }
    is_ascii_chars_encode_utf8(low);
}

/// What is said after a login: the peers that were discovered, then what each of them has, and at
/// the end that nothing was found where none of them has a share.
pub proof fn law_discovery_is_said(
    peers: Seq<Seq<char>>,
    answers: Seq<Result<String, Error>>,
    i: int,
)
    requires
        answers.len() == peers.len(),
        0 <= i < peers.len(),
    ensures
        ({
            let n = peers.len() as int;
            let said = commands::discovery_said(peers, answers);
            let parts = commands::sections(peers, answers, n);
            let found = exists|k: int|
                0 <= k < n && (#[trigger] answers[k] matches Ok(s) && commands::remote_lines(
                    text::lines_of(s@),
                ).len() > 0);
            &&& said[0] == "discovered peers:"@
            &&& said[1 + i] == "  "@ + peers[i]
            &&& said[1 + n] == "available remote shares:"@
            &&& found ==> said == said.take(2 + n) + parts
            &&& !found ==> said == (said.take(2 + n) + parts).push("  none found yet"@)
        }),
        commands::sections(peers, answers, i + 1) == commands::sections(peers, answers, i)
            + commands::peer_section(
            peers[i],
            match answers[i] {
                Ok(s) => Ok(s@),
                Err(e) => Err(e.message@),
            },
        ),
        commands::sections(peers, answers, 0) == Seq::<Seq<char>>::empty(),
{
    let n = peers.len() as int;
    let said = commands::discovery_said(peers, answers);
    let parts = commands::sections(peers, answers, n);
    let found = exists|k: int|
        0 <= k < n && (#[trigger] answers[k] matches Ok(s) && commands::remote_lines(
            text::lines_of(s@),
        ).len() > 0);
    if commands::any_shares(answers, n) {
        let k = choose|k: int|
            0 <= k < n && commands::has_shares(commands::answer_view(#[trigger] answers[k]));
        assert(answers[k] is Ok);
        assert(found);
    }
    if found {
        let k = choose|k: int|
            0 <= k < n && (#[trigger] answers[k] matches Ok(s) && commands::remote_lines(
                text::lines_of(s@),
            ).len() > 0);
        assert(commands::has_shares(commands::answer_view(answers[k])));
        assert(said =~= said.take(2 + n) + parts);
    } else {
        assert(said =~= (said.take(2 + n) + parts).push("  none found yet"@));
    }
}

} // verus!
