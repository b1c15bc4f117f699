//! How little an edit changes in a document.

use vstd::prelude::*;

use crate::doc_laws;
use crate::edit_laws;
use crate::lcs;
use crate::textdoc;
use crate::textdoc::DocView;
use crate::tree;
use crate::tree::LineView;

verus! {

/// The lines that are deleted in `e` and were not in `d`.
pub open spec fn struck_out(d: DocView, e: DocView) -> Set<Seq<char>> {
    Set::new(
        |k: Seq<char>|
            d.lines.dom().contains(k) && !d.lines[k].tombstone && e.lines.dom().contains(k)
                && e.lines[k].tombstone,
    )
}

/// How many lines of a document and of a text are matched: as many as their longest common
/// subsequence has.
pub open spec fn matched(d: DocView, s: Seq<char>) -> nat {
    lcs::lcs_len(tree::texts(d.lines, tree::visible(d.lines)), textdoc::lines_in(s), 0, 0)
}

/// Whether no line has a name that `device` will give next.
pub open spec fn names_free(d: DocView, device: Seq<char>) -> bool {
    forall|c: nat| c > d.clock ==> !d.lines.dom().contains(#[trigger] textdoc::line_id(c, device))
}

/// While the changed text is written, a line is added for every line of it that is not matched,
/// and those that were there stay as they are.
proof fn lemma_lines_added(d: DocView, s: Seq<char>, device: Seq<char>, n: nat)
    requires
        d.lines.dom().finite(),
        names_free(d, device),
    ensures
        ({
            let old = tree::visible(d.lines);
            let p = textdoc::matching(d, s);
            let t = doc_laws::typed_so_far(d, s, device, n).doc;
            &&& t.clock == d.clock + doc_laws::unmatched(p, n)
            &&& t.lines.dom().finite()
            &&& t.lines.dom().len() == d.lines.dom().len() + doc_laws::unmatched(p, n)
            &&& forall|k: Seq<char>| #[trigger]
                t.lines.dom().contains(k) <==> d.lines.dom().contains(k) || doc_laws::numbered(
                    k,
                    d.clock,
                    t.clock,
                    device,
                )
            &&& forall|k: Seq<char>|
                d.lines.dom().contains(k) ==> #[trigger] t.lines[k] == textdoc::struck(
                    d.lines,
                    old,
                    p,
                    old.len() as int,
                )[k]
        }),
    decreases n,
{
    let old = tree::visible(d.lines);
    let p = textdoc::matching(d, s);
    let t = doc_laws::typed_so_far(d, s, device, n).doc;
    if n == 0 {
        assert(t.lines.dom() =~= d.lines.dom());
        assert forall|k: Seq<char>| !doc_laws::numbered(k, d.clock, d.clock, device) by {}
    } else {
        let m = (n - 1) as nat;
        lemma_lines_added(d, s, device, m);
        let u = doc_laws::typed_so_far(d, s, device, m).doc;
        if !textdoc::kept_new(p, m as int) {
            let c1 = u.clock + 1;
            let id = textdoc::line_id(c1, device);
            assert(!d.lines.dom().contains(id));
            if doc_laws::numbered(id, d.clock, u.clock, device) {
                let c = choose|c: nat|
                    d.clock < c <= u.clock && #[trigger] textdoc::line_id(c, device) == id;
                doc_laws::lemma_line_id(c, c1, device);
            }
            assert(!u.lines.dom().contains(id));
            assert(t.lines.dom() =~= u.lines.dom().insert(id));
            assert forall|k: Seq<char>| #[trigger] t.lines.dom().contains(k) <==> d.lines.dom().contains(
                k,
            ) || doc_laws::numbered(k, d.clock, c1, device) by {
                if u.lines.dom().contains(k) && !d.lines.dom().contains(k) {
                    let c = choose|c: nat|
                        d.clock < c <= u.clock && #[trigger] textdoc::line_id(c, device) == k;
                    assert(d.clock < c <= c1 && textdoc::line_id(c, device) == k);
                }
                if k == id {
                    assert(d.clock < c1 <= c1 && textdoc::line_id(c1, device) == k);
                }
                if doc_laws::numbered(k, d.clock, c1, device) && k != id {
                    let c = choose|c: nat|
                        d.clock < c <= c1 && #[trigger] textdoc::line_id(c, device) == k;
                    assert(doc_laws::numbered(k, d.clock, u.clock, device));
                }
            }
            assert forall|k: Seq<char>| d.lines.dom().contains(k) implies #[trigger] t.lines[k]
                == textdoc::struck(d.lines, old, p, old.len() as int)[k] by {
                assert(u.lines[k] == textdoc::struck(d.lines, old, p, old.len() as int)[k]);
            }
        }
    }
}

/// Of the first `n` old lines, all are dropped but those that are matched.
proof fn lemma_dropped_count(old: Seq<Seq<char>>, p: Seq<(int, int)>, n: nat) -> (q: nat)
    requires
        old.no_duplicates(),
        n <= old.len(),
        forall|k: int, l: int| 0 <= k < l < p.len() ==> (#[trigger] p[k]).0 < (#[trigger] p[l]).0,
        forall|k: int| 0 <= k < p.len() ==> 0 <= (#[trigger] p[k]).0,
    ensures
        q <= p.len(),
        forall|k: int| 0 <= k < q ==> (#[trigger] p[k]).0 < n,
        forall|k: int| q <= k < p.len() ==> (#[trigger] p[k]).0 >= n,
        Set::new(|k: Seq<char>| textdoc::dropped(old, p, n as int, k)).finite(),
        Set::new(|k: Seq<char>| textdoc::dropped(old, p, n as int, k)).len() + q == n,
    decreases n,
{
    let all = Set::new(|k: Seq<char>| textdoc::dropped(old, p, n as int, k));
    if n == 0 {
        assert(all =~= Set::empty());
        0
    } else {
        let m = n - 1;
        let q = lemma_dropped_count(old, p, m as nat);
        let head = Set::new(|k: Seq<char>| textdoc::dropped(old, p, m, k));
        assert forall|k: Seq<char>| all.contains(k) <==> head.contains(k) || (old[m] == k
            && !textdoc::kept_old(p, m)) by {
            textdoc::lemma_dropped_next(old, p, m, k);
        }
        if textdoc::kept_old(p, m) {
            assert(all =~= head);
            let k = choose|k: int| 0 <= k < p.len() && (#[trigger] p[k]).0 == m;
            if q < k {
                assert(p[q as int].0 < p[k].0);
            }
            assert(k == q);
            assert forall|l: int| q + 1 <= l < p.len() implies (#[trigger] p[l]).0 >= n by {
                assert(p[k].0 < p[l].0);
            }
            q + 1
        } else {
            assert(all =~= head.insert(old[m]));
            if head.contains(old[m]) {
                let i = choose|i: int|
                    0 <= i < m && i < old.len() && #[trigger] old[i] == old[m]
                        && !textdoc::kept_old(p, i);
                assert(old[i] != old[m]);
            }
            assert forall|l: int| q <= l < p.len() implies (#[trigger] p[l]).0 >= n by {
                if p[l].0 == m {
                    assert(textdoc::kept_old(p, m));
                }
            }
            q
        }
    }
}

/// An edit changes no more than it must. Exactly the lines of the text that are not matched are
/// added, with the numbers that follow the last one, and exactly the shown lines that are not
/// matched are deleted. Nothing else changes, and as many lines are matched as the longest common
/// subsequence has.
pub proof fn law_edit_is_minimal(d: DocView, s: Seq<char>, device: Seq<char>)
    requires
        d.lines.dom().finite(),
        textdoc::readable(d),
        names_free(d, device),
    ensures
        ({
            let e = textdoc::edited(d, s, device);
            let added = textdoc::lines_in(s).len() - matched(d, s);
            &&& added >= 0
            &&& e.clock == d.clock + added
            &&& e.lines.dom().len() == d.lines.dom().len() + added
            &&& forall|k: Seq<char>| #[trigger]
                e.lines.dom().contains(k) <==> d.lines.dom().contains(k) || doc_laws::numbered(
                    k,
                    d.clock,
                    e.clock,
                    device,
                )
            &&& forall|c: nat|
                d.clock < c <= e.clock ==> !d.lines.dom().contains(
                    #[trigger] textdoc::line_id(c, device),
                )
            &&& struck_out(d, e).finite()
            &&& struck_out(d, e).len() + matched(d, s) == tree::visible(d.lines).len()
            &&& forall|k: Seq<char>| #[trigger]
                d.lines.dom().contains(k) ==> e.lines[k] == if struck_out(d, e).contains(k) {
                    LineView { tombstone: true, ..d.lines[k] }
                } else {
                    d.lines[k]
                }
        }),
{
    let e = textdoc::edited(d, s, device);
    let n = textdoc::lines_in(s).len();
    let p = textdoc::matching(d, s);
    let old = tree::visible(d.lines);
    let ts = tree::texts(d.lines, old);
    doc_laws::lemma_unmatched_in_text(d, s);
    lemma_lines_added(d, s, device, n);
    assert(doc_laws::typed_so_far(d, s, device, n).doc == e);
    lcs::lemma_matches_common(ts, textdoc::lines_in(s), 0, 0);
    tree::law_visible(d.lines);
    let q = lemma_dropped_count(old, p, old.len());
    if q < p.len() {
        assert(p[q as int].0 >= old.len());
    }
    let gone = Set::new(|k: Seq<char>| textdoc::dropped(old, p, old.len() as int, k));
    assert forall|k: Seq<char>| gone.contains(k) <==> struck_out(d, e).contains(k) by {
        if gone.contains(k) {
            let i = choose|i: int|
                0 <= i < old.len() && #[trigger] old[i] == k && !textdoc::kept_old(p, i);
            assert(old.contains(k));
            doc_laws::lemma_attached_is_line(d.lines, k);
            assert(e.lines[k] == textdoc::struck(d.lines, old, p, old.len() as int)[k]);
        }
        if struck_out(d, e).contains(k) {
            assert(e.lines[k] == textdoc::struck(d.lines, old, p, old.len() as int)[k]);
        }
    }
    assert(gone =~= struck_out(d, e));
    assert forall|k: Seq<char>| #[trigger] d.lines.dom().contains(k) implies e.lines[k]
        == if struck_out(d, e).contains(k) {
        LineView { tombstone: true, ..d.lines[k] }
    } else {
        d.lines[k]
    } by {
        assert(e.lines[k] == textdoc::struck(d.lines, old, p, old.len() as int)[k]);
        assert(gone.contains(k) <==> struck_out(d, e).contains(k));
    }
}

/// Whether the positions `at`, in ascending order, say where the lines `part` stand in `whole`.
pub open spec fn stands_at(part: Seq<Seq<char>>, whole: Seq<Seq<char>>, at: Seq<int>) -> bool {
    &&& at.len() == part.len()
    &&& forall|j: int|
        0 <= j < at.len() ==> 0 <= #[trigger] at[j] < whole.len() && whole[at[j]] == part[j]
    &&& forall|i: int, j: int| 0 <= i < j < at.len() ==> #[trigger] at[i] < #[trigger] at[j]
}

/// Where no line is left unmatched, each is matched.
proof fn lemma_all_matched(p: Seq<(int, int)>, n: nat)
    requires
        doc_laws::unmatched(p, n) == 0,
    ensures
        forall|j: int| 0 <= j < n ==> #[trigger] textdoc::kept_new(p, j),
    decreases n,
{
    if n > 0 {
        lemma_all_matched(p, (n - 1) as nat);
    }
}

/// A text that is made of some of the shown lines, in their order, adds no line and takes no
/// number, and it is shown as it is. One that is made of all of them changes nothing at all.
pub proof fn law_deleting_adds_nothing(d: DocView, s: Seq<char>, device: Seq<char>, at: Seq<int>)
    requires
        d.lines.dom().finite(),
        textdoc::readable(d),
        stands_at(textdoc::lines_in(s), tree::texts(d.lines, tree::visible(d.lines)), at),
    ensures
        ({
            let e = textdoc::edited(d, s, device);
            &&& e.lines.dom() == d.lines.dom()
            &&& e.clock == d.clock
            &&& tree::texts(e.lines, tree::visible(e.lines)) == textdoc::lines_in(s)
            &&& textdoc::rendered(e) == doc_laws::ended(s)
            &&& textdoc::lines_in(s) == tree::texts(d.lines, tree::visible(d.lines)) ==> e == d
        }),
{
    let e = textdoc::edited(d, s, device);
    let new = textdoc::lines_in(s);
    let n = new.len();
    let p = textdoc::matching(d, s);
    let old = tree::visible(d.lines);
    let ts = tree::texts(d.lines, old);
    let lines = textdoc::struck(d.lines, old, p, old.len() as int);
    lcs::lemma_matches_common(ts, new, 0, 0);
    let whole = Seq::new(n, |j: int| (at[j], j));
    assert(lcs::common(ts, new, whole)) by {
        assert forall|k: int| 0 <= k < whole.len() implies 0 <= (#[trigger] whole[k]).0 < ts.len()
            && 0 <= whole[k].1 < new.len() && ts[whole[k].0] == new[whole[k].1] by {
            assert(whole[k].0 == at[k]);
        }
        assert forall|k: int, l: int| 0 <= k < l < whole.len() implies (#[trigger] whole[k]).0 < (
        #[trigger] whole[l]).0 && whole[k].1 < whole[l].1 by {
            assert(at[k] < at[l]);
        }
    }
    lcs::law_matches_are_longest(ts, new, whole);
    doc_laws::lemma_unmatched_in_text(d, s);
    lemma_all_matched(p, n);
    doc_laws::lemma_all_kept(DocView { clock: d.clock, lines }, old, new, p, device, n);
    assert(e.lines == lines);
    assert(lines.dom() =~= d.lines.dom());
    if new == ts {
        lcs::lemma_matches_same(ts, 0);
        assert forall|i: int| 0 <= i < old.len() implies #[trigger] textdoc::kept_old(p, i) by {
            assert(p[i].0 == i);
        }
        assert(lines =~= d.lines);
    }
    assert(edit_laws::grown_from(d.lines, lines));
    assert forall|k: Seq<char>|
        d.lines.dom().contains(k) || k == tree::root() implies #[trigger] tree::attached(lines, k)
        == tree::attached(d.lines, k) by {
        doc_laws::lemma_same_attached(d.lines, lines, k);
    }
    assert(tree::attached(lines, tree::root()) == tree::attached(d.lines, tree::root()));
    edit_laws::lemma_reading_order_within(d.lines, lines);
    tree::law_visible(d.lines);
    tree::law_visible(lines);
    let v = tree::visible(lines);
    let ro = tree::reading_order(lines);
    let w = Seq::new(n, |j: int| old[textdoc::partner(p, j)]);
    assert forall|j: int| 0 <= j < n implies v.contains(#[trigger] w[j]) by {
        lemma_partner(d, s, j);
        let i = textdoc::partner(p, j);
        let k = old[i];
        assert(old.contains(k));
        doc_laws::lemma_attached_is_line(d.lines, k);
        if textdoc::dropped(old, p, old.len() as int, k) {
            let a = choose|a: int|
                0 <= a < old.len() && #[trigger] old[a] == k && !textdoc::kept_old(p, a);
            assert(a == i);
        }
        assert(tree::attached(lines, k));
    }
    assert forall|i: int| 0 <= i < v.len() implies w.contains(#[trigger] v[i]) by {
        let k = v[i];
        assert(v.contains(k));
        doc_laws::lemma_attached_is_line(lines, k);
        assert(tree::attached(d.lines, k));
        assert(old.contains(k));
        let a = choose|a: int| 0 <= a < old.len() && old[a] == k;
        assert(textdoc::kept_old(p, a));
        let x = choose|x: int| 0 <= x < p.len() && (#[trigger] p[x]).0 == a;
        let j = p[x].1;
        let y = choose|y: int| 0 <= y < p.len() && (#[trigger] p[y]).1 == j;
        if x < y {
            assert(p[x].1 < p[y].1);
        } else if y < x {
            assert(p[y].1 < p[x].1);
        }
        assert(w[j] == k);
    }
    assert forall|j: int| 0 < j < n implies edit_laws::precedes(v, #[trigger] w[j - 1], w[j]) by {
        lemma_partner(d, s, j - 1);
        lemma_partner(d, s, j);
        lemma_partners_ascend(d, s, j - 1, j);
        let x = w[j - 1];
        let y = w[j];
        assert(old[textdoc::partner(p, j - 1)] == x && old[textdoc::partner(p, j)] == y);
        assert(edit_laws::precedes(old, x, y));
        edit_laws::lemma_live_in_order(d.lines, tree::reading_order(d.lines), x, y);
        edit_laws::lemma_only_in_precedes(ro, d.lines.dom(), x, y);
        assert(v.contains(w[j - 1]) && v.contains(w[j]));
        edit_laws::lemma_live_in_order(lines, ro, x, y);
    }
    edit_laws::lemma_in_order(v, w);
    assert(tree::texts(lines, v) =~= new) by {
        assert forall|j: int| 0 <= j < n implies tree::texts(lines, v)[j] == new[j] by {
            lemma_partner(d, s, j);
            let i = textdoc::partner(p, j);
            assert(old.contains(old[i]));
            doc_laws::lemma_attached_is_line(d.lines, old[i]);
            assert(v[j] == w[j]);
            assert(ts[i] == d.lines[old[i]].text);
        }
    }
    doc_laws::lemma_joined_lines(s);
}

/// A line that is matched says what its partner says.
proof fn lemma_partner(d: DocView, s: Seq<char>, j: int)
    requires
        textdoc::kept_new(textdoc::matching(d, s), j),
    ensures
        ({
            let i = textdoc::partner(textdoc::matching(d, s), j);
            let ts = tree::texts(d.lines, tree::visible(d.lines));
            &&& 0 <= i < tree::visible(d.lines).len()
            &&& textdoc::kept_old(textdoc::matching(d, s), i)
            &&& ts[i] == textdoc::lines_in(s)[j]
        }),
{
    let p = textdoc::matching(d, s);
    let ts = tree::texts(d.lines, tree::visible(d.lines));
    lcs::lemma_matches_common(ts, textdoc::lines_in(s), 0, 0);
    let k = choose|k: int| 0 <= k < p.len() && (#[trigger] p[k]).1 == j;
    assert(p[k].0 == textdoc::partner(p, j));
}

/// The partners of matched lines stand in the order of the lines.
proof fn lemma_partners_ascend(d: DocView, s: Seq<char>, i: int, j: int)
    requires
        i < j,
        textdoc::kept_new(textdoc::matching(d, s), i),
        textdoc::kept_new(textdoc::matching(d, s), j),
    ensures
        textdoc::partner(textdoc::matching(d, s), i) < textdoc::partner(
            textdoc::matching(d, s),
            j,
        ),
{
    let p = textdoc::matching(d, s);
    let ts = tree::texts(d.lines, tree::visible(d.lines));
    lcs::lemma_matches_common(ts, textdoc::lines_in(s), 0, 0);
    let a = choose|a: int| 0 <= a < p.len() && (#[trigger] p[a]).1 == i;
    let b = choose|b: int| 0 <= b < p.len() && (#[trigger] p[b]).1 == j;
    if b < a {
        assert(p[b].1 < p[a].1);
    }
    assert(p[a].0 < p[b].0);
}

} // verus!
