//! In which order a document shows the lines of a text that was taken over.

use vstd::prelude::*;

use crate::decimal;
use crate::doc_laws;
use crate::docfile;
use crate::history;
use crate::lcs;
use crate::order;
use crate::ordmap;
use crate::text;
use crate::textdoc;
use crate::textdoc::DocView;
use crate::tree;

verus! {

/// Whether `x` stands before `y` in `s`.
pub open spec fn precedes(s: Seq<Seq<char>>, x: Seq<char>, y: Seq<char>) -> bool {
    exists|i: int, j: int| 0 <= i < j < s.len() && #[trigger] s[i] == x && #[trigger] s[j] == y
}

/// The names in `ids` that are in `d`.
pub open spec fn only_in(ids: Seq<Seq<char>>, d: Set<Seq<char>>) -> Seq<Seq<char>>
    decreases ids.len(),
{
    if ids.len() == 0 {
        Seq::empty()
    } else {
        let rest = only_in(ids.drop_last(), d);
        if d.contains(ids.last()) {
            rest.push(ids.last())
        } else {
            rest
        }
    }
}

proof fn lemma_only_in_members(ids: Seq<Seq<char>>, d: Set<Seq<char>>)
    ensures
        forall|k: Seq<char>| #[trigger]
            only_in(ids, d).contains(k) <==> ids.contains(k) && d.contains(k),
    decreases ids.len(),
{
    if ids.len() > 0 {
        let r = ids.drop_last();
        lemma_only_in_members(r, d);
        let all = only_in(ids, d);
        let rest = only_in(r, d);
        assert forall|k: Seq<char>| #[trigger] all.contains(k) <==> ids.contains(k) && d.contains(
            k,
        ) by {
            if all.contains(k) {
                let i = choose|i: int| 0 <= i < all.len() && all[i] == k;
                if i < rest.len() {
                    assert(rest[i] == k);
                    assert(rest.contains(k));
                    let j = choose|j: int| 0 <= j < r.len() && r[j] == k;
                    assert(ids[j] == k);
                } else {
                    assert(ids[ids.len() - 1] == k);
                }
            }
            if ids.contains(k) && d.contains(k) {
                let j = choose|j: int| 0 <= j < ids.len() && ids[j] == k;
                if j < r.len() {
                    assert(r[j] == k);
                    assert(rest.contains(k));
                    let i = choose|i: int| 0 <= i < rest.len() && rest[i] == k;
                    assert(all[i] == k);
                } else {
                    assert(all[all.len() - 1] == k);
                }
            }
        }
    }
}

proof fn lemma_only_in_ascending(ids: Seq<Seq<char>>, d: Set<Seq<char>>)
    requires
        order::ascending(ids),
    ensures
        order::ascending(only_in(ids, d)),
    decreases ids.len(),
{
    if ids.len() > 0 {
        let r = ids.drop_last();
        assert(order::ascending(r)) by {
            assert forall|i: int, j: int| 0 <= i < j < r.len() implies order::before(
                #[trigger] r[i],
                #[trigger] r[j],
            ) by {
                assert(r[i] == ids[i] && r[j] == ids[j]);
            }
        }
        lemma_only_in_ascending(r, d);
        lemma_only_in_members(r, d);
        let all = only_in(ids, d);
        let rest = only_in(r, d);
        assert forall|i: int, j: int| 0 <= i < j < all.len() implies order::before(
            #[trigger] all[i],
            #[trigger] all[j],
        ) by {
            if j < rest.len() {
                assert(all[i] == rest[i] && all[j] == rest[j]);
            } else {
                assert(all[i] == rest[i]);
                assert(rest.contains(rest[i]));
                let a = choose|a: int| 0 <= a < r.len() && r[a] == rest[i];
                assert(ids[a] == rest[i]);
                assert(order::before(ids[a], ids[ids.len() - 1]));
            }
        }
    }
}

proof fn lemma_only_in_concat(a: Seq<Seq<char>>, b: Seq<Seq<char>>, d: Set<Seq<char>>)
    ensures
        only_in(a + b, d) == only_in(a, d) + only_in(b, d),
    decreases b.len(),
{
    if b.len() == 0 {
        assert(a + b =~= a);
        assert(only_in(a, d) + only_in(b, d) =~= only_in(a, d));
    } else {
        lemma_only_in_concat(a, b.drop_last(), d);
        assert((a + b).drop_last() =~= a + b.drop_last());
        assert((a + b).last() == b.last());
        assert(only_in(a + b, d) =~= only_in(a, d) + only_in(b, d));
    }
}

proof fn lemma_only_in_reverse(ids: Seq<Seq<char>>, d: Set<Seq<char>>)
    ensures
        only_in(ids.reverse(), d) == only_in(ids, d).reverse(),
    decreases ids.len(),
{
    if ids.len() == 0 {
        assert(ids.reverse() =~= ids);
        assert(only_in(ids, d).reverse() =~= only_in(ids, d));
    } else {
        let r = ids.drop_last();
        let one = seq![ids.last()];
        lemma_only_in_reverse(r, d);
        assert(ids.reverse() =~= one + r.reverse());
        lemma_only_in_concat(one, r.reverse(), d);
        assert(one.drop_last() =~= Seq::<Seq<char>>::empty());
        assert(only_in(one.drop_last(), d) =~= Seq::<Seq<char>>::empty());
        if d.contains(ids.last()) {
            assert(only_in(one, d) =~= one);
            assert(only_in(ids, d).reverse() =~= one + only_in(r, d).reverse());
        } else {
            assert(only_in(one, d) =~= Seq::<Seq<char>>::empty());
            assert(only_in(ids.reverse(), d) =~= only_in(r, d).reverse());
        }
    }
}

pub proof fn lemma_only_in_precedes(
    ids: Seq<Seq<char>>,
    d: Set<Seq<char>>,
    x: Seq<char>,
    y: Seq<char>,
)
    requires
        precedes(only_in(ids, d), x, y),
    ensures
        precedes(ids, x, y),
    decreases ids.len(),
{
    let all = only_in(ids, d);
    let (i, j) = choose|i: int, j: int|
        0 <= i < j < all.len() && #[trigger] all[i] == x && #[trigger] all[j] == y;
    let r = ids.drop_last();
    let rest = only_in(r, d);
    if j < rest.len() {
        assert(rest[i] == x && rest[j] == y);
        lemma_only_in_precedes(r, d, x, y);
        let (a, b) = choose|a: int, b: int|
            0 <= a < b < r.len() && #[trigger] r[a] == x && #[trigger] r[b] == y;
        assert(ids[a] == x && ids[b] == y);
    } else {
        assert(rest[i] == x);
        lemma_only_in_members(r, d);
        assert(rest.contains(x));
        let a = choose|a: int| 0 <= a < r.len() && r[a] == x;
        assert(ids[a] == x && ids[ids.len() - 1] == y);
    }
}

/// Lines that are shown are shown in the order of reading.
pub proof fn lemma_live_in_order(lines: tree::Lines, ids: Seq<Seq<char>>, x: Seq<char>, y: Seq<char>)
    ensures
        precedes(tree::live_in(lines, ids), x, y) ==> precedes(ids, x, y),
        precedes(ids, x, y) && !lines[x].tombstone && !lines[y].tombstone ==> precedes(
            tree::live_in(lines, ids),
            x,
            y,
        ),
    decreases ids.len(),
{
    if ids.len() > 0 {
        let r = ids.drop_last();
        let all = tree::live_in(lines, ids);
        let rest = tree::live_in(lines, r);
        lemma_live_in_order(lines, r, x, y);
        tree::lemma_live_in(lines, r);
        if precedes(all, x, y) {
            let (i, j) = choose|i: int, j: int|
                0 <= i < j < all.len() && #[trigger] all[i] == x && #[trigger] all[j] == y;
            if j < rest.len() {
                assert(rest[i] == x && rest[j] == y);
                let (a, b) = choose|a: int, b: int|
                    0 <= a < b < r.len() && #[trigger] r[a] == x && #[trigger] r[b] == y;
                assert(ids[a] == x && ids[b] == y);
            } else {
                assert(rest[i] == x);
                assert(rest.contains(x));
                let a = choose|a: int| 0 <= a < r.len() && r[a] == x;
                assert(ids[a] == x && ids[ids.len() - 1] == y);
            }
        }
        if precedes(ids, x, y) && !lines[x].tombstone && !lines[y].tombstone {
            let (i, j) = choose|i: int, j: int|
                0 <= i < j < ids.len() && #[trigger] ids[i] == x && #[trigger] ids[j] == y;
            if j < r.len() {
                assert(r[i] == x && r[j] == y);
                let (a, b) = choose|a: int, b: int|
                    0 <= a < b < rest.len() && #[trigger] rest[a] == x && #[trigger] rest[b] == y;
                assert(all[a] == x && all[b] == y);
            } else {
                assert(r[i] == x);
                assert(r.contains(x));
                assert(rest.contains(x));
                let a = choose|a: int| 0 <= a < rest.len() && rest[a] == x;
                assert(all[a] == x && all[all.len() - 1] == y);
            }
        }
    }
}

/// Whether `b` has the lines of `a`, each below the same line, and others only where no line of
/// `a` stands below them.
pub open spec fn grown_from(a: tree::Lines, b: tree::Lines) -> bool {
    &&& a.dom().subset_of(b.dom())
    &&& forall|x: Seq<char>| #[trigger]
        a.dom().contains(x) ==> b[x].parent == a[x].parent && (b.dom().contains(a[x].parent)
            ==> a.dom().contains(a[x].parent))
}

/// The lines below a line are in the order of their names.
proof fn lemma_kids_ascending(lines: tree::Lines, keys: Seq<Seq<char>>, id: Seq<char>)
    requires
        order::ascending(keys),
    ensures
        order::ascending(tree::below_in(lines, keys, id)),
    decreases keys.len(),
{
    if keys.len() > 0 {
        let r = keys.drop_last();
        assert(order::ascending(r)) by {
            assert forall|i: int, j: int| 0 <= i < j < r.len() implies order::before(
                #[trigger] r[i],
                #[trigger] r[j],
            ) by {
                assert(r[i] == keys[i] && r[j] == keys[j]);
            }
        }
        lemma_kids_ascending(lines, r, id);
        tree::lemma_below_in(lines, r, id);
        let all = tree::below_in(lines, keys, id);
        let rest = tree::below_in(lines, r, id);
        assert forall|i: int, j: int| 0 <= i < j < all.len() implies order::before(
            #[trigger] all[i],
            #[trigger] all[j],
        ) by {
            if j < rest.len() {
                assert(all[i] == rest[i] && all[j] == rest[j]);
            } else {
                assert(all[i] == rest[i]);
                assert(rest.contains(rest[i]));
                let a = choose|a: int| 0 <= a < r.len() && r[a] == rest[i];
                assert(keys[a] == rest[i]);
                assert(order::before(keys[a], keys[keys.len() - 1]));
            }
        }
    }
}

proof fn lemma_kids_within(a: tree::Lines, b: tree::Lines, x: Seq<char>)
    requires
        a.dom().finite(),
        b.dom().finite(),
        grown_from(a, b),
    ensures
        only_in(tree::kids(b, x), a.dom()) == tree::kids(a, x),
{
    let keys_a = ordmap::sorted(a.dom());
    let keys_b = ordmap::sorted(b.dom());
    let ka = tree::below_in(a, keys_a, x);
    let kb = tree::below_in(b, keys_b, x);
    let mine = only_in(kb, a.dom());
    ordmap::lemma_sorted_exists(a.dom());
    ordmap::lemma_sorted_exists(b.dom());
    lemma_kids_ascending(a, keys_a, x);
    lemma_kids_ascending(b, keys_b, x);
    lemma_only_in_ascending(kb, a.dom());
    lemma_only_in_members(kb, a.dom());
    tree::lemma_below_in(a, keys_a, x);
    tree::lemma_below_in(b, keys_b, x);
    let s = Set::new(|k: Seq<char>| a.dom().contains(k) && a[k].parent == x);
    assert(ordmap::lists(ka, s));
    assert(ordmap::lists(mine, s));
    ordmap::lemma_sorted_unique(ka, s);
    ordmap::lemma_sorted_unique(mine, s);
    lemma_only_in_reverse(kb, a.dom());
}

proof fn lemma_walk_within(a: tree::Lines, b: tree::Lines, ids: Seq<Seq<char>>, depth: nat)
    requires
        a.dom().finite(),
        b.dom().finite(),
        grown_from(a, b),
        forall|i: int| 0 <= i < ids.len() ==> b.dom().contains(#[trigger] ids[i]),
    ensures
        only_in(tree::walk(b, ids, depth), a.dom()) == tree::walk(
            a,
            only_in(ids, a.dom()),
            depth,
        ),
    decreases depth, ids.len(),
{
    let d = a.dom();
    if ids.len() == 0 {
        assert(tree::walk(b, ids, depth) =~= Seq::<Seq<char>>::empty());
        assert(only_in(ids, d) =~= Seq::<Seq<char>>::empty());
    } else {
        let x = ids[0];
        let rest = ids.drop_first();
        assert forall|i: int| 0 <= i < rest.len() implies b.dom().contains(#[trigger] rest[i]) by {
            assert(rest[i] == ids[i + 1]);
        }
        assert(b.dom().contains(ids[0]));
        lemma_walk_within(a, b, rest, depth);
        let none = Seq::<Seq<char>>::empty();
        let under = if depth == 0 {
            none
        } else {
            tree::walk(b, tree::kids(b, x), (depth - 1) as nat)
        };
        let mine = if depth == 0 {
            none
        } else {
            tree::walk(a, tree::kids(a, x), (depth - 1) as nat)
        };
        lemma_kids_within(a, b, x);
        tree::lemma_kids(a, x);
        tree::lemma_kids(b, x);
        if depth > 0 {
            let ks = tree::kids(b, x);
            assert forall|i: int| 0 <= i < ks.len() implies b.dom().contains(#[trigger] ks[i]) by {
                assert(ks.contains(ks[i]));
            }
            lemma_walk_within(a, b, ks, (depth - 1) as nat);
        } else {
            assert(only_in(none, d) =~= none);
        }
        assert(only_in(under, d) == mine);
        assert(ids =~= seq![x] + rest);
        lemma_only_in_concat(seq![x], rest, d);
        lemma_only_in_concat(seq![x] + under, tree::walk(b, rest, depth), d);
        lemma_only_in_concat(seq![x], under, d);
        assert(seq![x].drop_last() =~= none);
        assert(only_in(none, d) =~= none);
        assert(tree::walk(b, ids, depth) == seq![x] + under + tree::walk(b, rest, depth));
        let left = only_in(rest, d);
        if d.contains(x) {
            assert(only_in(seq![x], d) =~= seq![x]);
            let kept = seq![x] + left;
            assert(only_in(ids, d) =~= kept);
            assert(kept.drop_first() =~= left);
            assert(kept[0] == x);
            assert(tree::walk(a, kept, depth) == seq![x] + mine + tree::walk(a, left, depth));
            assert(only_in(tree::walk(b, ids, depth), d) =~= tree::walk(a, kept, depth));
        } else {
            assert(only_in(seq![x], d) =~= none);
            assert(only_in(ids, d) =~= left);
            assert(tree::kids(a, x).len() == 0) by {
                let ks = tree::kids(a, x);
                if ks.len() > 0 {
                    assert(ks.contains(ks[0]));
                }
            }
            assert(mine =~= none);
            assert(only_in(tree::walk(b, ids, depth), d) =~= tree::walk(a, left, depth));
        }
    }
}

/// Walking deeper than there are lines shows no more.
proof fn lemma_deep_walk(lines: tree::Lines, m: nat)
    requires
        lines.dom().finite(),
        tree::rooted(lines),
        m >= lines.dom().len(),
    ensures
        tree::walk(lines, tree::kids(lines, tree::root()), m) == tree::reading_order(lines),
    decreases m,
{
    if m > lines.dom().len() {
        let top = tree::kids(lines, tree::root());
        lemma_deep_walk(lines, (m - 1) as nat);
        tree::lemma_kids(lines, tree::root());
        assert forall|i: int| 0 <= i < top.len() implies tree::climbs(
            lines,
            #[trigger] top[i],
            tree::root(),
            1,
        ) by {
            assert(top.contains(top[i]));
            assert(tree::climbs(lines, lines[top[i]].parent, tree::root(), 0));
        }
        tree::lemma_walk_deep_enough(lines, top, 1, (m - 1) as nat);
        assert((m - 1) as nat + 1 == m);
    }
}

/// Lines that are added do not change the order of those that were there.
pub proof fn lemma_reading_order_within(a: tree::Lines, b: tree::Lines)
    requires
        a.dom().finite(),
        b.dom().finite(),
        tree::rooted(a),
        tree::rooted(b),
        grown_from(a, b),
    ensures
        only_in(tree::reading_order(b), a.dom()) == tree::reading_order(a),
{
    let top = tree::kids(b, tree::root());
    let n = b.dom().len();
    tree::lemma_kids(b, tree::root());
    assert forall|i: int| 0 <= i < top.len() implies b.dom().contains(#[trigger] top[i]) by {
        assert(top.contains(top[i]));
    }
    lemma_walk_within(a, b, top, n);
    lemma_kids_within(a, b, tree::root());
    vstd::set_lib::lemma_len_subset(a.dom(), b.dom());
    lemma_deep_walk(a, n);
}

/// On the walk from lines down, a line comes after the line that it stands below, unless it is
/// one of those from which the walk starts.
proof fn lemma_parent_first(lines: tree::Lines, ids: Seq<Seq<char>>, depth: nat, i: int)
    requires
        lines.dom().finite(),
        0 <= i < tree::walk(lines, ids, depth).len(),
    ensures
        ids.contains(tree::walk(lines, ids, depth)[i]) || exists|j: int|
            0 <= j < i && #[trigger] tree::walk(lines, ids, depth)[j] == lines[tree::walk(
                lines,
                ids,
                depth,
            )[i]].parent,
    decreases depth, ids.len(),
{
    let w = tree::walk(lines, ids, depth);
    if ids.len() > 0 {
        let x = ids[0];
        let rest = ids.drop_first();
        let under = if depth == 0 {
            Seq::<Seq<char>>::empty()
        } else {
            tree::walk(lines, tree::kids(lines, x), (depth - 1) as nat)
        };
        let tail = tree::walk(lines, rest, depth);
        assert(w == seq![x] + under + tail);
        if i == 0 {
            assert(ids.contains(ids[0]));
        } else if i < 1 + under.len() {
            let ks = tree::kids(lines, x);
            lemma_parent_first(lines, ks, (depth - 1) as nat, i - 1);
            assert(w[i] == under[i - 1]);
            tree::lemma_kids(lines, x);
            if ks.contains(under[i - 1]) {
                assert(w[0] == x);
                assert(lines[w[i]].parent == w[0]);
            } else {
                let j = choose|j: int| 0 <= j < i - 1 && #[trigger] under[j] == lines[under[i - 1]].parent;
                assert(w[j + 1] == under[j]);
            }
        } else {
            let o = 1 + under.len();
            lemma_parent_first(lines, rest, depth, i - o);
            assert(w[i] == tail[i - o]);
            if rest.contains(tail[i - o]) {
                let j = choose|j: int| 0 <= j < rest.len() && rest[j] == tail[i - o];
                assert(ids[j + 1] == rest[j]);
            } else {
                let j = choose|j: int| 0 <= j < i - o && #[trigger] tail[j] == lines[tail[i - o]].parent;
                assert(w[j + o] == tail[j]);
            }
        }
    }
}

/// A line is read after the line that it stands below.
pub proof fn law_line_follows_its_parent(lines: tree::Lines, k: Seq<char>)
    requires
        lines.dom().finite(),
        tree::rooted(lines),
        tree::attached(lines, k),
        lines[k].parent != tree::root(),
    ensures
        precedes(tree::reading_order(lines), lines[k].parent, k),
{
    let ro = tree::reading_order(lines);
    let top = tree::kids(lines, tree::root());
    tree::law_reading_order(lines);
    assert(ro.contains(k));
    let i = choose|i: int| 0 <= i < ro.len() && ro[i] == k;
    lemma_parent_first(lines, top, lines.dom().len(), i);
    tree::lemma_kids(lines, tree::root());
    assert(!top.contains(k));
    let j = choose|j: int| 0 <= j < i && #[trigger] ro[j] == lines[ro[i]].parent;
    assert(ro[j] == lines[k].parent && ro[i] == k);
}

/// What was written stays as it is while more is written.
proof fn lemma_typed_keeps(d: DocView, s: Seq<char>, device: Seq<char>, m: nat, n: nat, k: Seq<char>)
    requires
        d.lines.dom().finite(),
        textdoc::readable(d),
        doc_laws::numbers_ahead(d, device),
        m <= n <= textdoc::lines_in(s).len(),
        doc_laws::typed_so_far(d, s, device, m).doc.lines.dom().contains(k),
    ensures
        doc_laws::typed_so_far(d, s, device, n).doc.lines.dom().contains(k),
        doc_laws::typed_so_far(d, s, device, n).doc.lines[k] == doc_laws::typed_so_far(
            d,
            s,
            device,
            m,
        ).doc.lines[k],
    decreases n - m,
{
    if m < n {
        let h = (n - 1) as nat;
        lemma_typed_keeps(d, s, device, m, h, k);
        doc_laws::lemma_typed_well(d, s, device, h);
        let t = doc_laws::typed_so_far(d, s, device, h);
        if !textdoc::kept_new(textdoc::matching(d, s), h as int) {
            assert(k != textdoc::line_id(t.doc.clock + 1, device));
        }
    }
}

/// A new line stands below the line before it, or below the root at the beginning of the text.
pub proof fn law_new_line_stands_below_the_line_before(
    d: DocView,
    s: Seq<char>,
    device: Seq<char>,
    j: int,
)
    requires
        d.lines.dom().finite(),
        textdoc::readable(d),
        doc_laws::numbers_ahead(d, device),
        0 <= j < textdoc::lines_in(s).len(),
        !textdoc::kept_new(textdoc::matching(d, s), j),
    ensures
        textdoc::edited(d, s, device).lines[doc_laws::written(d, s, device, j)].parent == if j
            == 0 {
            tree::root()
        } else {
            doc_laws::written(d, s, device, j - 1)
        },
{
    let n = textdoc::lines_in(s).len();
    let t = doc_laws::typed_so_far(d, s, device, j as nat);
    let u = doc_laws::typed_so_far(d, s, device, (j + 1) as nat);
    let id = doc_laws::written(d, s, device, j);
    assert(u.doc.lines.dom().contains(id));
    assert(u.doc.lines[id].parent == t.last);
    lemma_typed_keeps(d, s, device, (j + 1) as nat, n, id);
    assert(doc_laws::typed_so_far(d, s, device, n).doc == textdoc::edited(d, s, device));
}

/// An edit adds lines to those that were there.
proof fn lemma_edit_grows(d: DocView, s: Seq<char>, device: Seq<char>)
    requires
        d.lines.dom().finite(),
        textdoc::readable(d),
        doc_laws::numbers_ahead(d, device),
    ensures
        grown_from(d.lines, textdoc::edited(d, s, device).lines),
{
    let n = textdoc::lines_in(s).len();
    let e = textdoc::edited(d, s, device);
    let old = tree::visible(d.lines);
    let p = textdoc::matching(d, s);
    doc_laws::lemma_typed_well(d, s, device, n);
    assert(doc_laws::typed_so_far(d, s, device, n).doc == e);
    assert forall|x: Seq<char>| #[trigger] d.lines.dom().contains(x) implies e.lines[x].parent
        == d.lines[x].parent && (e.lines.dom().contains(d.lines[x].parent)
        ==> d.lines.dom().contains(d.lines[x].parent)) by {
        assert(e.lines[x] == textdoc::struck(d.lines, old, p, old.len() as int)[x]);
        let y = d.lines[x].parent;
        if e.lines.dom().contains(y) && !d.lines.dom().contains(y) {
            assert(doc_laws::numbered(y, d.clock, e.clock, device));
            let c = choose|c: nat|
                d.clock < c <= e.clock && #[trigger] textdoc::line_id(c, device) == y;
            assert(d.lines[x].parent != textdoc::line_id(c, device));
        }
    }
    assert(d.lines.dom().subset_of(e.lines.dom())) by {
        assert forall|k: Seq<char>| d.lines.dom().contains(k) implies e.lines.dom().contains(k) by {}
    }
}

/// Where the lines of a text are shown once it was taken over: lines that were there before keep
/// their order, and a new line is shown behind the line that it was typed behind.
pub proof fn law_edit_order(d: DocView, s: Seq<char>, device: Seq<char>)
    requires
        d.lines.dom().finite(),
        textdoc::readable(d),
        doc_laws::numbers_ahead(d, device),
    ensures
        ({
            let v = tree::visible(textdoc::edited(d, s, device).lines);
            let p = textdoc::matching(d, s);
            let n = textdoc::lines_in(s).len();
            &&& forall|i: int, j: int|
                0 <= i < j < n && textdoc::kept_new(p, i) && textdoc::kept_new(p, j) ==> precedes(
                    v,
                    #[trigger] doc_laws::written(d, s, device, i),
                    #[trigger] doc_laws::written(d, s, device, j),
                )
            &&& forall|j: int|
                0 < j < n && !textdoc::kept_new(p, j) ==> precedes(
                    v,
                    doc_laws::written(d, s, device, j - 1),
                    #[trigger] doc_laws::written(d, s, device, j),
                )
        }),
{
    let e = textdoc::edited(d, s, device);
    let v = tree::visible(e.lines);
    let ro = tree::reading_order(e.lines);
    let old = tree::visible(d.lines);
    let p = textdoc::matching(d, s);
    let n = textdoc::lines_in(s).len();
    doc_laws::law_edit_content(d, s, device);
    lemma_edit_grows(d, s, device);
    lemma_reading_order_within(d.lines, e.lines);
    tree::law_visible(e.lines);
    lcs::lemma_matches_common(tree::texts(d.lines, old), textdoc::lines_in(s), 0, 0);
    assert forall|i: int, j: int|
        0 <= i < j < n && textdoc::kept_new(p, i) && textdoc::kept_new(p, j) implies precedes(
        v,
        #[trigger] doc_laws::written(d, s, device, i),
        #[trigger] doc_laws::written(d, s, device, j),
    ) by {
        let x = doc_laws::written(d, s, device, i);
        let y = doc_laws::written(d, s, device, j);
        let a = choose|a: int| 0 <= a < p.len() && (#[trigger] p[a]).1 == i;
        let b = choose|b: int| 0 <= b < p.len() && (#[trigger] p[b]).1 == j;
        assert(x == old[p[a].0]);
        assert(y == old[p[b].0]);
        if b < a {
            assert(p[b].1 < p[a].1);
        }
        assert(a < b);
        assert(p[a].0 < p[b].0);
        assert(precedes(old, x, y));
        lemma_live_in_order(d.lines, tree::reading_order(d.lines), x, y);
        lemma_only_in_precedes(ro, d.lines.dom(), x, y);
        assert(v.contains(x) && v.contains(y));
        lemma_live_in_order(e.lines, ro, x, y);
    }
    assert forall|j: int| 0 < j < n && !textdoc::kept_new(p, j) implies precedes(
        v,
        doc_laws::written(d, s, device, j - 1),
        #[trigger] doc_laws::written(d, s, device, j),
    ) by {
        let x = doc_laws::written(d, s, device, j - 1);
        let y = doc_laws::written(d, s, device, j);
        law_new_line_stands_below_the_line_before(d, s, device, j);
        assert(v.contains(x) && v.contains(y));
        assert(x != tree::root()) by {
            assert(tree::attached(e.lines, x));
        }
        law_line_follows_its_parent(e.lines, y);
        lemma_live_in_order(e.lines, ro, x, y);
    }
}

/// Where `x` stands in a list without repetitions.
proof fn lemma_one_place(s: Seq<Seq<char>>, x: Seq<char>, y: Seq<char>, i: int, j: int)
    requires
        s.no_duplicates(),
        precedes(s, x, y),
        0 <= i < s.len(),
        0 <= j < s.len(),
        s[i] == x,
        s[j] == y,
    ensures
        i < j,
{
    let (a, b) = choose|a: int, b: int|
        0 <= a < b < s.len() && #[trigger] s[a] == x && #[trigger] s[b] == y;
    assert(a == i && b == j);
}

/// The names of the lines of the text that a document was changed to, in their order.
pub open spec fn written_lines(d: DocView, s: Seq<char>, device: Seq<char>) -> Seq<Seq<char>> {
    Seq::new(textdoc::lines_in(s).len(), |j: int| doc_laws::written(d, s, device, j))
}

/// Whether the name of every line comes before the next number of the document, and so before
/// the name of every line that will be written.
pub open spec fn names_behind(d: DocView) -> bool {
    forall|k: Seq<char>| #[trigger]
        d.lines.dom().contains(k) ==> order::before(k, decimal::zero_padded(d.clock + 1, 20))
}

/// A name that comes before a number comes before later numbers, and before the lines that have
/// them.
proof fn lemma_name_behind(k: Seq<char>, m: nat, n: nat, device: Seq<char>)
    requires
        order::before(k, decimal::zero_padded(m, 20)),
        m <= n <= u64::MAX + 1,
    ensures
        order::before(k, decimal::zero_padded(n, 20)),
        order::before(k, textdoc::line_id(n, device)),
{
    let none = Seq::<char>::empty();
    let tail = seq!['@'] + device;
    let x = decimal::zero_padded(m, 20);
    let y = decimal::zero_padded(n, 20);
    assert(x + none =~= x);
    assert(y + none =~= y);
    assert(textdoc::line_id(n, device) =~= y + tail);
    if m < n {
        decimal::lemma_padded_order(m, n, none, none);
        decimal::lemma_padded_order(m, n, none, tail);
        order::lemma_before_transitive(k, x, y);
    } else {
        order::lemma_before_behind(y, none, tail);
    }
    order::lemma_before_transitive(k, x, textdoc::line_id(n, device));
}

/// Merging keeps the names behind the next number.
pub proof fn law_merge_names_behind(a: DocView, b: DocView)
    requires
        a.clock <= u64::MAX,
        b.clock <= u64::MAX,
        names_behind(a),
        names_behind(b),
    ensures
        names_behind(textdoc::merged(a, b)),
{
    let m = textdoc::merged(a, b);
    assert forall|k: Seq<char>| #[trigger] m.lines.dom().contains(k) implies order::before(
        k,
        decimal::zero_padded(m.clock + 1, 20),
    ) by {
        if a.lines.dom().contains(k) {
            lemma_name_behind(k, a.clock + 1, m.clock + 1, k);
        } else {
            assert(b.lines.dom().contains(k));
            lemma_name_behind(k, b.clock + 1, m.clock + 1, k);
        }
    }
}

/// An edit keeps the names behind the next number, whichever device makes it.
pub proof fn law_edit_names_behind(d: DocView, s: Seq<char>, device: Seq<char>)
    requires
        d.lines.dom().finite(),
        textdoc::takes(d, s),
        doc_laws::numbers_ahead(d, device),
        names_behind(d),
    ensures
        names_behind(textdoc::edited(d, s, device)),
        textdoc::edited(d, s, device).clock <= u64::MAX,
{
    let n = textdoc::lines_in(s).len();
    let e = textdoc::edited(d, s, device);
    doc_laws::lemma_typed_well(d, s, device, n);
    doc_laws::lemma_typed_clock(d, s, device, n);
    doc_laws::lemma_unmatched_in_text(d, s);
    assert(doc_laws::typed_so_far(d, s, device, n).doc == e);
    assert forall|k: Seq<char>| #[trigger] e.lines.dom().contains(k) implies order::before(
        k,
        decimal::zero_padded(e.clock + 1, 20),
    ) by {
        if d.lines.dom().contains(k) {
            lemma_name_behind(k, d.clock + 1, e.clock + 1, device);
        } else {
            let c = choose|c: nat|
                d.clock < c <= e.clock && #[trigger] textdoc::line_id(c, device) == k;
            let none = Seq::<char>::empty();
            let tail = seq!['@'] + device;
            decimal::lemma_padded_order(c, e.clock + 1, tail, none);
            assert(decimal::zero_padded(c, 20) + tail =~= k);
            assert(decimal::zero_padded(e.clock + 1, 20) + none =~= decimal::zero_padded(
                e.clock + 1,
                20,
            ));
        }
    }
}

/// An edit on one device keeps the numbers of every other device ahead.
pub proof fn law_edit_numbers_ahead(
    d: DocView,
    s: Seq<char>,
    device: Seq<char>,
    other: Seq<char>,
)
    requires
        d.lines.dom().finite(),
        textdoc::readable(d),
        doc_laws::numbers_ahead(d, device),
        doc_laws::numbers_ahead(d, other),
    ensures
        doc_laws::numbers_ahead(textdoc::edited(d, s, device), other),
{
    let n = textdoc::lines_in(s).len();
    let e = textdoc::edited(d, s, device);
    let old = tree::visible(d.lines);
    let p = textdoc::matching(d, s);
    doc_laws::lemma_typed_well(d, s, device, n);
    assert(doc_laws::typed_so_far(d, s, device, n).doc == e);
    assert forall|c: nat, k: Seq<char>|
        #![trigger textdoc::line_id(c, other), e.lines.dom().contains(k)]
        c > e.clock && e.lines.dom().contains(k) implies k != textdoc::line_id(c, other) by {
        if !d.lines.dom().contains(k) {
            let b = choose|b: nat|
                d.clock < b <= e.clock && #[trigger] textdoc::line_id(b, device) == k;
            if k == textdoc::line_id(c, other) {
                history::law_names_are_unique(b, device, c, other);
            }
        }
    }
    assert forall|c: nat, k: Seq<char>|
        #![trigger textdoc::line_id(c, other), e.lines.dom().contains(k)]
        c > e.clock && e.lines.dom().contains(k) implies k != textdoc::line_id(c, other)
        && e.lines[k].parent != textdoc::line_id(c, other) by {
        if d.lines.dom().contains(k) {
            assert(e.lines[k] == textdoc::struck(d.lines, old, p, old.len() as int)[k]);
        } else {
            let b = choose|b: nat|
                d.clock < b <= e.clock && #[trigger] textdoc::line_id(b, device) == k;
            let j = choose|j: int|
                0 <= j < n && doc_laws::written(d, s, device, j) == textdoc::line_id(b, device);
            assert(!textdoc::kept_new(p, j));
            law_new_line_stands_below_the_line_before(d, s, device, j);
            if j == 0 {
                doc_laws::lemma_line_id(c, c, other);
            } else {
                let y = doc_laws::written(d, s, device, j - 1);
                assert(tree::attached(e.lines, y));
                doc_laws::lemma_attached_is_line(e.lines, y);
            }
        }
    }
}

/// Whether a document is ready for the texts of every device: its names lie behind the next
/// number, and the numbers of every device are ahead.
pub open spec fn ready(d: DocView) -> bool {
    &&& d.clock <= u64::MAX
    &&& d.lines.dom().finite()
    &&& names_behind(d)
    &&& forall|device: Seq<char>| #[trigger] doc_laws::numbers_ahead(d, device)
}

/// A document that is ready can be read.
pub proof fn law_ready_doc_is_readable(d: DocView)
    requires
        ready(d),
    ensures
        textdoc::readable(d),
{
    if d.lines.dom().contains(tree::root()) {
        let x = decimal::zero_padded(d.clock + 1, 20);
        decimal::lemma_zero_padded(d.clock + 1, 20);
        reveal_strlit("ROOT");
        assert(decimal::is_digit(x[0]));
        assert(tree::root()[0] == 'R');
        assert(order::before(tree::root(), x));
    }
    tree::lemma_rooted_without_root_line(d.lines);
}

/// The document without lines is ready.
pub proof fn law_blank_doc_is_ready()
    ensures
        ready(doc_laws::blank_doc()),
{
    assert forall|device: Seq<char>| #[trigger] doc_laws::numbers_ahead(
        doc_laws::blank_doc(),
        device,
    ) by {}
}

/// Documents that are ready stay so when they are merged.
pub proof fn law_merged_doc_is_ready(a: DocView, b: DocView)
    requires
        ready(a),
        ready(b),
    ensures
        ready(textdoc::merged(a, b)),
{
    let m = textdoc::merged(a, b);
    law_merge_names_behind(a, b);
    assert(m.lines.dom() =~= a.lines.dom().union(b.lines.dom()));
    assert forall|device: Seq<char>| #[trigger] doc_laws::numbers_ahead(m, device) by {
        assert(doc_laws::numbers_ahead(a, device) && doc_laws::numbers_ahead(b, device));
        doc_laws::law_merge_numbers_ahead(a, b, device);
    }
}

/// A document that is ready stays so when it takes over a text, on whichever device. So is every
/// document that devices make by taking over texts and merging, and each shows the text that it
/// took over last: see [`law_edit_is_exact`].
pub proof fn law_edited_doc_is_ready(d: DocView, s: Seq<char>, device: Seq<char>)
    requires
        ready(d),
        textdoc::takes(d, s),
    ensures
        ready(textdoc::edited(d, s, device)),
        textdoc::rendered(textdoc::edited(d, s, device)) == doc_laws::ended(s),
{
    let e = textdoc::edited(d, s, device);
    assert(doc_laws::numbers_ahead(d, device));
    law_edit_names_behind(d, s, device);
    doc_laws::law_edit_content(d, s, device);
    law_edit_is_exact(d, s, device);
    assert forall|other: Seq<char>| #[trigger] doc_laws::numbers_ahead(e, other) by {
        assert(doc_laws::numbers_ahead(d, other));
        law_edit_numbers_ahead(d, s, device, other);
    }
}

/// Whether `y` stands right behind `x` in `s`.
spec fn adjacent(s: Seq<Seq<char>>, x: Seq<char>, y: Seq<char>) -> bool {
    exists|i: int| 0 <= i < s.len() - 1 && #[trigger] s[i] == x && s[i + 1] == y
}

/// The first line below a line is read right behind it.
proof fn lemma_first_below_is_next(
    lines: tree::Lines,
    ids: Seq<Seq<char>>,
    depth: nat,
    x: Seq<char>,
)
    requires
        lines.dom().finite(),
        tree::walk(lines, ids, depth).contains(x),
        !ids.contains(x),
        tree::kids(lines, lines[x].parent).len() > 0,
        tree::kids(lines, lines[x].parent)[0] == x,
    ensures
        adjacent(tree::walk(lines, ids, depth), lines[x].parent, x),
    decreases depth, ids.len(),
{
    let w = tree::walk(lines, ids, depth);
    let i = choose|i: int| 0 <= i < w.len() && w[i] == x;
    assert(ids.len() > 0);
    let top = ids[0];
    let rest = ids.drop_first();
    let ks = tree::kids(lines, top);
    let under = if depth == 0 {
        Seq::<Seq<char>>::empty()
    } else {
        tree::walk(lines, ks, (depth - 1) as nat)
    };
    let tail = tree::walk(lines, rest, depth);
    assert(w == seq![top] + under + tail);
    assert(ids.contains(ids[0]));
    assert(i > 0);
    let y = lines[x].parent;
    if i < 1 + under.len() {
        assert(under[i - 1] == x);
        assert(under.contains(x));
        tree::lemma_kids(lines, top);
        if ks.contains(x) {
            assert(y == top);
            assert(under[0] == ks[0]);
            assert(w[0] == y && w[1] == x);
        } else {
            lemma_first_below_is_next(lines, ks, (depth - 1) as nat, x);
            let k = choose|k: int| 0 <= k < under.len() - 1 && #[trigger] under[k] == y && under[k
                + 1] == x;
            assert(w[k + 1] == y && w[k + 1 + 1] == x);
        }
    } else {
        let o = 1 + under.len();
        assert(tail[i - o] == x);
        assert(tail.contains(x));
        if rest.contains(x) {
            let k = choose|k: int| 0 <= k < rest.len() && rest[k] == x;
            assert(ids[k + 1] == x);
        }
        lemma_first_below_is_next(lines, rest, depth, x);
        let k = choose|k: int| 0 <= k < tail.len() - 1 && #[trigger] tail[k] == y && tail[k + 1]
            == x;
        assert(w[k + o] == y && w[k + o + 1] == x);
    }
}

/// Of the lines below a line, a later name comes first.
pub proof fn lemma_kids_descending(lines: tree::Lines, id: Seq<char>)
    requires
        lines.dom().finite(),
    ensures
        forall|i: int, j: int|
            0 <= i < j < tree::kids(lines, id).len() ==> order::before(
                #[trigger] tree::kids(lines, id)[j],
                #[trigger] tree::kids(lines, id)[i],
            ),
{
    let keys = ordmap::sorted(lines.dom());
    ordmap::lemma_sorted_exists(lines.dom());
    lemma_kids_ascending(lines, keys, id);
    let below = tree::below_in(lines, keys, id);
    let ks = tree::kids(lines, id);
    let n = ks.len();
    assert forall|i: int, j: int| 0 <= i < j < n implies order::before(
        #[trigger] ks[j],
        #[trigger] ks[i],
    ) by {
        assert(ks[j] == below[n - 1 - j] && ks[i] == below[n - 1 - i]);
    }
}

/// A new line is the first of those below the line before it.
proof fn lemma_new_line_is_first(d: DocView, s: Seq<char>, device: Seq<char>, j: int)
    requires
        d.lines.dom().finite(),
        textdoc::takes(d, s),
        doc_laws::numbers_ahead(d, device),
        names_behind(d),
        0 <= j < textdoc::lines_in(s).len(),
        !textdoc::kept_new(textdoc::matching(d, s), j),
    ensures
        ({
            let e = textdoc::edited(d, s, device);
            let x = doc_laws::written(d, s, device, j);
            let ks = tree::kids(e.lines, e.lines[x].parent);
            ks.len() > 0 && ks[0] == x
        }),
{
    let n = textdoc::lines_in(s).len();
    let e = textdoc::edited(d, s, device);
    let p = textdoc::matching(d, s);
    let x = doc_laws::written(d, s, device, j);
    let y = e.lines[x].parent;
    let ks = tree::kids(e.lines, y);
    doc_laws::lemma_typed_well(d, s, device, n);
    doc_laws::lemma_typed_clock(d, s, device, n);
    doc_laws::lemma_unmatched_in_text(d, s);
    assert(doc_laws::typed_so_far(d, s, device, n).doc == e);
    doc_laws::law_edit_content(d, s, device);
    law_new_line_stands_below_the_line_before(d, s, device, j);
    doc_laws::lemma_attached_is_line(e.lines, x);
    tree::lemma_kids(e.lines, y);
    lemma_kids_descending(e.lines, y);
    assert(ks.contains(x));
    let a = choose|a: int| 0 <= a < ks.len() && ks[a] == x;
    if a > 0 {
        let k = ks[0];
        assert(ks.contains(k));
        assert(order::before(ks[a], ks[0]));
        order::lemma_before_asymmetric(x, k);
        assert(!d.lines.dom().contains(x));
        let c = choose|c: nat| d.clock < c <= e.clock && #[trigger] textdoc::line_id(c, device) == x;
        if d.lines.dom().contains(k) {
            lemma_name_behind(k, d.clock + 1, c, device);
        } else {
            let b = choose|b: nat|
                d.clock < b <= e.clock && #[trigger] textdoc::line_id(b, device) == k;
            let i = choose|i: int|
                0 <= i < n && doc_laws::written(d, s, device, i) == textdoc::line_id(b, device);
            assert(!textdoc::kept_new(p, i));
            law_new_line_stands_below_the_line_before(d, s, device, i);
            if i == 0 && j > 0 {
                assert(tree::attached(e.lines, doc_laws::written(d, s, device, j - 1)));
            } else if j == 0 && i > 0 {
                assert(tree::attached(e.lines, doc_laws::written(d, s, device, i - 1)));
            } else if i < j {
                assert(doc_laws::written(d, s, device, i - 1) != doc_laws::written(
                    d,
                    s,
                    device,
                    j - 1,
                ));
            } else if j < i {
                assert(doc_laws::written(d, s, device, j - 1) != doc_laws::written(
                    d,
                    s,
                    device,
                    i - 1,
                ));
            }
        }
    }
}

/// A line that was there before is read behind every line that stands before it in the text.
proof fn lemma_kept_line_is_behind(d: DocView, s: Seq<char>, device: Seq<char>, j: int, k: int)
    requires
        d.lines.dom().finite(),
        textdoc::takes(d, s),
        doc_laws::numbers_ahead(d, device),
        names_behind(d),
        0 <= j < k < textdoc::lines_in(s).len(),
        textdoc::kept_new(textdoc::matching(d, s), k),
    ensures
        precedes(
            tree::reading_order(textdoc::edited(d, s, device).lines),
            doc_laws::written(d, s, device, j),
            doc_laws::written(d, s, device, k),
        ),
    decreases j,
{
    let e = textdoc::edited(d, s, device);
    let p = textdoc::matching(d, s);
    let ro = tree::reading_order(e.lines);
    let top = tree::kids(e.lines, tree::root());
    let x = doc_laws::written(d, s, device, j);
    let z = doc_laws::written(d, s, device, k);
    doc_laws::law_edit_content(d, s, device);
    tree::law_visible(e.lines);
    tree::law_reading_order(e.lines);
    assert(x != z);
    assert(tree::visible(e.lines).contains(x) && tree::visible(e.lines).contains(z));
    assert(ro.contains(x) && ro.contains(z));
    let c = choose|c: int| 0 <= c < ro.len() && ro[c] == z;
    if textdoc::kept_new(p, j) {
        law_edit_order(d, s, device);
        lemma_live_in_order(e.lines, ro, x, z);
    } else {
        lemma_new_line_is_first(d, s, device, j);
        law_new_line_stands_below_the_line_before(d, s, device, j);
        if j == 0 {
            assert(ro[0] == top[0]);
            assert(ro[0] == x && ro[c] == z);
        } else {
            let y = doc_laws::written(d, s, device, j - 1);
            lemma_kept_line_is_behind(d, s, device, j - 1, k);
            tree::lemma_kids(e.lines, tree::root());
            assert(tree::visible(e.lines).contains(y));
            assert(y != tree::root());
            assert(!top.contains(x));
            lemma_first_below_is_next(e.lines, top, e.lines.dom().len(), x);
            let i = choose|i: int| 0 <= i < ro.len() - 1 && #[trigger] ro[i] == y && ro[i + 1] == x;
            lemma_one_place(ro, y, z, i, c);
            assert(ro[i + 1] == x && ro[c] == z);
        }
    }
}

/// A text that was taken over is shown exactly as it was saved, with a newline at its end,
/// whatever the document showed before: each of its lines, in their order, and no other.
pub proof fn law_edit_is_exact(d: DocView, s: Seq<char>, device: Seq<char>)
    requires
        d.lines.dom().finite(),
        textdoc::takes(d, s),
        doc_laws::numbers_ahead(d, device),
        names_behind(d),
    ensures
        tree::visible(textdoc::edited(d, s, device).lines) == written_lines(d, s, device),
        textdoc::rendered(textdoc::edited(d, s, device)) == doc_laws::ended(s),
{
    let e = textdoc::edited(d, s, device);
    let v = tree::visible(e.lines);
    let p = textdoc::matching(d, s);
    let new = textdoc::lines_in(s);
    let n = new.len();
    doc_laws::law_edit_content(d, s, device);
    law_edit_order(d, s, device);
    tree::law_visible(e.lines);
    let w = written_lines(d, s, device);
    assert forall|j: int| 0 < j < n implies precedes(v, #[trigger] w[j - 1], w[j]) by {
        let x = doc_laws::written(d, s, device, j - 1);
        let y = doc_laws::written(d, s, device, j);
        if textdoc::kept_new(p, j) {
            lemma_kept_line_is_behind(d, s, device, j - 1, j);
            assert(v.contains(x) && v.contains(y));
            lemma_live_in_order(e.lines, tree::reading_order(e.lines), x, y);
        } else {
            assert(w[j] == doc_laws::written(d, s, device, j));
        }
    }
    lemma_shown_in_order(d, s, device);
}

/// A text is shown exactly as it was saved, whatever the names of the lines, where no line that
/// was there before stands behind a new one: where lines were deleted, and new ones stand at the
/// end.
pub proof fn law_new_lines_at_the_end_are_exact(d: DocView, s: Seq<char>, device: Seq<char>)
    requires
        d.lines.dom().finite(),
        textdoc::readable(d),
        doc_laws::numbers_ahead(d, device),
        forall|i: int, j: int|
            0 <= i < j < textdoc::lines_in(s).len() && #[trigger] textdoc::kept_new(
                textdoc::matching(d, s),
                j,
            ) ==> #[trigger] textdoc::kept_new(textdoc::matching(d, s), i),
    ensures
        tree::texts(
            textdoc::edited(d, s, device).lines,
            tree::visible(textdoc::edited(d, s, device).lines),
        ) == textdoc::lines_in(s),
        textdoc::rendered(textdoc::edited(d, s, device)) == doc_laws::ended(s),
{
    let e = textdoc::edited(d, s, device);
    let v = tree::visible(e.lines);
    let p = textdoc::matching(d, s);
    let new = textdoc::lines_in(s);
    let n = new.len();
    doc_laws::law_edit_content(d, s, device);
    law_edit_order(d, s, device);
    tree::law_visible(e.lines);
    let w = written_lines(d, s, device);
    assert forall|j: int| 0 < j < n implies precedes(v, #[trigger] w[j - 1], w[j]) by {
        if textdoc::kept_new(p, j) {
            assert(textdoc::kept_new(p, j - 1));
            assert(precedes(
                v,
                doc_laws::written(d, s, device, j - 1),
                doc_laws::written(d, s, device, j),
            ));
        } else {
            assert(w[j] == doc_laws::written(d, s, device, j));
        }
    }
    lemma_shown_in_order(d, s, device);
}

/// A text that begins with the lines that a document shows, and has others behind them, is shown
/// exactly as it was saved, whatever the names of the lines.
pub proof fn law_appending_is_exact(d: DocView, s: Seq<char>, device: Seq<char>)
    requires
        d.lines.dom().finite(),
        textdoc::readable(d),
        doc_laws::numbers_ahead(d, device),
        tree::visible(d.lines).len() <= textdoc::lines_in(s).len(),
        textdoc::lines_in(s).take(tree::visible(d.lines).len() as int) == tree::texts(
            d.lines,
            tree::visible(d.lines),
        ),
    ensures
        textdoc::rendered(textdoc::edited(d, s, device)) == doc_laws::ended(s),
{
    let ts = tree::texts(d.lines, tree::visible(d.lines));
    let new = textdoc::lines_in(s);
    let p = textdoc::matching(d, s);
    lcs::lemma_matches_beginning(ts, new, 0);
    assert(p =~= Seq::new(ts.len(), |k: int| (k, k)));
    assert forall|i: int, j: int|
        0 <= i < j < new.len() && #[trigger] textdoc::kept_new(p, j) implies #[trigger] textdoc::kept_new(
        p,
        i,
    ) by {
        let k = choose|k: int| 0 <= k < p.len() && (#[trigger] p[k]).1 == j;
        assert(p[i].1 == i);
    }
    law_new_lines_at_the_end_are_exact(d, s, device);
}

/// Lines that are shown each behind the one before it are shown as the text has them.
proof fn lemma_shown_in_order(d: DocView, s: Seq<char>, device: Seq<char>)
    requires
        d.lines.dom().finite(),
        textdoc::readable(d),
        doc_laws::numbers_ahead(d, device),
        forall|j: int|
            0 < j < textdoc::lines_in(s).len() ==> precedes(
                tree::visible(textdoc::edited(d, s, device).lines),
                #[trigger] written_lines(d, s, device)[j - 1],
                written_lines(d, s, device)[j],
            ),
    ensures
        tree::visible(textdoc::edited(d, s, device).lines) == written_lines(d, s, device),
        tree::texts(
            textdoc::edited(d, s, device).lines,
            tree::visible(textdoc::edited(d, s, device).lines),
        ) == textdoc::lines_in(s),
        textdoc::rendered(textdoc::edited(d, s, device)) == doc_laws::ended(s),
{
    let e = textdoc::edited(d, s, device);
    let v = tree::visible(e.lines);
    let new = textdoc::lines_in(s);
    let n = new.len();
    let w = written_lines(d, s, device);
    doc_laws::law_edit_content(d, s, device);
    tree::law_visible(e.lines);
    assert forall|j: int| 0 <= j < n implies v.contains(#[trigger] w[j]) by {
        assert(w[j] == doc_laws::written(d, s, device, j));
    }
    assert forall|i: int| 0 <= i < v.len() implies w.contains(#[trigger] v[i]) by {
        assert(v.contains(v[i]));
        let j = choose|j: int|
            0 <= j < n && #[trigger] doc_laws::written(d, s, device, j) == v[i];
        assert(w[j] == v[i]);
    }
    lemma_in_order(v, w);
    assert(tree::texts(e.lines, v) =~= new) by {
        assert forall|j: int| 0 <= j < n implies tree::texts(e.lines, v)[j] == new[j] by {
            assert(w[j] == doc_laws::written(d, s, device, j));
        }
    }
    doc_laws::lemma_joined_lines(s);
}

/// Lines are filed under their names while the changed text is written.
proof fn lemma_typed_keyed(d: DocView, s: Seq<char>, device: Seq<char>, n: nat)
    requires
        tree::keyed(d.lines),
    ensures
        tree::keyed(doc_laws::typed_so_far(d, s, device, n).doc.lines),
    decreases n,
{
    let t = doc_laws::typed_so_far(d, s, device, n);
    if n > 0 {
        lemma_typed_keyed(d, s, device, (n - 1) as nat);
        let u = doc_laws::typed_so_far(d, s, device, (n - 1) as nat);
        assert forall|k: Seq<char>| #[trigger] t.doc.lines.dom().contains(k) implies t.doc.lines[k].id
            == k by {
            if u.doc.lines.dom().contains(k) {
                assert(u.doc.lines[k].id == k);
            }
        }
    } else {
        assert forall|k: Seq<char>| #[trigger] t.doc.lines.dom().contains(k) implies t.doc.lines[k].id
            == k by {
            assert(d.lines.dom().contains(k));
        }
    }
}

/// A text that was saved is shown again as it was saved once its document was changed, stored and
/// read back, and the document that is read back is ready for the next text.
pub proof fn law_saved_text_is_shown_again(
    file: Option<Seq<char>>,
    s: Seq<char>,
    device: Seq<char>,
)
    requires
        textdoc::takes(docfile::doc_in(file), s),
        doc_laws::numbers_ahead(docfile::doc_in(file), device),
        names_behind(docfile::doc_in(file)),
    ensures
        ({
            let stored = docfile::doc_text(textdoc::edited(docfile::doc_in(file), s, device));
            let d = docfile::doc_in(Some(stored));
            &&& d == textdoc::edited(docfile::doc_in(file), s, device)
            &&& textdoc::rendered(d) == doc_laws::ended(s)
            &&& textdoc::readable(d)
            &&& doc_laws::numbers_ahead(d, device)
            &&& names_behind(d)
        }),
{
    let d = docfile::doc_in(file);
    let e = textdoc::edited(d, s, device);
    if let Some(t) = file {
        docfile::lemma_read_doc(text::lines_of(t));
    }
    doc_laws::law_edit_content(d, s, device);
    law_edit_is_exact(d, s, device);
    law_edit_names_behind(d, s, device);
    lemma_typed_keyed(d, s, device, textdoc::lines_in(s).len());
    assert(doc_laws::typed_so_far(d, s, device, textdoc::lines_in(s).len()).doc == e);
    docfile::law_saved_doc_is_read_back(e);
}

/// A list without repetitions that holds the members of `w`, each behind the one before it, is
/// `w`.
pub proof fn lemma_in_order(v: Seq<Seq<char>>, w: Seq<Seq<char>>)
    requires
        v.no_duplicates(),
        forall|j: int| 0 <= j < w.len() ==> v.contains(#[trigger] w[j]),
        forall|i: int| 0 <= i < v.len() ==> w.contains(#[trigger] v[i]),
        forall|j: int| 0 < j < w.len() ==> precedes(v, #[trigger] w[j - 1], w[j]),
    ensures
        v == w,
{
    lemma_places(v, w, w.len() as int);
    if v.len() > w.len() {
        let x = v[w.len() as int];
        assert(w.contains(x));
        let j = choose|j: int| 0 <= j < w.len() && w[j] == x;
        assert(v[j] == x);
    }
    assert(v =~= w);
}

/// The first `n` members of `w` stand where they stand in `w`.
proof fn lemma_places(v: Seq<Seq<char>>, w: Seq<Seq<char>>, n: int)
    requires
        v.no_duplicates(),
        0 <= n <= w.len(),
        forall|j: int| 0 <= j < w.len() ==> v.contains(#[trigger] w[j]),
        forall|i: int| 0 <= i < v.len() ==> w.contains(#[trigger] v[i]),
        forall|j: int| 0 < j < w.len() ==> precedes(v, #[trigger] w[j - 1], w[j]),
    ensures
        v.len() >= n,
        forall|j: int| 0 <= j < n ==> #[trigger] v[j] == w[j],
    decreases n,
{
    if n > 0 {
        let m = n - 1;
        lemma_places(v, w, m);
        assert(v.contains(w[m]));
        let i = choose|i: int| 0 <= i < v.len() && v[i] == w[m];
        if m > 0 {
            assert(precedes(v, w[m - 1], w[m]));
            lemma_one_place(v, w[m - 1], w[m], m - 1, i);
        }
        if i > m {
            let x = v[m];
            assert(w.contains(x));
            let j = choose|j: int| 0 <= j < w.len() && w[j] == x;
            if j < m {
                assert(v[j] == x);
            } else if j > m {
                lemma_later(v, w, m, j, i, m);
            }
        }
        assert(v[m] == w[m]);
    }
}

/// A later member of `w` stands behind an earlier one.
proof fn lemma_later(v: Seq<Seq<char>>, w: Seq<Seq<char>>, a: int, b: int, i: int, j: int)
    requires
        v.no_duplicates(),
        0 <= a < b < w.len(),
        0 <= i < v.len(),
        0 <= j < v.len(),
        v[i] == w[a],
        v[j] == w[b],
        forall|k: int| 0 <= k < w.len() ==> v.contains(#[trigger] w[k]),
        forall|k: int| 0 < k < w.len() ==> precedes(v, #[trigger] w[k - 1], w[k]),
    ensures
        i < j,
    decreases b - a,
{
    assert(precedes(v, w[b - 1], w[b]));
    if b == a + 1 {
        assert(w[b - 1] == w[a]);
        lemma_one_place(v, w[a], w[b], i, j);
    } else {
        assert(v.contains(w[b - 1]));
        let k = choose|k: int| 0 <= k < v.len() && v[k] == w[b - 1];
        lemma_later(v, w, a, b - 1, i, k);
        lemma_one_place(v, w[b - 1], w[b], k, j);
    }
}

} // verus!
