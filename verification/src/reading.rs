//! The order in which the lines of a document are read, by their ways down from the root.

use vstd::prelude::*;

use crate::edit_laws;
use crate::order;
use crate::tree;

verus! {

/// The lines on the way down to `id` from the line `n` steps above it, that one left out.
pub open spec fn way_down(lines: tree::Lines, id: Seq<char>, n: nat) -> Seq<Seq<char>>
    decreases n,
{
    if n == 0 {
        Seq::empty()
    } else {
        way_down(lines, lines[id].parent, (n - 1) as nat).push(id)
    }
}

/// The lines on the way down from the root to `id`.
pub open spec fn path_to(lines: tree::Lines, id: Seq<char>) -> Seq<Seq<char>> {
    way_down(lines, id, choose|n: nat| tree::climbs(lines, id, tree::root(), n))
}

/// Whether the way `p` comes before the way `q`: it is the beginning of `q`, or where they part it
/// goes to the line with the later name.
pub open spec fn sooner(p: Seq<Seq<char>>, q: Seq<Seq<char>>) -> bool
    decreases p.len(),
{
    if q.len() == 0 {
        false
    } else if p.len() == 0 {
        true
    } else if p[0] != q[0] {
        order::before(q[0], p[0])
    } else {
        sooner(p.skip(1), q.skip(1))
    }
}

/// What ways begin with alike does not order them.
proof fn lemma_sooner_behind(p: Seq<Seq<char>>, a: Seq<Seq<char>>, b: Seq<Seq<char>>)
    ensures
        sooner(p + a, p + b) == sooner(a, b),
    decreases p.len(),
{
    if p.len() == 0 {
        assert(p + a =~= a);
        assert(p + b =~= b);
    } else {
        lemma_sooner_behind(p.skip(1), a, b);
        assert((p + a).skip(1) =~= p.skip(1) + a);
        assert((p + b).skip(1) =~= p.skip(1) + b);
    }
}

/// A way down goes past every line between.
proof fn lemma_way_past(lines: tree::Lines, k: Seq<char>, mid: Seq<char>, s: nat, d: nat)
    requires
        tree::climbs(lines, k, mid, s),
    ensures
        way_down(lines, k, s + d) == way_down(lines, mid, d) + way_down(lines, k, s),
        way_down(lines, k, s).len() == s,
    decreases s,
{
    if s == 0 {
        assert(way_down(lines, mid, d) + way_down(lines, k, s) =~= way_down(lines, mid, d));
    } else {
        lemma_way_past(lines, lines[k].parent, mid, (s - 1) as nat, d);
        assert(way_down(lines, k, s + d) =~= way_down(lines, mid, d) + way_down(lines, k, s));
    }
}

/// The way to a line that stands `s` steps below `top`.
proof fn lemma_path_below(lines: tree::Lines, k: Seq<char>, top: Seq<char>, s: nat, d: nat)
    requires
        tree::rooted(lines),
        d > 0,
        tree::climbs(lines, top, tree::root(), d),
        tree::climbs(lines, k, top, s),
    ensures
        path_to(lines, k) == way_down(lines, lines[top].parent, (d - 1) as nat) + (seq![top]
            + way_down(lines, k, s)),
        way_down(lines, k, s).len() == s,
{
    tree::lemma_climbs_on(lines, k, top, tree::root(), s, d);
    assert(tree::climbs(lines, k, tree::root(), s + d));
    let n = choose|n: nat| tree::climbs(lines, k, tree::root(), n);
    tree::lemma_one_distance(lines, k, n, s + d);
    lemma_way_past(lines, k, top, s, d);
    let before = way_down(lines, lines[top].parent, (d - 1) as nat);
    assert(way_down(lines, top, d) == before.push(top));
    assert(before.push(top) + way_down(lines, k, s) =~= before + (seq![top] + way_down(
        lines,
        k,
        s,
    )));
}

/// Lines below one line are walked over by their ways.
proof fn lemma_walk_by_ways(
    lines: tree::Lines,
    above: Seq<char>,
    ids: Seq<Seq<char>>,
    d: nat,
    depth: nat,
)
    requires
        lines.dom().finite(),
        tree::rooted(lines),
        d > 0,
        forall|i: int|
            0 <= i < ids.len() ==> tree::climbs(lines, #[trigger] ids[i], tree::root(), d)
                && lines[ids[i]].parent == above,
        forall|i: int, j: int|
            0 <= i < j < ids.len() ==> order::before(#[trigger] ids[j], #[trigger] ids[i]),
    ensures
        forall|i: int, j: int|
            0 <= i < j < tree::walk(lines, ids, depth).len() ==> sooner(
                path_to(lines, #[trigger] tree::walk(lines, ids, depth)[i]),
                path_to(lines, #[trigger] tree::walk(lines, ids, depth)[j]),
            ),
    decreases depth, ids.len(),
{
    let w = tree::walk(lines, ids, depth);
    if ids.len() > 0 {
        let top = ids[0];
        let rest = ids.drop_first();
        let ks = tree::kids(lines, top);
        let under = if depth == 0 {
            Seq::<Seq<char>>::empty()
        } else {
            tree::walk(lines, ks, (depth - 1) as nat)
        };
        let tail = tree::walk(lines, rest, depth);
        let o = 1 + under.len();
        assert(w == seq![top] + under + tail);
        assert(tree::climbs(lines, ids[0], tree::root(), d));
        tree::lemma_kids(lines, top);
        edit_laws::lemma_kids_descending(lines, top);
        assert forall|i: int| 0 <= i < ks.len() implies tree::climbs(
            lines,
            #[trigger] ks[i],
            tree::root(),
            d + 1,
        ) && lines[ks[i]].parent == top by {
            assert(ks.contains(ks[i]));
        }
        assert forall|i: int| 0 <= i < rest.len() implies tree::climbs(
            lines,
            #[trigger] rest[i],
            tree::root(),
            d,
        ) && lines[rest[i]].parent == above by {
            assert(rest[i] == ids[i + 1]);
        }
        assert forall|i: int, j: int| 0 <= i < j < rest.len() implies order::before(
            #[trigger] rest[j],
            #[trigger] rest[i],
        ) by {
            assert(rest[i] == ids[i + 1] && rest[j] == ids[j + 1]);
        }
        lemma_walk_by_ways(lines, above, rest, d, depth);
        if depth > 0 {
            lemma_walk_by_ways(lines, top, ks, d + 1, (depth - 1) as nat);
        }
        let pre = way_down(lines, above, (d - 1) as nat);
        assert(w.take(1 + under.len() as int) =~= seq![top] + under);
        assert forall|i: int, j: int| 0 <= i < j < w.len() implies sooner(
            path_to(lines, #[trigger] w[i]),
            path_to(lines, #[trigger] w[j]),
        ) by {
            if i >= o {
                assert(w[i] == tail[i - o] && w[j] == tail[j - o]);
            } else if i > 0 && j < o {
                assert(w[i] == under[i - 1] && w[j] == under[j - 1]);
            } else {
                // The first of the two is `top` or below it.
                let s = lemma_steps_to_top(lines, top, depth, w, under, i);
                lemma_path_below(lines, w[i], top, s, d);
                let u = seq![top] + way_down(lines, w[i], s);
                if j < o {
                    let t = lemma_steps_to_top(lines, top, depth, w, under, j);
                    lemma_path_below(lines, w[j], top, t, d);
                    assert(i == 0);
                    if s > 0 {
                        tree::lemma_climbs_on(lines, top, top, tree::root(), s, d);
                        tree::lemma_one_distance(lines, top, d, s + d);
                    }
                    let none = Seq::<Seq<char>>::empty();
                    let v = way_down(lines, w[j], t);
                    assert(pre + (seq![top] + way_down(lines, w[i], s)) =~= (pre + seq![top])
                        + none);
                    assert(pre + (seq![top] + v) =~= (pre + seq![top]) + v);
                    lemma_sooner_behind(pre + seq![top], none, v);
                } else {
                    assert(w[j] == tail[j - o]);
                    assert(tail.contains(w[j]));
                    tree::lemma_walk_members(lines, rest, depth, w[j]);
                    let (b, t) = choose|b: int, t: nat|
                        0 <= b < rest.len() && t <= depth && #[trigger] tree::climbs(
                            lines,
                            w[j],
                            rest[b],
                            t,
                        );
                    let other = rest[b];
                    lemma_path_below(lines, w[j], other, t, d);
                    let v = seq![other] + way_down(lines, w[j], t);
                    assert(order::before(ids[b + 1], ids[0]));
                    order::lemma_before_asymmetric(other, top);
                    lemma_sooner_behind(pre, u, v);
                    assert(u[0] == top && v[0] == other);
                }
            }
        }
    }
}

/// How many steps lead up to `top` from a line of the first part of a walk: none from `top`
/// itself, some from a line below it.
proof fn lemma_steps_to_top(
    lines: tree::Lines,
    top: Seq<char>,
    depth: nat,
    w: Seq<Seq<char>>,
    under: Seq<Seq<char>>,
    i: int,
) -> (s: nat)
    requires
        lines.dom().finite(),
        under == (if depth == 0 {
            Seq::<Seq<char>>::empty()
        } else {
            tree::walk(lines, tree::kids(lines, top), (depth - 1) as nat)
        }),
        0 <= i < 1 + under.len() <= w.len(),
        w.take(1 + under.len() as int) == seq![top] + under,
    ensures
        tree::climbs(lines, w[i], top, s),
        i > 0 ==> s > 0,
{
    let head = seq![top] + under;
    assert(w[i] == w.take(1 + under.len() as int)[i]);
    if i == 0 {
        0
    } else {
        let k = under[i - 1];
        let ks = tree::kids(lines, top);
        assert(head[i] == k);
        assert(under.contains(k));
        tree::lemma_walk_members(lines, ks, (depth - 1) as nat, k);
        let (a, t) = choose|a: int, t: nat|
            0 <= a < ks.len() && t <= depth - 1 && #[trigger] tree::climbs(lines, k, ks[a], t);
        tree::lemma_kids(lines, top);
        assert(ks.contains(ks[a]));
        assert(tree::climbs(lines, lines[ks[a]].parent, top, 0));
        assert(tree::climbs(lines, ks[a], top, 1));
        tree::lemma_climbs_on(lines, k, ks[a], top, t, 1);
        t + 1
    }
}

/// Lines are read, and shown, in the order of their ways down from the root: a line before those
/// below it, and of lines below one line that with the later name first, with all that is below
/// it.
pub proof fn law_lines_are_read_by_their_ways(lines: tree::Lines)
    requires
        lines.dom().finite(),
        tree::rooted(lines),
    ensures
        forall|i: int, j: int|
            0 <= i < j < tree::reading_order(lines).len() ==> sooner(
                path_to(lines, #[trigger] tree::reading_order(lines)[i]),
                path_to(lines, #[trigger] tree::reading_order(lines)[j]),
            ),
        forall|i: int, j: int|
            0 <= i < j < tree::visible(lines).len() ==> sooner(
                path_to(lines, #[trigger] tree::visible(lines)[i]),
                path_to(lines, #[trigger] tree::visible(lines)[j]),
            ),
{
    let ro = tree::reading_order(lines);
    let v = tree::visible(lines);
    let top = tree::kids(lines, tree::root());
    tree::lemma_kids(lines, tree::root());
    edit_laws::lemma_kids_descending(lines, tree::root());
    assert forall|i: int| 0 <= i < top.len() implies tree::climbs(
        lines,
        #[trigger] top[i],
        tree::root(),
        1,
    ) && lines[top[i]].parent == tree::root() by {
        assert(top.contains(top[i]));
        assert(tree::climbs(lines, lines[top[i]].parent, tree::root(), 0));
    }
    lemma_walk_by_ways(lines, tree::root(), top, 1, lines.dom().len());
    assert forall|i: int, j: int| 0 <= i < j < v.len() implies sooner(
        path_to(lines, #[trigger] v[i]),
        path_to(lines, #[trigger] v[j]),
    ) by {
        assert(edit_laws::precedes(v, v[i], v[j]));
        edit_laws::lemma_live_in_order(lines, ro, v[i], v[j]);
        let (a, b) = choose|a: int, b: int|
            0 <= a < b < ro.len() && #[trigger] ro[a] == v[i] && #[trigger] ro[b] == v[j];
        assert(sooner(path_to(lines, ro[a]), path_to(lines, ro[b])));
    }
}

} // verus!
