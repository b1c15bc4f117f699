//! The lines of a document as a tree: every line names the line that it stands below, and the
//! document reads as the walk from the root, each line before the lines below it.

use vstd::prelude::*;

use crate::order;
use crate::ordmap;

verus! {

/// One line of a document.
#[verifier::ext_equal]
pub struct LineView {
    /// Its name, which no other line of the document has.
    pub id: Seq<char>,
    /// The name of the line that it stands below.
    pub parent: Seq<char>,
    /// Whether it is deleted.
    pub tombstone: bool,
    /// What it says.
    pub text: Seq<char>,
}

/// The lines of a document by their names.
pub type Lines = Map<Seq<char>, LineView>;

/// The name that stands for the beginning of every document.
pub open spec fn root() -> Seq<char> {
    "ROOT"@
}

/// Whether every line is filed under its own name.
pub open spec fn keyed(lines: Lines) -> bool {
    forall|k: Seq<char>| #[trigger] lines.dom().contains(k) ==> lines[k].id == k
}

/// The names in `keys` of lines that stand directly below `id`.
pub open spec fn below_in(lines: Lines, keys: Seq<Seq<char>>, id: Seq<char>) -> Seq<Seq<char>>
    decreases keys.len(),
{
    if keys.len() == 0 {
        Seq::empty()
    } else {
        let rest = below_in(lines, keys.drop_last(), id);
        if lines[keys.last()].parent == id {
            rest.push(keys.last())
        } else {
            rest
        }
    }
}

/// The lines directly below `id`, the last in the order of their names first: a line that was
/// written later stands before those that were there.
pub open spec fn kids(lines: Lines, id: Seq<char>) -> Seq<Seq<char>> {
    below_in(lines, ordmap::sorted(lines.dom()), id).reverse()
}

/// The lines `ids`, each followed by the lines below it, down to `depth` levels below.
pub open spec fn walk(lines: Lines, ids: Seq<Seq<char>>, depth: nat) -> Seq<Seq<char>>
    decreases depth, ids.len(),
{
    if ids.len() == 0 {
        Seq::empty()
    } else {
        let under = if depth == 0 {
            Seq::empty()
        } else {
            walk(lines, kids(lines, ids[0]), (depth - 1) as nat)
        };
        seq![ids[0]] + under + walk(lines, ids.drop_first(), depth)
    }
}

/// The names of the lines from the beginning of the document to its end. No line is deeper
/// than there are lines.
pub open spec fn reading_order(lines: Lines) -> Seq<Seq<char>> {
    walk(lines, kids(lines, root()), lines.dom().len())
}

/// The names in `ids` of lines that are not deleted.
pub open spec fn live_in(lines: Lines, ids: Seq<Seq<char>>) -> Seq<Seq<char>>
    decreases ids.len(),
{
    if ids.len() == 0 {
        Seq::empty()
    } else {
        let rest = live_in(lines, ids.drop_last());
        if lines[ids.last()].tombstone {
            rest
        } else {
            rest.push(ids.last())
        }
    }
}

/// The names of the lines that the document shows, in order.
pub open spec fn visible(lines: Lines) -> Seq<Seq<char>> {
    live_in(lines, reading_order(lines))
}

/// What the lines `ids` say.
pub open spec fn texts(lines: Lines, ids: Seq<Seq<char>>) -> Seq<Seq<char>> {
    Seq::new(ids.len(), |i: int| lines[ids[i]].text)
}

/// Whether `n` steps up from the line `id` lead to `top`.
pub open spec fn climbs(lines: Lines, id: Seq<char>, top: Seq<char>, n: nat) -> bool
    decreases n,
{
    if n == 0 {
        id == top
    } else {
        lines.dom().contains(id) && climbs(lines, lines[id].parent, top, (n - 1) as nat)
    }
}

/// Whether `id` is a line from which steps up lead to the root.
pub open spec fn attached(lines: Lines, id: Seq<char>) -> bool {
    exists|n: nat| n > 0 && #[trigger] climbs(lines, id, root(), n)
}

/// Whether the walk from the root comes to an end: the root is not below itself.
pub open spec fn rooted(lines: Lines) -> bool {
    !attached(lines, root())
}

/// A document without a line that is named as the root is rooted.
pub proof fn lemma_rooted_without_root_line(lines: Lines)
    requires
        !lines.dom().contains(root()),
    ensures
        rooted(lines),
{
    assert forall|n: nat| n > 0 implies !#[trigger] climbs(lines, root(), root(), n) by {}
}

/// The lines directly below `id` among `keys`.
pub proof fn lemma_below_in(lines: Lines, keys: Seq<Seq<char>>, id: Seq<char>)
    ensures
        forall|k: Seq<char>| #[trigger]
            below_in(lines, keys, id).contains(k) <==> keys.contains(k) && lines[k].parent == id,
    decreases keys.len(),
{
    if keys.len() > 0 {
        let r = keys.drop_last();
        lemma_below_in(lines, r, id);
        let b = below_in(lines, keys, id);
        let rb = below_in(lines, r, id);
        assert forall|k: Seq<char>| #[trigger] b.contains(k) <==> keys.contains(k)
            && lines[k].parent == id by {
            if b.contains(k) {
                let i = choose|i: int| 0 <= i < b.len() && b[i] == k;
                if i < rb.len() {
                    assert(rb[i] == k);
                    assert(rb.contains(k));
                    let j = choose|j: int| 0 <= j < r.len() && r[j] == k;
                    assert(keys[j] == k);
                } else {
                    assert(keys[keys.len() - 1] == k);
                }
            }
            if keys.contains(k) && lines[k].parent == id {
                let j = choose|j: int| 0 <= j < keys.len() && keys[j] == k;
                if j < r.len() {
                    assert(r[j] == k);
                    assert(rb.contains(k));
                    let i = choose|i: int| 0 <= i < rb.len() && rb[i] == k;
                    assert(b[i] == k);
                } else {
                    assert(b[b.len() - 1] == k);
                }
            }
        }
    }
}

/// Lines below a line are listed without repetition where the keys are.
proof fn lemma_below_in_distinct(lines: Lines, keys: Seq<Seq<char>>, id: Seq<char>)
    requires
        keys.no_duplicates(),
    ensures
        below_in(lines, keys, id).no_duplicates(),
    decreases keys.len(),
{
    if keys.len() > 0 {
        let r = keys.drop_last();
        assert(r.no_duplicates());
        lemma_below_in_distinct(lines, r, id);
        lemma_below_in(lines, r, id);
        let rb = below_in(lines, r, id);
        if rb.contains(keys.last()) {
            assert(r.contains(keys.last()));
            let j = choose|j: int| 0 <= j < r.len() && r[j] == keys.last();
            assert(keys[j] == keys[keys.len() - 1]);
        }
        assert forall|i: int, j: int|
            0 <= i < below_in(lines, keys, id).len() && 0 <= j < below_in(lines, keys, id).len()
                && i != j implies below_in(lines, keys, id)[i] != below_in(lines, keys, id)[j] by {
            if i < rb.len() {
                assert(rb.contains(rb[i]));
            }
            if j < rb.len() {
                assert(rb.contains(rb[j]));
            }
        }
    }
}

/// The lines directly below `id` are those that name it.
pub proof fn lemma_kids(lines: Lines, id: Seq<char>)
    requires
        lines.dom().finite(),
    ensures
        forall|k: Seq<char>| #[trigger]
            kids(lines, id).contains(k) <==> lines.dom().contains(k) && lines[k].parent == id,
        kids(lines, id).no_duplicates(),
{
    let keys = ordmap::sorted(lines.dom());
    ordmap::lemma_sorted_exists(lines.dom());
    lemma_below_in(lines, keys, id);
    assert(keys.no_duplicates()) by {
        assert forall|i: int, j: int|
            0 <= i < keys.len() && 0 <= j < keys.len() && i != j implies keys[i] != keys[j] by {
            order::lemma_before_irreflexive(keys[i]);
            if i < j {
                assert(order::before(keys[i], keys[j]));
            } else {
                assert(order::before(keys[j], keys[i]));
            }
        }
    }
    lemma_below_in_distinct(lines, keys, id);
    let below = below_in(lines, keys, id);
    let ks = kids(lines, id);
    assert forall|k: Seq<char>| #[trigger] ks.contains(k) <==> lines.dom().contains(k)
        && lines[k].parent == id by {
        assert(keys.contains(k) <==> lines.dom().contains(k));
        assert(below.contains(k) <==> keys.contains(k) && lines[k].parent == id);
        if ks.contains(k) {
            let i = choose|i: int| 0 <= i < ks.len() && ks[i] == k;
            assert(below[below.len() - 1 - i] == k);
        }
        if below.contains(k) {
            let i = choose|i: int| 0 <= i < below.len() && below[i] == k;
            assert(ks[below.len() - 1 - i] == k);
        }
    }
}

/// Steps up can be taken one part after the other.
pub proof fn lemma_climbs_on(
    lines: Lines,
    id: Seq<char>,
    mid: Seq<char>,
    top: Seq<char>,
    m: nat,
    n: nat,
)
    requires
        climbs(lines, id, mid, m),
    ensures
        climbs(lines, id, top, m + n) == climbs(lines, mid, top, n),
    decreases m,
{
    if m > 0 {
        lemma_climbs_on(lines, lines[id].parent, mid, top, (m - 1) as nat, n);
    }
}

/// In a rooted document every line is at one distance from the root.
pub proof fn lemma_one_distance(lines: Lines, id: Seq<char>, m: nat, n: nat)
    requires
        rooted(lines),
        climbs(lines, id, root(), m),
        climbs(lines, id, root(), n),
    ensures
        m == n,
{
    if m < n {
        lemma_climbs_on(lines, id, root(), root(), m, (n - m) as nat);
        assert(climbs(lines, root(), root(), (n - m) as nat));
    } else if n < m {
        lemma_climbs_on(lines, id, root(), root(), n, (m - n) as nat);
        assert(climbs(lines, root(), root(), (m - n) as nat));
    }
}

/// The lines on the way up from `id`, `n` of them.
spec fn way_up(lines: Lines, id: Seq<char>, n: nat) -> Set<Seq<char>>
    decreases n,
{
    if n == 0 {
        Set::empty()
    } else {
        way_up(lines, lines[id].parent, (n - 1) as nat).insert(id)
    }
}

proof fn lemma_way_up(lines: Lines, id: Seq<char>, n: nat)
    requires
        rooted(lines),
        climbs(lines, id, root(), n),
    ensures
        way_up(lines, id, n).finite(),
        way_up(lines, id, n).len() == n,
        way_up(lines, id, n).subset_of(lines.dom()),
        forall|k: Seq<char>| #[trigger]
            way_up(lines, id, n).contains(k) ==> exists|m: nat| m <= n && climbs(lines, k, root(), m),
    decreases n,
{
    if n > 0 {
        let p = lines[id].parent;
        lemma_way_up(lines, p, (n - 1) as nat);
        let w = way_up(lines, p, (n - 1) as nat);
        if w.contains(id) {
            let m = choose|m: nat| m <= n - 1 && climbs(lines, id, root(), m);
            lemma_one_distance(lines, id, m, n);
        }
        assert forall|k: Seq<char>| #[trigger] way_up(lines, id, n).contains(k) implies exists|
            m: nat,
        | m <= n && climbs(lines, k, root(), m) by {
            if k == id {
                assert(climbs(lines, k, root(), n));
            } else {
                let m = choose|m: nat| m <= n - 1 && climbs(lines, k, root(), m);
                assert(m <= n && climbs(lines, k, root(), m));
            }
        }
    }
}

/// In a rooted document no line is further from the root than there are lines.
pub proof fn lemma_distance_bound(lines: Lines, id: Seq<char>, n: nat)
    requires
        rooted(lines),
        lines.dom().finite(),
        climbs(lines, id, root(), n),
    ensures
        n <= lines.dom().len(),
{
    lemma_way_up(lines, id, n);
    vstd::set_lib::lemma_len_subset(way_up(lines, id, n), lines.dom());
}

/// The walk over two lists is the walk over the first and then over the second.
pub proof fn lemma_walk_concat(lines: Lines, a: Seq<Seq<char>>, b: Seq<Seq<char>>, depth: nat)
    ensures
        walk(lines, a + b, depth) == walk(lines, a, depth) + walk(lines, b, depth),
    decreases a.len(),
{
    if a.len() == 0 {
        assert(a + b =~= b);
        assert(walk(lines, a + b, depth) =~= walk(lines, a, depth) + walk(lines, b, depth));
    } else {
        assert((a + b).drop_first() =~= a.drop_first() + b);
        assert((a + b)[0] == a[0]);
        lemma_walk_concat(lines, a.drop_first(), b, depth);
        assert(walk(lines, a + b, depth) =~= walk(lines, a, depth) + walk(lines, b, depth));
    }
}

/// Below lines at distance `d` there is nothing deeper than `lines.dom().len() - d` levels.
pub proof fn lemma_walk_deep_enough(lines: Lines, ids: Seq<Seq<char>>, d: nat, depth: nat)
    requires
        rooted(lines),
        lines.dom().finite(),
        forall|i: int| 0 <= i < ids.len() ==> climbs(lines, #[trigger] ids[i], root(), d),
        depth + d >= lines.dom().len(),
    ensures
        walk(lines, ids, depth) == walk(lines, ids, depth + 1),
    decreases depth, ids.len(),
{
    if ids.len() > 0 {
        let x = ids[0];
        lemma_kids(lines, x);
        let ks = kids(lines, x);
        assert(climbs(lines, ids[0], root(), d));
        assert forall|i: int| 0 <= i < ks.len() implies climbs(
            lines,
            #[trigger] ks[i],
            root(),
            d + 1,
        ) by {
            assert(ks.contains(ks[i]));
        }
        let rest = ids.drop_first();
        assert forall|i: int| 0 <= i < rest.len() implies climbs(
            lines,
            #[trigger] rest[i],
            root(),
            d,
        ) by {
            assert(rest[i] == ids[i + 1]);
        }
        lemma_walk_deep_enough(lines, rest, d, depth);
        if depth > 0 {
            lemma_walk_deep_enough(lines, ks, d + 1, (depth - 1) as nat);
        } else {
            if ks.len() > 0 {
                lemma_distance_bound(lines, ks[0], d + 1);
            }
            assert(walk(lines, ks, 0) =~= Seq::<Seq<char>>::empty());
        }
    }
}

/// A line that is walked over is one of the given lines or below one of them.
pub proof fn lemma_walk_members(lines: Lines, ids: Seq<Seq<char>>, depth: nat, k: Seq<char>)
    requires
        lines.dom().finite(),
    ensures
        walk(lines, ids, depth).contains(k) <==> exists|i: int, s: nat|
            0 <= i < ids.len() && s <= depth && #[trigger] climbs(lines, k, ids[i], s),
    decreases depth, ids.len(),
{
    let w = walk(lines, ids, depth);
    if ids.len() == 0 {
    } else {
        let x = ids[0];
        let rest = ids.drop_first();
        let under = if depth == 0 {
            Seq::<Seq<char>>::empty()
        } else {
            walk(lines, kids(lines, x), (depth - 1) as nat)
        };
        let after = walk(lines, rest, depth);
        assert(w == seq![x] + under + after);
        lemma_walk_members(lines, rest, depth, k);
        lemma_kids(lines, x);
        let ks = kids(lines, x);
        if depth > 0 {
            lemma_walk_members(lines, ks, (depth - 1) as nat, k);
        }
        if w.contains(k) {
            let p = choose|p: int| 0 <= p < w.len() && w[p] == k;
            if p == 0 {
                assert(climbs(lines, k, ids[0], 0));
            } else if p < 1 + under.len() {
                assert(under[p - 1] == k);
                assert(under.contains(k));
                let (i, s) = choose|i: int, s: nat|
                    0 <= i < ks.len() && s <= depth - 1 && #[trigger] climbs(lines, k, ks[i], s);
                assert(ks.contains(ks[i]));
                lemma_climbs_on(lines, k, ks[i], x, s, 1);
                assert(climbs(lines, ks[i], x, 1)) by {
                    assert(climbs(lines, lines[ks[i]].parent, x, 0));
                }
                assert(climbs(lines, k, ids[0], s + 1));
            } else {
                assert(after[p - 1 - under.len()] == k);
                assert(after.contains(k));
                let (i, s) = choose|i: int, s: nat|
                    0 <= i < rest.len() && s <= depth && #[trigger] climbs(lines, k, rest[i], s);
                assert(climbs(lines, k, ids[i + 1], s));
            }
        }
        if exists|i: int, s: nat|
            0 <= i < ids.len() && s <= depth && #[trigger] climbs(lines, k, ids[i], s) {
            let (i, s) = choose|i: int, s: nat|
                0 <= i < ids.len() && s <= depth && #[trigger] climbs(lines, k, ids[i], s);
            if i == 0 {
                if s == 0 {
                    assert(w[0] == k);
                } else {
                    let z = lemma_last_step(lines, k, x, s);
                    assert(ks.contains(z));
                    let q = choose|q: int| 0 <= q < ks.len() && ks[q] == z;
                    assert(climbs(lines, k, ks[q], (s - 1) as nat));
                    assert(under.contains(k));
                    let p = choose|p: int| 0 <= p < under.len() && under[p] == k;
                    assert(w[p + 1] == k);
                }
            } else {
                assert(rest[i - 1] == ids[i]);
                assert(climbs(lines, k, rest[i - 1], s));
                assert(after.contains(k));
                let p = choose|p: int| 0 <= p < after.len() && after[p] == k;
                assert(w[p + 1 + under.len()] == k);
            }
        }
    }
}

/// The last of the steps up from `k` to `x` starts at a line directly below `x`.
proof fn lemma_last_step(lines: Lines, k: Seq<char>, x: Seq<char>, s: nat) -> (z: Seq<char>)
    requires
        s > 0,
        climbs(lines, k, x, s),
    ensures
        climbs(lines, k, z, (s - 1) as nat),
        lines.dom().contains(z),
        lines[z].parent == x,
    decreases s,
{
    if s == 1 {
        assert(climbs(lines, lines[k].parent, x, 0));
        k
    } else {
        lemma_last_step(lines, lines[k].parent, x, (s - 1) as nat)
    }
}

/// Lines at one distance are walked over without repetition.
proof fn lemma_walk_distinct(lines: Lines, ids: Seq<Seq<char>>, d: nat, depth: nat)
    requires
        rooted(lines),
        lines.dom().finite(),
        ids.no_duplicates(),
        forall|i: int| 0 <= i < ids.len() ==> climbs(lines, #[trigger] ids[i], root(), d),
    ensures
        walk(lines, ids, depth).no_duplicates(),
    decreases depth, ids.len(),
{
    if ids.len() > 0 {
        let x = ids[0];
        let rest = ids.drop_first();
        let ks = kids(lines, x);
        assert(climbs(lines, ids[0], root(), d));
        lemma_kids(lines, x);
        assert forall|i: int| 0 <= i < ks.len() implies climbs(
            lines,
            #[trigger] ks[i],
            root(),
            d + 1,
        ) by {
            assert(ks.contains(ks[i]));
        }
        assert forall|i: int| 0 <= i < rest.len() implies climbs(
            lines,
            #[trigger] rest[i],
            root(),
            d,
        ) by {
            assert(rest[i] == ids[i + 1]);
        }
        let under = if depth == 0 {
            Seq::<Seq<char>>::empty()
        } else {
            walk(lines, ks, (depth - 1) as nat)
        };
        let after = walk(lines, rest, depth);
        lemma_walk_distinct(lines, rest, d, depth);
        if depth > 0 {
            lemma_walk_distinct(lines, ks, d + 1, (depth - 1) as nat);
        }
        let w = walk(lines, ids, depth);
        assert(w == seq![x] + under + after);
        // Where a line of the walk stands: at distance `d` it is one of `ids`.
        assert forall|k: Seq<char>| under.contains(k) implies k != x && !after.contains(k) by {
            lemma_walk_members(lines, ks, (depth - 1) as nat, k);
            let (i, s) = choose|i: int, s: nat|
                0 <= i < ks.len() && s <= depth - 1 && #[trigger] climbs(lines, k, ks[i], s);
            lemma_climbs_on(lines, k, ks[i], root(), s, d + 1);
            assert(climbs(lines, k, root(), s + d + 1));
            if k == x {
                lemma_one_distance(lines, k, d, s + d + 1);
            }
            if after.contains(k) {
                lemma_walk_members(lines, rest, depth, k);
                let (j, t) = choose|j: int, t: nat|
                    0 <= j < rest.len() && t <= depth && #[trigger] climbs(lines, k, rest[j], t);
                lemma_climbs_on(lines, k, rest[j], root(), t, d);
                lemma_one_distance(lines, k, s + d + 1, t + d);
                assert(ks.contains(ks[i]));
                assert(climbs(lines, lines[ks[i]].parent, x, 0));
                assert(climbs(lines, ks[i], x, 1));
                lemma_climbs_on(lines, k, ks[i], x, s, 1);
                lemma_same_steps(lines, k, x, rest[j], t);
                assert(ids[0] == ids[j + 1]);
            }
        }
        assert forall|k: Seq<char>| after.contains(k) implies k != x by {
            if k == x {
                lemma_walk_members(lines, rest, depth, k);
                let (j, t) = choose|j: int, t: nat|
                    0 <= j < rest.len() && t <= depth && #[trigger] climbs(lines, k, rest[j], t);
                lemma_climbs_on(lines, k, rest[j], root(), t, d);
                lemma_one_distance(lines, k, d, t + d);
                assert(k == rest[j]);
                assert(ids[0] == ids[j + 1]);
            }
        }
        assert forall|i: int, j: int|
            0 <= i < w.len() && 0 <= j < w.len() && i != j implies w[i] != w[j] by {
            let n = 1 + under.len();
            if 1 <= i < n {
                assert(w[i] == under[i - 1]);
                assert(under.contains(w[i]));
            } else if n <= i {
                assert(w[i] == after[i - n]);
                assert(after.contains(w[i]));
            }
            if 1 <= j < n {
                assert(w[j] == under[j - 1]);
                assert(under.contains(w[j]));
            } else if n <= j {
                assert(w[j] == after[j - n]);
                assert(after.contains(w[j]));
            }
        }
    }
}

/// The same number of steps from a line leads to one place.
pub proof fn lemma_same_steps(lines: Lines, k: Seq<char>, a: Seq<char>, b: Seq<char>, n: nat)
    requires
        climbs(lines, k, a, n),
        climbs(lines, k, b, n),
    ensures
        a == b,
    decreases n,
{
    if n > 0 {
        lemma_same_steps(lines, lines[k].parent, a, b, (n - 1) as nat);
    }
}

/// The walk from the root comes past every attached line exactly once, and past no other.
pub proof fn law_reading_order(lines: Lines)
    requires
        lines.dom().finite(),
        rooted(lines),
    ensures
        reading_order(lines).no_duplicates(),
        forall|k: Seq<char>| #[trigger]
            reading_order(lines).contains(k) <==> attached(lines, k),
{
    let top = kids(lines, root());
    let n = lines.dom().len();
    lemma_kids(lines, root());
    assert forall|i: int| 0 <= i < top.len() implies climbs(
        lines,
        #[trigger] top[i],
        root(),
        1,
    ) by {
        assert(top.contains(top[i]));
        assert(climbs(lines, lines[top[i]].parent, root(), 0));
    }
    lemma_walk_distinct(lines, top, 1, n);
    assert forall|k: Seq<char>| #[trigger] reading_order(lines).contains(k) <==> attached(
        lines,
        k,
    ) by {
        lemma_walk_members(lines, top, n, k);
        if reading_order(lines).contains(k) {
            let (i, s) = choose|i: int, s: nat|
                0 <= i < top.len() && s <= n && #[trigger] climbs(lines, k, top[i], s);
            lemma_climbs_on(lines, k, top[i], root(), s, 1);
            assert(climbs(lines, k, root(), s + 1));
        }
        if attached(lines, k) {
            let d = choose|d: nat| d > 0 && #[trigger] climbs(lines, k, root(), d);
            lemma_distance_bound(lines, k, d);
            let z = lemma_last_step(lines, k, root(), d);
            assert(top.contains(z));
            let i = choose|i: int| 0 <= i < top.len() && top[i] == z;
            assert(climbs(lines, k, top[i], (d - 1) as nat));
        }
    }
}

/// The walk below any line of a rooted document: the line itself, then what is below it.
pub proof fn lemma_walk_step(lines: Lines, x: Seq<char>, rest: Seq<Seq<char>>)
    requires
        lines.dom().finite(),
        rooted(lines),
        attached(lines, x),
    ensures
        walk(lines, seq![x] + rest, lines.dom().len()) == seq![x] + walk(
            lines,
            kids(lines, x) + rest,
            lines.dom().len(),
        ),
{
    let n = lines.dom().len();
    let d = choose|d: nat| d > 0 && #[trigger] climbs(lines, x, root(), d);
    lemma_distance_bound(lines, x, d);
    lemma_kids(lines, x);
    let ks = kids(lines, x);
    assert forall|i: int| 0 <= i < ks.len() implies climbs(
        lines,
        #[trigger] ks[i],
        root(),
        d + 1,
    ) by {
        assert(ks.contains(ks[i]));
    }
    lemma_walk_deep_enough(lines, ks, d + 1, (n - 1) as nat);
    lemma_walk_concat(lines, ks, rest, n);
    assert((seq![x] + rest).drop_first() =~= rest);
    assert(walk(lines, seq![x] + rest, n) =~= seq![x] + walk(lines, ks + rest, n));
}

/// What stands below an attached line is attached.
pub proof fn lemma_kids_attached(lines: Lines, x: Seq<char>)
    requires
        lines.dom().finite(),
        attached(lines, x) || x == root(),
    ensures
        forall|i: int|
            0 <= i < kids(lines, x).len() ==> attached(lines, #[trigger] kids(lines, x)[i]),
{
    let ks = kids(lines, x);
    lemma_kids(lines, x);
    let d: nat = if x == root() {
        0
    } else {
        choose|d: nat| d > 0 && #[trigger] climbs(lines, x, root(), d)
    };
    assert(climbs(lines, x, root(), d));
    assert forall|i: int| 0 <= i < ks.len() implies attached(lines, #[trigger] ks[i]) by {
        assert(ks.contains(ks[i]));
        assert(climbs(lines, ks[i], root(), d + 1));
    }
}

/// The line that is reached by `n` steps up from `id`.
pub open spec fn step_up(lines: Lines, id: Seq<char>, n: nat) -> Seq<char>
    decreases n,
{
    if n == 0 {
        id
    } else {
        lines[step_up(lines, id, (n - 1) as nat)].parent
    }
}

/// The lines that are passed by the first `n` steps up from `id`.
spec fn passed(lines: Lines, id: Seq<char>, n: nat) -> Set<Seq<char>>
    decreases n,
{
    if n == 0 {
        Set::empty()
    } else {
        passed(lines, id, (n - 1) as nat).insert(step_up(lines, id, (n - 1) as nat))
    }
}

/// A way up of `d` steps, cut after `n` of them.
pub proof fn lemma_cut(lines: Lines, id: Seq<char>, top: Seq<char>, d: nat, n: nat)
    requires
        climbs(lines, id, top, d),
        n <= d,
    ensures
        climbs(lines, id, step_up(lines, id, n), n),
        climbs(lines, step_up(lines, id, n), top, (d - n) as nat),
    decreases n,
{
    if n > 0 {
        lemma_cut(lines, id, top, d, (n - 1) as nat);
        let y = step_up(lines, id, (n - 1) as nat);
        let z = step_up(lines, id, n);
        assert(climbs(lines, lines[y].parent, z, 0));
        assert(climbs(lines, y, z, 1));
        lemma_climbs_on(lines, id, y, z, (n - 1) as nat, 1);
    }
}

/// The shortest way from the root back to the root passes no line twice.
proof fn lemma_shortest_cycle(lines: Lines, d: nat, n: nat)
    requires
        d > 0,
        climbs(lines, root(), root(), d),
        forall|e: nat| 0 < e < d ==> !#[trigger] climbs(lines, root(), root(), e),
        n <= d,
    ensures
        passed(lines, root(), n).finite(),
        passed(lines, root(), n).len() == n,
        passed(lines, root(), n).subset_of(lines.dom()),
        forall|k: Seq<char>| #[trigger]
            passed(lines, root(), n).contains(k) ==> exists|i: nat|
                i < n && step_up(lines, root(), i) == k,
    decreases n,
{
    if n > 0 {
        let m = (n - 1) as nat;
        lemma_shortest_cycle(lines, d, m);
        let y = step_up(lines, root(), m);
        lemma_cut(lines, root(), root(), d, m);
        if passed(lines, root(), m).contains(y) {
            let i = choose|i: nat| i < m && step_up(lines, root(), i) == y;
            lemma_cut(lines, root(), root(), d, i);
            lemma_climbs_on(lines, root(), y, root(), i, (d - m) as nat);
            assert(climbs(lines, root(), root(), (i + (d - m)) as nat));
        }
        assert forall|k: Seq<char>| #[trigger] passed(lines, root(), n).contains(k) implies exists|
            i: nat,
        | i < n && step_up(lines, root(), i) == k by {
            if k == y {
                assert(m < n && step_up(lines, root(), m) == k);
            } else {
                let i = choose|i: nat| i < m && step_up(lines, root(), i) == k;
                assert(i < n && step_up(lines, root(), i) == k);
            }
        }
    }
}

/// Where the root is below itself, no more steps than there are lines lead back to it.
pub proof fn lemma_cycle_bound(lines: Lines, d: nat) -> (e: nat)
    requires
        lines.dom().finite(),
        d > 0,
        climbs(lines, root(), root(), d),
    ensures
        0 < e <= lines.dom().len(),
        climbs(lines, root(), root(), e),
    decreases d,
{
    if exists|e: nat| 0 < e < d && #[trigger] climbs(lines, root(), root(), e) {
        let e = choose|e: nat| 0 < e < d && #[trigger] climbs(lines, root(), root(), e);
        lemma_cycle_bound(lines, e)
    } else {
        lemma_shortest_cycle(lines, d, d);
        vstd::set_lib::lemma_len_subset(passed(lines, root(), d), lines.dom());
        d
    }
}

/// The lines not deleted among `ids`.
pub proof fn lemma_live_in(lines: Lines, ids: Seq<Seq<char>>)
    ensures
        forall|k: Seq<char>| #[trigger]
            live_in(lines, ids).contains(k) <==> ids.contains(k) && !lines[k].tombstone,
        ids.no_duplicates() ==> live_in(lines, ids).no_duplicates(),
    decreases ids.len(),
{
    if ids.len() > 0 {
        let r = ids.drop_last();
        lemma_live_in(lines, r);
        let l = live_in(lines, ids);
        let rl = live_in(lines, r);
        assert forall|k: Seq<char>| #[trigger] l.contains(k) <==> ids.contains(k)
            && !lines[k].tombstone by {
            if l.contains(k) {
                let i = choose|i: int| 0 <= i < l.len() && l[i] == k;
                if i < rl.len() {
                    assert(rl[i] == k);
                    assert(rl.contains(k));
                    let j = choose|j: int| 0 <= j < r.len() && r[j] == k;
                    assert(ids[j] == k);
                } else {
                    assert(ids[ids.len() - 1] == k);
                }
            }
            if ids.contains(k) && !lines[k].tombstone {
                let j = choose|j: int| 0 <= j < ids.len() && ids[j] == k;
                if j < r.len() {
                    assert(r[j] == k);
                    assert(rl.contains(k));
                    let i = choose|i: int| 0 <= i < rl.len() && rl[i] == k;
                    assert(l[i] == k);
                } else {
                    assert(l[l.len() - 1] == k);
                }
            }
        }
        if ids.no_duplicates() {
            assert(r.no_duplicates());
            if rl.contains(ids.last()) {
                assert(r.contains(ids.last()));
                let j = choose|j: int| 0 <= j < r.len() && r[j] == ids.last();
                assert(ids[j] == ids[ids.len() - 1]);
            }
            assert forall|i: int, j: int|
                0 <= i < l.len() && 0 <= j < l.len() && i != j implies l[i] != l[j] by {
                if i < rl.len() {
                    assert(rl.contains(rl[i]));
                }
                if j < rl.len() {
                    assert(rl.contains(rl[j]));
                }
            }
        }
    }
}

/// A document shows every line that is attached and not deleted, once, and no other.
pub proof fn law_visible(lines: Lines)
    requires
        lines.dom().finite(),
        rooted(lines),
    ensures
        visible(lines).no_duplicates(),
        forall|k: Seq<char>| #[trigger]
            visible(lines).contains(k) <==> attached(lines, k) && !lines[k].tombstone,
{
    law_reading_order(lines);
    lemma_live_in(lines, reading_order(lines));
    assert forall|k: Seq<char>| #[trigger] visible(lines).contains(k) <==> attached(lines, k)
        && !lines[k].tombstone by {
        assert(reading_order(lines).contains(k) <==> attached(lines, k));
    }
}

} // verus!
