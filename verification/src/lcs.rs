//! The longest common subsequence of two lists of lines.

use vstd::prelude::*;

use crate::text;

verus! {

/// The length of the longest common subsequence of `a` from `i` on and `b` from `j` on.
pub open spec fn lcs_len(a: Seq<Seq<char>>, b: Seq<Seq<char>>, i: int, j: int) -> nat
    decreases a.len() - i + b.len() - j,
{
    if i >= a.len() || j >= b.len() {
        0
    } else if a[i] == b[j] {
        1 + lcs_len(a, b, i + 1, j + 1)
    } else if lcs_len(a, b, i + 1, j) >= lcs_len(a, b, i, j + 1) {
        lcs_len(a, b, i + 1, j)
    } else {
        lcs_len(a, b, i, j + 1)
    }
}

/// The positions matched between `a` from `i` on and `b` from `j` on: equal lines are matched
/// as soon as they meet; otherwise a line of `a` is passed over where that loses nothing.
pub open spec fn matches_from(a: Seq<Seq<char>>, b: Seq<Seq<char>>, i: int, j: int) -> Seq<
    (int, int),
>
    decreases a.len() - i + b.len() - j,
{
    if i >= a.len() || j >= b.len() {
        Seq::empty()
    } else if a[i] == b[j] {
        seq![(i, j)] + matches_from(a, b, i + 1, j + 1)
    } else if lcs_len(a, b, i + 1, j) >= lcs_len(a, b, i, j + 1) {
        matches_from(a, b, i + 1, j)
    } else {
        matches_from(a, b, i, j + 1)
    }
}

/// Whether `p` pairs equal lines of `a` and `b` in the order of both.
pub open spec fn common(a: Seq<Seq<char>>, b: Seq<Seq<char>>, p: Seq<(int, int)>) -> bool {
    &&& forall|k: int|
        0 <= k < p.len() ==> 0 <= (#[trigger] p[k]).0 < a.len() && 0 <= p[k].1 < b.len() && a[p[k].0]
            == b[p[k].1]
    &&& forall|k: int, l: int|
        0 <= k < l < p.len() ==> (#[trigger] p[k]).0 < (#[trigger] p[l]).0 && p[k].1 < p[l].1
}

/// Whether all pairs of `p` lie at `i` and `j` or behind.
pub open spec fn behind(p: Seq<(int, int)>, i: int, j: int) -> bool {
    forall|k: int| 0 <= k < p.len() ==> i <= (#[trigger] p[k]).0 && j <= p[k].1
}

/// The pairs as mathematical integers.
pub open spec fn pair_views(p: Seq<(usize, usize)>) -> Seq<(int, int)> {
    Seq::new(p.len(), |k: int| (p[k].0 as int, p[k].1 as int))
}

/// The length is bounded by both lists.
proof fn lemma_len_bound(a: Seq<Seq<char>>, b: Seq<Seq<char>>, i: int, j: int)
    ensures
        i <= a.len() ==> lcs_len(a, b, i, j) <= a.len() - i,
        j <= b.len() ==> lcs_len(a, b, i, j) <= b.len() - j,
    decreases a.len() - i + b.len() - j,
{
    if i < a.len() && j < b.len() {
        lemma_len_bound(a, b, i + 1, j + 1);
        lemma_len_bound(a, b, i + 1, j);
        lemma_len_bound(a, b, i, j + 1);
    }
}

/// What is matched is a common subsequence of the stated length.
pub proof fn lemma_matches_common(a: Seq<Seq<char>>, b: Seq<Seq<char>>, i: int, j: int)
    requires
        0 <= i,
        0 <= j,
    ensures
        common(a, b, matches_from(a, b, i, j)),
        behind(matches_from(a, b, i, j), i, j),
        matches_from(a, b, i, j).len() == lcs_len(a, b, i, j),
    decreases a.len() - i + b.len() - j,
{
    if i < a.len() && j < b.len() {
        if a[i] == b[j] {
            lemma_matches_common(a, b, i + 1, j + 1);
            let r = matches_from(a, b, i + 1, j + 1);
            let p = matches_from(a, b, i, j);
            assert forall|k: int, l: int| 0 <= k < l < p.len() implies (#[trigger] p[k]).0
                < (#[trigger] p[l]).0 && p[k].1 < p[l].1 by {
                assert(p[l] == r[l - 1]);
                if k > 0 {
                    assert(p[k] == r[k - 1]);
                }
            }
            assert forall|k: int| 0 <= k < p.len() implies 0 <= (#[trigger] p[k]).0 < a.len() && 0
                <= p[k].1 < b.len() && a[p[k].0] == b[p[k].1] && i <= p[k].0 && j <= p[k].1 by {
                if k > 0 {
                    assert(p[k] == r[k - 1]);
                }
            }
        } else if lcs_len(a, b, i + 1, j) >= lcs_len(a, b, i, j + 1) {
            lemma_matches_common(a, b, i + 1, j);
        } else {
            lemma_matches_common(a, b, i, j + 1);
        }
    }
}

/// No common subsequence is longer.
proof fn lemma_longest(a: Seq<Seq<char>>, b: Seq<Seq<char>>, i: int, j: int, p: Seq<(int, int)>)
    requires
        0 <= i,
        0 <= j,
        common(a, b, p),
        behind(p, i, j),
    ensures
        p.len() <= lcs_len(a, b, i, j),
    decreases a.len() - i + b.len() - j,
{
    if p.len() > 0 {
        let first = p[0];
        assert(i < a.len() && j < b.len());
        if a[i] == b[j] {
            let rest = p.drop_first();
            assert forall|k: int| 0 <= k < rest.len() implies i + 1 <= (#[trigger] rest[k]).0 && j
                + 1 <= rest[k].1 by {
                assert(p[0].0 < p[k + 1].0 && p[0].1 < p[k + 1].1);
            }
            assert(common(a, b, rest)) by {
                assert forall|k: int| 0 <= k < rest.len() implies 0 <= (#[trigger] rest[k]).0
                    < a.len() && 0 <= rest[k].1 < b.len() && a[rest[k].0] == b[rest[k].1] by {
                    assert(rest[k] == p[k + 1]);
                }
                assert forall|k: int, l: int| 0 <= k < l < rest.len() implies (#[trigger] rest[k]).0
                    < (#[trigger] rest[l]).0 && rest[k].1 < rest[l].1 by {
                    assert(rest[k] == p[k + 1] && rest[l] == p[l + 1]);
                }
            }
            lemma_longest(a, b, i + 1, j + 1, rest);
        } else {
            if first.0 > i {
                assert forall|k: int| 0 <= k < p.len() implies i + 1 <= (#[trigger] p[k]).0 && j
                    <= p[k].1 by {
                    if k > 0 {
                        assert(p[0].0 < p[k].0);
                    }
                }
                lemma_longest(a, b, i + 1, j, p);
            } else {
                assert forall|k: int| 0 <= k < p.len() implies i <= (#[trigger] p[k]).0 && j + 1
                    <= p[k].1 by {
                    if k > 0 {
                        assert(p[0].1 < p[k].1);
                    }
                }
                lemma_longest(a, b, i, j + 1, p);
            }
        }
    }
}

/// The matched positions are a common subsequence of the two lists, and no common subsequence
/// is longer.
pub proof fn law_matches_are_longest(a: Seq<Seq<char>>, b: Seq<Seq<char>>, p: Seq<(int, int)>)
    requires
        common(a, b, p),
    ensures
        common(a, b, matches_from(a, b, 0, 0)),
        p.len() <= matches_from(a, b, 0, 0).len(),
{
    lemma_matches_common(a, b, 0, 0);
    lemma_longest(a, b, 0, 0, p);
}

/// Where a list begins another, it is matched with that beginning line by line.
pub proof fn lemma_matches_beginning(a: Seq<Seq<char>>, b: Seq<Seq<char>>, i: int)
    requires
        0 <= i <= a.len() <= b.len(),
        b.take(a.len() as int) == a,
    ensures
        matches_from(a, b, i, i) == Seq::new((a.len() - i) as nat, |k: int| (i + k, i + k)),
    decreases a.len() - i,
{
    if i < a.len() {
        lemma_matches_beginning(a, b, i + 1);
        assert(b.take(a.len() as int)[i] == b[i]);
    }
    assert(matches_from(a, b, i, i) =~= Seq::new((a.len() - i) as nat, |k: int| (i + k, i + k)));
}

/// A list is matched with itself line by line.
pub proof fn lemma_matches_same(a: Seq<Seq<char>>, i: int)
    requires
        0 <= i <= a.len(),
    ensures
        matches_from(a, a, i, i) == Seq::new((a.len() - i) as nat, |k: int| (i + k, i + k)),
    decreases a.len() - i,
{
    if i < a.len() {
        lemma_matches_same(a, i + 1);
    }
    assert(matches_from(a, a, i, i) =~= Seq::new((a.len() - i) as nat, |k: int| (i + k, i + k)));
}

/// The lengths for all positions, the last line of both lists first: entry `l` of row `k` is
/// the length from position `a.len() - k` of `a` and `b.len() - l` of `b` on.
fn length_table(a: &Vec<String>, b: &Vec<String>) -> (t: Vec<Vec<usize>>)
    ensures
        t@.len() == a@.len() + 1,
        forall|k: int|
            0 <= k <= a@.len() ==> (#[trigger] t@[k])@.len() == b@.len() + 1,
        forall|k: int, l: int|
            0 <= k <= a@.len() && 0 <= l <= b@.len() ==> #[trigger] t@[k]@[l] == lcs_len(
                text::views(a@),
                text::views(b@),
                a@.len() - k,
                b@.len() - l,
            ),
{
    let n = a.len();
    let m = b.len();
    let ghost av = text::views(a@);
    let ghost bv = text::views(b@);
    let mut t: Vec<Vec<usize>> = Vec::new();
    let mut first: Vec<usize> = Vec::new();
    let mut l: usize = 0;
    while l < m
        invariant
            l <= m,
            m == b@.len(),
            n == a@.len(),
            av == text::views(a@),
            bv == text::views(b@),
            first@.len() == l,
            forall|x: int| 0 <= x < l ==> #[trigger] first@[x] == lcs_len(av, bv, n as int, m - x),
        decreases m - l,
    {
        first.push(0);
        l = l + 1;
    }
    first.push(0);
    t.push(first);
    let mut k: usize = 0;
    while k < n
        invariant
            k <= n,
            n == a@.len(),
            m == b@.len(),
            av == text::views(a@),
            bv == text::views(b@),
            t@.len() == k + 1,
            forall|x: int| 0 <= x <= k ==> (#[trigger] t@[x])@.len() == m + 1,
            forall|x: int, y: int|
                0 <= x <= k && 0 <= y <= m ==> #[trigger] t@[x]@[y] == lcs_len(
                    av,
                    bv,
                    n - x,
                    m - y,
                ),
        decreases n - k,
    {
        let mut row: Vec<usize> = Vec::new();
        row.push(0);
        let ghost i = n - k - 1;
        let mut l: usize = 0;
        while l < m
            invariant
                l <= m,
                k < n,
                n == a@.len(),
                m == b@.len(),
                i == n - k - 1,
                av == text::views(a@),
                bv == text::views(b@),
                t@.len() == k + 1,
                forall|x: int| 0 <= x <= k ==> (#[trigger] t@[x])@.len() == m + 1,
                forall|y: int|
                    0 <= y <= m ==> #[trigger] t@[k as int]@[y] == lcs_len(av, bv, i + 1, m - y),
                row@.len() == l + 1,
                forall|y: int| 0 <= y <= l ==> #[trigger] row@[y] == lcs_len(av, bv, i, m - y),
            decreases m - l,
        {
            let ghost j = m - l - 1;
            assert(t@[k as int]@[l as int] == lcs_len(av, bv, i + 1, j + 1));
            assert(t@[k as int]@[l + 1] == lcs_len(av, bv, i + 1, j));
            assert(row@[l as int] == lcs_len(av, bv, i, j + 1));
            assert(av[i] == a@[i]@ && bv[j] == b@[j]@);
            proof {
                lemma_len_bound(av, bv, i + 1, j + 1);
            }
            let v: usize = if text::same(&a[n - k - 1], &b[m - l - 1]) {
                t[k][l] + 1
            } else if t[k][l + 1] >= row[l] {
                t[k][l + 1]
            } else {
                row[l]
            };
            row.push(v);
            l = l + 1;
        }
        t.push(row);
        k = k + 1;
    }
    t
}

/// Pairs the positions of a longest common subsequence of `a` and `b`.
pub fn lcs_pairs(a: &Vec<String>, b: &Vec<String>) -> (out: Vec<(usize, usize)>)
    ensures
        pair_views(out@) == matches_from(text::views(a@), text::views(b@), 0, 0),
{
    let n = a.len();
    let m = b.len();
    let ghost av = text::views(a@);
    let ghost bv = text::views(b@);
    let t = length_table(a, b);
    let mut i: usize = 0;
    let mut j: usize = 0;
    let mut out: Vec<(usize, usize)> = Vec::new();
    assert(pair_views(out@) =~= Seq::<(int, int)>::empty());
    assert(pair_views(out@) + matches_from(av, bv, 0, 0) =~= matches_from(av, bv, 0, 0));
    while i < n && j < m
        invariant
            n == a@.len(),
            m == b@.len(),
            i <= n,
            j <= m,
            av == text::views(a@),
            bv == text::views(b@),
            t@.len() == n + 1,
            forall|k: int| 0 <= k <= n ==> (#[trigger] t@[k])@.len() == m + 1,
            forall|k: int, l: int|
                0 <= k <= n && 0 <= l <= m ==> #[trigger] t@[k]@[l] == lcs_len(
                    av,
                    bv,
                    n - k,
                    m - l,
                ),
            pair_views(out@) + matches_from(av, bv, i as int, j as int) == matches_from(
                av,
                bv,
                0,
                0,
            ),
        decreases n - i + m - j,
    {
        assert(av[i as int] == a@[i as int]@ && bv[j as int] == b@[j as int]@);
        let ghost done = pair_views(out@);
        assert(t@[n - i - 1]@[m - j] == lcs_len(av, bv, i + 1, j as int));
        assert(t@[n - i]@[m - j - 1] == lcs_len(av, bv, i as int, j + 1));
        if text::same(&a[i], &b[j]) {
            out.push((i, j));
            assert(pair_views(out@) =~= done.push((i as int, j as int)));
            assert(pair_views(out@) + matches_from(av, bv, i + 1, j + 1) =~= done + matches_from(
                av,
                bv,
                i as int,
                j as int,
            ));
            i = i + 1;
            j = j + 1;
        } else if t[n - i - 1][m - j] >= t[n - i][m - j - 1] {
            i = i + 1;
        } else {
            j = j + 1;
        }
    }
    assert(pair_views(out@) + matches_from(av, bv, i as int, j as int) =~= pair_views(out@));
    out
}

} // verus!
