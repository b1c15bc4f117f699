//! A map from strings to values that keeps its keys in order.

use vstd::prelude::*;

use crate::order;
use crate::order::Position;
use crate::text;

verus! {

/// Whether `s` lists the strings of `d`, each once, in order.
pub open spec fn lists(s: Seq<Seq<char>>, d: Set<Seq<char>>) -> bool {
    &&& order::ascending(s)
    &&& forall|k: Seq<char>| #[trigger] s.contains(k) <==> d.contains(k)
}

/// The strings of `d`, in order.
pub open spec fn sorted(d: Set<Seq<char>>) -> Seq<Seq<char>> {
    choose|s: Seq<Seq<char>>| lists(s, d)
}

/// Two ordered lists of the same strings are equal.
proof fn lemma_lists_equal(a: Seq<Seq<char>>, b: Seq<Seq<char>>)
    requires
        order::ascending(a),
        order::ascending(b),
        forall|k: Seq<char>| #[trigger] a.contains(k) <==> b.contains(k),
    ensures
        a == b,
    decreases a.len(),
{
    if a.len() == 0 {
        if b.len() > 0 {
            assert(b.contains(b[0]));
            assert(a.contains(b[0]));
        }
        assert(a =~= b);
    } else {
        assert(a.contains(a[0]));
        assert(b.contains(a[0]));
        assert(b.contains(b[0]));
        assert(a.contains(b[0]));
        let j = choose|j: int| 0 <= j < b.len() && b[j] == a[0];
        let i = choose|i: int| 0 <= i < a.len() && a[i] == b[0];
        if j > 0 {
            assert(order::before(b[0], b[j]));
            if i > 0 {
                assert(order::before(a[0], a[i]));
                order::lemma_before_asymmetric(a[0], b[0]);
            } else {
                order::lemma_before_irreflexive(a[0]);
            }
        }
        let ra = a.drop_first();
        let rb = b.drop_first();
        assert forall|k: Seq<char>| #[trigger] ra.contains(k) <==> rb.contains(k) by {
            if ra.contains(k) {
                let x = choose|x: int| 0 <= x < ra.len() && ra[x] == k;
                assert(a[x + 1] == k);
                assert(order::before(a[0], a[x + 1]));
                order::lemma_before_irreflexive(a[0]);
                assert(a.contains(k));
                assert(b.contains(k));
                let y = choose|y: int| 0 <= y < b.len() && b[y] == k;
                assert(rb[y - 1] == k);
            }
            if rb.contains(k) {
                let x = choose|x: int| 0 <= x < rb.len() && rb[x] == k;
                assert(b[x + 1] == k);
                assert(order::before(b[0], b[x + 1]));
                order::lemma_before_irreflexive(b[0]);
                assert(b.contains(k));
                assert(a.contains(k));
                let y = choose|y: int| 0 <= y < a.len() && a[y] == k;
                assert(ra[y - 1] == k);
            }
        }
        assert(order::ascending(ra));
        assert(order::ascending(rb));
        lemma_lists_equal(ra, rb);
        assert(a =~= seq![a[0]] + ra);
        assert(b =~= seq![b[0]] + rb);
    }
}

/// The strings of an ordered list are different.
pub proof fn lemma_ascending_distinct(s: Seq<Seq<char>>, i: int, j: int)
    requires
        order::ascending(s),
        0 <= i < s.len(),
        0 <= j < s.len(),
        i != j,
    ensures
        s[i] != s[j],
{
    order::lemma_before_irreflexive(s[i]);
    if i < j {
        assert(order::before(s[i], s[j]));
    } else {
        assert(order::before(s[j], s[i]));
    }
}

/// An ordered list of the strings of `d` is the only one.
pub proof fn lemma_sorted_unique(s: Seq<Seq<char>>, d: Set<Seq<char>>)
    requires
        lists(s, d),
    ensures
        sorted(d) == s,
{
    let t = sorted(d);
    assert(lists(t, d));
    lemma_lists_equal(s, t);
}

/// Where `k` belongs in an ordered list that lacks it.
proof fn lemma_place(s: Seq<Seq<char>>, k: Seq<char>) -> (p: int)
    requires
        order::ascending(s),
        !s.contains(k),
    ensures
        0 <= p <= s.len(),
        forall|i: int| 0 <= i < p ==> order::before(#[trigger] s[i], k),
        forall|i: int| p <= i < s.len() ==> order::before(k, #[trigger] s[i]),
    decreases s.len(),
{
    if s.len() == 0 {
        0
    } else {
        let r = s.drop_last();
        assert(order::ascending(r));
        assert(s.contains(s.last()));
        order::lemma_before_total(k, s.last());
        if order::before(s.last(), k) {
            assert forall|i: int| 0 <= i < s.len() implies order::before(#[trigger] s[i], k) by {
                if i < s.len() - 1 {
                    assert(order::before(s[i], s[s.len() - 1]));
                    order::lemma_before_transitive(s[i], s.last(), k);
                }
            }
            s.len() as int
        } else {
            assert forall|i: int| 0 <= i < r.len() implies r[i] != k by {
                assert(s.contains(s[i]));
            }
            let p = lemma_place(r, k);
            assert forall|i: int| 0 <= i < p implies order::before(#[trigger] s[i], k) by {
                assert(s[i] == r[i]);
            }
            assert forall|i: int| p <= i < s.len() implies order::before(k, #[trigger] s[i]) by {
                if i < r.len() {
                    assert(s[i] == r[i]);
                }
            }
            p
        }
    }
}

/// Putting a string in its place keeps the order.
proof fn lemma_insert_lists(s: Seq<Seq<char>>, d: Set<Seq<char>>, k: Seq<char>, p: int)
    requires
        lists(s, d),
        0 <= p <= s.len(),
        forall|i: int| 0 <= i < p ==> order::before(#[trigger] s[i], k),
        forall|i: int| p <= i < s.len() ==> order::before(k, #[trigger] s[i]),
    ensures
        lists(s.insert(p, k), d.insert(k)),
{
    let t = s.insert(p, k);
    assert forall|i: int, j: int| 0 <= i < j < t.len() implies order::before(
        #[trigger] t[i],
        #[trigger] t[j],
    ) by {
        let si = if i < p { i } else { i - 1 };
        let sj = if j < p { j } else { j - 1 };
        if i != p && j != p {
            assert(t[i] == s[si] && t[j] == s[sj]);
        } else if i == p {
            assert(t[j] == s[sj]);
        } else {
            assert(t[i] == s[si]);
        }
    }
    assert forall|x: Seq<char>| #[trigger] t.contains(x) <==> d.insert(k).contains(x) by {
        if t.contains(x) {
            let i = choose|i: int| 0 <= i < t.len() && t[i] == x;
            if i != p {
                let si = if i < p { i } else { i - 1 };
                assert(s[si] == x);
                assert(s.contains(x));
            }
        }
        if d.insert(k).contains(x) {
            if x == k {
                assert(t[p] == k);
            } else {
                assert(s.contains(x));
                let i = choose|i: int| 0 <= i < s.len() && s[i] == x;
                assert(t[if i < p { i } else { i + 1 }] == x);
            }
        }
    }
}

/// A finite set has as many members as are listed in order.
pub proof fn lemma_sorted_len(d: Set<Seq<char>>)
    requires
        d.finite(),
    ensures
        sorted(d).len() == d.len(),
{
    let keys = sorted(d);
    lemma_sorted_exists(d);
    assert forall|i: int, j: int|
        0 <= i < keys.len() && 0 <= j < keys.len() && i != j implies keys[i] != keys[j] by {
        order::lemma_before_irreflexive(keys[i]);
        if i < j {
            assert(order::before(keys[i], keys[j]));
        } else {
            assert(order::before(keys[j], keys[i]));
        }
    }
    keys.unique_seq_to_set();
    assert(keys.to_set() =~= d);
}

/// A finite set of strings can be put in order.
pub proof fn lemma_sorted_exists(d: Set<Seq<char>>)
    requires
        d.finite(),
    ensures
        lists(sorted(d), d),
    decreases d.len(),
{
    if d.len() == 0 {
        let e = Seq::<Seq<char>>::empty();
        assert(d =~= Set::empty());
        assert(lists(e, d));
    } else {
        let k = d.choose();
        let r = d.remove(k);
        lemma_sorted_exists(r);
        let s = sorted(r);
        let p = lemma_place(s, k);
        lemma_insert_lists(s, r, k, p);
        assert(r.insert(k) =~= d);
        assert(lists(s.insert(p, k), d));
    }
}

/// A map with string keys, held in the order of its keys.
#[derive(Debug)]
pub struct OrdMap<V> {
    keys: Vec<String>,
    vals: Vec<V>,
}

impl<V: View> View for OrdMap<V> {
    type V = Map<Seq<char>, V::V>;

    closed spec fn view(&self) -> Map<Seq<char>, V::V> {
        let keys = text::views(self.keys@);
        Map::new(|k: Seq<char>| keys.contains(k), |k: Seq<char>| self.vals@[keys.index_of(k)]@)
    }
}

impl<V: View> OrdMap<V> {
    /// Whether the keys are in strictly ascending order and each has its value.
    pub closed spec fn wf(&self) -> bool {
        &&& order::ascending(text::views(self.keys@))
        &&& self.keys@.len() == self.vals@.len()
    }

    /// How the map stands to the two lists that hold it.
    proof fn lemma_view(&self)
        requires
            self.wf(),
        ensures
            lists(text::views(self.keys@), self@.dom()),
            sorted(self@.dom()) == text::views(self.keys@),
            forall|i: int|
                0 <= i < self.keys@.len() ==> #[trigger] self@[text::views(self.keys@)[i]]
                    == self.vals@[i]@,
            self@.dom().finite(),
            self@.dom().len() == self.keys@.len(),
    {
        let keys = text::views(self.keys@);
        assert forall|k: Seq<char>| #[trigger] keys.contains(k) <==> self@.dom().contains(k) by {}
        lemma_sorted_unique(keys, self@.dom());
        assert forall|i: int| 0 <= i < self.keys@.len() implies #[trigger] self@[keys[i]]
            == self.vals@[i]@ by {
            assert(keys.contains(keys[i]));
            let j = keys.index_of(keys[i]);
            assert(0 <= j < keys.len() && keys[j] == keys[i]);
            order::lemma_before_irreflexive(keys[i]);
            if i < j {
                assert(order::before(keys[i], keys[j]));
            } else if j < i {
                assert(order::before(keys[j], keys[i]));
            }
        }
        assert(keys.no_duplicates()) by {
            assert forall|i: int, j: int|
                0 <= i < keys.len() && 0 <= j < keys.len() && i != j implies keys[i] != keys[j] by {
                order::lemma_before_irreflexive(keys[i]);
                if i < j {
                    assert(order::before(keys[i], keys[j]));
                } else {
                    assert(order::before(keys[j], keys[i]));
                }
            }
        }
        keys.unique_seq_to_set();
        assert(keys.to_set() =~= self@.dom());
    }

    /// The map without entries.
    pub fn new() -> (m: Self)
        ensures
            m.wf(),
            m@ == Map::<Seq<char>, V::V>::empty(),
    {
        let m = OrdMap { keys: Vec::new(), vals: Vec::new() };
        assert(m@ =~= Map::<Seq<char>, V::V>::empty());
        m
    }

    /// The number of entries.
    pub fn len(&self) -> (n: usize)
        requires
            self.wf(),
        ensures
            n == self@.dom().len(),
            n == sorted(self@.dom()).len(),
            self@.dom().finite(),
    {
        proof {
            self.lemma_view();
        }
        self.keys.len()
    }

    /// The `i`th key in order.
    pub fn key(&self, i: usize) -> (k: &String)
        requires
            self.wf(),
            i < sorted(self@.dom()).len(),
        ensures
            k@ == sorted(self@.dom())[i as int],
            self@.dom().contains(k@),
    {
        proof {
            self.lemma_view();
            assert(text::views(self.keys@).contains(text::views(self.keys@)[i as int]));
        }
        &self.keys[i]
    }

    /// The value of the `i`th key in order.
    pub fn value(&self, i: usize) -> (v: &V)
        requires
            self.wf(),
            i < sorted(self@.dom()).len(),
        ensures
            v@ == self@[sorted(self@.dom())[i as int]],
    {
        proof {
            self.lemma_view();
        }
        &self.vals[i]
    }

    /// The position of `k`, or the one where it belongs.
    fn find(&self, k: &str) -> (r: (bool, usize))
        requires
            self.wf(),
        ensures
            r.1 <= self.keys@.len(),
            r.0 ==> r.1 < self.keys@.len() && self.keys@[r.1 as int]@ == k@,
            !r.0 ==> forall|i: int| 0 <= i < r.1 ==> order::before(#[trigger] self.keys@[i]@, k@),
            !r.0 ==> forall|i: int|
                r.1 <= i < self.keys@.len() ==> order::before(k@, #[trigger] self.keys@[i]@),
            r.0 == self@.dom().contains(k@),
    {
        let ghost keys = text::views(self.keys@);
        let mut lo: usize = 0;
        let mut hi: usize = self.keys.len();
        proof {
            self.lemma_view();
        }
        while lo < hi
            invariant
                lo <= hi <= self.keys@.len(),
                keys == text::views(self.keys@),
                order::ascending(keys),
                lists(keys, self@.dom()),
                forall|i: int| 0 <= i < lo ==> order::before(#[trigger] self.keys@[i]@, k@),
                forall|i: int|
                    hi <= i < self.keys@.len() ==> order::before(k@, #[trigger] self.keys@[i]@),
            decreases hi - lo,
        {
            let mid = lo + (hi - lo) / 2;
            match order::position(&self.keys[mid], k) {
                Position::Equal => {
                    assert(keys[mid as int] == k@);
                    assert(keys.contains(k@));
                    return (true, mid);
                },
                Position::Before => {
                    proof {
                        assert forall|i: int| 0 <= i < mid + 1 implies order::before(
                            #[trigger] self.keys@[i]@,
                            k@,
                        ) by {
                            if i < mid {
                                assert(order::before(keys[i], keys[mid as int]));
                                order::lemma_before_transitive(keys[i], keys[mid as int], k@);
                            }
                        }
                    }
                    lo = mid + 1;
                },
                Position::After => {
                    proof {
                        assert forall|i: int| mid <= i < self.keys@.len() implies order::before(
                            k@,
                            #[trigger] self.keys@[i]@,
                        ) by {
                            if i > mid {
                                assert(order::before(keys[mid as int], keys[i]));
                                order::lemma_before_transitive(k@, keys[mid as int], keys[i]);
                            }
                        }
                    }
                    hi = mid;
                },
            }
        }
        proof {
            if keys.contains(k@) {
                let i = choose|i: int| 0 <= i < keys.len() && keys[i] == k@;
                assert(self.keys@[i]@ == k@);
                order::lemma_before_irreflexive(k@);
            }
        }
        (false, lo)
    }

    /// The position of the key `k` in order.
    pub fn index_of(&self, k: &str) -> (r: Option<usize>)
        requires
            self.wf(),
        ensures
            match r {
                Some(i) => i < sorted(self@.dom()).len() && sorted(self@.dom())[i as int] == k@
                    && self@.dom().contains(k@),
                None => !self@.dom().contains(k@),
            },
    {
        let (found, i) = self.find(k);
        proof {
            self.lemma_view();
        }
        if found {
            Some(i)
        } else {
            None
        }
    }

    /// Whether the map has the key `k`.
    pub fn contains(&self, k: &str) -> (r: bool)
        requires
            self.wf(),
        ensures
            r == self@.dom().contains(k@),
    {
        self.find(k).0
    }

    /// The value of the key `k`.
    pub fn get(&self, k: &str) -> (r: Option<&V>)
        requires
            self.wf(),
        ensures
            match r {
                Some(v) => self@.dom().contains(k@) && v@ == self@[k@],
                None => !self@.dom().contains(k@),
            },
    {
        let (found, i) = self.find(k);
        if found {
            proof {
                self.lemma_view();
                assert(text::views(self.keys@)[i as int] == k@);
            }
            Some(&self.vals[i])
        } else {
            None
        }
    }

    /// Gives the key `k` the value `v`.
    pub fn insert(&mut self, k: String, v: V)
        requires
            old(self).wf(),
        ensures
            final(self).wf(),
            final(self)@ == old(self)@.insert(k@, v@),
    {
        let ghost keys = text::views(self.keys@);
        let ghost was = *self;
        proof {
            self.lemma_view();
        }
        let (found, i) = self.find(&k);
        let ghost kv = k@;
        let ghost vv = v@;
        if found {
            self.vals.set(i, v);
            proof {
                assert(self.keys@ == was.keys@);
                self.lemma_view();
                assert forall|x: Seq<char>| was@.dom().contains(x) implies #[trigger] self@[x]
                    == was@.insert(kv, vv)[x] by {
                    assert(keys.contains(x));
                    let j = choose|j: int| 0 <= j < keys.len() && keys[j] == x;
                    assert(self@[keys[j]] == self.vals@[j]@);
                    assert(was@[keys[j]] == was.vals@[j]@);
                    assert(keys[i as int] == kv);
                    if j != i {
                        order::lemma_before_irreflexive(x);
                        if i < j {
                            assert(order::before(keys[i as int], keys[j]));
                        } else {
                            assert(order::before(keys[j], keys[i as int]));
                        }
                    }
                }
                assert(self@.dom() =~= was@.dom());
                assert(self@ =~= was@.insert(kv, vv));
            }
        } else {
            self.keys.insert(i, k);
            self.vals.insert(i, v);
            proof {
                let now = text::views(self.keys@);
                assert(now =~= keys.insert(i as int, kv));
                lemma_insert_lists(keys, was@.dom(), kv, i as int);
                self.lemma_view();
                assert forall|x: Seq<char>| self@.dom().contains(x) <==> was@.insert(
                    kv,
                    vv,
                ).dom().contains(x) by {
                    assert(now.contains(x) <==> was@.dom().insert(kv).contains(x));
                }
                assert forall|x: Seq<char>|
                    was@.insert(kv, vv).dom().contains(x) implies #[trigger] self@[x]
                    == was@.insert(kv, vv)[x] by {
                    if x == kv {
                        assert(now[i as int] == kv);
                    } else {
                        assert(keys.contains(x));
                        let j = choose|j: int| 0 <= j < keys.len() && keys[j] == x;
                        let nj = if j < i { j } else { j + 1 };
                        assert(now[nj] == x);
                        assert(self.vals@[nj] == was.vals@[j]);
                        assert(self@[now[nj]] == self.vals@[nj]@);
                        assert(was@[keys[j]] == was.vals@[j]@);
                    }
                }
                assert(self@ =~= was@.insert(kv, vv));
            }
        }
    }
}

} // verus!
