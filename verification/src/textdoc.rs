//! A text document that two devices can change apart and merge again.
//!
//! A document is a set of lines. Each names the line that it was written below, and none is
//! ever taken out: a deleted line stays, marked. Merging two documents is then a union.

use vstd::prelude::*;
use vstd::string::*;

use crate::decimal;
use crate::doc_laws;
use crate::edit_laws;
use crate::lcs;
use crate::ordmap;
use crate::ordmap::OrdMap;
use crate::text;
use crate::tree;
use crate::tree::LineView;

verus! {

/// One line of a document.
#[derive(Debug)]
pub struct Line {
    /// Its name.
    pub id: String,
    /// The name of the line that it stands below.
    pub parent: String,
    /// Whether it is deleted.
    pub tombstone: bool,
    /// What it says.
    pub text: String,
}

impl View for Line {
    type V = LineView;

    open spec fn view(&self) -> LineView {
        LineView {
            id: self.id@,
            parent: self.parent@,
            tombstone: self.tombstone,
            text: self.text@,
        }
    }
}

impl Line {
    /// A copy of the line.
    pub fn copy(&self) -> (r: Line)
        ensures
            r@ == self@,
    {
        Line {
            id: self.id.clone(),
            parent: self.parent.clone(),
            tombstone: self.tombstone,
            text: self.text.clone(),
        }
    }
}

/// A document as a mathematical value.
#[verifier::ext_equal]
pub struct DocView {
    /// How many lines have been numbered.
    pub clock: nat,
    /// The lines by their names.
    pub lines: tree::Lines,
}

/// A document.
#[derive(Debug)]
pub struct TextDoc {
    /// How many lines have been numbered.
    pub clock: u64,
    /// The lines by their names.
    pub lines: OrdMap<Line>,
}

impl View for TextDoc {
    type V = DocView;

    open spec fn view(&self) -> DocView {
        DocView { clock: self.clock as nat, lines: self.lines@ }
    }
}

/// The names at the positions `idx` of `keys`.
spec fn names(keys: Seq<Seq<char>>, idx: Seq<usize>) -> Seq<Seq<char>> {
    Seq::new(idx.len(), |i: int| keys[idx[i] as int])
}

/// The names at the positions `stack` of `keys`, the last first.
spec fn pending(keys: Seq<Seq<char>>, stack: Seq<usize>) -> Seq<Seq<char>> {
    Seq::new(stack.len(), |i: int| keys[stack[stack.len() - 1 - i] as int])
}

/// Whether all positions lie within `n`.
spec fn within(idx: Seq<usize>, n: nat) -> bool {
    forall|i: int| 0 <= i < idx.len() ==> #[trigger] idx[i] < n
}

/// Whether the document walks down from the root to an end.
pub open spec fn readable(d: DocView) -> bool {
    tree::rooted(d.lines)
}

/// Whether the text `s` can be taken over: the document can be read, and there are numbers left
/// for the lines of the text that are not matched.
pub open spec fn takes(d: DocView, s: Seq<char>) -> bool {
    readable(d) && d.clock + lines_in(s).len() - matching(d, s).len() <= u64::MAX
}

/// The text that a document shows.
pub open spec fn rendered(d: DocView) -> Seq<char> {
    text::joined(tree::texts(d.lines, tree::visible(d.lines)))
}

impl TextDoc {
    /// Whether every line is filed under its own name.
    pub open spec fn wf(&self) -> bool {
        self.lines.wf() && tree::keyed(self.lines@)
    }

    /// The document without lines.
    pub fn empty() -> (d: TextDoc)
        ensures
            d.wf(),
            d@ == (DocView { clock: 0, lines: Map::empty() }),
            edit_laws::ready(d@),
            readable(d@),
    {
        proof {
            edit_laws::law_blank_doc_is_ready();
            edit_laws::law_ready_doc_is_readable(doc_laws::blank_doc());
        }
        TextDoc { clock: 0, lines: OrdMap::new() }
    }

    /// Tests whether the document can be read: the walk down from the root comes to an end.
    pub fn is_readable(&self) -> (r: bool)
        requires
            self.wf(),
        ensures
            r == readable(self@),
    {
        let n = self.lines.len();
        let mut cur = text::owned("ROOT");
        let mut steps: usize = 0;
        while steps < n
            invariant
                self.wf(),
                n == self.lines@.dom().len(),
                self.lines@.dom().finite(),
                steps <= n,
                cur@ == tree::step_up(self.lines@, tree::root(), steps as nat),
                tree::climbs(self.lines@, tree::root(), cur@, steps as nat),
                forall|e: nat|
                    0 < e <= steps ==> !#[trigger] tree::climbs(
                        self.lines@,
                        tree::root(),
                        tree::root(),
                        e,
                    ),
            decreases n - steps,
        {
            let next = match self.lines.get(&cur) {
                Some(line) => line.parent.clone(),
                None => {
                    proof {
                        assert forall|d: nat| d > 0 implies !#[trigger] tree::climbs(
                            self.lines@,
                            tree::root(),
                            tree::root(),
                            d,
                        ) by {
                            if tree::climbs(self.lines@, tree::root(), tree::root(), d) && d
                                > steps {
                                tree::lemma_cut(
                                    self.lines@,
                                    tree::root(),
                                    tree::root(),
                                    d,
                                    steps as nat,
                                );
                            }
                        }
                    }
                    return true;
                },
            };
            proof {
                assert(tree::climbs(self.lines@, self.lines@[cur@].parent, next@, 0));
                assert(tree::climbs(self.lines@, cur@, next@, 1));
                tree::lemma_climbs_on(
                    self.lines@,
                    tree::root(),
                    cur@,
                    next@,
                    steps as nat,
                    1,
                );
                assert(tree::climbs(self.lines@, tree::root(), next@, steps as nat + 1));
            }
            if text::same(&next, "ROOT") {
                assert(tree::climbs(self.lines@, tree::root(), tree::root(), steps as nat + 1));
                return false;
            }
            proof {
                if tree::climbs(self.lines@, tree::root(), tree::root(), steps as nat + 1) {
                    tree::lemma_same_steps(
                        self.lines@,
                        tree::root(),
                        next@,
                        tree::root(),
                        steps as nat + 1,
                    );
                }
            }
            cur = next;
            steps = steps + 1;
        }
        proof {
            if tree::attached(self.lines@, tree::root()) {
                let d = choose|d: nat|
                    d > 0 && #[trigger] tree::climbs(self.lines@, tree::root(), tree::root(), d);
                let e = tree::lemma_cycle_bound(self.lines@, d);
            }
        }
        true
    }

    /// The positions of the lines below the root, and of those below each line, in the order of
    /// their names.
    fn children(&self) -> (r: (Vec<usize>, Vec<Vec<usize>>))
        requires
            self.wf(),
        ensures
            ({
                let keys = ordmap::sorted(self.lines@.dom());
                &&& r.1@.len() == keys.len()
                &&& within(r.0@, keys.len())
                &&& names(keys, r.0@) == tree::below_in(self.lines@, keys, tree::root())
                &&& forall|i: int|
                    0 <= i < keys.len() ==> within((#[trigger] r.1@[i])@, keys.len()) && names(
                        keys,
                        r.1@[i]@,
                    ) == tree::below_in(self.lines@, keys, keys[i])
            }),
    {
        let n = self.lines.len();
        let ghost lines = self.lines@;
        let ghost keys = ordmap::sorted(lines.dom());
        let mut top: Vec<usize> = Vec::new();
        let mut kids: Vec<Vec<usize>> = Vec::new();
        let mut i: usize = 0;
        while i < n
            invariant
                i <= n,
                kids@.len() == i,
                forall|x: int| 0 <= x < i ==> (#[trigger] kids@[x])@.len() == 0,
            decreases n - i,
        {
            kids.push(Vec::new());
            i = i + 1;
        }
        let mut k: usize = 0;
        proof {
            assert(keys.take(0) =~= Seq::<Seq<char>>::empty());
            assert(names(keys, top@) =~= tree::below_in(lines, keys.take(0), tree::root()));
            assert forall|x: int| 0 <= x < n implies names(keys, (#[trigger] kids@[x])@)
                == tree::below_in(lines, keys.take(0), keys[x]) by {
                assert(names(keys, kids@[x]@) =~= Seq::<Seq<char>>::empty());
            }
        }
        while k < n
            invariant
                k <= n,
                self.wf(),
                lines == self.lines@,
                lines.dom().finite(),
                keys == ordmap::sorted(lines.dom()),
                n == keys.len(),
                kids@.len() == n,
                within(top@, n as nat),
                names(keys, top@) == tree::below_in(lines, keys.take(k as int), tree::root()),
                forall|x: int|
                    0 <= x < n ==> within((#[trigger] kids@[x])@, n as nat) && names(
                        keys,
                        kids@[x]@,
                    ) == tree::below_in(lines, keys.take(k as int), keys[x]),
            decreases n - k,
        {
            let parent = &self.lines.value(k).parent;
            let ghost me = keys[k as int];
            let ghost so_far = keys.take(k as int);
            let ghost next = keys.take(k + 1);
            proof {
                assert(next.drop_last() =~= so_far);
                assert(next.last() == me);
            }
            let ghost top0 = top@;
            if text::same(parent, "ROOT") {
                top.push(k);
                assert(names(keys, top@) =~= names(keys, top0).push(me));
            }
            let ghost kids0 = kids@;
            if let Some(p) = self.lines.index_of(parent) {
                kids[p].push(k);
                proof {
                    assert(names(keys, kids@[p as int]@) =~= names(keys, kids0[p as int]@).push(
                        me,
                    ));
                    assert forall|x: int| 0 <= x < n implies within(
                        (#[trigger] kids@[x])@,
                        n as nat,
                    ) && names(keys, kids@[x]@) == tree::below_in(lines, next, keys[x]) by {
                        if x != p {
                            assert(kids@[x] == kids0[x]);
                            lemma_distinct_keys(self, x, p as int);
                        }
                    }
                }
            } else {
                proof {
                    assert forall|x: int| 0 <= x < n implies within(
                        (#[trigger] kids@[x])@,
                        n as nat,
                    ) && names(keys, kids@[x]@) == tree::below_in(lines, next, keys[x]) by {
                        lemma_key_present(self, x);
                    }
                }
            }
            k = k + 1;
        }
        assert(keys.take(k as int) =~= keys);
        (top, kids)
    }

    /// The positions of the lines in reading order.
    fn reading_positions(&self) -> (r: Vec<usize>)
        requires
            self.wf(),
            readable(self@),
        ensures
            within(r@, ordmap::sorted(self.lines@.dom()).len()),
            names(ordmap::sorted(self.lines@.dom()), r@) == tree::reading_order(self.lines@),
    {
        let n = self.lines.len();
        let (top, kids) = self.children();
        let ghost lines = self.lines@;
        let ghost keys = ordmap::sorted(lines.dom());
        let ghost all = tree::reading_order(lines);
        let mut out: Vec<usize> = Vec::new();
        let mut stack: Vec<usize> = Vec::new();
        proof {
            tree::lemma_kids_attached(lines, tree::root());
        }
        push_all(&mut stack, &top, Ghost(keys));
        proof {
            assert(pending(keys, stack@) =~= tree::kids(lines, tree::root()));
            assert(names(keys, out@) =~= Seq::<Seq<char>>::empty());
            assert(names(keys, out@) + all =~= all);
        }
        while stack.len() > 0
            invariant
                self.wf(),
                readable(self@),
                lines == self.lines@,
                lines.dom().finite(),
                keys == ordmap::sorted(lines.dom()),
                n == keys.len(),
                n == lines.dom().len(),
                all == tree::reading_order(lines),
                within(stack@, n as nat),
                within(out@, n as nat),
                kids@.len() == n,
                forall|i: int|
                    0 <= i < n ==> within((#[trigger] kids@[i])@, n as nat) && names(
                        keys,
                        kids@[i]@,
                    ) == tree::below_in(lines, keys, keys[i]),
                forall|i: int|
                    0 <= i < stack@.len() ==> tree::attached(
                        lines,
                        #[trigger] pending(keys, stack@)[i],
                    ),
                names(keys, out@) + tree::walk(lines, pending(keys, stack@), n as nat) == all,
            decreases tree::walk(lines, pending(keys, stack@), n as nat).len(),
        {
            let ghost before = pending(keys, stack@);
            let ghost done = names(keys, out@);
            let x = stack[stack.len() - 1];
            let ghost me = keys[x as int];
            assert(before[0] == me);
            let _ = stack.pop();
            let ghost rest = pending(keys, stack@);
            proof {
                assert(before =~= seq![me] + rest);
                assert forall|i: int| 0 <= i < rest.len() implies tree::attached(
                    lines,
                    #[trigger] rest[i],
                ) by {
                    assert(rest[i] == before[i + 1]);
                }
                tree::lemma_walk_step(lines, me, rest);
                tree::lemma_kids_attached(lines, me);
            }
            out.push(x);
            assert(names(keys, out@) =~= done.push(me));
            push_all(&mut stack, &kids[x], Ghost(keys));
            proof {
                let now = pending(keys, stack@);
                let ks = tree::kids(lines, me);
                assert(now == ks + rest);
                assert forall|i: int| 0 <= i < now.len() implies tree::attached(
                    lines,
                    #[trigger] now[i],
                ) by {
                    if i < ks.len() {
                        assert(now[i] == ks[i]);
                    } else {
                        assert(now[i] == rest[i - ks.len()]);
                    }
                }
                assert(names(keys, out@) + tree::walk(lines, now, n as nat) =~= done + tree::walk(
                    lines,
                    before,
                    n as nat,
                ));
            }
        }
        proof {
            assert(pending(keys, stack@) =~= Seq::<Seq<char>>::empty());
            assert(names(keys, out@) + Seq::<Seq<char>>::empty() =~= names(keys, out@));
        }
        out
    }
}

/// The names and texts of shown lines.
pub open spec fn shown(r: Seq<(String, String)>) -> Seq<(Seq<char>, Seq<char>)> {
    Seq::new(r.len(), |i: int| (r[i].0@, r[i].1@))
}

/// The names and texts of the lines `ids`.
pub open spec fn with_texts(lines: tree::Lines, ids: Seq<Seq<char>>) -> Seq<
    (Seq<char>, Seq<char>),
> {
    Seq::new(ids.len(), |i: int| (ids[i], lines[ids[i]].text))
}

/// The document after merging `b` into `a`: it has the lines of both, and a line is deleted
/// where it is deleted in either. Of a line in both, what `a` says stands.
pub open spec fn merged(a: DocView, b: DocView) -> DocView {
    DocView {
        clock: if a.clock >= b.clock {
            a.clock
        } else {
            b.clock
        },
        lines: merged_lines(a.lines, b.lines),
    }
}

/// The lines of both `a` and `b`.
pub open spec fn merged_lines(a: tree::Lines, b: tree::Lines) -> tree::Lines {
    Map::new(
        |k: Seq<char>| a.dom().contains(k) || b.dom().contains(k),
        |k: Seq<char>|
            if !a.dom().contains(k) {
                b[k]
            } else if b.dom().contains(k) {
                LineView { tombstone: a[k].tombstone || b[k].tombstone, ..a[k] }
            } else {
                a[k]
            },
    )
}

/// The lines that a text is made of. A newline at the end is no line of its own.
pub open spec fn lines_in(s: Seq<char>) -> Seq<Seq<char>> {
    let parts = text::split_at_char(s, '\n');
    if parts.last().len() == 0 {
        parts.drop_last()
    } else {
        parts
    }
}

/// Whether position `i` of the old lines is matched.
pub open spec fn kept_old(p: Seq<(int, int)>, i: int) -> bool {
    exists|k: int| 0 <= k < p.len() && (#[trigger] p[k]).0 == i
}

/// Whether position `j` of the new lines is matched.
pub open spec fn kept_new(p: Seq<(int, int)>, j: int) -> bool {
    exists|k: int| 0 <= k < p.len() && (#[trigger] p[k]).1 == j
}

/// The position of the old lines that position `j` of the new ones is matched with.
pub open spec fn partner(p: Seq<(int, int)>, j: int) -> int {
    p[choose|k: int| 0 <= k < p.len() && (#[trigger] p[k]).1 == j].0
}

/// Whether the line `k` is one of the first `n` of `old` and not matched.
pub open spec fn dropped(old: Seq<Seq<char>>, p: Seq<(int, int)>, n: int, k: Seq<char>) -> bool {
    exists|i: int| 0 <= i < n && i < old.len() && #[trigger] old[i] == k && !kept_old(p, i)
}

/// `lines` with those of the first `n` of `old` deleted that are not matched.
pub open spec fn struck(
    lines: tree::Lines,
    old: Seq<Seq<char>>,
    p: Seq<(int, int)>,
    n: int,
) -> tree::Lines {
    Map::new(
        |k: Seq<char>| lines.dom().contains(k),
        |k: Seq<char>|
            if dropped(old, p, n, k) {
                LineView { tombstone: true, ..lines[k] }
            } else {
                lines[k]
            },
    )
}

/// The name of the line numbered `clock` on `device`.
pub open spec fn line_id(clock: nat, device: Seq<char>) -> Seq<char> {
    decimal::zero_padded(clock, 20).push('@') + device
}

/// How far the new lines have been written: the document so far, and the name of the line
/// before the next one.
pub struct Typed {
    /// The document so far.
    pub doc: DocView,
    /// The name of the line before the next one.
    pub last: Seq<char>,
}

/// `doc` with the first `n` of the `new` lines written. A matched line is the old one. Any other
/// is a line of its own, with the next number, below the line before it.
pub open spec fn typed(
    doc: DocView,
    old: Seq<Seq<char>>,
    new: Seq<Seq<char>>,
    p: Seq<(int, int)>,
    device: Seq<char>,
    n: nat,
) -> Typed
    decreases n,
{
    if n == 0 {
        Typed { doc, last: tree::root() }
    } else {
        let t = typed(doc, old, new, p, device, (n - 1) as nat);
        let j = n - 1;
        if kept_new(p, j) {
            Typed { doc: t.doc, last: old[partner(p, j)] }
        } else {
            let clock = t.doc.clock + 1;
            let id = line_id(clock, device);
            let line = LineView { id, parent: t.last, tombstone: false, text: new[j] };
            Typed { doc: DocView { clock, lines: t.doc.lines.insert(id, line) }, last: id }
        }
    }
}

/// Which lines that the document shows are matched with which lines of the text `s`.
pub open spec fn matching(d: DocView, s: Seq<char>) -> Seq<(int, int)> {
    lcs::matches_from(tree::texts(d.lines, tree::visible(d.lines)), lines_in(s), 0, 0)
}

/// The document `d` after its text has been changed to `s` on `device`: shown lines that are not
/// matched are deleted, and lines of the text that are not matched are written.
pub open spec fn edited(d: DocView, s: Seq<char>, device: Seq<char>) -> DocView {
    let old = tree::visible(d.lines);
    let p = matching(d, s);
    let start = DocView { clock: d.clock, lines: struck(d.lines, old, p, old.len() as int) };
    typed(start, old, lines_in(s), p, device, lines_in(s).len()).doc
}

/// The lines of `b` that are among `keys`.
spec fn only(b: tree::Lines, keys: Seq<Seq<char>>) -> tree::Lines {
    Map::new(|k: Seq<char>| b.dom().contains(k) && keys.contains(k), |k: Seq<char>| b[k])
}

impl TextDoc {
    /// The lines that the document shows, in order, each with its name.
    pub fn render_lines_with_ids(&self) -> (r: Vec<(String, String)>)
        requires
            self.wf(),
            readable(self@),
        ensures
            shown(r@) == with_texts(self@.lines, tree::visible(self@.lines)),
    {
        let ghost lines = self.lines@;
        let ghost keys = ordmap::sorted(lines.dom());
        let pos = self.reading_positions();
        let ghost all = tree::reading_order(lines);
        let mut out: Vec<(String, String)> = Vec::new();
        let mut i: usize = 0;
        proof {
            assert(all.take(0) =~= Seq::<Seq<char>>::empty());
            assert(shown(out@) =~= with_texts(lines, tree::live_in(lines, all.take(0))));
        }
        let n = self.lines.len();
        while i < pos.len()
            invariant
                self.wf(),
                lines == self.lines@,
                lines.dom().finite(),
                keys == ordmap::sorted(lines.dom()),
                i <= pos@.len(),
                within(pos@, keys.len()),
                all == names(keys, pos@),
                shown(out@) == with_texts(lines, tree::live_in(lines, all.take(i as int))),
            decreases pos@.len() - i,
        {
            let ghost me = all[i as int];
            proof {
                assert(me == keys[pos@[i as int] as int]);
                assert(all.take(i + 1).drop_last() =~= all.take(i as int));
                assert(all.take(i + 1).last() == me);
                lemma_key_present(self, pos@[i as int] as int);
            }
            let line = self.lines.value(pos[i]);
            let ghost done = shown(out@);
            let ghost ids = tree::live_in(lines, all.take(i as int));
            if !line.tombstone {
                out.push((line.id.clone(), line.text.clone()));
                assert(shown(out@) =~= done.push((me, lines[me].text)));
                assert(shown(out@) =~= with_texts(lines, ids.push(me)));
            }
            i = i + 1;
        }
        assert(all.take(i as int) =~= all);
        out
    }

    /// The text that the document shows.
    pub fn render(&self) -> (r: String)
        requires
            self.wf(),
            readable(self@),
        ensures
            r@ == rendered(self@),
    {
        let ls = self.render_lines_with_ids();
        let ghost ts = tree::texts(self@.lines, tree::visible(self@.lines));
        let mut out = String::new();
        let mut i: usize = 0;
        proof {
            let pairs = shown(ls@);
            assert(ts.len() == pairs.len());
            assert forall|k: int| 0 <= k < ts.len() implies #[trigger] ts[k] == ls@[k].1@ by {
                assert(pairs[k].1 == ls@[k].1@);
            }
            assert(ts.take(0) =~= Seq::<Seq<char>>::empty());
        }
        while i < ls.len()
            invariant
                i <= ls@.len(),
                ts.len() == ls@.len(),
                forall|k: int| 0 <= k < ts.len() ==> #[trigger] ts[k] == ls@[k].1@,
                out@ == text::joined(ts.take(i as int)),
            decreases ls@.len() - i,
        {
            let ghost done = out@;
            out.append(&ls[i].1);
            out.push('\n');
            proof {
                assert(ts.take(i + 1).drop_last() =~= ts.take(i as int));
                assert(ts.take(i + 1).last() == ts[i as int]);
                assert(out@ =~= done + ts[i as int].push('\n'));
            }
            i = i + 1;
        }
        assert(ts.take(i as int) =~= ts);
        out
    }

    /// Which lines that the document shows are matched with which of the lines `new_lines`.
    fn match_lines(&self, shown_lines: &Vec<(String, String)>, new_lines: &Vec<String>) -> (r: Vec<
        (usize, usize),
    >)
        requires
            shown(shown_lines@) == with_texts(self@.lines, tree::visible(self@.lines)),
        ensures
            lcs::pair_views(r@) == lcs::matches_from(
                tree::texts(self@.lines, tree::visible(self@.lines)),
                text::views(new_lines@),
                0,
                0,
            ),
    {
        let old_texts = second_parts(shown_lines);
        proof {
            let ids = tree::visible(self@.lines);
            let sh = shown(shown_lines@);
            assert(sh.len() == ids.len());
            assert forall|i: int| 0 <= i < sh.len() implies text::views(old_texts@)[i]
                == tree::texts(self@.lines, ids)[i] by {
                assert(sh[i].1 == shown_lines@[i].1@);
                assert(with_texts(self@.lines, ids)[i].1 == self@.lines[ids[i]].text);
            }
            assert(text::views(old_texts@) =~= tree::texts(self@.lines, ids));
        }
        lcs::lcs_pairs(&old_texts, new_lines)
    }

    /// Tests whether a text can be taken over: the document can be read, and there are numbers
    /// left for the lines of the text that are not matched.
    pub fn can_take(&self, new_text: &str) -> (r: bool)
        requires
            self.wf(),
        ensures
            r == takes(self@, new_text@),
    {
        if !self.is_readable() {
            return false;
        }
        let shown_lines = self.render_lines_with_ids();
        let new_lines = split_lines(new_text);
        let pairs = self.match_lines(&shown_lines, &new_lines);
        proof {
            let old_texts = tree::texts(self@.lines, tree::visible(self@.lines));
            lcs::lemma_matches_common(old_texts, lines_in(new_text@), 0, 0);
            lemma_room(matching(self@, new_text@), 0, 0, lines_in(new_text@).len() as int);
        }
        (new_lines.len() - pairs.len()) as u64 <= u64::MAX - self.clock
    }

    /// Takes over a text that was changed on `device`. A document that is ready for it, as all are
    /// that come of taking over texts and merging, then shows the text as it is, with a newline at
    /// its end.
    pub fn apply_local_text(&mut self, new_text: &str, device: &str)
        requires
            old(self).wf(),
            takes(old(self)@, new_text@),
        ensures
            final(self).wf(),
            final(self)@ == edited(old(self)@, new_text@, device@),
            edit_laws::ready(old(self)@) ==> edit_laws::ready(final(self)@) && readable(
                final(self)@,
            ) && rendered(final(self)@) == doc_laws::ended(new_text@),
    {
        proof {
            if edit_laws::ready(self@) {
                edit_laws::law_edited_doc_is_ready(self@, new_text@, device@);
                edit_laws::law_ready_doc_is_readable(edited(self@, new_text@, device@));
            }
        }
        let ghost was = self@;
        let shown_lines = self.render_lines_with_ids();
        let ghost old_ids = tree::visible(was.lines);
        let ghost new = lines_in(new_text@);
        let new_lines = split_lines(new_text);
        let pairs = self.match_lines(&shown_lines, &new_lines);
        let ghost p = matching(was, new_text@);
        proof {
            let sh = shown(shown_lines@);
            assert(sh == with_texts(was.lines, old_ids));
            assert(sh.len() == old_ids.len());
            assert(lcs::pair_views(pairs@) == p);
            lcs::lemma_matches_common(tree::texts(was.lines, old_ids), new, 0, 0);
            assert forall|i: int| 0 <= i < shown_lines@.len() implies (#[trigger] shown_lines@[i]).0@
                == old_ids[i] by {
                assert(sh[i].0 == shown_lines@[i].0@);
                assert(with_texts(was.lines, old_ids)[i].0 == old_ids[i]);
            }
        }
        self.strike(&shown_lines, &pairs, Ghost(old_ids), Ghost(p));
        let ghost start = self@;
        proof {
            assert(start =~= DocView {
                clock: was.clock,
                lines: struck(was.lines, old_ids, p, old_ids.len() as int),
            });
        }
        let mut last = text::owned("ROOT");
        let mut q: usize = 0;
        let mut j: usize = 0;
        while j < new_lines.len()
            invariant
                self.wf(),
                j <= new_lines@.len(),
                text::views(new_lines@) == new,
                q <= pairs@.len(),
                lcs::pair_views(pairs@) == p,
                lcs::common(tree::texts(was.lines, old_ids), new, p),
                shown_lines@.len() == old_ids.len(),
                forall|i: int|
                    0 <= i < shown_lines@.len() ==> (#[trigger] shown_lines@[i]).0@ == old_ids[i],
                forall|k: int| 0 <= k < q ==> (#[trigger] p[k]).1 < j,
                forall|k: int| q <= k < p.len() ==> (#[trigger] p[k]).1 >= j,
                self@ == typed(start, old_ids, new, p, device@, j as nat).doc,
                last@ == typed(start, old_ids, new, p, device@, j as nat).last,
                self.clock == was.clock + j - q,
                was.clock + new.len() - p.len() <= u64::MAX,
            decreases new_lines@.len() - j,
        {
            if q < pairs.len() && pairs[q].1 == j {
                proof {
                    assert(p[q as int].1 == j);
                    assert(kept_new(p, j as int));
                    let k = choose|k: int| 0 <= k < p.len() && (#[trigger] p[k]).1 == j;
                    lemma_one_pair(p, q as int, k);
                    assert(pairs@[q as int].0 as int == p[q as int].0);
                    assert forall|k: int| q + 1 <= k < p.len() implies (#[trigger] p[k]).1 >= j
                        + 1 by {
                        assert(p[q as int].1 < p[k].1);
                    }
                }
                last = shown_lines[pairs[q].0].0.clone();
                q = q + 1;
            } else {
                proof {
                    assert forall|k: int| q <= k < p.len() implies (#[trigger] p[k]).1 >= j + 1 by {
                        assert(p[q as int].1 == pairs@[q as int].1 as int);
                        if k > q {
                            assert(p[q as int].1 < p[k].1);
                        }
                    }
                    assert(!kept_new(p, j as int));
                    lemma_room(p, q as int, j + 1, new.len() as int);
                }
                self.clock = self.clock + 1;
                let mut id = decimal::padded(self.clock, 20);
                id.push('@');
                id.append(device);
                assert(text::views(new_lines@)[j as int] == new_lines@[j as int]@);
                let line = Line {
                    id: id.clone(),
                    parent: last,
                    tombstone: false,
                    text: new_lines[j].clone(),
                };
                self.lines.insert(id.clone(), line);
                last = id;
            }
            j = j + 1;
        }
    }

    /// Deletes the shown lines that are not matched.
    fn strike(
        &mut self,
        shown_lines: &Vec<(String, String)>,
        pairs: &Vec<(usize, usize)>,
        Ghost(old_ids): Ghost<Seq<Seq<char>>>,
        Ghost(p): Ghost<Seq<(int, int)>>,
    )
        requires
            old(self).wf(),
            lcs::pair_views(pairs@) == p,
            shown_lines@.len() == old_ids.len(),
            forall|i: int|
                0 <= i < shown_lines@.len() ==> (#[trigger] shown_lines@[i]).0@ == old_ids[i],
            forall|k: int, l: int|
                0 <= k < l < p.len() ==> (#[trigger] p[k]).0 < (#[trigger] p[l]).0,
            forall|k: int| 0 <= k < p.len() ==> 0 <= (#[trigger] p[k]).0,
        ensures
            final(self).wf(),
            final(self).clock == old(self).clock,
            final(self).lines@ == struck(old(self).lines@, old_ids, p, old_ids.len() as int),
    {
        let ghost was = self.lines@;
        let mut q: usize = 0;
        let mut i: usize = 0;
        assert(self.lines@ =~= struck(was, old_ids, p, 0));
        while i < shown_lines.len()
            invariant
                self.wf(),
                self.clock == old(self).clock,
                tree::keyed(was),
                i <= shown_lines@.len(),
                shown_lines@.len() == old_ids.len(),
                forall|x: int|
                    0 <= x < shown_lines@.len() ==> (#[trigger] shown_lines@[x]).0@ == old_ids[x],
                q <= pairs@.len(),
                lcs::pair_views(pairs@) == p,
                forall|k: int, l: int|
                    0 <= k < l < p.len() ==> (#[trigger] p[k]).0 < (#[trigger] p[l]).0,
                forall|k: int| 0 <= k < q ==> (#[trigger] p[k]).0 < i,
                forall|k: int| q <= k < p.len() ==> (#[trigger] p[k]).0 >= i,
                self.lines@ == struck(was, old_ids, p, i as int),
            decreases shown_lines@.len() - i,
        {
            let ghost cur = self.lines@;
            if q < pairs.len() && pairs[q].0 == i {
                proof {
                    assert(p[q as int].0 == i);
                    assert(kept_old(p, i as int));
                    assert forall|k: int| q + 1 <= k < p.len() implies (#[trigger] p[k]).0 >= i
                        + 1 by {
                        assert(p[q as int].0 < p[k].0);
                    }
                    assert forall|k: Seq<char>| #[trigger] dropped(old_ids, p, i + 1, k) <==> dropped(
                        old_ids,
                        p,
                        i as int,
                        k,
                    ) by {
                        lemma_dropped_next(old_ids, p, i as int, k);
                    }
                    assert(self.lines@ =~= struck(was, old_ids, p, i + 1));
                }
                q = q + 1;
            } else {
                proof {
                    assert forall|k: int| q <= k < p.len() implies (#[trigger] p[k]).0 >= i + 1 by {
                        assert(p[q as int].0 == pairs@[q as int].0 as int);
                        if k > q {
                            assert(p[q as int].0 < p[k].0);
                        }
                    }
                    assert(!kept_old(p, i as int));
                    assert forall|k: Seq<char>| #[trigger] dropped(old_ids, p, i + 1, k) <==> dropped(
                        old_ids,
                        p,
                        i as int,
                        k,
                    ) || k == old_ids[i as int] by {
                        lemma_dropped_next(old_ids, p, i as int, k);
                    }
                }
                let id = &shown_lines[i].0;
                let next = match self.lines.get(id) {
                    Some(line) => {
                        let mut l = line.copy();
                        l.tombstone = true;
                        Some(l)
                    },
                    None => None,
                };
                if let Some(l) = next {
                    self.lines.insert(id.clone(), l);
                }
                assert(self.lines@ =~= struck(was, old_ids, p, i + 1));
            }
            i = i + 1;
        }
    }

    /// Takes over the lines of `other` and its deletions.
    pub fn merge(&mut self, other: &TextDoc)
        requires
            old(self).wf(),
            other.wf(),
        ensures
            final(self).wf(),
            final(self)@ == merged(old(self)@, other@),
            edit_laws::ready(old(self)@) && edit_laws::ready(other@) ==> edit_laws::ready(
                final(self)@,
            ) && readable(final(self)@),
    {
        proof {
            if edit_laws::ready(self@) && edit_laws::ready(other@) {
                edit_laws::law_merged_doc_is_ready(self@, other@);
                edit_laws::law_ready_doc_is_readable(merged(self@, other@));
            }
        }
        let ghost was = self@;
        let ghost theirs = other.lines@;
        if other.clock > self.clock {
            self.clock = other.clock;
        }
        let n = other.lines.len();
        let ghost keys = ordmap::sorted(theirs.dom());
        let mut i: usize = 0;
        proof {
            assert(merged_lines(was.lines, only(theirs, keys.take(0))) =~= was.lines) by {
                assert(keys.take(0) =~= Seq::<Seq<char>>::empty());
            }
        }
        while i < n
            invariant
                self.wf(),
                other.wf(),
                i <= n,
                theirs == other.lines@,
                theirs.dom().finite(),
                keys == ordmap::sorted(theirs.dom()),
                n == keys.len(),
                self.clock == (if was.clock >= other.clock { was.clock } else { other.clock as nat }),
                self.lines@ == merged_lines(was.lines, only(theirs, keys.take(i as int))),
                tree::keyed(was.lines),
            decreases n - i,
        {
            let id = other.lines.key(i);
            let line = other.lines.value(i);
            let ghost me = keys[i as int];
            let ghost cur = self.lines@;
            proof {
                ordmap::lemma_sorted_exists(theirs.dom());
                assert forall|j: int| 0 <= j < i implies keys[j] != me by {
                    ordmap::lemma_ascending_distinct(keys, j, i as int);
                }
                text::lemma_take_next(keys, i as int);
                assert(!keys.take(i as int).contains(me));
            }
            let next = match self.lines.get(id) {
                Some(mine) => {
                    let mut l = mine.copy();
                    l.tombstone = mine.tombstone || line.tombstone;
                    l
                },
                None => line.copy(),
            };
            self.lines.insert(id.clone(), next);
            i = i + 1;
            assert(self.lines@ =~= merged_lines(was.lines, only(theirs, keys.take(i as int))));
        }
        proof {
            assert(keys.take(i as int) =~= keys);
            ordmap::lemma_sorted_exists(theirs.dom());
            assert(only(theirs, keys) =~= theirs) by {
                assert forall|k: Seq<char>| theirs.dom().contains(k) implies keys.contains(k) by {}
            }
        }
    }
}

/// A position of the new lines is in one pair at most.
proof fn lemma_one_pair(p: Seq<(int, int)>, k: int, l: int)
    requires
        forall|k: int, l: int| 0 <= k < l < p.len() ==> (#[trigger] p[k]).1 < (#[trigger] p[l]).1,
        0 <= k < p.len(),
        0 <= l < p.len(),
        p[k].1 == p[l].1,
    ensures
        k == l,
{
    if k < l {
        assert(p[k].1 < p[l].1);
    } else if l < k {
        assert(p[l].1 < p[k].1);
    }
}

/// There are no more ascending positions than fit between two bounds.
proof fn lemma_room(p: Seq<(int, int)>, q: int, lo: int, hi: int)
    requires
        forall|k: int, l: int| 0 <= k < l < p.len() ==> (#[trigger] p[k]).1 < (#[trigger] p[l]).1,
        0 <= q <= p.len(),
        lo <= hi,
        forall|k: int| q <= k < p.len() ==> lo <= (#[trigger] p[k]).1 < hi,
    ensures
        p.len() - q <= hi - lo,
    decreases p.len() - q,
{
    if q < p.len() {
        let first = p[q].1;
        assert forall|k: int| q + 1 <= k < p.len() implies lo + 1 <= (#[trigger] p[k]).1 < hi by {
            assert(p[q].1 < p[k].1);
        }
        lemma_room(p, q + 1, lo + 1, hi);
    }
}

/// Which lines are dropped when one more position is looked at.
pub proof fn lemma_dropped_next(old: Seq<Seq<char>>, p: Seq<(int, int)>, n: int, k: Seq<char>)
    requires
        0 <= n < old.len(),
    ensures
        dropped(old, p, n + 1, k) <==> dropped(old, p, n, k) || (old[n] == k && !kept_old(p, n)),
{
    if dropped(old, p, n + 1, k) {
        let i = choose|i: int|
            0 <= i < n + 1 && i < old.len() && #[trigger] old[i] == k && !kept_old(p, i);
        if i < n {
            assert(dropped(old, p, n, k));
        }
    }
    if dropped(old, p, n, k) {
        let i = choose|i: int|
            0 <= i < n && i < old.len() && #[trigger] old[i] == k && !kept_old(p, i);
        assert(old[i] == k);
    }
    if old[n] == k && !kept_old(p, n) {
        assert(0 <= n < n + 1);
    }
}

/// The second parts of a list of pairs.
fn second_parts(v: &Vec<(String, String)>) -> (r: Vec<String>)
    ensures
        r@.len() == v@.len(),
        forall|i: int| 0 <= i < v@.len() ==> (#[trigger] r@[i])@ == v@[i].1@,
{
    let mut out: Vec<String> = Vec::new();
    let mut i: usize = 0;
    while i < v.len()
        invariant
            i <= v@.len(),
            out@.len() == i,
            forall|k: int| 0 <= k < i ==> (#[trigger] out@[k])@ == v@[k].1@,
        decreases v@.len() - i,
    {
        out.push(v[i].1.clone());
        i = i + 1;
    }
    out
}

/// The lines that a text is made of.
fn split_lines(s: &str) -> (r: Vec<String>)
    ensures
        text::views(r@) == lines_in(s@),
{
    let mut parts = text::split(s, '\n');
    let n = parts.len();
    let ghost all = text::views(parts@);
    assert(all[n - 1] == parts@[n - 1]@);
    if parts[n - 1].as_str().is_empty() {
        let _ = parts.pop();
        assert(text::views(parts@) =~= all.drop_last());
    }
    parts
}

/// Puts `idx` on the stack. Its last position comes out first.
fn push_all(stack: &mut Vec<usize>, idx: &Vec<usize>, Ghost(keys): Ghost<Seq<Seq<char>>>)
    ensures
        pending(keys, final(stack)@) == names(keys, idx@).reverse() + pending(keys, old(stack)@),
        forall|n: nat| within(old(stack)@, n) && within(idx@, n) ==> within(final(stack)@, n),
{
    let ghost was = stack@;
    let ghost all = names(keys, idx@);
    let mut c: usize = 0;
    assert(pending(keys, stack@) =~= all.take(0).reverse() + pending(keys, was));
    while c < idx.len()
        invariant
            c <= idx@.len(),
            all == names(keys, idx@),
            pending(keys, stack@) == all.take(c as int).reverse() + pending(keys, was),
            forall|n: nat| within(was, n) && within(idx@, n) ==> within(stack@, n),
        decreases idx@.len() - c,
    {
        let ghost s0 = stack@;
        let ghost done = all.take(c as int);
        stack.push(idx[c]);
        assert(pending(keys, stack@) =~= seq![all[c as int]] + pending(keys, s0));
        assert(all.take(c + 1).reverse() =~= seq![all[c as int]] + done.reverse());
        c = c + 1;
        assert(pending(keys, stack@) =~= all.take(c as int).reverse() + pending(keys, was));
    }
    assert(all.take(c as int) =~= all);
}

/// Different positions have different keys.
proof fn lemma_distinct_keys(d: &TextDoc, x: int, y: int)
    requires
        d.wf(),
        d.lines@.dom().finite(),
        0 <= x < ordmap::sorted(d.lines@.dom()).len(),
        0 <= y < ordmap::sorted(d.lines@.dom()).len(),
        x != y,
    ensures
        ordmap::sorted(d.lines@.dom())[x] != ordmap::sorted(d.lines@.dom())[y],
{
    ordmap::lemma_sorted_exists(d.lines@.dom());
    ordmap::lemma_ascending_distinct(ordmap::sorted(d.lines@.dom()), x, y);
}

/// Every listed key is one of the map.
proof fn lemma_key_present(d: &TextDoc, x: int)
    requires
        d.wf(),
        d.lines@.dom().finite(),
        0 <= x < ordmap::sorted(d.lines@.dom()).len(),
    ensures
        d.lines@.dom().contains(ordmap::sorted(d.lines@.dom())[x]),
{
    let keys = ordmap::sorted(d.lines@.dom());
    ordmap::lemma_sorted_exists(d.lines@.dom());
    assert(keys.contains(keys[x]));
}

} // verus!
