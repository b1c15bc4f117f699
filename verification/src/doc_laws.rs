//! What holds of documents whatever their lines are.

use vstd::prelude::*;
use vstd::string::*;

use crate::decimal;
use crate::lcs;
use crate::text;
use crate::textdoc;
use crate::textdoc::DocView;
use crate::tree;
use crate::tree::LineView;

verus! {

/// Whether two documents say the same of the lines that both have, deletions apart.
pub open spec fn agree(a: DocView, b: DocView) -> bool {
    forall|k: Seq<char>|
        #![trigger a.lines.dom().contains(k)]
        #![trigger b.lines.dom().contains(k)]
        a.lines.dom().contains(k) && b.lines.dom().contains(k) ==> a.lines[k].id == b.lines[k].id
            && a.lines[k].parent == b.lines[k].parent && a.lines[k].text == b.lines[k].text
}

/// Merging a document with itself changes nothing.
pub proof fn law_merge_idempotent(a: DocView)
    ensures
        textdoc::merged(a, a) == a,
{
    assert(textdoc::merged_lines(a.lines, a.lines) =~= a.lines);
}

/// Two documents that agree become the same document, whichever is merged into the other.
pub proof fn law_merge_commutative(a: DocView, b: DocView)
    requires
        agree(a, b),
    ensures
        textdoc::merged(a, b) == textdoc::merged(b, a),
{
    assert(textdoc::merged_lines(a.lines, b.lines) =~= textdoc::merged_lines(b.lines, a.lines));
}

/// The order in which three documents are merged does not matter.
pub proof fn law_merge_associative(a: DocView, b: DocView, c: DocView)
    ensures
        textdoc::merged(textdoc::merged(a, b), c) == textdoc::merged(a, textdoc::merged(b, c)),
{
    let l = textdoc::merged_lines(textdoc::merged_lines(a.lines, b.lines), c.lines);
    let r = textdoc::merged_lines(a.lines, textdoc::merged_lines(b.lines, c.lines));
    assert(l =~= r);
}

/// After a round of synchronisation both sides hold one document: the first merges what the
/// second has, then the second merges the outcome.
pub proof fn law_sync_converges(a: DocView, b: DocView)
    requires
        agree(a, b),
    ensures
        textdoc::merged(b, textdoc::merged(a, b)) == textdoc::merged(a, b),
        textdoc::rendered(textdoc::merged(b, textdoc::merged(a, b))) == textdoc::rendered(
            textdoc::merged(a, b),
        ),
{
    let m = textdoc::merged_lines(a.lines, b.lines);
    assert(textdoc::merged_lines(b.lines, m) =~= m);
}

/// Merging loses no line and takes back no deletion, on either side.
pub proof fn law_merge_keeps_lines(a: DocView, b: DocView, k: Seq<char>)
    requires
        a.lines.dom().contains(k) || b.lines.dom().contains(k),
    ensures
        textdoc::merged(a, b).lines.dom().contains(k),
        textdoc::merged(a, b).lines[k].tombstone <==> (a.lines.dom().contains(k)
            && a.lines[k].tombstone) || (b.lines.dom().contains(k) && b.lines[k].tombstone),
        a.lines.dom().contains(k) ==> textdoc::merged(a, b).lines[k].text == a.lines[k].text
            && textdoc::merged(a, b).lines[k].parent == a.lines[k].parent,
        !a.lines.dom().contains(k) ==> textdoc::merged(a, b).lines[k] == b.lines[k],
{
}

/// What each line ended makes of the pieces of a text.
proof fn lemma_joined_split(s: Seq<char>)
    ensures
        text::joined(text::split_at_char(s, '\n')) == s.push('\n'),
        text::split_at_char(s, '\n').last().len() == 0 <==> s.len() == 0 || s.last() == '\n',
    decreases s.len(),
{
    let parts = text::split_at_char(s, '\n');
    if s.len() == 0 {
        let e = Seq::<char>::empty();
        assert(parts == seq![e]);
        assert(parts.drop_last() =~= Seq::<Seq<char>>::empty());
        assert(text::joined(parts.drop_last()) =~= e);
        assert(text::joined(parts) =~= s.push('\n'));
    } else {
        let r = s.drop_last();
        lemma_joined_split(r);
        text::lemma_split_nonempty(r, '\n');
        let head = text::split_at_char(r, '\n');
        if s.last() == '\n' {
            assert(parts.drop_last() =~= head);
            assert(text::joined(parts) =~= s.push('\n'));
        } else {
            let h = text::joined(head.drop_last());
            assert(parts.drop_last() =~= head.drop_last());
            assert(h + head.last().push('\n') == r.push('\n'));
            assert(h + head.last() =~= (h + head.last().push('\n')).drop_last());
            assert(r.push('\n').drop_last() =~= r);
            assert(text::joined(parts) =~= h + head.last().push(s.last()).push('\n'));
            assert(h + head.last().push(s.last()).push('\n') =~= (h + head.last()).push(
                s.last(),
            ).push('\n'));
            assert(r.push(s.last()) =~= s);
        }
    }
}

/// `s`, ended by a newline where it is not empty.
pub open spec fn ended(s: Seq<char>) -> Seq<char> {
    if s.len() == 0 || s.last() == '\n' {
        s
    } else {
        s.push('\n')
    }
}

/// The lines of a text, each ended, are the text, ended.
pub proof fn lemma_joined_lines(s: Seq<char>)
    ensures
        text::joined(textdoc::lines_in(s)) == ended(s),
{
    lemma_joined_split(s);
    text::lemma_split_nonempty(s, '\n');
    let parts = text::split_at_char(s, '\n');
    if parts.last().len() == 0 {
        let h = text::joined(parts.drop_last());
        assert(parts.last() =~= Seq::<char>::empty());
        assert(h + parts.last().push('\n') =~= h.push('\n'));
        assert(h =~= h.push('\n').drop_last());
        assert(s.push('\n').drop_last() =~= s);
    }
}

/// Lines that hold no newline are found again in the text that they make.
proof fn lemma_lines_joined(ls: Seq<Seq<char>>)
    requires
        forall|i: int| 0 <= i < ls.len() ==> !(#[trigger] ls[i]).contains('\n'),
    ensures
        textdoc::lines_in(text::joined(ls)) == ls,
{
    text::lemma_split_joined(ls);
    assert(ls.push(Seq::<char>::empty()).drop_last() =~= ls);
}

/// Taking over the text that a document shows changes nothing, where no line holds a newline.
pub proof fn law_reimport_unchanged(d: DocView, device: Seq<char>)
    requires
        forall|i: int|
            0 <= i < tree::visible(d.lines).len() ==> !d.lines[#[trigger] tree::visible(
                d.lines,
            )[i]].text.contains('\n'),
    ensures
        textdoc::edited(d, textdoc::rendered(d), device) == d,
{
    let old = tree::visible(d.lines);
    let ts = tree::texts(d.lines, old);
    assert forall|i: int| 0 <= i < ts.len() implies !(#[trigger] ts[i]).contains('\n') by {
        assert(ts[i] == d.lines[old[i]].text);
    }
    lemma_lines_joined(ts);
    lcs::lemma_matches_same(ts, 0);
    let p = textdoc::matching(d, textdoc::rendered(d));
    assert(p =~= Seq::new(ts.len(), |k: int| (k, k)));
    let n = ts.len();
    assert forall|i: int| 0 <= i < n implies #[trigger] textdoc::kept_old(p, i) by {
        assert(p[i].0 == i);
    }
    assert forall|j: int| 0 <= j < n implies #[trigger] textdoc::kept_new(p, j) by {
        assert(p[j].1 == j);
    }
    assert(textdoc::struck(d.lines, old, p, n as int) =~= d.lines);
    let start = DocView { clock: d.clock, lines: textdoc::struck(d.lines, old, p, n as int) };
    lemma_all_kept(start, old, ts, p, device, n);
}

/// Where every line is matched, nothing is written.
pub proof fn lemma_all_kept(
    doc: DocView,
    old: Seq<Seq<char>>,
    new: Seq<Seq<char>>,
    p: Seq<(int, int)>,
    device: Seq<char>,
    n: nat,
)
    requires
        forall|j: int| 0 <= j < n ==> #[trigger] textdoc::kept_new(p, j),
    ensures
        textdoc::typed(doc, old, new, p, device, n).doc == doc,
    decreases n,
{
    if n > 0 {
        lemma_all_kept(doc, old, new, p, device, (n - 1) as nat);
        assert(textdoc::kept_new(p, n - 1));
    }
}

/// Lines with different numbers have different names, and none is named as the root.
pub proof fn lemma_line_id(m: nat, n: nat, device: Seq<char>)
    ensures
        textdoc::line_id(m, device) == textdoc::line_id(n, device) ==> m == n,
        textdoc::line_id(m, device) != tree::root(),
{
    decimal::lemma_zero_padded(m, 20);
    decimal::lemma_zero_padded(n, 20);
    let a = decimal::zero_padded(m, 20);
    let b = decimal::zero_padded(n, 20);
    let x = textdoc::line_id(m, device);
    let y = textdoc::line_id(n, device);
    if x == y {
        assert(x[a.len() as int] == '@');
        assert(y[b.len() as int] == '@');
        if a.len() < b.len() {
            assert(y[a.len() as int] == b[a.len() as int]);
            assert(decimal::is_digit(b[a.len() as int]));
        } else if b.len() < a.len() {
            assert(x[b.len() as int] == a[b.len() as int]);
            assert(decimal::is_digit(a[b.len() as int]));
        }
        assert(x.take(a.len() as int) =~= a);
        assert(y.take(b.len() as int) =~= b);
    }
    reveal_strlit("ROOT");
    assert(decimal::is_digit(a[0]));
    assert(x[0] == a[0]);
    assert(tree::root()[0] == 'R');
}

/// Whether the numbers that `device` will give next are new to the document: no line has such a
/// name, and none stands below one.
pub open spec fn numbers_ahead(d: DocView, device: Seq<char>) -> bool {
    forall|c: nat, k: Seq<char>|
        #![trigger textdoc::line_id(c, device), d.lines.dom().contains(k)]
        c > d.clock && d.lines.dom().contains(k) ==> k != textdoc::line_id(c, device)
            && d.lines[k].parent != textdoc::line_id(c, device)
}

/// Merging keeps the numbers of a device ahead.
pub proof fn law_merge_numbers_ahead(a: DocView, b: DocView, device: Seq<char>)
    requires
        numbers_ahead(a, device),
        numbers_ahead(b, device),
    ensures
        numbers_ahead(textdoc::merged(a, b), device),
{
    let m = textdoc::merged(a, b);
    assert forall|c: nat, k: Seq<char>|
        #![trigger textdoc::line_id(c, device), m.lines.dom().contains(k)]
        c > m.clock && m.lines.dom().contains(k) implies k != textdoc::line_id(c, device)
        && m.lines[k].parent != textdoc::line_id(c, device) by {
        assert(a.lines.dom().contains(k) || b.lines.dom().contains(k));
    }
}

/// Steps up from a line do not change where lines are added that none stands below.
proof fn lemma_same_way_up(a: tree::Lines, b: tree::Lines, id: Seq<char>, n: nat)
    requires
        a.dom().subset_of(b.dom()),
        forall|k: Seq<char>| #[trigger] a.dom().contains(k) ==> a[k].parent == b[k].parent,
        forall|k: Seq<char>| #[trigger]
            a.dom().contains(k) && b.dom().contains(a[k].parent) ==> a.dom().contains(a[k].parent),
        a.dom().contains(id) || !b.dom().contains(id),
    ensures
        tree::climbs(a, id, tree::root(), n) == tree::climbs(b, id, tree::root(), n),
    decreases n,
{
    if n > 0 && a.dom().contains(id) {
        lemma_same_way_up(a, b, a[id].parent, (n - 1) as nat);
    }
}

/// The same lines are attached where lines are added that none stands below.
pub proof fn lemma_same_attached(a: tree::Lines, b: tree::Lines, id: Seq<char>)
    requires
        a.dom().subset_of(b.dom()),
        forall|k: Seq<char>| #[trigger] a.dom().contains(k) ==> a[k].parent == b[k].parent,
        forall|k: Seq<char>| #[trigger]
            a.dom().contains(k) && b.dom().contains(a[k].parent) ==> a.dom().contains(a[k].parent),
        a.dom().contains(id) || !b.dom().contains(id),
    ensures
        tree::attached(a, id) == tree::attached(b, id),
{
    if tree::attached(a, id) {
        let n = choose|n: nat| n > 0 && #[trigger] tree::climbs(a, id, tree::root(), n);
        lemma_same_way_up(a, b, id, n);
        assert(tree::climbs(b, id, tree::root(), n));
    }
    if tree::attached(b, id) {
        let n = choose|n: nat| n > 0 && #[trigger] tree::climbs(b, id, tree::root(), n);
        lemma_same_way_up(a, b, id, n);
        assert(tree::climbs(a, id, tree::root(), n));
    }
}

/// The name of the line at position `j` of the text that a document was changed to.
pub open spec fn written(d: DocView, s: Seq<char>, device: Seq<char>, j: int) -> Seq<char> {
    typed_so_far(d, s, device, (j + 1) as nat).last
}

/// The document `d` with the first `n` lines of the changed text `s` written.
pub open spec fn typed_so_far(d: DocView, s: Seq<char>, device: Seq<char>, n: nat) -> textdoc::Typed {
    let old = tree::visible(d.lines);
    let p = textdoc::matching(d, s);
    let start = DocView {
        clock: d.clock,
        lines: textdoc::struck(d.lines, old, p, old.len() as int),
    };
    textdoc::typed(start, old, textdoc::lines_in(s), p, device, n)
}

/// Whether `k` is a line that was numbered after `lo` and up to `hi` on `device`.
pub open spec fn numbered(k: Seq<char>, lo: nat, hi: nat, device: Seq<char>) -> bool {
    exists|c: nat| lo < c <= hi && #[trigger] textdoc::line_id(c, device) == k
}

/// What the document is like when `n` lines of the changed text are written.
pub open spec fn typed_well(d: DocView, s: Seq<char>, device: Seq<char>, n: nat) -> bool {
    let old = tree::visible(d.lines);
    let p = textdoc::matching(d, s);
    let new = textdoc::lines_in(s);
    let t = typed_so_far(d, s, device, n);
    let lines = t.doc.lines;
    &&& t.doc.clock >= d.clock
    &&& lines.dom().finite()
    &&& forall|k: Seq<char>| #[trigger]
        lines.dom().contains(k) <==> d.lines.dom().contains(k) || numbered(
            k,
            d.clock,
            t.doc.clock,
            device,
        )
    &&& forall|k: Seq<char>|
        d.lines.dom().contains(k) ==> #[trigger] lines[k] == textdoc::struck(
            d.lines,
            old,
            p,
            old.len() as int,
        )[k]
    &&& forall|c: nat|
        d.clock < c <= t.doc.clock ==> tree::attached(
            lines,
            #[trigger] textdoc::line_id(c, device),
        ) && !lines[textdoc::line_id(c, device)].tombstone
    &&& forall|c: nat|
        d.clock < c <= t.doc.clock ==> exists|j: int|
            0 <= j < n && written(d, s, device, j) == #[trigger] textdoc::line_id(c, device)
    &&& forall|j: int|
        0 <= j < n ==> tree::attached(lines, #[trigger] written(d, s, device, j))
            && !lines[written(d, s, device, j)].tombstone && lines[written(d, s, device, j)].text
            == new[j] && (d.lines.dom().contains(written(d, s, device, j)) <==> textdoc::kept_new(
            p,
            j,
        ))
    &&& forall|i: int, j: int|
        0 <= i < j < n ==> #[trigger] written(d, s, device, i) != #[trigger] written(
            d,
            s,
            device,
            j,
        )
    &&& forall|k: Seq<char>, c: nat|
        #![trigger lines.dom().contains(k), textdoc::line_id(c, device)]
        lines.dom().contains(k) && c > t.doc.clock ==> lines[k].parent != textdoc::line_id(c, device)
            && k != textdoc::line_id(c, device)
}

/// What is attached is a line.
pub proof fn lemma_attached_is_line(lines: tree::Lines, id: Seq<char>)
    requires
        tree::attached(lines, id),
    ensures
        lines.dom().contains(id),
{
    let n = choose|n: nat| n > 0 && #[trigger] tree::climbs(lines, id, tree::root(), n);
}

/// The lines of the document stay attached as they were while the changed text is written.
proof fn lemma_old_attached(d: DocView, s: Seq<char>, device: Seq<char>, n: nat, k: Seq<char>)
    requires
        numbers_ahead(d, device),
        typed_well(d, s, device, n),
        d.lines.dom().contains(k) || k == tree::root(),
    ensures
        tree::attached(typed_so_far(d, s, device, n).doc.lines, k) == tree::attached(d.lines, k),
{
    let t = typed_so_far(d, s, device, n);
    let lines = t.doc.lines;
    assert forall|x: Seq<char>| #[trigger]
        d.lines.dom().contains(x) && lines.dom().contains(
            d.lines[x].parent,
        ) implies d.lines.dom().contains(d.lines[x].parent) by {
        let y = d.lines[x].parent;
        if !d.lines.dom().contains(y) {
            assert(numbered(y, d.clock, t.doc.clock, device));
            let c = choose|c: nat|
                d.clock < c <= t.doc.clock && #[trigger] textdoc::line_id(c, device) == y;
            assert(d.lines[x].parent != textdoc::line_id(c, device));
        }
    }
    assert forall|x: Seq<char>| #[trigger] d.lines.dom().contains(x) implies d.lines[x].parent
        == lines[x].parent by {
        assert(lines.dom().contains(x));
        assert(lines[x] == textdoc::struck(
            d.lines,
            tree::visible(d.lines),
            textdoc::matching(d, s),
            tree::visible(d.lines).len() as int,
        )[x]);
    }
    assert(d.lines.dom().subset_of(lines.dom()));
    if !d.lines.dom().contains(k) && lines.dom().contains(k) {
        let c = choose|c: nat|
            d.clock < c <= t.doc.clock && #[trigger] textdoc::line_id(c, device) == k;
        lemma_line_id(c, c, device);
    }
    lemma_same_attached(d.lines, lines, k);
}

/// A matched line is the old one, and says what the text says.
proof fn lemma_typed_kept(d: DocView, s: Seq<char>, device: Seq<char>, n: nat)
    requires
        d.lines.dom().finite(),
        textdoc::readable(d),
        numbers_ahead(d, device),
        n < textdoc::lines_in(s).len(),
        typed_well(d, s, device, n),
        textdoc::kept_new(textdoc::matching(d, s), n as int),
    ensures
        typed_well(d, s, device, n + 1),
{
    let old = tree::visible(d.lines);
    let p = textdoc::matching(d, s);
    let new = textdoc::lines_in(s);
    let t = typed_so_far(d, s, device, n);
    let lines = t.doc.lines;
    lcs::lemma_matches_common(tree::texts(d.lines, old), new, 0, 0);
    let u = typed_so_far(d, s, device, n + 1);
    assert(u.doc == t.doc);
    let j = n as int;
    let x = choose|x: int| 0 <= x < p.len() && (#[trigger] p[x]).1 == j;
    let i = p[x].0;
    assert(textdoc::partner(p, j) == i);
    let me = written(d, s, device, j);
    assert(me == old[i]);
    tree::law_visible(d.lines);
    assert(old.contains(old[i]));
    lemma_attached_is_line(d.lines, me);
    lemma_old_attached(d, s, device, n, me);
    if textdoc::dropped(old, p, old.len() as int, me) {
        let i2 = choose|i2: int|
            0 <= i2 < old.len() && #[trigger] old[i2] == me && !textdoc::kept_old(p, i2);
        assert(i2 == i);
        assert(p[x].0 == i);
    }
    assert(lines.dom().contains(me));
    assert(lines[me] == textdoc::struck(d.lines, old, p, old.len() as int)[me]);
    assert(tree::texts(d.lines, old)[i] == new[j]);
    assert forall|a: int| 0 <= a < j implies #[trigger] written(d, s, device, a) != me by {
        if written(d, s, device, a) == me {
            assert(textdoc::kept_new(p, a));
            let y = choose|y: int| 0 <= y < p.len() && (#[trigger] p[y]).1 == a;
            assert(written(d, s, device, a) == old[p[y].0]);
            if x < y {
                assert(p[x].1 < p[y].1);
            } else if y < x {
                assert(p[y].0 < p[x].0);
                assert(old[p[y].0] != old[p[x].0]);
            }
        }
    }
    assert forall|c: nat| d.clock < c <= u.doc.clock implies exists|a: int|
        0 <= a < n + 1 && written(d, s, device, a) == #[trigger] textdoc::line_id(c, device) by {
        let a = choose|a: int|
            0 <= a < n && written(d, s, device, a) == textdoc::line_id(c, device);
        assert(0 <= a < n + 1 && written(d, s, device, a) == textdoc::line_id(c, device));
    }
    assert forall|a: int| 0 <= a < n + 1 implies tree::attached(
        u.doc.lines,
        #[trigger] written(d, s, device, a),
    ) && !u.doc.lines[written(d, s, device, a)].tombstone && u.doc.lines[written(
        d,
        s,
        device,
        a,
    )].text == new[a] && (d.lines.dom().contains(written(d, s, device, a)) <==> textdoc::kept_new(
        p,
        a,
    )) by {
        if a == j {
        }
    }
    assert forall|a: int, b: int| 0 <= a < b < n + 1 implies #[trigger] written(d, s, device, a)
        != #[trigger] written(d, s, device, b) by {
        if b == j {
            assert(written(d, s, device, b) == me);
        }
    }
}

/// A line that is not matched is a new one below the line before it.
#[verifier::rlimit(50)]
proof fn lemma_typed_new(d: DocView, s: Seq<char>, device: Seq<char>, n: nat)
    requires
        d.lines.dom().finite(),
        textdoc::readable(d),
        numbers_ahead(d, device),
        n < textdoc::lines_in(s).len(),
        typed_well(d, s, device, n),
        !textdoc::kept_new(textdoc::matching(d, s), n as int),
    ensures
        typed_well(d, s, device, n + 1),
{
    let old = tree::visible(d.lines);
    let p = textdoc::matching(d, s);
    let new = textdoc::lines_in(s);
    let t = typed_so_far(d, s, device, n);
    let lines = t.doc.lines;
    let u = typed_so_far(d, s, device, n + 1);
    let after = u.doc.lines;
    let j = n as int;
    let c1 = t.doc.clock + 1;
    let id = textdoc::line_id(c1, device);
    let line = LineView { id, parent: t.last, tombstone: false, text: new[j] };
    assert(u.doc.clock == c1);
    assert(after == lines.insert(id, line));
    assert(written(d, s, device, j) == id);
    assert(!lines.dom().contains(id));
    if n > 0 {
        assert(t.last == written(d, s, device, j - 1));
        lemma_attached_is_line(lines, t.last);
    } else {
        assert(t.last == tree::root());
    }
    assert forall|k: Seq<char>| lines.dom().contains(k) implies #[trigger] tree::attached(after, k)
        == tree::attached(lines, k) by {
        assert forall|x: Seq<char>| #[trigger]
            lines.dom().contains(x) && after.dom().contains(lines[x].parent) implies lines.dom().contains(
            lines[x].parent,
        ) by {
            assert(lines[x].parent != textdoc::line_id(c1, device));
        }
        assert(lines.dom().subset_of(after.dom()));
        lemma_same_attached(lines, after, k);
    }
    // The new line is attached.
    if n > 0 {
        assert(tree::attached(after, t.last));
        let e = choose|e: nat| e > 0 && #[trigger] tree::climbs(after, t.last, tree::root(), e);
        assert(tree::climbs(after, id, tree::root(), e + 1));
    } else {
        assert(tree::climbs(after, after[id].parent, tree::root(), 0));
        assert(tree::climbs(after, id, tree::root(), 1));
    }
    assert(tree::attached(after, id));
    assert forall|k: Seq<char>| #[trigger] after.dom().contains(k) <==> d.lines.dom().contains(k)
        || numbered(k, d.clock, c1, device) by {
        if lines.dom().contains(k) && !d.lines.dom().contains(k) {
            let c = choose|c: nat|
                d.clock < c <= t.doc.clock && #[trigger] textdoc::line_id(c, device) == k;
            assert(d.clock < c <= c1 && textdoc::line_id(c, device) == k);
        }
        if k == id {
            assert(d.clock < c1 <= c1 && textdoc::line_id(c1, device) == k);
        }
        if numbered(k, d.clock, c1, device) && k != id {
            let c = choose|c: nat| d.clock < c <= c1 && #[trigger] textdoc::line_id(c, device) == k;
            assert(numbered(k, d.clock, t.doc.clock, device));
        }
    }
    assert(!d.lines.dom().contains(id));
    assert forall|k: Seq<char>| d.lines.dom().contains(k) implies #[trigger] after[k]
        == textdoc::struck(d.lines, old, p, old.len() as int)[k] by {
        assert(lines[k] == textdoc::struck(d.lines, old, p, old.len() as int)[k]);
    }
    assert forall|c: nat| d.clock < c <= c1 implies tree::attached(
        after,
        #[trigger] textdoc::line_id(c, device),
    ) && !after[textdoc::line_id(c, device)].tombstone by {
        if c < c1 {
            let k = textdoc::line_id(c, device);
            lemma_line_id(c, c1, device);
            lemma_attached_is_line(lines, k);
        }
    }
    assert forall|c: nat| d.clock < c <= c1 implies exists|a: int|
        0 <= a < n + 1 && written(d, s, device, a) == #[trigger] textdoc::line_id(c, device) by {
        if c < c1 {
            let a = choose|a: int|
                0 <= a < n && written(d, s, device, a) == textdoc::line_id(c, device);
            assert(0 <= a < n + 1 && written(d, s, device, a) == textdoc::line_id(c, device));
        } else {
            assert(written(d, s, device, j) == textdoc::line_id(c, device));
        }
    }
    assert forall|a: int| 0 <= a < n + 1 implies tree::attached(
        after,
        #[trigger] written(d, s, device, a),
    ) && !after[written(d, s, device, a)].tombstone && after[written(d, s, device, a)].text
        == new[a] && (d.lines.dom().contains(written(d, s, device, a)) <==> textdoc::kept_new(
        p,
        a,
    )) by {
        if a < j {
            lemma_attached_is_line(lines, written(d, s, device, a));
        }
    }
    assert forall|a: int, b: int| 0 <= a < b < n + 1 implies #[trigger] written(d, s, device, a)
        != #[trigger] written(d, s, device, b) by {
        if b == j {
            lemma_attached_is_line(lines, written(d, s, device, a));
        }
    }
    assert forall|k: Seq<char>, c: nat|
        #![trigger after.dom().contains(k), textdoc::line_id(c, device)]
        after.dom().contains(k) && c > c1 implies after[k].parent != textdoc::line_id(c, device)
        && k != textdoc::line_id(c, device) by {
        lemma_line_id(c, c1, device);
        if k == id {
            if n > 0 {
                assert(lines.dom().contains(t.last));
            }
        } else {
            assert(lines.dom().contains(k));
        }
    }
}

/// Every step of writing the changed text keeps the document as it should be.
pub proof fn lemma_typed_well(d: DocView, s: Seq<char>, device: Seq<char>, n: nat)
    requires
        d.lines.dom().finite(),
        textdoc::readable(d),
        numbers_ahead(d, device),
        n <= textdoc::lines_in(s).len(),
    ensures
        typed_well(d, s, device, n),
    decreases n,
{
    if n > 0 {
        let m = (n - 1) as nat;
        lemma_typed_well(d, s, device, m);
        if textdoc::kept_new(textdoc::matching(d, s), m as int) {
            lemma_typed_kept(d, s, device, m);
        } else {
            lemma_typed_new(d, s, device, m);
        }
    } else {
        let old = tree::visible(d.lines);
        let p = textdoc::matching(d, s);
        let start = textdoc::struck(d.lines, old, p, old.len() as int);
        assert(start.dom() =~= d.lines.dom());
        assert(typed_so_far(d, s, device, 0).doc.lines == start);
        assert forall|k: Seq<char>| !numbered(k, d.clock, d.clock, device) by {}
    }
}

/// How many of the first `n` lines of a text are not matched.
pub open spec fn unmatched(p: Seq<(int, int)>, n: nat) -> nat
    decreases n,
{
    if n == 0 {
        0
    } else {
        unmatched(p, (n - 1) as nat) + if textdoc::kept_new(p, n - 1) {
            0nat
        } else {
            1nat
        }
    }
}

/// Of the first `n` lines of a text, as many are matched as there are pairs that lie there.
proof fn lemma_unmatched(p: Seq<(int, int)>, n: nat) -> (q: nat)
    requires
        forall|k: int, l: int| 0 <= k < l < p.len() ==> (#[trigger] p[k]).1 < (#[trigger] p[l]).1,
        forall|k: int| 0 <= k < p.len() ==> 0 <= (#[trigger] p[k]).1,
    ensures
        q <= p.len(),
        forall|k: int| 0 <= k < q ==> (#[trigger] p[k]).1 < n,
        forall|k: int| q <= k < p.len() ==> (#[trigger] p[k]).1 >= n,
        unmatched(p, n) + q == n,
    decreases n,
{
    if n == 0 {
        0
    } else {
        let q = lemma_unmatched(p, (n - 1) as nat);
        if textdoc::kept_new(p, n - 1) {
            let k = choose|k: int| 0 <= k < p.len() && (#[trigger] p[k]).1 == n - 1;
            if q < k {
                assert(p[q as int].1 < p[k].1);
            }
            assert(k == q);
            assert forall|l: int| q + 1 <= l < p.len() implies (#[trigger] p[l]).1 >= n by {
                assert(p[k].1 < p[l].1);
            }
            q + 1
        } else {
            assert forall|l: int| q <= l < p.len() implies (#[trigger] p[l]).1 >= n by {
                if p[l].1 == n - 1 {
                    assert(textdoc::kept_new(p, n - 1));
                }
            }
            q
        }
    }
}

/// The lines of a text are those that are matched and those that are not.
pub proof fn lemma_unmatched_in_text(d: DocView, s: Seq<char>)
    ensures
        unmatched(textdoc::matching(d, s), textdoc::lines_in(s).len()) + textdoc::matching(
            d,
            s,
        ).len() == textdoc::lines_in(s).len(),
{
    let p = textdoc::matching(d, s);
    let new = textdoc::lines_in(s);
    lcs::lemma_matches_common(tree::texts(d.lines, tree::visible(d.lines)), new, 0, 0);
    let q = lemma_unmatched(p, new.len());
    if q < p.len() {
        assert(p[q as int].1 >= new.len());
    }
}

/// Every line of the changed text that is not matched takes the next number.
pub proof fn lemma_typed_clock(d: DocView, s: Seq<char>, device: Seq<char>, n: nat)
    ensures
        typed_so_far(d, s, device, n).doc.clock == d.clock + unmatched(
            textdoc::matching(d, s),
            n,
        ),
    decreases n,
{
    if n > 0 {
        lemma_typed_clock(d, s, device, (n - 1) as nat);
    }
}

/// After a text has been taken over, the document shows exactly the lines of that text: each
/// position of the text has a line of its own that is shown and says what stands there, and no
/// other line is shown. The document can still be read, and the numbers stay ahead. In which
/// order the lines are shown is another matter: see [`crate::edit_laws::law_edit_is_exact`].
pub proof fn law_edit_content(d: DocView, s: Seq<char>, device: Seq<char>)
    requires
        d.lines.dom().finite(),
        textdoc::readable(d),
        numbers_ahead(d, device),
    ensures
        ({
            let e = textdoc::edited(d, s, device);
            let n = textdoc::lines_in(s).len();
            &&& textdoc::readable(e)
            &&& numbers_ahead(e, device)
            &&& e.lines.dom().finite()
            &&& forall|j: int|
                0 <= j < n ==> tree::visible(e.lines).contains(
                    #[trigger] written(d, s, device, j),
                ) && e.lines[written(d, s, device, j)].text == textdoc::lines_in(s)[j]
            &&& forall|i: int, j: int|
                0 <= i < j < n ==> #[trigger] written(d, s, device, i) != #[trigger] written(
                    d,
                    s,
                    device,
                    j,
                )
            &&& forall|k: Seq<char>| #[trigger]
                tree::visible(e.lines).contains(k) ==> exists|j: int|
                    0 <= j < n && #[trigger] written(d, s, device, j) == k
        }),
{
    let n = textdoc::lines_in(s).len();
    let e = textdoc::edited(d, s, device);
    let old = tree::visible(d.lines);
    let p = textdoc::matching(d, s);
    lemma_typed_well(d, s, device, n);
    assert(typed_so_far(d, s, device, n).doc == e);
    lemma_old_attached(d, s, device, n, tree::root());
    tree::law_visible(d.lines);
    tree::law_visible(e.lines);
    lcs::lemma_matches_common(tree::texts(d.lines, old), textdoc::lines_in(s), 0, 0);
    assert forall|k: Seq<char>| #[trigger] tree::visible(e.lines).contains(k) implies exists|j: int|
        0 <= j < n && #[trigger] written(d, s, device, j) == k by {
        lemma_attached_is_line(e.lines, k);
        if d.lines.dom().contains(k) {
            lemma_old_attached(d, s, device, n, k);
            assert(e.lines[k] == textdoc::struck(d.lines, old, p, old.len() as int)[k]);
            assert(!textdoc::dropped(old, p, old.len() as int, k));
            assert(old.contains(k));
            let i = choose|i: int| 0 <= i < old.len() && old[i] == k;
            assert(textdoc::kept_old(p, i));
            let x = choose|x: int| 0 <= x < p.len() && (#[trigger] p[x]).0 == i;
            let j = p[x].1;
            assert(textdoc::kept_new(p, j));
            let y = choose|y: int| 0 <= y < p.len() && (#[trigger] p[y]).1 == j;
            if x < y {
                assert(p[x].1 < p[y].1);
            } else if y < x {
                assert(p[y].1 < p[x].1);
            }
            assert(written(d, s, device, j) == k);
        } else {
            let c = choose|c: nat|
                d.clock < c <= e.clock && #[trigger] textdoc::line_id(c, device) == k;
            assert(textdoc::line_id(c, device) == k);
        }
    }
}

/// The document without lines.
pub open spec fn blank_doc() -> DocView {
    DocView { clock: 0, lines: Map::empty() }
}

/// The name before the line numbered `c` of a document that was written in one go.
#[verifier::opaque]
spec fn previous(c: nat, device: Seq<char>) -> Seq<char> {
    if c <= 1 {
        tree::root()
    } else {
        textdoc::line_id((c - 1) as nat, device)
    }
}

/// What stands before the line numbered `c`.
proof fn lemma_previous(c: nat, device: Seq<char>)
    ensures
        c <= 1 ==> previous(c, device) == tree::root(),
        c > 1 ==> previous(c, device) == textdoc::line_id((c - 1) as nat, device),
{
    reveal(previous);
}

/// Whether `lines` is a chain: the lines numbered from 1 to `n`, each below the one before it.
spec fn is_chain(lines: tree::Lines, new: Seq<Seq<char>>, device: Seq<char>, n: nat) -> bool {
    &&& forall|k: Seq<char>| #[trigger] lines.dom().contains(k) <==> numbered(k, 0, n, device)
    &&& forall|c: nat|
        0 < c <= n ==> lines[#[trigger] textdoc::line_id(c, device)] == (LineView {
            id: textdoc::line_id(c, device),
            parent: previous(c, device),
            tombstone: false,
            text: new[c - 1],
        })
}

/// A text taken over by an empty document makes a chain.
proof fn lemma_chain(s: Seq<char>, device: Seq<char>, n: nat)
    requires
        n <= textdoc::lines_in(s).len(),
    ensures
        ({
            let t = typed_so_far(blank_doc(), s, device, n);
            &&& t.doc.clock == n
            &&& t.last == previous(n + 1, device)
            &&& t.doc.lines.dom().finite()
            &&& is_chain(t.doc.lines, textdoc::lines_in(s), device, n)
        }),
    decreases n,
{
    let d = blank_doc();
    let old = tree::visible(d.lines);
    let p = textdoc::matching(d, s);
    let new = textdoc::lines_in(s);
    let t = typed_so_far(d, s, device, n);
    lemma_blank_visible();
    lemma_previous(n + 1, device);
    assert(p.len() == 0);
    if n == 0 {
        assert(textdoc::struck(d.lines, old, p, 0).dom() =~= d.lines.dom());
        assert forall|k: Seq<char>| !numbered(k, 0, 0, device) by {}
    } else {
        let m = (n - 1) as nat;
        lemma_chain(s, device, m);
        let t0 = typed_so_far(d, s, device, m);
        assert(!textdoc::kept_new(p, m as int));
        let id = textdoc::line_id(n, device);
        assert forall|k: Seq<char>| #[trigger] t.doc.lines.dom().contains(k) <==> numbered(
            k,
            0,
            n,
            device,
        ) by {
            if t0.doc.lines.dom().contains(k) {
                let c = choose|c: nat| 0 < c <= m && #[trigger] textdoc::line_id(c, device) == k;
                assert(0 < c <= n && textdoc::line_id(c, device) == k);
            }
            if numbered(k, 0, n, device) {
                let c = choose|c: nat| 0 < c <= n && #[trigger] textdoc::line_id(c, device) == k;
                if c < n {
                    assert(numbered(k, 0, m, device));
                }
            }
            if k == id {
                assert(0 < n <= n && textdoc::line_id(n, device) == k);
            }
        }
        assert forall|c: nat| 0 < c <= n implies t.doc.lines[#[trigger] textdoc::line_id(c, device)]
            == (LineView {
            id: textdoc::line_id(c, device),
            parent: previous(c, device),
            tombstone: false,
            text: new[c - 1],
        }) by {
            lemma_line_id(c, n, device);
        }
    }
}

/// An empty document shows nothing.
proof fn lemma_blank_visible()
    ensures
        tree::visible(blank_doc().lines) == Seq::<Seq<char>>::empty(),
        textdoc::readable(blank_doc()),
{
    let lines = blank_doc().lines;
    tree::lemma_rooted_without_root_line(lines);
    tree::law_visible(lines);
    let v = tree::visible(lines);
    if v.len() > 0 {
        assert(v.contains(v[0]));
        lemma_attached_is_line(lines, v[0]);
    }
    assert(v =~= Seq::<Seq<char>>::empty());
}

/// Below each line of a chain stands the next one.
proof fn lemma_chain_kids(lines: tree::Lines, new: Seq<Seq<char>>, device: Seq<char>, n: nat, c: nat)
    requires
        lines.dom().finite(),
        is_chain(lines, new, device, n),
        0 < c <= n + 1,
    ensures
        tree::kids(lines, previous(c, device)) == (if c <= n {
            seq![textdoc::line_id(c, device)]
        } else {
            Seq::<Seq<char>>::empty()
        }),
{
    let x = previous(c, device);
    let ks = tree::kids(lines, x);
    tree::lemma_kids(lines, x);
    assert forall|k: Seq<char>| ks.contains(k) implies c <= n && k == textdoc::line_id(
        c,
        device,
    ) by {
        let b = choose|b: nat| 0 < b <= n && #[trigger] textdoc::line_id(b, device) == k;
        assert(previous(b, device) == x);
        lemma_previous(b, device);
        lemma_previous(c, device);
        if b > 1 && c > 1 {
            lemma_line_id((b - 1) as nat, (c - 1) as nat, device);
        } else if b > 1 {
            lemma_line_id((b - 1) as nat, 0, device);
        } else if c > 1 {
            lemma_line_id((c - 1) as nat, 0, device);
        }
    }
    if c <= n {
        let id = textdoc::line_id(c, device);
        assert(numbered(id, 0, n, device));
        assert(ks.contains(id));
        assert(ks.contains(ks[0]));
        if ks.len() > 1 {
            assert(ks.contains(ks[1]));
            assert(ks[0] != ks[1]);
        }
        assert(ks =~= seq![id]);
    } else {
        if ks.len() > 0 {
            assert(ks.contains(ks[0]));
        }
        assert(ks =~= Seq::<Seq<char>>::empty());
    }
}

/// A chain is walked from its first line to its last.
proof fn lemma_chain_walk(
    lines: tree::Lines,
    new: Seq<Seq<char>>,
    device: Seq<char>,
    n: nat,
    c: nat,
    depth: nat,
)
    requires
        lines.dom().finite(),
        is_chain(lines, new, device, n),
        0 < c <= n + 1,
        depth >= n - c,
    ensures
        tree::walk(lines, tree::kids(lines, previous(c, device)), depth) == Seq::new(
            (n + 1 - c) as nat,
            |i: int| textdoc::line_id((c + i) as nat, device),
        ),
    decreases n + 1 - c,
{
    lemma_chain_kids(lines, new, device, n, c);
    let want = Seq::new(
        (n + 1 - c) as nat,
        |i: int| textdoc::line_id((c + i) as nat, device),
    );
    let ids = tree::kids(lines, previous(c, device));
    if c <= n {
        let id = textdoc::line_id(c, device);
        assert(ids.drop_first() =~= Seq::<Seq<char>>::empty());
        lemma_previous(c + 1, device);
        let none = Seq::<Seq<char>>::empty();
        assert(tree::walk(lines, none, depth) =~= none);
        let under = if depth == 0 {
            none
        } else {
            tree::walk(lines, tree::kids(lines, id), (depth - 1) as nat)
        };
        if depth > 0 {
            lemma_chain_walk(lines, new, device, n, c + 1, (depth - 1) as nat);
        }
        assert(ids[0] == id);
        assert(tree::walk(lines, ids, depth) == seq![id] + under + none);
        assert(seq![id] + under + none =~= want);
    } else {
        assert(tree::walk(lines, ids, depth) =~= want);
    }
}

/// None of lines that are not deleted is left out.
proof fn lemma_all_live(lines: tree::Lines, ids: Seq<Seq<char>>)
    requires
        forall|i: int| 0 <= i < ids.len() ==> !lines[#[trigger] ids[i]].tombstone,
    ensures
        tree::live_in(lines, ids) == ids,
    decreases ids.len(),
{
    if ids.len() > 0 {
        assert forall|i: int| 0 <= i < ids.drop_last().len() implies !lines[#[trigger] ids.drop_last()[i]].tombstone by {
            assert(ids.drop_last()[i] == ids[i]);
        }
        lemma_all_live(lines, ids.drop_last());
        assert(!lines[ids[ids.len() - 1]].tombstone);
        assert(ids.drop_last().push(ids.last()) =~= ids);
    } else {
        assert(ids =~= Seq::<Seq<char>>::empty());
    }
}

/// A text that is taken over for the first time is shown as it is, with a newline at its end.
pub proof fn law_first_import(s: Seq<char>, device: Seq<char>)
    ensures
        textdoc::rendered(textdoc::edited(blank_doc(), s, device)) == ended(s),
{
    let new = textdoc::lines_in(s);
    let n = new.len();
    lemma_chain(s, device, n);
    let e = textdoc::edited(blank_doc(), s, device);
    assert(typed_so_far(blank_doc(), s, device, n).doc == e);
    lemma_blank_visible();
    law_edit_content(blank_doc(), s, device);
    // As many lines as the text has.
    let ids = Seq::new(n, |i: int| textdoc::line_id((1 + i) as nat, device));
    assert(e.lines.dom() =~= ids.to_set()) by {
        assert forall|k: Seq<char>| e.lines.dom().contains(k) <==> ids.to_set().contains(k) by {
            if e.lines.dom().contains(k) {
                let c = choose|c: nat| 0 < c <= n && #[trigger] textdoc::line_id(c, device) == k;
                assert(ids[c - 1] == k);
                assert(ids.contains(k));
            }
            if ids.to_set().contains(k) {
                assert(ids.contains(k));
                let i = choose|i: int| 0 <= i < ids.len() && ids[i] == k;
                assert(textdoc::line_id((1 + i) as nat, device) == k);
                assert(numbered(k, 0, n, device));
            }
        }
    }
    assert(ids.no_duplicates()) by {
        assert forall|i: int, j: int|
            0 <= i < ids.len() && 0 <= j < ids.len() && i != j implies ids[i] != ids[j] by {
            lemma_line_id((1 + i) as nat, (1 + j) as nat, device);
        }
    }
    ids.unique_seq_to_set();
    lemma_previous(1, device);
    lemma_chain_walk(e.lines, new, device, n, 1, e.lines.dom().len());
    assert(tree::reading_order(e.lines) =~= ids);
    assert forall|i: int| 0 <= i < ids.len() implies !e.lines[#[trigger] ids[i]].tombstone by {
        assert(ids[i] == textdoc::line_id((1 + i) as nat, device));
    }
    lemma_all_live(e.lines, ids);
    assert(tree::texts(e.lines, ids) =~= new) by {
        assert forall|i: int| 0 <= i < n implies tree::texts(e.lines, ids)[i] == new[i] by {
            assert(ids[i] == textdoc::line_id((1 + i) as nat, device));
        }
    }
    lemma_joined_lines(s);
}

} // verus!
