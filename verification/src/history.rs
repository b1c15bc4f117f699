//! Why documents that were edited on several devices can be merged: no two devices ever give one
//! name to two lines.

use vstd::prelude::*;

use crate::decimal;
use crate::doc_laws;
use crate::textdoc;
use crate::textdoc::DocView;
use crate::tree;
use crate::tree::LineView;

verus! {

/// Whether two lines say the same at the same place, deleted or not.
pub open spec fn same_line(a: LineView, b: LineView) -> bool {
    a.id == b.id && a.parent == b.parent && a.text == b.text
}

/// Whether every line of a document is one of the lines `h` that were ever written.
pub open spec fn drawn_from(d: DocView, h: tree::Lines) -> bool {
    forall|k: Seq<char>| #[trigger]
        d.lines.dom().contains(k) ==> h.dom().contains(k) && same_line(d.lines[k], h[k])
}

/// Whether no line with a number above `clock` was ever written on `device`.
pub open spec fn unwritten(h: tree::Lines, device: Seq<char>, clock: nat) -> bool {
    forall|c: nat| c > clock ==> !h.dom().contains(#[trigger] textdoc::line_id(c, device))
}

/// The lines that were ever written, with those of `d`.
pub open spec fn with_lines_of(h: tree::Lines, d: DocView) -> tree::Lines {
    Map::new(
        |k: Seq<char>| h.dom().contains(k) || d.lines.dom().contains(k),
        |k: Seq<char>|
            if h.dom().contains(k) {
                h[k]
            } else {
                d.lines[k]
            },
    )
}

/// Lines that were numbered on different devices, or with different numbers, have different
/// names.
pub proof fn law_names_are_unique(m: nat, a: Seq<char>, n: nat, b: Seq<char>)
    requires
        textdoc::line_id(m, a) == textdoc::line_id(n, b),
    ensures
        m == n,
        a == b,
{
    decimal::lemma_zero_padded(m, 20);
    decimal::lemma_zero_padded(n, 20);
    let x = decimal::zero_padded(m, 20);
    let y = decimal::zero_padded(n, 20);
    let s = textdoc::line_id(m, a);
    let t = textdoc::line_id(n, b);
    assert(s[x.len() as int] == '@');
    assert(t[y.len() as int] == '@');
    if x.len() < y.len() {
        assert(t[x.len() as int] == y[x.len() as int]);
        assert(decimal::is_digit(y[x.len() as int]));
    } else if y.len() < x.len() {
        assert(s[y.len() as int] == x[y.len() as int]);
        assert(decimal::is_digit(x[y.len() as int]));
    }
    assert(s.take(x.len() as int) =~= x);
    assert(t.take(y.len() as int) =~= y);
    assert(s.skip(x.len() as int + 1) =~= a);
    assert(t.skip(y.len() as int + 1) =~= b);
}

/// Documents whose lines are among those that were ever written agree, and so a sync makes them
/// one document.
pub proof fn law_drawn_documents_agree(a: DocView, b: DocView, h: tree::Lines)
    requires
        drawn_from(a, h),
        drawn_from(b, h),
    ensures
        doc_laws::agree(a, b),
        textdoc::merged(a, b) == textdoc::merged(b, a),
        textdoc::merged(b, textdoc::merged(a, b)) == textdoc::merged(a, b),
{
    assert(doc_laws::agree(a, b)) by {
        assert forall|k: Seq<char>|
            #![trigger a.lines.dom().contains(k)]
            #![trigger b.lines.dom().contains(k)]
            a.lines.dom().contains(k) && b.lines.dom().contains(k) implies a.lines[k].id
            == b.lines[k].id && a.lines[k].parent == b.lines[k].parent && a.lines[k].text
            == b.lines[k].text by {
            assert(same_line(a.lines[k], h[k]));
            assert(same_line(b.lines[k], h[k]));
        }
    }
    doc_laws::law_merge_commutative(a, b);
    doc_laws::law_sync_converges(a, b);
}

/// Merging writes no lines.
pub proof fn law_merge_stays_drawn(a: DocView, b: DocView, h: tree::Lines)
    requires
        drawn_from(a, h),
        drawn_from(b, h),
    ensures
        drawn_from(textdoc::merged(a, b), h),
{
    let m = textdoc::merged(a, b);
    assert forall|k: Seq<char>| #[trigger] m.lines.dom().contains(k) implies h.dom().contains(k)
        && same_line(m.lines[k], h[k]) by {
        if a.lines.dom().contains(k) {
            assert(same_line(a.lines[k], h[k]));
        } else {
            assert(b.lines.dom().contains(k));
        }
    }
}

/// An edit writes lines with new names only: every document whose lines are among those that
/// were ever written stays so, the edited one becomes so, no name is given again on its device,
/// and none is taken from another device.
pub proof fn law_edit_writes_new_lines(d: DocView, s: Seq<char>, device: Seq<char>, h: tree::Lines)
    requires
        d.lines.dom().finite(),
        textdoc::readable(d),
        doc_laws::numbers_ahead(d, device),
        drawn_from(d, h),
        unwritten(h, device, d.clock),
    ensures
        ({
            let e = textdoc::edited(d, s, device);
            let g = with_lines_of(h, e);
            &&& drawn_from(e, g)
            &&& unwritten(g, device, e.clock)
            &&& forall|other: DocView| #[trigger] drawn_from(other, h) ==> drawn_from(other, g)
            &&& forall|x: Seq<char>, c: nat|
                x != device && #[trigger] g.dom().contains(textdoc::line_id(c, x))
                    ==> h.dom().contains(textdoc::line_id(c, x))
        }),
{
    let n = textdoc::lines_in(s).len();
    let e = textdoc::edited(d, s, device);
    let g = with_lines_of(h, e);
    let old = tree::visible(d.lines);
    let p = textdoc::matching(d, s);
    doc_laws::lemma_typed_well(d, s, device, n);
    assert(doc_laws::typed_so_far(d, s, device, n).doc == e);
    assert forall|k: Seq<char>| #[trigger] e.lines.dom().contains(k) implies g.dom().contains(k)
        && same_line(e.lines[k], g[k]) by {
        if d.lines.dom().contains(k) {
            assert(e.lines[k] == textdoc::struck(d.lines, old, p, old.len() as int)[k]);
            assert(same_line(d.lines[k], h[k]));
        } else {
            assert(doc_laws::numbered(k, d.clock, e.clock, device));
            let c = choose|c: nat|
                d.clock < c <= e.clock && #[trigger] textdoc::line_id(c, device) == k;
            assert(!h.dom().contains(textdoc::line_id(c, device)));
        }
    }
    assert forall|c: nat| c > e.clock implies !g.dom().contains(
        #[trigger] textdoc::line_id(c, device),
    ) by {
        let k = textdoc::line_id(c, device);
        if e.lines.dom().contains(k) {
            assert(k != textdoc::line_id(c, device));
        }
    }
    assert forall|other: DocView| #[trigger] drawn_from(other, h) implies drawn_from(other, g) by {
        assert forall|k: Seq<char>| #[trigger] other.lines.dom().contains(k) implies g.dom().contains(
            k,
        ) && same_line(other.lines[k], g[k]) by {}
    }
    assert forall|x: Seq<char>, c: nat|
        x != device && #[trigger] g.dom().contains(textdoc::line_id(c, x)) implies h.dom().contains(
        textdoc::line_id(c, x),
    ) by {
        let k = textdoc::line_id(c, x);
        if e.lines.dom().contains(k) && !d.lines.dom().contains(k) {
            assert(doc_laws::numbered(k, d.clock, e.clock, device));
            let b = choose|b: nat|
                d.clock < b <= e.clock && #[trigger] textdoc::line_id(b, device) == k;
            law_names_are_unique(c, x, b, device);
        }
    }
}

} // verus!
