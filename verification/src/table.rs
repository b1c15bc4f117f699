//! Files that hold one record in each line, its columns parted by tabs.

use vstd::prelude::*;
use vstd::string::*;

use crate::text;

verus! {

/// The line that holds the columns `cols`.
pub open spec fn tabbed(cols: Seq<Seq<char>>) -> Seq<char>
    decreases cols.len(),
{
    if cols.len() == 0 {
        Seq::empty()
    } else if cols.len() == 1 {
        cols[0]
    } else {
        tabbed(cols.drop_last()).push('\t') + cols.last()
    }
}

/// The columns of a line.
pub open spec fn columns_of(line: Seq<char>) -> Seq<Seq<char>> {
    text::split_at_char(line, '\t')
}

/// Columns that hold no tab are read back unchanged.
pub proof fn lemma_columns_of_tabbed(cols: Seq<Seq<char>>)
    requires
        cols.len() > 0,
        forall|i: int| 0 <= i < cols.len() ==> !(#[trigger] cols[i]).contains('\t'),
    ensures
        columns_of(tabbed(cols)) == cols,
    decreases cols.len(),
{
    if cols.len() == 1 {
        text::lemma_split_one(cols[0], '\t');
        assert(columns_of(tabbed(cols)) =~= cols);
    } else {
        let r = cols.drop_last();
        assert forall|i: int| 0 <= i < r.len() implies !(#[trigger] r[i]).contains('\t') by {
            assert(r[i] == cols[i]);
        }
        lemma_columns_of_tabbed(r);
        assert(!cols[cols.len() - 1].contains('\t'));
        text::lemma_split_one(cols.last(), '\t');
        text::lemma_split_concat(tabbed(r), cols.last(), '\t');
        assert(columns_of(tabbed(cols)) =~= cols);
    }
}

/// A line of columns that hold no newline holds none, and it ends in a carriage return only
/// where its last column does.
pub proof fn lemma_tabbed_is_line(cols: Seq<Seq<char>>)
    requires
        cols.len() > 1,
        forall|i: int| 0 <= i < cols.len() ==> !(#[trigger] cols[i]).contains('\n'),
        cols.last().len() > 0 ==> cols.last().last() != '\r',
    ensures
        !tabbed(cols).contains('\n'),
        text::strip_cr(tabbed(cols)) == tabbed(cols),
{
    lemma_tabbed_no_newline(cols);
    let t = tabbed(cols);
    if cols.last().len() == 0 {
        assert(t.last() == '\t');
    } else {
        assert(t.last() == cols.last().last());
    }
}

/// A line of columns that hold no newline holds none.
pub proof fn lemma_tabbed_no_newline(cols: Seq<Seq<char>>)
    requires
        forall|i: int| 0 <= i < cols.len() ==> !(#[trigger] cols[i]).contains('\n'),
    ensures
        !tabbed(cols).contains('\n'),
    decreases cols.len(),
{
    if cols.len() == 1 {
        assert(!cols[0].contains('\n'));
    } else if cols.len() > 1 {
        let r = cols.drop_last();
        assert forall|i: int| 0 <= i < r.len() implies !(#[trigger] r[i]).contains('\n') by {
            assert(r[i] == cols[i]);
        }
        lemma_tabbed_no_newline(r);
        assert(!cols[cols.len() - 1].contains('\n'));
        let t = tabbed(cols);
        let h = tabbed(r);
        assert forall|i: int| 0 <= i < t.len() implies t[i] != '\n' by {
            if i < h.len() {
                assert(h.contains(h[i]));
            } else if i > h.len() {
                assert(cols.last().contains(cols.last()[i - h.len() - 1]));
            }
        }
    }
}

/// Writes columns into a line.
pub fn row(cols: &Vec<String>) -> (r: String)
    ensures
        r@ == tabbed(text::views(cols@)),
{
    let mut out = String::new();
    let mut i: usize = 0;
    assert(text::views(cols@).take(0) =~= Seq::<Seq<char>>::empty());
    while i < cols.len()
        invariant
            i <= cols@.len(),
            out@ == tabbed(text::views(cols@).take(i as int)),
        decreases cols@.len() - i,
    {
        let ghost done = out@;
        let ghost next = text::views(cols@).take(i + 1);
        proof {
            assert(next.drop_last() =~= text::views(cols@).take(i as int));
            assert(next.last() == cols@[i as int]@);
        }
        if i > 0 {
            out.push('\t');
        }
        out.append(&cols[i]);
        proof {
            if i == 0 {
                assert(out@ =~= next[0]);
            }
        }
        i = i + 1;
    }
    assert(text::views(cols@).take(i as int) =~= text::views(cols@));
    out
}

/// Reads the columns of a line.
pub fn columns(line: &str) -> (r: Vec<String>)
    ensures
        text::views(r@) == columns_of(line@),
        r@.len() >= 1,
{
    text::split(line, '\t')
}

} // verus!
