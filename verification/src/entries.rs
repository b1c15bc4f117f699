//! Files with one entry in each line, and what is read back of them.

use vstd::prelude::*;

use crate::codec;
use crate::decimal;
use crate::ordmap;
use crate::table;
use crate::text;

verus! {

/// Whether the columns `cols` make a line that is read back as the same columns.
pub open spec fn fits_line(cols: Seq<Seq<char>>) -> bool {
    &&& cols.len() > 1
    &&& forall|i: int|
        0 <= i < cols.len() ==> !(#[trigger] cols[i]).contains('\t') && !cols[i].contains('\n')
    &&& cols.last().len() > 0 ==> cols.last().last() != '\r'
}

/// Columns that fit in a line make one line, from which they are read back.
pub proof fn lemma_fits_line(cols: Seq<Seq<char>>)
    requires
        fits_line(cols),
    ensures
        !table::tabbed(cols).contains('\n'),
        text::strip_cr(table::tabbed(cols)) == table::tabbed(cols),
        table::columns_of(table::tabbed(cols)) == cols,
{
    table::lemma_columns_of_tabbed(cols);
    table::lemma_tabbed_is_line(cols);
}

/// An escaped text that does not end in a carriage return fits in a column, the last one too.
pub proof fn lemma_escaped_column(s: Seq<char>)
    ensures
        !codec::escaped(s).contains('\t'),
        !codec::escaped(s).contains('\n'),
        codec::unescaped(codec::escaped(s)) == s,
        s.len() > 0 && s.last() != '\r' ==> codec::escaped(s).last() != '\r',
        codec::escaped(s).len() > 0 <==> s.len() > 0,
{
    codec::law_escaped_fits_column(s);
    codec::law_unescaped_escaped(s);
    codec::lemma_escaped_last(s);
}

/// A number fits in a column, the last one too, and is read back.
pub proof fn lemma_number_column(n: nat)
    ensures
        !decimal::digits(n).contains('\t'),
        !decimal::digits(n).contains('\n'),
        decimal::digits(n).len() > 0,
        decimal::digits(n).last() != '\r',
        decimal::number(decimal::digits(n)) == Some(n),
{
    decimal::lemma_digits(n);
    decimal::law_number_of_digits(n);
    let d = decimal::digits(n);
    assert forall|k: int| 0 <= k < d.len() implies d[k] != '\t' && d[k] != '\n' && d[k] != '\r' by {
        assert(decimal::is_digit(d[k]));
    }
    assert(d.len() > 0);
}

/// The entries that the lines `ls` hold, where `read` takes the columns of a line for an entry
/// or for none. A later line takes the place of an earlier one with the same key.
pub open spec fn entries_of<V>(
    ls: Seq<Seq<char>>,
    read: spec_fn(Seq<Seq<char>>) -> Option<(Seq<char>, V)>,
) -> Map<Seq<char>, V>
    decreases ls.len(),
{
    if ls.len() == 0 {
        Map::empty()
    } else {
        match read(table::columns_of(ls.last())) {
            Some((k, v)) => entries_of(ls.drop_last(), read).insert(k, v),
            None => entries_of(ls.drop_last(), read),
        }
    }
}

/// The lines of a file with the entries `m`, in the order of their keys, where `write` gives the
/// columns of an entry.
pub open spec fn entry_lines<V>(
    m: Map<Seq<char>, V>,
    write: spec_fn(Seq<char>, V) -> Seq<Seq<char>>,
) -> Seq<Seq<char>> {
    let keys = ordmap::sorted(m.dom());
    Seq::new(keys.len(), |i: int| table::tabbed(write(keys[i], m[keys[i]])))
}

/// The entries of the first `n` keys.
spec fn first_entries<V>(m: Map<Seq<char>, V>, keys: Seq<Seq<char>>, n: int) -> Map<Seq<char>, V> {
    Map::new(|k: Seq<char>| keys.take(n).contains(k), |k: Seq<char>| m[k])
}

proof fn lemma_first_entries<V>(
    m: Map<Seq<char>, V>,
    read: spec_fn(Seq<Seq<char>>) -> Option<(Seq<char>, V)>,
    write: spec_fn(Seq<char>, V) -> Seq<Seq<char>>,
    n: int,
)
    requires
        m.dom().finite(),
        forall|k: Seq<char>| #[trigger]
            m.dom().contains(k) ==> table::columns_of(table::tabbed(write(k, m[k]))) == write(
                k,
                m[k],
            ) && read(write(k, m[k])) == Some((k, m[k])),
        0 <= n <= ordmap::sorted(m.dom()).len(),
    ensures
        entries_of(entry_lines(m, write).take(n), read) == first_entries(
            m,
            ordmap::sorted(m.dom()),
            n,
        ),
    decreases n,
{
    let keys = ordmap::sorted(m.dom());
    let rows = entry_lines(m, write).take(n);
    ordmap::lemma_sorted_exists(m.dom());
    if n == 0 {
        assert(rows =~= Seq::<Seq<char>>::empty());
        assert(first_entries(m, keys, 0) =~= Map::<Seq<char>, V>::empty());
    } else {
        lemma_first_entries(m, read, write, n - 1);
        assert(rows.drop_last() =~= entry_lines(m, write).take(n - 1));
        let k = keys[n - 1];
        assert(keys.contains(k));
        assert(m.dom().contains(k));
        assert(rows.last() == table::tabbed(write(k, m[k])));
        text::lemma_take_next(keys, n - 1);
        assert(keys.take((n - 1) + 1) == keys.take(n));
        let before = first_entries(m, keys, n - 1);
        let after = first_entries(m, keys, n);
        assert forall|j: Seq<char>| #[trigger] after.dom().contains(j) <==> before.insert(
            k,
            m[k],
        ).dom().contains(j) by {
            assert(keys.take(n).contains(j) <==> keys.take(n - 1).contains(j) || j == k);
        }
        assert(after =~= before.insert(k, m[k]));
    }
}

/// Entries whose columns are read back are read back from their lines.
pub proof fn lemma_entries_of_lines<V>(
    m: Map<Seq<char>, V>,
    read: spec_fn(Seq<Seq<char>>) -> Option<(Seq<char>, V)>,
    write: spec_fn(Seq<char>, V) -> Seq<Seq<char>>,
)
    requires
        m.dom().finite(),
        forall|k: Seq<char>| #[trigger]
            m.dom().contains(k) ==> table::columns_of(table::tabbed(write(k, m[k]))) == write(
                k,
                m[k],
            ) && read(write(k, m[k])) == Some((k, m[k])),
    ensures
        entries_of(entry_lines(m, write), read) == m,
{
    let keys = ordmap::sorted(m.dom());
    let rows = entry_lines(m, write);
    ordmap::lemma_sorted_exists(m.dom());
    let n = keys.len() as int;
    lemma_first_entries(m, read, write, n);
    assert(rows.take(n) =~= rows);
    assert(keys.take(n) =~= keys);
    assert(first_entries(m, keys, n) =~= m);
}

/// Entries that fit in their lines are read back from the file that holds them.
pub proof fn lemma_entries_read_back<V>(
    m: Map<Seq<char>, V>,
    read: spec_fn(Seq<Seq<char>>) -> Option<(Seq<char>, V)>,
    write: spec_fn(Seq<char>, V) -> Seq<Seq<char>>,
)
    requires
        m.dom().finite(),
        forall|k: Seq<char>| #[trigger]
            m.dom().contains(k) ==> fits_line(write(k, m[k])) && read(write(k, m[k])) == Some(
                (k, m[k]),
            ),
    ensures
        entries_of(text::lines_of(text::joined(entry_lines(m, write))), read) == m,
{
    let keys = ordmap::sorted(m.dom());
    let rows = entry_lines(m, write);
    ordmap::lemma_sorted_exists(m.dom());
    assert forall|i: int| 0 <= i < rows.len() implies !(#[trigger] rows[i]).contains('\n')
        && text::strip_cr(rows[i]) == rows[i] by {
        let k = keys[i];
        assert(keys.contains(k));
        assert(m.dom().contains(k));
        lemma_fits_line(write(k, m[k]));
    }
    text::lemma_lines_of_joined(rows);
    assert forall|k: Seq<char>| #[trigger] m.dom().contains(k) implies table::columns_of(
        table::tabbed(write(k, m[k])),
    ) == write(k, m[k]) by {
        lemma_fits_line(write(k, m[k]));
    }
    lemma_entries_of_lines(m, read, write);
}

/// The items that the lines `ls` hold, in their order, where `read` takes the columns of a line
/// for an item or for none.
pub open spec fn items_of<T>(
    ls: Seq<Seq<char>>,
    read: spec_fn(Seq<Seq<char>>) -> Option<T>,
) -> Seq<T>
    decreases ls.len(),
{
    if ls.len() == 0 {
        Seq::empty()
    } else {
        match read(table::columns_of(ls.last())) {
            Some(t) => items_of(ls.drop_last(), read).push(t),
            None => items_of(ls.drop_last(), read),
        }
    }
}

/// The lines of a file with the items `ts`, where `write` gives the columns of an item.
pub open spec fn item_lines<T>(ts: Seq<T>, write: spec_fn(T) -> Seq<Seq<char>>) -> Seq<Seq<char>> {
    Seq::new(ts.len(), |i: int| table::tabbed(write(ts[i])))
}

proof fn lemma_first_items<T>(
    ts: Seq<T>,
    read: spec_fn(Seq<Seq<char>>) -> Option<T>,
    write: spec_fn(T) -> Seq<Seq<char>>,
    n: int,
)
    requires
        forall|i: int|
            0 <= i < ts.len() ==> fits_line(write(#[trigger] ts[i])) && read(write(ts[i])) == Some(
                ts[i],
            ),
        0 <= n <= ts.len(),
    ensures
        items_of(item_lines(ts, write).take(n), read) == ts.take(n),
    decreases n,
{
    let rows = item_lines(ts, write).take(n);
    if n == 0 {
        assert(rows =~= Seq::<Seq<char>>::empty());
        assert(ts.take(0) =~= Seq::<T>::empty());
    } else {
        lemma_first_items(ts, read, write, n - 1);
        assert(rows.drop_last() =~= item_lines(ts, write).take(n - 1));
        lemma_fits_line(write(ts[n - 1]));
        assert(rows.last() == table::tabbed(write(ts[n - 1])));
        assert(ts.take(n) =~= ts.take(n - 1).push(ts[n - 1]));
    }
}

/// Items that fit in their lines are read back from the file that holds them.
pub proof fn lemma_items_read_back<T>(
    ts: Seq<T>,
    read: spec_fn(Seq<Seq<char>>) -> Option<T>,
    write: spec_fn(T) -> Seq<Seq<char>>,
)
    requires
        forall|i: int|
            0 <= i < ts.len() ==> fits_line(write(#[trigger] ts[i])) && read(write(ts[i])) == Some(
                ts[i],
            ),
    ensures
        items_of(text::lines_of(text::joined(item_lines(ts, write))), read) == ts,
{
    let rows = item_lines(ts, write);
    assert forall|i: int| 0 <= i < rows.len() implies !(#[trigger] rows[i]).contains('\n')
        && text::strip_cr(rows[i]) == rows[i] by {
        lemma_fits_line(write(ts[i]));
    }
    text::lemma_lines_of_joined(rows);
    let n = ts.len() as int;
    lemma_first_items(ts, read, write, n);
    assert(rows.take(n) =~= rows);
    assert(ts.take(n) =~= ts);
}

} // verus!
