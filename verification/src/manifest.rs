//! The manifest of a share: which files it holds, and where their contents are kept.

use vstd::prelude::*;
use vstd::string::*;

use crate::codec;
use crate::decimal;
use crate::entries;
use crate::home;
use crate::ordmap;
use crate::ordmap::OrdMap;
use crate::table;
use crate::text;

verus! {

/// What a manifest says of a file.
#[verifier::ext_equal]
pub struct EntryView {
    pub path: Seq<char>,
    pub kind: Seq<char>,
    pub object: Seq<char>,
    pub mtime: nat,
    pub size: nat,
}

/// What a manifest says of a file: its path in the share, whether it is kept as a text document
/// or as it is, the name of what is kept, and the time and the size that it had.
pub struct ManifestEntry {
    pub path: String,
    pub kind: String,
    pub object: String,
    pub mtime: u64,
    pub size: u64,
}

impl View for ManifestEntry {
    type V = EntryView;

    open spec fn view(&self) -> EntryView {
        EntryView {
            path: self.path@,
            kind: self.kind@,
            object: self.object@,
            mtime: self.mtime as nat,
            size: self.size as nat,
        }
    }
}

/// What a manifest is: an entry for each path.
pub type Manifest = Map<Seq<char>, EntryView>;

/// Whether each entry stands under its own path, and its numbers are those of a file.
pub open spec fn well_kept(m: Manifest) -> bool {
    forall|k: Seq<char>| #[trigger]
        m.dom().contains(k) ==> m[k].path == k && m[k].mtime <= u64::MAX && m[k].size <= u64::MAX
}

/// The number that `s` names, or zero.
pub open spec fn number_in(s: Seq<char>) -> nat {
    match decimal::number_up_to(s, u64::MAX as nat) {
        Some(n) => n,
        None => 0,
    }
}

/// How a line of a manifest is read.
pub open spec fn entry_reader() -> spec_fn(Seq<Seq<char>>) -> Option<(Seq<char>, EntryView)> {
    |cols: Seq<Seq<char>>|
        if cols.len() >= 5 {
            Some(
                (
                    codec::unescaped(cols[0]),
                    EntryView {
                        path: codec::unescaped(cols[0]),
                        kind: codec::unescaped(cols[1]),
                        object: codec::unescaped(cols[2]),
                        mtime: number_in(cols[3]),
                        size: number_in(cols[4]),
                    },
                ),
            )
        } else {
            None
        }
}

/// The columns of an entry.
pub open spec fn entry_columns(e: EntryView) -> Seq<Seq<char>> {
    seq![
        codec::escaped(e.path),
        codec::escaped(e.kind),
        codec::escaped(e.object),
        decimal::digits(e.mtime),
        decimal::digits(e.size),
    ]
}

/// How an entry is written.
pub open spec fn entry_writer() -> spec_fn(Seq<char>, EntryView) -> Seq<Seq<char>> {
    |k: Seq<char>, e: EntryView| entry_columns(e)
}

/// The manifest that a file holds.
pub open spec fn manifest_in(file: Option<Seq<char>>) -> Manifest {
    match file {
        None => Map::empty(),
        Some(s) => entries::entries_of(text::lines_of(s), entry_reader()),
    }
}

/// The text of the file with the manifest `m`.
pub open spec fn manifest_text(m: Manifest) -> Seq<char> {
    text::joined(entries::entry_lines(m, entry_writer()))
}

/// Reads a manifest.
pub fn load_manifest(file: Option<&str>) -> (r: OrdMap<ManifestEntry>)
    ensures
        r.wf(),
        r@ == manifest_in(home::opt(file)),
        well_kept(r@),
{
    let mut m: OrdMap<ManifestEntry> = OrdMap::new();
    let s = match file {
        None => return m,
        Some(s) => s,
    };
    let lines = text::lines(s);
    let ghost ls = text::lines_of(s@);
    let mut i: usize = 0;
    assert(ls.take(0) =~= Seq::<Seq<char>>::empty());
    while i < lines.len()
        invariant
            m.wf(),
            i <= lines@.len(),
            text::views(lines@) == ls,
            m@ == entries::entries_of(ls.take(i as int), entry_reader()),
            well_kept(m@),
        decreases lines@.len() - i,
    {
        proof {
            assert(ls.take(i + 1).drop_last() =~= ls.take(i as int));
            assert(ls.take(i + 1).last() == ls[i as int]);
            assert(ls[i as int] == lines@[i as int]@);
        }
        let cols = table::columns(&lines[i]);
        if cols.len() >= 5 {
            proof {
                assert(text::views(cols@)[0] == cols@[0]@);
                assert(text::views(cols@)[1] == cols@[1]@);
                assert(text::views(cols@)[2] == cols@[2]@);
                assert(text::views(cols@)[3] == cols@[3]@);
                assert(text::views(cols@)[4] == cols@[4]@);
            }
            let path = codec::unesc(&cols[0]);
            let entry = ManifestEntry {
                path: path.clone(),
                kind: codec::unesc(&cols[1]),
                object: codec::unesc(&cols[2]),
                mtime: read_number(&cols[3]),
                size: read_number(&cols[4]),
            };
            m.insert(path, entry);
        }
        i = i + 1;
    }
    assert(ls.take(i as int) =~= ls);
    m
}

/// Reads a number.
fn read_number(s: &str) -> (r: u64)
    ensures
        r == number_in(s@),
{
    match decimal::parse_u64(s) {
        Some(n) => n,
        None => 0,
    }
}

/// The text of the file with a manifest.
pub fn save_manifest(m: &OrdMap<ManifestEntry>) -> (r: String)
    requires
        m.wf(),
    ensures
        r@ == manifest_text(m@),
{
    let mut rows: Vec<String> = Vec::new();
    let n = m.len();
    let ghost all = entries::entry_lines(m@, entry_writer());
    let ghost keys = ordmap::sorted(m@.dom());
    let mut i: usize = 0;
    while i < n
        invariant
            m.wf(),
            i <= n == keys.len(),
            keys == ordmap::sorted(m@.dom()),
            all == entries::entry_lines(m@, entry_writer()),
            text::views(rows@) =~= all.take(i as int),
        decreases n - i,
    {
        let e = m.value(i);
        let cols: Vec<String> = vec![
            codec::esc(&e.path),
            codec::esc(&e.kind),
            codec::esc(&e.object),
            decimal::decimal(e.mtime as u128),
            decimal::decimal(e.size as u128),
        ];
        let ghost k = keys[i as int];
        assert(text::views(cols@) =~= entry_writer()(k, m@[k]));
        let record = table::row(&cols);
        let ghost done = text::views(rows@);
        assert(all[i as int] == record@);
        rows.push(record);
        assert(text::views(rows@) =~= done.push(all[i as int]));
        i = i + 1;
    }
    assert(all.take(i as int) =~= all);
    text::join_lines(&rows)
}

/// An entry fits in a line, and is read back from its columns.
proof fn lemma_entry_columns(e: EntryView)
    requires
        e.mtime <= u64::MAX,
        e.size <= u64::MAX,
    ensures
        entries::fits_line(entry_columns(e)),
        entry_reader()(entry_columns(e)) == Some((e.path, e)),
{
    let cols = entry_columns(e);
    entries::lemma_escaped_column(e.path);
    entries::lemma_escaped_column(e.kind);
    entries::lemma_escaped_column(e.object);
    entries::lemma_number_column(e.mtime);
    entries::lemma_number_column(e.size);
    assert forall|i: int| 0 <= i < cols.len() implies !(#[trigger] cols[i]).contains('\t')
        && !cols[i].contains('\n') by {
        if i == 0 {
            assert(cols[i] == codec::escaped(e.path));
        } else if i == 1 {
            assert(cols[i] == codec::escaped(e.kind));
        } else if i == 2 {
            assert(cols[i] == codec::escaped(e.object));
        } else if i == 3 {
            assert(cols[i] == decimal::digits(e.mtime));
        } else {
            assert(cols[i] == decimal::digits(e.size));
        }
    }
}

/// A manifest that was saved is read back unchanged.
pub proof fn law_saved_manifest_is_read_back(m: Manifest)
    requires
        m.dom().finite(),
        well_kept(m),
    ensures
        manifest_in(Some(manifest_text(m))) == m,
{
    assert forall|k: Seq<char>| #[trigger] m.dom().contains(k) implies entries::fits_line(
        entry_writer()(k, m[k]),
    ) && entry_reader()(entry_writer()(k, m[k])) == Some((k, m[k])) by {
        lemma_entry_columns(m[k]);
    }
    entries::lemma_entries_read_back(m, entry_reader(), entry_writer());
}

/// What two manifests are merged by: the first column of each line.
pub open spec fn row_key(line: Seq<char>) -> Seq<char> {
    table::columns_of(line)[0]
}

/// The lines `ls` by their first columns. A later line takes the place of an earlier one; a
/// line that begins with a tab, or is empty, is dropped.
pub open spec fn rows_of(ls: Seq<Seq<char>>) -> Map<Seq<char>, Seq<char>>
    decreases ls.len(),
{
    if ls.len() == 0 {
        Map::empty()
    } else if row_key(ls.last()).len() == 0 {
        rows_of(ls.drop_last())
    } else {
        rows_of(ls.drop_last()).insert(row_key(ls.last()), ls.last())
    }
}

/// The lines that the rows `rows` make, in the order of their first columns.
pub open spec fn row_lines(rows: Map<Seq<char>, Seq<char>>) -> Seq<Seq<char>> {
    let keys = ordmap::sorted(rows.dom());
    Seq::new(keys.len(), |i: int| rows[keys[i]])
}

/// The rows of the manifests with the texts `a` and `b` together.
pub open spec fn merged_rows(a: Seq<char>, b: Seq<char>) -> Map<Seq<char>, Seq<char>> {
    rows_of(text::lines_of(a) + text::lines_of(b))
}

/// The manifests with the texts `a` and `b` merged: a row of `b` goes before one of `a`.
pub open spec fn merged_text(a: Seq<char>, b: Seq<char>) -> Seq<char> {
    text::joined(row_lines(merged_rows(a, b)))
}

/// Merges two manifests as texts.
pub fn merge_manifests_text(a: &str, b: &str) -> (r: String)
    ensures
        r@ == merged_text(a@, b@),
{
    let mut rows: OrdMap<String> = OrdMap::new();
    let ghost la = text::lines_of(a@);
    let ghost lb = text::lines_of(b@);
    let first = text::lines(a);
    let second = text::lines(b);
    assert((la + lb).take(0) =~= Seq::<Seq<char>>::empty());
    add_rows(&mut rows, &first, Ghost(la + lb), Ghost(0));
    add_rows(&mut rows, &second, Ghost(la + lb), Ghost(la.len() as int));
    assert((la + lb).take((la.len() + lb.len()) as int) =~= la + lb);
    let mut out: Vec<String> = Vec::new();
    let n = rows.len();
    let ghost all = row_lines(rows@);
    let ghost keys = ordmap::sorted(rows@.dom());
    let mut i: usize = 0;
    while i < n
        invariant
            rows.wf(),
            i <= n == keys.len(),
            keys == ordmap::sorted(rows@.dom()),
            all == row_lines(rows@),
            text::views(out@) =~= all.take(i as int),
        decreases n - i,
    {
        let ghost done = text::views(out@);
        out.push(rows.value(i).clone());
        assert(text::views(out@) =~= done.push(all[i as int]));
        i = i + 1;
    }
    assert(all.take(i as int) =~= all);
    text::join_lines(&out)
}

/// Adds lines to the rows that the first `from` lines of `all` make.
fn add_rows(
    rows: &mut OrdMap<String>,
    lines: &Vec<String>,
    Ghost(all): Ghost<Seq<Seq<char>>>,
    Ghost(from): Ghost<int>,
)
    requires
        old(rows).wf(),
        0 <= from,
        from + lines@.len() <= all.len(),
        old(rows)@ == rows_of(all.take(from)),
        forall|i: int| 0 <= i < lines@.len() ==> all[from + i] == (#[trigger] lines@[i])@,
    ensures
        final(rows).wf(),
        final(rows)@ == rows_of(all.take(from + lines@.len())),
{
    let mut i: usize = 0;
    while i < lines.len()
        invariant
            rows.wf(),
            i <= lines@.len(),
            0 <= from,
            from + lines@.len() <= all.len(),
            rows@ == rows_of(all.take(from + i)),
            forall|i: int| 0 <= i < lines@.len() ==> all[from + i] == (#[trigger] lines@[i])@,
        decreases lines@.len() - i,
    {
        let ghost next = all.take(from + i + 1);
        proof {
            assert(next.drop_last() =~= all.take(from + i));
            assert(all[from + i] == lines@[i as int]@);
            assert(next.last() == lines@[i as int]@);
        }
        let cols = table::columns(&lines[i]);
        assert(text::views(cols@)[0] == cols@[0]@);
        if !cols[0].as_str().is_empty() {
            rows.insert(cols[0].clone(), lines[i].clone());
        }
        i = i + 1;
    }
}

/// The rows of two lists of lines together are those of both, where the second go first.
pub proof fn lemma_rows_of_both(la: Seq<Seq<char>>, lb: Seq<Seq<char>>)
    ensures
        rows_of(la + lb) == rows_of(la).union_prefer_right(rows_of(lb)),
    decreases lb.len(),
{
    if lb.len() == 0 {
        assert(la + lb =~= la);
        assert(rows_of(la).union_prefer_right(rows_of(lb)) =~= rows_of(la));
    } else {
        let r = lb.drop_last();
        lemma_rows_of_both(la, r);
        assert((la + lb).drop_last() =~= la + r);
        assert((la + lb).last() == lb.last());
        assert(rows_of(la + lb) =~= rows_of(la).union_prefer_right(rows_of(lb)));
    }
}

/// Rows stand under their first columns and are lines of the list.
pub proof fn lemma_rows_of(ls: Seq<Seq<char>>)
    ensures
        rows_of(ls).dom().finite(),
        forall|k: Seq<char>| #[trigger]
            rows_of(ls).dom().contains(k) ==> row_key(rows_of(ls)[k]) == k && k.len() > 0
                && ls.contains(rows_of(ls)[k]),
    decreases ls.len(),
{
    if ls.len() > 0 {
        let r = ls.drop_last();
        lemma_rows_of(r);
        assert forall|k: Seq<char>| #[trigger] rows_of(ls).dom().contains(k) implies row_key(
            rows_of(ls)[k],
        ) == k && k.len() > 0 && ls.contains(rows_of(ls)[k]) by {
            if row_key(ls.last()) == k && k.len() > 0 {
                assert(rows_of(ls)[k] == ls.last());
                assert(ls[ls.len() - 1] == ls.last());
            } else {
                let l = rows_of(r)[k];
                assert(rows_of(r).dom().contains(k));
                let j = choose|j: int| 0 <= j < r.len() && r[j] == l;
                assert(ls[j] == l);
            }
        }
    }
}

/// Rows that stand under their first columns are read back from the lines that they make.
proof fn lemma_rows_of_row_lines(rows: Map<Seq<char>, Seq<char>>, n: int)
    requires
        rows.dom().finite(),
        forall|k: Seq<char>| #[trigger]
            rows.dom().contains(k) ==> row_key(rows[k]) == k && k.len() > 0,
        0 <= n <= ordmap::sorted(rows.dom()).len(),
    ensures
        forall|k: Seq<char>| #[trigger]
            rows_of(row_lines(rows).take(n)).dom().contains(k) <==> ordmap::sorted(
                rows.dom(),
            ).take(n).contains(k),
        forall|k: Seq<char>| #[trigger]
            rows_of(row_lines(rows).take(n)).dom().contains(k) ==> rows_of(
                row_lines(rows).take(n),
            )[k] == rows[k],
    decreases n,
{
    let keys = ordmap::sorted(rows.dom());
    let ls = row_lines(rows).take(n);
    ordmap::lemma_sorted_exists(rows.dom());
    if n == 0 {
        assert(ls =~= Seq::<Seq<char>>::empty());
        assert(keys.take(0) =~= Seq::<Seq<char>>::empty());
    } else {
        lemma_rows_of_row_lines(rows, n - 1);
        assert(ls.drop_last() =~= row_lines(rows).take(n - 1));
        let k = keys[n - 1];
        assert(keys.contains(k));
        assert(rows.dom().contains(k));
        assert(ls.last() == rows[k]);
        text::lemma_take_next(keys, n - 1);
        assert(keys.take((n - 1) + 1) == keys.take(n));
        let before = rows_of(row_lines(rows).take(n - 1));
        assert(row_key(rows[k]) == k);
        assert(rows_of(ls) == before.insert(k, rows[k]));
        assert forall|j: Seq<char>| #[trigger] rows_of(ls).dom().contains(j) <==> keys.take(
            n,
        ).contains(j) by {
            assert(before.dom().contains(j) <==> keys.take(n - 1).contains(j));
        }
        assert forall|j: Seq<char>| #[trigger] rows_of(ls).dom().contains(j) implies rows_of(
            ls,
        )[j] == rows[j] by {
            if j != k {
                assert(before.dom().contains(j));
            }
        }
    }
}

/// Whether the lines of a text keep their ends when they are written and read again.
pub open spec fn plain_lines(s: Seq<char>) -> bool {
    forall|i: int|
        0 <= i < text::lines_of(s).len() ==> text::strip_cr(#[trigger] text::lines_of(s)[i])
            == text::lines_of(s)[i]
}

/// The rows of two merged manifests are read back from the merged text.
pub proof fn lemma_merged_read_back(a: Seq<char>, b: Seq<char>)
    requires
        plain_lines(a),
        plain_lines(b),
    ensures
        rows_of(text::lines_of(merged_text(a, b))) == merged_rows(a, b),
        text::lines_of(merged_text(a, b)) == row_lines(merged_rows(a, b)),
        plain_lines(merged_text(a, b)),
        merged_rows(a, b).dom().finite(),
{
    let la = text::lines_of(a);
    let lb = text::lines_of(b);
    let rows = merged_rows(a, b);
    let keys = ordmap::sorted(rows.dom());
    lemma_rows_of(la + lb);
    ordmap::lemma_sorted_exists(rows.dom());
    lemma_lines_hold_no_newline(a);
    lemma_lines_hold_no_newline(b);
    let ls = row_lines(rows);
    assert forall|i: int| 0 <= i < ls.len() implies !(#[trigger] ls[i]).contains('\n')
        && text::strip_cr(ls[i]) == ls[i] by {
        let k = keys[i];
        assert(keys.contains(k));
        assert(rows.dom().contains(k));
        let all = la + lb;
        let j = choose|j: int| 0 <= j < all.len() && all[j] == ls[i];
        if j < la.len() {
            assert(la[j] == ls[i]);
        } else {
            assert(lb[j - la.len()] == ls[i]);
        }
    }
    text::lemma_lines_of_joined(ls);
    let n = keys.len() as int;
    lemma_rows_of_row_lines(rows, n);
    assert(ls.take(n) =~= ls);
    assert(keys.take(n) =~= keys);
    assert(rows_of(ls) =~= rows);
}

/// A line holds no newline.
proof fn lemma_lines_hold_no_newline(s: Seq<char>)
    ensures
        forall|i: int|
            0 <= i < text::lines_of(s).len() ==> !(#[trigger] text::lines_of(s)[i]).contains('\n'),
{
    let ls = text::lines_of(s);
    let parts = text::split_at_char(s, '\n');
    text::lemma_split_parts(s, '\n');
    assert forall|i: int| 0 <= i < ls.len() implies !(#[trigger] ls[i]).contains('\n') by {
        let p = parts[i];
        assert(!p.contains('\n'));
        assert forall|k: int| 0 <= k < ls[i].len() implies ls[i][k] != '\n' by {
            assert(ls[i][k] == p[k]);
            assert(p.contains(p[k]));
        }
    }
}

/// Merging is idempotent: what was merged with `b` is not changed by merging with `b` again, nor
/// by merging with itself.
pub proof fn law_manifest_merge_idempotent(a: Seq<char>, b: Seq<char>)
    requires
        plain_lines(a),
        plain_lines(b),
    ensures
        merged_text(merged_text(a, b), b) == merged_text(a, b),
        merged_text(merged_text(a, b), merged_text(a, b)) == merged_text(a, b),
{
    let m = merged_text(a, b);
    let la = text::lines_of(a);
    let lb = text::lines_of(b);
    lemma_merged_read_back(a, b);
    lemma_rows_of_both(la, lb);
    lemma_rows_of_both(text::lines_of(m), lb);
    lemma_rows_of_both(text::lines_of(m), text::lines_of(m));
    assert(merged_rows(m, b) =~= merged_rows(a, b));
    assert(merged_rows(m, m) =~= merged_rows(a, b));
}

/// After a sync two devices have the same manifest: one merges that of the other into its own
/// and sends the outcome, and the other, merging it into its own, gets the same text.
pub proof fn law_manifest_sync_converges(a: Seq<char>, b: Seq<char>)
    requires
        plain_lines(a),
        plain_lines(b),
    ensures
        merged_text(b, merged_text(a, b)) == merged_text(a, b),
{
    let m = merged_text(a, b);
    let la = text::lines_of(a);
    let lb = text::lines_of(b);
    lemma_merged_read_back(a, b);
    lemma_rows_of_both(la, lb);
    lemma_rows_of_both(lb, text::lines_of(m));
    assert(merged_rows(b, m) =~= merged_rows(a, b));
}

/// Merging is associative.
pub proof fn law_manifest_merge_associative(a: Seq<char>, b: Seq<char>, c: Seq<char>)
    requires
        plain_lines(a),
        plain_lines(b),
        plain_lines(c),
    ensures
        merged_text(merged_text(a, b), c) == merged_text(a, merged_text(b, c)),
{
    let ab = merged_text(a, b);
    let bc = merged_text(b, c);
    lemma_merged_read_back(a, b);
    lemma_merged_read_back(b, c);
    lemma_rows_of_both(text::lines_of(a), text::lines_of(b));
    lemma_rows_of_both(text::lines_of(b), text::lines_of(c));
    lemma_rows_of_both(text::lines_of(ab), text::lines_of(c));
    lemma_rows_of_both(text::lines_of(a), text::lines_of(bc));
    assert(merged_rows(ab, c) =~= merged_rows(a, bc));
}

/// A line with a first column has a row.
proof fn lemma_line_has_row(ls: Seq<Seq<char>>, i: int)
    requires
        0 <= i < ls.len(),
        row_key(ls[i]).len() > 0,
    ensures
        rows_of(ls).dom().contains(row_key(ls[i])),
    decreases ls.len(),
{
    if i < ls.len() - 1 {
        let r = ls.drop_last();
        assert(r[i] == ls[i]);
        lemma_line_has_row(r, i);
    }
}

/// The lines of a saved manifest, and their rows.
proof fn lemma_saved_rows(m: Manifest)
    requires
        m.dom().finite(),
        well_kept(m),
        forall|k: Seq<char>| #[trigger] m.dom().contains(k) ==> k.len() > 0,
    ensures
        plain_lines(manifest_text(m)),
        ({
            let rows = rows_of(text::lines_of(manifest_text(m)));
            &&& forall|k: Seq<char>| #[trigger]
                m.dom().contains(k) ==> rows.dom().contains(codec::escaped(k))
                    && rows[codec::escaped(k)] == table::tabbed(entry_columns(m[k]))
            &&& forall|r: Seq<char>| #[trigger]
                rows.dom().contains(r) ==> m.dom().contains(codec::unescaped(r))
                    && codec::escaped(codec::unescaped(r)) == r
        }),
{
    let keys = ordmap::sorted(m.dom());
    let ls = entries::entry_lines(m, entry_writer());
    ordmap::lemma_sorted_exists(m.dom());
    assert forall|i: int| 0 <= i < ls.len() implies {
        &&& !(#[trigger] ls[i]).contains('\n')
        &&& text::strip_cr(ls[i]) == ls[i]
        &&& row_key(ls[i]) == codec::escaped(keys[i])
        &&& keys[i].len() > 0
        &&& ls[i] == table::tabbed(entry_columns(m[keys[i]]))
    } by {
        let k = keys[i];
        assert(keys.contains(k));
        assert(m.dom().contains(k));
        lemma_entry_columns(m[k]);
        entries::lemma_fits_line(entry_columns(m[k]));
    }
    text::lemma_lines_of_joined(ls);
    lemma_rows_of(ls);
    let rows = rows_of(ls);
    assert forall|r: Seq<char>| #[trigger] rows.dom().contains(r) implies m.dom().contains(
        codec::unescaped(r),
    ) && codec::escaped(codec::unescaped(r)) == r && rows[r] == table::tabbed(
        entry_columns(m[codec::unescaped(r)]),
    ) by {
        let line = rows[r];
        let i = choose|i: int| 0 <= i < ls.len() && ls[i] == line;
        assert(ls[i] == line);
        assert(keys.contains(keys[i]));
        codec::law_unescaped_escaped(keys[i]);
    }
    assert forall|k: Seq<char>| #[trigger] m.dom().contains(k) implies rows.dom().contains(
        codec::escaped(k),
    ) && rows[codec::escaped(k)] == table::tabbed(entry_columns(m[k])) by {
        assert(keys.contains(k));
        let i = choose|i: int| 0 <= i < keys.len() && keys[i] == k;
        assert(row_key(ls[i]) == codec::escaped(k));
        codec::lemma_escaped_last(k);
        codec::law_unescaped_escaped(k);
        lemma_line_has_row(ls, i);
    }
}

/// What lines that each hold an entry of `u` make is a part of `u`, with the keys that they hold.
proof fn lemma_entries_within(ls: Seq<Seq<char>>, u: Manifest)
    requires
        forall|i: int|
            0 <= i < ls.len() ==> (entry_reader()(table::columns_of(#[trigger] ls[i])) matches Some(
                (k, e),
            ) && u.dom().contains(k) && u[k] == e),
    ensures
        forall|k: Seq<char>| #[trigger]
            entries::entries_of(ls, entry_reader()).dom().contains(k) ==> u.dom().contains(k)
                && entries::entries_of(ls, entry_reader())[k] == u[k],
        forall|i: int|
            0 <= i < ls.len() ==> entries::entries_of(ls, entry_reader()).dom().contains(
                entry_reader()(table::columns_of(#[trigger] ls[i]))->Some_0.0,
            ),
    decreases ls.len(),
{
    if ls.len() > 0 {
        let r = ls.drop_last();
        assert forall|i: int| 0 <= i < r.len() implies (entry_reader()(
            table::columns_of(#[trigger] r[i]),
        ) matches Some((k, e)) && u.dom().contains(k) && u[k] == e) by {
            assert(r[i] == ls[i]);
        }
        lemma_entries_within(r, u);
        let last = ls[ls.len() - 1];
        assert(ls.last() == last);
        let head = entries::entries_of(r, entry_reader());
        let all = entries::entries_of(ls, entry_reader());
        let (k, e) = entry_reader()(table::columns_of(last))->Some_0;
        assert(all == head.insert(k, e));
        assert forall|x: Seq<char>| #[trigger] all.dom().contains(x) implies u.dom().contains(x)
            && all[x] == u[x] by {
            if x != k {
                assert(head.dom().contains(x));
            }
        }
        assert forall|i: int| 0 <= i < ls.len() implies all.dom().contains(
            entry_reader()(table::columns_of(#[trigger] ls[i]))->Some_0.0,
        ) by {
            if i < r.len() {
                assert(r[i] == ls[i]);
            }
        }
    }
}

/// The merged text of two saved manifests holds the entries of both, and where both have a path
/// the entry of the second.
pub proof fn law_merged_manifest_holds_both(a: Manifest, b: Manifest)
    requires
        a.dom().finite(),
        b.dom().finite(),
        well_kept(a),
        well_kept(b),
        forall|k: Seq<char>| #[trigger] a.dom().contains(k) ==> k.len() > 0,
        forall|k: Seq<char>| #[trigger] b.dom().contains(k) ==> k.len() > 0,
    ensures
        manifest_in(Some(merged_text(manifest_text(a), manifest_text(b))))
            == a.union_prefer_right(b),
{
    let ta = manifest_text(a);
    let tb = manifest_text(b);
    let u = a.union_prefer_right(b);
    let rows = merged_rows(ta, tb);
    let keys = ordmap::sorted(rows.dom());
    lemma_saved_rows(a);
    lemma_saved_rows(b);
    lemma_merged_read_back(ta, tb);
    lemma_rows_of_both(text::lines_of(ta), text::lines_of(tb));
    ordmap::lemma_sorted_exists(rows.dom());
    let ls = row_lines(rows);
    assert forall|i: int| 0 <= i < ls.len() implies (entry_reader()(
        table::columns_of(#[trigger] ls[i]),
    ) matches Some((k, e)) && u.dom().contains(k) && u[k] == e && k == codec::unescaped(keys[i])) by {
        let r = keys[i];
        assert(keys.contains(r));
        assert(rows.dom().contains(r));
        let k = codec::unescaped(r);
        let rows_a = rows_of(text::lines_of(ta));
        let rows_b = rows_of(text::lines_of(tb));
        if rows_b.dom().contains(r) {
            assert(b.dom().contains(k));
            assert(ls[i] == table::tabbed(entry_columns(b[k])));
        } else {
            assert(rows_a.dom().contains(r));
            assert(a.dom().contains(k));
            assert(!b.dom().contains(k));
            assert(ls[i] == table::tabbed(entry_columns(a[k])));
        }
        assert(ls[i] == table::tabbed(entry_columns(u[k])));
        lemma_entry_columns(u[k]);
        entries::lemma_fits_line(entry_columns(u[k]));
    }
    lemma_entries_within(ls, u);
    let got = entries::entries_of(ls, entry_reader());
    assert forall|k: Seq<char>| #[trigger] u.dom().contains(k) implies got.dom().contains(k) by {
        let r = codec::escaped(k);
        codec::law_unescaped_escaped(k);
        if !b.dom().contains(k) {
            assert(a.dom().contains(k));
        }
        assert(rows.dom().contains(r));
        assert(keys.contains(r));
        let i = choose|i: int| 0 <= i < keys.len() && keys[i] == r;
        assert(ls[i] == rows[keys[i]]);
        assert(entry_reader()(table::columns_of(ls[i]))->Some_0.0 == k);
    }
    assert(got =~= u);
}

/// Whether a line is one that an entry was written to: it has the columns of an entry and begins
/// with a path.
pub open spec fn is_entry_line(line: Seq<char>) -> bool {
    &&& text::strip_cr(line) == line
    &&& table::columns_of(line).len() >= 5
    &&& row_key(line).len() > 0
    &&& codec::escaped(codec::unescaped(row_key(line))) == row_key(line)
}

/// Whether each line of a text is one that an entry was written to.
pub open spec fn well_written(s: Seq<char>) -> bool {
    forall|i: int|
        0 <= i < text::lines_of(s).len() ==> is_entry_line(#[trigger] text::lines_of(s)[i])
}

/// A manifest that was saved is well written.
pub proof fn law_saved_manifest_is_well_written(m: Manifest)
    requires
        m.dom().finite(),
        well_kept(m),
        forall|k: Seq<char>| #[trigger] m.dom().contains(k) ==> k.len() > 0,
    ensures
        well_written(manifest_text(m)),
{
    let keys = ordmap::sorted(m.dom());
    let ls = entries::entry_lines(m, entry_writer());
    ordmap::lemma_sorted_exists(m.dom());
    assert forall|i: int| 0 <= i < ls.len() implies !(#[trigger] ls[i]).contains('\n')
        && text::strip_cr(ls[i]) == ls[i] && is_entry_line(ls[i]) by {
        let k = keys[i];
        assert(keys.contains(k));
        assert(m.dom().contains(k));
        lemma_entry_columns(m[k]);
        entries::lemma_fits_line(entry_columns(m[k]));
        codec::lemma_escaped_last(k);
        codec::law_unescaped_escaped(k);
    }
    text::lemma_lines_of_joined(ls);
}

/// Manifests that are well written are so when they are merged.
pub proof fn law_merged_manifest_is_well_written(a: Seq<char>, b: Seq<char>)
    requires
        well_written(a),
        well_written(b),
    ensures
        well_written(merged_text(a, b)),
{
    let la = text::lines_of(a);
    let lb = text::lines_of(b);
    let all = la + lb;
    let rows = merged_rows(a, b);
    let keys = ordmap::sorted(rows.dom());
    lemma_merged_read_back(a, b);
    lemma_rows_of(all);
    ordmap::lemma_sorted_exists(rows.dom());
    let ls = row_lines(rows);
    assert forall|i: int| 0 <= i < ls.len() implies is_entry_line(#[trigger] ls[i]) by {
        assert(keys.contains(keys[i]));
        assert(rows.dom().contains(keys[i]));
        let j = choose|j: int| 0 <= j < all.len() && all[j] == ls[i];
        if j < la.len() {
            assert(la[j] == ls[i]);
        } else {
            assert(lb[j - la.len()] == ls[i]);
        }
    }
}

/// What well-written lines say is said by their rows.
proof fn lemma_entries_by_rows(ls: Seq<Seq<char>>)
    requires
        forall|i: int| 0 <= i < ls.len() ==> is_entry_line(#[trigger] ls[i]),
    ensures
        forall|k: Seq<char>|
            #![trigger entries::entries_of(ls, entry_reader()).dom().contains(k)]
            #![trigger rows_of(ls).dom().contains(codec::escaped(k))]
            entries::entries_of(ls, entry_reader()).dom().contains(k) <==> rows_of(
                ls,
            ).dom().contains(codec::escaped(k)),
        forall|k: Seq<char>| #[trigger]
            entries::entries_of(ls, entry_reader()).dom().contains(k) ==> Some(
                (k, entries::entries_of(ls, entry_reader())[k]),
            ) == entry_reader()(table::columns_of(rows_of(ls)[codec::escaped(k)])),
    decreases ls.len(),
{
    if ls.len() > 0 {
        let r = ls.drop_last();
        let last = ls[ls.len() - 1];
        assert(ls.last() == last);
        assert(is_entry_line(ls[ls.len() - 1]));
        assert forall|i: int| 0 <= i < r.len() implies is_entry_line(#[trigger] r[i]) by {
            assert(r[i] == ls[i]);
        }
        lemma_entries_by_rows(r);
        let u = codec::unescaped(row_key(last));
        let es = entries::entries_of(ls, entry_reader());
        let rows = rows_of(ls);
        assert forall|k: Seq<char>|
            #![trigger es.dom().contains(k)]
            #![trigger rows.dom().contains(codec::escaped(k))]
            (es.dom().contains(k) <==> rows.dom().contains(codec::escaped(k))) && (es.dom().contains(
                k,
            ) ==> Some((k, es[k])) == entry_reader()(
                table::columns_of(rows[codec::escaped(k)]),
            )) by {
            codec::law_unescaped_escaped(k);
            assert(codec::escaped(k) == row_key(last) <==> k == u);
            assert(entries::entries_of(r, entry_reader()).dom().contains(k) <==> rows_of(
                r,
            ).dom().contains(codec::escaped(k)));
        }
    }
}

/// A well-written manifest says the same after it was merged with itself.
pub proof fn law_manifest_merged_with_itself(t: Seq<char>)
    requires
        well_written(t),
    ensures
        manifest_in(Some(merged_text(t, t))) == manifest_in(Some(t)),
{
    let ls = text::lines_of(t);
    let ms = text::lines_of(merged_text(t, t));
    lemma_merged_read_back(t, t);
    lemma_rows_of_both(ls, ls);
    assert(rows_of(ls).union_prefer_right(rows_of(ls)) =~= rows_of(ls));
    law_merged_manifest_is_well_written(t, t);
    assert(rows_of(ms) == rows_of(ls));
    lemma_entries_by_rows(ls);
    lemma_entries_by_rows(ms);
    let x = entries::entries_of(ls, entry_reader());
    let y = entries::entries_of(ms, entry_reader());
    assert forall|k: Seq<char>| x.dom().contains(k) <==> y.dom().contains(k) by {
        assert(x.dom().contains(k) <==> rows_of(ls).dom().contains(codec::escaped(k)));
    }
    assert(x =~= y);
}

/// Whether a row is found again when it was written and read: it keeps its first column, and
/// loses no more than one carriage return at its end.
pub open spec fn is_steady(line: Seq<char>) -> bool {
    let read = text::strip_cr(line);
    text::strip_cr(read) == read && row_key(read) == row_key(line)
}

/// Whether the rows that stay when the manifests with the texts `a` and `b` are merged are found
/// again when they were written and read.
pub open spec fn merges_steadily(a: Seq<char>, b: Seq<char>) -> bool {
    forall|k: Seq<char>| #[trigger]
        merged_rows(a, b).dom().contains(k) ==> is_steady(merged_rows(a, b)[k])
}

/// Manifests whose lines do not end in a carriage return merge steadily.
pub proof fn law_plain_manifests_merge_steadily(a: Seq<char>, b: Seq<char>)
    requires
        plain_lines(a),
        plain_lines(b),
    ensures
        merges_steadily(a, b),
{
    let la = text::lines_of(a);
    let lb = text::lines_of(b);
    let all = la + lb;
    lemma_rows_of(all);
    assert forall|k: Seq<char>| #[trigger] merged_rows(a, b).dom().contains(k) implies is_steady(
        merged_rows(a, b)[k],
    ) by {
        let l = merged_rows(a, b)[k];
        let j = choose|j: int| 0 <= j < all.len() && all[j] == l;
        if j < la.len() {
            assert(la[j] == l);
        } else {
            assert(lb[j - la.len()] == l);
        }
    }
}

/// What was merged with `b` has the same lines after it was merged with `b` again.
pub proof fn law_manifest_merged_again(a: Seq<char>, b: Seq<char>)
    requires
        plain_lines(b),
        merges_steadily(a, b),
    ensures
        text::lines_of(merged_text(merged_text(a, b), b)) == text::lines_of(merged_text(a, b)),
{
    let la = text::lines_of(a);
    let lb = text::lines_of(b);
    let all = la + lb;
    let m = merged_text(a, b);
    let rows = merged_rows(a, b);
    let keys = ordmap::sorted(rows.dom());
    let ls = row_lines(rows);
    let read = Map::new(
        |k: Seq<char>| rows.dom().contains(k),
        |k: Seq<char>| text::strip_cr(rows[k]),
    );
    lemma_rows_of(all);
    ordmap::lemma_sorted_exists(rows.dom());
    lemma_lines_hold_no_newline(a);
    lemma_lines_hold_no_newline(b);
    assert forall|i: int| 0 <= i < ls.len() implies !(#[trigger] ls[i]).contains('\n') by {
        assert(keys.contains(keys[i]));
        assert(rows.dom().contains(keys[i]));
        let j = choose|j: int| 0 <= j < all.len() && all[j] == ls[i];
        if j < la.len() {
            assert(la[j] == ls[i]);
        } else {
            assert(lb[j - la.len()] == ls[i]);
        }
    }
    text::lemma_lines_lose_ends(ls);
    assert(read.dom() =~= rows.dom());
    let rs = row_lines(read);
    assert forall|i: int| 0 <= i < ls.len() implies text::strip_cr(#[trigger] ls[i]) == rs[i] by {
        assert(keys.contains(keys[i]));
        assert(rows.dom().contains(keys[i]));
    }
    assert(text::lines_of(m) =~= rs);
    assert forall|k: Seq<char>| #[trigger] read.dom().contains(k) implies row_key(read[k]) == k
        && k.len() > 0 by {
        assert(rows.dom().contains(k));
    }
    let n = keys.len() as int;
    lemma_rows_of_row_lines(read, n);
    assert(rs.take(n) =~= rs);
    assert(keys.take(n) =~= keys);
    assert(rows_of(rs) =~= read);
    lemma_rows_of_both(la, lb);
    lemma_rows_of_both(rs, lb);
    lemma_rows_of(lb);
    assert forall|k: Seq<char>| rows_of(lb).dom().contains(k) implies read.dom().contains(k)
        && read[k] == rows_of(lb)[k] by {
        let l = rows_of(lb)[k];
        let j = choose|j: int| 0 <= j < lb.len() && lb[j] == l;
        assert(lb[j] == l);
        assert(rows.dom().contains(k) && rows[k] == l);
    }
    assert(merged_rows(m, b) =~= read);
    assert forall|i: int| 0 <= i < rs.len() implies !(#[trigger] rs[i]).contains('\n')
        && text::strip_cr(rs[i]) == rs[i] by {
        assert(keys.contains(keys[i]));
        assert(rows.dom().contains(keys[i]));
        assert(rs[i] == text::strip_cr(ls[i]));
        assert(!ls[i].contains('\n'));
        assert forall|c: int| 0 <= c < rs[i].len() implies rs[i][c] != '\n' by {
            assert(rs[i][c] == ls[i][c]);
            assert(ls[i].contains(ls[i][c]));
        }
    }
    text::lemma_lines_of_joined(rs);
}

} // verus!
