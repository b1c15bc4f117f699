//! How a document is kept in a file.

use vstd::prelude::*;
use vstd::string::*;
use vstd::utf8::*;

use crate::bytes;
use crate::codec;
use crate::decimal;
use crate::home;
use crate::ordmap;
use crate::table;
use crate::text;
use crate::textdoc;
use crate::textdoc::{DocView, Line, TextDoc};
use crate::tree;
use crate::tree::LineView;

verus! {

/// What a column of hexadecimal digits says: the text whose UTF-8 encoding it holds, or nothing
/// where it holds none.
pub open spec fn hex_text(col: Seq<char>) -> Seq<char> {
    match codec::unhexed(col) {
        Ok(b) => if valid_utf8(b) {
            decode_utf8(b)
        } else {
            Seq::empty()
        },
        Err(_) => Seq::empty(),
    }
}

/// The line of a document that a record stands for.
pub open spec fn recorded_line(cols: Seq<Seq<char>>) -> LineView {
    LineView {
        id: codec::unescaped(cols[1]),
        parent: codec::unescaped(cols[2]),
        tombstone: cols[3] == "1"@,
        text: hex_text(cols[4]),
    }
}

/// `d` after the record `line` has been read. A record of another kind says nothing.
pub open spec fn with_record(d: DocView, line: Seq<char>) -> DocView {
    let cols = table::columns_of(line);
    if cols[0] == "clock"@ && cols.len() >= 2 {
        DocView {
            clock: match decimal::number_up_to(cols[1], u64::MAX as nat) {
                Some(n) => n,
                None => 0,
            },
            lines: d.lines,
        }
    } else if cols[0] == "line"@ && cols.len() >= 5 {
        let l = recorded_line(cols);
        DocView { clock: d.clock, lines: d.lines.insert(l.id, l) }
    } else {
        d
    }
}

/// The document that the records `ls` make.
pub open spec fn of_records(ls: Seq<Seq<char>>) -> DocView
    decreases ls.len(),
{
    if ls.len() == 0 {
        DocView { clock: 0, lines: Map::empty() }
    } else {
        with_record(of_records(ls.drop_last()), ls.last())
    }
}

/// The document that a file with the text `s` holds.
pub open spec fn parsed_doc(s: Seq<char>) -> DocView {
    of_records(text::lines_of(s))
}

/// The columns of the record of a line.
pub open spec fn line_columns(l: LineView) -> Seq<Seq<char>> {
    seq![
        "line"@,
        codec::escaped(l.id),
        codec::escaped(l.parent),
        if l.tombstone {
            "1"@
        } else {
            "0"@
        },
        codec::hex_of(encode_utf8(l.text)),
    ]
}

/// The records of a document: first its clock, then its lines in the order of their names.
pub open spec fn doc_records(d: DocView) -> Seq<Seq<char>> {
    let keys = ordmap::sorted(d.lines.dom());
    seq![table::tabbed(seq!["clock"@, decimal::digits(d.clock)])] + Seq::new(
        keys.len(),
        |i: int| table::tabbed(line_columns(d.lines[keys[i]])),
    )
}

/// The text of the file that holds `d`.
pub open spec fn doc_text(d: DocView) -> Seq<char> {
    text::joined(doc_records(d))
}

/// Reads a document.
pub fn parse_doc(s: &str) -> (d: TextDoc)
    ensures
        d.wf(),
        d@ == parsed_doc(s@),
{
    let mut doc = TextDoc::empty();
    let lines = text::lines(s);
    let ghost ls = text::lines_of(s@);
    let mut i: usize = 0;
    assert(ls.take(0) =~= Seq::<Seq<char>>::empty());
    while i < lines.len()
        invariant
            doc.wf(),
            i <= lines@.len(),
            text::views(lines@) == ls,
            doc@ == of_records(ls.take(i as int)),
        decreases lines@.len() - i,
    {
        proof {
            assert(ls.take(i + 1).drop_last() =~= ls.take(i as int));
            assert(ls.take(i + 1).last() == ls[i as int]);
            assert(ls[i as int] == lines@[i as int]@);
        }
        let cols = table::columns(&lines[i]);
        let ghost cv = table::columns_of(ls[i as int]);
        proof {
            assert forall|k: int| 0 <= k < cols@.len() implies cv[k] == (#[trigger] cols@[k])@ by {
                assert(text::views(cols@)[k] == cols@[k]@);
            }
        }
        if text::same(&cols[0], "clock") && cols.len() >= 2 {
            doc.clock = match decimal::parse_u64(&cols[1]) {
                Some(n) => n,
                None => 0,
            };
        } else if text::same(&cols[0], "line") && cols.len() >= 5 {
            let id = codec::unesc(&cols[1]);
            let line = Line {
                id: id.clone(),
                parent: codec::unesc(&cols[2]),
                tombstone: text::same(&cols[3], "1"),
                text: read_hex_text(&cols[4]),
            };
            doc.lines.insert(id, line);
        }
        i = i + 1;
    }
    assert(ls.take(i as int) =~= ls);
    doc
}

/// Reads a text that is written in hexadecimal.
fn read_hex_text(col: &str) -> (r: String)
    ensures
        r@ == hex_text(col@),
{
    match codec::unhex(col) {
        Ok(b) => match bytes::utf8_text(b) {
            Some(s) => s,
            None => String::new(),
        },
        Err(_) => String::new(),
    }
}

/// The text of the file that holds a document.
pub fn save_doc(doc: &TextDoc) -> (r: String)
    requires
        doc.wf(),
    ensures
        r@ == doc_text(doc@),
{
    let mut rows: Vec<String> = Vec::new();
    let clock_cols: Vec<String> = vec![text::owned("clock"), decimal::decimal(doc.clock as u128)];
    assert(text::views(clock_cols@) =~= seq!["clock"@, decimal::digits(doc@.clock)]);
    rows.push(table::row(&clock_cols));
    let n = doc.lines.len();
    let ghost all = doc_records(doc@);
    let ghost keys = ordmap::sorted(doc@.lines.dom());
    let mut i: usize = 0;
    assert(text::views(rows@) =~= all.take(1));
    while i < n
        invariant
            doc.wf(),
            i <= n,
            n == keys.len(),
            keys == ordmap::sorted(doc@.lines.dom()),
            all == doc_records(doc@),
            text::views(rows@) == all.take(i + 1),
        decreases n - i,
    {
        let l = doc.lines.value(i);
        let cols: Vec<String> = vec![
            text::owned("line"),
            codec::esc(&l.id),
            codec::esc(&l.parent),
            text::owned(
                if l.tombstone {
                    "1"
                } else {
                    "0"
                },
            ),
            codec::hex(l.text.as_str().as_bytes()),
        ];
        let ghost done = text::views(rows@);
        proof {
            assert(text::views(cols@) =~= line_columns(doc@.lines[keys[i as int]]));
        }
        let record = table::row(&cols);
        assert(all[i + 1] == record@);
        rows.push(record);
        i = i + 1;
        assert(text::views(rows@) =~= done.push(all[i as int]));
        assert(text::views(rows@) =~= all.take(i + 1));
    }
    assert(all.take(i + 1) =~= all);
    text::join_lines(&rows)
}

/// The document that a file holds; one that is not there holds the document without lines.
pub open spec fn doc_in(file: Option<Seq<char>>) -> DocView {
    match file {
        Some(s) => parsed_doc(s),
        None => DocView { clock: 0, lines: Map::empty() },
    }
}

/// Reads the document that a file holds.
pub fn load_doc(file: Option<&str>) -> (d: TextDoc)
    ensures
        d.wf(),
        d@ == doc_in(home::opt(file)),
{
    match file {
        Some(s) => parse_doc(s),
        None => TextDoc::empty(),
    }
}

/// What the file of a document holds after a text was taken over that was changed on `device`.
/// Nothing comes of a document that cannot be read, or whose numbers would run out.
pub fn edit_doc(file: Option<&str>, new_text: &str, device: &str) -> (r: Option<String>)
    ensures
        match r {
            Some(t) => textdoc::takes(doc_in(home::opt(file)), new_text@) && t@ == doc_text(
                textdoc::edited(doc_in(home::opt(file)), new_text@, device@),
            ),
            None => !textdoc::takes(doc_in(home::opt(file)), new_text@),
        },
{
    let mut doc = load_doc(file);
    if !doc.can_take(new_text) {
        return None;
    }
    doc.apply_local_text(new_text, device);
    Some(save_doc(&doc))
}

/// The text that the document in a file shows. A document that cannot be read shows none.
pub fn show_doc(file: Option<&str>) -> (r: Option<String>)
    ensures
        match r {
            Some(t) => textdoc::readable(doc_in(home::opt(file))) && t@ == textdoc::rendered(
                doc_in(home::opt(file)),
            ),
            None => !textdoc::readable(doc_in(home::opt(file))),
        },
{
    let doc = load_doc(file);
    if doc.is_readable() {
        Some(doc.render())
    } else {
        None
    }
}

/// The record of a line is one line of the file, and is read back unchanged.
proof fn lemma_line_record(l: LineView)
    ensures
        !table::tabbed(line_columns(l)).contains('\n'),
        text::strip_cr(table::tabbed(line_columns(l))) == table::tabbed(line_columns(l)),
        table::columns_of(table::tabbed(line_columns(l))) == line_columns(l),
        recorded_line(line_columns(l)) == l,
{
    let cols = line_columns(l);
    let text_bytes = encode_utf8(l.text);
    reveal_strlit("line");
    reveal_strlit("0");
    reveal_strlit("1");
    codec::law_escaped_fits_column(l.id);
    codec::law_escaped_fits_column(l.parent);
    codec::lemma_hex_of(text_bytes);
    assert forall|i: int| 0 <= i < cols.len() implies !(#[trigger] cols[i]).contains('\t')
        && !cols[i].contains('\n') by {
        if i == 0 {
            assert(cols[0] == "line"@);
        } else if i == 3 {
            assert(cols[3] == "0"@ || cols[3] == "1"@);
        } else if i == 4 {
            let h = codec::hex_of(text_bytes);
            assert(cols[4] == h);
            assert forall|k: int| 0 <= k < h.len() implies h[k] != '\t' && h[k] != '\n' by {}
        }
    }
    table::lemma_columns_of_tabbed(cols);
    table::lemma_tabbed_is_line(cols);
    codec::law_unescaped_escaped(l.id);
    codec::law_unescaped_escaped(l.parent);
    codec::law_unhexed_hex_of(text_bytes);
    encode_utf8_valid_utf8(l.text);
    encode_utf8_decode_utf8(l.text);
    assert("0"@[0] == '0' && "1"@[0] == '1');
    assert(cols[3] == "1"@ <==> l.tombstone);
    assert(recorded_line(cols) =~= l);
}

/// The record of the clock is one line of the file, and is read back unchanged.
proof fn lemma_clock_record(clock: nat)
    ensures
        ({
            let cols = seq!["clock"@, decimal::digits(clock)];
            &&& !table::tabbed(cols).contains('\n')
            &&& text::strip_cr(table::tabbed(cols)) == table::tabbed(cols)
            &&& table::columns_of(table::tabbed(cols)) == cols
        }),
{
    let d = decimal::digits(clock);
    let cols = seq!["clock"@, d];
    reveal_strlit("clock");
    decimal::lemma_digits(clock);
    assert forall|i: int| 0 <= i < cols.len() implies !(#[trigger] cols[i]).contains('\t')
        && !cols[i].contains('\n') by {
        if i == 1 {
            assert forall|k: int| 0 <= k < d.len() implies d[k] != '\t' && d[k] != '\n' by {
                assert(decimal::is_digit(d[k]));
            }
        } else {
            assert(cols[0] == "clock"@);
        }
    }
    assert(decimal::is_digit(d[d.len() - 1]));
    table::lemma_columns_of_tabbed(cols);
    table::lemma_tabbed_is_line(cols);
}

/// Reading the record of a line adds the line.
proof fn lemma_with_line_record(d: DocView, l: LineView)
    ensures
        with_record(d, table::tabbed(line_columns(l))) == (DocView {
            clock: d.clock,
            lines: d.lines.insert(l.id, l),
        }),
{
    lemma_line_record(l);
    reveal_strlit("line");
    reveal_strlit("clock");
    assert("line"@[0] == 'l' && "clock"@[0] == 'c');
}

/// Reading the record of the clock sets the clock.
proof fn lemma_with_clock_record(d: DocView, clock: nat)
    requires
        clock <= u64::MAX,
    ensures
        with_record(d, table::tabbed(seq!["clock"@, decimal::digits(clock)])) == (DocView {
            clock,
            lines: d.lines,
        }),
{
    lemma_clock_record(clock);
    decimal::law_number_of_digits(clock);
}

/// The lines that the first `n` names stand for.
spec fn first_lines(lines: tree::Lines, keys: Seq<Seq<char>>, n: int) -> tree::Lines {
    Map::new(|k: Seq<char>| keys.take(n).contains(k), |k: Seq<char>| lines[k])
}

/// What the first records of a saved document make.
proof fn lemma_of_first_records(d: DocView, n: int)
    requires
        d.clock <= u64::MAX,
        d.lines.dom().finite(),
        tree::keyed(d.lines),
        0 <= n <= ordmap::sorted(d.lines.dom()).len(),
    ensures
        of_records(doc_records(d).take(n + 1)) == (DocView {
            clock: d.clock,
            lines: first_lines(d.lines, ordmap::sorted(d.lines.dom()), n),
        }),
    decreases n,
{
    let keys = ordmap::sorted(d.lines.dom());
    let all = doc_records(d);
    let rows = all.take(n + 1);
    ordmap::lemma_sorted_exists(d.lines.dom());
    if n == 0 {
        let blank = DocView { clock: 0, lines: Map::<Seq<char>, LineView>::empty() };
        lemma_with_clock_record(blank, d.clock);
        assert(rows.drop_last() =~= Seq::<Seq<char>>::empty());
        assert(of_records(rows.drop_last()) == blank);
        assert(first_lines(d.lines, keys, 0) =~= blank.lines);
    } else {
        lemma_of_first_records(d, n - 1);
        assert(rows.drop_last() =~= all.take(n));
        let k = keys[n - 1];
        let l = d.lines[k];
        assert(rows.last() == table::tabbed(line_columns(l)));
        lemma_with_line_record(of_records(all.take(n)), l);
        assert(keys.contains(k));
        text::lemma_take_next(keys, n - 1);
        assert(first_lines(d.lines, keys, n) =~= first_lines(d.lines, keys, n - 1).insert(k, l));
    }
}

/// A document that was read can be saved and read back.
pub proof fn lemma_read_doc(ls: Seq<Seq<char>>)
    ensures
        of_records(ls).clock <= u64::MAX,
        of_records(ls).lines.dom().finite(),
        tree::keyed(of_records(ls).lines),
    decreases ls.len(),
{
    if ls.len() > 0 {
        lemma_read_doc(ls.drop_last());
        let d = of_records(ls.drop_last());
        let e = of_records(ls);
        assert forall|k: Seq<char>| #[trigger] e.lines.dom().contains(k) implies e.lines[k].id
            == k by {
            if d.lines.dom().contains(k) {
                assert(d.lines[k].id == k);
            }
        }
    }
}

/// A document that was saved is read back unchanged.
pub proof fn law_saved_doc_is_read_back(d: DocView)
    requires
        d.clock <= u64::MAX,
        d.lines.dom().finite(),
        tree::keyed(d.lines),
    ensures
        parsed_doc(doc_text(d)) == d,
{
    let keys = ordmap::sorted(d.lines.dom());
    let all = doc_records(d);
    ordmap::lemma_sorted_exists(d.lines.dom());
    assert forall|i: int| 0 <= i < all.len() implies !(#[trigger] all[i]).contains('\n')
        && text::strip_cr(all[i]) == all[i] by {
        if i == 0 {
            lemma_clock_record(d.clock);
        } else {
            lemma_line_record(d.lines[keys[i - 1]]);
        }
    }
    text::lemma_lines_of_joined(all);
    lemma_of_first_records(d, keys.len() as int);
    assert(all.take(keys.len() as int + 1) =~= all);
    assert(keys.take(keys.len() as int) =~= keys);
    assert(first_lines(d.lines, keys, keys.len() as int) =~= d.lines);
}

} // verus!
