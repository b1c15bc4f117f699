//! How the texts of files and snapshots are read, whatever stands in them.

use vstd::prelude::*;
use vstd::utf8::*;

use crate::codec;
use crate::decimal;
use crate::docfile;
use crate::entries;
use crate::folder_laws;
use crate::hash;
use crate::hash::ByteOrder;
use crate::import;
use crate::manifest;
use crate::manifest::EntryView;
use crate::shares;
use crate::shares::ShareView;
use crate::snapshot;
use crate::snapshot::{Item, RecordView};
use crate::table;
use crate::text;
use crate::textdoc::DocView;
use crate::tree::LineView;

verus! {

/// The pieces of a text are what stands between its separators, in order and exactly.
pub proof fn law_pieces_stand_between_separators(a: Seq<char>, b: Seq<char>, sep: char)
    requires
        !a.contains(sep),
    ensures
        text::split_at_char(a, sep) == seq![a],
        text::split_at_char(a.push(sep) + b, sep) == seq![a] + text::split_at_char(b, sep),
{
    text::lemma_split_one(a, sep);
    text::lemma_split_concat(a, b, sep);
}

/// The lines of a text are what stands between its newlines, in order; a carriage return before a
/// newline does not count, and what stands behind the last newline is a line where it is not
/// empty.
pub proof fn law_lines_stand_between_newlines(a: Seq<char>, rest: Seq<char>)
    requires
        !a.contains('\n'),
    ensures
        text::lines_of(a) == if a.len() == 0 {
            Seq::<Seq<char>>::empty()
        } else {
            seq![a]
        },
        a.len() > 0 && a.last() == '\r' ==> text::lines_of(a.push('\n') + rest) == seq![
            a.drop_last(),
        ] + text::lines_of(rest),
        a.len() == 0 || a.last() != '\r' ==> text::lines_of(a.push('\n') + rest) == seq![a]
            + text::lines_of(rest),
{
    let p = text::split_at_char(rest, '\n');
    let all = text::split_at_char(a.push('\n') + rest, '\n');
    law_pieces_stand_between_separators(a, rest, '\n');
    text::lemma_split_nonempty(rest, '\n');
    assert(all =~= seq![a] + p);
    assert(all.last() == p.last());
    assert(all.drop_last() =~= seq![a] + p.drop_last());
    assert(text::lines_of(a.push('\n') + rest) =~= seq![text::strip_cr(a)] + text::lines_of(rest));
    assert(text::lines_of(a) =~= if a.len() == 0 {
        Seq::<Seq<char>>::empty()
    } else {
        seq![a]
    });
}

/// Exchanging a character changes every one of its kind and no other.
pub proof fn law_characters_are_exchanged(s: Seq<char>, from: char, to: char, i: int)
    requires
        0 <= i < s.len(),
    ensures
        text::with_char(s, from, to).len() == s.len(),
        s[i] == from ==> text::with_char(s, from, to)[i] == to,
        s[i] != from ==> text::with_char(s, from, to)[i] == s[i],
{
}

/// The columns of a line of four columns and more behind a first one.
proof fn lemma_columns(a: Seq<char>, b: Seq<char>, c: Seq<char>, rest: Seq<char>)
    requires
        !a.contains('\t'),
        !b.contains('\t'),
        !c.contains('\t'),
    ensures
        ({
            let line = a.push('\t') + (b.push('\t') + (c.push('\t') + rest));
            let cols = text::split_at_char(line, '\t');
            &&& cols.len() == 3 + text::split_at_char(rest, '\t').len()
            &&& cols[0] == a
            &&& cols[1] == b
            &&& cols[2] == c
            &&& forall|k: int|
                0 <= k < text::split_at_char(rest, '\t').len() ==> #[trigger] cols[3 + k]
                    == text::split_at_char(rest, '\t')[k]
        }),
{
    let y = c.push('\t') + rest;
    let x = b.push('\t') + y;
    law_pieces_stand_between_separators(a, x, '\t');
    law_pieces_stand_between_separators(b, y, '\t');
    law_pieces_stand_between_separators(c, rest, '\t');
    text::lemma_split_nonempty(rest, '\t');
    let cols = text::split_at_char(a.push('\t') + x, '\t');
    let r = text::split_at_char(rest, '\t');
    assert(cols =~= seq![a, b, c] + r);
    assert forall|k: int| 0 <= k < r.len() implies #[trigger] cols[3 + k] == r[k] by {}
}

/// A record of a snapshot is read as what its columns say, whatever stands behind them: the kind,
/// the share, the name, and the bytes that its digits stand for. Digits that cannot be read make
/// it a broken one.
pub proof fn law_records_are_read(
    kind: Seq<char>,
    share: Seq<char>,
    name: Seq<char>,
    digits: Seq<char>,
    rest: Seq<char>,
)
    requires
        !kind.contains('\t'),
        !digits.contains('\t'),
    ensures
        ({
            let head = "FILE\t"@ + kind + "\t"@ + codec::escaped(share) + "\t"@ + codec::escaped(
                name,
            ) + "\t"@ + digits;
            let want = match codec::unhexed(digits) {
                Ok(bytes) => Item::File(RecordView { kind, share, name, bytes }),
                Err(e) => Item::Broken(e),
            };
            &&& snapshot::item_of(head) == want
            &&& snapshot::item_of(head + "\t"@ + rest) == want
        }),
{
    let s = codec::escaped(share);
    let n = codec::escaped(name);
    let head = "FILE\t"@ + kind + "\t"@ + s + "\t"@ + n + "\t"@ + digits;
    reveal_strlit("FILE\t");
    reveal_strlit("FILE");
    reveal_strlit("SHARE");
    reveal_strlit("SNAPSHOT 1");
    reveal_strlit("END");
    reveal_strlit("\t");
    assert("FILE"@[0] == 'F' && "SHARE"@[0] == 'S' && "SNAPSHOT 1"@[0] == 'S' && "END"@[0] == 'E');
    entries::lemma_escaped_column(share);
    entries::lemma_escaped_column(name);
    assert(!"FILE"@.contains('\t'));
    lemma_columns("FILE"@, kind, s, n.push('\t') + digits);
    law_pieces_stand_between_separators(n, digits, '\t');
    law_pieces_stand_between_separators(digits, rest, '\t');
    law_pieces_stand_between_separators(n, digits.push('\t') + rest, '\t');
    assert(head =~= "FILE"@.push('\t') + (kind.push('\t') + (s.push('\t') + (n.push('\t')
        + digits))));
    let cols = table::columns_of(head);
    let r = text::split_at_char(n.push('\t') + digits, '\t');
    assert(r =~= seq![n, digits]);
    assert(cols[3 + 0int] == r[0] && cols[3 + 1int] == r[1]);
    assert(head[0] == 'F');
    let long = head + "\t"@ + rest;
    let tail = n.push('\t') + (digits.push('\t') + rest);
    lemma_columns("FILE"@, kind, s, tail);
    text::lemma_split_nonempty(rest, '\t');
    assert(long =~= "FILE"@.push('\t') + (kind.push('\t') + (s.push('\t') + tail)));
    let q = text::split_at_char(tail, '\t');
    assert(q =~= seq![n, digits] + text::split_at_char(rest, '\t'));
    let more = table::columns_of(long);
    assert(more[3 + 0int] == q[0] && more[3 + 1int] == q[1]);
    assert(long[0] == 'F');
}

/// A share of a snapshot is read as what its columns say; the first and the last line and empty
/// ones say nothing, and neither does a line that begins with another word.
pub proof fn law_other_lines_are_read(
    id: Seq<char>,
    name: Seq<char>,
    word: Seq<char>,
    rest: Seq<char>,
)
    requires
        !word.contains('\t'),
        word != "FILE"@,
        word != "SHARE"@,
    ensures
        snapshot::item_of("SHARE\t"@ + codec::escaped(id) + "\t"@ + codec::escaped(name))
            == Item::Share(id, name),
        snapshot::item_of(word) is Nothing,
        snapshot::item_of(word.push('\t') + rest) is Nothing,
{
    let i = codec::escaped(id);
    let n = codec::escaped(name);
    reveal_strlit("SHARE\t");
    reveal_strlit("SHARE");
    reveal_strlit("SNAPSHOT 1");
    reveal_strlit("END");
    reveal_strlit("\t");
    assert("SHARE"@[1] == 'H' && "SNAPSHOT 1"@[1] == 'N' && "END"@[0] == 'E');
    entries::lemma_escaped_column(id);
    entries::lemma_escaped_column(name);
    let line = "SHARE\t"@ + i + "\t"@ + n;
    assert(!"SHARE"@.contains('\t'));
    law_pieces_stand_between_separators("SHARE"@, i.push('\t') + n, '\t');
    law_pieces_stand_between_separators(i, n, '\t');
    law_pieces_stand_between_separators(n, n, '\t');
    assert(line =~= "SHARE"@.push('\t') + (i.push('\t') + n));
    assert(line[0] == 'S' && line[1] == 'H');
    let cols = table::columns_of(line);
    assert(cols =~= seq!["SHARE"@, i, n]);
    law_pieces_stand_between_separators(word, rest, '\t');
    let other = table::columns_of(word.push('\t') + rest);
    assert(other[0] == word);
    assert(table::columns_of(word)[0] == word);
}

/// A record of a kind that is not known goes nowhere; the others go to a file.
pub proof fn law_only_known_kinds_are_kept(base: Seq<char>, r: RecordView)
    ensures
        import::destination(base, r) is Some <==> r.kind == "MANIFEST"@ || r.kind == "CRDT"@
            || r.kind == "BLOB"@,
{
}

/// Of the names of remote shares the last one that came counts, and those that did not come stay.
pub proof fn law_last_name_of_a_share_counts(
    known: Map<Seq<char>, Seq<char>>,
    named: Seq<(Seq<char>, Seq<char>)>,
    id: Seq<char>,
    name: Seq<char>,
    other: Seq<char>,
)
    requires
        other != id,
    ensures
        ({
            let before = import::remembered(known, named);
            let after = import::remembered(known, named.push((id, name)));
            &&& after.dom().contains(id) && after[id] == name
            &&& after.dom().contains(other) == before.dom().contains(other)
            &&& before.dom().contains(other) ==> after[other] == before[other]
        }),
        import::remembered(known, Seq::empty()) == known,
{
    assert(named.push((id, name)).drop_last() =~= named);
}

/// The entries of a manifest are read line by line: the last line of a path counts, lines with
/// fewer than five columns do not.
#[verifier::spinoff_prover]
#[verifier::rlimit(60)]
pub proof fn law_manifest_lines_are_read(
    ls: Seq<Seq<char>>,
    e: EntryView,
    mtime: Seq<char>,
    size: Seq<char>,
)
    requires
        !mtime.contains('\t'),
        !size.contains('\t'),
    ensures
        ({
            let line = codec::escaped(e.path) + "\t"@ + codec::escaped(e.kind) + "\t"@
                + codec::escaped(e.object) + "\t"@ + mtime + "\t"@ + size;
            let short = codec::escaped(e.path) + "\t"@ + codec::escaped(e.kind) + "\t"@
                + codec::escaped(e.object) + "\t"@ + mtime;
            let read = manifest::entry_reader();
            let had = entries::entries_of(ls, read);
            &&& entries::entries_of(ls.push(line), read) == had.insert(
                e.path,
                EntryView {
                    path: e.path,
                    kind: e.kind,
                    object: e.object,
                    mtime: manifest::number_in(mtime),
                    size: manifest::number_in(size),
                },
            )
            &&& entries::entries_of(ls.push(short), read) == had
        }),
{
    let p = codec::escaped(e.path);
    let k = codec::escaped(e.kind);
    let o = codec::escaped(e.object);
    reveal_strlit("\t");
    entries::lemma_escaped_column(e.path);
    entries::lemma_escaped_column(e.kind);
    entries::lemma_escaped_column(e.object);
    let line = p + "\t"@ + k + "\t"@ + o + "\t"@ + mtime + "\t"@ + size;
    let short = p + "\t"@ + k + "\t"@ + o + "\t"@ + mtime;
    let tail = mtime.push('\t') + size;
    let read = manifest::entry_reader();
    assert(table::columns_of(line) == seq![p, k, o, mtime, size]) by {
        lemma_columns(p, k, o, tail);
        law_pieces_stand_between_separators(mtime, size, '\t');
        law_pieces_stand_between_separators(size, size, '\t');
        assert(line =~= p.push('\t') + (k.push('\t') + (o.push('\t') + tail)));
        let q = text::split_at_char(tail, '\t');
        assert(q =~= seq![mtime, size]);
        let cols = table::columns_of(line);
        assert(cols[3 + 0int] == q[0] && cols[3 + 1int] == q[1]);
        assert(cols =~= seq![p, k, o, mtime, size]);
    }
    assert(table::columns_of(short).len() == 4) by {
        lemma_columns(p, k, o, mtime);
        law_pieces_stand_between_separators(mtime, size, '\t');
        assert(short =~= p.push('\t') + (k.push('\t') + (o.push('\t') + mtime)));
    }
    assert(ls.push(line).drop_last() =~= ls);
    assert(ls.push(short).drop_last() =~= ls);
    let cols = table::columns_of(line);
    assert(read(cols) == Some(
        (
            e.path,
            EntryView {
                path: e.path,
                kind: e.kind,
                object: e.object,
                mtime: manifest::number_in(mtime),
                size: manifest::number_in(size),
            },
        ),
    ));
    assert(read(table::columns_of(short)) is None);
}

/// A time or a size is read where it is written in decimal and fits; other texts stand for zero.
pub proof fn law_times_and_sizes_are_read(n: nat, s: Seq<char>)
    ensures
        n <= u64::MAX ==> manifest::number_in(decimal::digits(n)) == n,
        n > u64::MAX ==> manifest::number_in(decimal::digits(n)) == 0,
        decimal::number(s) is None ==> manifest::number_in(s) == 0,
{
    decimal::law_number_of_digits(n);
}

/// The lines of a text document are read record by record: the last record of a line counts, one
/// is deleted if and only if its mark is a one, and a text that cannot be read is empty. A clock
/// that cannot be read is zero, and other records say nothing.
pub proof fn law_document_records_are_read(
    ls: Seq<Seq<char>>,
    l: LineView,
    mark: Seq<char>,
    digits: Seq<char>,
    word: Seq<char>,
    rest: Seq<char>,
)
    requires
        !mark.contains('\t'),
        !digits.contains('\t'),
        !word.contains('\t'),
        word != "line"@,
        word != "clock"@,
    ensures
        ({
            let d = docfile::of_records(ls);
            let line = "line\t"@ + codec::escaped(l.id) + "\t"@ + codec::escaped(l.parent) + "\t"@
                + mark + "\t"@ + digits;
            let read = LineView {
                id: l.id,
                parent: l.parent,
                tombstone: mark == "1"@,
                text: match codec::unhexed(digits) {
                    Ok(b) => if valid_utf8(b) {
                        decode_utf8(b)
                    } else {
                        Seq::empty()
                    },
                    Err(_) => Seq::empty(),
                },
            };
            &&& docfile::of_records(ls.push(line)) == (DocView {
                clock: d.clock,
                lines: d.lines.insert(l.id, read),
            })
            &&& docfile::of_records(ls.push("clock\t"@ + digits)) == (DocView {
                clock: match decimal::number_up_to(digits, u64::MAX as nat) {
                    Some(n) => n,
                    None => 0,
                },
                lines: d.lines,
            })
            &&& docfile::of_records(ls.push(word.push('\t') + rest)) == d
            &&& docfile::of_records(ls.push(word)) == d
        }),
        docfile::of_records(Seq::empty()) == (DocView { clock: 0, lines: Map::empty() }),
{
    let i = codec::escaped(l.id);
    let p = codec::escaped(l.parent);
    reveal_strlit("line\t");
    reveal_strlit("line");
    reveal_strlit("clock\t");
    reveal_strlit("clock");
    reveal_strlit("\t");
    assert("line"@[0] == 'l' && "clock"@[0] == 'c');
    assert(!"line"@.contains('\t'));
    assert(!"clock"@.contains('\t'));
    entries::lemma_escaped_column(l.id);
    entries::lemma_escaped_column(l.parent);
    let line = "line\t"@ + i + "\t"@ + p + "\t"@ + mark + "\t"@ + digits;
    let tail = mark.push('\t') + digits;
    lemma_columns("line"@, i, p, tail);
    law_pieces_stand_between_separators(mark, digits, '\t');
    law_pieces_stand_between_separators(digits, digits, '\t');
    assert(line =~= "line"@.push('\t') + (i.push('\t') + (p.push('\t') + tail)));
    let q = text::split_at_char(tail, '\t');
    assert(q =~= seq![mark, digits]);
    let cols = table::columns_of(line);
    assert(cols[3 + 0int] == q[0] && cols[3 + 1int] == q[1]);
    assert(ls.push(line).drop_last() =~= ls);
    let clock = "clock\t"@ + digits;
    assert(clock =~= "clock"@.push('\t') + digits);
    law_pieces_stand_between_separators("clock"@, digits, '\t');
    let two = table::columns_of(clock);
    assert(two =~= seq!["clock"@, digits]);
    assert(ls.push(clock).drop_last() =~= ls);
    law_pieces_stand_between_separators(word, rest, '\t');
    assert(table::columns_of(word.push('\t') + rest)[0] == word);
    assert(table::columns_of(word)[0] == word);
    assert(ls.push(word.push('\t') + rest).drop_last() =~= ls);
    assert(ls.push(word).drop_last() =~= ls);
}

/// The shares of a file are read line by line, in order; lines with fewer than three columns are
/// passed over.
pub proof fn law_share_lines_are_read(ls: Seq<Seq<char>>, s: ShareView)
    ensures
        ({
            let read = shares::share_reader();
            let line = codec::escaped(s.id) + "\t"@ + codec::escaped(s.name) + "\t"@
                + codec::escaped(s.root);
            let short = codec::escaped(s.id) + "\t"@ + codec::escaped(s.name);
            &&& entries::items_of(ls.push(line), read) == entries::items_of(ls, read).push(s)
            &&& entries::items_of(ls.push(short), read) == entries::items_of(ls, read)
        }),
        entries::items_of(Seq::empty(), shares::share_reader()) == Seq::<ShareView>::empty(),
{
    let i = codec::escaped(s.id);
    let n = codec::escaped(s.name);
    let r = codec::escaped(s.root);
    reveal_strlit("\t");
    entries::lemma_escaped_column(s.id);
    entries::lemma_escaped_column(s.name);
    entries::lemma_escaped_column(s.root);
    let line = i + "\t"@ + n + "\t"@ + r;
    let short = i + "\t"@ + n;
    law_pieces_stand_between_separators(i, n.push('\t') + r, '\t');
    law_pieces_stand_between_separators(n, r, '\t');
    law_pieces_stand_between_separators(r, r, '\t');
    law_pieces_stand_between_separators(i, n, '\t');
    assert(line =~= i.push('\t') + (n.push('\t') + r));
    assert(short =~= i.push('\t') + n);
    assert(table::columns_of(line) =~= seq![i, n, r]);
    assert(table::columns_of(short) =~= seq![i, n]);
    assert(ls.push(line).drop_last() =~= ls);
    assert(ls.push(short).drop_last() =~= ls);
}

/// A share is known by its id alone.
pub proof fn law_shares_are_known_by_their_ids(ss: Seq<ShareView>, s: ShareView, id: Seq<char>)
    ensures
        shares::has_share(ss.push(s), id) <==> shares::has_share(ss, id) || s.id == id,
        !shares::has_share(Seq::empty(), id),
{
    let all = ss.push(s);
    if shares::has_share(ss, id) {
        let i = choose|i: int| 0 <= i < ss.len() && (#[trigger] ss[i]).id == id;
        assert(all[i].id == id);
    }
    if s.id == id {
        assert(all[ss.len() as int].id == id);
    }
    if shares::has_share(all, id) {
        let i = choose|i: int| 0 <= i < all.len() && (#[trigger] all[i]).id == id;
        if i < ss.len() {
            assert(ss[i].id == id);
        }
    }
}

/// The hash of a file is that of all of its bytes, piece by piece; that of one run is that of its
/// length and its bytes.
pub proof fn law_contents_are_hashed_whole(data: Seq<u8>, order: ByteOrder, w: Seq<Seq<u8>>)
    requires
        folder_laws::is_cut_into(data, order, w),
    ensures
        hash::content_hash(data, order) == hash::digest(w),
        hash::run_hash(data, order) == hash::digest(
            seq![hash::number_bytes(data.len(), order), data],
        ),
{
    folder_laws::lemma_cut_is_written(data, order, w);
}

/// A number is written in hexadecimal digit by digit, the lowest one last.
pub proof fn law_hexadecimal_digits_are_written(n: nat, d: nat, width: nat)
    requires
        d < 16,
    ensures
        decimal::hex_digits(16 * n + d, width + 1) == decimal::hex_digits(n, width).push(
            if d < 10 {
                (48 + d) as u8 as char
            } else {
                (87 + d) as u8 as char
            },
        ),
{
    assert((16 * n + d) / 16 == n);
    assert((16 * n + d) % 16 == d);
}

} // verus!
