//! Strings as sequences of characters.

use vstd::prelude::*;
use vstd::string::*;
use vstd::utf8::*;

verus! {

/// `String::push` appends one character.
pub assume_specification[ String::push ](s: &mut String, c: char)
    ensures
        final(s)@ == old(s)@.push(c),
;

/// The characters of `s`, in order.
pub fn chars_of(s: &str) -> (r: Vec<char>)
    ensures
        r@ == s@,
{
    let mut out: Vec<char> = Vec::new();
    for c in it: s.chars()
        invariant
            it.seq() == s@,
            out@ == it.seq().take(it.index() as int),
    {
        out.push(c);
    }
    out
}

/// The string made of the characters `from..to` of `chars`.
pub fn string_of(chars: &Vec<char>, from: usize, to: usize) -> (r: String)
    requires
        from <= to <= chars@.len(),
    ensures
        r@ == chars@.subrange(from as int, to as int),
{
    let mut out = String::new();
    let mut i: usize = from;
    while i < to
        invariant
            from <= i <= to <= chars@.len(),
            out@ == chars@.subrange(from as int, i as int),
        decreases to - i,
    {
        out.push(chars[i]);
        i = i + 1;
    }
    out
}

/// Whether two strings hold the same characters.
pub fn same(a: &str, b: &str) -> (r: bool)
    ensures
        r == (a@ == b@),
{
    let x = a.as_bytes();
    let y = b.as_bytes();
    proof {
        encode_utf8_decode_utf8(a@);
        encode_utf8_decode_utf8(b@);
    }
    if x.len() != y.len() {
        return false;
    }
    let mut i: usize = 0;
    while i < x.len()
        invariant
            i <= x@.len() == y@.len(),
            x@ == encode_utf8(a@),
            y@ == encode_utf8(b@),
            forall|k: int| 0 <= k < i ==> x@[k] == y@[k],
        decreases x@.len() - i,
    {
        if x[i] != y[i] {
            return false;
        }
        i = i + 1;
    }
    assert(x@ =~= y@);
    true
}


/// The contents of a list of strings.
pub open spec fn views(v: Seq<String>) -> Seq<Seq<char>> {
    Seq::new(v.len(), |i: int| v[i]@)
}

/// What the first `i + 1` strings of a list are.
pub proof fn lemma_take_next(s: Seq<Seq<char>>, i: int)
    requires
        0 <= i < s.len(),
    ensures
        forall|k: Seq<char>| #[trigger]
            s.take(i + 1).contains(k) <==> s.take(i).contains(k) || k == s[i],
{
    let a = s.take(i + 1);
    let b = s.take(i);
    assert forall|k: Seq<char>| #[trigger] a.contains(k) <==> b.contains(k) || k == s[i] by {
        if a.contains(k) {
            let j = choose|j: int| 0 <= j < a.len() && a[j] == k;
            if j < i {
                assert(b[j] == k);
            }
        }
        if b.contains(k) {
            let j = choose|j: int| 0 <= j < b.len() && b[j] == k;
            assert(a[j] == k);
        }
        if k == s[i] {
            assert(a[i] == k);
        }
    }
}

/// A copy of `s`.
pub fn owned(s: &str) -> (r: String)
    ensures
        r@ == s@,
{
    s.to_owned()
}

/// The pieces of `s` between the occurrences of `sep`; `n` occurrences make `n + 1` pieces.
pub open spec fn split_at_char(s: Seq<char>, sep: char) -> Seq<Seq<char>>
    decreases s.len(),
{
    if s.len() == 0 {
        seq![Seq::<char>::empty()]
    } else {
        let head = split_at_char(s.drop_last(), sep);
        if s.last() == sep {
            head.push(Seq::<char>::empty())
        } else {
            head.drop_last().push(head.last().push(s.last()))
        }
    }
}

/// A split has at least one piece.
pub proof fn lemma_split_nonempty(s: Seq<char>, sep: char)
    ensures
        split_at_char(s, sep).len() >= 1,
    decreases s.len(),
{
    if s.len() > 0 {
        lemma_split_nonempty(s.drop_last(), sep);
    }
}

/// A string without the separator is its only piece.
pub proof fn lemma_split_one(s: Seq<char>, sep: char)
    requires
        !s.contains(sep),
    ensures
        split_at_char(s, sep) == seq![s],
    decreases s.len(),
{
    if s.len() > 0 {
        assert forall|i: int| 0 <= i < s.drop_last().len() implies s.drop_last()[i] != sep by {
            assert(s.contains(s[i]));
        }
        lemma_split_one(s.drop_last(), sep);
        assert(s.contains(s.last()));
        assert(s.drop_last().push(s.last()) =~= s);
        assert(split_at_char(s, sep) =~= seq![s]);
    } else {
        assert(s =~= Seq::<char>::empty());
    }
}

/// A separator cuts a string into parts that are split independently.
pub proof fn lemma_split_concat(a: Seq<char>, b: Seq<char>, sep: char)
    ensures
        split_at_char(a.push(sep) + b, sep) == split_at_char(a, sep) + split_at_char(b, sep),
    decreases b.len(),
{
    let whole = a.push(sep) + b;
    if b.len() == 0 {
        assert(whole =~= a.push(sep));
        assert(whole.drop_last() =~= a);
        assert(split_at_char(whole, sep) =~= split_at_char(a, sep) + split_at_char(b, sep));
    } else {
        assert(whole.drop_last() =~= a.push(sep) + b.drop_last());
        lemma_split_concat(a, b.drop_last(), sep);
        lemma_split_nonempty(b.drop_last(), sep);
        let l = split_at_char(a, sep);
        let r = split_at_char(b.drop_last(), sep);
        assert((l + r).last() == r.last());
        assert((l + r).drop_last() =~= l + r.drop_last());
        assert(split_at_char(whole, sep) =~= l + split_at_char(b, sep));
    }
}

/// Characters other than the separator go to the last piece.
pub proof fn lemma_split_append(s: Seq<char>, t: Seq<char>, sep: char)
    requires
        !t.contains(sep),
    ensures
        split_at_char(s + t, sep) == split_at_char(s, sep).drop_last().push(
            split_at_char(s, sep).last() + t,
        ),
    decreases t.len(),
{
    lemma_split_nonempty(s, sep);
    let p = split_at_char(s, sep);
    if t.len() == 0 {
        assert(s + t =~= s);
        assert(p.last() + t =~= p.last());
        assert(p.drop_last().push(p.last()) =~= p);
    } else {
        let r = t.drop_last();
        assert forall|i: int| 0 <= i < r.len() implies r[i] != sep by {
            assert(t.contains(t[i]));
        }
        assert(t.contains(t.last()));
        lemma_split_append(s, r, sep);
        assert((s + t).drop_last() =~= s + r);
        let q = p.drop_last().push(p.last() + r);
        assert(q.drop_last() =~= p.drop_last());
        assert((p.last() + r).push(t.last()) =~= p.last() + t);
    }
}

/// Splits `s` at every occurrence of `sep`.
pub fn split(s: &str, sep: char) -> (r: Vec<String>)
    ensures
        views(r@) == split_at_char(s@, sep),
        r@.len() >= 1,
{
    let chars = chars_of(s);
    let mut out: Vec<String> = Vec::new();
    let mut cur = String::new();
    let mut i: usize = 0;
    proof {
        assert(s@.take(0) =~= Seq::<char>::empty());
        assert(views(out@).push(cur@) =~= seq![Seq::<char>::empty()]);
    }
    while i < chars.len()
        invariant
            i <= chars@.len(),
            chars@ == s@,
            views(out@).push(cur@) == split_at_char(s@.take(i as int), sep),
        decreases chars@.len() - i,
    {
        let c = chars[i];
        let ghost before = s@.take(i as int);
        let ghost done = views(out@);
        let ghost piece = cur@;
        proof {
            assert(s@.take(i + 1).drop_last() =~= before);
            assert(done.push(piece).drop_last() =~= done);
        }
        if c == sep {
            out.push(cur);
            cur = String::new();
            assert(views(out@) =~= done.push(piece));
        } else {
            cur.push(c);
        }
        i = i + 1;
    }
    proof {
        assert(s@.take(i as int) =~= s@);
    }
    let ghost done = views(out@);
    let ghost piece = cur@;
    out.push(cur);
    assert(views(out@) =~= done.push(piece));
    out
}

/// `line` without a carriage return at its end.
pub open spec fn strip_cr(line: Seq<char>) -> Seq<char> {
    if line.len() > 0 && line.last() == '\r' {
        line.drop_last()
    } else {
        line
    }
}

/// The lines of `s`. A line ends in `\n` or `\r\n`, which is not part of it; an end of line
/// after the last line is optional.
pub open spec fn lines_of(s: Seq<char>) -> Seq<Seq<char>> {
    let parts = split_at_char(s, '\n');
    let ended = parts.drop_last().map_values(|p: Seq<char>| strip_cr(p));
    if parts.last().len() == 0 {
        ended
    } else {
        ended.push(parts.last())
    }
}

/// The text made of the lines `ls`, each ended by a newline.
pub open spec fn joined(ls: Seq<Seq<char>>) -> Seq<char>
    decreases ls.len(),
{
    if ls.len() == 0 {
        Seq::empty()
    } else {
        joined(ls.drop_last()) + ls.last().push('\n')
    }
}

/// How the text made of lines that hold no newline is split.
pub proof fn lemma_split_joined(ls: Seq<Seq<char>>)
    requires
        forall|i: int| 0 <= i < ls.len() ==> !(#[trigger] ls[i]).contains('\n'),
    ensures
        split_at_char(joined(ls), '\n') == ls.push(Seq::<char>::empty()),
    decreases ls.len(),
{
    let j = joined(ls);
    let e = Seq::<char>::empty();
    if ls.len() > 0 {
        let r = ls.drop_last();
        assert forall|i: int| 0 <= i < r.len() implies !(#[trigger] r[i]).contains('\n') by {
            assert(r[i] == ls[i]);
        }
        lemma_split_joined(r);
        let jr = joined(r);
        let last = ls.last();
        assert(!ls[ls.len() - 1].contains('\n'));
        lemma_split_append(jr, last, '\n');
        assert(r.push(e).drop_last() =~= r);
        assert(e + last =~= last);
        assert(split_at_char(jr + last, '\n') =~= ls);
        assert(j =~= (jr + last).push('\n'));
        assert(j.drop_last() =~= jr + last);
    } else {
        assert(split_at_char(j, '\n') =~= ls.push(e));
    }
}

/// Lines that hold no newline are read back, each without a carriage return at its end.
pub proof fn lemma_lines_lose_ends(ls: Seq<Seq<char>>)
    requires
        forall|i: int| 0 <= i < ls.len() ==> !(#[trigger] ls[i]).contains('\n'),
    ensures
        lines_of(joined(ls)) == Seq::new(ls.len(), |i: int| strip_cr(ls[i])),
{
    lemma_split_joined(ls);
    let e = Seq::<char>::empty();
    assert(ls.push(e).drop_last() =~= ls);
    assert(lines_of(joined(ls)) =~= Seq::new(ls.len(), |i: int| strip_cr(ls[i])));
}

/// Lines that hold no newline and do not end in a carriage return are read back unchanged.
pub proof fn lemma_lines_of_joined(ls: Seq<Seq<char>>)
    requires
        forall|i: int| 0 <= i < ls.len() ==> !(#[trigger] ls[i]).contains('\n'),
        forall|i: int| 0 <= i < ls.len() ==> strip_cr(#[trigger] ls[i]) == ls[i],
    ensures
        lines_of(joined(ls)) == ls,
{
    lemma_split_joined(ls);
    let e = Seq::<char>::empty();
    assert(ls.push(e).drop_last() =~= ls);
    assert(lines_of(joined(ls)) =~= ls);
}

/// Joins lines into a text, a newline behind each.
pub fn join_lines(ls: &Vec<String>) -> (r: String)
    ensures
        r@ == joined(views(ls@)),
{
    let mut out = String::new();
    let mut i: usize = 0;
    assert(views(ls@).take(0) =~= Seq::<Seq<char>>::empty());
    while i < ls.len()
        invariant
            i <= ls@.len(),
            out@ == joined(views(ls@).take(i as int)),
        decreases ls@.len() - i,
    {
        let ghost done = out@;
        let ghost next = views(ls@).take(i + 1);
        out.append(&ls[i]);
        out.push('\n');
        proof {
            assert(next.drop_last() =~= views(ls@).take(i as int));
            assert(next.last() == ls@[i as int]@);
            assert(out@ =~= done + next.last().push('\n'));
        }
        i = i + 1;
    }
    assert(views(ls@).take(i as int) =~= views(ls@));
    out
}

/// The parts of a text do not hold what parts them.
pub proof fn lemma_split_parts(s: Seq<char>, sep: char)
    ensures
        forall|i: int|
            0 <= i < split_at_char(s, sep).len() ==> !(#[trigger] split_at_char(
                s,
                sep,
            )[i]).contains(sep),
    decreases s.len(),
{
    if s.len() > 0 {
        let head = split_at_char(s.drop_last(), sep);
        let all = split_at_char(s, sep);
        lemma_split_parts(s.drop_last(), sep);
        lemma_split_nonempty(s.drop_last(), sep);
        assert forall|i: int| 0 <= i < all.len() implies !(#[trigger] all[i]).contains(sep) by {
            if i < all.len() - 1 {
                assert(all[i] == head[i]);
            } else if s.last() != sep {
                let h = head[head.len() - 1];
                assert(!h.contains(sep));
                assert forall|k: int| 0 <= k < all[i].len() implies all[i][k] != sep by {
                    if k < h.len() {
                        assert(h.contains(h[k]));
                    }
                }
            }
        }
    }
}

/// The lines of `s`, as [`lines_of`] says.
pub fn lines(s: &str) -> (r: Vec<String>)
    ensures
        views(r@) == lines_of(s@),
{
    let parts = split(s, '\n');
    let n = parts.len();
    let ghost p = split_at_char(s@, '\n');
    let mut out: Vec<String> = Vec::new();
    let mut i: usize = 0;
    while i + 1 < n
        invariant
            n == parts@.len() == p.len(),
            n >= 1,
            i + 1 <= n,
            views(parts@) == p,
            views(out@) == p.drop_last().map_values(|q: Seq<char>| strip_cr(q)).take(i as int),
        decreases n - i,
    {
        let ghost done = views(out@);
        assert(views(parts@)[i as int] == parts@[i as int]@);
        let line = without_cr(&parts[i]);
        let ghost l = line@;
        out.push(line);
        assert(views(out@) =~= done.push(l));
        i = i + 1;
        assert(views(out@) =~= p.drop_last().map_values(|q: Seq<char>| strip_cr(q)).take(i as int));
    }
    proof {
        assert(p.drop_last().map_values(|q: Seq<char>| strip_cr(q)).take(i as int)
            =~= p.drop_last().map_values(|q: Seq<char>| strip_cr(q)));
        assert(views(parts@)[i as int] == parts@[i as int]@);
    }
    if !parts[n - 1].as_str().is_empty() {
        let ghost done = views(out@);
        let last = parts[n - 1].clone();
        out.push(last);
        assert(views(out@) =~= done.push(p.last()));
    }
    out
}

/// `line` without a carriage return at its end.
fn without_cr(line: &str) -> (r: String)
    ensures
        r@ == strip_cr(line@),
{
    let chars = chars_of(line);
    let n = chars.len();
    if n > 0 && chars[n - 1] == '\r' {
        string_of(&chars, 0, n - 1)
    } else {
        owned(line)
    }
}

/// Whether `c` has the Unicode property `White_Space`.
pub open spec fn is_white(c: char) -> bool {
    ||| '\u{9}' <= c <= '\u{d}'
    ||| c == ' '
    ||| c == '\u{85}'
    ||| c == '\u{a0}'
    ||| c == '\u{1680}'
    ||| '\u{2000}' <= c <= '\u{200a}'
    ||| c == '\u{2028}'
    ||| c == '\u{2029}'
    ||| c == '\u{202f}'
    ||| c == '\u{205f}'
    ||| c == '\u{3000}'
}

/// Tests the Unicode property `White_Space`.
pub fn is_whitespace(c: char) -> (r: bool)
    ensures
        r == is_white(c),
{
    ('\u{9}' <= c && c <= '\u{d}') || c == ' ' || c == '\u{85}' || c == '\u{a0}' || c == '\u{1680}'
        || ('\u{2000}' <= c && c <= '\u{200a}') || c == '\u{2028}' || c == '\u{2029}'
        || c == '\u{202f}' || c == '\u{205f}' || c == '\u{3000}'
}

/// Whether `s` holds nothing but whitespace.
pub open spec fn blank(s: Seq<char>) -> bool {
    forall|i: int| 0 <= i < s.len() ==> is_white(#[trigger] s[i])
}

/// Tests whether `s` holds nothing but whitespace.
pub fn is_blank(s: &str) -> (r: bool)
    ensures
        r == blank(s@),
{
    let chars = chars_of(s);
    let mut i: usize = 0;
    while i < chars.len()
        invariant
            i <= chars@.len(),
            chars@ == s@,
            forall|k: int| 0 <= k < i ==> is_white(#[trigger] s@[k]),
        decreases chars@.len() - i,
    {
        if !is_whitespace(chars[i]) {
            assert(!is_white(s@[i as int]));
            return false;
        }
        i = i + 1;
    }
    true
}

/// `s` without the whitespace at its end.
pub open spec fn trimmed_end(s: Seq<char>) -> Seq<char>
    decreases s.len(),
{
    if s.len() > 0 && is_white(s.last()) {
        trimmed_end(s.drop_last())
    } else {
        s
    }
}

/// Removes the whitespace at the end of `s`.
pub fn trim_end(s: &str) -> (r: String)
    ensures
        r@ == trimmed_end(s@),
{
    let chars = chars_of(s);
    let mut n: usize = chars.len();
    assert(s@.take(n as int) =~= s@);
    while n > 0 && is_whitespace(chars[n - 1])
        invariant
            n <= chars@.len(),
            chars@ == s@,
            trimmed_end(s@.take(n as int)) == trimmed_end(s@),
        decreases n,
    {
        assert(s@.take(n as int).drop_last() =~= s@.take(n - 1));
        n = n - 1;
    }
    assert(chars@.subrange(0, n as int) =~= s@.take(n as int));
    string_of(&chars, 0, n)
}

/// Whether `s` begins with `p`.
pub open spec fn has_prefix(s: Seq<char>, p: Seq<char>) -> bool {
    p.len() <= s.len() && s.take(p.len() as int) == p
}

/// Whether `s` ends with `p`.
pub open spec fn has_suffix(s: Seq<char>, p: Seq<char>) -> bool {
    p.len() <= s.len() && s.skip(s.len() - p.len()) == p
}

/// Whether `p` stands somewhere in `s`.
pub open spec fn has_part(s: Seq<char>, p: Seq<char>) -> bool {
    exists|i: int| 0 <= i <= s.len() - p.len() && #[trigger] s.subrange(i, i + p.len()) == p
}

/// Whether `p` stands in `s` at position `at`.
fn stands_at(s: &Vec<char>, p: &Vec<char>, at: usize) -> (r: bool)
    requires
        at + p@.len() <= s@.len(),
    ensures
        r == (s@.subrange(at as int, at + p@.len()) == p@),
{
    let n = s.len();
    let mut i: usize = 0;
    while i < p.len()
        invariant
            i <= p@.len(),
            n == s@.len(),
            at + p@.len() <= n,
            forall|k: int| 0 <= k < i ==> s@[at + k] == p@[k],
        decreases p@.len() - i,
    {
        if s[at + i] != p[i] {
            assert(s@.subrange(at as int, at + p@.len())[i as int] != p@[i as int]);
            return false;
        }
        i = i + 1;
    }
    assert(s@.subrange(at as int, at + p@.len()) =~= p@);
    true
}

/// Tests whether `s` begins with `p`.
pub fn starts_with(s: &str, p: &str) -> (r: bool)
    ensures
        r == has_prefix(s@, p@),
{
    let a = chars_of(s);
    let b = chars_of(p);
    proof {
        if p@.len() <= s@.len() {
            assert(s@.subrange(0, p@.len() as int) =~= s@.take(p@.len() as int));
        }
    }
    b.len() <= a.len() && stands_at(&a, &b, 0)
}

/// Tests whether `s` ends with `p`.
pub fn ends_with(s: &str, p: &str) -> (r: bool)
    ensures
        r == has_suffix(s@, p@),
{
    let a = chars_of(s);
    let b = chars_of(p);
    proof {
        if p@.len() <= s@.len() {
            assert(s@.subrange(s@.len() - p@.len(), s@.len() as int) =~= s@.skip(
                s@.len() - p@.len(),
            ));
        }
    }
    b.len() <= a.len() && stands_at(&a, &b, a.len() - b.len())
}

/// Tests whether `p` stands somewhere in `s`.
pub fn contains(s: &str, p: &str) -> (r: bool)
    ensures
        r == has_part(s@, p@),
{
    let a = chars_of(s);
    let b = chars_of(p);
    if b.len() > a.len() {
        return false;
    }
    let mut i: usize = 0;
    while i <= a.len() - b.len()
        invariant
            a@ == s@,
            b@ == p@,
            b@.len() <= a@.len(),
            i <= a@.len() - b@.len() + 1,
            forall|k: int| 0 <= k < i ==> #[trigger] s@.subrange(k, k + p@.len()) != p@,
        decreases a@.len() - b@.len() + 1 - i,
    {
        if stands_at(&a, &b, i) {
            return true;
        }
        if i == a.len() - b.len() {
            return false;
        }
        i = i + 1;
    }
    false
}

/// The rest of `s` behind the prefix `p`, where `s` begins with `p`.
pub fn strip_prefix(s: &str, p: &str) -> (r: Option<String>)
    ensures
        match r {
            Some(rest) => has_prefix(s@, p@) && rest@ == s@.skip(p@.len() as int),
            None => !has_prefix(s@, p@),
        },
{
    if starts_with(s, p) {
        let a = chars_of(s);
        let b = chars_of(p);
        assert(s@.subrange(p@.len() as int, s@.len() as int) =~= s@.skip(p@.len() as int));
        Some(string_of(&a, b.len(), a.len()))
    } else {
        None
    }
}

/// `c`, with the letters `A` to `Z` made small.
pub open spec fn lower_char(c: char) -> char {
    if 'A' <= c <= 'Z' {
        ((c as u8 + 32) as u8) as char
    } else {
        c
    }
}

/// `s`, with the letters `A` to `Z` made small.
pub open spec fn lowered(s: Seq<char>) -> Seq<char> {
    s.map_values(|c: char| lower_char(c))
}

/// Makes the letters `A` to `Z` of `s` small.
pub fn lowercase(s: &str) -> (r: String)
    ensures
        r@ == lowered(s@),
{
    let chars = chars_of(s);
    let mut out = String::new();
    let mut i: usize = 0;
    while i < chars.len()
        invariant
            i <= chars@.len(),
            chars@ == s@,
            out@ == lowered(s@).take(i as int),
        decreases chars@.len() - i,
    {
        let c = chars[i];
        let small = if 'A' <= c && c <= 'Z' {
            (c as u8 + 32) as char
        } else {
            c
        };
        out.push(small);
        i = i + 1;
        assert(out@ =~= lowered(s@).take(i as int));
    }
    assert(lowered(s@).take(i as int) =~= lowered(s@));
    out
}

/// `s`, with `from` replaced by `to`.
pub open spec fn with_char(s: Seq<char>, from: char, to: char) -> Seq<char> {
    s.map_values(|c: char| if c == from { to } else { c })
}

/// Replaces every `from` in `s` by `to`.
pub fn replace_char(s: &str, from: char, to: char) -> (r: String)
    ensures
        r@ == with_char(s@, from, to),
{
    let chars = chars_of(s);
    let mut out = String::new();
    let mut i: usize = 0;
    while i < chars.len()
        invariant
            i <= chars@.len(),
            chars@ == s@,
            out@ == with_char(s@, from, to).take(i as int),
        decreases chars@.len() - i,
    {
        let c = chars[i];
        out.push(if c == from { to } else { c });
        i = i + 1;
        assert(out@ =~= with_char(s@, from, to).take(i as int));
    }
    assert(with_char(s@, from, to).take(i as int) =~= with_char(s@, from, to));
    out
}

/// Whether `name` is one of `list`.
pub fn is_one_of(list: &Vec<String>, name: &str) -> (r: bool)
    ensures
        r == views(list@).contains(name@),
{
    let mut i: usize = 0;
    while i < list.len()
        invariant
            i <= list@.len(),
            forall|k: int| 0 <= k < i ==> #[trigger] views(list@)[k] != name@,
        decreases list@.len() - i,
    {
        if same(&list[i], name) {
            assert(views(list@)[i as int] == name@);
            return true;
        }
        i = i + 1;
    }
    false
}

} // verus!
