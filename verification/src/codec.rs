//! How values are written into the columns of a line: text is escaped so that it holds no tab
//! and no newline, bytes are written in hexadecimal.

use vstd::prelude::*;
use vstd::string::*;
use vstd::utf8::*;

use crate::decimal;
use crate::error::{err, Error};
use crate::text;

verus! {

/// How one character is escaped.
pub open spec fn escape_char(c: char) -> Seq<char> {
    if c == '%' {
        seq!['%', '2', '5']
    } else if c == '\t' {
        seq!['%', '0', '9']
    } else if c == '\n' {
        seq!['%', '0', 'A']
    } else {
        seq![c]
    }
}

/// `s` with `%`, tab and newline escaped.
pub open spec fn escaped(s: Seq<char>) -> Seq<char>
    decreases s.len(),
{
    if s.len() == 0 {
        Seq::empty()
    } else {
        escaped(s.drop_last()) + escape_char(s.last())
    }
}

/// The character that the first three characters of `s` stand for, where they are an escape.
pub open spec fn escape_at_start(s: Seq<char>) -> Option<char> {
    if s.len() >= 3 && s[0] == '%' && s[1] == '0' && s[2] == 'A' {
        Some('\n')
    } else if s.len() >= 3 && s[0] == '%' && s[1] == '0' && s[2] == '9' {
        Some('\t')
    } else if s.len() >= 3 && s[0] == '%' && s[1] == '2' && s[2] == '5' {
        Some('%')
    } else {
        None
    }
}

/// `s` with every escape replaced by the character that it stands for.
pub open spec fn unescaped(s: Seq<char>) -> Seq<char>
    decreases s.len(),
{
    if s.len() == 0 {
        Seq::empty()
    } else {
        match escape_at_start(s) {
            Some(c) => seq![c] + unescaped(s.skip(3)),
            None => seq![s[0]] + unescaped(s.skip(1)),
        }
    }
}

/// Escapes `%`, tab and newline.
pub fn esc(s: &str) -> (r: String)
    ensures
        r@ == escaped(s@),
{
    let chars = text::chars_of(s);
    let mut out = String::new();
    let mut i: usize = 0;
    assert(s@.take(0) =~= Seq::<char>::empty());
    while i < chars.len()
        invariant
            i <= chars@.len(),
            chars@ == s@,
            out@ == escaped(s@.take(i as int)),
        decreases chars@.len() - i,
    {
        let c = chars[i];
        let ghost done = out@;
        assert(s@.take(i + 1).drop_last() =~= s@.take(i as int));
        if c == '%' {
            out.push('%');
            out.push('2');
            out.push('5');
        } else if c == '\t' {
            out.push('%');
            out.push('0');
            out.push('9');
        } else if c == '\n' {
            out.push('%');
            out.push('0');
            out.push('A');
        } else {
            out.push(c);
        }
        assert(out@ =~= done + escape_char(c));
        i = i + 1;
    }
    assert(s@.take(i as int) =~= s@);
    out
}

/// Replaces every escape by the character that it stands for.
pub fn unesc(s: &str) -> (r: String)
    ensures
        r@ == unescaped(s@),
{
    let chars = text::chars_of(s);
    let n = chars.len();
    let mut out = String::new();
    let mut i: usize = 0;
    assert(s@.skip(0) =~= s@);
    while i < n
        invariant
            i <= n == chars@.len(),
            chars@ == s@,
            out@ + unescaped(s@.skip(i as int)) == unescaped(s@),
        decreases n - i,
    {
        let ghost rest = s@.skip(i as int);
        let ghost done = out@;
        let c = chars[i];
        if n - i >= 3 && c == '%' && chars[i + 1] == '0' && chars[i + 2] == 'A' {
            out.push('\n');
            i = i + 3;
            assert(escape_at_start(rest) == Some('\n'));
            assert(rest.skip(3) =~= s@.skip(i as int));
            assert(out@ + unescaped(s@.skip(i as int)) =~= done + unescaped(rest));
        } else if n - i >= 3 && c == '%' && chars[i + 1] == '0' && chars[i + 2] == '9' {
            out.push('\t');
            i = i + 3;
            assert(escape_at_start(rest) == Some('\t'));
            assert(rest.skip(3) =~= s@.skip(i as int));
            assert(out@ + unescaped(s@.skip(i as int)) =~= done + unescaped(rest));
        } else if n - i >= 3 && c == '%' && chars[i + 1] == '2' && chars[i + 2] == '5' {
            out.push('%');
            i = i + 3;
            assert(escape_at_start(rest) == Some('%'));
            assert(rest.skip(3) =~= s@.skip(i as int));
            assert(out@ + unescaped(s@.skip(i as int)) =~= done + unescaped(rest));
        } else {
            out.push(c);
            i = i + 1;
            assert(escape_at_start(rest) is None);
            assert(rest.skip(1) =~= s@.skip(i as int));
            assert(out@ + unescaped(s@.skip(i as int)) =~= done + unescaped(rest));
        }
    }
    proof {
        assert(unescaped(s@.skip(i as int)) =~= Seq::<char>::empty());
        assert(out@ + Seq::<char>::empty() =~= out@);
    }
    out
}

/// Escaping starts with the first character.
proof fn lemma_escaped_first(s: Seq<char>)
    requires
        s.len() > 0,
    ensures
        escaped(s) == escape_char(s[0]) + escaped(s.skip(1)),
    decreases s.len(),
{
    if s.len() == 1 {
        assert(s.drop_last() =~= Seq::<char>::empty());
        assert(s.skip(1) =~= Seq::<char>::empty());
        assert(escaped(s) =~= escape_char(s[0]) + escaped(s.skip(1)));
    } else {
        lemma_escaped_first(s.drop_last());
        assert(s.drop_last().skip(1) =~= s.skip(1).drop_last());
        assert(escaped(s) =~= escape_char(s[0]) + escaped(s.skip(1)));
    }
}

/// Unescaping gives back what was escaped, whatever it holds.
pub proof fn law_unescaped_escaped(s: Seq<char>)
    ensures
        unescaped(escaped(s)) == s,
    decreases s.len(),
{
    if s.len() == 0 {
        assert(s =~= Seq::<char>::empty());
    } else {
        lemma_escaped_first(s);
        let e = escaped(s);
        let first = escape_char(s[0]);
        let rest = escaped(s.skip(1));
        law_unescaped_escaped(s.skip(1));
        assert(s =~= seq![s[0]] + s.skip(1));
        if first.len() == 3 {
            assert(e.skip(3) =~= rest);
            assert(e[0] == first[0] && e[1] == first[1] && e[2] == first[2]);
        } else {
            assert(e.skip(1) =~= rest);
            assert(e[0] == s[0]);
        }
    }
}

/// Escaped text holds no tab and no newline: it fits in one column of one line.
pub proof fn law_escaped_fits_column(s: Seq<char>)
    ensures
        !escaped(s).contains('\t'),
        !escaped(s).contains('\n'),
    decreases s.len(),
{
    if s.len() > 0 {
        law_escaped_fits_column(s.drop_last());
        let e = escaped(s);
        let head = escaped(s.drop_last());
        let tail = escape_char(s.last());
        assert forall|i: int| 0 <= i < e.len() implies e[i] != '\t' && e[i] != '\n' by {
            if i < head.len() {
                assert(head.contains(head[i]));
            } else {
                assert(e[i] == tail[i - head.len()]);
            }
        }
    }
}

/// Escaped text ends in a carriage return only where the text does.
pub proof fn lemma_escaped_last(s: Seq<char>)
    ensures
        escaped(s).len() > 0 <==> s.len() > 0,
        s.len() > 0 && s.last() != '\r' ==> escaped(s).last() != '\r',
{
}

/// A carriage return at the end is escaped as itself.
pub proof fn lemma_escaped_strip(s: Seq<char>)
    ensures
        escaped(text::strip_cr(s)) == text::strip_cr(escaped(s)),
{
    lemma_escaped_last(s);
    if s.len() > 0 && s.last() == '\r' {
        let head = escaped(s.drop_last());
        assert(escaped(s) =~= head.push('\r'));
        assert(head.push('\r').drop_last() =~= head);
    }
}

/// The bytes `b` in hexadecimal, two small digits for each.
pub open spec fn hex_of(b: Seq<u8>) -> Seq<char>
    decreases b.len(),
{
    if b.len() == 0 {
        Seq::empty()
    } else {
        hex_of(b.drop_last()).push(decimal::hex_char((b.last() / 16) as nat)).push(
            decimal::hex_char((b.last() % 16) as nat),
        )
    }
}

/// The value of a hexadecimal digit, small or capital.
pub open spec fn hex_value(b: u8) -> Option<u8> {
    if 48 <= b <= 57 {
        Some((b - 48) as u8)
    } else if 97 <= b <= 102 {
        Some((b - 87) as u8)
    } else if 65 <= b <= 70 {
        Some((b - 55) as u8)
    } else {
        None
    }
}

/// Whether every byte of `b` is a hexadecimal digit.
pub open spec fn all_hex(b: Seq<u8>) -> bool {
    forall|i: int| 0 <= i < b.len() ==> hex_value(#[trigger] b[i]) is Some
}

/// The bytes that the hexadecimal digits `b` stand for.
pub open spec fn hex_bytes(b: Seq<u8>) -> Seq<u8> {
    Seq::new(
        b.len() / 2,
        |i: int| (hex_value(b[2 * i])->0 * 16 + hex_value(b[2 * i + 1])->0) as u8,
    )
}

/// Writes bytes in hexadecimal.
pub fn hex(bytes: &[u8]) -> (r: String)
    ensures
        r@ == hex_of(bytes@),
{
    let mut out = String::new();
    let mut i: usize = 0;
    assert(bytes@.take(0) =~= Seq::<u8>::empty());
    while i < bytes.len()
        invariant
            i <= bytes@.len(),
            out@ == hex_of(bytes@.take(i as int)),
        decreases bytes@.len() - i,
    {
        let b = bytes[i];
        assert(bytes@.take(i + 1).drop_last() =~= bytes@.take(i as int));
        out.push(decimal::hex_digit(b / 16));
        out.push(decimal::hex_digit(b % 16));
        i = i + 1;
    }
    assert(bytes@.take(i as int) =~= bytes@);
    out
}

/// The value of a hexadecimal digit.
pub fn hexval(b: u8) -> (r: Result<u8, Error>)
    ensures
        match r {
            Ok(v) => hex_value(b) == Some(v) && v < 16,
            Err(e) => hex_value(b) is None && e@ == "bad hex digit"@,
        },
{
    if 48 <= b && b <= 57 {
        Ok(b - 48)
    } else if 97 <= b && b <= 102 {
        Ok(b - 87)
    } else if 65 <= b && b <= 70 {
        Ok(b - 55)
    } else {
        Err(err("bad hex digit"))
    }
}

/// What the text `s` stands for in hexadecimal, or the message of the failure.
pub open spec fn unhexed(s: Seq<char>) -> Result<Seq<u8>, Seq<char>> {
    let b = encode_utf8(s);
    if b.len() % 2 != 0 {
        Err("bad hex"@)
    } else if !all_hex(b) {
        Err("bad hex digit"@)
    } else {
        Ok(hex_bytes(b))
    }
}

/// Reads bytes written in hexadecimal.
pub fn unhex(s: &str) -> (r: Result<Vec<u8>, Error>)
    ensures
        match r {
            Ok(v) => unhexed(s@) == Ok::<Seq<u8>, Seq<char>>(v@),
            Err(e) => unhexed(s@) == Err::<Seq<u8>, Seq<char>>(e@),
        },
{
    let bs = s.as_bytes();
    let n = bs.len();
    if n % 2 != 0 {
        return Err(err("bad hex"));
    }
    let mut out: Vec<u8> = Vec::new();
    let mut i: usize = 0;
    while i < n
        invariant
            bs@ == encode_utf8(s@),
            n == bs@.len(),
            n % 2 == 0,
            i <= n,
            i % 2 == 0,
            forall|k: int| 0 <= k < i ==> hex_value(#[trigger] bs@[k]) is Some,
            out@ == hex_bytes(bs@).take(i as int / 2),
        decreases n - i,
    {
        let hi = match hexval(bs[i]) {
            Ok(v) => v,
            Err(e) => {
                return Err(e);
            },
        };
        let lo = match hexval(bs[i + 1]) {
            Ok(v) => v,
            Err(e) => {
                return Err(e);
            },
        };
        out.push(hi * 16 + lo);
        proof {
            assert(2 * (i as int / 2) == i);
            assert(out@ =~= hex_bytes(bs@).take(i as int / 2 + 1));
        }
        i = i + 2;
    }
    assert(hex_bytes(bs@).take(i as int / 2) =~= hex_bytes(bs@));
    Ok(out)
}

/// The characters of bytes written in hexadecimal.
pub proof fn lemma_hex_of(b: Seq<u8>)
    ensures
        hex_of(b).len() == 2 * b.len(),
        forall|i: int|
            0 <= i < b.len() ==> #[trigger] hex_of(b)[2 * i] == decimal::hex_char(
                (b[i] / 16) as nat,
            ) && hex_of(b)[2 * i + 1] == decimal::hex_char((b[i] % 16) as nat),
        forall|i: int|
            0 <= i < hex_of(b).len() ==> ('0' <= #[trigger] hex_of(b)[i] <= '9') || ('a' <= hex_of(
                b,
            )[i] <= 'f'),
    decreases b.len(),
{
    if b.len() > 0 {
        lemma_hex_of(b.drop_last());
        let h = hex_of(b);
        let r = hex_of(b.drop_last());
        assert forall|i: int| 0 <= i < b.len() implies #[trigger] h[2 * i] == decimal::hex_char(
            (b[i] / 16) as nat,
        ) && h[2 * i + 1] == decimal::hex_char((b[i] % 16) as nat) by {
            if i < b.len() - 1 {
                assert(h[2 * i] == r[2 * i]);
                assert(h[2 * i + 1] == r[2 * i + 1]);
            }
        }
        assert forall|i: int| 0 <= i < h.len() implies ('0' <= #[trigger] h[i] <= '9') || ('a'
            <= h[i] <= 'f') by {
            if i < r.len() {
                assert(h[i] == r[i]);
            }
        }
    }
}

/// Bytes written in hexadecimal are read back unchanged.
pub proof fn law_unhexed_hex_of(b: Seq<u8>)
    ensures
        unhexed(hex_of(b)) == Ok::<Seq<u8>, Seq<char>>(b),
{
    let h = hex_of(b);
    lemma_hex_of(b);
    assert(is_ascii_chars(h)) by {
        assert forall|i: int| 0 <= i < h.len() implies (0 <= (#[trigger] h[i]) as nat) && (h[i]
            as nat) < 128 by {}
    }
    is_ascii_chars_encode_utf8(h);
    let e = encode_utf8(h);
    assert forall|i: int| 0 <= i < e.len() implies hex_value(#[trigger] e[i]) is Some by {
        assert(e[i] == h[i] as u8);
    }
    assert forall|i: int| 0 <= i < b.len() implies #[trigger] hex_bytes(e)[i] == b[i] by {
        assert(e[2 * i] == h[2 * i] as u8);
        assert(e[2 * i + 1] == h[2 * i + 1] as u8);
    }
    assert(hex_bytes(e) =~= b);
}

} // verus!
