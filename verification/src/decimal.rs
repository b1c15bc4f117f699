//! Numbers in text.

use vstd::prelude::*;

use crate::order;
use crate::text;

verus! {

/// The character of the decimal digit `d`.
pub open spec fn digit_char(d: nat) -> char {
    ((48 + d) as u8) as char
}

/// The decimal digits of `n`, without leading zeros.
pub open spec fn digits(n: nat) -> Seq<char>
    decreases n,
{
    if n < 10 {
        seq![digit_char(n)]
    } else {
        digits(n / 10).push(digit_char(n % 10))
    }
}

/// Whether `c` is a decimal digit.
pub open spec fn is_digit(c: char) -> bool {
    '0' <= c <= '9'
}

/// The number that the digits `s` stand for.
pub open spec fn digits_value(s: Seq<char>) -> nat
    decreases s.len(),
{
    if s.len() == 0 {
        0
    } else {
        digits_value(s.drop_last()) * 10 + (s.last() as nat - 48) as nat
    }
}

/// Whether `s` consists of one or more decimal digits.
pub open spec fn all_digits(s: Seq<char>) -> bool {
    s.len() > 0 && forall|i: int| 0 <= i < s.len() ==> is_digit(#[trigger] s[i])
}

/// The number written in `s`: decimal digits, behind an optional `+`.
pub open spec fn number(s: Seq<char>) -> Option<nat> {
    let body = if s.len() > 0 && s[0] == '+' {
        s.skip(1)
    } else {
        s
    };
    if all_digits(body) {
        Some(digits_value(body))
    } else {
        None
    }
}

/// The number written in `s`, where it is at most `max`.
pub open spec fn number_up_to(s: Seq<char>, max: nat) -> Option<nat> {
    match number(s) {
        Some(n) => if n <= max {
            Some(n)
        } else {
            None
        },
        None => None,
    }
}

/// `n` in decimal.
pub fn decimal(n: u128) -> (s: String)
    ensures
        s@ == digits(n as nat),
    decreases n,
{
    if n < 10 {
        let mut s = String::new();
        s.push((48 + n as u8) as char);
        assert(s@ =~= digits(n as nat));
        s
    } else {
        let mut s = decimal(n / 10);
        s.push((48 + (n % 10) as u8) as char);
        s
    }
}

/// The text of `n` with `width` characters or more, zeros before the digits.
pub open spec fn zero_padded(n: nat, width: nat) -> Seq<char> {
    let d = digits(n);
    if d.len() < width {
        Seq::new((width - d.len()) as nat, |i: int| '0') + d
    } else {
        d
    }
}

/// `n` in decimal, with zeros before it up to `width` characters.
pub fn padded(n: u64, width: usize) -> (s: String)
    ensures
        s@ == zero_padded(n as nat, width as nat),
{
    let d = decimal(n as u128);
    let chars = text::chars_of(&d);
    let mut out = String::new();
    let mut i: usize = chars.len();
    let ghost len = chars@.len();
    while i < width
        invariant
            len <= i,
            i <= width || i == len,
            out@ == Seq::new((i - len) as nat, |k: int| '0'),
        decreases width - i,
    {
        out.push('0');
        i = i + 1;
        assert(out@ =~= Seq::new((i - len) as nat, |k: int| '0'));
    }
    let ghost zeros = out@;
    let mut k: usize = 0;
    while k < chars.len()
        invariant
            k <= chars@.len(),
            out@ == zeros + chars@.take(k as int),
        decreases chars@.len() - k,
    {
        out.push(chars[k]);
        k = k + 1;
        assert(out@ =~= zeros + chars@.take(k as int));
    }
    proof {
        assert(chars@.take(k as int) =~= chars@);
        assert(out@ =~= zero_padded(n as nat, width as nat));
    }
    out
}

/// The character of the hexadecimal digit `d`.
pub open spec fn hex_char(d: nat) -> char {
    if d < 10 {
        ((48 + d) as u8) as char
    } else {
        ((87 + d) as u8) as char
    }
}

/// The last `width` hexadecimal digits of `n`.
pub open spec fn hex_digits(n: nat, width: nat) -> Seq<char>
    decreases width,
{
    if width == 0 {
        Seq::empty()
    } else {
        hex_digits(n / 16, (width - 1) as nat).push(hex_char(n % 16))
    }
}

/// The character of the hexadecimal digit `d`.
pub fn hex_digit(d: u8) -> (c: char)
    requires
        d < 16,
    ensures
        c == hex_char(d as nat),
{
    if d < 10 {
        (48 + d) as char
    } else {
        (87 + d) as char
    }
}

/// Hexadecimal digits are as many as they should be, and each is a digit or a small letter.
pub proof fn lemma_hex_digits(n: nat, width: nat)
    ensures
        hex_digits(n, width).len() == width,
        forall|i: int|
            0 <= i < width ==> is_digit(#[trigger] hex_digits(n, width)[i]) || 'a' <= hex_digits(
                n,
                width,
            )[i] <= 'f',
    decreases width,
{
    if width > 0 {
        lemma_hex_digits(n / 16, (width - 1) as nat);
    }
}

/// The last `width` hexadecimal digits of `n`.
pub fn hex_number(n: u64, width: u8) -> (s: String)
    ensures
        s@ == hex_digits(n as nat, width as nat),
    decreases width,
{
    if width == 0 {
        String::new()
    } else {
        let mut s = hex_number(n / 16, width - 1);
        s.push(hex_digit((n % 16) as u8));
        s
    }
}

/// The digits of a prefix stand for a number that is no larger.
proof fn lemma_value_of_prefix(s: Seq<char>, k: int)
    requires
        0 <= k <= s.len(),
    ensures
        digits_value(s.take(k)) <= digits_value(s),
    decreases s.len() - k,
{
    if k == s.len() {
        assert(s.take(k) =~= s);
    } else {
        lemma_value_of_prefix(s, k + 1);
        assert(s.take(k + 1).drop_last() =~= s.take(k));
    }
}

/// Reads a number of at most `max`.
fn read(s: &str, max: u64) -> (r: Option<u64>)
    ensures
        match r {
            Some(n) => number_up_to(s@, max as nat) == Some(n as nat),
            None => number_up_to(s@, max as nat) is None,
        },
{
    let chars = text::chars_of(s);
    let start: usize = if chars.len() > 0 && chars[0] == '+' {
        1
    } else {
        0
    };
    let ghost body = s@.skip(start as int);
    proof {
        assert(s@.skip(0) =~= s@);
    }
    if start == chars.len() {
        return None;
    }
    let mut v: u64 = 0;
    let mut i: usize = start;
    proof {
        assert(body.take(0) =~= Seq::<char>::empty());
    }
    while i < chars.len()
        invariant
            start <= i <= chars@.len(),
            start <= 1,
            chars@ == s@,
            body == s@.skip(start as int),
            body == (if s@.len() > 0 && s@[0] == '+' { s@.skip(1) } else { s@ }),
            forall|k: int| 0 <= k < i - start ==> is_digit(#[trigger] body[k]),
            v == digits_value(body.take(i - start)),
            v <= max,
        decreases chars@.len() - i,
    {
        let c = chars[i];
        assert(c == body[i - start]);
        if c < '0' || c > '9' {
            assert(!is_digit(body[i - start]));
            return None;
        }
        let d = c as u64 - 48;
        proof {
            assert(body.take(i - start + 1).drop_last() =~= body.take(i - start));
            assert(body.take(i - start + 1).last() == c);
            lemma_value_of_prefix(body, i - start + 1);
        }
        if d > max || v > max / 10 || v * 10 > max - d {
            return None;
        }
        v = v * 10 + d;
        i = i + 1;
    }
    proof {
        assert(body.take(i - start) =~= body);
    }
    Some(v)
}

/// Reads a 64-bit number.
pub fn parse_u64(s: &str) -> (r: Option<u64>)
    ensures
        match r {
            Some(n) => number_up_to(s@, u64::MAX as nat) == Some(n as nat),
            None => number_up_to(s@, u64::MAX as nat) is None,
        },
{
    read(s, u64::MAX)
}

/// Reads a 16-bit number.
pub fn parse_u16(s: &str) -> (r: Option<u16>)
    ensures
        match r {
            Some(n) => number_up_to(s@, u16::MAX as nat) == Some(n as nat),
            None => number_up_to(s@, u16::MAX as nat) is None,
        },
{
    match read(s, 65535) {
        Some(n) => Some(n as u16),
        None => None,
    }
}

/// What is written as decimal digits is read back as the same number.
pub proof fn law_number_of_digits(n: nat)
    ensures
        number(digits(n)) == Some(n),
{
    lemma_digits(n);
    assert(is_digit(digits(n)[0]));
}

/// Decimal digits are digits, and stand for their number.
pub proof fn lemma_digits(n: nat)
    ensures
        all_digits(digits(n)),
        digits_value(digits(n)) == n,
    decreases n,
{
    if n >= 10 {
        lemma_digits(n / 10);
        let d = digits(n / 10);
        let s = digits(n);
        assert(s.drop_last() =~= d);
        assert forall|i: int| 0 <= i < s.len() implies is_digit(#[trigger] s[i]) by {
            if i < d.len() {
                assert(s[i] == d[i]);
            }
        }
    } else {
        let s = digits(n);
        assert(s.drop_last() =~= Seq::<char>::empty());
        assert(digits_value(s.drop_last()) == 0);
    }
}

/// Zeros before the digits do not change the number.
pub proof fn lemma_zero_padded(n: nat, width: nat)
    ensures
        all_digits(zero_padded(n, width)),
        digits_value(zero_padded(n, width)) == n,
{
    lemma_digits(n);
    let d = digits(n);
    if d.len() < width {
        let z = Seq::new((width - d.len()) as nat, |i: int| '0');
        let s = z + d;
        assert(zero_padded(n, width) == s);
        assert forall|i: int| 0 <= i < s.len() implies is_digit(#[trigger] s[i]) by {
            if i >= z.len() {
                assert(s[i] == d[i - z.len()]);
            }
        }
        lemma_zeros_before(z, d);
    }
}

/// The power of ten with `w` zeros.
pub open spec fn power_of_ten(w: nat) -> nat
    decreases w,
{
    if w == 0 {
        1
    } else {
        10 * power_of_ten((w - 1) as nat)
    }
}

/// A number below a power of ten has no more digits than that has zeros.
proof fn lemma_digits_length(n: nat, w: nat)
    requires
        n < power_of_ten(w),
        w > 0,
    ensures
        digits(n).len() <= w,
    decreases n,
{
    if n >= 10 {
        if w == 1 {
            assert(power_of_ten(0) == 1);
        }
        lemma_digits_length(n / 10, (w - 1) as nat);
    }
}

/// As many digits for the same number are the same digits.
proof fn lemma_same_digits(a: Seq<char>, b: Seq<char>)
    requires
        a.len() == b.len(),
        forall|i: int| 0 <= i < a.len() ==> is_digit(#[trigger] a[i]),
        forall|i: int| 0 <= i < b.len() ==> is_digit(#[trigger] b[i]),
        digits_value(a) == digits_value(b),
    ensures
        a == b,
    decreases a.len(),
{
    if a.len() > 0 {
        assert(is_digit(a[a.len() - 1]) && is_digit(b[b.len() - 1]));
        lemma_same_digits(a.drop_last(), b.drop_last());
        assert(a =~= a.drop_last().push(a.last()));
        assert(b =~= b.drop_last().push(b.last()));
    }
    assert(a =~= b);
}

/// Of as many digits, those for the smaller number come first, whatever follows them.
proof fn lemma_digits_order(a: Seq<char>, b: Seq<char>, x: Seq<char>, y: Seq<char>)
    requires
        a.len() == b.len(),
        forall|i: int| 0 <= i < a.len() ==> is_digit(#[trigger] a[i]),
        forall|i: int| 0 <= i < b.len() ==> is_digit(#[trigger] b[i]),
        digits_value(a) < digits_value(b),
    ensures
        order::before(a + x, b + y),
    decreases a.len(),
{
    assert(a.len() > 0);
    let ra = a.drop_last();
    let rb = b.drop_last();
    let u = seq![a.last()] + x;
    let v = seq![b.last()] + y;
    assert(is_digit(a[a.len() - 1]) && is_digit(b[b.len() - 1]));
    assert(a + x =~= ra + u);
    assert(b + y =~= rb + v);
    if digits_value(ra) < digits_value(rb) {
        lemma_digits_order(ra, rb, u, v);
    } else {
        lemma_same_digits(ra, rb);
        order::lemma_before_behind(ra, u, v);
        assert(u[0] == a.last() && v[0] == b.last());
    }
}

/// Padded to 20 characters, the smaller of two numbers up to that behind the last of 64 bits comes
/// first, whatever follows it.
pub proof fn lemma_padded_order(m: nat, n: nat, x: Seq<char>, y: Seq<char>)
    requires
        m < n <= u64::MAX + 1,
    ensures
        order::before(zero_padded(m, 20) + x, zero_padded(n, 20) + y),
{
    reveal_with_fuel(power_of_ten, 21);
    lemma_digits_length(m, 20);
    lemma_digits_length(n, 20);
    lemma_zero_padded(m, 20);
    lemma_zero_padded(n, 20);
    lemma_digits_order(zero_padded(m, 20), zero_padded(n, 20), x, y);
}

/// Digits behind zeros stand for the same number.
proof fn lemma_zeros_before(z: Seq<char>, d: Seq<char>)
    requires
        forall|i: int| 0 <= i < z.len() ==> #[trigger] z[i] == '0',
    ensures
        digits_value(z + d) == digits_value(d),
    decreases d.len(), z.len(),
{
    let s = z + d;
    if d.len() > 0 {
        assert(s.drop_last() =~= z + d.drop_last());
        lemma_zeros_before(z, d.drop_last());
    } else {
        assert(s =~= z);
        if z.len() > 0 {
            let r = z.drop_last();
            assert(r + d =~= r);
            lemma_zeros_before(r, d);
            assert(z.last() == '0');
        }
    }
}

} // verus!
