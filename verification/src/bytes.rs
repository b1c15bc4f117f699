//! Text from bytes.

use vstd::prelude::*;
use vstd::utf8::*;

verus! {

/// `String::from_utf8`: the text that `bytes` encode in UTF-8, where they are valid UTF-8.
#[verifier::external_body]
pub(crate) fn utf8_text(bytes: Vec<u8>) -> (r: Option<String>)
    ensures
        match r {
            Some(s) => valid_utf8(bytes@) && s@ == decode_utf8(bytes@),
            None => !valid_utf8(bytes@),
        },
{
    String::from_utf8(bytes).ok()
}

/// What `String::from_utf8_lossy` makes of bytes that are not valid UTF-8.
pub uninterp spec fn lossy_utf8(bytes: Seq<u8>) -> Seq<char>;

/// The text that `bytes` stand for: what they encode where they are valid UTF-8, else a text
/// with replacement characters.
pub open spec fn text_of(bytes: Seq<u8>) -> Seq<char> {
    if valid_utf8(bytes) {
        decode_utf8(bytes)
    } else {
        lossy_utf8(bytes)
    }
}

/// `String::from_utf8_lossy`: valid UTF-8 is decoded as it is; in other bytes replacement
/// characters stand for what is not valid, and the outcome depends on the bytes alone. How many
/// replacement characters there are, and where, is not said here.
#[verifier::external_body]
pub(crate) fn lossy_text(bytes: &[u8]) -> (r: String)
    ensures
        r@ == if valid_utf8(bytes@) {
            decode_utf8(bytes@)
        } else {
            lossy_utf8(bytes@)
        },
{
    String::from_utf8_lossy(bytes).into_owned()
}

/// Appends bytes.
pub fn append(v: &mut Vec<u8>, b: &[u8])
    ensures
        final(v)@ == old(v)@ + b@,
{
    let ghost was = v@;
    let mut i: usize = 0;
    let n = b.len();
    assert(b@.take(0) =~= Seq::<u8>::empty());
    while i < n
        invariant
            i <= n == b@.len(),
            v@ == was + b@.take(i as int),
        decreases n - i,
    {
        v.push(b[i]);
        i = i + 1;
        assert(v@ =~= was + b@.take(i as int));
    }
    assert(b@.take(n as int) =~= b@);
}

/// A copy of bytes.
pub fn copy_of(b: &[u8]) -> (r: Vec<u8>)
    ensures
        r@ == b@,
{
    let mut v: Vec<u8> = Vec::new();
    append(&mut v, b);
    assert(v@ =~= b@);
    v
}

} // verus!
