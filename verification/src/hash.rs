//! Hashes of texts and of file contents, by which files are named and compared.

use std::collections::hash_map::DefaultHasher;
use std::hash::Hasher;

use vstd::bytes::*;
use vstd::prelude::*;
use vstd::slice::*;
use vstd::std_specs::hash::*;
use vstd::string::*;
use vstd::utf8::*;

use crate::decimal;
use crate::text;

verus! {

/// How many bytes of a file are hashed at a time.
pub const CHUNK: usize = 8192;

/// The hash of what is written to the hasher, in sixteen hexadecimal digits.
pub open spec fn digest(writes: Seq<Seq<u8>>) -> Seq<char> {
    decimal::hex_digits(DefaultHasher::spec_finish(writes) as nat, 16)
}

/// What is written to the hasher for a text: its bytes, and a byte that occurs in no text.
pub open spec fn text_writes(s: Seq<char>) -> Seq<Seq<u8>> {
    seq![encode_utf8(s), seq![0xffu8]]
}

/// In which order a machine keeps the bytes of a number.
#[derive(Clone, Copy, Debug, PartialEq, Eq, Structural)]
pub enum ByteOrder {
    /// The lowest first.
    LowFirst,
    /// The highest first.
    HighFirst,
}

/// The bytes of the number `n` as a machine keeps them: as many as a `usize` has.
pub open spec fn number_bytes(n: nat, order: ByteOrder) -> Seq<u8> {
    let low_first = if usize::BITS == 64 {
        spec_u64_to_le_bytes(n as u64)
    } else {
        spec_u32_to_le_bytes(n as u32)
    };
    match order {
        ByteOrder::LowFirst => low_first,
        ByteOrder::HighFirst => low_first.reverse(),
    }
}

/// What is written to the hasher for a run of bytes: their number, as the machine keeps it, and
/// the bytes. So `Hash` of the standard library does it with a slice.
pub open spec fn run_writes(data: Seq<u8>, order: ByteOrder) -> Seq<Seq<u8>> {
    seq![number_bytes(data.len(), order), data]
}

/// What is written to the hasher for the content of a file: its chunks, one run each.
pub open spec fn chunk_writes(data: Seq<u8>, order: ByteOrder) -> Seq<Seq<u8>>
    decreases data.len(),
{
    if data.len() == 0 {
        Seq::empty()
    } else if data.len() <= CHUNK {
        run_writes(data, order)
    } else {
        run_writes(data.take(CHUNK as int), order) + chunk_writes(data.skip(CHUNK as int), order)
    }
}

/// A hash consists of sixteen hexadecimal digits.
pub proof fn lemma_digest(writes: Seq<Seq<u8>>)
    ensures
        digest(writes).len() == 16,
        forall|i: int| 0 <= i < 16 ==> #[trigger] digest(writes)[i] != '/',
{
    decimal::lemma_hex_digits(DefaultHasher::spec_finish(writes) as nat, 16);
}

/// The hash of the text `s`.
pub open spec fn text_hash(s: Seq<char>) -> Seq<char> {
    digest(text_writes(s))
}

/// The hash of `data` as one run of bytes.
pub open spec fn run_hash(data: Seq<u8>, order: ByteOrder) -> Seq<char> {
    digest(run_writes(data, order))
}

/// The hash of a file with the content `data`.
pub open spec fn content_hash(data: Seq<u8>, order: ByteOrder) -> Seq<char> {
    digest(chunk_writes(data, order))
}

/// The hash of a text.
pub fn stable_hash(s: &str) -> (r: String)
    ensures
        r@ == text_hash(s@),
{
    let mut h = DefaultHasher::new();
    h.write(s.as_bytes());
    let end: Vec<u8> = vec![0xffu8];
    h.write(end.as_slice());
    proof {
        assert(end@ =~= seq![0xffu8]);
        assert(h@ =~= text_writes(s@));
    }
    decimal::hex_number(h.finish(), 16)
}

/// The bytes of a number as a machine keeps them.
fn bytes_of_number(n: usize, order: ByteOrder) -> (r: Vec<u8>)
    ensures
        r@ == number_bytes(n as nat, order),
{
    let low_first = if usize::BITS == 64 {
        u64_to_le_bytes(n as u64)
    } else {
        u32_to_le_bytes(n as u32)
    };
    match order {
        ByteOrder::LowFirst => low_first,
        ByteOrder::HighFirst => {
            let len = low_first.len();
            let mut out: Vec<u8> = Vec::new();
            let mut i: usize = 0;
            while i < len
                invariant
                    i <= len == low_first@.len(),
                    out@ == low_first@.reverse().take(i as int),
                decreases len - i,
            {
                out.push(low_first[len - 1 - i]);
                i = i + 1;
                assert(out@ =~= low_first@.reverse().take(i as int));
            }
            assert(low_first@.reverse().take(i as int) =~= low_first@.reverse());
            out
        },
    }
}

/// Hashes one run of bytes.
fn write_run(h: &mut DefaultHasher, data: &[u8], order: ByteOrder)
    ensures
        final(h)@ == old(h)@ + run_writes(data@, order),
{
    let len = bytes_of_number(data.len(), order);
    h.write(len.as_slice());
    h.write(data);
    assert(h@ =~= old(h)@ + run_writes(data@, order));
}

/// The hash of `data` as one run of bytes, on a machine that keeps bytes in the order `order`.
pub fn bytes_hash(data: &[u8], order: ByteOrder) -> (r: String)
    ensures
        r@ == run_hash(data@, order),
{
    let mut h = DefaultHasher::new();
    write_run(&mut h, data, order);
    assert(h@ =~= run_writes(data@, order));
    decimal::hex_number(h.finish(), 16)
}

/// The hash of a file with the content `data`, on a machine that keeps bytes in the order `order`.
pub fn file_hash(data: &[u8], order: ByteOrder) -> (r: String)
    ensures
        r@ == content_hash(data@, order),
{
    let mut h = DefaultHasher::new();
    let n = data.len();
    let mut i: usize = 0;
    assert(data@.skip(0) =~= data@);
    assert(h@ + chunk_writes(data@.skip(0), order) =~= chunk_writes(data@, order));
    while n - i > CHUNK
        invariant
            i <= n == data@.len(),
            h@ + chunk_writes(data@.skip(i as int), order) == chunk_writes(data@, order),
        decreases n - i,
    {
        let chunk = slice_subrange(data, i, i + CHUNK);
        let ghost rest = data@.skip(i as int);
        let ghost was = h@;
        write_run(&mut h, chunk, order);
        proof {
            assert(chunk@ =~= rest.take(CHUNK as int));
            assert(rest.skip(CHUNK as int) =~= data@.skip(i + CHUNK));
            assert(h@ + chunk_writes(data@.skip(i + CHUNK), order) =~= was + chunk_writes(
                rest,
                order,
            ));
        }
        i = i + CHUNK;
    }
    if i < n {
        let chunk = slice_subrange(data, i, n);
        write_run(&mut h, chunk, order);
        assert(chunk@ =~= data@.skip(i as int));
    } else {
        assert(h@ + Seq::<Seq<u8>>::empty() =~= h@);
    }
    decimal::hex_number(h.finish(), 16)
}

/// Tests whether a file holds `data`: whether it is there, is as long, and has the same hash.
/// `existing` is its content, where it is there.
pub fn path_content_equals(existing: Option<&Vec<u8>>, data: &[u8], order: ByteOrder) -> (r: bool)
    ensures
        r == holds(
            match existing {
                Some(content) => Some(content@),
                None => None,
            },
            data@,
            order,
        ),
{
    match existing {
        Some(content) => content.len() == data.len() && text::same(
            &file_hash(content.as_slice(), order),
            &file_hash(data, order),
        ),
        None => false,
    }
}

/// Whether a file that holds `existing` is taken to hold `data`.
pub open spec fn holds(existing: Option<Seq<u8>>, data: Seq<u8>, order: ByteOrder) -> bool {
    match existing {
        Some(content) => content.len() == data.len() && content_hash(content, order)
            == content_hash(data, order),
        None => false,
    }
}

/// A file that holds exactly `data` is taken to hold it, whatever its length.
pub proof fn law_same_content_is_recognised(data: Seq<u8>, order: ByteOrder)
    ensures
        holds(Some(data), data, order),
{
}

/// A file that is missing, or that holds another number of bytes than `data`, is not taken to
/// hold it.
pub proof fn law_other_length_is_told_apart(
    existing: Option<Seq<u8>>,
    data: Seq<u8>,
    order: ByteOrder,
)
    requires
        match existing {
            Some(content) => content.len() != data.len(),
            None => true,
        },
    ensures
        !holds(existing, data, order),
{
}

/// The content of a file that fits in one chunk hashes as one run of bytes, unless it is empty.
pub proof fn law_short_file_hashes_as_one_run(data: Seq<u8>, order: ByteOrder)
    requires
        0 < data.len() <= CHUNK,
    ensures
        content_hash(data, order) == run_hash(data, order),
{
}

} // verus!
