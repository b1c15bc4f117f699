//! Passwords, and the account that a name and a password stand for.

use vstd::prelude::*;
use vstd::string::*;
use vstd::utf8::*;

use crate::bytes;
use crate::decimal;
use crate::error::{err, Error};
use crate::home;
use crate::text;

verus! {

/// What `argon2::PasswordHash::new` says of a text: that it is a password hash in PHC format,
/// or else what the error says.
pub uninterp spec fn phc_parsed(encoded: Seq<char>) -> Result<(), Seq<char>>;

/// Whether `argon2::PasswordVerifier::verify_password` of `argon2::Argon2::default()` accepts
/// `password` for the password hash `encoded`.
pub uninterp spec fn argon2_accepts(password: Seq<char>, encoded: Seq<char>) -> bool;

/// What `sha2::Sha256` makes of `data`.
pub uninterp spec fn sha256_of(data: Seq<u8>) -> Seq<u8>;

/// Whether `password` is longer than `argon2` takes: `argon2::MAX_PWD_LEN` bytes.
pub open spec fn too_long(password: Seq<char>) -> bool {
    encode_utf8(password).len() > 0xFFFF_FFFF
}

/// Where what follows the last `p=` in the first `n` characters of `s` begins.
pub open spec fn behind_last_lanes(s: Seq<char>, n: int) -> Option<int>
    decreases n,
{
    if n < 2 {
        None
    } else if s[n - 2] == 'p' && s[n - 1] == '=' {
        Some(n)
    } else {
        behind_last_lanes(s, n - 1)
    }
}

/// Whether the password hash `encoded` asks for more lanes than `argon2` has: the number of lanes
/// that counts, the last that is given, has nine digits or more, where eight are the most.
pub open spec fn too_many_lanes(encoded: Seq<char>) -> bool {
    match behind_last_lanes(encoded, encoded.len() as int) {
        Some(b) => b + 9 <= encoded.len() && forall|i: int|
            b <= i < b + 9 ==> decimal::is_digit(#[trigger] encoded[i]),
        None => false,
    }
}

/// `argon2::PasswordHasher::hash_password` of `argon2::Argon2::default()`, with a new random
/// salt of 16 bytes: a text in PHC format, against which the same password verifies and which
/// asks for one lane. Which text it is depends on the salt. The call fails for a password that is
/// too long, and for no other. Making the salt panics where the system has no random numbers to
/// give.
#[verifier::external_body]
fn argon2_hash(password: &str) -> (r: Result<String, String>)
    ensures
        match r {
            Ok(h) => !too_long(password@) && phc_parsed(h@) == Ok::<(), Seq<char>>(())
                && !too_many_lanes(h@) && argon2_accepts(password@, h@),
            Err(e) => too_long(password@) && e@ == "invalid password"@,
        },
{
    let salt = argon2::password_hash::SaltString::generate(
        &mut argon2::password_hash::rand_core::OsRng,
    );
    match argon2::PasswordHasher::hash_password(
        &argon2::Argon2::default(),
        password.as_bytes(),
        &salt,
    ) {
        Ok(h) => Ok(h.to_string()),
        Err(e) => Err(e.to_string()),
    }
}

/// `argon2::PasswordHash::new`: whether `encoded` is a password hash in PHC format, or what the
/// error says. It depends on `encoded` alone.
#[verifier::external_body]
fn phc_parse(encoded: &str) -> (r: Result<(), String>)
    ensures
        match r {
            Ok(_) => phc_parsed(encoded@) == Ok::<(), Seq<char>>(()),
            Err(e) => phc_parsed(encoded@) == Err::<(), Seq<char>>(e@),
        },
{
    match argon2::PasswordHash::new(encoded) {
        Ok(_) => Ok(()),
        Err(e) => Err(e.to_string()),
    }
}

/// `argon2::PasswordVerifier::verify_password` of `argon2::Argon2::default()` on `encoded`, which
/// is a password hash in PHC format: whether the password is accepted. It depends on the
/// arguments alone. The call multiplies the number of lanes by eight before it tests it, which
/// overflows where there are too many; it takes the memory that `encoded` asks for.
#[verifier::external_body]
fn argon2_verify(password: &str, encoded: &str) -> (accepted: bool)
    requires
        phc_parsed(encoded@) == Ok::<(), Seq<char>>(()),
        !too_many_lanes(encoded@),
    ensures
        accepted == argon2_accepts(password@, encoded@),
{
    match argon2::PasswordHash::new(encoded) {
        Ok(h) => argon2::PasswordVerifier::verify_password(
            &argon2::Argon2::default(),
            password.as_bytes(),
            &h,
        ).is_ok(),
        Err(_) => false,
    }
}

/// `sha2::Sha256::digest`: the hash of `data`, which has 32 bytes and depends on `data` alone.
#[verifier::external_body]
fn sha256(data: &[u8]) -> (r: Vec<u8>)
    ensures
        r@ == sha256_of(data@),
        r@.len() == 32,
{
    <sha2::Sha256 as sha2::Digest>::digest(data).to_vec()
}

/// The character of the URL-safe base64 alphabet for the number `v`.
pub open spec fn base64_char(v: int) -> char {
    if v < 26 {
        (('A' as int) + v) as char
    } else if v < 52 {
        (('a' as int) + v - 26) as char
    } else if v < 62 {
        (('0' as int) + v - 52) as char
    } else if v == 62 {
        '-'
    } else {
        '_'
    }
}

/// `b` in URL-safe base64 without padding: four characters for three bytes, and two or three
/// for one or two bytes that are left.
pub open spec fn base64_url(b: Seq<u8>) -> Seq<char>
    decreases b.len(),
{
    if b.len() == 0 {
        Seq::empty()
    } else if b.len() == 1 {
        seq![base64_char(b[0] as int / 4), base64_char((b[0] as int % 4) * 16)]
    } else if b.len() == 2 {
        seq![
            base64_char(b[0] as int / 4),
            base64_char((b[0] as int % 4) * 16 + b[1] as int / 16),
            base64_char((b[1] as int % 16) * 4),
        ]
    } else {
        seq![
            base64_char(b[0] as int / 4),
            base64_char((b[0] as int % 4) * 16 + b[1] as int / 16),
            base64_char((b[1] as int % 16) * 4 + b[2] as int / 64),
            base64_char(b[2] as int % 64),
        ] + base64_url(b.skip(3))
    }
}

/// `base64::Engine::encode` of `base64::engine::general_purpose::URL_SAFE_NO_PAD`: the bytes in
/// URL-safe base64 without padding. The call panics where the length of its result does not fit
/// in `usize`.
#[verifier::external_body]
fn base64_encode(bytes: &[u8]) -> (r: String)
    requires
        bytes@.len() <= usize::MAX / 2,
    ensures
        r@ == base64_url(bytes@),
{
    base64::Engine::encode(&base64::engine::general_purpose::URL_SAFE_NO_PAD, bytes)
}

/// Hashes a password, with a new salt each time. That fails for a password that is too long, and
/// for no other.
pub fn hash_password(password: &str) -> (r: Result<String, Error>)
    ensures
        match r {
            Ok(h) => !too_long(password@) && password_check(password@, h@) == Ok::<
                (),
                Seq<char>,
            >(()),
            Err(e) => too_long(password@) && e@ == "argon2 hash failed: "@ + "invalid password"@,
        },
{
    match argon2_hash(password) {
        Ok(h) => Ok(h),
        Err(e) => {
            let mut m = text::owned("argon2 hash failed: ");
            m.append(&e);
            Err(err(&m))
        },
    }
}

/// What comes of testing `password` against the password hash `encoded`: nothing where it is
/// right, else the error. No password is right for a hash that asks for too many lanes.
pub open spec fn password_check(password: Seq<char>, encoded: Seq<char>) -> Result<
    (),
    Seq<char>,
> {
    match phc_parsed(encoded) {
        Err(e) => Err("bad password hash: "@ + e),
        Ok(_) => if !too_many_lanes(encoded) && argon2_accepts(password, encoded) {
            Ok(())
        } else {
            Err("wrong password"@)
        },
    }
}

/// Tests whether a password hash asks for too many lanes.
pub fn asks_for_too_many_lanes(encoded: &str) -> (r: bool)
    ensures
        r == too_many_lanes(encoded@),
{
    let chars = text::chars_of(encoded);
    let len = chars.len();
    let mut n: usize = len;
    while n >= 2 && !(chars[n - 2] == 'p' && chars[n - 1] == '=')
        invariant
            n <= len == chars@.len(),
            chars@ == encoded@,
            behind_last_lanes(encoded@, n as int) == behind_last_lanes(encoded@, len as int),
        decreases n,
    {
        n = n - 1;
    }
    if n < 2 || len - n < 9 {
        return false;
    }
    let mut i: usize = n;
    while i < n + 9
        invariant
            2 <= n <= i <= n + 9 <= len == chars@.len(),
            chars@ == encoded@,
            behind_last_lanes(encoded@, len as int) == Some(n as int),
            forall|k: int| n <= k < i ==> decimal::is_digit(#[trigger] encoded@[k]),
        decreases n + 9 - i,
    {
        if chars[i] < '0' || chars[i] > '9' {
            assert(!decimal::is_digit(encoded@[i as int]));
            return false;
        }
        i = i + 1;
    }
    true
}

/// What is made of the outcome of a password test: whether the password was accepted, or why the
/// hash could not be read.
pub fn password_verdict(outcome: Result<bool, String>) -> (r: Result<(), Error>)
    ensures
        match outcome {
            Ok(true) => r is Ok,
            Ok(false) => r matches Err(e) && e@ == "wrong password"@,
            Err(m) => r matches Err(e) && e@ == "bad password hash: "@ + m@,
        },
{
    match outcome {
        Ok(accepted) => {
            if accepted {
                Ok(())
            } else {
                Err(err("wrong password"))
            }
        },
        Err(e) => {
            let mut m = text::owned("bad password hash: ");
            m.append(&e);
            Err(err(&m))
        },
    }
}

/// Tests a password against a password hash.
pub fn verify_password(password: &str, encoded_hash: &str) -> (r: Result<(), Error>)
    ensures
        match r {
            Ok(_) => password_check(password@, encoded_hash@) == Ok::<(), Seq<char>>(()),
            Err(e) => password_check(password@, encoded_hash@) == Err::<(), Seq<char>>(e@),
        },
{
    match phc_parse(encoded_hash) {
        Err(e) => password_verdict(Err(e)),
        Ok(_) => password_verdict(
            Ok(!asks_for_too_many_lanes(encoded_hash) && argon2_verify(password, encoded_hash)),
        ),
    }
}

/// What is hashed for the account of `user` with `password`: a tag, the name and the password,
/// parted by zero bytes.
pub open spec fn account_seed(user: Seq<char>, password: Seq<char>) -> Seq<u8> {
    encode_utf8("earth-account-v1"@).push(0u8) + encode_utf8(user).push(0u8) + encode_utf8(
        password,
    )
}

/// The account id that belongs to a SHA-256 digest.
pub open spec fn id_of_digest(digest: Seq<u8>) -> Seq<char> {
    base64_url(digest.take(16))
}

/// The account id of `user` with `password`.
pub open spec fn account_id_of(user: Seq<char>, password: Seq<char>) -> Seq<char> {
    id_of_digest(sha256_of(account_seed(user, password)))
}

/// The account id that belongs to a SHA-256 digest.
pub fn account_id_of_digest(digest: &Vec<u8>) -> (r: String)
    requires
        digest@.len() == 32,
    ensures
        r@ == id_of_digest(digest@),
{
    let half = vstd::slice::slice_subrange(digest.as_slice(), 0, 16);
    assert(half@ =~= digest@.take(16));
    base64_encode(half)
}

/// The account id of `user` with `password`. The same two give the same id on every device. It
/// has 22 characters, letters, digits, hyphens and underscores, so it can name a directory as it
/// is.
pub fn derive_account_id(user: &str, password: &str) -> (r: String)
    ensures
        r@ == account_id_of(user@, password@),
        r@.len() == 22,
        forall|i: int| 0 <= i < 22 ==> is_id_char(#[trigger] r@[i]),
        home::safe_component(r@) == r@,
{
    let mut data: Vec<u8> = Vec::new();
    bytes::append(&mut data, "earth-account-v1".as_bytes());
    data.push(0);
    bytes::append(&mut data, user.as_bytes());
    data.push(0);
    bytes::append(&mut data, password.as_bytes());
    assert(data@ =~= account_seed(user@, password@));
    let digest = sha256(data.as_slice());
    proof {
        law_account_id_shape(digest@);
        let id = id_of_digest(digest@);
        assert(home::safe_component(id) =~= id);
    }
    account_id_of_digest(&digest)
}

/// Whether `c` can stand in the name of an account directory.
pub open spec fn is_id_char(c: char) -> bool {
    ||| 'a' <= c <= 'z'
    ||| 'A' <= c <= 'Z'
    ||| '0' <= c <= '9'
    ||| c == '-'
    ||| c == '_'
}

proof fn lemma_base64_char(v: int)
    requires
        0 <= v < 64,
    ensures
        is_id_char(base64_char(v)),
{
}

/// Base64 text of the URL-safe alphabet holds only letters, digits, hyphens and underscores.
proof fn lemma_base64_url(b: Seq<u8>)
    ensures
        forall|i: int| 0 <= i < base64_url(b).len() ==> is_id_char(#[trigger] base64_url(b)[i]),
        base64_url(b).len() == (b.len() * 4 + 2) / 3,
    decreases b.len(),
{
    assert forall|v: int| 0 <= v < 64 implies is_id_char(#[trigger] base64_char(v)) by {
        lemma_base64_char(v);
    }
    if b.len() >= 3 {
        lemma_base64_url(b.skip(3));
    }
}

/// An account id has 22 characters: letters, digits, hyphens and underscores.
pub proof fn law_account_id_shape(digest: Seq<u8>)
    requires
        digest.len() == 32,
    ensures
        id_of_digest(digest).len() == 22,
        forall|i: int| 0 <= i < 22 ==> is_id_char(#[trigger] id_of_digest(digest)[i]),
{
    lemma_base64_url(digest.take(16));
}

/// What is hashed tells two accounts apart: names that hold no zero character, with any
/// passwords, give the same only where both are the same.
pub proof fn law_account_seed_tells_apart(u: Seq<char>, p: Seq<char>, v: Seq<char>, q: Seq<char>)
    requires
        !encode_utf8(u).contains(0u8),
        !encode_utf8(v).contains(0u8),
        account_seed(u, p) == account_seed(v, q),
    ensures
        u == v,
        p == q,
{
    let tag = encode_utf8("earth-account-v1"@).push(0u8);
    let a = encode_utf8(u);
    let b = encode_utf8(v);
    let s = account_seed(u, p);
    assert(s.skip(tag.len() as int) =~= a.push(0u8) + encode_utf8(p));
    assert(s.skip(tag.len() as int) =~= b.push(0u8) + encode_utf8(q));
    let t = s.skip(tag.len() as int);
    if a.len() < b.len() {
        assert(t[a.len() as int] == 0u8);
        assert(b[a.len() as int] == 0u8);
    } else if b.len() < a.len() {
        assert(t[b.len() as int] == 0u8);
        assert(a[b.len() as int] == 0u8);
    }
    assert(a =~= t.take(a.len() as int));
    assert(b =~= t.take(a.len() as int));
    assert(encode_utf8(p) =~= t.skip(a.len() as int + 1));
    assert(encode_utf8(q) =~= t.skip(a.len() as int + 1));
    encode_utf8_decode_utf8(u);
    encode_utf8_decode_utf8(v);
    encode_utf8_decode_utf8(p);
    encode_utf8_decode_utf8(q);
}

} // verus!
