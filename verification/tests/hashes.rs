use std::collections::hash_map::DefaultHasher;
use std::hash::{Hash, Hasher};

use earth::auth::{
    account_id_of_digest, asks_for_too_many_lanes, derive_account_id, hash_password, password_verdict, verify_password,
};
use earth::codec::{esc, hex, hexval, unesc, unhex};
use earth::decimal::{decimal, hex_number, padded, parse_u16, parse_u64};
use earth::hash::{bytes_hash, file_hash, path_content_equals, stable_hash, ByteOrder};
use earth::home::{account_dir_for_id, safe_account_component};

fn native() -> ByteOrder {
    if 1u16.to_ne_bytes()[0] == 1 {
        ByteOrder::LowFirst
    } else {
        ByteOrder::HighFirst
    }
}

#[test]
fn text_hash_is_that_of_the_default_hasher() {
    for s in ["", "a", "notes.txt", "alice\u{e9}", "a longer text with several words in it"] {
        let mut h = DefaultHasher::new();
        s.hash(&mut h);
        assert_eq!(stable_hash(s), format!("{:016x}", h.finish()));
    }
}

#[test]
fn bytes_hash_is_that_of_the_default_hasher() {
    for len in [0usize, 1, 7, 8, 9, 300, 8192, 9000] {
        let data: Vec<u8> = (0..len).map(|i| (i * 7 % 256) as u8).collect();
        let mut h = DefaultHasher::new();
        data[..].hash(&mut h);
        assert_eq!(bytes_hash(&data, native()), format!("{:016x}", h.finish()));
    }
}

#[test]
fn file_hash_goes_chunk_by_chunk() {
    for len in [0usize, 1, 8191, 8192, 8193, 16384, 16385, 30000] {
        let data: Vec<u8> = (0..len).map(|i| (i * 13 % 256) as u8).collect();
        let mut h = DefaultHasher::new();
        for chunk in data.chunks(8192) {
            chunk.hash(&mut h);
        }
        assert_eq!(file_hash(&data, native()), format!("{:016x}", h.finish()));
    }
}

#[test]
fn a_short_file_hashes_as_one_run() {
    assert_eq!(file_hash(b"hello", native()), bytes_hash(b"hello", native()));
    assert_ne!(file_hash(&vec![1u8; 9000], native()), bytes_hash(&vec![1u8; 9000], native()));
}

#[test]
fn the_order_of_bytes_goes_into_the_hash() {
    let swapped = match native() {
        ByteOrder::LowFirst => ByteOrder::HighFirst,
        ByteOrder::HighFirst => ByteOrder::LowFirst,
    };
    let mut h = DefaultHasher::new();
    let mut len = 5usize.to_ne_bytes();
    len.reverse();
    h.write(&len);
    h.write(b"hello");
    assert_eq!(bytes_hash(b"hello", swapped), format!("{:016x}", h.finish()));
}

#[test]
fn content_is_compared_by_length_and_hash() {
    assert!(path_content_equals(Some(&b"abc".to_vec()), b"abc", native()));
    assert!(!path_content_equals(Some(&b"abd".to_vec()), b"abc", native()));
    assert!(!path_content_equals(Some(&b"abcd".to_vec()), b"abc", native()));
    assert!(!path_content_equals(None, b"", native()));
    assert!(path_content_equals(Some(&Vec::new()), b"", native()));
    let big = vec![5u8; 10_000];
    assert!(path_content_equals(Some(&big), &big, native()));
}

#[test]
fn account_ids_are_fixed() {
    assert_eq!(derive_account_id("alice", "test-password-123"), "esaORboBCn9Fe8Y-n9G60A");
    assert_eq!(derive_account_id("alex", "other-password-123"), "pUL_mOWbP6IjELCbViMiPA");
    assert_eq!(derive_account_id("", ""), "DdsM2tDiyf0HALwT14exzw");
}

#[test]
fn the_id_of_a_digest_is_its_first_half_in_base64() {
    let mut d: Vec<u8> = (0xf0..=0xffu8).collect();
    d.extend_from_slice(&[0u8; 16]);
    assert_eq!(account_id_of_digest(&d), "8PHy8_T19vf4-fr7_P3-_w");
    assert_eq!(account_id_of_digest(&vec![0u8; 32]), "AAAAAAAAAAAAAAAAAAAAAA");
}

#[test]
fn account_ids_name_their_directories() {
    let a = derive_account_id("alice", "test-password-123");
    let b = derive_account_id("alex", "other-password-123");
    assert_eq!(a.len(), 22);
    assert_eq!(safe_account_component(&a), a);
    assert_ne!(account_dir_for_id("/g", &a), account_dir_for_id("/g", &b));
    assert_eq!(account_dir_for_id("/g", "../x y"), "/g/accounts/___x_y");
}

#[test]
fn names_and_passwords_are_kept_apart() {
    assert_ne!(derive_account_id("ab", "c"), derive_account_id("a", "bc"));
}

#[test]
fn a_password_verifies_against_its_hash() {
    let h = hash_password("test-password-123").unwrap();
    assert!(h.starts_with("$argon2id$v=19$"));
    assert!(verify_password("test-password-123", &h).is_ok());
    assert_eq!(verify_password("test-password-124", &h).unwrap_err().message, "wrong password");
    assert_ne!(hash_password("test-password-123").unwrap(), h);
}

#[test]
fn a_bad_password_hash_is_reported() {
    let e = verify_password("x", "").unwrap_err();
    assert!(e.message.starts_with("bad password hash: "), "{}", e.message);
    let e = verify_password("x", "no hash").unwrap_err();
    assert!(e.message.starts_with("bad password hash: "));
    assert_eq!(verify_password("x", "$argon2id$v=19$m=16,t=2,p=1").unwrap_err().message, "wrong password");
}

#[test]
fn no_password_is_right_for_too_many_lanes() {
    let salt_and_hash = "c29tZXNhbHQxMjM0NTY3OA$T3zB7kWq3Oa1r0Z1oH2N0N1r4u0S8m0eJ0pQ5n6wQ2E";
    for p in ["p=536870912", "p=4294967295", "p=1,p=536870912", "p=999999999"] {
        let h = format!("$argon2id$v=19$m=64,t=1,{p}${salt_and_hash}");
        assert!(asks_for_too_many_lanes(&h), "{h}");
        assert_eq!(verify_password("x", &h).unwrap_err().message, "wrong password", "{h}");
    }
    for p in ["p=1", "p=99999999", "p=536870912,p=1", "p=12345678x"] {
        let h = format!("$argon2id$v=19$m=64,t=1,{p}${salt_and_hash}");
        assert!(!asks_for_too_many_lanes(&h), "{h}");
        assert_eq!(verify_password("x", &h).unwrap_err().message, "wrong password", "{h}");
    }
    assert!(!asks_for_too_many_lanes(""));
    assert!(!asks_for_too_many_lanes("p="));
    assert!(asks_for_too_many_lanes("p=123456789"));
    assert!(!asks_for_too_many_lanes(&hash_password("test-password-123").unwrap()));
}

#[test]
fn verdicts_on_passwords() {
    assert!(password_verdict(Ok(true)).is_ok());
    assert_eq!(password_verdict(Ok(false)).unwrap_err().message, "wrong password");
    assert_eq!(password_verdict(Err("odd".to_string())).unwrap_err().message, "bad password hash: odd");
}

#[test]
fn escapes_are_undone() {
    for s in ["", "plain", "a\tb", "a\nb", "100%", "%0A", "%25", "%%", "\u{e9}%\t\n%09", "%250A"] {
        let e = esc(s);
        assert!(!e.contains('\t') && !e.contains('\n'));
        assert_eq!(unesc(&e), s);
    }
    assert_eq!(esc("a\tb\nc%"), "a%09b%0Ac%25");
    assert_eq!(unesc("%250A"), "%0A");
    assert_eq!(unesc("%0"), "%0");
    assert_eq!(unesc("%0%25A"), "%0%A");
    assert_eq!(unesc("%0a"), "%0a");
}

#[test]
fn unescaping_replaces_one_kind_after_the_other() {
    for s in ["%0A%09%25", "%%0A", "%2%250A", "%25%25", "x%2509y", "%0%09A", "%252525"] {
        let want = s.replace("%0A", "\n").replace("%09", "\t").replace("%25", "%");
        assert_eq!(unesc(s), want, "{s:?}");
    }
}

#[test]
fn bytes_are_written_in_hexadecimal() {
    assert_eq!(hex(&[0, 1, 0x7f, 0xab, 0xff]), "00017fabff");
    assert_eq!(unhex("00017fABff").unwrap(), vec![0, 1, 0x7f, 0xab, 0xff]);
    assert_eq!(unhex("").unwrap(), Vec::<u8>::new());
    assert_eq!(unhex("abc").unwrap_err().message, "bad hex");
    assert_eq!(unhex("ag").unwrap_err().message, "bad hex digit");
    assert_eq!(unhex("\u{e9}").unwrap_err().message, "bad hex digit");
    let all: Vec<u8> = (0..=255u8).collect();
    assert_eq!(unhex(&hex(&all)).unwrap(), all);
    assert_eq!(hexval(b'F').unwrap(), 15);
    assert_eq!(hexval(b'g').unwrap_err().message, "bad hex digit");
}

#[test]
fn numbers_are_written_and_read() {
    assert_eq!(decimal(0), "0");
    assert_eq!(decimal(1234567890123456789012), "1234567890123456789012");
    assert_eq!(padded(42, 20), "00000000000000000042");
    assert_eq!(padded(u64::MAX, 20), "18446744073709551615");
    assert_eq!(hex_number(0xabc, 16), "0000000000000abc");
    for s in ["0", "7", "+7", "007", "18446744073709551615", "18446744073709551616", "", "+", "-1", "1x", " 1", "++1"] {
        assert_eq!(parse_u64(s), s.parse::<u64>().ok(), "{s:?}");
        assert_eq!(parse_u16(s), s.parse::<u16>().ok(), "{s:?}");
    }
    assert_eq!(parse_u16("65535"), Some(65535));
    assert_eq!(parse_u16("65536"), None);
}
