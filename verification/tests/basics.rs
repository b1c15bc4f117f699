use earth::error::err;
use earth::order::{position, Position};
use earth::ordmap::OrdMap;
use earth::table::{columns, row};
use earth::text::{
    chars_of, contains, ends_with, is_blank, is_one_of, is_whitespace, join_lines, lines,
    lowercase, owned, replace_char, same, split, starts_with, string_of, strip_prefix, trim_end,
};

#[test]
fn texts_are_split_like_the_standard_library_does() {
    for s in ["", "a", "a\n", "a\nb", "\n", "\n\n", "a\r\nb\r", "a\r\n", "\r\n\r\n", "x\ty\n\tz", "a\r\r\n"] {
        let want: Vec<String> = s.lines().map(|l| l.to_string()).collect();
        assert_eq!(lines(s), want, "{s:?}");
        let want: Vec<String> = s.split('\t').map(|l| l.to_string()).collect();
        assert_eq!(split(s, '\t'), want, "{s:?}");
        assert_eq!(columns(s), want, "{s:?}");
    }
}

#[test]
fn whitespace_is_that_of_the_standard_library() {
    for c in (0..=0x3100u32).filter_map(char::from_u32) {
        assert_eq!(is_whitespace(c), c.is_whitespace(), "{c:?}");
    }
    for s in ["", " ", "a ", " a\u{2003}", "\t\n", "x\r\n", "\u{85}"] {
        assert_eq!(trim_end(s), s.trim_end(), "{s:?}");
        assert_eq!(is_blank(s), s.trim().is_empty(), "{s:?}");
    }
}

#[test]
fn texts_are_searched_and_changed() {
    assert!(starts_with("abc", "ab") && !starts_with("abc", "b") && starts_with("abc", ""));
    assert!(ends_with("abc", "bc") && !ends_with("abc", "b") && ends_with("abc", ""));
    assert!(contains("abc", "b") && contains("abc", "") && !contains("abc", "ac") && contains("abc", "abc"));
    assert_eq!(strip_prefix("EXPORT x", "EXPORT ").as_deref(), Some("x"));
    assert_eq!(strip_prefix("EXPOR", "EXPORT "), None);
    assert_eq!(lowercase("aB\u{c9}Z[@"), "aB\u{c9}Z[@".to_ascii_lowercase());
    assert_eq!(replace_char("a_b_", '_', '-'), "a-b-");
    assert!(same("a", "a") && !same("a", "b") && !same("a", "ab"));
    assert_eq!(owned("x"), "x");
    assert_eq!(string_of(&chars_of("h\u{e9}llo"), 1, 3), "\u{e9}l");
    assert!(is_one_of(&vec!["a".to_string()], "a") && !is_one_of(&vec!["a".to_string()], "b"));
    assert_eq!(join_lines(&vec!["a".to_string(), String::new()]), "a\n\n");
    assert_eq!(row(&vec!["a".to_string(), String::new(), "b".to_string()]), "a\t\tb");
    assert_eq!(err("oops").message, "oops");
}

#[test]
fn texts_are_ordered_like_the_standard_library_orders_them() {
    let all = ["", "a", "ab", "b", "B", "a%", "a&", "\u{e9}", "z", "10", "9", "\u{1f600}", "\u{ffff}"];
    for x in all {
        for y in all {
            let want = match x.cmp(y) {
                std::cmp::Ordering::Less => "before",
                std::cmp::Ordering::Equal => "equal",
                std::cmp::Ordering::Greater => "after",
            };
            let got = match position(x, y) {
                Position::Before => "before",
                Position::Equal => "equal",
                Position::After => "after",
            };
            assert_eq!(got, want, "{x:?} {y:?}");
        }
    }
}

#[test]
fn ordered_maps_keep_their_keys_in_order() {
    let mut m: OrdMap<u16> = OrdMap::new();
    for (k, v) in [("b", 1), ("a", 2), ("c", 3), ("b", 4)] {
        m.insert(k.to_string(), v);
    }
    assert_eq!(m.len(), 3);
    let keys: Vec<&String> = (0..3).map(|i| m.key(i)).collect();
    assert_eq!(keys, vec!["a", "b", "c"]);
    assert_eq!(*m.value(1), 4);
    assert_eq!(m.index_of("c"), Some(2));
    assert_eq!(m.index_of("none"), None);
    assert!(m.contains("a"));
    assert!(!m.contains("aa"));
    assert_eq!(m.get("a"), Some(&2));
    assert_eq!(m.get("d"), None);
}
