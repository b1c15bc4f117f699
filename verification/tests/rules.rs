use std::path::Path;

use earth::hash::ByteOrder;
use earth::ignore::{
    is_ignored_component_name, is_ignored_path, is_ignored_rel, is_text_path,
};
use earth::paths::{extension, file_name, join, parent, set_extension};
use earth::visible::{
    editor_markers, has_active_editor_marker, is_file_stable, write_bytes, write_string,
    write_visible_bytes, VisibleWrite,
};

const PATHS: &[&str] = &[
    "",
    "/",
    "//",
    "a",
    "a/",
    "/a",
    "//a",
    "a/b",
    "a//b",
    "a/b/",
    "a/b//",
    "./a",
    ".",
    "..",
    "./",
    "../a",
    "a/.",
    "a/..",
    "a/./b",
    "a/b/.",
    "a/b/./",
    "/.",
    "/..",
    "/./a",
    "/a/./",
    "a/../b",
    ".hidden",
    "a/.hidden",
    ".hidden.txt",
    "notes.txt",
    "a/b/notes.tar.gz",
    "a.b/c",
    "name.",
    "a/..b",
    "a/...",
    "/home/u/.earth/shares/x.manifest",
    "a/\u{e9}t\u{e9}.md",
];

fn native() -> ByteOrder {
    if 1u16.to_ne_bytes()[0] == 1 {
        ByteOrder::LowFirst
    } else {
        ByteOrder::HighFirst
    }
}

#[test]
fn paths_agree_with_the_standard_library() {
    for p in PATHS {
        let path = Path::new(p);
        let name = path.file_name().map(|n| n.to_str().unwrap().to_string());
        assert_eq!(file_name(p), name, "file name of {p:?}");
        let dir = path.parent().map(|d| d.to_str().unwrap().to_string());
        assert_eq!(parent(p), dir, "parent of {p:?}");
        let ext = path.extension().map(|e| e.to_str().unwrap().to_string());
        assert_eq!(extension(p), ext, "extension of {p:?}");
        let other = path.with_extension("tmp-earth");
        assert_eq!(set_extension(p, "tmp-earth"), other.to_str().unwrap(), "other extension of {p:?}");
        for q in PATHS {
            assert_eq!(join(p, q), path.join(q).to_str().unwrap(), "{p:?} joined with {q:?}");
        }
    }
}

#[test]
fn ignored_rel_agrees_with_the_components_of_a_path() {
    let more = ["a/.git/config", "x/y~/z", "b/#f#", "a/.#f", ".svn", "d/4913", "q/w.TMP/r", "a\\b~", "x/ .hg"];
    for p in PATHS.iter().chain(more.iter()) {
        let any = Path::new(p).components().any(|c| {
            let name = c.as_os_str().to_string_lossy();
            is_ignored_component_name(&name, false)
                || [".earth", ".git", ".hg", ".svn"].contains(&name.as_ref())
        });
        assert_eq!(is_ignored_rel(p), any, "{p:?}");
    }
}

#[test]
fn editor_files_are_ignored() {
    for name in [
        ".test.txt.swp",
        ".test.txt.swo",
        ".test.txt.swn",
        ".TEST.TXT.SWP",
        "test.txt~",
        "test.txu~",
        "test.txv~",
        "4913",
        "#file#",
        "#",
        ".#file",
        ".DS_Store",
        "Thumbs.db",
        "desktop.ini",
        "x.tmp",
        "x.temp",
        "x.part",
        "x.crdownload",
        "X.TMP",
    ] {
        assert!(is_ignored_component_name(name, false), "{name}");
        assert!(is_ignored_component_name(name, true), "{name}");
        assert!(is_ignored_rel(name), "{name}");
        assert!(is_ignored_rel(&format!("a/{name}/b")), "{name}");
        assert!(is_ignored_path(&format!("/root/{name}"), false), "{name}");
    }
    for name in [".git", ".hg", ".svn", ".earth"] {
        assert!(is_ignored_component_name(name, true));
        assert!(!is_ignored_component_name(name, false));
        assert!(is_ignored_rel(name));
        assert!(is_ignored_rel(&format!("a/{name}/config")));
        assert!(is_ignored_path(&format!("/root/{name}"), true));
        assert!(!is_ignored_path(&format!("/root/{name}"), false));
    }
}

#[test]
fn ordinary_files_are_not_ignored() {
    for name in [
        "notes.txt", "main.c", "image.png", "file.swp", ".swp", ".bashrc", ".x.sw", ".x.swap", "#file", "file#",
        "tmp", "a.tmpx", "4914", "ds_store", ".x.sw\u{e9}", "thumbs.db",
    ] {
        assert!(!is_ignored_component_name(name, false), "{name}");
        assert!(!is_ignored_rel(name), "{name}");
    }
    assert!(!is_ignored_rel("subfolder/test.h"));
    assert!(!is_ignored_path("..", false));
}

#[test]
fn text_files_are_told_by_their_extensions() {
    for ext in [
        "txt", "c", "h", "cpp", "hpp", "rs", "py", "md", "json", "toml", "yaml", "yml", "js", "ts", "html", "css",
        "sh", "java", "go", "TXT", "Md",
    ] {
        assert!(is_text_path(&format!("a/b.{ext}")), "{ext}");
    }
    for path in ["a/image.png", "Makefile", ".txt", "a/b.txt/c", "x.", "x.txtt", ""] {
        assert!(!is_text_path(path), "{path}");
    }
}

#[test]
fn markers_of_a_file_stand_beside_it() {
    let m = editor_markers("/s/test.txt");
    assert_eq!(m.len(), 17);
    assert_eq!(m[0], "/s/.test.txt.swp");
    assert_eq!(m[1], "/s/.test.txt.swo");
    assert_eq!(m[15], "/s/.test.txt.swa");
    assert_eq!(m[16], "/s/.#test.txt");
    assert_eq!(editor_markers("notes")[16], ".#notes");
    assert!(editor_markers("/").is_empty());
    assert!(editor_markers("a/..").is_empty());
}

#[test]
fn a_marker_shows_that_a_file_is_edited() {
    let there = |names: &[&str]| -> Vec<String> { names.iter().map(|s| s.to_string()).collect() };
    assert!(has_active_editor_marker("/s/test.txt", &there(&["/s/.test.txt.swm"])));
    assert!(has_active_editor_marker("/s/test.txt", &there(&["/s/x", "/s/.#test.txt"])));
    assert!(!has_active_editor_marker("/s/test.txt", &there(&["/s/.test.txt.swz", "/s/test.txt", "/t/.test.txt.swp"])));
    assert!(!has_active_editor_marker("/s/test.txt", &there(&[])));
}

#[test]
fn markers_and_temporary_files_are_left_alone() {
    for m in editor_markers("/s/test.txt") {
        assert!(is_ignored_path(&m, false), "{m}");
    }
    match write_visible_bytes("/s/test.txt", false, None, b"x", native()) {
        VisibleWrite::Write { dir, tmp } => {
            assert_eq!(dir.as_deref(), Some("/s"));
            assert_eq!(tmp, "/s/.test.txt.earth.tmp");
            assert!(is_ignored_path(&tmp, false));
        },
        _ => panic!("the file should be written"),
    }
}

#[test]
fn a_file_is_stable_when_it_was_left_alone() {
    assert!(!is_file_stable(Some(0), 1200));
    assert!(!is_file_stable(Some(1199), 1200));
    assert!(is_file_stable(Some(1200), 1200));
    assert!(is_file_stable(None, 1200));
}

#[test]
fn visible_files_are_written_only_where_they_must_be() {
    let have = b"hello\n".to_vec();
    assert!(matches!(write_visible_bytes("/s/.git/x", false, None, b"x", native()), VisibleWrite::Ignored));
    assert!(matches!(write_visible_bytes("/s/a~", true, None, b"x", native()), VisibleWrite::Ignored));
    assert!(matches!(write_visible_bytes("/s/a", true, None, b"x", native()), VisibleWrite::Deferred));
    assert!(matches!(write_visible_bytes("/s/a", true, Some(&have), b"hello\n", native()), VisibleWrite::Deferred));
    assert!(matches!(write_visible_bytes("/s/a", false, Some(&have), b"hello\n", native()), VisibleWrite::Unchanged));
    assert!(matches!(write_visible_bytes("/s/a", false, Some(&have), b"hallo\n", native()), VisibleWrite::Write { .. }));
    match write_visible_bytes("..", false, None, b"x", native()) {
        VisibleWrite::Write { dir, tmp } => {
            assert_eq!(dir.as_deref(), Some(""));
            assert_eq!(tmp, ".file.earth.tmp");
        },
        _ => panic!("the file should be written"),
    }
}

#[test]
fn large_and_empty_files_that_are_unchanged_are_not_rewritten() {
    for len in [0usize, 1, 8191, 8192, 8193, 20000] {
        let data: Vec<u8> = (0..len).map(|i| (i % 251) as u8).collect();
        assert!(matches!(write_visible_bytes("/s/a", false, Some(&data), &data, native()), VisibleWrite::Unchanged));
        assert!(write_bytes("/h/a", Some(&data), &data, native()).is_none());
        let mut other = data.clone();
        other.push(7);
        assert!(write_bytes("/h/a", Some(&data), &other, native()).is_some());
        if len > 0 {
            let mut changed = data.clone();
            changed[len - 1] ^= 1;
            assert!(write_bytes("/h/a", Some(&data), &changed, native()).is_some());
        }
    }
}

#[test]
fn account_files_are_written_beside_themselves() {
    let w = write_string("/h/config.tsv", None, "x", native()).unwrap();
    assert_eq!(w.dir.as_deref(), Some("/h"));
    assert_eq!(w.tmp, "/h/config.tmp-earth");
    let w = write_string("/h/account", Some(&b"y".to_vec()), "x", native()).unwrap();
    assert_eq!(w.tmp, "/h/account.tmp-earth");
    assert!(write_string("/h/account", Some(&b"x".to_vec()), "x", native()).is_none());
}
