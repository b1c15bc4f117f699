use earth::docfile::{edit_doc, show_doc};
use earth::import::{import_snapshot, merge_doc_text, no_file, place, snapshot_paths};
use earth::manifest::{load_manifest, merge_manifests_text, save_manifest, ManifestEntry};
use earth::ordmap::OrdMap;
use earth::paths::plain_path;
use earth::scan::{
    file_use, normal_rel, render_share, scan_share, text_object, FileState, FileUse, Found, Source,
};
use earth::hash::stable_hash;
use earth::shares::{
    add_share, load_remote_shares, load_shares, save_remote_shares, save_shares, Share,
};
use earth::snapshot::{
    add_file_record, export_snapshot, parse_line, sends, Entry, ShareFiles, StoredFile,
};

fn share(id: &str, name: &str, root: &str) -> Share {
    Share { id: id.to_string(), name: name.to_string(), root: root.to_string() }
}

fn stored(path: &str, bytes: &[u8]) -> StoredFile {
    StoredFile { path: path.to_string(), bytes: bytes.to_vec() }
}

fn files(fs: &[(&str, &[u8])]) -> OrdMap<Vec<u8>> {
    let mut m = OrdMap::new();
    for (p, b) in fs {
        m.insert(p.to_string(), b.to_vec());
    }
    m
}

#[test]
fn shares_are_saved_and_read_back() {
    let ss = vec![share("1", "a\tb", "/x"), share("2%", "n", "/y z")];
    let t = save_shares(&ss);
    assert_eq!(t, "1\ta%09b\t/x\n2%25\tn\t/y z\n");
    let back = load_shares(Some(&t));
    assert_eq!(back.len(), 2);
    assert_eq!((back[0].id.as_str(), back[0].name.as_str(), back[0].root.as_str()), ("1", "a\tb", "/x"));
    assert_eq!(save_shares(&back), t);
    assert_eq!(load_shares(None).len(), 0);
    assert_eq!(load_shares(Some("a\tb\n\nc\td\te\tf\n")).len(), 1);
    assert_eq!(save_shares(&vec![ss[0].copy()]), "1\ta%09b\t/x\n");
}

#[test]
fn a_share_is_added_once() {
    let mut ss = vec![share("1", "a", "/x")];
    assert!(!add_share(&mut ss, &share("1", "other", "/y")));
    assert_eq!(save_shares(&ss), "1\ta\t/x\n");
    assert!(add_share(&mut ss, &share("2", "b", "/y")));
    assert_eq!(save_shares(&ss), "1\ta\t/x\n2\tb\t/y\n");
}

#[test]
fn remote_shares_are_saved_and_read_back() {
    let mut m = load_remote_shares(Some("b\tone\na\ttwo\nb\tthree\nx\n"));
    assert_eq!(m.len(), 2);
    assert_eq!(m.get("b").unwrap(), "three");
    m.insert("c\n".to_string(), "f\tour".to_string());
    let t = save_remote_shares(&m);
    assert_eq!(t, "a\ttwo\nb\tthree\nc%0A\tf%09our\n");
    assert_eq!(save_remote_shares(&load_remote_shares(Some(&t))), t);
    assert_eq!(load_remote_shares(None).len(), 0);
}

#[test]
fn manifests_are_saved_and_read_back() {
    let t = "b.txt\ttext\tobj.crdt\t5\t7\na%09.png\tblob\tff\tx\t99999999999999999999\nshort\tline\n";
    let m = load_manifest(Some(t));
    assert_eq!(m.len(), 2);
    let a = m.get("a\t.png").unwrap();
    assert_eq!((a.path.as_str(), a.kind.as_str(), a.object.as_str(), a.mtime, a.size), ("a\t.png", "blob", "ff", 0, 0));
    let saved = save_manifest(&m);
    assert_eq!(saved, "a%09.png\tblob\tff\t0\t0\nb.txt\ttext\tobj.crdt\t5\t7\n");
    assert_eq!(save_manifest(&load_manifest(Some(&saved))), saved);
    assert_eq!(load_manifest(None).len(), 0);
}

#[test]
fn manifests_are_merged_row_by_row() {
    let a = "a\t1\nb\t1\n";
    let b = "c\t2\nb\t2\n\n\tx\n";
    let m = merge_manifests_text(a, b);
    assert_eq!(m, "a\t1\nb\t2\nc\t2\n");
    assert_eq!(merge_manifests_text(b, &m), m);
    assert_eq!(merge_manifests_text(&m, &m), m);
    assert_eq!(merge_manifests_text(&m, b), m);
    assert_eq!(merge_manifests_text("", ""), "");
    let c = "a\t3\n";
    assert_eq!(merge_manifests_text(&merge_manifests_text(a, b), c), merge_manifests_text(a, &merge_manifests_text(b, c)));
}

#[test]
fn the_merged_manifest_holds_both() {
    let a = load_manifest(Some("x\ttext\to\t1\t1\ny\ttext\to\t1\t1\n"));
    let b = load_manifest(Some("y\tblob\tp\t2\t2\nz\tblob\tp\t2\t2\n"));
    let m = load_manifest(Some(&merge_manifests_text(&save_manifest(&a), &save_manifest(&b))));
    assert_eq!(m.len(), 3);
    assert_eq!(m.get("x").unwrap().kind, "text");
    assert_eq!(m.get("y").unwrap().kind, "blob");
    assert_eq!(m.get("z").unwrap().mtime, 2);
}

fn sample() -> (Vec<ShareFiles>, Vec<StoredFile>) {
    let one = ShareFiles {
        share: share("s1", "docs", "/d"),
        manifest: Some(stored("/h/shares/s1.manifest", b"a\tb\n")),
        crdts: vec![stored("/h/crdts/s1/x.crdt", b"clock\t0\n")],
    };
    let two = ShareFiles { share: share("s2", "pics\t", "/p"), manifest: None, crdts: Vec::new() };
    (vec![one, two], vec![stored("/h/blobs/ff00", &[0xff, 0])])
}

#[test]
fn a_snapshot_lists_shares_and_files() {
    let (ss, blobs) = sample();
    assert_eq!(
        export_snapshot(None, &ss, &blobs),
        "SNAPSHOT 1\n\
         SHARE\ts1\tdocs\n\
         FILE\tMANIFEST\ts1\ts1.manifest\t6109620a\n\
         FILE\tCRDT\ts1\tx.crdt\t636c6f636b09300a\n\
         SHARE\ts2\tpics%09\n\
         FILE\tBLOB\t_\tff00\tff00\n\
         END\n"
    );
    assert_eq!(
        export_snapshot(Some("s2"), &ss, &blobs),
        "SNAPSHOT 1\nSHARE\ts2\tpics%09\nFILE\tBLOB\t_\tff00\tff00\nEND\n"
    );
    assert_eq!(export_snapshot(Some("none"), &ss, &Vec::new()), "SNAPSHOT 1\nEND\n");
}

#[test]
fn a_snapshot_is_read_as_what_it_was_made_of() {
    let (ss, blobs) = sample();
    let text = export_snapshot(None, &ss, &blobs);
    let mut seen = Vec::new();
    for l in text.lines() {
        match parse_line(l) {
            Entry::Nothing => seen.push("-".to_string()),
            Entry::Share(id, name) => seen.push(format!("share {id} {name}")),
            Entry::File(r) => seen.push(format!("{} {} {} {:?}", r.kind, r.share, r.name, r.bytes)),
            Entry::Broken(e) => seen.push(e.message),
        }
    }
    assert_eq!(
        seen,
        vec![
            "-",
            "share s1 docs",
            "MANIFEST s1 s1.manifest [97, 9, 98, 10]",
            "CRDT s1 x.crdt [99, 108, 111, 99, 107, 9, 48, 10]",
            "share s2 pics\t",
            "BLOB _ ff00 [255, 0]",
            "-",
        ]
    );
}

#[test]
fn file_records_are_added_one_by_one() {
    let mut s = "x\n".to_string();
    add_file_record(&mut s, "BLOB", "a\tb", "/h/blobs/n%", &vec![1]);
    assert_eq!(s, "x\nFILE\tBLOB\ta%09b\tn%25\t01\n");
    let mut s = String::new();
    add_file_record(&mut s, "BLOB", "_", "/", &Vec::new());
    assert_eq!(s, "FILE\tBLOB\t_\t\t\n");
}

#[test]
fn odd_lines_of_a_snapshot_are_passed_over() {
    for l in ["", "SNAPSHOT 1", "END", "SHARE\ta", "FILE\ta\tb\tc", "OTHER\t1\t2\t3\t4", "SHARE"] {
        assert!(matches!(parse_line(l), Entry::Nothing), "{l:?}");
    }
    match parse_line("FILE\tBLOB\t_\tn\tabc") {
        Entry::Broken(e) => assert_eq!(e.message, "bad hex"),
        _ => panic!("the record is broken"),
    }
    match parse_line("FILE\tBLOB\t_\tn\tzz") {
        Entry::Broken(e) => assert_eq!(e.message, "bad hex digit"),
        _ => panic!("the record is broken"),
    }
}

#[test]
fn what_is_not_there_is_taken_over() {
    let mut m = files(&[]);
    let data = "SNAPSHOT 1\nSHARE\ts1\tdocs\nFILE\tMANIFEST\ts1\tq\t6109\nFILE\tCRDT\ts1\tx.crdt\tff\nFILE\tBLOB\t_\tb1\t01\nFILE\tODD\ts1\tx\t01\nEND\n";
    assert_eq!(
        snapshot_paths("/h", data),
        vec!["/h/remote_shares.tsv", "/h/shares/s1.manifest", "/h/crdts/s1/x.crdt", "/h/blobs/b1"]
    );
    assert!(import_snapshot("/h", &mut m, data).is_ok());
    assert_eq!(m.len(), 4);
    assert_eq!(m.get("/h/shares/s1.manifest").unwrap(), b"a\t");
    assert_eq!(m.get("/h/crdts/s1/x.crdt").unwrap(), &vec![0xff]);
    assert_eq!(m.get("/h/blobs/b1").unwrap(), &vec![1]);
    assert_eq!(m.get("/h/remote_shares.tsv").unwrap(), b"s1\tdocs\n");
}

#[test]
fn what_is_there_is_merged_or_kept() {
    let local = edit_doc(None, "a\n", "one").unwrap();
    let remote = edit_doc(Some(&local), "a\nb\n", "two").unwrap();
    let mut m = files(&[
        ("/h/shares/s1.manifest", b"a\t1\nb\t1\n"),
        ("/h/crdts/s1/x.crdt", local.as_bytes()),
        ("/h/blobs/b1", b"old"),
        ("/h/remote_shares.tsv", b"s0\tzero\ns1\tbefore\n"),
        ("/h/other", b"kept"),
    ]);
    let snap = export_snapshot(
        None,
        &vec![ShareFiles {
            share: share("s1", "docs", "/d"),
            manifest: Some(stored("/g/shares/s1.manifest", b"b\t2\nc\t2\n")),
            crdts: vec![stored("/g/crdts/s1/x.crdt", remote.as_bytes())],
        }],
        &vec![stored("/g/blobs/b1", b"new")],
    );
    assert!(import_snapshot("/h", &mut m, &snap).is_ok());
    assert_eq!(m.get("/h/shares/s1.manifest").unwrap(), b"a\t1\nb\t2\nc\t2\n");
    let doc = String::from_utf8(m.get("/h/crdts/s1/x.crdt").unwrap().clone()).unwrap();
    assert_eq!(show_doc(Some(&doc)).unwrap(), "a\nb\n");
    assert_eq!(m.get("/h/blobs/b1").unwrap(), b"old");
    assert_eq!(m.get("/h/remote_shares.tsv").unwrap(), b"s0\tzero\ns1\tdocs\n");
    assert_eq!(m.get("/h/other").unwrap(), b"kept");
}

fn hex(s: &str) -> String {
    s.bytes().map(|b| format!("{b:02x}")).collect()
}

#[test]
fn one_file_has_one_path() {
    let one = edit_doc(None, "a\n", "one").unwrap();
    let two = edit_doc(None, "b\n", "two").unwrap();
    let data = format!(
        "FILE\tCRDT\ts\tf\t{}\nFILE\tCRDT\t./s/\t.//./f\t{}\nFILE\tBLOB\t_\t./h\t61\nFILE\tMANIFEST\t./s\tm\t{}\n",
        hex(&one), hex(&two), hex("g\tblob\to\t1\t1\n"),
    );
    let mut m = files(&[]);
    assert!(import_snapshot("./h/", &mut m, &data).is_ok());
    let keys: Vec<String> = (0..m.len()).map(|i| m.key(i).clone()).collect();
    assert_eq!(keys, vec!["h/blobs/h", "h/crdts/s/f", "h/remote_shares.tsv", "h/shares/s.manifest"]);
    assert_eq!(m.get("h/crdts/s/f").unwrap(), merge_doc_text(&one, &two).as_bytes());
    assert_eq!(snapshot_paths("./h/", &data)[1], "h/crdts/s/f");
    assert_eq!(plain_path("/a//b/./c"), "/a/b/c");
    assert_eq!(plain_path("a/../b/"), "b/");
    assert_eq!(plain_path("/../../x"), "/x");
    assert_eq!(plain_path("../../x"), "../../x");
    assert_eq!(plain_path("a/b/../../../x"), "../x");
    assert_eq!(plain_path("a/.."), "a/..");
    assert_eq!(plain_path("/"), "/");
    assert_eq!(plain_path("a/."), "a/.");
}

#[test]
fn the_first_content_stays_by_whatever_path_it_is_named() {
    let data = "FILE\tBLOB\t_\tx\t61\nFILE\tBLOB\t_\t../blobs/x\t62\nFILE\tBLOB\t_\t./../blobs//x\t63\n";
    let mut m = files(&[]);
    assert!(import_snapshot("/h", &mut m, data).is_ok());
    assert_eq!(m.get("/h/blobs/x").unwrap(), b"a");
    assert_eq!(m.len(), 2);
}

#[test]
fn a_snapshot_that_comes_in_again_changes_nothing() {
    let doc = edit_doc(None, "a\nb\n", "one").unwrap();
    let mine = edit_doc(Some(&doc), "a\nx\nb\n", "two").unwrap();
    let manifest = "b\ttext\to1\t1\t2\na\tblob\to2\t3\t4\n";
    let ss = vec![ShareFiles {
        share: share("s1", "name", "/r"),
        manifest: Some(stored("/x/s1.manifest", manifest.as_bytes())),
        crdts: vec![stored("/x/o1.crdt", doc.as_bytes()), stored("/x/o3.crdt", doc.as_bytes())],
    }];
    let data = export_snapshot(None, &ss, &vec![stored("/x/o2", b"\xff")]);
    let mut m = files(&[("/h/crdts/s1/o1.crdt", mine.as_bytes()), ("/h/remote_shares.tsv", b"s0\tother\n")]);
    assert!(import_snapshot("/h", &mut m, &data).is_ok());
    let text = |m: &OrdMap<Vec<u8>>, p: &str| String::from_utf8(m.get(p).unwrap().clone()).unwrap();
    let manifest_of = |m: &OrdMap<Vec<u8>>| save_manifest(&load_manifest(Some(&text(m, "/h/shares/s1.manifest"))));
    let before = (
        text(&m, "/h/crdts/s1/o1.crdt"), text(&m, "/h/crdts/s1/o3.crdt"), manifest_of(&m),
        m.get("/h/blobs/o2").unwrap().clone(), text(&m, "/h/remote_shares.tsv"),
    );
    assert_eq!(before.4, "s0\tother\ns1\tname\n");
    assert_eq!(show_doc(Some(&before.0)).unwrap(), "a\nx\nb\n");
    assert!(import_snapshot("/h", &mut m, &data).is_ok());
    let after = (
        text(&m, "/h/crdts/s1/o1.crdt"), text(&m, "/h/crdts/s1/o3.crdt"), manifest_of(&m),
        m.get("/h/blobs/o2").unwrap().clone(), text(&m, "/h/remote_shares.tsv"),
    );
    assert_eq!(after, before);
}

#[test]
fn odd_ends_of_lines_are_lost_once() {
    let data = "SHARE\ts1\tnamed\r\r\nFILE\tMANIFEST\ts1\tm\t6109626c6f620a\n";
    let mut m = files(&[
        ("/h/shares/s1.manifest", b"b\ttext\to\t1\t2\r\r\n"),
        ("/h/remote_shares.tsv", b"s0\tother\r\r\ns1\told\n"),
    ]);
    assert!(import_snapshot("/h", &mut m, data).is_ok());
    let held = |m: &OrdMap<Vec<u8>>, p: &str| String::from_utf8(m.get(p).unwrap().clone()).unwrap();
    assert_eq!(held(&m, "/h/shares/s1.manifest"), "a\tblob\nb\ttext\to\t1\t2\r\n");
    assert_eq!(held(&m, "/h/remote_shares.tsv"), "s0\tother\r\ns1\tnamed\r\n");
    let names = |m: &OrdMap<Vec<u8>>| {
        let r = load_remote_shares(Some(&held(m, "/h/remote_shares.tsv")));
        (r.get("s0").unwrap().clone(), r.get("s1").unwrap().clone())
    };
    let before = (names(&m), save_manifest(&load_manifest(Some(&held(&m, "/h/shares/s1.manifest")))));
    assert_eq!(before.0, ("other".to_string(), "named".to_string()));
    assert!(import_snapshot("/h", &mut m, data).is_ok());
    let after = (names(&m), save_manifest(&load_manifest(Some(&held(&m, "/h/shares/s1.manifest")))));
    assert_eq!(after, before);
    assert_eq!(held(&m, "/h/shares/s1.manifest"), "a\tblob\nb\ttext\to\t1\t2\n");
}

#[test]
fn a_name_in_a_snapshot_loses_its_last_carriage_return() {
    let ss = vec![ShareFiles { share: share("s1", "n\r", "/r"), manifest: None, crdts: Vec::new() }];
    let text = export_snapshot(None, &ss, &Vec::new());
    assert_eq!(text, "SNAPSHOT 1\nSHARE\ts1\tn\r\nEND\n");
    let mut m = files(&[]);
    assert!(import_snapshot("/h", &mut m, &text).is_ok());
    assert_eq!(m.get("/h/remote_shares.tsv").unwrap(), b"s1\tn\n");
}

#[test]
fn one_share_is_sent_where_it_is_asked_for() {
    assert!(sends(None, "s1"));
    assert!(sends(Some("s1"), "s1"));
    assert!(!sends(Some("s1"), "s2"));
}

#[test]
fn nothing_is_merged_into_a_directory() {
    let said = "stream did not contain valid UTF-8";
    for kind in ["MANIFEST", "CRDT"] {
        assert_eq!(place(kind, Some(&no_file()), &b"a\t1\n".to_vec()).err().unwrap().message, said);
    }
    assert_eq!(place("BLOB", Some(&no_file()), &b"x".to_vec()).ok().unwrap(), no_file());
}

#[test]
fn a_broken_record_stops_an_import_where_it_stands() {
    let mut m = files(&[]);
    let data = "SHARE\ts1\tdocs\nFILE\tBLOB\t_\tb1\t01\nFILE\tBLOB\t_\tb2\t0\nFILE\tBLOB\t_\tb3\t03\n";
    assert_eq!(import_snapshot("/h", &mut m, data).err().unwrap().message, "bad hex");
    assert_eq!(m.len(), 1);
    assert_eq!(m.get("/h/blobs/b1").unwrap(), &vec![1]);
}

#[test]
fn files_that_should_be_texts_and_are_not_stop_an_import() {
    let said = "stream did not contain valid UTF-8";
    let mut m = files(&[("/h/shares/s1.manifest", &[0xff])]);
    assert_eq!(import_snapshot("/h", &mut m, "FILE\tMANIFEST\ts1\tm\t61\n").err().unwrap().message, said);
    let mut m = files(&[("/h/crdts/s1/x", &[0xff])]);
    assert_eq!(import_snapshot("/h", &mut m, "FILE\tCRDT\ts1\tx\t61\n").err().unwrap().message, said);
    let mut m = files(&[("/h/remote_shares.tsv", &[0xff])]);
    assert_eq!(import_snapshot("/h", &mut m, "").err().unwrap().message, said);
    assert_eq!(m.get("/h/remote_shares.tsv").unwrap(), &vec![0xff]);
}

#[test]
fn bytes_that_are_no_text_are_read_with_replacements() {
    let out = place("MANIFEST", Some(&b"a\t1\n".to_vec()), &b"b\t\xff\n".to_vec()).ok().unwrap();
    assert_eq!(String::from_utf8(out).unwrap(), "a\t1\nb\t\u{fffd}\n");
}

#[test]
fn contents_are_placed_by_their_kind() {
    assert_eq!(place("BLOB", None, &b"x".to_vec()).ok().unwrap(), b"x");
    assert_eq!(place("BLOB", Some(&b"y".to_vec()), &b"x".to_vec()).ok().unwrap(), b"y");
    assert_eq!(place("MANIFEST", None, &vec![0xff]).ok().unwrap(), vec![0xff]);
}

#[test]
fn two_devices_hold_the_same_after_a_sync() {
    let base = edit_doc(None, "a\nb\n", "one").unwrap();
    let one = edit_doc(Some(&base), "a\nb\nfrom one\n", "one").unwrap();
    let two = edit_doc(Some(&base), "b\nfrom two\n", "two").unwrap();
    let snap = |doc: &[u8], man: &[u8]| {
        export_snapshot(
            None,
            &vec![ShareFiles {
                share: share("s", "n", "/r"),
                manifest: Some(stored("/x/shares/s.manifest", man)),
                crdts: vec![stored("/x/crdts/s/d.crdt", doc)],
            }],
            &Vec::new(),
        )
    };
    let mut a = files(&[("/a/crdts/s/d.crdt", one.as_bytes()), ("/a/shares/s.manifest", b"f\t1\ng\t1\n")]);
    let mut b = files(&[("/b/crdts/s/d.crdt", two.as_bytes()), ("/b/shares/s.manifest", b"g\t2\n")]);
    assert!(import_snapshot("/a", &mut a, &snap(two.as_bytes(), b"g\t2\n")).is_ok());
    let sent = snap(a.get("/a/crdts/s/d.crdt").unwrap(), a.get("/a/shares/s.manifest").unwrap());
    assert!(import_snapshot("/b", &mut b, &sent).is_ok());
    assert_eq!(a.get("/a/crdts/s/d.crdt"), b.get("/b/crdts/s/d.crdt"));
    assert_eq!(a.get("/a/shares/s.manifest"), b.get("/b/shares/s.manifest"));
    let doc = String::from_utf8(a.get("/a/crdts/s/d.crdt").unwrap().clone()).unwrap();
    assert_eq!(show_doc(Some(&doc)).unwrap(), "b\nfrom two\nfrom one\n");
    assert_eq!(merge_doc_text(&doc, &doc), doc);
}

#[test]
fn files_are_used_by_their_state_and_name() {
    assert!(matches!(file_use("/r/a.txt", true, None), FileUse::Skip));
    assert!(matches!(file_use("/r/a.txt", false, Some(1199)), FileUse::Skip));
    assert!(matches!(file_use("/r/a.txt", false, Some(1200)), FileUse::Text));
    assert!(matches!(file_use("/r/a.png", false, None), FileUse::Blob));
    assert_eq!(normal_rel("a\\b/c"), "a/b/c");
    assert_eq!(text_object("a/b.txt"), format!("{}.crdt", stable_hash("a/b.txt")));
}

fn text_file(rel: &str, mtime: u64, size: u64) -> Found {
    Found { rel: rel.to_string(), state: FileState::Text { mtime, size } }
}

fn blob_file(rel: &str, hash: &str, mtime: u64, size: u64) -> Found {
    Found { rel: rel.to_string(), state: FileState::Blob { hash: hash.to_string(), mtime, size } }
}

fn busy_file(rel: &str) -> Found {
    Found { rel: rel.to_string(), state: FileState::Busy }
}

fn manifest(es: &[(&str, &str, &str, u64, u64)]) -> OrdMap<ManifestEntry> {
    let mut m = OrdMap::new();
    for (p, k, o, t, s) in es {
        let e = ManifestEntry { path: p.to_string(), kind: k.to_string(), object: o.to_string(), mtime: *t, size: *s };
        m.insert(p.to_string(), e);
    }
    m
}

#[test]
fn a_scan_brings_a_manifest_up_to_date() {
    let m = manifest(&[
        ("same.txt", "text", &text_object("same.txt"), 5, 6),
        ("later.txt", "text", &text_object("later.txt"), 5, 6),
        ("longer.txt", "text", &text_object("longer.txt"), 5, 6),
        ("gone.txt", "text", "x", 1, 1),
        ("busy.txt", "text", "x", 1, 1),
        (".a.swp", "blob", "y", 1, 1),
        (".git/x", "blob", "y", 1, 1),
        ("pic.png", "blob", "old", 1, 1),
    ]);
    let found = vec![
        text_file("same.txt", 5, 6),
        text_file("later.txt", 6, 6),
        text_file("longer.txt", 5, 7),
        text_file("new.txt", 1, 2),
        busy_file("busy.txt"),
        busy_file("unknown.txt"),
        blob_file("pic.png", "abc", 3, 4),
        blob_file("x/pic2.png", "def", 3, 4),
        text_file("a~", 1, 1),
    ];
    let s = scan_share(&m, &found);
    assert_eq!(s.changed, vec!["later.txt", "longer.txt", "new.txt", "a~"]);
    let keys: Vec<String> = (0..s.manifest.len()).map(|i| s.manifest.key(i).clone()).collect();
    assert_eq!(keys, vec!["busy.txt", "later.txt", "longer.txt", "new.txt", "pic.png", "same.txt", "x/pic2.png"]);
    let e = s.manifest.get("pic.png").unwrap();
    assert_eq!((e.kind.as_str(), e.object.as_str(), e.mtime, e.size), ("blob", "abc", 3, 4));
    let e = s.manifest.get("new.txt").unwrap();
    assert_eq!((e.path.as_str(), e.kind.as_str(), e.mtime, e.size), ("new.txt", "text", 1, 2));
    assert_eq!(e.object, text_object("new.txt"));
    assert_eq!(s.manifest.get("busy.txt").unwrap().object, "x");
}

#[test]
fn a_second_scan_changes_nothing() {
    let found = vec![text_file("a.txt", 1, 2), blob_file("b.png", "h", 3, 4), busy_file("c.txt")];
    let once = scan_share(&manifest(&[("c.txt", "text", "o", 1, 1)]), &found);
    assert_eq!(once.changed, vec!["a.txt"]);
    let twice = scan_share(&once.manifest, &found);
    assert!(twice.changed.is_empty());
    assert_eq!(save_manifest(&twice.manifest), save_manifest(&once.manifest));
}

#[test]
fn a_share_is_written_out_from_its_manifest() {
    let m = manifest(&[
        ("a/b.txt", "text", "o.crdt", 1, 1),
        ("p.png", "blob", "hash", 1, 1),
        ("odd", "link", "z", 1, 1),
        ("x~", "text", "o2", 1, 1),
        ("/abs.txt", "text", "o3", 1, 1),
    ]);
    let r = render_share("/root", &m);
    let seen: Vec<String> = r
        .iter()
        .map(|x| {
            let s = match &x.source {
                Source::Doc(o) => format!("doc {o}"),
                Source::Blob(o) => format!("blob {o}"),
                Source::Nowhere => "nowhere".to_string(),
            };
            format!("{} in {} from {}", x.path, x.dir.as_deref().unwrap_or("none"), s)
        })
        .collect();
    assert_eq!(
        seen,
        vec![
            "/abs.txt in / from doc o3",
            "/root/a/b.txt in /root/a from doc o.crdt",
            "/root/odd in /root from nowhere",
            "/root/p.png in /root from blob hash",
        ]
    );
}
