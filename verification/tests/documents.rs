use earth::docfile::{edit_doc, load_doc, parse_doc, save_doc, show_doc};
use earth::lcs::lcs_pairs;
use earth::textdoc::TextDoc;

fn lines(ls: &[&str]) -> Vec<String> {
    ls.iter().map(|s| s.to_string()).collect()
}

fn doc(text: &str, device: &str) -> TextDoc {
    let mut d = TextDoc::empty();
    d.apply_local_text(text, device);
    d
}

fn merged(a: &TextDoc, b: &TextDoc) -> TextDoc {
    let mut m = parse_doc(&save_doc(a));
    m.merge(b);
    m
}

fn edited(d: &TextDoc, text: &str, device: &str) -> TextDoc {
    let mut e = parse_doc(&save_doc(d));
    e.apply_local_text(text, device);
    e
}

#[test]
fn lines_are_matched_longest_first() {
    let a = lines(&["a", "b", "c", "d"]);
    let b = lines(&["a", "c", "x", "d"]);
    assert_eq!(lcs_pairs(&a, &b), vec![(0, 0), (2, 1), (3, 3)]);
    assert_eq!(lcs_pairs(&a, &a), vec![(0, 0), (1, 1), (2, 2), (3, 3)]);
    assert_eq!(lcs_pairs(&a, &lines(&[])), vec![]);
    assert_eq!(lcs_pairs(&lines(&["x", "y"]), &lines(&["y", "x"])), vec![(1, 0)]);
    assert_eq!(lcs_pairs(&lines(&["a"]), &lines(&["a", "a"])), vec![(0, 0)]);
}

#[test]
fn an_empty_document_shows_nothing() {
    let d = TextDoc::empty();
    assert_eq!(d.clock, 0);
    assert!(d.is_readable());
    assert_eq!(d.render(), "");
    assert!(d.render_lines_with_ids().is_empty());
}

#[test]
fn a_first_text_is_shown_as_it_is() {
    for t in ["", "a", "a\n", "a\nb", "int main() {\n    return 0;\n}\n", "\n\n", "a\n\nb\n"] {
        let mut want = t.to_string();
        if !t.is_empty() && !t.ends_with('\n') {
            want.push('\n');
        }
        assert_eq!(doc(t, "dev").render(), want, "{t:?}");
    }
}

#[test]
fn lines_are_numbered_and_chained() {
    let d = doc("a\nb\n", "dev-1");
    assert_eq!(d.clock, 2);
    let shown = d.render_lines_with_ids();
    assert_eq!(shown[0], ("00000000000000000001@dev-1".to_string(), "a".to_string()));
    assert_eq!(shown[1], ("00000000000000000002@dev-1".to_string(), "b".to_string()));
    let first = d.lines.get("00000000000000000001@dev-1").unwrap();
    assert_eq!(first.parent, "ROOT");
    let second = d.lines.get("00000000000000000002@dev-1").unwrap();
    assert_eq!(second.parent, "00000000000000000001@dev-1");
}

#[test]
fn taking_over_what_is_shown_changes_nothing() {
    let d = doc("a\nb\nc\n", "dev");
    let e = edited(&d, &d.render(), "other");
    assert_eq!(save_doc(&e), save_doc(&d));
}

#[test]
fn a_text_is_shown_as_it_was_saved() {
    let texts = [
        "", "a\n", "a\nb\n", "a\nx\nb\n", "x\na\ny\nb\nz\n", "b\na\n", "a\nb\nc\nd\n", "a\nd\n", "b\nc\n",
        "a\nb\nc\nd\ne\nf\n", "b\nd\nx\ny\n", "p\nq\n", "a\na\nb\nb\n", "\n\na\n\n", "a\np\nb\nq\nc\nr\nd\n",
    ];
    for from in texts {
        for to in texts {
            let d = edited(&doc(from, "one"), to, "two");
            assert_eq!(d.render(), to, "{from:?} to {to:?}");
            for next in texts {
                assert_eq!(edited(&d, next, "one").render(), next, "{from:?} to {to:?} to {next:?}");
            }
        }
    }
}

#[test]
fn a_line_in_between_is_shown_in_between() {
    let d = doc("a\nb\n", "dev");
    let e = edited(&d, "a\nx\nb\n", "dev");
    assert_eq!(e.render(), "a\nx\nb\n");
    let x = e.lines.get("00000000000000000003@dev").unwrap();
    assert_eq!(x.parent, "00000000000000000001@dev");
}

#[test]
fn a_merged_document_takes_over_texts_exactly() {
    let base = doc("a\nb\nc\n", "one");
    let left = edited(&base, "a\nl1\nl2\nb\nc\n", "one");
    let right = edited(&base, "r1\na\nr2\nc\n", "two");
    let m = merged(&left, &right);
    assert_eq!(m.render(), "r1\na\nr2\nl1\nl2\nc\n");
    for t in ["r1\nx\na\nl1\ny\nc\n", "c\nr2\n", "a\nb\nc\n"] {
        assert_eq!(edited(&m, t, "three").render(), t, "{t:?}");
    }
}

#[test]
fn an_edit_adds_and_deletes_no_more_than_it_must() {
    let d = doc("a\nb\nc\nd\n", "dev");
    let e = edited(&d, "a\nx\nc\ny\nz\n", "two");
    assert_eq!(e.clock, 7);
    assert_eq!(e.lines.len(), 7);
    for (n, t) in [(5, "x"), (6, "y"), (7, "z")] {
        assert_eq!(e.lines.get(&format!("{n:020}@two")).unwrap().text, t);
    }
    let deleted: Vec<&str> =
        (0..7).map(|i| e.lines.value(i)).filter(|l| l.tombstone).map(|l| l.text.as_str()).collect();
    assert_eq!(deleted, vec!["b", "d"]);
}

#[test]
fn an_edit_is_small_where_a_line_waits_for_a_number() {
    let waiting = parse_doc("clock\t1\nline\tq\t00000000000000000002@dev\t0\t7a\nline\tr\tROOT\t0\t61\n");
    assert_eq!(waiting.render(), "a\n");
    let e = edited(&waiting, "a\nb\n", "dev");
    assert_eq!((e.clock, e.lines.len()), (2, 3));
    assert!((0..3).all(|i| !e.lines.value(i).tombstone));
    assert_eq!(e.lines.get("00000000000000000002@dev").unwrap().text, "b");
}

#[test]
fn what_is_written_at_the_end_is_shown_at_the_end() {
    let odd = parse_doc("line\tzz\tROOT\t0\t61\nline\tyy\tROOT\t0\t62\nline\tzzz\tyy\t0\t63\n");
    assert_eq!(odd.render(), "a\nb\nc\n");
    for t in ["a\nb\nc\nd\ne\n", "a\nc\nd\n", "b\nx\n", "a\nb\nc\n", ""] {
        assert_eq!(edited(&odd, t, "dev").render(), t, "{t:?}");
    }
}

#[test]
fn deleting_lines_adds_none() {
    let d = doc("a\nb\nc\nd\n", "dev");
    for t in ["a\nd\n", "b\nc\n", "", "a\nb\nc\nd\n"] {
        let e = edited(&d, t, "two");
        assert_eq!((e.clock, e.lines.len()), (4, 4));
        assert_eq!(e.render(), t);
    }
    assert_eq!(save_doc(&edited(&d, "a\nb\nc\nd", "two")), save_doc(&d));
}

#[test]
fn deleted_lines_are_kept_as_deleted() {
    let d = edited(&doc("a\nb\n", "dev"), "b\n", "dev");
    assert_eq!(d.clock, 2);
    let a = d.lines.get("00000000000000000001@dev").unwrap();
    assert!(a.tombstone);
    assert_eq!(a.text, "a");
    assert_eq!(d.render(), "b\n");
}

#[test]
fn merging_keeps_the_lines_of_both() {
    let base = doc("a\n", "one");
    let left = edited(&base, "a\nleft\n", "one");
    let right = edited(&base, "a\nright\n", "two");
    let m = merged(&left, &right);
    // Both stand below `a`; the later name comes first.
    assert_eq!(m.render(), "a\nright\nleft\n");
    assert_eq!(m.clock, 2);
}

#[test]
fn merging_commutes_and_is_idempotent_and_associative() {
    let base = doc("a\nb\nc\n", "one");
    let x = edited(&base, "a\nc\nx\n", "one");
    let y = edited(&base, "a\nb\nc\ny\n", "two");
    let z = edited(&base, "z\n", "three");
    assert_eq!(save_doc(&merged(&x, &y)), save_doc(&merged(&y, &x)));
    assert_eq!(save_doc(&merged(&x, &x)), save_doc(&x));
    assert_eq!(save_doc(&merged(&merged(&x, &y), &z)), save_doc(&merged(&x, &merged(&y, &z))));
    let once = merged(&x, &y);
    assert_eq!(save_doc(&merged(&y, &once)), save_doc(&once));
}

#[test]
fn devices_never_give_one_name_to_two_lines() {
    let base = doc("a\n", "one");
    let left = edited(&base, "a\nx\n", "one");
    let right = edited(&base, "a\ny\n", "two");
    assert_eq!(left.clock, right.clock);
    let m = merged(&left, &right);
    assert_eq!(m.lines.get("00000000000000000002@one").unwrap().text, "x");
    assert_eq!(m.lines.get("00000000000000000002@two").unwrap().text, "y");
    assert_eq!(m.render(), "a\ny\nx\n");
    let again = edited(&m, "a\ny\nx\nz\n", "one");
    assert_eq!(again.lines.get("00000000000000000003@one").unwrap().text, "z");
    assert_eq!(again.render(), "a\ny\nx\nz\n");
}

#[test]
fn a_line_is_shown_behind_the_one_it_stands_below() {
    let d = edited(&doc("a\nb\nc\n", "dev"), "a\nnew 1\nnew 2\nc\n", "dev");
    let shown = d.render();
    let at = |s: &str| shown.find(s).unwrap();
    assert!(at("a\n") < at("new 1\n") && at("new 1\n") < at("new 2\n"));
    assert!(at("new 2\n") < at("c\n"));
    assert!(!shown.contains("b\n"));
}

#[test]
fn a_deletion_is_not_taken_back_by_a_merge() {
    let base = doc("a\nb\n", "one");
    let gone = edited(&base, "b\n", "one");
    assert_eq!(merged(&base, &gone).render(), "b\n");
    assert_eq!(merged(&gone, &base).render(), "b\n");
}

#[test]
fn the_clock_of_a_merge_is_the_later_one() {
    let a = doc("a\n", "one");
    let b = doc("1\n2\n3\n", "two");
    assert_eq!(merged(&a, &b).clock, 3);
    assert_eq!(merged(&b, &a).clock, 3);
}

#[test]
fn a_document_is_saved_line_by_line() {
    let d = edited(&doc("h\u{e9}\n", "d\t1"), "", "x");
    assert_eq!(save_doc(&d), "clock\t1\nline\t00000000000000000001@d%091\tROOT\t1\t68c3a9\n");
    let e = parse_doc(&save_doc(&d));
    assert_eq!(save_doc(&e), save_doc(&d));
}

#[test]
fn odd_records_are_read_as_far_as_they_go() {
    let d = parse_doc("clock\tx\nline\ta\tROOT\t0\nline\tb\tROOT\t0\t6\nline\tc\tROOT\t2\tff\nother\nclock\t9\textra\n");
    assert_eq!(d.clock, 9);
    assert_eq!(d.lines.len(), 2);
    assert_eq!(d.lines.get("b").unwrap().text, "");
    assert_eq!(d.lines.get("c").unwrap().text, "");
    assert!(!d.lines.get("c").unwrap().tombstone);
    assert!(d.lines.get("a").is_none());
}

#[test]
fn a_document_whose_root_is_below_itself_cannot_be_read() {
    let text = "clock\t1\nline\tROOT\tROOT\t0\t61\n";
    assert!(!parse_doc(text).is_readable());
    assert!(show_doc(Some(text)).is_none());
    assert!(edit_doc(Some(text), "x\n", "dev").is_none());
    let unreachable_loop = "clock\t1\nline\ta\tb\t0\t61\nline\tb\ta\t0\t62\nline\tc\tROOT\t0\t63\n";
    assert_eq!(show_doc(Some(unreachable_loop)).unwrap(), "c\n");
}

#[test]
fn numbers_that_run_out_are_noticed() {
    let text = format!("clock\t{}\n", u64::MAX);
    assert!(edit_doc(Some(&text), "a\n", "dev").is_none());
    assert_eq!(edit_doc(Some(&text), "", "dev").unwrap(), text);
    let almost = format!("clock\t{}\n", u64::MAX - 1);
    let after = edit_doc(Some(&almost), "a\n", "dev").unwrap();
    assert_eq!(parse_doc(&after).clock, u64::MAX);
    // Lines that are there need no numbers.
    assert_eq!(edit_doc(Some(&after), "a\n", "dev").unwrap(), after);
    assert!(edit_doc(Some(&after), "b\n", "dev").is_none());
    assert!(!parse_doc(&after).can_take("a\nb\n"));
}

#[test]
fn files_of_documents_are_edited_and_shown() {
    assert_eq!(load_doc(None).clock, 0);
    assert_eq!(show_doc(None).unwrap(), "");
    let one = edit_doc(None, "a\nb\n", "dev").unwrap();
    assert_eq!(show_doc(Some(&one)).unwrap(), "a\nb\n");
    let two = edit_doc(Some(&one), "b\nc\n", "dev").unwrap();
    assert_eq!(show_doc(Some(&two)).unwrap(), "b\nc\n");
    assert!(parse_doc(&two).can_take("anything\n"));
}

#[test]
fn lines_that_nothing_holds_are_not_shown() {
    let d = parse_doc("clock\t3\nline\tx\tmissing\t0\t61\nline\ty\tROOT\t0\t62\n");
    assert_eq!(d.render(), "b\n");
}

#[test]
fn lines_are_shown_by_their_ways_down() {
    let d = parse_doc("line\t2\tROOT\t0\t62\nline\t1\tROOT\t0\t61\nline\t11\t1\t0\t63\nline\t21\t2\t0\t64\nline\t12\t1\t0\t65\n");
    assert_eq!(d.render(), "b\nd\na\ne\nc\n");
}
