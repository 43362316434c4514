//! Tests of the marker reader, the listing reader and the side diff.

use jj_yield::diff::{diff_side, DiffTag};
use jj_yield::jj::parse_list_line;
use jj_yield::parser::{marker, parse};

#[test]
fn marker_detection() {
    assert_eq!(marker("<<<<<<< conflict 1 of 1"), Some(('<', 7, "conflict 1 of 1")));
    assert_eq!(marker("+++++++ rpulyxsl 46d0a2ab \"x\""), Some(('+', 7, "rpulyxsl 46d0a2ab \"x\"")));
    assert_eq!(marker(">>>>>>>"), Some(('>', 7, "")));
    assert_eq!(marker("------- base"), Some(('-', 7, "base")));
    assert_eq!(marker("++++++"), None); // only 6 — too short
    assert_eq!(marker("+++++++x"), None); // run followed by non-space
    assert_eq!(marker("hello"), None);
}

#[test]
fn longer_markers_are_respected() {
    // jj uses 8-char markers when content would collide with 7-char ones.
    // A 7-char `+++++++` line inside an 8-char region must stay content.
    let text = "ctx\n\
                <<<<<<<< conflict 1 of 1\n\
                ++++++++ a 1 \"A\"\n\
                +++++++\n\
                -------- b 2 \"base\"\n\
                base line\n\
                ++++++++ c 3 \"B\"\n\
                bee\n\
                >>>>>>>> conflict 1 of 1 ends\n\
                end\n";
    let parsed = parse(text);
    assert_eq!(parsed.region_count(), 1);
    let region = parsed.region(0).unwrap();
    assert_eq!(region.marker_len, 8);
    // The 7-char `+++++++` is content of the first term, not a new term.
    assert_eq!(region.terms[0].content, vec!["+++++++".to_string()]);
    assert_eq!(region.sides(), 2);
    // Re-emitting unresolved must reproduce the input exactly.
    assert_eq!(parsed.render(&[None]), text);
}

#[test]
fn parses_resolve_list_rows() {
    let e = parse_list_line("f.txt    3-sided conflict").unwrap();
    assert_eq!(e.path, "f.txt");
    assert_eq!(e.description, "3-sided conflict");
    assert_eq!(e.sides, Some(3));

    let e = parse_list_line("src/a b.rs    2-sided conflict").unwrap();
    assert_eq!(e.path, "src/a b.rs"); // single spaces in path are preserved
    assert_eq!(e.sides, Some(2));

    assert!(parse_list_line("").is_none());
}

fn s(v: &[&str]) -> Vec<String> {
    v.iter().map(|x| x.to_string()).collect()
}

#[test]
fn pure_insert() {
    let d = diff_side(&s(&["a"]), &s(&["a", "b"]));
    assert_eq!(d.len(), 2);
    assert_eq!(d[0].tag, DiffTag::Equal);
    assert_eq!(d[0].side_line, Some(0));
    assert_eq!(d[1].tag, DiffTag::Insert);
    assert_eq!(d[1].text, "b");
    assert_eq!(d[1].side_line, Some(1));
}

#[test]
fn pure_delete() {
    let d = diff_side(&s(&["a", "b"]), &s(&["a"]));
    let del: Vec<_> = d.iter().filter(|l| l.tag == DiffTag::Delete).collect();
    assert_eq!(del.len(), 1);
    assert_eq!(del[0].text, "b");
    assert_eq!(del[0].side_line, None);
}

#[test]
fn empty_side_is_all_deletes() {
    let d = diff_side(&s(&["x", "y"]), &[]);
    assert!(d.iter().all(|l| l.tag == DiffTag::Delete));
    assert_eq!(d.len(), 2);
}

#[test]
fn modification_emphasizes_changed_words() {
    let d = diff_side(&s(&["foo bar"]), &s(&["foo baz"]));
    // The inserted (side) line should carry an emphasized sub-span.
    let ins = d.iter().find(|l| l.tag == DiffTag::Insert).expect("an insert line");
    assert_eq!(ins.text, "foo baz");
    assert!(ins.words.iter().any(|w| w.emphasized), "a word should be emphasized");
    // The unchanged prefix should not be wholly emphasized.
    assert!(ins.words.iter().any(|w| !w.emphasized));
}
