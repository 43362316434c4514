//! Tests of side labels, columns, rendering, the listing reader and the
//! text helpers.

use jj_yield::conflict::{lines_equal, Accept, SideLabel, TermKind};
use jj_yield::diff::{diff_side, DiffTag};
use jj_yield::jj::{conflict_list, parse_sides, text_lines};
use jj_yield::parser::{parse, parse_header};
use jj_yield::text::{decimal_string, parse_number, split_lines};

const TWO_SIDED: &str = "line1\n\
<<<<<<< conflict 1 of 1\n\
+++++++ rpulyxsl 46d0a2ab \"Alice: rename var\"\n\
AAA\n\
------- yooymqps b6f03a57 \"base\"\n\
shared\n\
+++++++ mvmzmyyn 991eceae \"Bob: inline call\"\n\
BBB\n\
>>>>>>> conflict 1 of 1 ends\n\
line3\n";

const THREE_SIDED: &str = "line1\n\
<<<<<<< conflict 1 of 1\n\
+++++++ rpulyxsl 46d0a2ab \"Alice\"\n\
AAA\n\
------- yooymqps b6f03a57 \"base\"\n\
shared\n\
+++++++ mvmzmyyn 991eceae \"Bob\"\n\
BBB\n\
------- yooymqps b6f03a57 \"base\"\n\
shared\n\
+++++++ lwuprqku bb9b960b \"Carol\"\n\
CCC\n\
>>>>>>> conflict 1 of 1 ends\n\
line3\n";

#[test]
fn label_parts() {
    let l = SideLabel::parse("rpulyxsl 46d0a2ab \"Alice: rename var\"");
    assert_eq!(l.change_id, "rpulyxsl");
    assert_eq!(l.commit_id, "46d0a2ab");
    assert_eq!(l.description, "Alice: rename var");
    assert_eq!(l.raw, "rpulyxsl 46d0a2ab \"Alice: rename var\"");
    assert_eq!(l.short(), "Alice: rename var (rpulyxsl)");

    let l = SideLabel::parse("base");
    assert_eq!(l.change_id, "base");
    assert_eq!(l.commit_id, "");
    assert_eq!(l.description, "");
    assert_eq!(l.short(), "base");

    let l = SideLabel::parse("");
    assert_eq!(l.short(), "");

    let l = SideLabel::parse("abc def   unquoted  ");
    assert_eq!(l.commit_id, "def");
    assert_eq!(l.description, "unquoted");
}

#[test]
fn column_titles() {
    let parsed = parse(TWO_SIDED);
    let cols = parsed.region(0).unwrap().columns();
    assert_eq!(cols.len(), 3);
    assert_eq!(cols[0].kind, TermKind::Add);
    assert_eq!(cols[0].title(), "Alice: rename var (rpulyxsl)");
    assert_eq!(cols[1].kind, TermKind::Remove);
    assert_eq!(cols[1].title(), "base (yooymqps)");
    assert_eq!(cols[2].title(), "Bob: inline call (mvmzmyyn)");
}

#[test]
fn header_numbers() {
    assert_eq!(parse_header("conflict 1 of 2"), Some((1, 2)));
    assert_eq!(parse_header("conflict 2 of 2 ends"), Some((2, 2)));
    assert_eq!(parse_header("conflict x of 2"), None);
    assert_eq!(parse_header("something else"), None);
    let parsed = parse(TWO_SIDED);
    assert_eq!(parsed.region(0).unwrap().header, Some((1, 1)));
}

#[test]
fn out_of_range_choice_keeps_markers() {
    let parsed = parse(TWO_SIDED);
    assert_eq!(parsed.render(&[Some(Accept::Side(7))]), TWO_SIDED);
    assert_eq!(parsed.render(&[Some(Accept::Both(vec![9, 8]))]), TWO_SIDED);
    // One valid index is enough; the others contribute nothing.
    assert_eq!(parsed.render(&[Some(Accept::Both(vec![9, 2]))]), "line1\nBBB\nline3\n");
}

#[test]
fn three_sided_renders_each_column() {
    let parsed = parse(THREE_SIDED);
    let region = parsed.region(0).unwrap();
    assert_eq!(region.sides(), 3);
    let cols = region.columns();
    // Alice, base, Bob, Carol: the repeated base is shown once.
    assert_eq!(cols.len(), 4);
    assert_eq!(parsed.render(&[Some(Accept::Side(3))]), "line1\nCCC\nline3\n");
}

#[test]
fn fully_resolved_needs_every_region() {
    let parsed = parse(TWO_SIDED);
    assert!(!parsed.fully_resolved(&[None]));
    assert!(!parsed.fully_resolved(&[]));
    assert!(parsed.fully_resolved(&[Some(Accept::Side(0))]));
    let plain = parse("no conflicts here\n");
    assert_eq!(plain.region_count(), 0);
    // With no region, every region (there is none) has a choice.
    assert!(plain.fully_resolved(&[]));
    assert_eq!(plain.render(&[]), "no conflicts here\n");
}

#[test]
fn render_without_trailing_newline() {
    let text = "a\n<<<<<<< conflict 1 of 1\n+++++++ x\nX\n+++++++ y\nY\n>>>>>>> conflict 1 of 1 ends\nb";
    let parsed = parse(text);
    assert!(!parsed.trailing_newline);
    assert_eq!(parsed.render(&[None]), text);
    assert_eq!(parsed.render(&[Some(Accept::Side(1))]), "a\nY\nb");
}

#[test]
fn unterminated_region_runs_to_the_end() {
    let text = "a\n<<<<<<< conflict 1 of 1\n+++++++ x\nX\n";
    let parsed = parse(text);
    assert_eq!(parsed.region_count(), 1);
    assert_eq!(parsed.region(0).unwrap().terms[0].content, vec!["X".to_string()]);
    assert_eq!(parsed.render(&[None]), text);
    assert_eq!(parsed.render(&[Some(Accept::Side(0))]), "a\nX\n");
}

#[test]
fn sides_from_description() {
    assert_eq!(parse_sides("3-sided conflict"), Some(3));
    assert_eq!(parse_sides("2-sided conflict including 1 deletion"), Some(2));
    assert_eq!(parse_sides("conflict"), None);
    assert_eq!(parse_sides("x-sided conflict"), None);
}

#[test]
fn listing_outcomes() {
    let ok = conflict_list(true, "a.txt    2-sided conflict\n\nb.rs    3-sided conflict\n", "").unwrap();
    assert_eq!(ok.len(), 2);
    assert_eq!(ok[0].path, "a.txt");
    assert_eq!(ok[1].path, "b.rs");
    assert_eq!(ok[1].sides, Some(3));

    let none = conflict_list(false, "", "Error: No conflicts found at this revision\n").unwrap();
    assert!(none.is_empty());

    let err = conflict_list(false, "", "  boom  \n").unwrap_err();
    assert_eq!(err, "`jj resolve --list` failed: boom");
}

#[test]
fn lines_of_text() {
    assert_eq!(text_lines("a\r\nb\n\nc"), vec!["a".to_string(), "b".to_string(), String::new(), "c".to_string()]);
    assert!(text_lines("").is_empty());
    let (lines, trailing) = split_lines("x\ny\n");
    assert_eq!(lines, vec!["x".to_string(), "y".to_string()]);
    assert!(trailing);
    let (lines, trailing) = split_lines("x");
    assert_eq!(lines, vec!["x".to_string()]);
    assert!(!trailing);
}

#[test]
fn numbers() {
    assert_eq!(decimal_string(0), "0");
    assert_eq!(decimal_string(4096), "4096");
    assert_eq!(parse_number(&"123".to_string()), Some(123));
    assert_eq!(parse_number(&"".to_string()), None);
    assert_eq!(parse_number(&"12a".to_string()), None);
    assert_eq!(parse_number(&"99999999999999999999999".to_string()), None);
}

#[test]
fn line_lists_compare() {
    let a = vec!["x".to_string(), "y".to_string()];
    let b = vec!["x".to_string(), "y".to_string()];
    let c = vec!["x".to_string()];
    assert!(lines_equal(&a, &b));
    assert!(!lines_equal(&a, &c));
}

#[test]
fn diff_lines_spell_both_texts() {
    let base: Vec<String> = vec!["foo bar".into(), "same".into(), "gone".into()];
    let side: Vec<String> = vec!["foo baz".into(), "same".into(), "new".into(), "".into()];
    let d = diff_side(&base, &side);
    let old: Vec<String> = d.iter().filter(|l| l.tag != DiffTag::Insert).map(|l| l.text.clone()).collect();
    let new: Vec<String> = d.iter().filter(|l| l.tag != DiffTag::Delete).map(|l| l.text.clone()).collect();
    assert_eq!(old, base);
    assert_eq!(new, side);
    for l in &d {
        let joined: String = l.words.iter().map(|w| w.text.as_str()).collect();
        assert_eq!(joined, l.text);
    }
}
