//! Tests of the pane runs, column accents, titles, the editor command and
//! the reading of `jj` output.

use jj_yield::app::{App, EditOutcome, FileState, Key, KeyCode};
use jj_yield::diff::{DiffLine, DiffTag, Word};
use jj_yield::editor::{choose_editor, editor_command, shell_single_quote};
use jj_yield::highlight::{Rgb, Seg, Style};
use jj_yield::jj::{list_outcome, root_outcome, show_outcome, ConflictEntry};
use jj_yield::parser::parse;
use jj_yield::view::{
    accents, body_line, file_mark, header, is_chosen, pane_title, side_body_lines, sides_tag,
    styled_diff_line, Accent, Mark, Paint,
};

const TWO_SIDED: &str = "line1\n\
<<<<<<< conflict 1 of 1\n\
+++++++ rpulyxsl 46d0a2ab \"Alice: rename var\"\n\
AAA\n\
------- yooymqps b6f03a57 \"base\"\n\
shared\n\
+++++++ mvmzmyyn 991eceae \"Bob: inline call\"\n\
BBB\n\
>>>>>>> conflict 1 of 1 ends\n\
line3\n";

fn file(path: &str, sides: Option<usize>, text: &str) -> FileState {
    let entry = ConflictEntry { path: path.to_string(), description: String::new(), sides };
    FileState::from_text(entry, text)
}

fn word(t: &str, e: bool) -> Word {
    Word { text: t.to_string(), emphasized: e }
}

const RED: Rgb = Rgb { r: 200, g: 0, b: 0 };
const BG: Rgb = Rgb { r: 1, g: 1, b: 1 };
const EM: Rgb = Rgb { r: 9, g: 9, b: 9 };

fn paint(fg: Option<Rgb>, bg: Option<Rgb>, bold: bool) -> Paint {
    Paint { fg, italic: false, bg, bold, dim: false }
}

#[test]
fn overlay_merges_equal_cells() {
    let segs = vec![Seg { text: "let".to_string(), style: Style { fg: Some(RED), italic: false } },
                    Seg { text: " x".to_string(), style: Style { fg: None, italic: false } }];
    let words = vec![word("let ", false), word("x", true)];
    let runs = styled_diff_line("let x", &segs, &words, Some(BG), Some(EM));
    assert_eq!(runs.len(), 3);
    assert_eq!(runs[0].text, "let");
    assert_eq!(runs[0].paint, paint(Some(RED), Some(BG), false));
    assert_eq!(runs[1].text, " ");
    assert_eq!(runs[1].paint, paint(None, Some(BG), false));
    assert_eq!(runs[2].text, "x");
    assert_eq!(runs[2].paint, paint(None, Some(EM), true));
}

#[test]
fn overlay_without_styles_is_one_run() {
    let runs = styled_diff_line("plain text", &[], &[], None, Some(EM));
    assert_eq!(runs.len(), 1);
    assert_eq!(runs[0].text, "plain text");
    assert_eq!(runs[0].paint, paint(None, None, false));
    // Segments longer than the text are cut off; short ones leave the rest plain.
    let segs = vec![Seg { text: "ab".to_string(), style: Style { fg: Some(RED), italic: true } }];
    let runs = styled_diff_line("abc", &segs, &[], None, None);
    assert_eq!(runs.len(), 2);
    assert_eq!(runs[0].text, "ab");
    assert_eq!(runs[0].paint, Paint { fg: Some(RED), italic: true, bg: None, bold: false, dim: false });
    assert_eq!(runs[1].text, "c");
}

#[test]
fn empty_line_is_blank_on_its_background() {
    let runs = styled_diff_line("", &[], &[], Some(BG), Some(EM));
    assert_eq!(runs.len(), 1);
    assert_eq!(runs[0].text, " ");
    assert_eq!(runs[0].paint, paint(None, Some(BG), false));
    assert!(styled_diff_line("", &[], &[], None, Some(EM)).is_empty());
}

#[test]
fn removed_lines_get_a_dim_sign() {
    let dl = DiffLine { tag: DiffTag::Delete, text: "gone".to_string(), words: vec![word("gone", false)], side_line: None };
    let runs = body_line(&dl, &[]);
    assert_eq!(runs.len(), 2);
    assert_eq!(runs[0].text, "-");
    assert!(runs[0].paint.dim);
    assert_eq!(runs[1].text, " gone");
    assert!(!runs[1].paint.dim);
    assert_eq!(runs[1].paint.fg, Some(Rgb { r: 0xc0, g: 0x60, b: 0x68 }));
}

#[test]
fn inserted_lines_use_their_side_line() {
    let hl = vec![vec![Seg { text: "fn".to_string(), style: Style { fg: Some(RED), italic: false } }]];
    let lines = vec![
        DiffLine { tag: DiffTag::Insert, text: "fn".to_string(), words: vec![word("fn", false)], side_line: Some(0) },
        DiffLine { tag: DiffTag::Equal, text: "fn".to_string(), words: vec![word("fn", false)], side_line: Some(5) },
    ];
    let body = side_body_lines(&lines, &hl);
    assert_eq!(body.len(), 2);
    assert_eq!(body[0][0].paint, paint(Some(RED), Some(Rgb { r: 24, g: 44, b: 30 }), false));
    assert_eq!(body[1][0].paint, paint(None, None, false));
}

#[test]
fn accents_skip_bases() {
    let parsed = parse(TWO_SIDED);
    let cols = parsed.region(0).unwrap().columns();
    assert_eq!(accents(&cols), vec![Accent::Green, Accent::Cyan, Accent::Blue]);
    assert!(accents(&[]).is_empty());
}

#[test]
fn titles_and_labels() {
    assert_eq!(pane_title(0, false, "Alice"), " 1 Alice ");
    assert_eq!(pane_title(2, true, "base"), " 3 \u{2713} base ");
    assert_eq!(pane_title(9, true, "Bob"), " 10 \u{2713} Bob ");
}

#[test]
fn header_and_marks() {
    let mut app = App::new(vec![file("a.txt", Some(2), TWO_SIDED), file("b.txt", None, "plain\n")]);
    let (title, info) = header(&app);
    assert_eq!(title, " a.txt ");
    assert_eq!(info, "conflict 1/1   2 sides   0/1 resolved");
    assert_eq!(file_mark(&app.files[0]), Mark::Open);
    assert_eq!(sides_tag(&app.files[0]), "  [2]");
    assert_eq!(sides_tag(&app.files[1]), "");
    assert!(!is_chosen(&app, 0));
    app.handle_key(Key { code: KeyCode::Char('3'), ctrl: false });
    assert!(is_chosen(&app, 2));
    assert!(!is_chosen(&app, 0));
    assert_eq!(file_mark(&app.files[0]), Mark::Resolved);
    assert_eq!(header(&app).1, "conflict 1/1   2 sides   1/1 resolved");
    app.handle_key(Key { code: KeyCode::Char(']'), ctrl: false });
    assert_eq!(header(&app).1, "conflict 1/1   0 sides   0/0 resolved");
    assert_eq!(header(&App::new(Vec::new())), (" jj-yield ".to_string(), "no conflicts".to_string()));
}

#[test]
fn staged_mark() {
    let mut f = file("m.txt", None, "x\n<<<<<<< conflict 1 of 2\n+++++++ a\nA\n+++++++ b\nB\n>>>>>>> conflict 1 of 2 ends\n<<<<<<< conflict 2 of 2\n+++++++ a\nC\n+++++++ b\nD\n>>>>>>> conflict 2 of 2 ends\n");
    f.resolutions[0] = Some(1);
    assert_eq!(file_mark(&f), Mark::Staged);
}

#[test]
fn shell_quoting() {
    assert_eq!(shell_single_quote("/tmp/a b.txt"), "'/tmp/a b.txt'");
    assert_eq!(shell_single_quote("it's"), "'it'\\''s'");
    assert_eq!(shell_single_quote(""), "''");
    assert_eq!(editor_command("code --wait", "/r/x'y"), "code --wait '/r/x'\\''y'");
}

#[test]
fn editor_choice() {
    assert_eq!(choose_editor(Some("nvim".to_string()), Some("nano".to_string())), "nvim");
    assert_eq!(choose_editor(Some(String::new()), Some("nano".to_string())), "nano");
    assert_eq!(choose_editor(None, Some(String::new())), "vi");
    assert_eq!(choose_editor(None, None), "vi");
}

#[test]
fn edit_outcomes() {
    let mut app = App::new(vec![file("a.txt", None, TWO_SIDED)]);
    let path = "a.txt".to_string();
    let editor = "vi".to_string();
    app.after_edit(&path, &editor, EditOutcome::Exited { success: true, exit: "exit status: 0".to_string(), loaded: Ok(vec![file("a.txt", None, TWO_SIDED)]) });
    assert_eq!(app.status, "Reloaded a.txt after editing");
    app.after_edit(&path, &editor, EditOutcome::Exited { success: false, exit: "exit status: 1".to_string(), loaded: Ok(vec![file("a.txt", None, TWO_SIDED)]) });
    assert_eq!(app.status, "Editor exited with exit status: 1; reloaded a.txt");
    app.after_edit(&path, &editor, EditOutcome::Failed { error: "No such file or directory".to_string() });
    assert_eq!(app.status, "Failed to launch editor `vi`: No such file or directory");
    app.after_edit(&path, &editor, EditOutcome::Exited { success: true, exit: String::new(), loaded: Ok(Vec::new()) });
    assert_eq!(app.status, "All conflicts resolved \u{1f389}  (press q to quit)");
}

#[test]
fn jj_root_output() {
    assert_eq!(root_outcome(true, b"/home/me/repo\n", b""), Ok("/home/me/repo".to_string()));
    assert_eq!(root_outcome(true, b"  \n", b""), Err("`jj root` returned an empty path".to_string()));
    assert_eq!(root_outcome(false, b"", b"Error: no repo here\n"), Err("`jj root` failed: Error: no repo here".to_string()));
}

#[test]
fn jj_file_show_output() {
    assert_eq!(show_outcome("a.txt", true, b"x\ny\n", b""), Ok("x\ny\n".to_string()));
    // Bytes that are not UTF-8 are replaced, not passed through.
    assert_eq!(show_outcome("a.txt", true, b"a\xffb", b""), Ok("a\u{fffd}b".to_string()));
    assert_eq!(show_outcome("a.txt", false, b"", b" nope \n"), Err("`jj file show a.txt` failed: nope".to_string()));
}

#[test]
fn jj_list_output() {
    let v = list_outcome(true, b"a.txt    2-sided conflict\n", b"").unwrap();
    assert_eq!(v.len(), 1);
    assert_eq!(v[0].path, "a.txt");
    assert!(list_outcome(false, b"", b"No conflicts found\n").unwrap().is_empty());
    assert_eq!(list_outcome(false, b"", b"bad\xff").unwrap_err(), "`jj resolve --list` failed: bad\u{fffd}");
}
