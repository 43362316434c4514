//! Tests of the resolver screen's key handling and of how it takes in the
//! outcome of writes and reloads.

use jj_yield::app::{Action, App, FileState, Key, KeyCode};
use jj_yield::jj::ConflictEntry;

const TWO_SIDED: &str = "line1\n\
<<<<<<< conflict 1 of 1\n\
+++++++ rpulyxsl 46d0a2ab \"Alice: rename var\"\n\
AAA\n\
------- yooymqps b6f03a57 \"base\"\n\
shared\n\
+++++++ mvmzmyyn 991eceae \"Bob: inline call\"\n\
BBB\n\
>>>>>>> conflict 1 of 1 ends\n\
line3\n";

const MULTI_REGION: &str = "a\n\
<<<<<<< conflict 1 of 2\n\
+++++++ rpulyxsl 46d0a2ab \"Alice\"\n\
b1\n\
------- yooymqps b6f03a57 \"base\"\n\
b\n\
+++++++ mvmzmyyn 991eceae \"Bob\"\n\
b2\n\
>>>>>>> conflict 1 of 2 ends\n\
c\n\
<<<<<<< conflict 2 of 2\n\
+++++++ rpulyxsl 46d0a2ab \"Alice\"\n\
d1\n\
------- yooymqps b6f03a57 \"base\"\n\
d\n\
+++++++ mvmzmyyn 991eceae \"Bob\"\n\
d2\n\
>>>>>>> conflict 2 of 2 ends\n\
e\n";

const TALL: &str = "<<<<<<< conflict 1 of 1\n\
+++++++ x 1 \"X\"\n\
x1\n\
x2\n\
x3\n\
+++++++ y 2 \"Y\"\n\
y1\n\
>>>>>>> conflict 1 of 1 ends\n";

fn file(path: &str, text: &str) -> FileState {
    let entry = ConflictEntry { path: path.to_string(), description: "2-sided conflict".to_string(), sides: Some(2) };
    FileState::from_text(entry, text)
}

fn key(c: char) -> Key {
    Key { code: KeyCode::Char(c), ctrl: false }
}

fn ctrl(c: char) -> Key {
    Key { code: KeyCode::Char(c), ctrl: true }
}

fn code(code: KeyCode) -> Key {
    Key { code, ctrl: false }
}

fn is_continue(a: &Action) -> bool {
    matches!(a, Action::Continue)
}

#[test]
fn starts_on_first_region() {
    let app = App::new(vec![file("a.txt", TWO_SIDED)]);
    assert_eq!(app.selected_file, 0);
    assert_eq!(app.region, 0);
    assert_eq!(app.column, 0);
    assert_eq!(app.vscroll, 0);
    assert_eq!(app.current_path(), Some("a.txt".to_string()));
    assert_eq!(app.columns().len(), 3);
    assert_eq!(app.current_choice(), None);
}

#[test]
fn empty_screen_has_no_file() {
    let mut app = App::new(Vec::new());
    assert!(app.file().is_none());
    assert!(app.current_path().is_none());
    assert!(is_continue(&app.handle_key(key('w'))));
    assert!(is_continue(&app.handle_key(key('n'))));
    assert!(matches!(app.handle_key(key('q')), Action::Quit));
}

#[test]
fn quit_edit_and_refresh_keys() {
    let mut app = App::new(vec![file("a.txt", TWO_SIDED)]);
    assert!(matches!(app.handle_key(key('q')), Action::Quit));
    assert!(matches!(app.handle_key(code(KeyCode::Esc)), Action::Quit));
    assert!(matches!(app.handle_key(ctrl('c')), Action::Quit));
    assert!(matches!(app.handle_key(key('e')), Action::OpenEditor));
    assert!(matches!(app.handle_key(key('r')), Action::Refresh));
    assert!(is_continue(&app.handle_key(code(KeyCode::Other))));
}

#[test]
fn write_needs_a_staged_region() {
    let mut app = App::new(vec![file("a.txt", TWO_SIDED)]);
    assert!(is_continue(&app.handle_key(key('w'))));
    assert_eq!(app.status, "Nothing staged \u{2014} pick a side first (\u{23ce} or 1-9)");
}

#[test]
fn enter_picks_the_focused_column() {
    let mut app = App::new(vec![file("a.txt", TWO_SIDED)]);
    assert!(is_continue(&app.handle_key(code(KeyCode::Enter))));
    assert_eq!(app.current_choice(), Some(0));
    assert_eq!(app.status, "Region 1 \u{2192} Alice: rename var (rpulyxsl)");
    assert!(app.files[0].is_fully_resolved());
    assert_eq!(app.files[0].resolved_count(), 1);
    match app.handle_key(key('w')) {
        Action::Write { path, content, fully } => {
            assert_eq!(path, "a.txt");
            assert_eq!(content, "line1\nAAA\nline3\n");
            assert!(fully);
        }
        _ => panic!("expected a write"),
    }
}

#[test]
fn digit_picks_that_column() {
    let mut app = App::new(vec![file("a.txt", TWO_SIDED)]);
    app.handle_key(key('3'));
    assert_eq!(app.current_choice(), Some(2));
    assert_eq!(app.column, 2);
    assert_eq!(app.files[0].rendered(), "line1\nBBB\nline3\n");
    // A digit past the last column does nothing.
    app.handle_key(key('9'));
    assert_eq!(app.current_choice(), Some(2));
    app.handle_key(key('2'));
    assert_eq!(app.files[0].rendered(), "line1\nshared\nline3\n");
}

#[test]
fn unpick_clears_the_region() {
    let mut app = App::new(vec![file("a.txt", TWO_SIDED)]);
    app.handle_key(key('1'));
    assert!(app.files[0].has_staged());
    app.handle_key(key('u'));
    assert_eq!(app.current_choice(), None);
    assert_eq!(app.status, "Region 1 unresolved");
    assert!(!app.files[0].has_staged());
    assert_eq!(app.files[0].rendered(), TWO_SIDED);
}

#[test]
fn columns_wrap_around() {
    let mut app = App::new(vec![file("a.txt", TWO_SIDED)]);
    app.handle_key(key('l'));
    assert_eq!(app.column, 1);
    app.handle_key(code(KeyCode::Tab));
    assert_eq!(app.column, 2);
    app.handle_key(code(KeyCode::Right));
    assert_eq!(app.column, 0);
    app.handle_key(key('h'));
    assert_eq!(app.column, 2);
    app.handle_key(code(KeyCode::BackTab));
    assert_eq!(app.column, 1);
}

#[test]
fn picking_moves_to_the_next_unresolved_region() {
    let mut app = App::new(vec![file("m.txt", MULTI_REGION)]);
    app.handle_key(code(KeyCode::Enter));
    assert_eq!(app.region, 1);
    assert_eq!(app.files[0].resolved_count(), 1);
    assert!(!app.files[0].is_fully_resolved());
    match app.handle_key(key('w')) {
        Action::Write { content, fully, .. } => {
            assert!(!fully);
            assert!(content.starts_with("a\nb1\nc\n<<<<<<<"));
        }
        _ => panic!("expected a write"),
    }
    app.handle_key(key('3'));
    assert_eq!(app.files[0].rendered(), "a\nb1\nc\nd2\ne\n");
}

#[test]
fn region_and_file_navigation() {
    let mut app = App::new(vec![file("m.txt", MULTI_REGION), file("a.txt", TWO_SIDED)]);
    app.handle_key(key('n'));
    assert_eq!(app.region, 1);
    app.handle_key(key('n'));
    assert_eq!(app.region, 1);
    app.handle_key(key('N'));
    assert_eq!(app.region, 0);
    app.handle_key(key('n'));
    app.handle_key(key(']'));
    assert_eq!(app.selected_file, 1);
    assert_eq!(app.region, 0);
    app.handle_key(key('J'));
    assert_eq!(app.selected_file, 1);
    app.handle_key(key('['));
    assert_eq!(app.selected_file, 0);
    app.handle_key(key('K'));
    assert_eq!(app.selected_file, 0);
}

#[test]
fn scrolling_stays_within_the_tallest_column() {
    let mut app = App::new(vec![file("t.txt", TALL)]);
    app.handle_key(key('j'));
    assert_eq!(app.vscroll, 1);
    app.handle_key(ctrl('d'));
    assert_eq!(app.vscroll, 2);
    app.handle_key(key('k'));
    assert_eq!(app.vscroll, 1);
    app.handle_key(ctrl('u'));
    assert_eq!(app.vscroll, 0);
    app.handle_key(key('G'));
    assert_eq!(app.vscroll, 2);
    app.handle_key(key('g'));
    assert!(app.pending_g);
    app.handle_key(key('g'));
    assert!(!app.pending_g);
    assert_eq!(app.vscroll, 0);
    app.handle_key(code(KeyCode::Down));
    app.handle_key(key('g'));
    app.handle_key(key('j'));
    assert!(!app.pending_g);
    assert_eq!(app.vscroll, 2);
}

const LONG: &str = "<<<<<<< conflict 1 of 1\n\
+++++++ x 1 \"X\"\n\
1\n2\n3\n4\n5\n6\n7\n8\n9\n10\n11\n12\n13\n14\n15\n16\n17\n18\n19\n20\n21\n22\n23\n24\n25\n\
+++++++ y 2 \"Y\"\n\
y\n\
>>>>>>> conflict 1 of 1 ends\n";

#[test]
fn half_page_scrolling() {
    let mut app = App::new(vec![file("l.txt", LONG)]);
    app.page = 20;
    app.handle_key(ctrl('d'));
    assert_eq!(app.vscroll, 10);
    app.handle_key(ctrl('d'));
    assert_eq!(app.vscroll, 20);
    app.handle_key(ctrl('d'));
    assert_eq!(app.vscroll, 24);
    app.handle_key(ctrl('u'));
    assert_eq!(app.vscroll, 14);
    app.page = 7;
    app.handle_key(ctrl('u'));
    assert_eq!(app.vscroll, 11);
    app.page = 1;
    app.handle_key(ctrl('u'));
    assert_eq!(app.vscroll, 10);
}

#[test]
fn overlays_swallow_keys() {
    let mut app = App::new(vec![file("t.txt", TALL)]);
    app.handle_key(key('?'));
    assert!(app.show_help);
    assert!(is_continue(&app.handle_key(key('q'))));
    assert!(!app.show_help);

    app.handle_key(key('j'));
    app.handle_key(key('p'));
    assert!(app.show_preview);
    assert_eq!(app.vscroll, 0);
    app.handle_key(key('j'));
    assert_eq!(app.vscroll, 1);
    assert!(is_continue(&app.handle_key(key('q'))));
    assert!(!app.show_preview);
}

#[test]
fn write_and_reload_outcomes() {
    let mut app = App::new(vec![file("a.txt", TWO_SIDED), file("m.txt", MULTI_REGION)]);
    app.handle_key(key(']'));
    let path = "m.txt".to_string();

    app.after_write(&path, false, Err("disk full".to_string()));
    assert_eq!(app.status, "Write failed: disk full");

    // A failed reload keeps the files, and the write is still reported.
    app.after_write(&path, false, Ok(Err("jj exploded".to_string())));
    assert_eq!(app.status, "Wrote m.txt (partial \u{2014} markers remain)");
    assert_eq!(app.files.len(), 2);
    app.reload(Err("jj exploded".to_string()));
    assert_eq!(app.status, "Reload error: jj exploded");

    // The reload keeps the selection on the same path.
    app.after_write(&path, true, Ok(Ok(vec![file("m.txt", MULTI_REGION), file("z.txt", TWO_SIDED)])));
    assert_eq!(app.selected_file, 0);
    assert_eq!(app.current_path(), Some("m.txt".to_string()));
    assert_eq!(app.status, "Wrote m.txt (fully resolved)");

    app.after_write(&path, false, Ok(Ok(vec![file("m.txt", MULTI_REGION)])));
    assert_eq!(app.status, "Wrote m.txt (partial \u{2014} markers remain)");

    app.after_refresh(Ok(vec![file("q.txt", TWO_SIDED)]));
    assert_eq!(app.status, "Refreshed");
    assert_eq!(app.current_path(), Some("q.txt".to_string()));

    app.after_refresh(Ok(Vec::new()));
    assert_eq!(app.status, "All conflicts resolved \u{1f389}  (press q to quit)");
    assert!(app.file().is_none());
}

#[test]
fn load_keeps_the_selected_path() {
    let mut app = App::new(vec![file("a.txt", TWO_SIDED), file("b.txt", TWO_SIDED)]);
    app.handle_key(key(']'));
    app.load(vec![file("c.txt", TWO_SIDED), file("b.txt", TWO_SIDED)]);
    assert_eq!(app.selected_file, 1);
    app.load(vec![file("d.txt", TWO_SIDED)]);
    assert_eq!(app.selected_file, 0);
}

#[test]
fn accepts_follow_resolutions() {
    let mut f = file("a.txt", MULTI_REGION);
    assert_eq!(f.resolutions, vec![None, None]);
    f.resolutions[1] = Some(2);
    let acc = f.accepts();
    assert_eq!(acc.len(), 2);
    assert!(acc[0].is_none());
    assert_eq!(acc[1], Some(jj_yield::conflict::Accept::Side(2)));
    assert_eq!(f.rendered(), "a\n<<<<<<< conflict 1 of 2\n+++++++ rpulyxsl 46d0a2ab \"Alice\"\nb1\n------- yooymqps b6f03a57 \"base\"\nb\n+++++++ mvmzmyyn 991eceae \"Bob\"\nb2\n>>>>>>> conflict 1 of 2 ends\nc\nd2\ne\n");
}

#[test]
fn clamping_is_idempotent() {
    let mut app = App::new(vec![file("t.txt", TALL)]);
    app.selected_file = 7;
    app.region = 9;
    app.column = 5;
    app.vscroll = 40;
    app.clamp();
    assert_eq!((app.selected_file, app.region, app.column, app.vscroll), (0, 0, 1, 2));
    assert!(app.within_bounds());
    app.clamp();
    assert_eq!((app.selected_file, app.region, app.column, app.vscroll), (0, 0, 1, 2));
}
