//! Tests of grammar choice and of the line structure of highlighted text.

use jj_yield::highlight::{
    lines_from_events, plain, spans_fit_source, split_into_lines, style_for, Highlighter, Rgb, Style,
};
use jj_yield::treesitter::HlEvent;

#[test]
fn detects_language_by_extension() {
    let hl = Highlighter::new();
    assert!(hl.lang_for("src/main.rs").is_some());
    assert!(hl.lang_for("a/b/Component.tsx").is_some());
    assert!(hl.lang_for("x.ts").is_some());
    assert!(hl.lang_for("app/models/user.rb").is_some());
    assert!(hl.lang_for("data.json").is_some());
    assert!(hl.lang_for("README.unknownext").is_none());
}

#[test]
fn line_count_matches_split() {
    let hl = Highlighter::new();
    let src = "fn main() {\n    let x = 1;\n}\n";
    let lines = hl.highlight("x.rs", src);
    // Trailing newline yields a final empty line, matching split('\n').
    assert_eq!(lines.len(), src.split('\n').count());
    // Each line's segments concatenate back to the original line text.
    for (segs, original) in lines.iter().zip(src.split('\n')) {
        let joined: String = segs.iter().map(|s| s.text.as_str()).collect();
        assert_eq!(joined, original);
    }
}

#[test]
fn unknown_language_is_plain_but_intact() {
    let hl = Highlighter::new();
    let src = "alpha\nbeta";
    let lines = hl.highlight("x.unknownext", src);
    assert_eq!(lines.len(), 2);
    assert_eq!(lines[0][0].text, "alpha");
}

#[test]
fn extension_match_ignores_case() {
    let hl = Highlighter::new();
    assert!(hl.lang_for("MAIN.RS").is_some());
    assert!(hl.lang_for("noext").is_none());
    assert!(hl.lang_for("lib.py").is_some());
}

#[test]
fn rust_keywords_are_coloured() {
    let hl = Highlighter::new();
    let lines = hl.highlight("x.rs", "fn main() {}\n");
    let fn_seg = lines[0].iter().find(|s| s.text == "fn").expect("a segment for `fn`");
    assert_eq!(fn_seg.style, style_for("keyword"));
}

#[test]
fn theme_colours() {
    assert_eq!(style_for("keyword"), Style { fg: Some(Rgb { r: 0xc6, g: 0x78, b: 0xdd }), italic: false });
    assert_eq!(style_for("comment"), Style { fg: Some(Rgb { r: 0x5c, g: 0x63, b: 0x70 }), italic: true });
    assert_eq!(style_for("variable"), Style { fg: None, italic: false });
    assert_eq!(style_for("punctuation.bracket"), style_for("operator"));
}

#[test]
fn plain_lines_are_unstyled() {
    let lines = plain("a\n\nb");
    assert_eq!(lines.len(), 3);
    assert_eq!(lines[0].len(), 1);
    assert_eq!(lines[0][0].text, "a");
    assert_eq!(lines[0][0].style, Style { fg: None, italic: false });
    assert!(lines[1].is_empty());
    assert_eq!(lines[2][0].text, "b");
}

#[test]
fn spans_are_cut_at_newlines() {
    let k = Style { fg: Some(Rgb { r: 1, g: 2, b: 3 }), italic: false };
    let p = Style { fg: None, italic: false };
    // "ab\ncd" tiled as "ab\nc" (k) and "d" (p).
    let lines = split_into_lines("ab\ncd", &vec![(0, 4, k), (4, 5, p)]);
    assert_eq!(lines.len(), 2);
    assert_eq!(lines[0].len(), 1);
    assert_eq!(lines[0][0].text, "ab");
    assert_eq!(lines[1].len(), 2);
    assert_eq!(lines[1][0].text, "c");
    assert_eq!(lines[1][0].style, k);
    assert_eq!(lines[1][1].text, "d");
    assert_eq!(lines[1][1].style, p);
}

#[test]
fn bad_spans_are_skipped() {
    let k = Style { fg: None, italic: true };
    // Empty and out-of-range spans add nothing.
    let spans = vec![(0, 0, k), (0, 9, k), (1, 0, k)];
    assert!(spans_fit_source("é", &spans));
    let lines = split_into_lines("é", &spans);
    assert_eq!(lines.len(), 1);
    assert!(lines[0].is_empty());
}

#[test]
fn spans_must_fall_on_characters() {
    let k = Style { fg: None, italic: false };
    assert!(!spans_fit_source("é", &vec![(0, 1, k)]));
    assert!(spans_fit_source("é", &vec![(0, 2, k)]));
    let lines = split_into_lines("éa", &vec![(0, 2, k), (2, 3, k)]);
    assert_eq!(lines[0].len(), 2);
    assert_eq!(lines[0][0].text, "é");
}

#[test]
fn every_known_extension_has_a_grammar() {
    let hl = Highlighter::new();
    for e in ["rs", "ts", "mts", "cts", "tsx", "js", "mjs", "cjs", "jsx", "rb", "rake", "gemspec", "py", "pyi", "json", "jsonc"] {
        assert!(hl.lang_for(&format!("f.{e}")).is_some(), "no grammar for .{e}");
    }
}

#[test]
fn highlighted_lines_spell_the_source() {
    let hl = Highlighter::new();
    let src = "def f(x):\n    return 'é' + x\n\n# done";
    let lines = hl.highlight("m.py", src);
    assert_eq!(lines.len(), src.split('\n').count());
    for (segs, original) in lines.iter().zip(src.split('\n')) {
        let joined: String = segs.iter().map(|s| s.text.as_str()).collect();
        assert_eq!(joined, original);
    }
}

#[test]
fn events_style_the_lines() {
    let red = Style { fg: Some(Rgb { r: 1, g: 0, b: 0 }), italic: false };
    let theme = vec![red];
    let events = vec![
        HlEvent::Start(0),
        HlEvent::Source { start: 0, end: 2 },
        HlEvent::End,
        HlEvent::Source { start: 2, end: 6 },
    ];
    let lines = lines_from_events("fn
x y", Some(events), &theme);
    assert_eq!(lines.len(), 2);
    assert_eq!(lines[0].len(), 1);
    assert_eq!(lines[0][0].text, "fn");
    assert_eq!(lines[0][0].style, red);
    assert_eq!(lines[1][0].text, "x y");
    assert_eq!(lines[1][0].style, Style { fg: None, italic: false });
}

#[test]
fn failed_or_misfit_events_give_plain_lines() {
    let theme = vec![Style { fg: None, italic: true }];
    let plain_lines = plain("é\nb");
    let none = lines_from_events("é\nb", None, &theme);
    assert_eq!(none.len(), plain_lines.len());
    assert_eq!(none[0][0].text, "é");
    // A span that ends inside `é` cannot be cut out: the lines stay plain.
    let cut = lines_from_events("é\nb", Some(vec![HlEvent::Start(0), HlEvent::Source { start: 0, end: 1 }]), &theme);
    assert_eq!(cut[0][0].style, Style { fg: None, italic: false });
    assert_eq!(cut[0][0].text, "é");
}
