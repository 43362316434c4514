//! Syntax highlighting with tree-sitter and a small dark theme.
//!
//! A [`Highlighter`] holds one configured grammar per supported language,
//! keyed by file extension. [`Highlighter::highlight`] returns one styled line
//! per `'\n'`-delimited line of the input, so the UI can index lines directly
//! and overlay diff colours on top of syntax colours. Unknown languages (or
//! any tree-sitter error) degrade to plain, unstyled lines.
//!
//! Parsing and querying are tree-sitter's; this module chooses the grammar,
//! folds tree-sitter's highlight events into styled spans and cuts the spans
//! into lines.

use vstd::prelude::*;
use vstd::string::StringSliceAdditionalSpecFns;
use crate::text::{chars_of, glue, lemma_split_concat, lemma_split_nonempty, push_char, split_on, string_of};
use crate::treesitter::{
    config_builds, configure, contiguous, events_view, highlight_events, hl_events, new_config, new_ts_highlighter,
    source_ranges, Config, ConfigKey, ConfigKeyView, ConfigView, Grammar, HlEvent,
};

verus! {

broadcast use {vstd::string::group_string_axioms, vstd::utf8::group_utf8_lib};

// ---------------------------------------------------------------------------
// Styles
// ---------------------------------------------------------------------------

/// A 24-bit colour.
#[derive(Debug, Clone, Copy, PartialEq, Eq, Structural)]
pub struct Rgb {
    pub r: u8,
    pub g: u8,
    pub b: u8,
}

/// The look of a run of text: an optional foreground colour and whether it
/// is set in italics. The default style has neither.
#[derive(Debug, Clone, Copy, PartialEq, Eq, Structural)]
pub struct Style {
    pub fg: Option<Rgb>,
    pub italic: bool,
}

/// The default style: no colour, upright.
pub open spec fn plain_style() -> Style {
    Style { fg: None, italic: false }
}

/// A styled run of text within a single line.
#[derive(Debug, Clone)]
pub struct Seg {
    pub text: String,
    pub style: Style,
}

/// The text of a [`Seg`].
pub struct SegView {
    pub text: Seq<char>,
    pub style: Style,
}

impl View for Seg {
    type V = SegView;

    open spec fn view(&self) -> SegView {
        SegView { text: self.text@, style: self.style }
    }
}

/// The view of a list of styled lines.
pub open spec fn lines_view(lines: Seq<Vec<Seg>>) -> Seq<Seq<SegView>> {
    Seq::new(lines.len(), |i: int| lines[i]@.map_values(|s: Seg| s@))
}

/// The capture names we recognise.
pub open spec fn spec_capture_names() -> Seq<Seq<char>> {
    seq![
        "attribute"@,
        "comment"@,
        "constant"@,
        "constant.builtin"@,
        "constructor"@,
        "escape"@,
        "function"@,
        "function.builtin"@,
        "function.method"@,
        "keyword"@,
        "label"@,
        "module"@,
        "number"@,
        "operator"@,
        "property"@,
        "punctuation"@,
        "punctuation.bracket"@,
        "punctuation.delimiter"@,
        "string"@,
        "string.escape"@,
        "string.special"@,
        "tag"@,
        "type"@,
        "type.builtin"@,
        "variable"@,
        "variable.builtin"@,
        "variable.member"@,
        "variable.parameter"@,
    ]
}

/// Capture names we recognise; the theme is parallel to this list and the
/// grammars' captures are mapped onto it.
pub fn capture_names() -> (res: Vec<&'static str>)
    ensures
        res@.map_values(|n: &str| n@) == spec_capture_names(),
{
    let v: Vec<&'static str> = vec![
        "attribute",
        "comment",
        "constant",
        "constant.builtin",
        "constructor",
        "escape",
        "function",
        "function.builtin",
        "function.method",
        "keyword",
        "label",
        "module",
        "number",
        "operator",
        "property",
        "punctuation",
        "punctuation.bracket",
        "punctuation.delimiter",
        "string",
        "string.escape",
        "string.special",
        "tag",
        "type",
        "type.builtin",
        "variable",
        "variable.builtin",
        "variable.member",
        "variable.parameter",
    ];
    assert(v@.map_values(|n: &str| n@) =~= spec_capture_names());
    v
}

/// The style with foreground colour `(r, g, b)`.
pub open spec fn rgb(r: u8, g: u8, b: u8) -> Style {
    Style { fg: Some(Rgb { r: r, g: g, b: b }), italic: false }
}

/// The theme (One Dark-ish): the foreground style of a capture name.
pub open spec fn spec_style_for(name: Seq<char>) -> Style {
    if name == "comment"@ {
        Style { fg: Some(Rgb { r: 0x5c, g: 0x63, b: 0x70 }), italic: true }
    } else if name == "keyword"@ || name == "label"@ {
        rgb(0xc6, 0x78, 0xdd)
    } else if name == "string"@ || name == "string.special"@ {
        rgb(0x98, 0xc3, 0x79)
    } else if name == "string.escape"@ || name == "escape"@ {
        rgb(0x56, 0xb6, 0xc2)
    } else if name == "number"@ || name == "constant"@ || name == "constant.builtin"@ {
        rgb(0xd1, 0x9a, 0x66)
    } else if name == "function"@ || name == "function.builtin"@ || name == "function.method"@
        || name == "constructor"@ {
        rgb(0x61, 0xaf, 0xef)
    } else if name == "type"@ || name == "type.builtin"@ {
        rgb(0xe5, 0xc0, 0x7b)
    } else if name == "property"@ || name == "variable.member"@ || name == "tag"@ {
        rgb(0xe0, 0x6c, 0x75)
    } else if name == "attribute"@ {
        rgb(0xd1, 0x9a, 0x66)
    } else if name == "variable.builtin"@ {
        rgb(0xe0, 0x6c, 0x75)
    } else if name == "module"@ {
        rgb(0xe5, 0xc0, 0x7b)
    } else if name == "operator"@ || name == "punctuation"@ || name == "punctuation.bracket"@
        || name == "punctuation.delimiter"@ {
        rgb(0xab, 0xb2, 0xbf)
    } else {
        plain_style()
    }
}

/// Whether two texts are equal.
fn same_text(a: &str, b: &str) -> (res: bool)
    ensures
        res == (a@ == b@),
{
    let x = chars_of(a);
    let y = chars_of(b);
    if x.len() != y.len() {
        return false;
    }
    let mut i: usize = 0;
    while i < x.len()
        invariant
            i <= x@.len() == y@.len(),
            x@ == a@,
            y@ == b@,
            forall|j: int| 0 <= j < i ==> x@[j] == y@[j],
        decreases x@.len() - i,
    {
        if x[i] != y[i] {
            assert(a@[i as int] != b@[i as int]);
            return false;
        }
        i += 1;
    }
    assert(x@ =~= y@);
    true
}

/// The style of a capture name.
pub fn style_for(name: &str) -> (res: Style)
    ensures
        res == spec_style_for(name@),
{
    let rgb = |r: u8, g: u8, b: u8| -> (s: Style)
        ensures
            s == rgb(r, g, b),
        { Style { fg: Some(Rgb { r, g, b }), italic: false } };
    if same_text(name, "comment") {
        Style { fg: Some(Rgb { r: 0x5c, g: 0x63, b: 0x70 }), italic: true }
    } else if same_text(name, "keyword") || same_text(name, "label") {
        rgb(0xc6, 0x78, 0xdd)
    } else if same_text(name, "string") || same_text(name, "string.special") {
        rgb(0x98, 0xc3, 0x79)
    } else if same_text(name, "string.escape") || same_text(name, "escape") {
        rgb(0x56, 0xb6, 0xc2)
    } else if same_text(name, "number") || same_text(name, "constant") || same_text(
        name,
        "constant.builtin",
    ) {
        rgb(0xd1, 0x9a, 0x66)
    } else if same_text(name, "function") || same_text(name, "function.builtin") || same_text(
        name,
        "function.method",
    ) || same_text(name, "constructor") {
        rgb(0x61, 0xaf, 0xef)
    } else if same_text(name, "type") || same_text(name, "type.builtin") {
        rgb(0xe5, 0xc0, 0x7b)
    } else if same_text(name, "property") || same_text(name, "variable.member") || same_text(
        name,
        "tag",
    ) {
        rgb(0xe0, 0x6c, 0x75)
    } else if same_text(name, "attribute") {
        rgb(0xd1, 0x9a, 0x66)
    } else if same_text(name, "variable.builtin") {
        rgb(0xe0, 0x6c, 0x75)
    } else if same_text(name, "module") {
        rgb(0xe5, 0xc0, 0x7b)
    } else if same_text(name, "operator") || same_text(name, "punctuation") || same_text(
        name,
        "punctuation.bracket",
    ) || same_text(name, "punctuation.delimiter") {
        rgb(0xab, 0xb2, 0xbf)
    } else {
        Style { fg: None, italic: false }
    }
}

// ---------------------------------------------------------------------------
// Plain lines
// ---------------------------------------------------------------------------

/// One unstyled line: no segment when empty, else one plain segment.
pub open spec fn plain_line(l: Seq<char>) -> Seq<SegView> {
    if l.len() == 0 {
        Seq::empty()
    } else {
        seq![SegView { text: l, style: plain_style() }]
    }
}

/// The unstyled lines of a text, one per `'\n'`-delimited line.
pub open spec fn spec_plain(source: Seq<char>) -> Seq<Seq<SegView>> {
    split_on(source, '\n').map_values(|l: Seq<char>| plain_line(l))
}

/// The text of `source` as unstyled lines.
pub fn plain(source: &str) -> (res: Vec<Vec<Seg>>)
    ensures
        lines_view(res@) == spec_plain(source@),
{
    let cs = chars_of(source);
    let mut out: Vec<Vec<Seg>> = Vec::new();
    let mut start: usize = 0;
    let mut i: usize = 0;
    let ghost target = split_on(source@, '\n');
    proof {
        assert(cs@.take(0) =~= Seq::<char>::empty());
        assert(lines_view(out@) =~= Seq::<Seq<SegView>>::empty());
        assert(cs@.subrange(0, 0) =~= Seq::<char>::empty());
    }
    while i < cs.len()
        invariant
            start <= i <= cs@.len(),
            cs@ == source@,
            lines_view(out@).push(plain_line(cs@.subrange(start as int, i as int))) == split_on(
                cs@.take(i as int),
                '\n',
            ).map_values(|l: Seq<char>| plain_line(l)),
            split_on(cs@.take(i as int), '\n').last() == cs@.subrange(start as int, i as int),
            split_on(cs@.take(i as int), '\n').len() >= 1,
        decreases cs@.len() - i,
    {
        let ghost pre = cs@.take(i as int);
        let ghost next = cs@.take(i + 1);
        let ghost sp = split_on(pre, '\n');
        assert(next.drop_last() =~= pre);
        assert(next.last() == cs@[i as int]);
        if cs[i] == '\n' {
            let ghost before = lines_view(out@);
            let line = plain_segs(&cs, start, i);
            out.push(line);
            assert(lines_view(out@) =~= before.push(plain_line(cs@.subrange(start as int, i as int))));
            start = i + 1;
            proof {
                assert(cs@.subrange(start as int, (i + 1) as int) =~= Seq::<char>::empty());
                assert(split_on(next, '\n') =~= sp.push(Seq::<char>::empty()));
                assert(split_on(next, '\n').map_values(|l: Seq<char>| plain_line(l)) =~= sp.map_values(
                    |l: Seq<char>| plain_line(l),
                ).push(plain_line(Seq::<char>::empty())));
                assert(lines_view(out@).push(plain_line(Seq::<char>::empty())) =~= before.push(
                    plain_line(sp.last()),
                ).push(plain_line(Seq::<char>::empty())));
                assert(before.push(plain_line(sp.last())) =~= sp.map_values(
                    |l: Seq<char>| plain_line(l),
                ));
            }
        } else {
            proof {
                let piece = cs@.subrange(start as int, (i + 1) as int);
                assert(piece =~= sp.last().push(cs@[i as int]));
                let q = sp.update(sp.len() - 1, piece);
                assert(split_on(next, '\n') == q);
                assert(q.map_values(|l: Seq<char>| plain_line(l)) =~= sp.map_values(
                    |l: Seq<char>| plain_line(l),
                ).update(sp.len() - 1, plain_line(piece)));
                let before = lines_view(out@);
                assert(before.push(plain_line(sp.last())) == sp.map_values(
                    |l: Seq<char>| plain_line(l),
                ));
                assert(before.push(plain_line(piece)) =~= sp.map_values(
                    |l: Seq<char>| plain_line(l),
                ).update(sp.len() - 1, plain_line(piece)));
            }
        }
        i += 1;
    }
    assert(cs@.take(i as int) =~= source@);
    let ghost before = lines_view(out@);
    let line = plain_segs(&cs, start, i);
    out.push(line);
    assert(lines_view(out@) =~= before.push(plain_line(cs@.subrange(start as int, i as int))));
    out
}

/// The segments of the unstyled line `cs[from..to]`.
fn plain_segs(cs: &Vec<char>, from: usize, to: usize) -> (res: Vec<Seg>)
    requires
        from <= to <= cs@.len(),
    ensures
        res@.map_values(|s: Seg| s@) == plain_line(cs@.subrange(from as int, to as int)),
{
    let mut v: Vec<Seg> = Vec::new();
    if from < to {
        let text = string_of(cs, from, to);
        v.push(Seg { text, style: Style { fg: None, italic: false } });
        assert(v@.map_values(|s: Seg| s@) =~= plain_line(cs@.subrange(from as int, to as int)));
    } else {
        assert(v@.map_values(|s: Seg| s@) =~= plain_line(cs@.subrange(from as int, to as int)));
    }
    v
}

// ---------------------------------------------------------------------------
// Highlight events and spans
// ---------------------------------------------------------------------------

/// The style of the innermost open highlight, or the plain style.
pub open spec fn style_at(stack: Seq<usize>, theme: Seq<Style>) -> Style {
    if stack.len() > 0 && stack.last() < theme.len() {
        theme[stack.last() as int]
    } else {
        plain_style()
    }
}

/// The open highlights and the styled byte spans after a list of events.
pub open spec fn fold_events(events: Seq<HlEvent>, theme: Seq<Style>) -> (Seq<usize>, Seq<(usize, usize, Style)>)
    decreases events.len(),
{
    if events.len() == 0 {
        (Seq::empty(), Seq::empty())
    } else {
        let (stack, spans) = fold_events(events.drop_last(), theme);
        match events.last() {
            HlEvent::Start(h) => (stack.push(h), spans),
            HlEvent::End => (if stack.len() > 0 {
                stack.drop_last()
            } else {
                stack
            }, spans),
            HlEvent::Source { start, end } => (stack, spans.push((start, end, style_at(stack, theme)))),
        }
    }
}

/// Fold the event stream into `(start, end, style)` byte spans, each styled
/// by its innermost open highlight.
pub fn spans_of(events: &Vec<HlEvent>, theme: &Vec<Style>) -> (res: Vec<(usize, usize, Style)>)
    ensures
        res@ == fold_events(events@, theme@).1,
{
    let mut stack: Vec<usize> = Vec::new();
    let mut spans: Vec<(usize, usize, Style)> = Vec::new();
    let mut i: usize = 0;
    assert(events@.take(0) =~= Seq::<HlEvent>::empty());
    while i < events.len()
        invariant
            i <= events@.len(),
            (stack@, spans@) == fold_events(events@.take(i as int), theme@),
        decreases events@.len() - i,
    {
        assert(events@.take(i + 1).drop_last() =~= events@.take(i as int));
        match events[i] {
            HlEvent::Start(h) => {
                stack.push(h);
            },
            HlEvent::End => {
                let _ = stack.pop();
            },
            HlEvent::Source { start, end } => {
                let style = if stack.len() > 0 && stack[stack.len() - 1] < theme.len() {
                    theme[stack[stack.len() - 1]]
                } else {
                    Style { fg: None, italic: false }
                };
                spans.push((start, end, style));
            },
        }
        i += 1;
    }
    assert(events@.take(i as int) =~= events@);
    spans
}

/// One piece of a line as a segment list: nothing when empty.
pub open spec fn seg_line(p: Seq<char>, st: Style) -> Seq<SegView> {
    if p.len() == 0 {
        Seq::empty()
    } else {
        seq![SegView { text: p, style: st }]
    }
}

/// The lines after adding the `'\n'`-separated pieces of a span: the first
/// piece continues the last line, every later piece starts a new line; empty
/// pieces add no segment.
pub open spec fn add_pieces(lines: Seq<Seq<SegView>>, pieces: Seq<Seq<char>>, st: Style) -> Seq<
    Seq<SegView>,
>
    decreases pieces.len(),
{
    if pieces.len() == 0 {
        lines
    } else if pieces.len() == 1 {
        if pieces[0].len() == 0 {
            lines
        } else {
            lines.update(lines.len() - 1, lines.last().push(SegView { text: pieces[0], style: st }))
        }
    } else {
        add_pieces(lines, pieces.drop_last(), st).push(seg_line(pieces.last(), st))
    }
}

/// Whether a span names whole characters of a text with these bytes.
pub open spec fn usable_span(bytes: Seq<u8>, start: usize, end: usize) -> bool {
    &&& start < end
    &&& end <= bytes.len()
    &&& vstd::utf8::is_char_boundary(bytes, start as int)
    &&& vstd::utf8::is_char_boundary(bytes, end as int)
}

/// Whether every span that lies within the bytes starts and ends on
/// character boundaries (cutting the text there would otherwise panic).
pub open spec fn spans_fit(bytes: Seq<u8>, spans: Seq<(usize, usize, Style)>) -> bool {
    forall|k: int|
        0 <= k < spans.len() && spans[k].0 < spans[k].1 && spans[k].1 <= bytes.len()
            ==> vstd::utf8::is_char_boundary(bytes, #[trigger] spans[k].0 as int)
            && vstd::utf8::is_char_boundary(bytes, spans[k].1 as int)
}

/// The styled lines of a text cut from its spans: each usable span's text
/// is added piece by piece; other spans are skipped.
pub open spec fn spec_split_lines(bytes: Seq<u8>, spans: Seq<(usize, usize, Style)>) -> Seq<
    Seq<SegView>,
>
    decreases spans.len(),
{
    if spans.len() == 0 {
        seq![Seq::empty()]
    } else {
        let prev = spec_split_lines(bytes, spans.drop_last());
        let (start, end, st) = spans.last();
        if usable_span(bytes, start, end) {
            add_pieces(
                prev,
                split_on(vstd::utf8::decode_utf8(bytes.subrange(start as int, end as int)), '\n'),
                st,
            )
        } else {
            prev
        }
    }
}

/// Add the `'\n'`-separated pieces of `piece` to the lines.
fn add_text(lines: &mut Vec<Vec<Seg>>, piece: &str, st: Style)
    requires
        old(lines)@.len() > 0,
    ensures
        lines_view(final(lines)@) == add_pieces(lines_view(old(lines)@), split_on(piece@, '\n'), st),
        final(lines)@.len() > 0,
{
    let ghost l0 = lines_view(lines@);
    let cs = chars_of(piece);
    let mut cur: usize = 0;
    let mut first = true;
    let mut i: usize = 0;
    proof {
        assert(cs@.take(0) =~= Seq::<char>::empty());
        assert(split_on(cs@.take(0), '\n').drop_last() =~= Seq::<Seq<char>>::empty());
        assert(cs@.subrange(0, 0) =~= Seq::<char>::empty());
    }
    while i < cs.len()
        invariant
            cur <= i <= cs@.len(),
            cs@ == piece@,
            lines@.len() > 0,
            l0.len() > 0,
            lines_view(lines@) == add_pieces(l0, split_on(cs@.take(i as int), '\n').drop_last(), st),
            split_on(cs@.take(i as int), '\n').last() == cs@.subrange(cur as int, i as int),
            split_on(cs@.take(i as int), '\n').len() >= 1,
            first == (split_on(cs@.take(i as int), '\n').len() == 1),
        decreases cs@.len() - i,
    {
        let ghost pre = cs@.take(i as int);
        let ghost next = cs@.take(i + 1);
        let ghost sp = split_on(pre, '\n');
        assert(next.drop_last() =~= pre);
        assert(next.last() == cs@[i as int]);
        if cs[i] == '\n' {
            finish_piece(lines, &cs, cur, i, first, st);
            proof {
                assert(split_on(next, '\n').drop_last() =~= sp);
                assert(sp =~= sp.drop_last().push(sp.last()));
                assert(sp.drop_last().len() == sp.len() - 1);
                if sp.len() > 1 {
                    assert(sp.drop_last().push(sp.last()).drop_last() =~= sp.drop_last());
                }
            }
            first = false;
            cur = i + 1;
            assert(cs@.subrange(cur as int, (i + 1) as int) =~= Seq::<char>::empty());
        } else {
            proof {
                let p = cs@.subrange(cur as int, (i + 1) as int);
                assert(p =~= sp.last().push(cs@[i as int]));
                assert(split_on(next, '\n').drop_last() =~= sp.drop_last());
            }
        }
        i += 1;
    }
    proof {
        let sp = split_on(cs@.take(i as int), '\n');
        assert(cs@.take(i as int) =~= piece@);
        assert(sp =~= sp.drop_last().push(sp.last()));
        if sp.len() > 1 {
            assert(sp.drop_last().push(sp.last()).drop_last() =~= sp.drop_last());
        }
    }
    finish_piece(lines, &cs, cur, i, first, st);
}

/// Add the piece `cs[from..to]`: to the last line if it is the first piece,
/// else as a new line.
fn finish_piece(lines: &mut Vec<Vec<Seg>>, cs: &Vec<char>, from: usize, to: usize, first: bool, st: Style)
    requires
        from <= to <= cs@.len(),
        old(lines)@.len() > 0,
    ensures
        final(lines)@.len() > 0,
        first ==> lines_view(final(lines)@) == add_pieces(
            lines_view(old(lines)@),
            seq![cs@.subrange(from as int, to as int)],
            st,
        ),
        !first ==> lines_view(final(lines)@) == lines_view(old(lines)@).push(
            seg_line(cs@.subrange(from as int, to as int), st),
        ),
{
    let ghost before = lines_view(lines@);
    let ghost p = cs@.subrange(from as int, to as int);
    if first {
        if from < to {
            let text = string_of(cs, from, to);
            let n = lines.len();
            let ghost last = lines@[n - 1];
            lines[n - 1].push(Seg { text, style: st });
            proof {
                assert(lines@[n - 1]@.map_values(|s: Seg| s@) =~= last@.map_values(|s: Seg| s@).push(
                    SegView { text: p, style: st },
                ));
                assert(lines_view(lines@) =~= before.update(
                    before.len() - 1,
                    before.last().push(SegView { text: p, style: st }),
                ));
            }
        } else {
            assert(lines_view(lines@) =~= add_pieces(before, seq![p], st));
        }
    } else {
        let mut line: Vec<Seg> = Vec::new();
        if from < to {
            let text = string_of(cs, from, to);
            line.push(Seg { text, style: st });
        }
        assert(line@.map_values(|s: Seg| s@) =~= seg_line(p, st));
        lines.push(line);
        assert(lines_view(lines@) =~= before.push(seg_line(p, st)));
    }
}

/// Whether every span within `source` starts and ends on character
/// boundaries.
pub fn spans_fit_source(source: &str, spans: &Vec<(usize, usize, Style)>) -> (res: bool)
    ensures
        res == spans_fit(source.spec_bytes(), spans@),
{
    let n = source.as_bytes().len();
    let mut k: usize = 0;
    while k < spans.len()
        invariant
            k <= spans@.len(),
            n == source.spec_bytes().len(),
            forall|j: int|
                0 <= j < k && spans@[j].0 < spans@[j].1 && spans@[j].1 <= n
                    ==> vstd::utf8::is_char_boundary(source.spec_bytes(), #[trigger] spans@[j].0 as int)
                    && vstd::utf8::is_char_boundary(source.spec_bytes(), spans@[j].1 as int),
        decreases spans@.len() - k,
    {
        let (start, end, _) = spans[k];
        if start < end && end <= n {
            if !source.is_char_boundary(start) || !source.is_char_boundary(end) {
                return false;
            }
        }
        k += 1;
    }
    true
}

/// Split a contiguous `(start, end, style)` tiling of `source` (byte
/// offsets) into per-line segments, breaking at every `'\n'`. Empty or
/// out-of-range spans are skipped.
pub fn split_into_lines(source: &str, spans: &Vec<(usize, usize, Style)>) -> (res: Vec<Vec<Seg>>)
    requires
        spans_fit(source.spec_bytes(), spans@),
    ensures
        lines_view(res@) == spec_split_lines(source.spec_bytes(), spans@),
{
    let ghost b = source.spec_bytes();
    let mut lines: Vec<Vec<Seg>> = Vec::new();
    let first: Vec<Seg> = Vec::new();
    assert(first@.map_values(|s: Seg| s@) =~= Seq::<SegView>::empty());
    lines.push(first);
    let mut k: usize = 0;
    proof {
        assert(spans@.take(0) =~= Seq::<(usize, usize, Style)>::empty());
        assert(lines_view(lines@) =~= seq![Seq::<SegView>::empty()]);
    }
    while k < spans.len()
        invariant
            k <= spans@.len(),
            b == source.spec_bytes(),
            spans_fit(b, spans@),
            lines@.len() > 0,
            lines_view(lines@) == spec_split_lines(b, spans@.take(k as int)),
        decreases spans@.len() - k,
    {
        assert(spans@.take(k + 1).drop_last() =~= spans@.take(k as int));
        let (start, end, style) = spans[k];
        assert(spans@.take(k + 1).last() == (start, end, style));
        let n = source.as_bytes().len();
        if start < end && end <= n {
            assert(spans@[k as int].0 == start);
            let (head, _) = source.split_at(end);
            proof {
                assert(vstd::utf8::valid_utf8(b));
                vstd::utf8::valid_utf8_split(b, end as int);
                assert(head.spec_bytes() =~= b.subrange(0, end as int));
                vstd::utf8::is_char_boundary_iff_not_is_continuation_byte(b, start as int);
                vstd::utf8::is_char_boundary_iff_not_is_continuation_byte(
                    b.subrange(0, end as int),
                    start as int,
                );
            }
            let (_, piece) = head.split_at(start);
            proof {
                assert(piece.spec_bytes() =~= b.subrange(start as int, end as int));
                assert(vstd::utf8::decode_utf8(vstd::utf8::encode_utf8(piece@)) == piece@);
                assert(piece@ == vstd::utf8::decode_utf8(b.subrange(start as int, end as int)));
                assert(usable_span(b, start, end));
            }
            add_text(&mut lines, piece, style);
        } else {
            assert(!usable_span(b, start, end));
        }
        k += 1;
    }
    assert(spans@.take(k as int) =~= spans@);
    lines
}

/// The text of a styled line: its segments' texts, in order.
pub open spec fn line_text(l: Seq<SegView>) -> Seq<char>
    decreases l.len(),
{
    if l.len() == 0 {
        Seq::empty()
    } else {
        line_text(l.drop_last()) + l.last().text
    }
}

/// The text of each styled line.
pub open spec fn texts(lines: Seq<Seq<SegView>>) -> Seq<Seq<char>> {
    lines.map_values(|l: Seq<SegView>| line_text(l))
}

/// Whether the spans cover the bytes `0..n` one after the other, each on
/// whole characters and none empty.
pub open spec fn tiles(bytes: Seq<u8>, spans: Seq<(usize, usize, Style)>, n: int) -> bool
    decreases spans.len(),
{
    if spans.len() == 0 {
        n == 0
    } else {
        let (start, end, _) = spans.last();
        &&& end == n
        &&& usable_span(bytes, start, end)
        &&& tiles(bytes, spans.drop_last(), start as int)
    }
}

/// Adding a span's pieces glues them onto the texts of the lines.
proof fn lemma_add_pieces_texts(lines: Seq<Seq<SegView>>, pieces: Seq<Seq<char>>, st: Style)
    requires
        lines.len() > 0,
        pieces.len() >= 1,
    ensures
        texts(add_pieces(lines, pieces, st)) == glue(texts(lines), pieces),
    decreases pieces.len(),
{
    let x = texts(lines);
    if pieces.len() == 1 {
        if pieces[0].len() == 0 {
            assert(x.last() + pieces[0] =~= x.last());
            assert(glue(x, pieces) =~= x);
        } else {
            let l2 = lines.last().push(SegView { text: pieces[0], style: st });
            assert(l2.drop_last() =~= lines.last());
            assert(texts(lines.update(lines.len() - 1, l2)) =~= glue(x, pieces));
        }
    } else {
        let p0 = pieces.drop_last();
        let p = pieces.last();
        lemma_add_pieces_texts(lines, p0, st);
        let prev = add_pieces(lines, p0, st);
        let sl = seg_line(p, st);
        if p.len() == 0 {
            assert(line_text(sl) =~= p);
        } else {
            assert(sl.drop_last() =~= Seq::<SegView>::empty());
            assert(line_text(Seq::<SegView>::empty()) =~= Seq::<char>::empty());
            assert(Seq::<char>::empty() + p =~= p);
            assert(line_text(sl) =~= p);
        }
        assert(texts(prev.push(sl)) =~= texts(prev).push(p));
        assert(glue(x, p0).push(p) =~= glue(x, pieces));
    }
}

/// The text before a span's end is the text before its start followed by
/// the span's own text.
proof fn lemma_decode_prefix(bytes: Seq<u8>, s: int, n: int)
    requires
        vstd::utf8::valid_utf8(bytes),
        0 <= s < n <= bytes.len(),
        vstd::utf8::is_char_boundary(bytes, s),
        vstd::utf8::is_char_boundary(bytes, n),
    ensures
        vstd::utf8::decode_utf8(bytes.subrange(0, n)) == vstd::utf8::decode_utf8(
            bytes.subrange(0, s),
        ) + vstd::utf8::decode_utf8(bytes.subrange(s, n)),
{
    let pre = bytes.subrange(0, n);
    vstd::utf8::valid_utf8_split(bytes, n);
    vstd::utf8::is_char_boundary_iff_not_is_continuation_byte(bytes, s);
    vstd::utf8::is_char_boundary_iff_not_is_continuation_byte(pre, s);
    assert(pre[s] == bytes[s]);
    vstd::utf8::decode_utf8_split(pre, s);
    assert(pre.subrange(0, s) =~= bytes.subrange(0, s));
    assert(pre.subrange(s, pre.len() as int) =~= bytes.subrange(s, n));
}

proof fn lemma_tiles_texts(bytes: Seq<u8>, spans: Seq<(usize, usize, Style)>, n: int)
    requires
        vstd::utf8::valid_utf8(bytes),
        tiles(bytes, spans, n),
    ensures
        texts(spec_split_lines(bytes, spans)) == split_on(
            vstd::utf8::decode_utf8(bytes.subrange(0, n)),
            '\n',
        ),
    decreases spans.len(),
{
    if spans.len() == 0 {
        assert(bytes.subrange(0, 0) =~= Seq::<u8>::empty());
        let l0: Seq<SegView> = Seq::empty();
        assert(texts(seq![l0]) =~= seq![Seq::<char>::empty()]);
    } else {
        let (start, end, st) = spans.last();
        let pre = spans.drop_last();
        lemma_tiles_texts(bytes, pre, start as int);
        let prev = spec_split_lines(bytes, pre);
        let d1 = vstd::utf8::decode_utf8(bytes.subrange(0, start as int));
        let d2 = vstd::utf8::decode_utf8(bytes.subrange(start as int, end as int));
        lemma_split_nonempty(d1, '\n');
        lemma_split_nonempty(d2, '\n');
        assert(prev.len() == texts(prev).len());
        lemma_add_pieces_texts(prev, split_on(d2, '\n'), st);
        lemma_split_concat(d1, d2, '\n');
        lemma_decode_prefix(bytes, start as int, end as int);
    }
}

/// Cutting a text into lines along spans that cover it keeps the text: the
/// segments of each line spell that line of the source.
pub proof fn lemma_split_lines_keep_text(source: Seq<char>, spans: Seq<(usize, usize, Style)>)
    requires
        tiles(vstd::utf8::encode_utf8(source), spans, vstd::utf8::encode_utf8(source).len() as int),
    ensures
        texts(spec_split_lines(vstd::utf8::encode_utf8(source), spans)) == split_on(source, '\n'),
{
    let b = vstd::utf8::encode_utf8(source);
    vstd::utf8::encode_utf8_valid_utf8(source);
    vstd::utf8::encode_utf8_decode_utf8(source);
    lemma_tiles_texts(b, spans, b.len() as int);
    assert(b.subrange(0, b.len() as int) =~= b);
}

/// Plain lines keep the text: each line's segments spell that line of the
/// source.
pub proof fn lemma_plain_keeps_text(source: Seq<char>)
    ensures
        texts(spec_plain(source)) == split_on(source, '\n'),
{
    let sp = split_on(source, '\n');
    assert forall|i: int| 0 <= i < sp.len() implies #[trigger] line_text(plain_line(sp[i])) == sp[i] by {
        if sp[i].len() > 0 {
            let l = plain_line(sp[i]);
            assert(l.drop_last() =~= Seq::<SegView>::empty());
            assert(line_text(Seq::<SegView>::empty()) =~= Seq::<char>::empty());
            assert(Seq::<char>::empty() + sp[i] =~= sp[i]);
            assert(line_text(l) =~= sp[i]);
        }
    }
    assert(texts(spec_plain(source)) =~= sp);
}

// ---------------------------------------------------------------------------
// tree-sitter
// ---------------------------------------------------------------------------

/// The query text `tree_sitter_rust::HIGHLIGHTS_QUERY`; nothing is claimed of
/// its contents.
#[verifier::external_body]
fn rust_highlights_query() -> &'static str {
    tree_sitter_rust::HIGHLIGHTS_QUERY
}

/// The query text `tree_sitter_rust::INJECTIONS_QUERY`; nothing is claimed of
/// its contents.
#[verifier::external_body]
fn rust_injections_query() -> &'static str {
    tree_sitter_rust::INJECTIONS_QUERY
}

/// The query text `tree_sitter_typescript::HIGHLIGHTS_QUERY`; nothing is
/// claimed of its contents.
#[verifier::external_body]
fn typescript_highlights_query() -> &'static str {
    tree_sitter_typescript::HIGHLIGHTS_QUERY
}

/// The query text `tree_sitter_typescript::LOCALS_QUERY`; nothing is claimed
/// of its contents.
#[verifier::external_body]
fn typescript_locals_query() -> &'static str {
    tree_sitter_typescript::LOCALS_QUERY
}

/// The query text `tree_sitter_javascript::HIGHLIGHT_QUERY`; nothing is
/// claimed of its contents.
#[verifier::external_body]
fn javascript_highlight_query() -> &'static str {
    tree_sitter_javascript::HIGHLIGHT_QUERY
}

/// The query text `tree_sitter_javascript::JSX_HIGHLIGHT_QUERY`; nothing is
/// claimed of its contents.
#[verifier::external_body]
fn javascript_jsx_highlight_query() -> &'static str {
    tree_sitter_javascript::JSX_HIGHLIGHT_QUERY
}

/// The query text `tree_sitter_javascript::INJECTIONS_QUERY`; nothing is
/// claimed of its contents.
#[verifier::external_body]
fn javascript_injections_query() -> &'static str {
    tree_sitter_javascript::INJECTIONS_QUERY
}

/// The query text `tree_sitter_javascript::LOCALS_QUERY`; nothing is claimed
/// of its contents.
#[verifier::external_body]
fn javascript_locals_query() -> &'static str {
    tree_sitter_javascript::LOCALS_QUERY
}

/// The query text `tree_sitter_ruby::HIGHLIGHTS_QUERY`; nothing is claimed of
/// its contents.
#[verifier::external_body]
fn ruby_highlights_query() -> &'static str {
    tree_sitter_ruby::HIGHLIGHTS_QUERY
}

/// The query text `tree_sitter_ruby::LOCALS_QUERY`; nothing is claimed of its
/// contents.
#[verifier::external_body]
fn ruby_locals_query() -> &'static str {
    tree_sitter_ruby::LOCALS_QUERY
}

/// The query text `tree_sitter_python::HIGHLIGHTS_QUERY`; nothing is claimed
/// of its contents.
#[verifier::external_body]
fn python_highlights_query() -> &'static str {
    tree_sitter_python::HIGHLIGHTS_QUERY
}

/// The query text `tree_sitter_json::HIGHLIGHTS_QUERY`; nothing is claimed of
/// its contents.
#[verifier::external_body]
fn json_highlights_query() -> &'static str {
    tree_sitter_json::HIGHLIGHTS_QUERY
}

/// The byte ranges of some spans.
pub open spec fn span_ranges(spans: Seq<(usize, usize, Style)>) -> Seq<(usize, usize)> {
    spans.map_values(|sp: (usize, usize, Style)| (sp.0, sp.1))
}

/// Folding the events keeps the ranges of their `Source` events, in order.
proof fn lemma_fold_ranges(events: Seq<HlEvent>, theme: Seq<Style>)
    ensures
        span_ranges(fold_events(events, theme).1) == source_ranges(events),
    decreases events.len(),
{
    if events.len() > 0 {
        lemma_fold_ranges(events.drop_last(), theme);
        let (stack, spans) = fold_events(events.drop_last(), theme);
        match events.last() {
            HlEvent::Source { start, end } => {
                assert(span_ranges(spans.push((start, end, style_at(stack, theme)))) =~= span_ranges(
                    spans,
                ).push((start, end)));
            },
            _ => {},
        }
    }
}

/// Spans whose ranges follow one another from 0 to `n`, and that fall on
/// character boundaries, tile the first `n` bytes.
proof fn lemma_contiguous_tiles(bytes: Seq<u8>, spans: Seq<(usize, usize, Style)>, n: int)
    requires
        spans_fit(bytes, spans),
        0 <= n <= bytes.len(),
        contiguous(span_ranges(spans), n),
    ensures
        tiles(bytes, spans, n),
    decreases spans.len(),
{
    if spans.len() > 0 {
        let k = spans.len() - 1;
        let last = spans[k];
        assert(span_ranges(spans).last() == (last.0, last.1));
        assert(span_ranges(spans).drop_last() =~= span_ranges(spans.drop_last()));
        assert(spans[k].0 < spans[k].1 && spans[k].1 <= bytes.len());
        assert(spans_fit(bytes, spans.drop_last())) by {
            assert forall|j: int|
                0 <= j < spans.drop_last().len() && spans.drop_last()[j].0 < spans.drop_last()[j].1
                    && spans.drop_last()[j].1 <= bytes.len() implies vstd::utf8::is_char_boundary(
                bytes,
                #[trigger] spans.drop_last()[j].0 as int,
            ) && vstd::utf8::is_char_boundary(bytes, spans.drop_last()[j].1 as int) by {
                assert(spans.drop_last()[j] == spans[j]);
            }
        }
        lemma_contiguous_tiles(bytes, spans.drop_last(), last.0 as int);
    }
}

/// The lines of `source` styled from an outcome of tree-sitter's
/// highlighter: the lines cut from the spans its events fold into under
/// `theme` when those spans fall on character boundaries, and plain lines
/// when highlighting failed or a span would cut a character.
pub open spec fn spec_lines_from_events(
    source: Seq<char>,
    events: Option<Seq<HlEvent>>,
    theme: Seq<Style>,
) -> Seq<Seq<SegView>> {
    match events {
        Some(ev) => if spans_fit(vstd::utf8::encode_utf8(source), fold_events(ev, theme).1) {
            spec_split_lines(vstd::utf8::encode_utf8(source), fold_events(ev, theme).1)
        } else {
            spec_plain(source)
        },
        None => spec_plain(source),
    }
}

/// Style the lines of `source` from an outcome of tree-sitter's highlighter
/// (see [`spec_lines_from_events`]). When the events' `Source` ranges cover
/// the source one after another, the lines' segments spell the source's
/// lines.
pub fn lines_from_events(source: &str, events: Option<Vec<HlEvent>>, theme: &Vec<Style>) -> (res: Vec<
    Vec<Seg>,
>)
    ensures
        lines_view(res@) == spec_lines_from_events(source@, events_view(events), theme@),
        (events matches Some(ev) ==> contiguous(source_ranges(ev@), source.spec_bytes().len() as int))
            ==> texts(lines_view(res@)) == split_on(source@, '\n'),
{
    proof {
        lemma_plain_keeps_text(source@);
    }
    match events {
        None => plain(source),
        Some(events) => {
            let spans = spans_of(&events, theme);
            if !spans_fit_source(source, &spans) {
                return plain(source);
            }
            proof {
                let b = source.spec_bytes();
                if contiguous(source_ranges(events@), b.len() as int) {
                    lemma_fold_ranges(events@, theme@);
                    lemma_contiguous_tiles(b, spans@, b.len() as int);
                    lemma_split_lines_keep_text(source@, spans@);
                }
            }
            split_into_lines(source, &spans)
        },
    }
}

// ---------------------------------------------------------------------------
// The highlighter
// ---------------------------------------------------------------------------

/// One configured grammar and the file extensions it is used for.
pub struct Lang {
    exts: Vec<&'static str>,
    config: Config,
}

/// The extensions of a grammar.
pub closed spec fn exts_view(l: Lang) -> Seq<Seq<char>> {
    l.exts@.map_values(|e: &str| e@)
}

/// The grammars a highlighter knows, by their extensions, in the order they
/// are tried: Rust, TypeScript, TSX, JavaScript, Ruby, Python, JSON.
pub open spec fn known_exts() -> Seq<Seq<Seq<char>>> {
    seq![
        seq!["rs"@],
        seq!["ts"@, "mts"@, "cts"@],
        seq!["tsx"@],
        seq!["js"@, "mjs"@, "cjs"@, "jsx"@],
        seq!["rb"@, "rake"@, "gemspec"@],
        seq!["py"@, "pyi"@],
        seq!["json"@, "jsonc"@],
    ]
}

/// The texts of the highlight queries that the grammar crates bundle.
pub struct QueryTexts {
    pub rust_highlights: Seq<char>,
    pub rust_injections: Seq<char>,
    pub typescript_highlights: Seq<char>,
    pub typescript_locals: Seq<char>,
    pub javascript_highlights: Seq<char>,
    pub jsx_highlights: Seq<char>,
    pub javascript_injections: Seq<char>,
    pub javascript_locals: Seq<char>,
    pub ruby_highlights: Seq<char>,
    pub ruby_locals: Seq<char>,
    pub python_highlights: Seq<char>,
    pub json_highlights: Seq<char>,
}

/// Two queries one after the other, on separate lines.
pub open spec fn joined(x: Seq<char>, y: Seq<char>) -> Seq<char> {
    x + "\n"@ + y
}

/// The description of a configuration.
pub open spec fn make_key(
    g: Grammar,
    name: Seq<char>,
    highlights: Seq<char>,
    injections: Seq<char>,
    locals: Seq<char>,
) -> ConfigKeyView {
    ConfigKeyView { grammar: g, name, highlights, injections, locals }
}

/// Whether a configuration builds from this description.
pub open spec fn key_builds(k: ConfigKeyView) -> bool {
    config_builds(k.grammar, k.name, k.highlights, k.injections, k.locals)
}

/// The configurations tried for grammar `k` of [`known_exts`], in order,
/// with the queries `q`. TypeScript and TSX take the JavaScript (and JSX)
/// queries before their own, and JavaScript takes its JSX queries; each of
/// these falls back to its own queries alone.
pub open spec fn tries(q: QueryTexts, k: int) -> Seq<ConfigKeyView> {
    if k == 0 {
        seq![make_key(Grammar::Rust, "rust"@, q.rust_highlights, q.rust_injections, ""@)]
    } else if k == 1 {
        seq![
            make_key(
                Grammar::TypeScript,
                "typescript"@,
                joined(q.javascript_highlights, q.typescript_highlights),
                ""@,
                q.typescript_locals,
            ),
            make_key(Grammar::TypeScript, "typescript"@, q.typescript_highlights, ""@, q.typescript_locals),
        ]
    } else if k == 2 {
        seq![
            make_key(
                Grammar::Tsx,
                "tsx"@,
                joined(joined(q.javascript_highlights, q.jsx_highlights), q.typescript_highlights),
                ""@,
                q.typescript_locals,
            ),
            make_key(Grammar::Tsx, "tsx"@, q.typescript_highlights, ""@, q.typescript_locals),
        ]
    } else if k == 3 {
        seq![
            make_key(
                Grammar::JavaScript,
                "javascript"@,
                joined(q.javascript_highlights, q.jsx_highlights),
                q.javascript_injections,
                q.javascript_locals,
            ),
            make_key(
                Grammar::JavaScript,
                "javascript"@,
                q.javascript_highlights,
                q.javascript_injections,
                q.javascript_locals,
            ),
        ]
    } else if k == 4 {
        seq![make_key(Grammar::Ruby, "ruby"@, q.ruby_highlights, ""@, q.ruby_locals)]
    } else if k == 5 {
        seq![make_key(Grammar::Python, "python"@, q.python_highlights, ""@, ""@)]
    } else {
        seq![make_key(Grammar::Json, "json"@, q.json_highlights, ""@, ""@)]
    }
}

/// The first of the tried configurations that builds, if any.
pub open spec fn chosen_key(ts: Seq<ConfigKeyView>) -> Option<ConfigKeyView>
    decreases ts.len(),
{
    if ts.len() == 0 {
        None
    } else if key_builds(ts[0]) {
        Some(ts[0])
    } else {
        chosen_key(ts.drop_first())
    }
}

/// The grammars among the first `k` known ones that get configured with the
/// queries `q`: each one's extensions, and the configuration it uses (built
/// from the first of its tries that builds, for the recognised capture
/// names).
pub open spec fn built_langs(q: QueryTexts, k: nat) -> Seq<(Seq<Seq<char>>, ConfigView)>
    decreases k,
{
    if k == 0 {
        Seq::empty()
    } else {
        built_langs(q, (k - 1) as nat) + entry_for(known_exts()[k - 1], chosen_config(q, k - 1))
    }
}

/// The choice among one try.
proof fn lemma_chosen_one(a: ConfigKeyView)
    ensures
        chosen_key(seq![a]) == if key_builds(a) {
            Some(a)
        } else {
            None
        },
{
    assert(seq![a].drop_first() =~= Seq::<ConfigKeyView>::empty());
    assert(chosen_key(Seq::<ConfigKeyView>::empty()) == None::<ConfigKeyView>);
    assert(seq![a][0] == a);
}

/// The choice among two tries.
proof fn lemma_chosen_two(a: ConfigKeyView, b: ConfigKeyView)
    ensures
        chosen_key(seq![a, b]) == if key_builds(a) {
            Some(a)
        } else if key_builds(b) {
            Some(b)
        } else {
            None
        },
{
    assert(seq![a, b].drop_first() =~= seq![b]);
    assert(seq![a, b][0] == a);
    lemma_chosen_one(b);
}

/// The configuration grammar `k` uses with the queries `q`, if any of its
/// tries builds: the first that does, for the recognised capture names.
pub open spec fn chosen_config(q: QueryTexts, k: int) -> Option<ConfigView> {
    match chosen_key(tries(q, k)) {
        Some(key) => Some(ConfigView { key: key, names: spec_capture_names() }),
        None => None,
    }
}

/// A highlighter: the configured grammars and the theme.
pub struct Highlighter {
    langs: Vec<Lang>,
    /// Parallel to the capture names.
    theme: Vec<Style>,
}

impl Highlighter {
    /// The extensions of each configured grammar, in order.
    pub closed spec fn exts_table(&self) -> Seq<Seq<Seq<char>>> {
        Seq::new(self.langs@.len(), |i: int| exts_view(self.langs@[i]))
    }

    /// Each configured grammar's extensions and configuration, in order.
    pub closed spec fn entries(&self) -> Seq<(Seq<Seq<char>>, ConfigView)> {
        entries_of(self.langs@)
    }

    /// The entries are the extension table paired with the configurations.
    pub proof fn lemma_entries(&self)
        ensures
            self.entries().len() == self.exts_table().len(),
            forall|i: int|
                0 <= i < self.entries().len() ==> #[trigger] self.entries()[i] == (
                self.exts_table()[i],
                self.config_at(i),
            ),
    {
    }

    /// The grammar at index `i`.
    pub closed spec fn lang_at(&self, i: int) -> Lang {
        self.langs@[i]
    }

    /// What the configuration of grammar `i` was built from.
    pub closed spec fn config_at(&self, i: int) -> ConfigView {
        self.langs@[i].config@
    }

    /// The style of each capture name.
    pub closed spec fn theme_view(&self) -> Seq<Style> {
        self.theme@
    }
}

/// `x` followed by a newline and `y`.
fn join_queries(x: &str, y: &str) -> (res: String)
    ensures
        res@ == x@ + "\n"@ + y@,
{
    let mut s = String::from_str(x);
    s.append("\n");
    s.append(y);
    s
}

/// Configure a grammar for the recognised capture names, or `None` if its
/// queries do not compile.
fn build(
    grammar: Grammar,
    name: &str,
    highlights: &str,
    injections: &str,
    locals: &str,
) -> (res: Option<Config>)
    ensures
        res is Some == config_builds(grammar, name@, highlights@, injections@, locals@),
        res matches Some(c) ==> c@ == (ConfigView {
            key: ConfigKeyView {
                grammar: grammar,
                name: name@,
                highlights: highlights@,
                injections: injections@,
                locals: locals@,
            },
            names: spec_capture_names(),
        }),
{
    let names = capture_names();
    let key = ConfigKey {
        grammar,
        name: String::from_str(name),
        highlights: String::from_str(highlights),
        injections: String::from_str(injections),
        locals: String::from_str(locals),
    };
    match new_config(key) {
        Some(mut cfg) => {
            configure(&mut cfg, names.as_slice());
            Some(cfg)
        },
        None => None,
    }
}

/// The extensions and configuration of each grammar in a list.
pub closed spec fn entries_of(langs: Seq<Lang>) -> Seq<(Seq<Seq<char>>, ConfigView)> {
    Seq::new(langs.len(), |i: int| (exts_view(langs[i]), langs[i].config@))
}

/// The entry of a grammar for `exts`, if it was configured.
pub open spec fn entry_for(exts: Seq<Seq<char>>, cfg: Option<ConfigView>) -> Seq<(Seq<Seq<char>>, ConfigView)> {
    match cfg {
        Some(c) => seq![(exts, c)],
        None => Seq::empty(),
    }
}

/// The view of an optional configuration.
pub open spec fn config_view(cfg: Option<Config>) -> Option<ConfigView> {
    match cfg {
        Some(c) => Some(c@),
        None => None,
    }
}

/// Add a grammar for `exts` if it was configured.
fn add_lang(langs: &mut Vec<Lang>, exts: Vec<&'static str>, cfg: Option<Config>)
    ensures
        entries_of(final(langs)@) == entries_of(old(langs)@) + entry_for(
            exts@.map_values(|e: &str| e@),
            config_view(cfg),
        ),
{
    let ghost before = entries_of(langs@);
    let ghost ev = exts@.map_values(|e: &str| e@);
    let ghost cv = config_view(cfg);
    match cfg {
        Some(config) => {
            langs.push(Lang { exts, config });
            assert(entries_of(langs@) =~= before + entry_for(ev, cv));
        },
        None => {
            assert(before + entry_for(ev, cv) =~= before);
        },
    }
}

/// A configuration tried first, and if it does not build, a second.
pub open spec fn first_built(a: Option<ConfigView>, b: Option<ConfigView>) -> Option<ConfigView> {
    match a {
        Some(c) => Some(c),
        None => b,
    }
}

/// One byte-ish character lowered if it is an ASCII capital.
pub open spec fn lower_char(c: char) -> char {
    if 'A' <= c && c <= 'Z' {
        (((c as u32) + 32) as u8) as char
    } else {
        c
    }
}

/// The extension of a path: the text after its last `.` (the whole path if
/// it has none), in ASCII lower case.
pub open spec fn extension_of(path: Seq<char>) -> Seq<char> {
    let e = split_on(path, '.').last();
    Seq::new(e.len(), |i: int| lower_char(e[i]))
}

/// The index of the first grammar whose extensions include `ext`.
pub open spec fn lang_index(table: Seq<Seq<Seq<char>>>, ext: Seq<char>, from: int) -> Option<nat>
    decreases table.len() - from,
{
    if from < 0 || from >= table.len() {
        None
    } else if table[from].contains(ext) {
        Some(from as nat)
    } else {
        lang_index(table, ext, from + 1)
    }
}

/// The extension of `path`.
fn extension(path: &str) -> (res: String)
    ensures
        res@ == extension_of(path@),
{
    let cs = chars_of(path);
    let mut start: usize = 0;
    let mut i: usize = 0;
    assert(cs@.take(0) =~= Seq::<char>::empty());
    assert(cs@.subrange(0, 0) =~= Seq::<char>::empty());
    while i < cs.len()
        invariant
            start <= i <= cs@.len(),
            cs@ == path@,
            split_on(cs@.take(i as int), '.').last() == cs@.subrange(start as int, i as int),
            split_on(cs@.take(i as int), '.').len() >= 1,
        decreases cs@.len() - i,
    {
        let ghost pre = cs@.take(i as int);
        let ghost next = cs@.take(i + 1);
        assert(next.drop_last() =~= pre);
        assert(next.last() == cs@[i as int]);
        if cs[i] == '.' {
            start = i + 1;
            assert(cs@.subrange(start as int, (i + 1) as int) =~= Seq::<char>::empty());
        } else {
            assert(cs@.subrange(start as int, (i + 1) as int) =~= cs@.subrange(start as int, i as int).push(
                cs@[i as int],
            ));
        }
        i += 1;
    }
    assert(cs@.take(i as int) =~= path@);
    let ghost e = cs@.subrange(start as int, i as int);
    let mut out = String::new();
    let mut k = start;
    while k < i
        invariant
            start <= k <= i <= cs@.len(),
            e == cs@.subrange(start as int, i as int),
            out@ == Seq::new((k - start) as nat, |j: int| lower_char(e[j])),
        decreases i - k,
    {
        let c = cs[k];
        let l = if 'A' <= c && c <= 'Z' {
            (((c as u32) + 32) as u8) as char
        } else {
            c
        };
        assert(e[k - start] == c);
        push_char(&mut out, l);
        k += 1;
        assert(out@ =~= Seq::new((k - start) as nat, |j: int| lower_char(e[j])));
    }
    out
}

impl Highlighter {
    /// A highlighter with the theme for the recognised capture names and a
    /// grammar for each supported language whose queries compile: its
    /// extension table is [`known_exts`] keeping the grammars that
    /// [`built_langs`] with the texts of the bundled queries (which are
    /// the grammar crates' constants, so only their existence is stated).
    pub fn new() -> (res: Highlighter)
        ensures
            res.theme_view() == spec_capture_names().map_values(|n: Seq<char>| spec_style_for(n)),
            exists|q: QueryTexts| #[trigger] built_langs(q, 7) == res.entries(),
    {
        let names = capture_names();
        let mut theme: Vec<Style> = Vec::new();
        let mut i: usize = 0;
        while i < names.len()
            invariant
                i <= names@.len(),
                names@.map_values(|n: &str| n@) == spec_capture_names(),
                theme@ == spec_capture_names().take(i as int).map_values(
                    |n: Seq<char>| spec_style_for(n),
                ),
            decreases names@.len() - i,
        {
            let st = style_for(names[i]);
            theme.push(st);
            i += 1;
            assert(theme@ =~= spec_capture_names().take(i as int).map_values(
                |n: Seq<char>| spec_style_for(n),
            ));
        }
        assert(spec_capture_names().take(i as int) =~= spec_capture_names());
        let rust_h = rust_highlights_query();
        let rust_i = rust_injections_query();
        let ts_h = typescript_highlights_query();
        let ts_l = typescript_locals_query();
        let js_h = javascript_highlight_query();
        let jsx_h = javascript_jsx_highlight_query();
        let js_i = javascript_injections_query();
        let js_l = javascript_locals_query();
        let rb_h = ruby_highlights_query();
        let rb_l = ruby_locals_query();
        let py_h = python_highlights_query();
        let json_h = json_highlights_query();
        let ghost q = QueryTexts {
            rust_highlights: rust_h@,
            rust_injections: rust_i@,
            typescript_highlights: ts_h@,
            typescript_locals: ts_l@,
            javascript_highlights: js_h@,
            jsx_highlights: jsx_h@,
            javascript_injections: js_i@,
            javascript_locals: js_l@,
            ruby_highlights: rb_h@,
            ruby_locals: rb_l@,
            python_highlights: py_h@,
            json_highlights: json_h@,
        };
        let mut langs: Vec<Lang> = Vec::new();
        assert(entries_of(langs@) =~= built_langs(q, 0));

        let rs: Vec<&'static str> = vec!["rs"];
        assert(rs@.map_values(|e: &str| e@) =~= known_exts()[0]);
        let rs_cfg = build(Grammar::Rust, "rust", rust_h, rust_i, "");
        proof {
            lemma_chosen_one(tries(q, 0)[0]);
            assert(tries(q, 0) =~= seq![tries(q, 0)[0]]);
            assert(config_view(rs_cfg) == chosen_config(q, 0));
        }
        add_lang(&mut langs, rs, rs_cfg);
        assert(entries_of(langs@) == built_langs(q, 1));

        // TypeScript/TSX inherit JavaScript, so prepend the JS queries; fall
        // back to the TS-only query if the combined query fails to compile.
        let ts_combined = join_queries(js_h, ts_h);
        let ts_cfg = match build(Grammar::TypeScript, "typescript", ts_combined.as_str(), "", ts_l) {
            Some(c) => Some(c),
            None => build(Grammar::TypeScript, "typescript", ts_h, "", ts_l),
        };
        let ts: Vec<&'static str> = vec!["ts", "mts", "cts"];
        assert(ts@.map_values(|e: &str| e@) =~= known_exts()[1]);
        proof {
            lemma_chosen_two(tries(q, 1)[0], tries(q, 1)[1]);
            assert(tries(q, 1) =~= seq![tries(q, 1)[0], tries(q, 1)[1]]);
            assert(config_view(ts_cfg) == chosen_config(q, 1));
        }
        add_lang(&mut langs, ts, ts_cfg);
        assert(entries_of(langs@) == built_langs(q, 2));

        let js_jsx = join_queries(js_h, jsx_h);
        let tsx_combined = join_queries(js_jsx.as_str(), ts_h);
        let tsx_cfg = match build(Grammar::Tsx, "tsx", tsx_combined.as_str(), "", ts_l) {
            Some(c) => Some(c),
            None => build(Grammar::Tsx, "tsx", ts_h, "", ts_l),
        };
        let tsx: Vec<&'static str> = vec!["tsx"];
        assert(tsx@.map_values(|e: &str| e@) =~= known_exts()[2]);
        proof {
            lemma_chosen_two(tries(q, 2)[0], tries(q, 2)[1]);
            assert(tries(q, 2) =~= seq![tries(q, 2)[0], tries(q, 2)[1]]);
            assert(config_view(tsx_cfg) == chosen_config(q, 2));
        }
        add_lang(&mut langs, tsx, tsx_cfg);
        assert(entries_of(langs@) == built_langs(q, 3));

        let js_cfg = match build(Grammar::JavaScript, "javascript", js_jsx.as_str(), js_i, js_l) {
            Some(c) => Some(c),
            None => build(Grammar::JavaScript, "javascript", js_h, js_i, js_l),
        };
        let js: Vec<&'static str> = vec!["js", "mjs", "cjs", "jsx"];
        assert(js@.map_values(|e: &str| e@) =~= known_exts()[3]);
        proof {
            lemma_chosen_two(tries(q, 3)[0], tries(q, 3)[1]);
            assert(tries(q, 3) =~= seq![tries(q, 3)[0], tries(q, 3)[1]]);
            assert(config_view(js_cfg) == chosen_config(q, 3));
        }
        add_lang(&mut langs, js, js_cfg);
        assert(entries_of(langs@) == built_langs(q, 4));

        let rb: Vec<&'static str> = vec!["rb", "rake", "gemspec"];
        assert(rb@.map_values(|e: &str| e@) =~= known_exts()[4]);
        let rb_cfg = build(Grammar::Ruby, "ruby", rb_h, "", rb_l);
        proof {
            lemma_chosen_one(tries(q, 4)[0]);
            assert(tries(q, 4) =~= seq![tries(q, 4)[0]]);
            assert(config_view(rb_cfg) == chosen_config(q, 4));
        }
        add_lang(&mut langs, rb, rb_cfg);
        assert(entries_of(langs@) == built_langs(q, 5));

        let py: Vec<&'static str> = vec!["py", "pyi"];
        assert(py@.map_values(|e: &str| e@) =~= known_exts()[5]);
        let py_cfg = build(Grammar::Python, "python", py_h, "", "");
        proof {
            lemma_chosen_one(tries(q, 5)[0]);
            assert(tries(q, 5) =~= seq![tries(q, 5)[0]]);
            assert(config_view(py_cfg) == chosen_config(q, 5));
        }
        add_lang(&mut langs, py, py_cfg);
        assert(entries_of(langs@) == built_langs(q, 6));

        let json: Vec<&'static str> = vec!["json", "jsonc"];
        assert(json@.map_values(|e: &str| e@) =~= known_exts()[6]);
        let json_cfg = build(Grammar::Json, "json", json_h, "", "");
        proof {
            lemma_chosen_one(tries(q, 6)[0]);
            assert(tries(q, 6) =~= seq![tries(q, 6)[0]]);
            assert(config_view(json_cfg) == chosen_config(q, 6));
        }
        add_lang(&mut langs, json, json_cfg);
        assert(entries_of(langs@) == built_langs(q, 7));
        let res = Highlighter { langs, theme };
        assert(res.entries() == built_langs(q, 7));
        res
    }

    /// The grammar for `path`, chosen by its extension.
    pub fn lang_for(&self, path: &str) -> (res: Option<&Lang>)
        ensures
            match res {
                Some(l) => lang_index(self.exts_table(), extension_of(path@), 0) matches Some(i)
                    && *l == self.lang_at(i as int),
                None => lang_index(self.exts_table(), extension_of(path@), 0) is None,
            },
    {
        let ext = extension(path);
        let ghost table = self.exts_table();
        let mut i: usize = 0;
        while i < self.langs.len()
            invariant
                i <= self.langs@.len(),
                table == self.exts_table(),
                ext@ == extension_of(path@),
                lang_index(table, ext@, 0) == lang_index(table, ext@, i as int),
            decreases self.langs@.len() - i,
        {
            let exts = &self.langs[i].exts;
            let ghost ev = table[i as int];
            assert(ev == exts@.map_values(|e: &str| e@));
            let mut k: usize = 0;
            let mut found = false;
            while k < exts.len()
                invariant
                    k <= exts@.len(),
                    ev == exts@.map_values(|e: &str| e@),
                    found == exists|m: int| 0 <= m < k && ev[m] == ext@,
                decreases exts@.len() - k,
            {
                let same = same_text(exts[k], ext.as_str());
                assert(ev[k as int] == exts@[k as int]@);
                if same {
                    found = true;
                }
                k += 1;
            }
            if found {
                assert(ev.contains(ext@));
                return Some(&self.langs[i]);
            }
            assert(!ev.contains(ext@));
            i += 1;
        }
        None
    }

    /// Highlight `source` with the grammar chosen by `path`: plain lines for
    /// an unknown extension; otherwise the lines styled from the events
    /// tree-sitter's highlighter gives for that grammar's configuration (see
    /// [`spec_lines_from_events`]). Either way there is one styled line per
    /// `'\n'`-delimited line of the source, and its segments spell that line.
    pub fn highlight(&self, path: &str, source: &str) -> (res: Vec<Vec<Seg>>)
        ensures
            lines_view(res@) == match lang_index(self.exts_table(), extension_of(path@), 0) {
                None => spec_plain(source@),
                Some(i) => spec_lines_from_events(
                    source@,
                    hl_events(self.config_at(i as int), source.spec_bytes()),
                    self.theme_view(),
                ),
            },
            texts(lines_view(res@)) == split_on(source@, '\n'),
    {
        match self.lang_for(path) {
            Some(lang) => self.run(lang, source),
            None => {
                proof {
                    lemma_plain_keeps_text(source@);
                }
                plain(source)
            },
        }
    }

    /// Highlight `source` with `lang`.
    fn run(&self, lang: &Lang, source: &str) -> (res: Vec<Vec<Seg>>)
        ensures
            lines_view(res@) == spec_lines_from_events(
                source@,
                hl_events(lang.config@, source.spec_bytes()),
                self.theme_view(),
            ),
            texts(lines_view(res@)) == split_on(source@, '\n'),
    {
        let mut ts = new_ts_highlighter();
        let events = highlight_events(&mut ts, &lang.config, source);
        lines_from_events(source, events, &self.theme)
    }
}

impl Default for Highlighter {
    fn default() -> (res: Self)
        ensures
            res.theme_view() == spec_capture_names().map_values(|n: Seq<char>| spec_style_for(n)),
            exists|q: QueryTexts| #[trigger] built_langs(q, 7) == res.entries(),
    {
        Highlighter::new()
    }
}


/// A source span right after a highlight starts takes that highlight's
/// theme entry (the plain style where the theme has none for it), whatever
/// highlights enclose it; the spans before it are kept.
pub proof fn lemma_span_innermost(events: Seq<HlEvent>, theme: Seq<Style>, h: usize, start: usize, end: usize)
    ensures
        fold_events(events.push(HlEvent::Start(h)).push(HlEvent::Source { start, end }), theme).1
            == fold_events(events, theme).1.push(
            (start, end, if h < theme.len() {
                theme[h as int]
            } else {
                plain_style()
            }),
        ),
{
    let e1 = events.push(HlEvent::Start(h));
    let e2 = e1.push(HlEvent::Source { start, end });
    assert(e2.drop_last() == e1);
    assert(e1.drop_last() == events);
    let st = fold_events(events, theme).0;
    assert(fold_events(e1, theme).0 == st.push(h));
    assert(st.push(h).last() == h);
}

/// A highlight that starts and ends leaves the open highlights and the spans
/// as they were, so the next span is styled as if it had never been.
pub proof fn lemma_closed_highlight_vanishes(events: Seq<HlEvent>, theme: Seq<Style>, h: usize)
    ensures
        fold_events(events.push(HlEvent::Start(h)).push(HlEvent::End), theme) == fold_events(events, theme),
{
    let e1 = events.push(HlEvent::Start(h));
    let e2 = e1.push(HlEvent::End);
    assert(e2.drop_last() == e1);
    assert(e1.drop_last() == events);
    let st = fold_events(events, theme).0;
    assert(st.push(h).drop_last() =~= st);
    assert(fold_events(e1, theme).0 == st.push(h));
    assert(fold_events(e1, theme).1 == fold_events(events, theme).1);
    assert(fold_events(e2, theme).0 == st);
    assert(fold_events(e2, theme).1 == fold_events(events, theme).1);
}

/// Source outside every highlight is styled plainly.
pub proof fn lemma_span_unhighlighted(theme: Seq<Style>, start: usize, end: usize)
    ensures
        fold_events(seq![HlEvent::Source { start, end }], theme).1 == seq![(start, end, plain_style())],
{
    let e = seq![HlEvent::Source { start, end }];
    assert(e.drop_last() =~= Seq::<HlEvent>::empty());
    assert(fold_events(Seq::<HlEvent>::empty(), theme).1.push((start, end, plain_style())) =~= seq![
        (start, end, plain_style()),
    ]);
}

} // verus!
