//! Parser for Jujutsu *snapshot* conflict markers.
//!
//! The grammar is line-oriented. A conflict region opens with a run of `<` (>= 7
//! chars), contains a sequence of `+++++++` / `-------` terms each followed by
//! their content lines, and closes with a matching run of `>`. Everything else
//! is context.
//!
//! Jujutsu lengthens the marker run when file content would otherwise collide
//! with a 7-char marker, so within a region a line is a structural marker only
//! if its run length *exactly* matches the opening `<<<<<<<`.
//!
//! The grammar is stated as spec functions over the lines of the text
//! ([`spec_parse`]); [`parse`] is proved to compute it, and
//! [`lemma_render_unresolved_round_trips`] proves that rendering a parsed file
//! with no resolution gives back the text.

use vstd::prelude::*;
use crate::conflict::{
    choice_at, rendered_lines, segment_lines, spec_label, spec_regions, spec_render, Accept,
    ConflictRegion, ParsedFile, ParsedView, RegionView, Segment, SegmentView, SideLabel, Term,
    TermKind, TermView, copy_lines,
};
use crate::text::{
    chars_of, ends_with_newline, is_whitespace, is_ws, lemma_run_len, lemma_trim_end_unique,
    lemma_unlines_lines, lines_of, parse_number, parse_usize, push_char, run_len, split_lines,
    trim_end, words,
};

verus! {

broadcast use vstd::string::group_string_axioms;

/// The shortest marker run.
pub const MIN_MARKER_LEN: usize = 7;

// ---------------------------------------------------------------------------
// The grammar
// ---------------------------------------------------------------------------

/// The characters that can form a marker run.
pub open spec fn is_marker_char(c: char) -> bool {
    c == '<' || c == '>' || c == '+' || c == '-' || c == '%'
}

/// If `line` is a conflict marker: its marker character, the length of the
/// run, and the text after one separating space with trailing whitespace
/// removed (empty when the line is just the run). A run shorter than seven,
/// or one followed directly by another character, is no marker.
pub open spec fn spec_marker(line: Seq<char>) -> Option<(char, nat, Seq<char>)> {
    if line.len() == 0 || !is_marker_char(line[0]) {
        None
    } else {
        let c = line[0];
        let run = run_len(line, c);
        if run < MIN_MARKER_LEN {
            None
        } else if run == line.len() {
            Some((c, run, Seq::empty()))
        } else if line[run as int] == ' ' {
            Some((c, run, trim_end(line.skip(run + 1 as int))))
        } else {
            None
        }
    }
}

/// Whether a line opens a conflict region.
pub open spec fn is_open(line: Seq<char>) -> bool {
    spec_marker(line) matches Some((c, _, _)) && c == '<'
}

/// Whether a line closes a region whose marker run has length `mlen`.
pub open spec fn is_close(line: Seq<char>, mlen: nat) -> bool {
    spec_marker(line) matches Some((c, n, _)) && c == '>' && n == mlen
}

/// If `line` starts a term of a region whose marker run has length `mlen`:
/// the term's kind and its label text.
pub open spec fn term_marker(line: Seq<char>, mlen: nat) -> Option<(TermKind, Seq<char>)> {
    match spec_marker(line) {
        Some((c, n, rest)) => if n == mlen && c == '+' {
            Some((TermKind::Add, rest))
        } else if n == mlen && c == '-' {
            Some((TermKind::Remove, rest))
        } else {
            None
        },
        None => None,
    }
}

/// The `(n, m)` of a `conflict n of m` header: the first four words are
/// `conflict`, a number, `of`, a number.
pub open spec fn spec_header(rest: Seq<char>) -> Option<(usize, usize)> {
    let toks = words(rest);
    if toks.len() >= 4 && toks[0] == "conflict"@ && toks[2] == "of"@ && parse_usize(toks[1]) is Some
        && parse_usize(toks[3]) is Some {
        Some((parse_usize(toks[1])->0, parse_usize(toks[3])->0))
    } else {
        None
    }
}

/// The terms of the lines between a region's opening and closing markers:
/// each term marker starts a term, and every other line belongs to the
/// latest term (lines before the first term belong to none).
pub open spec fn region_terms(inner: Seq<Seq<char>>, mlen: nat) -> Seq<TermView>
    decreases inner.len(),
{
    if inner.len() == 0 {
        Seq::empty()
    } else {
        let prev = region_terms(inner.drop_last(), mlen);
        let line = inner.last();
        match term_marker(line, mlen) {
            Some((kind, rest)) => prev.push(
                TermView { kind: kind, label: spec_label(rest), content: Seq::empty() },
            ),
            None => if prev.len() > 0 {
                prev.update(
                    prev.len() - 1,
                    TermView {
                        kind: prev.last().kind,
                        label: prev.last().label,
                        content: prev.last().content.push(line),
                    },
                )
            } else {
                prev
            },
        }
    }
}

/// The index of the first line at or after `from` that closes a region with
/// marker length `mlen`, or the number of lines if none does.
pub open spec fn first_close(lines: Seq<Seq<char>>, from: int, mlen: nat) -> int
    decreases lines.len() - from,
{
    if from >= lines.len() {
        lines.len() as int
    } else if is_close(lines[from], mlen) {
        from
    } else {
        first_close(lines, from + 1, mlen)
    }
}

/// The index of the first line at or after `from` that opens a region, or
/// the number of lines if none does.
pub open spec fn first_open(lines: Seq<Seq<char>>, from: int) -> int
    decreases lines.len() - from,
{
    if from >= lines.len() {
        lines.len() as int
    } else if is_open(lines[from]) {
        from
    } else {
        first_open(lines, from + 1)
    }
}

/// The label text of a marker line.
pub open spec fn marker_rest(line: Seq<char>) -> Seq<char> {
    let m = spec_marker(line)->0;
    m.2
}

/// The marker length of an opening line.
pub open spec fn open_len(line: Seq<char>) -> nat {
    let m = spec_marker(line)->0;
    m.1
}

/// The index just past the region that opens at `start`: past its closing
/// line, or the end of the text for an unterminated region.
pub open spec fn region_end(lines: Seq<Seq<char>>, start: int) -> int {
    let close = first_close(lines, start + 1, open_len(lines[start]));
    if close < lines.len() {
        close + 1
    } else {
        lines.len() as int
    }
}

/// The region that opens at `lines[start]`.
pub open spec fn region_at(lines: Seq<Seq<char>>, start: int) -> RegionView {
    let m = spec_marker(lines[start])->0;
    let mlen = m.1;
    let close = first_close(lines, start + 1, mlen);
    RegionView {
        header: spec_header(m.2),
        marker_len: mlen as usize,
        terms: region_terms(lines.subrange(start + 1, close), mlen),
        raw: lines.subrange(start, region_end(lines, start)),
    }
}

/// The segments of `lines[i..]`: a region for each opening line, and the
/// lines between regions as one context segment.
pub open spec fn parse_from(lines: Seq<Seq<char>>, i: int) -> Seq<SegmentView>
    decreases lines.len() - i,
{
    if i < 0 || i >= lines.len() {
        Seq::empty()
    } else if is_open(lines[i]) {
        proof {
            lemma_first_close_bounds(lines, i + 1, open_len(lines[i]));
        }
        seq![SegmentView::Conflict(region_at(lines, i))] + parse_from(lines, region_end(lines, i))
    } else {
        proof {
            lemma_first_open_bounds(lines, i + 1);
        }
        let j = first_open(lines, i + 1);
        seq![SegmentView::Context(lines.subrange(i, j))] + parse_from(lines, j)
    }
}

/// What a materialized file means.
pub open spec fn spec_parse(text: Seq<char>) -> ParsedView {
    ParsedView { segments: parse_from(lines_of(text), 0), trailing_newline: ends_with_newline(text) }
}

// ---------------------------------------------------------------------------
// Lemmas about the grammar
// ---------------------------------------------------------------------------

/// `first_close` lies between `from` and the end.
pub proof fn lemma_first_close_bounds(lines: Seq<Seq<char>>, from: int, mlen: nat)
    requires
        0 <= from,
    ensures
        from <= first_close(lines, from, mlen) || first_close(lines, from, mlen) == lines.len(),
        first_close(lines, from, mlen) <= lines.len() || from > lines.len(),
        from <= lines.len() ==> from <= first_close(lines, from, mlen) <= lines.len(),
        first_close(lines, from, mlen) < lines.len() ==> is_close(
            lines[first_close(lines, from, mlen)],
            mlen,
        ),
        forall|j: int| from <= j < first_close(lines, from, mlen) ==> !is_close(#[trigger] lines[j], mlen),
    decreases lines.len() - from,
{
    if from < lines.len() && !is_close(lines[from], mlen) {
        lemma_first_close_bounds(lines, from + 1, mlen);
    }
}

/// `first_open` lies between `from` and the end.
pub proof fn lemma_first_open_bounds(lines: Seq<Seq<char>>, from: int)
    requires
        0 <= from,
    ensures
        from <= lines.len() ==> from <= first_open(lines, from) <= lines.len(),
        first_open(lines, from) < lines.len() ==> is_open(lines[first_open(lines, from)]),
        forall|j: int| from <= j < first_open(lines, from) ==> !is_open(#[trigger] lines[j]),
    decreases lines.len() - from,
{
    if from < lines.len() && !is_open(lines[from]) {
        lemma_first_open_bounds(lines, from + 1);
    }
}

/// A line that is no close marker between `from` and `i` moves nothing.
pub proof fn lemma_first_close_skip(lines: Seq<Seq<char>>, from: int, i: int, mlen: nat)
    requires
        0 <= from <= i,
        forall|j: int| from <= j < i ==> !is_close(#[trigger] lines[j], mlen),
    ensures
        first_close(lines, from, mlen) == first_close(lines, i, mlen),
    decreases i - from,
{
    if from < i {
        lemma_first_close_skip(lines, from + 1, i, mlen);
    }
}

/// A line that opens nothing between `from` and `i` moves nothing.
pub proof fn lemma_first_open_skip(lines: Seq<Seq<char>>, from: int, i: int)
    requires
        0 <= from <= i,
        forall|j: int| from <= j < i ==> !is_open(#[trigger] lines[j]),
    ensures
        first_open(lines, from) == first_open(lines, i),
    decreases i - from,
{
    if from < i {
        lemma_first_open_skip(lines, from + 1, i);
    }
}

/// The lines a segment was read from.
pub open spec fn source_lines(seg: SegmentView) -> Seq<Seq<char>> {
    match seg {
        SegmentView::Context(lines) => lines,
        SegmentView::Conflict(r) => r.raw,
    }
}

/// The lines all segments were read from, in order.
pub open spec fn all_source_lines(segs: Seq<SegmentView>) -> Seq<Seq<char>>
    decreases segs.len(),
{
    if segs.len() == 0 {
        Seq::empty()
    } else {
        all_source_lines(segs.drop_last()) + source_lines(segs.last())
    }
}

proof fn lemma_all_source_lines_append(a: Seq<SegmentView>, b: Seq<SegmentView>)
    ensures
        all_source_lines(a + b) == all_source_lines(a) + all_source_lines(b),
    decreases b.len(),
{
    if b.len() == 0 {
        assert(a + b =~= a);
        assert(all_source_lines(a) + all_source_lines(b) =~= all_source_lines(a));
    } else {
        lemma_all_source_lines_append(a, b.drop_last());
        assert((a + b).drop_last() =~= a + b.drop_last());
        assert((a + b).last() == b.last());
        assert(all_source_lines(a + b) =~= all_source_lines(a) + all_source_lines(b));
    }
}

/// The segments parsed from `lines[i..]` were read from exactly those lines.
proof fn lemma_parse_from_covers(lines: Seq<Seq<char>>, i: int)
    requires
        0 <= i <= lines.len(),
    ensures
        all_source_lines(parse_from(lines, i)) == lines.skip(i),
    decreases lines.len() - i,
{
    if i == lines.len() {
        assert(all_source_lines(parse_from(lines, i)) =~= lines.skip(i));
    } else if is_open(lines[i]) {
        lemma_first_close_bounds(lines, i + 1, open_len(lines[i]));
        let next = region_end(lines, i);
        let seg = SegmentView::Conflict(region_at(lines, i));
        lemma_parse_from_covers(lines, next);
        lemma_all_source_lines_append(seq![seg], parse_from(lines, next));
        assert(all_source_lines(seq![seg]) =~= lines.subrange(i, next)) by {
            assert(seq![seg].drop_last() =~= Seq::<SegmentView>::empty());
            assert(seq![seg].last() == seg);
            assert(all_source_lines(Seq::<SegmentView>::empty()) =~= Seq::<Seq<char>>::empty());
            assert(all_source_lines(seq![seg]) == all_source_lines(Seq::<SegmentView>::empty())
                + source_lines(seg));
        }
        assert(lines.subrange(i, next) + lines.skip(next) =~= lines.skip(i));
    } else {
        lemma_first_open_bounds(lines, i + 1);
        let j = first_open(lines, i + 1);
        let seg = SegmentView::Context(lines.subrange(i, j));
        lemma_parse_from_covers(lines, j);
        lemma_all_source_lines_append(seq![seg], parse_from(lines, j));
        assert(all_source_lines(seq![seg]) =~= lines.subrange(i, j)) by {
            assert(seq![seg].drop_last() =~= Seq::<SegmentView>::empty());
            assert(seq![seg].last() == seg);
            assert(all_source_lines(Seq::<SegmentView>::empty()) =~= Seq::<Seq<char>>::empty());
            assert(all_source_lines(seq![seg]) == all_source_lines(Seq::<SegmentView>::empty())
                + source_lines(seg));
        }
        assert(lines.subrange(i, j) + lines.skip(j) =~= lines.skip(i));
    }
}

/// With no resolution chosen, every segment renders as the lines it was
/// read from.
proof fn lemma_rendered_unresolved(segs: Seq<SegmentView>, res: Seq<Option<Accept>>)
    requires
        forall|k: int| 0 <= k < res.len() ==> #[trigger] res[k] is None,
    ensures
        rendered_lines(segs, res) == all_source_lines(segs),
    decreases segs.len(),
{
    if segs.len() > 0 {
        lemma_rendered_unresolved(segs.drop_last(), res);
        let k = spec_regions(segs.drop_last()).len() as int;
        assert(choice_at(res, k) is None);
        assert(segment_lines(segs.last(), choice_at(res, k)) == source_lines(segs.last()));
    }
}

/// Rendering a parsed file with no region resolved reproduces the text
/// exactly, whatever the text.
pub proof fn lemma_render_unresolved_round_trips(text: Seq<char>, res: Seq<Option<Accept>>)
    requires
        forall|k: int| 0 <= k < res.len() ==> #[trigger] res[k] is None,
    ensures
        spec_render(spec_parse(text), res) == text,
{
    let lines = lines_of(text);
    lemma_rendered_unresolved(parse_from(lines, 0), res);
    lemma_parse_from_covers(lines, 0);
    assert(lines.skip(0) =~= lines);
    lemma_unlines_lines(text);
}

/// A segment as the parser makes it: a context run is not empty and holds
/// no opening marker; a region starts with its opening `<` marker, whose
/// run length is the region's marker length.
pub open spec fn segment_ok(seg: SegmentView) -> bool {
    match seg {
        SegmentView::Context(ls) => ls.len() > 0 && forall|k: int|
            0 <= k < ls.len() ==> !is_open(#[trigger] ls[k]),
        SegmentView::Conflict(r) => r.raw.len() > 0 && (spec_marker(r.raw[0]) matches Some((c, n, _))
            && c == '<' && r.marker_len == n as usize),
    }
}

/// Segments as the parser makes them: each well made, and no two context
/// runs next to each other.
pub open spec fn segments_ok(segs: Seq<SegmentView>) -> bool {
    &&& forall|k: int| 0 <= k < segs.len() ==> segment_ok(#[trigger] segs[k])
    &&& forall|k: int|
        0 <= k < segs.len() - 1 ==> !((#[trigger] segs[k]) is Context && segs[k + 1] is Context)
}

proof fn lemma_parse_from_ok(lines: Seq<Seq<char>>, i: int)
    requires
        0 <= i <= lines.len(),
    ensures
        segments_ok(parse_from(lines, i)),
        i < lines.len() ==> parse_from(lines, i).len() > 0 && (parse_from(lines, i)[0] is Conflict
            <==> is_open(lines[i])),
    decreases lines.len() - i,
{
    if i < lines.len() {
        let segs = parse_from(lines, i);
        if is_open(lines[i]) {
            lemma_first_close_bounds(lines, i + 1, open_len(lines[i]));
            let next = region_end(lines, i);
            let seg = SegmentView::Conflict(region_at(lines, i));
            let rest = parse_from(lines, next);
            lemma_parse_from_ok(lines, next);
            assert(segs == seq![seg] + rest);
            assert(region_at(lines, i).raw[0] == lines[i]);
            assert(segment_ok(seg));
            assert forall|k: int| 0 <= k < segs.len() implies segment_ok(#[trigger] segs[k]) by {
                if k > 0 {
                    assert(segs[k] == rest[k - 1]);
                }
            }
            assert forall|k: int| 0 <= k < segs.len() - 1 implies !((#[trigger] segs[k]) is Context
                && segs[k + 1] is Context) by {
                if k > 0 {
                    assert(segs[k] == rest[k - 1]);
                    assert(segs[k + 1] == rest[k]);
                }
            }
        } else {
            lemma_first_open_bounds(lines, i + 1);
            let j = first_open(lines, i + 1);
            let ctx = lines.subrange(i, j);
            let seg = SegmentView::Context(ctx);
            let rest = parse_from(lines, j);
            lemma_parse_from_ok(lines, j);
            assert(segs == seq![seg] + rest);
            assert forall|k: int| 0 <= k < ctx.len() implies !is_open(#[trigger] ctx[k]) by {
                assert(ctx[k] == lines[i + k]);
            }
            assert(segment_ok(seg));
            assert forall|k: int| 0 <= k < segs.len() implies segment_ok(#[trigger] segs[k]) by {
                if k > 0 {
                    assert(segs[k] == rest[k - 1]);
                }
            }
            assert forall|k: int| 0 <= k < segs.len() - 1 implies !((#[trigger] segs[k]) is Context
                && segs[k + 1] is Context) by {
                if k > 0 {
                    assert(segs[k] == rest[k - 1]);
                    assert(segs[k + 1] == rest[k]);
                } else {
                    assert(segs[1] == rest[0]);
                }
            }
        }
    }
}

/// What the parser makes of a text: the trailing newline is recorded, the
/// segments give back the text's lines in order (context lines, and each
/// region's lines markers included), no context run is empty or holds an
/// opening marker, no two context runs are next to each other, and each
/// region starts with its opening marker.
pub proof fn lemma_parse_structure(text: Seq<char>)
    ensures
        spec_parse(text).trailing_newline == ends_with_newline(text),
        all_source_lines(spec_parse(text).segments) == lines_of(text),
        segments_ok(spec_parse(text).segments),
{
    let lines = lines_of(text);
    lemma_parse_from_covers(lines, 0);
    assert(lines.skip(0) =~= lines);
    lemma_parse_from_ok(lines, 0);
}

// ---------------------------------------------------------------------------
// Executable parser
// ---------------------------------------------------------------------------

/// If `line` is a conflict marker, return `(marker_char, run_len, label_rest)`.
/// `label_rest` is the trailing text after a single separating space (trimmed),
/// or empty if the line is just the marker run.
pub fn marker(line: &str) -> (res: Option<(char, usize, &str)>)
    ensures
        match res {
            Some((c, n, rest)) => spec_marker(line@) == Some((c, n as nat, rest@)),
            None => spec_marker(line@) is None,
        },
{
    let cs = chars_of(line);
    if cs.len() == 0 {
        return None;
    }
    let first = cs[0];
    if !(first == '<' || first == '>' || first == '+' || first == '-' || first == '%') {
        return None;
    }
    let mut run: usize = 0;
    while run < cs.len() && cs[run] == first
        invariant
            run <= cs@.len(),
            cs@ == line@,
            forall|j: int| 0 <= j < run ==> cs@[j] == first,
        decreases cs@.len() - run,
    {
        run += 1;
    }
    proof {
        lemma_run_len(line@, first);
        let r = run_len(line@, first);
        if r < run {
            assert(line@[r as int] == first);
        }
        if run < r {
            assert(line@[run as int] == first);
        }
    }
    if run < MIN_MARKER_LEN {
        return None;
    }
    if run == cs.len() {
        let empty = line.substring_char(run, run);
        assert(empty@ =~= Seq::<char>::empty());
        return Some((first, run, empty));
    }
    if cs[run] != ' ' {
        return None;
    }
    let mut e = cs.len();
    while e > run + 1 && is_whitespace(cs[e - 1])
        invariant
            run + 1 <= e <= cs@.len(),
            cs@ == line@,
            forall|j: int| e <= j < cs@.len() ==> is_ws(#[trigger] cs@[j]),
        decreases e,
    {
        e -= 1;
    }
    let rest = line.substring_char(run + 1, e);
    proof {
        let s = line@.skip(run + 1);
        assert forall|j: int| (e - run - 1) <= j < s.len() implies is_ws(#[trigger] s[j]) by {
            assert(s[j] == cs@[run + 1 + j]);
        }
        if e > run + 1 {
            assert(s[e - run - 2] == cs@[e - 1]);
        }
        lemma_trim_end_unique(s, e - run - 1);
        assert(s.take(e - run - 1) =~= rest@);
    }
    Some((first, run, rest))
}

/// The whitespace-separated words of `s`.
fn split_words(s: &str) -> (res: Vec<String>)
    ensures
        res.deep_view() == words(s@),
{
    let cs = chars_of(s);
    let mut done: Vec<String> = Vec::new();
    let mut cur = String::new();
    let mut in_word = false;
    let mut i: usize = 0;
    assert(cs@.take(0) =~= Seq::<char>::empty());
    assert(done.deep_view() =~= Seq::<Seq<char>>::empty());
    while i < cs.len()
        invariant
            i <= cs@.len(),
            cs@ == s@,
            in_word == (i > 0 && !is_ws(cs@[i - 1])),
            in_word ==> done.deep_view().push(cur@) == words(cs@.take(i as int)),
            !in_word ==> done.deep_view() == words(cs@.take(i as int)),
        decreases cs@.len() - i,
    {
        let c = cs[i];
        let ghost prefix = cs@.take(i + 1);
        assert(prefix.drop_last() =~= cs@.take(i as int));
        assert(prefix.last() == c);
        if is_whitespace(c) {
            if in_word {
                let ghost before = done.deep_view();
                let w = cur;
                done.push(w);
                assert(done.deep_view() =~= before.push(w@));
                cur = String::new();
            }
            in_word = false;
        } else {
            if in_word {
                let ghost before = done.deep_view();
                push_char(&mut cur, c);
                proof {
                    let prev = words(cs@.take(i as int));
                    assert(prefix[prefix.len() - 2] == cs@[i - 1]);
                    assert(prev.len() > 0);
                    assert(before.push(cur@) =~= prev.update(prev.len() - 1, prev.last().push(c)));
                }
            } else {
                cur = String::new();
                push_char(&mut cur, c);
                proof {
                    if i > 0 {
                        assert(prefix[prefix.len() - 2] == cs@[i - 1]);
                    }
                    assert(cur@ =~= seq![c]);
                }
            }
            in_word = true;
        }
        i += 1;
    }
    assert(cs@.take(i as int) =~= s@);
    if in_word {
        let ghost before = done.deep_view();
        let w = cur;
        done.push(w);
        assert(done.deep_view() =~= before.push(w@));
    }
    done
}

/// Parse a `conflict n of m` header into `(n, m)`.
pub fn parse_header(rest: &str) -> (res: Option<(usize, usize)>)
    ensures
        res == spec_header(rest@),
{
    let toks = split_words(rest);
    if toks.len() < 4 {
        return None;
    }
    let conflict_word = String::from_str("conflict");
    let of_word = String::from_str("of");
    assert(toks.deep_view()[0] == toks@[0]@);
    assert(toks.deep_view()[2] == toks@[2]@);
    if toks[0] != conflict_word || toks[2] != of_word {
        return None;
    }
    match (parse_number(&toks[1]), parse_number(&toks[3])) {
        (Some(n), Some(m)) => {
            assert(toks.deep_view()[1] == toks@[1]@);
            assert(toks.deep_view()[3] == toks@[3]@);
            Some((n, m))
        },
        _ => None,
    }
}

/// The view of the terms collected so far, including the one in progress.
pub open spec fn pending_terms(
    terms: Seq<TermView>,
    has_cur: bool,
    kind: TermKind,
    label: SideLabel,
    content: Seq<Seq<char>>,
) -> Seq<TermView> {
    if has_cur {
        terms.push(TermView { kind: kind, label: label@, content: content })
    } else {
        terms
    }
}

/// Parse one conflict region starting at `lines[start]` (the `<<<<<<<` line).
/// Returns the region and the index of the line after its `>>>>>>>` close.
fn parse_region(lines: &Vec<String>, start: usize, marker_len: usize, header_rest: &str) -> (res: (
    ConflictRegion,
    usize,
))
    requires
        start < lines@.len(),
        spec_marker(lines.deep_view()[start as int]) matches Some((c, n, rest)) && c == '<' && n
            == marker_len && rest == header_rest@,
    ensures
        res.0@ == region_at(lines.deep_view(), start as int),
        res.1 == region_end(lines.deep_view(), start as int),
{
    let ghost ls = lines.deep_view();
    let ghost mlen = marker_len as nat;
    let _n = lines.len();
    let header = parse_header(header_rest);
    let mut raw: Vec<String> = Vec::new();
    raw.push(lines[start].clone());
    let mut terms: Vec<Term> = Vec::new();
    let mut has_cur = false;
    let mut cur_kind = TermKind::Add;
    let mut cur_label = SideLabel {
        change_id: String::new(),
        commit_id: String::new(),
        description: String::new(),
        raw: String::new(),
    };
    let mut cur_content: Vec<String> = Vec::new();
    let mut i = start + 1;
    proof {
        assert(raw.deep_view() =~= ls.subrange(start as int, i as int));
        assert(ls.subrange(start + 1, i as int) =~= Seq::<Seq<char>>::empty());
        assert(terms@.map_values(|t: Term| t@) =~= Seq::<TermView>::empty());
    }
    while i < lines.len()
        invariant
            start < i <= lines@.len(),
            ls == lines.deep_view(),
            mlen == marker_len,
            open_len(ls[start as int]) == mlen,
            !has_cur ==> terms@.len() == 0,
            raw.deep_view() == ls.subrange(start as int, i as int),
            forall|j: int| start + 1 <= j < i ==> !is_close(#[trigger] ls[j], mlen),
            pending_terms(
                terms@.map_values(|t: Term| t@),
                has_cur,
                cur_kind,
                cur_label,
                cur_content.deep_view(),
            ) == region_terms(ls.subrange(start + 1, i as int), mlen),
            header == spec_header(marker_rest(ls[start as int])),
        decreases lines@.len() - i,
    {
        let line = lines[i].as_str();
        let ghost inner_next = ls.subrange(start + 1, i + 1);
        proof {
            assert(inner_next.drop_last() =~= ls.subrange(start + 1, i as int));
            assert(inner_next.last() == ls[i as int]);
            assert(ls[i as int] == line@);
        }
        let ghost before = pending_terms(
            terms@.map_values(|t: Term| t@),
            has_cur,
            cur_kind,
            cur_label,
            cur_content.deep_view(),
        );
        let ghost raw_before = raw.deep_view();
        let m = marker(line);
        let mut is_term = false;
        let mut is_end = false;
        let mut kind = TermKind::Add;
        let mut label_rest: &str = line;
        match m {
            Some((ch, len, rest)) => {
                if len == marker_len && (ch == '+' || ch == '-') {
                    is_term = true;
                    kind = if ch == '+' {
                        TermKind::Add
                    } else {
                        TermKind::Remove
                    };
                    label_rest = rest;
                } else if ch == '>' && len == marker_len {
                    is_end = true;
                }
            },
            None => {},
        }
        raw.push(lines[i].clone());
        assert(raw.deep_view() =~= raw_before.push(line@));
        assert(ls.subrange(start as int, i + 1) =~= ls.subrange(start as int, i as int).push(
            ls[i as int],
        ));
        if is_term {
            if has_cur {
                let t = Term { kind: cur_kind, label: cur_label, content: cur_content };
                let ghost tv = terms@.map_values(|t: Term| t@);
                terms.push(t);
                assert(terms@.map_values(|t: Term| t@) =~= tv.push(t@));
            }
            has_cur = true;
            cur_kind = kind;
            cur_label = SideLabel::parse(label_rest);
            cur_content = Vec::new();
            proof {
                assert(term_marker(line@, mlen) == Some((kind, label_rest@)));
                assert(cur_content.deep_view() =~= Seq::<Seq<char>>::empty());
                let nt = TermView { kind: kind, label: spec_label(label_rest@), content: Seq::empty() };
                assert(region_terms(inner_next, mlen) == before.push(nt));
                assert(pending_terms(
                    terms@.map_values(|t: Term| t@),
                    has_cur,
                    cur_kind,
                    cur_label,
                    cur_content.deep_view(),
                ) =~~= before.push(nt));
            }
        } else if is_end {
            if has_cur {
                let t = Term { kind: cur_kind, label: cur_label, content: cur_content };
                let ghost tv = terms@.map_values(|t: Term| t@);
                terms.push(t);
                assert(terms@.map_values(|t: Term| t@) =~= tv.push(t@));
            }
            proof {
                assert(is_close(ls[i as int], mlen));
                lemma_first_close_skip(ls, start + 1, i as int, mlen);
                assert(first_close(ls, i as int, mlen) == i);
            }
            let region = ConflictRegion { header, marker_len, terms, raw };
            proof {
                assert(region@.terms =~= region_terms(ls.subrange(start + 1, i as int), mlen));
                assert(region@.raw =~= ls.subrange(start as int, i + 1));
                assert(open_len(ls[start as int]) == mlen);
                assert(first_close(ls, start + 1, mlen) == i);
                assert(region_end(ls, start as int) == i + 1);
                assert(region@.header == region_at(ls, start as int).header);
                assert(region@.marker_len == region_at(ls, start as int).marker_len);
                assert(region@.terms == region_at(ls, start as int).terms);
                assert(region@.raw == region_at(ls, start as int).raw);
                assert(region@ == region_at(ls, start as int));
            }
            return (region, i + 1);
        } else {
            proof {
                assert(term_marker(line@, mlen) is None);
            }
            if has_cur {
                let ghost cv = cur_content.deep_view();
                let c = lines[i].clone();
                assert(c@ == line@);
                cur_content.push(c);
                assert(cur_content.deep_view() =~= cv.push(line@));
            }
            proof {
                if has_cur {
                    let tv = terms@.map_values(|t: Term| t@);
                    assert(before.len() > 0);
                    assert(before.drop_last() =~= tv);
                    assert(pending_terms(
                        terms@.map_values(|t: Term| t@),
                        has_cur,
                        cur_kind,
                        cur_label,
                        cur_content.deep_view(),
                    ) =~~= region_terms(inner_next, mlen));
                } else {
                    assert(before =~= Seq::<TermView>::empty());
                    assert(pending_terms(
                        terms@.map_values(|t: Term| t@),
                        has_cur,
                        cur_kind,
                        cur_label,
                        cur_content.deep_view(),
                    ) =~~= region_terms(inner_next, mlen));
                }
            }
        }
        i += 1;
    }
    if has_cur {
        let t = Term { kind: cur_kind, label: cur_label, content: cur_content };
        let ghost tv = terms@.map_values(|t: Term| t@);
        terms.push(t);
        assert(terms@.map_values(|t: Term| t@) =~= tv.push(t@));
    }
    let region = ConflictRegion { header, marker_len, terms, raw };
    proof {
        lemma_first_close_skip(ls, start + 1, i as int, mlen);
        assert(region@.terms =~= region_terms(ls.subrange(start + 1, i as int), mlen));
        assert(region@.raw =~= ls.subrange(start as int, i as int));
        assert(region@ == region_at(ls, start as int));
    }
    (region, i)
}

/// Parse a full materialized file into [`ParsedFile`].
pub fn parse(text: &str) -> (res: ParsedFile)
    ensures
        res@ == spec_parse(text@),
{
    let (lines, trailing_newline) = split_lines(text);
    let ghost ls = lines.deep_view();
    let mut segments: Vec<Segment> = Vec::new();
    let mut i: usize = 0;
    proof {
        assert(segments@.map_values(|s: Segment| s@) =~= Seq::<SegmentView>::empty());
        assert(parse_from(ls, 0) =~= Seq::<SegmentView>::empty() + parse_from(ls, 0));
    }
    while i < lines.len()
        invariant
            i <= lines@.len(),
            ls == lines.deep_view(),
            ls == lines_of(text@),
            segments@.map_values(|s: Segment| s@) + parse_from(ls, i as int) == parse_from(ls, 0),
        decreases lines@.len() - i,
    {
        let ghost segs_before = segments@.map_values(|s: Segment| s@);
        assert(ls[i as int] == lines@[i as int]@);
        match marker(lines[i].as_str()) {
            Some((c, len, rest)) if c == '<' => {
                let (region, next) = parse_region(&lines, i, len, rest);
                proof {
                    lemma_first_close_bounds(ls, i + 1, len as nat);
                }
                segments.push(Segment::Conflict(region));
                proof {
                    assert(segments@.map_values(|s: Segment| s@) =~= segs_before.push(
                        SegmentView::Conflict(region_at(ls, i as int)),
                    ));
                    assert(parse_from(ls, i as int) =~= seq![
                        SegmentView::Conflict(region_at(ls, i as int)),
                    ] + parse_from(ls, next as int));
                    assert(segs_before.push(SegmentView::Conflict(region_at(ls, i as int)))
                        + parse_from(ls, next as int) =~= segs_before + parse_from(ls, i as int));
                }
                i = next;
            },
            _ => {
                let mut j = i + 1;
                while j < lines.len()
                    invariant
                        i < j <= lines@.len(),
                        ls == lines.deep_view(),
                        forall|k: int| i + 1 <= k < j ==> !is_open(#[trigger] ls[k]),
                    ensures
                        i < j <= lines@.len(),
                        forall|k: int| i + 1 <= k < j ==> !is_open(#[trigger] ls[k]),
                        j < lines@.len() ==> is_open(ls[j as int]),
                    decreases lines@.len() - j,
                {
                    assert(ls[j as int] == lines@[j as int]@);
                    match marker(lines[j].as_str()) {
                        Some((c, _, _)) if c == '<' => {
                            break;
                        },
                        _ => {},
                    }
                    j += 1;
                }
                proof {
                    lemma_first_open_skip(ls, i + 1, j as int);
                    if j < lines@.len() {
                        assert(is_open(ls[j as int]));
                    }
                    assert(first_open(ls, i + 1) == j);
                }
                let mut ctx: Vec<String> = Vec::new();
                let mut k = i;
                while k < j
                    invariant
                        i <= k <= j <= lines@.len(),
                        ls == lines.deep_view(),
                        ctx.deep_view() == ls.subrange(i as int, k as int),
                    decreases j - k,
                {
                    let ghost cv = ctx.deep_view();
                    let c = lines[k].clone();
                    assert(c@ == ls[k as int]);
                    ctx.push(c);
                    assert(ctx.deep_view() =~= cv.push(c@));
                    assert(ls.subrange(i as int, k + 1) =~= ls.subrange(i as int, k as int).push(
                        ls[k as int],
                    ));
                    k += 1;
                    assert(ctx.deep_view() =~= ls.subrange(i as int, k as int));
                }
                segments.push(Segment::Context(ctx));
                proof {
                    let seg = SegmentView::Context(ls.subrange(i as int, j as int));
                    assert(segments@.map_values(|s: Segment| s@) =~= segs_before.push(seg));
                    assert(parse_from(ls, i as int) =~= seq![seg] + parse_from(ls, j as int));
                    assert(segs_before.push(seg) + parse_from(ls, j as int) =~= segs_before
                        + parse_from(ls, i as int));
                }
                i = j;
            },
        }
    }
    proof {
        assert(parse_from(ls, i as int) =~= Seq::<SegmentView>::empty());
        assert(segments@.map_values(|s: Segment| s@) =~= parse_from(ls, 0));
    }
    ParsedFile { segments, trailing_newline }
}

} // verus!
