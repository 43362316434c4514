//! Data model for a materialized Jujutsu conflict in *snapshot* marker style.
//!
//! Snapshot markers look like this (a 3-sided conflict):
//!
//! ```text
//! line before
//! <<<<<<< conflict 1 of 1
//! +++++++ rpulyxsl 46d0a2ab "sideA"
//! AAA
//! ------- yooymqps b6f03a57 "base"
//! shared
//! +++++++ mvmzmyyn 991eceae "sideB"
//! BBB
//! ------- yooymqps b6f03a57 "base"
//! shared
//! +++++++ lwuprqku bb9b960b "sideC"
//! CCC
//! >>>>>>> conflict 1 of 1 ends
//! line after
//! ```
//!
//! Each `+++++++` term is a present side ([`TermKind::Add`]); each `-------`
//! term is a merge base ([`TermKind::Remove`]).
//!
//! Every type has a view over `Seq<char>` text; the contracts below are stated
//! over those views.

use vstd::prelude::*;
use crate::text::{
    chars_of, find_char, find_from, join_with, push_char, string_of, trim, trim_bounds, unlines,
};

verus! {

broadcast use vstd::string::group_string_axioms;

// ---------------------------------------------------------------------------
// Side labels
// ---------------------------------------------------------------------------

/// The source label parsed from a marker header line, e.g.
/// `rpulyxsl 46d0a2ab "sideA"` (change id, short commit id, description).
#[derive(Debug, Clone, PartialEq, Eq, Default)]
pub struct SideLabel {
    pub change_id: String,
    pub commit_id: String,
    pub description: String,
    /// The full text after the marker run, verbatim (display fallback).
    pub raw: String,
}

/// The text of a [`SideLabel`].
pub struct LabelView {
    pub change_id: Seq<char>,
    pub commit_id: Seq<char>,
    pub description: Seq<char>,
    pub raw: Seq<char>,
}

impl View for SideLabel {
    type V = LabelView;

    open spec fn view(&self) -> LabelView {
        LabelView {
            change_id: self.change_id@,
            commit_id: self.commit_id@,
            description: self.description@,
            raw: self.raw@,
        }
    }
}

/// `s` without one pair of surrounding double quotes, if it has them.
pub open spec fn strip_quotes(s: Seq<char>) -> Seq<char> {
    if s.len() >= 2 && s[0] == '"' && s.last() == '"' {
        s.subrange(1, s.len() - 1)
    } else {
        s
    }
}

/// What a label text means: up to three parts separated by single spaces
/// (`splitn(3, ' ')`); the third part, trimmed and unquoted, is the
/// description.
pub open spec fn spec_label(rest: Seq<char>) -> LabelView {
    match find_char(rest, ' ') {
        None => LabelView {
            change_id: rest,
            commit_id: Seq::empty(),
            description: Seq::empty(),
            raw: rest,
        },
        Some(i) => {
            let after = rest.skip(i + 1 as int);
            match find_char(after, ' ') {
                None => LabelView {
                    change_id: rest.take(i as int),
                    commit_id: after,
                    description: Seq::empty(),
                    raw: rest,
                },
                Some(j) => LabelView {
                    change_id: rest.take(i as int),
                    commit_id: after.take(j as int),
                    description: strip_quotes(trim(after.skip(j + 1 as int))),
                    raw: rest,
                },
            }
        },
    }
}

/// The short human label: `description (change_id)`, or whichever of the two
/// is present, or the raw text.
pub open spec fn spec_short(l: LabelView) -> Seq<char> {
    if l.description.len() != 0 && l.change_id.len() != 0 {
        l.description + " ("@ + l.change_id + ")"@
    } else if l.change_id.len() != 0 {
        l.change_id
    } else if l.description.len() != 0 {
        l.description
    } else {
        l.raw
    }
}

impl SideLabel {
    /// Parse the text that follows a `+++++++`/`-------` marker run.
    pub fn parse(rest: &str) -> (res: SideLabel)
        ensures
            res@ == spec_label(rest@),
    {
        let cs = chars_of(rest);
        let n = cs.len();
        let raw = string_of(&cs, 0, n);
        proof {
            assert(cs@.subrange(0, n as int) =~= rest@);
            assert(cs@.skip(0) =~= rest@);
        }
        match find_from(&cs, 0, ' ') {
            None => {
                let change_id = string_of(&cs, 0, n);
                SideLabel { change_id, commit_id: String::new(), description: String::new(), raw }
            },
            Some(i) => {
                let change_id = string_of(&cs, 0, i);
                proof {
                    assert(cs@.subrange(0, i as int) =~= rest@.take(i as int));
                    assert(cs@.skip(i + 1) =~= rest@.skip(i + 1));
                }
                match find_from(&cs, i + 1, ' ') {
                    None => {
                        let commit_id = string_of(&cs, i + 1, n);
                        proof {
                            assert(cs@.subrange(i + 1, n as int) =~= rest@.skip(i + 1));
                        }
                        SideLabel { change_id, commit_id, description: String::new(), raw }
                    },
                    Some(j) => {
                        let commit_id = string_of(&cs, i + 1, j);
                        let (b, e) = trim_bounds(&cs, j + 1, n);
                        let ghost after = rest@.skip(i + 1);
                        proof {
                            assert(cs@.subrange(i + 1, j as int) =~= after.take(j - (i + 1)));
                            assert(cs@.subrange(j + 1, n as int) =~= after.skip(j - i));
                        }
                        let description = if e - b >= 2 && cs[b] == '"' && cs[e - 1] == '"' {
                            string_of(&cs, b + 1, e - 1)
                        } else {
                            string_of(&cs, b, e)
                        };
                        proof {
                            let t = cs@.subrange(b as int, e as int);
                            if e - b >= 2 && t[0] == '"' && t.last() == '"' {
                                assert(t.subrange(1, t.len() - 1) =~= cs@.subrange(
                                    b + 1,
                                    e - 1,
                                ));
                            }
                        }
                        SideLabel { change_id, commit_id, description, raw }
                    },
                }
            },
        }
    }

    /// A short, human label, e.g. `sideA (rpulyxsl)`.
    pub fn short(&self) -> (res: String)
        ensures
            res@ == spec_short(self@),
    {
        let has_desc = self.description.as_str().unicode_len() != 0;
        let has_change = self.change_id.as_str().unicode_len() != 0;
        if has_desc && has_change {
            let mut s = self.description.clone();
            s.append(" (");
            s.append(self.change_id.as_str());
            s.append(")");
            s
        } else if has_change {
            self.change_id.clone()
        } else if has_desc {
            self.description.clone()
        } else {
            self.raw.clone()
        }
    }

    /// A copy of this label.
    pub fn duplicate(&self) -> (res: SideLabel)
        ensures
            res@ == self@,
    {
        SideLabel {
            change_id: self.change_id.clone(),
            commit_id: self.commit_id.clone(),
            description: self.description.clone(),
            raw: self.raw.clone(),
        }
    }
}

// ---------------------------------------------------------------------------
// Terms and columns
// ---------------------------------------------------------------------------

/// Whether a term is a present side or a (removed) merge base.
#[derive(Debug, Clone, Copy, PartialEq, Eq, Structural)]
pub enum TermKind {
    /// A present side of the conflict (`+++++++`).
    Add,
    /// A removed side, i.e. a merge base (`-------`).
    Remove,
}

/// One term of a conflict: a marker header plus its content lines.
#[derive(Debug, Clone)]
pub struct Term {
    pub kind: TermKind,
    pub label: SideLabel,
    pub content: Vec<String>,
}

/// The text of a term or a column: its kind, label and content lines.
pub struct TermView {
    pub kind: TermKind,
    pub label: LabelView,
    pub content: Seq<Seq<char>>,
}

impl View for Term {
    type V = TermView;

    open spec fn view(&self) -> TermView {
        TermView { kind: self.kind, label: self.label@, content: self.content.deep_view() }
    }
}

/// A distinct, selectable side shown as a single comparison column. Identical
/// bases (the common k-sided case repeats the base) are collapsed into one.
#[derive(Debug, Clone)]
pub struct Column {
    pub kind: TermKind,
    pub label: SideLabel,
    pub content: Vec<String>,
}

impl View for Column {
    type V = TermView;

    open spec fn view(&self) -> TermView {
        TermView { kind: self.kind, label: self.label@, content: self.content.deep_view() }
    }
}

/// The title of a column: the short label of a side, `base` (with its
/// change id when known) for a merge base.
pub open spec fn spec_title(c: TermView) -> Seq<char> {
    match c.kind {
        TermKind::Add => spec_short(c.label),
        TermKind::Remove => if c.label.change_id.len() == 0 {
            "base"@
        } else {
            "base ("@ + c.label.change_id + ")"@
        },
    }
}

impl Column {
    /// Title shown above the column.
    pub fn title(&self) -> (res: String)
        ensures
            res@ == spec_title(self@),
    {
        match self.kind {
            TermKind::Add => self.label.short(),
            TermKind::Remove => {
                if self.label.change_id.as_str().unicode_len() == 0 {
                    String::from_str("base")
                } else {
                    let mut s = String::from_str("base (");
                    s.append(self.label.change_id.as_str());
                    s.append(")");
                    s
                }
            },
        }
    }
}

/// A copy of a list of lines.
pub fn copy_lines(v: &Vec<String>) -> (res: Vec<String>)
    ensures
        res.deep_view() == v.deep_view(),
{
    let mut out: Vec<String> = Vec::new();
    let mut i: usize = 0;
    while i < v.len()
        invariant
            i <= v@.len(),
            out.deep_view() == v.deep_view().take(i as int),
        decreases v@.len() - i,
    {
        let c = v[i].clone();
        assert(c@ == v.deep_view()[i as int]);
        let ghost before = out.deep_view();
        out.push(c);
        assert(out.deep_view() =~= before.push(c@));
        i += 1;
        assert(out.deep_view() =~= v.deep_view().take(i as int));
    }
    assert(v.deep_view().take(i as int) =~= v.deep_view());
    out
}

/// Whether two lists of lines are equal.
pub fn lines_equal(a: &Vec<String>, b: &Vec<String>) -> (res: bool)
    ensures
        res == (a.deep_view() == b.deep_view()),
{
    if a.len() != b.len() {
        proof {
            if a.deep_view() == b.deep_view() {
                assert(a.deep_view().len() == b.deep_view().len());
            }
        }
        return false;
    }
    let mut i: usize = 0;
    while i < a.len()
        invariant
            i <= a@.len() == b@.len(),
            forall|j: int| 0 <= j < i ==> a@[j]@ == b@[j]@,
        decreases a@.len() - i,
    {
        if a[i] != b[i] {
            proof {
                assert(a.deep_view()[i as int] != b.deep_view()[i as int]);
            }
            return false;
        }
        i += 1;
    }
    assert(a.deep_view() =~= b.deep_view());
    true
}

/// Whether `cols` already holds a merge base with this content.
pub open spec fn has_base_with(cols: Seq<TermView>, content: Seq<Seq<char>>) -> bool {
    exists|k: int| 0 <= k < cols.len() && cols[k].kind == TermKind::Remove && #[trigger] cols[k].content
        == content
}

/// The distinct columns of a list of terms: every `Add` term, and each merge
/// base whose content no earlier base has, in order.
pub open spec fn spec_columns(terms: Seq<TermView>) -> Seq<TermView>
    decreases terms.len(),
{
    if terms.len() == 0 {
        Seq::empty()
    } else {
        let prev = spec_columns(terms.drop_last());
        let t = terms.last();
        if t.kind == TermKind::Remove && has_base_with(prev, t.content) {
            prev
        } else {
            prev.push(t)
        }
    }
}

/// The number of present sides among the terms.
pub open spec fn count_adds(terms: Seq<TermView>) -> nat
    decreases terms.len(),
{
    if terms.len() == 0 {
        0
    } else {
        count_adds(terms.drop_last()) + if terms.last().kind == TermKind::Add {
            1nat
        } else {
            0nat
        }
    }
}

// ---------------------------------------------------------------------------
// Regions and files
// ---------------------------------------------------------------------------

/// A single conflict region (one `<<<<<<< … >>>>>>>` block).
#[derive(Debug, Clone)]
pub struct ConflictRegion {
    /// `(n, m)` parsed from a `conflict n of m` header, if present.
    pub header: Option<(usize, usize)>,
    /// Length of the marker char run (>= 7) used by this region.
    pub marker_len: usize,
    pub terms: Vec<Term>,
    /// The exact original lines (including markers) for lossless re-emit.
    pub raw: Vec<String>,
}

/// The text of a conflict region.
pub struct RegionView {
    pub header: Option<(usize, usize)>,
    pub marker_len: usize,
    pub terms: Seq<TermView>,
    pub raw: Seq<Seq<char>>,
}

impl View for ConflictRegion {
    type V = RegionView;

    open spec fn view(&self) -> RegionView {
        RegionView {
            header: self.header,
            marker_len: self.marker_len,
            terms: self.terms@.map_values(|t: Term| t@),
            raw: self.raw.deep_view(),
        }
    }
}

impl ConflictRegion {
    /// Distinct selectable columns: every `Add` term plus each distinct base.
    pub fn columns(&self) -> (res: Vec<Column>)
        ensures
            res@.map_values(|c: Column| c@) == spec_columns(self@.terms),
    {
        let mut cols: Vec<Column> = Vec::new();
        let mut i: usize = 0;
        while i < self.terms.len()
            invariant
                i <= self.terms@.len(),
                cols@.map_values(|c: Column| c@) == spec_columns(self@.terms.take(i as int)),
            decreases self.terms@.len() - i,
        {
            let term = &self.terms[i];
            let ghost prev = cols@.map_values(|c: Column| c@);
            proof {
                assert(self@.terms.take(i + 1).drop_last() =~= self@.terms.take(i as int));
                assert(self@.terms.take(i + 1).last() == term@);
            }
            let mut dup = false;
            if term.kind == TermKind::Remove {
                let mut k: usize = 0;
                while k < cols.len()
                    invariant
                        k <= cols@.len(),
                        prev == cols@.map_values(|c: Column| c@),
                        dup == exists|m: int|
                            0 <= m < k && prev[m].kind == TermKind::Remove && #[trigger] prev[m].content
                                == term@.content,
                    decreases cols@.len() - k,
                {
                    if cols[k].kind == TermKind::Remove && lines_equal(&cols[k].content, &term.content) {
                        assert(prev[k as int].content == term@.content);
                        dup = true;
                    }
                    k += 1;
                }
            }
            if !dup {
                let col = Column {
                    kind: term.kind,
                    label: term.label.duplicate(),
                    content: copy_lines(&term.content),
                };
                cols.push(col);
                assert(cols@.map_values(|c: Column| c@) =~= prev.push(term@));
            }
            i += 1;
        }
        assert(self@.terms.take(i as int) =~= self@.terms);
        cols
    }

    /// Number of present sides (`+++++++` terms).
    pub fn sides(&self) -> (res: usize)
        ensures
            res == count_adds(self@.terms),
    {
        let mut n: usize = 0;
        let mut i: usize = 0;
        while i < self.terms.len()
            invariant
                i <= self.terms@.len(),
                n == count_adds(self@.terms.take(i as int)),
                n <= i,
            decreases self.terms@.len() - i,
        {
            proof {
                assert(self@.terms.take(i + 1).drop_last() =~= self@.terms.take(i as int));
            }
            if self.terms[i].kind == TermKind::Add {
                n += 1;
            }
            i += 1;
        }
        assert(self@.terms.take(i as int) =~= self@.terms);
        n
    }
}

/// A span of a parsed file: either plain context or a conflict region.
#[derive(Debug, Clone)]
pub enum Segment {
    Context(Vec<String>),
    Conflict(ConflictRegion),
}

/// The text of a segment.
pub enum SegmentView {
    Context(Seq<Seq<char>>),
    Conflict(RegionView),
}

impl View for Segment {
    type V = SegmentView;

    open spec fn view(&self) -> SegmentView {
        match self {
            Segment::Context(lines) => SegmentView::Context(lines.deep_view()),
            Segment::Conflict(r) => SegmentView::Conflict(r@),
        }
    }
}

/// How a conflict region has been resolved. Column indices refer to
/// [`ConflictRegion::columns`].
#[derive(Debug, Clone, PartialEq, Eq)]
pub enum Accept {
    /// Take a single side/base.
    Side(usize),
    /// Take several columns concatenated in the given order ("accept both").
    Both(Vec<usize>),
}

/// The column indices an [`Accept`] selects, in order.
pub open spec fn chosen(a: Accept) -> Seq<usize> {
    match a {
        Accept::Side(i) => seq![i],
        Accept::Both(v) => v@,
    }
}

/// A fully parsed materialized file.
#[derive(Debug, Clone)]
pub struct ParsedFile {
    pub segments: Vec<Segment>,
    /// Whether the original text ended with a trailing newline.
    pub trailing_newline: bool,
}

/// The text of a parsed file.
pub struct ParsedView {
    pub segments: Seq<SegmentView>,
    pub trailing_newline: bool,
}

impl View for ParsedFile {
    type V = ParsedView;

    open spec fn view(&self) -> ParsedView {
        ParsedView {
            segments: self.segments@.map_values(|s: Segment| s@),
            trailing_newline: self.trailing_newline,
        }
    }
}

/// The conflict regions among the segments, in order.
pub open spec fn spec_regions(segs: Seq<SegmentView>) -> Seq<RegionView>
    decreases segs.len(),
{
    if segs.len() == 0 {
        Seq::empty()
    } else {
        let prev = spec_regions(segs.drop_last());
        match segs.last() {
            SegmentView::Conflict(r) => prev.push(r),
            SegmentView::Context(_) => prev,
        }
    }
}

/// The lines that the columns `idxs` of `cols` contribute, in order;
/// indices past the end contribute nothing.
pub open spec fn picked_lines(cols: Seq<TermView>, idxs: Seq<usize>) -> Seq<Seq<char>>
    decreases idxs.len(),
{
    if idxs.len() == 0 {
        Seq::empty()
    } else {
        picked_lines(cols, idxs.drop_last()) + if idxs.last() < cols.len() {
            cols[idxs.last() as int].content
        } else {
            Seq::empty()
        }
    }
}

/// Whether some index in `idxs` names one of `n` columns.
pub open spec fn any_valid(idxs: Seq<usize>, n: nat) -> bool {
    exists|k: int| 0 <= k < idxs.len() && #[trigger] idxs[k] < n
}

/// The lines that replace a region resolved by `a`: the content of the chosen
/// columns concatenated in order, or the original markers when no chosen
/// index names a column.
pub open spec fn accept_lines(r: RegionView, a: Accept) -> Seq<Seq<char>> {
    let cols = spec_columns(r.terms);
    if any_valid(chosen(a), cols.len()) {
        picked_lines(cols, chosen(a))
    } else {
        r.raw
    }
}

/// The resolution given for region `k` (none past the end of the list).
pub open spec fn choice_at(res: Seq<Option<Accept>>, k: int) -> Option<Accept> {
    if 0 <= k < res.len() {
        res[k]
    } else {
        None
    }
}

/// The lines a segment renders to, given the choice for it if it is a region.
pub open spec fn segment_lines(seg: SegmentView, choice: Option<Accept>) -> Seq<Seq<char>> {
    match seg {
        SegmentView::Context(lines) => lines,
        SegmentView::Conflict(r) => match choice {
            Some(a) => accept_lines(r, a),
            None => r.raw,
        },
    }
}

/// The lines of a rendered file: each segment in turn, region `k` resolved
/// by `res[k]`.
pub open spec fn rendered_lines(segs: Seq<SegmentView>, res: Seq<Option<Accept>>) -> Seq<
    Seq<char>,
>
    decreases segs.len(),
{
    if segs.len() == 0 {
        Seq::empty()
    } else {
        rendered_lines(segs.drop_last(), res) + segment_lines(
            segs.last(),
            choice_at(res, spec_regions(segs.drop_last()).len() as int),
        )
    }
}

/// The text of a rendered file.
pub open spec fn spec_render(f: ParsedView, res: Seq<Option<Accept>>) -> Seq<char> {
    unlines(rendered_lines(f.segments, res), f.trailing_newline)
}

/// Every region of the file has a resolution (so a file without regions is
/// fully resolved).
pub open spec fn spec_fully_resolved(f: ParsedView, res: Seq<Option<Accept>>) -> bool {
    let total = spec_regions(f.segments).len();
    forall|i: int| 0 <= i < total ==> choice_at(res, i) is Some
}

/// Appends copies of `lines` to `out`.
fn extend_lines(out: &mut Vec<String>, lines: &Vec<String>)
    ensures
        final(out).deep_view() == old(out).deep_view() + lines.deep_view(),
{
    let ghost start = out.deep_view();
    let mut i: usize = 0;
    while i < lines.len()
        invariant
            i <= lines@.len(),
            out.deep_view() == start + lines.deep_view().take(i as int),
        decreases lines@.len() - i,
    {
        let c = lines[i].clone();
        assert(c@ == lines.deep_view()[i as int]);
        let ghost before = out.deep_view();
        out.push(c);
        assert(out.deep_view() =~= before.push(c@));
        i += 1;
        assert(out.deep_view() =~= start + lines.deep_view().take(i as int));
    }
    assert(lines.deep_view().take(i as int) =~= lines.deep_view());
}

/// Append the content selected by `accept` for `region` to `out`. Falls back to
/// the raw markers if the choice references no valid columns.
fn emit_accept(region: &ConflictRegion, accept: &Accept, out: &mut Vec<String>)
    ensures
        final(out).deep_view() == old(out).deep_view() + accept_lines(region@, *accept),
{
    let cols = region.columns();
    let ghost scols = spec_columns(region@.terms);
    let chosen_idx: Vec<usize> = match accept {
        Accept::Side(i) => {
            let mut v: Vec<usize> = Vec::new();
            v.push(*i);
            v
        },
        Accept::Both(idxs) => idxs.clone(),
    };
    assert(chosen_idx@ =~= chosen(*accept));
    let ghost start = out.deep_view();
    let mut emitted = false;
    let mut k: usize = 0;
    while k < chosen_idx.len()
        invariant
            k <= chosen_idx@.len(),
            cols@.map_values(|c: Column| c@) == scols,
            out.deep_view() == start + picked_lines(scols, chosen_idx@.take(k as int)),
            emitted == any_valid(chosen_idx@.take(k as int), scols.len()),
        decreases chosen_idx@.len() - k,
    {
        let i = chosen_idx[k];
        let ghost before = chosen_idx@.take(k as int);
        assert(chosen_idx@.take(k + 1).drop_last() =~= before);
        if i < cols.len() {
            assert(cols@[i as int]@ == scols[i as int]);
            extend_lines(out, &cols[i].content);
            emitted = true;
            assert(chosen_idx@.take(k + 1)[k as int] == i);
        } else {
            proof {
                let next = chosen_idx@.take(k + 1);
                assert(picked_lines(scols, next) =~= picked_lines(scols, before));
                if any_valid(next, scols.len()) {
                    let m = choose|m: int| 0 <= m < k + 1 && #[trigger] next[m] < scols.len();
                    assert(before[m] == next[m]);
                }
            }
        }
        proof {
            if emitted && !any_valid(before, scols.len()) {
                assert(chosen_idx@.take(k + 1)[k as int] < scols.len());
            }
            if any_valid(before, scols.len()) {
                let m = choose|m: int| 0 <= m < k && #[trigger] before[m] < scols.len();
                assert(chosen_idx@.take(k + 1)[m] == before[m]);
            }
        }
        assert(out.deep_view() =~= start + picked_lines(scols, chosen_idx@.take(k + 1)));
        k += 1;
    }
    assert(chosen_idx@.take(k as int) =~= chosen_idx@);
    if !emitted {
        let ghost mid = out.deep_view();
        assert(picked_lines(scols, chosen_idx@) =~= Seq::<Seq<char>>::empty()) by {
            lemma_picked_none(scols, chosen_idx@);
        }
        assert(mid =~= start);
        extend_lines(out, &region.raw);
    }
}

/// Picking only out-of-range columns contributes no line.
proof fn lemma_picked_none(cols: Seq<TermView>, idxs: Seq<usize>)
    requires
        !any_valid(idxs, cols.len()),
    ensures
        picked_lines(cols, idxs) == Seq::<Seq<char>>::empty(),
    decreases idxs.len(),
{
    if idxs.len() > 0 {
        assert(!any_valid(idxs.drop_last(), cols.len())) by {
            if any_valid(idxs.drop_last(), cols.len()) {
                let m = choose|m: int|
                    0 <= m < idxs.drop_last().len() && #[trigger] idxs.drop_last()[m] < cols.len();
                assert(idxs[m] == idxs.drop_last()[m]);
            }
        }
        lemma_picked_none(cols, idxs.drop_last());
        assert(!(idxs[idxs.len() - 1] < cols.len()));
        assert(picked_lines(cols, idxs) =~= Seq::<Seq<char>>::empty());
    }
}

/// The text of `lines` joined by newlines, with a final newline if asked.
pub fn join_lines_text(lines: &Vec<String>, trailing: bool) -> (res: String)
    ensures
        res@ == unlines(lines.deep_view(), trailing),
{
    let mut s = String::new();
    let mut i: usize = 0;
    while i < lines.len()
        invariant
            i <= lines@.len(),
            s@ == join_with(lines.deep_view().take(i as int), '\n'),
        decreases lines@.len() - i,
    {
        let ghost prev = lines.deep_view().take(i as int);
        assert(lines.deep_view().take(i + 1).drop_last() =~= prev);
        if i > 0 {
            push_char(&mut s, '\n');
        }
        s.append(lines[i].as_str());
        i += 1;
        proof {
            if i == 1 {
                assert(s@ =~= join_with(lines.deep_view().take(i as int), '\n'));
            }
        }
    }
    assert(lines.deep_view().take(i as int) =~= lines.deep_view());
    if trailing {
        push_char(&mut s, '\n');
    }
    s
}

impl ParsedFile {
    /// The number of conflict regions.
    pub fn region_count(&self) -> (res: usize)
        ensures
            res == spec_regions(self@.segments).len(),
    {
        let mut n: usize = 0;
        let mut i: usize = 0;
        while i < self.segments.len()
            invariant
                i <= self@.segments.len(),
                n == spec_regions(self@.segments.take(i as int)).len(),
                n <= i,
            decreases self@.segments.len() - i,
        {
            assert(self@.segments.take(i + 1).drop_last() =~= self@.segments.take(i as int));
            match &self.segments[i] {
                Segment::Conflict(_) => {
                    n += 1;
                },
                Segment::Context(_) => {},
            }
            i += 1;
        }
        assert(self@.segments.take(i as int) =~= self@.segments);
        n
    }

    /// The conflict regions, in order.
    pub fn regions(&self) -> (res: Vec<&ConflictRegion>)
        ensures
            res@.len() == spec_regions(self@.segments).len(),
            forall|k: int| 0 <= k < res@.len() ==> res@[k]@ == spec_regions(self@.segments)[k],
    {
        let mut out: Vec<&ConflictRegion> = Vec::new();
        let mut i: usize = 0;
        while i < self.segments.len()
            invariant
                i <= self@.segments.len(),
                out@.len() == spec_regions(self@.segments.take(i as int)).len(),
                forall|k: int|
                    0 <= k < out@.len() ==> out@[k]@ == spec_regions(self@.segments.take(i as int))[k],
            decreases self@.segments.len() - i,
        {
            assert(self@.segments.take(i + 1).drop_last() =~= self@.segments.take(i as int));
            match &self.segments[i] {
                Segment::Conflict(r) => {
                    out.push(r);
                },
                Segment::Context(_) => {},
            }
            i += 1;
        }
        assert(self@.segments.take(i as int) =~= self@.segments);
        out
    }

    /// The `idx`-th conflict region (0-based), if any.
    pub fn region(&self, idx: usize) -> (res: Option<&ConflictRegion>)
        ensures
            match res {
                Some(r) => idx < spec_regions(self@.segments).len() && r@ == spec_regions(
                    self@.segments,
                )[idx as int],
                None => idx >= spec_regions(self@.segments).len(),
            },
    {
        let mut n: usize = 0;
        let mut i: usize = 0;
        while i < self.segments.len()
            invariant
                i <= self@.segments.len(),
                n == spec_regions(self@.segments.take(i as int)).len(),
                n <= idx,
                n <= i,
                forall|k: int|
                    0 <= k < n ==> spec_regions(self@.segments.take(i as int))[k] == #[trigger] spec_regions(
                        self@.segments,
                    )[k],
            decreases self@.segments.len() - i,
        {
            proof {
                assert(self@.segments.take(i + 1).drop_last() =~= self@.segments.take(i as int));
                lemma_regions_prefix(self@.segments, i as int);
                lemma_regions_prefix(self@.segments, i + 1);
            }
            match &self.segments[i] {
                Segment::Conflict(r) => {
                    if n == idx {
                        return Some(r);
                    }
                    n += 1;
                },
                Segment::Context(_) => {},
            }
            i += 1;
        }
        assert(self@.segments.take(i as int) =~= self@.segments);
        None
    }

    /// Reassemble the file text. `resolutions[i]` is the [`Accept`] choice for
    /// region `i`; `None` re-emits the original conflict markers verbatim.
    pub fn render(&self, resolutions: &[Option<Accept>]) -> (res: String)
        ensures
            res@ == spec_render(self@, resolutions@),
    {
        let mut out: Vec<String> = Vec::new();
        let mut region_idx: usize = 0;
        let mut i: usize = 0;
        while i < self.segments.len()
            invariant
                i <= self@.segments.len(),
                region_idx == spec_regions(self@.segments.take(i as int)).len(),
                region_idx <= i,
                out.deep_view() == rendered_lines(self@.segments.take(i as int), resolutions@),
            decreases self@.segments.len() - i,
        {
            assert(self@.segments.take(i + 1).drop_last() =~= self@.segments.take(i as int));
            match &self.segments[i] {
                Segment::Context(lines) => {
                    extend_lines(&mut out, lines);
                },
                Segment::Conflict(region) => {
                    let choice = if region_idx < resolutions.len() {
                        &resolutions[region_idx]
                    } else {
                        &None
                    };
                    match choice {
                        Some(accept) => emit_accept(region, accept, &mut out),
                        None => extend_lines(&mut out, &region.raw),
                    }
                    region_idx += 1;
                },
            }
            i += 1;
        }
        assert(self@.segments.take(i as int) =~= self@.segments);
        join_lines_text(&out, self.trailing_newline)
    }

    /// True when every conflict region has a chosen resolution.
    pub fn fully_resolved(&self, resolutions: &[Option<Accept>]) -> (res: bool)
        ensures
            res == spec_fully_resolved(self@, resolutions@),
    {
        let total = self.region_count();
        let mut i: usize = 0;
        while i < total
            invariant
                i <= total,
                total == spec_regions(self@.segments).len(),
                forall|j: int| 0 <= j < i ==> choice_at(resolutions@, j) is Some,
            decreases total - i,
        {
            if i >= resolutions.len() || resolutions[i].is_none() {
                assert(!(choice_at(resolutions@, i as int) is Some));
                return false;
            }
            i += 1;
        }
        true
    }
}

/// The regions of a prefix of the segments are a prefix of the regions.
pub proof fn lemma_regions_prefix(segs: Seq<SegmentView>, i: int)
    requires
        0 <= i <= segs.len(),
    ensures
        spec_regions(segs.take(i)).len() <= spec_regions(segs).len(),
        forall|k: int|
            0 <= k < spec_regions(segs.take(i)).len() ==> spec_regions(segs.take(i))[k]
                == spec_regions(segs)[k],
    decreases segs.len() - i,
{
    if i < segs.len() {
        lemma_regions_prefix(segs, i + 1);
        assert(segs.take(i + 1).drop_last() =~= segs.take(i));
    } else {
        assert(segs.take(i) =~= segs);
    }
}

/// Every present side becomes a column: the columns hold as many `Add`
/// entries as the terms.
pub proof fn lemma_columns_keep_sides(terms: Seq<TermView>)
    ensures
        count_adds(spec_columns(terms)) == count_adds(terms),
    decreases terms.len(),
{
    if terms.len() > 0 {
        lemma_columns_keep_sides(terms.drop_last());
        let prev = spec_columns(terms.drop_last());
        let t = terms.last();
        if !(t.kind == TermKind::Remove && has_base_with(prev, t.content)) {
            assert(prev.push(t).drop_last() =~= prev);
        }
    }
}

/// No two base columns have the same content.
pub proof fn lemma_columns_distinct_bases(terms: Seq<TermView>)
    ensures
        forall|i: int, j: int|
            0 <= i < j < spec_columns(terms).len() && spec_columns(terms)[i].kind == TermKind::Remove
                && spec_columns(terms)[j].kind == TermKind::Remove ==> #[trigger] spec_columns(
                terms,
            )[i].content != #[trigger] spec_columns(terms)[j].content,
    decreases terms.len(),
{
    if terms.len() > 0 {
        lemma_columns_distinct_bases(terms.drop_last());
        let prev = spec_columns(terms.drop_last());
        let cols = spec_columns(terms);
        let t = terms.last();
        if !(t.kind == TermKind::Remove && has_base_with(prev, t.content)) {
            assert forall|i: int, j: int|
                0 <= i < j < cols.len() && cols[i].kind == TermKind::Remove && cols[j].kind
                    == TermKind::Remove implies #[trigger] cols[i].content != #[trigger] cols[j].content by {
                if j == cols.len() - 1 {
                    assert(cols[i] == prev[i]);
                    if cols[i].content == cols[j].content {
                        assert(has_base_with(prev, t.content));
                    }
                } else {
                    assert(cols[i] == prev[i]);
                    assert(cols[j] == prev[j]);
                }
            }
        }
    }
}

/// No term is lost: each term's kind and content are offered by some column.
pub proof fn lemma_columns_cover_terms(terms: Seq<TermView>)
    ensures
        forall|k: int|
            0 <= k < terms.len() ==> exists|m: int|
                0 <= m < spec_columns(terms).len() && spec_columns(terms)[m].kind == (
                #[trigger] terms[k]).kind && spec_columns(terms)[m].content == terms[k].content,
    decreases terms.len(),
{
    if terms.len() > 0 {
        let prev_terms = terms.drop_last();
        lemma_columns_cover_terms(prev_terms);
        let prev = spec_columns(prev_terms);
        let cols = spec_columns(terms);
        let t = terms.last();
        assert forall|k: int| 0 <= k < terms.len() implies exists|m: int|
            0 <= m < cols.len() && cols[m].kind == (#[trigger] terms[k]).kind && cols[m].content
                == terms[k].content by {
            if k < terms.len() - 1 {
                assert(terms[k] == prev_terms[k]);
                let m = choose|m: int|
                    0 <= m < prev.len() && prev[m].kind == (#[trigger] prev_terms[k]).kind
                        && prev[m].content == prev_terms[k].content;
                assert(cols[m] == prev[m]);
            } else if t.kind == TermKind::Remove && has_base_with(prev, t.content) {
                let m = choose|m: int|
                    0 <= m < prev.len() && prev[m].kind == TermKind::Remove && #[trigger] prev[m].content
                        == t.content;
                assert(cols[m] == prev[m]);
            } else {
                assert(cols[cols.len() - 1] == t);
            }
        }
    }
}


/// Accepting a single column replaces the region by exactly that column's
/// lines, even where the column holds no lines (a side that deletes).
pub proof fn lemma_accept_side(r: RegionView, c: usize)
    requires
        c < spec_columns(r.terms).len(),
    ensures
        accept_lines(r, Accept::Side(c)) == spec_columns(r.terms)[c as int].content,
{
    let cols = spec_columns(r.terms);
    assert(seq![c][0] < cols.len());
    assert(seq![c].drop_last() =~= Seq::<usize>::empty());
    assert(picked_lines(cols, Seq::<usize>::empty()) == Seq::<Seq<char>>::empty());
    assert(picked_lines(cols, seq![c]) == picked_lines(cols, Seq::<usize>::empty())
        + cols[c as int].content);
    assert(picked_lines(cols, seq![c]) =~= cols[c as int].content);
}

/// Accepting several columns where none of the indices names a column
/// re-emits the original markers unchanged.
pub proof fn lemma_accept_none_valid(r: RegionView, v: Vec<usize>)
    requires
        forall|k: int| 0 <= k < v@.len() ==> v@[k] >= spec_columns(r.terms).len(),
    ensures
        accept_lines(r, Accept::Both(v)) == r.raw,
{
}

/// Adding a column index to an "accept both" list whose indices name no
/// column yet gives exactly the lines of that column when it exists (empty
/// or not), and the original markers when it does not.
pub proof fn lemma_accept_first_valid(r: RegionView, v: Vec<usize>, w: Vec<usize>, c: usize)
    requires
        forall|k: int| 0 <= k < v@.len() ==> v@[k] >= spec_columns(r.terms).len(),
        w@ == v@.push(c),
    ensures
        c < spec_columns(r.terms).len() ==> accept_lines(r, Accept::Both(w))
            == spec_columns(r.terms)[c as int].content,
        c >= spec_columns(r.terms).len() ==> accept_lines(r, Accept::Both(w)) == r.raw,
{
    let cols = spec_columns(r.terms);
    assert(w@.drop_last() =~= v@);
    lemma_picked_none(cols, v@);
    if c < cols.len() {
        assert(w@[w@.len() - 1] < cols.len());
        assert(picked_lines(cols, w@) =~= cols[c as int].content);
    } else {
        assert forall|k: int| 0 <= k < w@.len() implies w@[k] >= cols.len() by {
            if k < v@.len() {
                assert(w@[k] == v@[k]);
            }
        }
    }
}

/// Once some index of an "accept both" list names a column, adding another
/// index appends that column's lines to what the region renders to (nothing
/// when the index names no column).
pub proof fn lemma_accept_push(r: RegionView, v: Vec<usize>, w: Vec<usize>, c: usize)
    requires
        exists|k: int| 0 <= k < v@.len() && v@[k] < spec_columns(r.terms).len(),
        w@ == v@.push(c),
    ensures
        c < spec_columns(r.terms).len() ==> accept_lines(r, Accept::Both(w))
            == accept_lines(r, Accept::Both(v)) + spec_columns(r.terms)[c as int].content,
        c >= spec_columns(r.terms).len() ==> accept_lines(r, Accept::Both(w))
            == accept_lines(r, Accept::Both(v)),
{
    let cols = spec_columns(r.terms);
    assert(w@.drop_last() =~= v@);
    let k = choose|k: int| 0 <= k < v@.len() && v@[k] < cols.len();
    assert(w@[k] == v@[k]);
    assert(any_valid(w@, cols.len()));
    assert(any_valid(v@, cols.len()));
    if c >= cols.len() {
        assert(picked_lines(cols, w@) =~= picked_lines(cols, v@));
    }
}

} // verus!
