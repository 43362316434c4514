//! What the review screen shows, as plain values: styled runs of text for
//! the column panes, the accent colour of each column, and the titles and
//! marks around them. Drawing them in the terminal is the program's
//! business; this module decides what is drawn.
//!
//! A pane line of a side is its text with three layers of styling: the
//! syntax colour of each character (from [`crate::highlight`]), a background
//! for inserted lines, and a stronger background (in bold) for the words the
//! diff emphasises. Equal neighbouring cells are merged into runs.

use vstd::prelude::*;
use crate::app::{count_chosen, current_choice_of, current_columns, current_file, region_total, App, FileState};
use crate::conflict::{copy_lines, count_adds, Column, TermKind, TermView};
use crate::diff::{DiffLine, DiffLineView, DiffTag, Word, WordView};
use crate::highlight::{lines_view, plain_style, Rgb, Seg, SegView, Style};
use crate::text::{chars_of, decimal, decimal_string, string_of};

verus! {

broadcast use vstd::string::group_string_axioms;

// ---------------------------------------------------------------------------
// Cells and runs
// ---------------------------------------------------------------------------

/// The look of a character cell: foreground, italics, background, bold and
/// dim.
#[derive(Debug, Clone, Copy, PartialEq, Eq, Structural)]
pub struct Paint {
    pub fg: Option<Rgb>,
    pub italic: bool,
    pub bg: Option<Rgb>,
    pub bold: bool,
    pub dim: bool,
}

/// A run of text drawn with one paint.
#[derive(Debug, Clone)]
pub struct Run {
    pub text: String,
    pub paint: Paint,
}

/// The text of a [`Run`].
pub struct RunView {
    pub text: Seq<char>,
    pub paint: Paint,
}

impl View for Run {
    type V = RunView;

    open spec fn view(&self) -> RunView {
        RunView { text: self.text@, paint: self.paint }
    }
}

/// The view of a list of runs.
pub open spec fn runs_view(v: Seq<Run>) -> Seq<RunView> {
    v.map_values(|r: Run| r@)
}

/// The value that covers position `i` when `parts` lay their lengths end to
/// end: the value of the part that holds `i`, or `dflt` past them all.
pub open spec fn cover_at<A>(parts: Seq<(nat, A)>, i: int, dflt: A) -> A
    decreases parts.len(),
{
    if parts.len() == 0 {
        dflt
    } else if i < parts[0].0 {
        parts[0].1
    } else {
        cover_at(parts.drop_first(), i - parts[0].0, dflt)
    }
}

/// The total length of the parts.
pub open spec fn cover_len<A>(parts: Seq<(nat, A)>) -> nat
    decreases parts.len(),
{
    if parts.len() == 0 {
        0
    } else {
        cover_len(parts.drop_last()) + parts.last().0
    }
}

proof fn lemma_cover_len_first<A>(parts: Seq<(nat, A)>)
    requires
        parts.len() > 0,
    ensures
        cover_len(parts) == parts[0].0 + cover_len(parts.drop_first()),
    decreases parts.len(),
{
    if parts.len() > 1 {
        lemma_cover_len_first(parts.drop_last());
        assert(parts.drop_last().drop_first() =~= parts.drop_first().drop_last());
        assert(parts.drop_first().last() == parts.last());
    } else {
        assert(parts.drop_last() =~= Seq::<(nat, A)>::empty());
        assert(parts.drop_first() =~= Seq::<(nat, A)>::empty());
    }
}

/// Within part `k` the cover is that part's value; past all parts it is the
/// default.
proof fn lemma_cover_at<A>(parts: Seq<(nat, A)>, k: int, j: int, dflt: A)
    requires
        0 <= k <= parts.len(),
        cover_len(parts.take(k)) <= j,
        k < parts.len() ==> j < cover_len(parts.take(k)) + parts[k].0,
    ensures
        cover_at(parts, j, dflt) == if k < parts.len() {
            parts[k].1
        } else {
            dflt
        },
    decreases parts.len(),
{
    if parts.len() > 0 {
        if k == 0 {
            assert(parts.take(0) =~= Seq::<(nat, A)>::empty());
        } else {
            let rest = parts.drop_first();
            lemma_cover_len_first(parts.take(k));
            assert(parts.take(k).drop_first() =~= rest.take(k - 1));
            lemma_cover_at(rest, k - 1, j - parts[0].0, dflt);
        }
    }
}

/// The lengths and values of the parts.
pub open spec fn parts_view<A>(parts: Seq<(usize, A)>) -> Seq<(nat, A)> {
    parts.map_values(|p: (usize, A)| (p.0 as nat, p.1))
}

/// The first `n` positions covered by `parts`.
fn fill_cover<A: Copy>(n: usize, parts: &Vec<(usize, A)>, dflt: A) -> (res: Vec<A>)
    ensures
        res@.len() == n,
        forall|j: int| 0 <= j < n ==> #[trigger] res@[j] == cover_at(parts_view(parts@), j, dflt),
{
    let ghost pv = parts_view(parts@);
    let mut res: Vec<A> = Vec::new();
    let mut t: usize = 0;
    while t < n
        invariant
            t <= n,
            res@.len() == t,
            forall|j: int| 0 <= j < t ==> #[trigger] res@[j] == dflt,
        decreases n - t,
    {
        res.push(dflt);
        t += 1;
    }
    let mut i: usize = 0;
    let mut k: usize = 0;
    assert(pv.take(0) =~= Seq::<(nat, A)>::empty());
    while k < parts.len() && i < n
        invariant
            k <= parts@.len(),
            i <= n,
            res@.len() == n,
            pv == parts_view(parts@),
            i == n || i == cover_len(pv.take(k as int)),
            i <= cover_len(pv.take(k as int)),
            forall|j: int| 0 <= j < i ==> #[trigger] res@[j] == cover_at(pv, j, dflt),
            forall|j: int| i <= j < n ==> #[trigger] res@[j] == dflt,
        decreases parts@.len() - k,
    {
        let (len, a) = parts[k];
        let end = if len < n - i {
            i + len
        } else {
            n
        };
        assert(pv.take(k + 1).drop_last() =~= pv.take(k as int));
        let mut u = i;
        while u < end
            invariant
                i <= u <= end <= n,
                res@.len() == n,
                forall|j: int| 0 <= j < i ==> #[trigger] res@[j] == cover_at(pv, j, dflt),
                forall|j: int| i <= j < u ==> #[trigger] res@[j] == a,
                forall|j: int| u <= j < n ==> #[trigger] res@[j] == dflt,
            decreases end - u,
        {
            res.set(u, a);
            u += 1;
        }
        proof {
            assert forall|j: int| i <= j < end implies #[trigger] res@[j] == cover_at(pv, j, dflt) by {
                lemma_cover_at(pv, k as int, j, dflt);
            }
        }
        i = end;
        k += 1;
    }
    proof {
        if i < n {
            assert(k == parts@.len());
            assert(pv.take(k as int) =~= pv);
            assert forall|j: int| i <= j < n implies #[trigger] res@[j] == cover_at(pv, j, dflt) by {
                lemma_cover_at(pv, k as int, j, dflt);
            }
        }
    }
    res
}

/// Merge neighbouring characters of equal paint into runs.
pub open spec fn runs(cs: Seq<char>, ps: Seq<Paint>) -> Seq<RunView>
    decreases cs.len(),
{
    if cs.len() == 0 {
        Seq::empty()
    } else {
        let prev = runs(cs.drop_last(), ps.drop_last());
        if prev.len() > 0 && prev.last().paint == ps[cs.len() - 1] {
            prev.update(prev.len() - 1, RunView { text: prev.last().text.push(cs.last()), paint: prev.last().paint })
        } else {
            prev.push(RunView { text: seq![cs.last()], paint: ps[cs.len() - 1] })
        }
    }
}

/// The text of the runs, one after the other.
pub open spec fn runs_text(rs: Seq<RunView>) -> Seq<char>
    decreases rs.len(),
{
    if rs.len() == 0 {
        Seq::empty()
    } else {
        runs_text(rs.drop_last()) + rs.last().text
    }
}

/// The paint of each character of the runs, one after the other.
pub open spec fn runs_paints(rs: Seq<RunView>) -> Seq<Paint>
    decreases rs.len(),
{
    if rs.len() == 0 {
        Seq::empty()
    } else {
        runs_paints(rs.drop_last()) + Seq::new(rs.last().text.len(), |i: int| rs.last().paint)
    }
}

proof fn lemma_runs_text(cs: Seq<char>, ps: Seq<Paint>)
    requires
        cs.len() == ps.len(),
    ensures
        runs_text(runs(cs, ps)) == cs,
        runs_paints(runs(cs, ps)) == ps,
    decreases cs.len(),
{
    if cs.len() > 0 {
        let c0 = cs.drop_last();
        let p0 = ps.drop_last();
        lemma_runs_text(c0, p0);
        let prev = runs(c0, p0);
        let c = cs.last();
        let p = ps[cs.len() - 1];
        assert(c0.push(c) =~= cs);
        assert(p0.push(p) =~= ps);
        if prev.len() > 0 && prev.last().paint == p {
            let r = prev.last();
            let nr = RunView { text: r.text.push(c), paint: r.paint };
            let next = prev.update(prev.len() - 1, nr);
            assert(runs(cs, ps) == next);
            assert(next.drop_last() =~= prev.drop_last());
            let t0 = runs_text(prev.drop_last());
            let q0 = runs_paints(prev.drop_last());
            assert(t0 + r.text.push(c) =~= (t0 + r.text).push(c));
            let sq = Seq::new(r.text.len(), |i: int| r.paint);
            assert(Seq::new(nr.text.len(), |i: int| nr.paint) =~= sq.push(p));
            assert(q0 + sq.push(p) =~= (q0 + sq).push(p));
        } else {
            let nr = RunView { text: seq![c], paint: p };
            let next = prev.push(nr);
            assert(runs(cs, ps) == next);
            assert(next.drop_last() =~= prev);
            assert(Seq::new(1, |i: int| p) =~= seq![p]);
        }
    }
}

/// Runs that are never empty and whose neighbours differ in paint.
pub open spec fn maximal_runs(rs: Seq<RunView>) -> bool {
    &&& forall|k: int| 0 <= k < rs.len() ==> #[trigger] rs[k].text.len() > 0
    &&& forall|k: int| 0 <= k < rs.len() - 1 ==> #[trigger] rs[k].paint != rs[k + 1].paint
}

proof fn lemma_maximal_step(prev: Seq<RunView>, c: char, p: Paint)
    requires
        maximal_runs(prev),
    ensures
        prev.len() > 0 && prev.last().paint == p ==> maximal_runs(
            prev.update(
                prev.len() - 1,
                RunView { text: prev.last().text.push(c), paint: prev.last().paint },
            ),
        ),
        !(prev.len() > 0 && prev.last().paint == p) ==> maximal_runs(
            prev.push(RunView { text: seq![c], paint: p }),
        ),
{
    if prev.len() > 0 && prev.last().paint == p {
        let r = prev.last();
        let next = prev.update(prev.len() - 1, RunView { text: r.text.push(c), paint: r.paint });
        assert forall|k: int| 0 <= k < next.len() implies #[trigger] next[k].text.len() > 0 by {
            if k < prev.len() - 1 {
                assert(next[k] == prev[k]);
            }
        }
        assert forall|k: int| 0 <= k < next.len() - 1 implies #[trigger] next[k].paint != next[k
            + 1].paint by {
            assert(next[k] == prev[k]);
            assert(next[k + 1].paint == prev[k + 1].paint);
        }
    } else {
        let next = prev.push(RunView { text: seq![c], paint: p });
        assert forall|k: int| 0 <= k < next.len() implies #[trigger] next[k].text.len() > 0 by {
            if k < prev.len() {
                assert(next[k] == prev[k]);
            }
        }
        assert forall|k: int| 0 <= k < next.len() - 1 implies #[trigger] next[k].paint != next[k
            + 1].paint by {
            assert(next[k] == prev[k]);
            if k + 1 < prev.len() {
                assert(next[k + 1] == prev[k + 1]);
            }
        }
    }
}

proof fn lemma_runs_shape(cs: Seq<char>, ps: Seq<Paint>)
    requires
        cs.len() == ps.len(),
    ensures
        maximal_runs(runs(cs, ps)),
    decreases cs.len(),
{
    if cs.len() > 0 {
        lemma_runs_shape(cs.drop_last(), ps.drop_last());
        lemma_maximal_step(runs(cs.drop_last(), ps.drop_last()), cs.last(), ps[cs.len() - 1]);
    }
}

/// Merging cells into runs loses nothing and merges as far as it can: the
/// runs spell the text, paint each character as before, are never empty,
/// and no two neighbours share a paint.
pub proof fn lemma_runs_exact(cs: Seq<char>, ps: Seq<Paint>)
    requires
        cs.len() == ps.len(),
    ensures
        runs_text(runs(cs, ps)) == cs,
        runs_paints(runs(cs, ps)) == ps,
        maximal_runs(runs(cs, ps)),
{
    lemma_runs_text(cs, ps);
    lemma_runs_shape(cs, ps);
}

/// The characters of `cs` grouped into runs of equal paint.
fn coalesce(cs: &Vec<char>, ps: &Vec<Paint>) -> (res: Vec<Run>)
    requires
        cs@.len() == ps@.len(),
    ensures
        runs_view(res@) == runs(cs@, ps@),
{
    let mut out: Vec<Run> = Vec::new();
    let mut start: usize = 0;
    let mut i: usize = 0;
    assert(cs@.take(0) =~= Seq::<char>::empty());
    assert(runs_view(out@) =~= Seq::<RunView>::empty());
    while i < cs.len()
        invariant
            start <= i <= cs@.len() == ps@.len(),
            i == 0 ==> start == 0,
            i > 0 ==> start < i,
            forall|j: int| start <= j < i ==> #[trigger] ps@[j] == ps@[start as int],
            i > 0 ==> runs(cs@.take(i as int), ps@.take(i as int)) == runs_view(out@).push(
                RunView { text: cs@.subrange(start as int, i as int), paint: ps@[start as int] },
            ),
            i == 0 ==> out@.len() == 0,
            out@.len() > 0 ==> runs_view(out@).last().paint != ps@[start as int],
        decreases cs@.len() - i,
    {
        let ghost pre_c = cs@.take(i as int);
        let ghost pre_p = ps@.take(i as int);
        assert(cs@.take(i + 1).drop_last() =~= pre_c);
        assert(ps@.take(i + 1).drop_last() =~= pre_p);
        let ghost prev = runs(pre_c, pre_p);
        let ghost c = cs@[i as int];
        let ghost p = ps@[i as int];
        assert(cs@.take(i + 1).last() == c);
        assert(ps@.take(i + 1)[i as int] == p);
        if i > 0 && ps[i] != ps[start] {
            let ghost old_start = start;
            let text = string_of(cs, start, i);
            let ghost before = runs_view(out@);
            out.push(Run { text, paint: ps[start] });
            assert(runs_view(out@) =~= before.push(
                RunView { text: cs@.subrange(old_start as int, i as int), paint: ps@[old_start as int] },
            ));
            assert(prev == runs_view(out@));
            assert(prev.last().paint == ps@[old_start as int]);
            start = i;
            assert(seq![c] =~= cs@.subrange(i as int, i + 1));
            assert(runs(cs@.take(i + 1), ps@.take(i + 1)) == prev.push(RunView { text: seq![c], paint: p }));
        } else if i == 0 {
            assert(pre_c.len() == 0);
            assert(prev =~= Seq::<RunView>::empty());
            assert(runs_view(out@) =~= Seq::<RunView>::empty());
            assert(seq![c] =~= cs@.subrange(0, 1));
            assert(runs(cs@.take(1), ps@.take(1)) == prev.push(RunView { text: seq![c], paint: p }));
        } else {
            assert(prev.last().text.push(c) =~= cs@.subrange(start as int, i + 1));
            assert(runs(cs@.take(i + 1), ps@.take(i + 1)) == prev.update(
                prev.len() - 1,
                RunView { text: prev.last().text.push(c), paint: prev.last().paint },
            ));
            assert(runs(cs@.take(i + 1), ps@.take(i + 1)) =~= runs_view(out@).push(
                RunView { text: cs@.subrange(start as int, i + 1), paint: ps@[start as int] },
            ));
        }
        i += 1;
    }
    assert(cs@.take(i as int) =~= cs@);
    assert(ps@.take(i as int) =~= ps@);
    if i > 0 {
        let text = string_of(cs, start, i);
        let ghost before = runs_view(out@);
        out.push(Run { text, paint: ps[start] });
        assert(runs_view(out@) =~= before.push(
            RunView { text: cs@.subrange(start as int, i as int), paint: ps@[start as int] },
        ));
    }
    out
}

// ---------------------------------------------------------------------------
// Styled pane lines
// ---------------------------------------------------------------------------

/// The syntax style of each character, by the lengths of the segments.
pub open spec fn seg_parts(segs: Seq<SegView>) -> Seq<(nat, Style)> {
    segs.map_values(|s: SegView| (s.text.len(), s.style))
}

/// The emphasis of each character, by the lengths of the words.
pub open spec fn word_parts(words: Seq<WordView>) -> Seq<(nat, bool)> {
    words.map_values(|w: WordView| (w.text.len(), w.emphasized))
}

/// The paint of a cell: the syntax colour, on the emphasis background in
/// bold where the diff emphasises it, else on the line's background.
pub open spec fn cell_paint(st: Style, emph: bool, line_bg: Option<Rgb>, emph_bg: Option<Rgb>) -> Paint {
    Paint {
        fg: st.fg,
        italic: st.italic,
        bg: if emph {
            emph_bg
        } else {
            line_bg
        },
        bold: emph,
        dim: false,
    }
}

/// The paint of each of the first `n` cells of a line.
pub open spec fn line_paints(
    n: nat,
    segs: Seq<SegView>,
    words: Seq<WordView>,
    line_bg: Option<Rgb>,
    emph_bg: Option<Rgb>,
) -> Seq<Paint> {
    Seq::new(
        n,
        |i: int|
            cell_paint(
                cover_at(seg_parts(segs), i, plain_style()),
                cover_at(word_parts(words), i, false),
                line_bg,
                emph_bg,
            ),
    )
}

/// A plain cell on background `bg`.
pub open spec fn bg_paint(bg: Option<Rgb>) -> Paint {
    Paint { fg: None, italic: false, bg: bg, bold: false, dim: false }
}

/// The runs of a pane line: its characters painted by syntax, emphasis and
/// line background. An empty line is a single blank cell on the line's
/// background, or nothing without one.
pub open spec fn spec_styled_line(
    text: Seq<char>,
    segs: Seq<SegView>,
    words: Seq<WordView>,
    line_bg: Option<Rgb>,
    emph_bg: Option<Rgb>,
) -> Seq<RunView> {
    if text.len() == 0 {
        match line_bg {
            Some(bg) => seq![RunView { text: seq![' '], paint: bg_paint(Some(bg)) }],
            None => Seq::empty(),
        }
    } else {
        runs(text, line_paints(text.len(), segs, words, line_bg, emph_bg))
    }
}

/// Overlay syntax colours (`segs`) with the line background (`line_bg`)
/// and the diff's emphasis (`words` on `emph_bg`, in bold), merging equal
/// neighbouring cells into runs.
pub fn styled_diff_line(
    text: &str,
    segs: &[Seg],
    words: &[Word],
    line_bg: Option<Rgb>,
    emph_bg: Option<Rgb>,
) -> (res: Vec<Run>)
    ensures
        runs_view(res@) == spec_styled_line(
            text@,
            segs@.map_values(|s: Seg| s@),
            words@.map_values(|w: Word| w@),
            line_bg,
            emph_bg,
        ),
{
    let cs = chars_of(text);
    let n = cs.len();
    if n == 0 {
        let mut out: Vec<Run> = Vec::new();
        match line_bg {
            Some(bg) => {
                proof {
                    reveal_strlit(" ");
                }
                let blank = String::from_str(" ");
                assert(blank@ =~= seq![' ']);
                out.push(Run { text: blank, paint: Paint { fg: None, italic: false, bg: Some(bg), bold: false, dim: false } });
                assert(runs_view(out@) =~= seq![RunView { text: seq![' '], paint: bg_paint(Some(bg)) }]);
            },
            None => {
                assert(runs_view(out@) =~= Seq::<RunView>::empty());
            },
        }
        return out;
    }
    let ghost sv = segs@.map_values(|s: Seg| s@);
    let ghost wv = words@.map_values(|w: Word| w@);
    let mut sp: Vec<(usize, Style)> = Vec::new();
    let mut k: usize = 0;
    while k < segs.len()
        invariant
            k <= segs@.len(),
            sv == segs@.map_values(|s: Seg| s@),
            parts_view(sp@) == seg_parts(sv).take(k as int),
        decreases segs@.len() - k,
    {
        let len = segs[k].text.as_str().unicode_len();
        assert(sv[k as int] == segs@[k as int]@);
        let ghost before = parts_view(sp@);
        sp.push((len, segs[k].style));
        assert(parts_view(sp@) =~= before.push((len as nat, segs@[k as int].style)));
        assert(seg_parts(sv).take(k + 1) =~= seg_parts(sv).take(k as int).push(seg_parts(sv)[k as int]));
        k += 1;
        assert(parts_view(sp@) =~= seg_parts(sv).take(k as int));
    }
    assert(seg_parts(sv).take(k as int) =~= seg_parts(sv));
    let mut wp: Vec<(usize, bool)> = Vec::new();
    k = 0;
    while k < words.len()
        invariant
            k <= words@.len(),
            wv == words@.map_values(|w: Word| w@),
            parts_view(wp@) == word_parts(wv).take(k as int),
        decreases words@.len() - k,
    {
        let len = words[k].text.as_str().unicode_len();
        assert(wv[k as int] == words@[k as int]@);
        let ghost before = parts_view(wp@);
        wp.push((len, words[k].emphasized));
        assert(parts_view(wp@) =~= before.push((len as nat, words@[k as int].emphasized)));
        assert(word_parts(wv).take(k + 1) =~= word_parts(wv).take(k as int).push(word_parts(wv)[k as int]));
        k += 1;
        assert(parts_view(wp@) =~= word_parts(wv).take(k as int));
    }
    assert(word_parts(wv).take(k as int) =~= word_parts(wv));
    let fg = fill_cover(n, &sp, Style { fg: None, italic: false });
    let em = fill_cover(n, &wp, false);
    let ghost target = line_paints(n as nat, sv, wv, line_bg, emph_bg);
    let mut ps: Vec<Paint> = Vec::new();
    let mut j: usize = 0;
    while j < n
        invariant
            j <= n == fg@.len() == em@.len(),
            n == cs@.len(),
            target == line_paints(n as nat, sv, wv, line_bg, emph_bg),
            forall|t: int| 0 <= t < n ==> #[trigger] fg@[t] == cover_at(seg_parts(sv), t, plain_style()),
            forall|t: int| 0 <= t < n ==> #[trigger] em@[t] == cover_at(word_parts(wv), t, false),
            ps@ == target.take(j as int),
        decreases n - j,
    {
        let st = fg[j];
        let e = em[j];
        let paint = Paint {
            fg: st.fg,
            italic: st.italic,
            bg: if e {
                emph_bg
            } else {
                line_bg
            },
            bold: e,
            dim: false,
        };
        ps.push(paint);
        j += 1;
        assert(ps@ =~= target.take(j as int));
    }
    assert(target.take(j as int) =~= target);
    coalesce(&cs, &ps)
}

// ---------------------------------------------------------------------------
// Pane bodies
// ---------------------------------------------------------------------------

/// Foreground of a removed line.
pub open spec fn delete_fg() -> Rgb {
    Rgb { r: 0xc0, g: 0x60, b: 0x68 }
}

/// Background of a removed line.
pub open spec fn delete_bg() -> Rgb {
    Rgb { r: 46, g: 26, b: 30 }
}

/// Background of an inserted line.
pub open spec fn insert_bg() -> Rgb {
    Rgb { r: 24, g: 44, b: 30 }
}

/// Background of an emphasised word.
pub open spec fn insert_emph_bg() -> Rgb {
    Rgb { r: 40, g: 84, b: 50 }
}

/// The paint of a removed line (dimmed for its `-` sign).
pub open spec fn delete_paint(dim: bool) -> Paint {
    Paint { fg: Some(delete_fg()), italic: false, bg: Some(delete_bg()), bold: false, dim: dim }
}

/// The syntax segments of side line `i`, if there is one.
pub open spec fn segs_for(hl: Seq<Seq<SegView>>, side_line: Option<usize>) -> Seq<SegView> {
    match side_line {
        Some(i) => if i < hl.len() {
            hl[i as int]
        } else {
            Seq::empty()
        },
        None => Seq::empty(),
    }
}

/// The runs of one diff line of a pane: a removed line is a dim `-` and its
/// text in the removal colours; any other line is its text with the syntax
/// colours of its side line, on the insertion background if inserted.
pub open spec fn spec_body_line(dl: DiffLineView, hl: Seq<Seq<SegView>>) -> Seq<RunView> {
    if dl.tag == DiffTag::Delete {
        seq![
            RunView { text: seq!['-'], paint: delete_paint(true) },
            RunView { text: seq![' '] + dl.text, paint: delete_paint(false) },
        ]
    } else {
        spec_styled_line(
            dl.text,
            segs_for(hl, dl.side_line),
            dl.words,
            if dl.tag == DiffTag::Insert {
                Some(insert_bg())
            } else {
                None
            },
            Some(insert_emph_bg()),
        )
    }
}

fn no_segs() -> (res: Vec<Seg>)
    ensures
        res@.len() == 0,
{
    Vec::new()
}

/// The runs of one diff line of a pane, with `hl` the syntax lines of the
/// side.
pub fn body_line(dl: &DiffLine, hl: &[Vec<Seg>]) -> (res: Vec<Run>)
    ensures
        runs_view(res@) == spec_body_line(dl@, lines_view(hl@)),
{
    let fg = Rgb { r: 0xc0, g: 0x60, b: 0x68 };
    let bg = Rgb { r: 46, g: 26, b: 30 };
    match dl.tag {
        DiffTag::Delete => {
            let mut out: Vec<Run> = Vec::new();
            let minus = String::from_str("-");
            let mut rest = String::from_str(" ");
            proof {
                reveal_strlit("-");
                reveal_strlit(" ");
            }
            assert(minus@ =~= seq!['-']);
            assert(rest@ =~= seq![' ']);
            rest.append(dl.text.as_str());
            assert(rest@ =~= seq![' '] + dl.text@);
            out.push(Run { text: minus, paint: Paint { fg: Some(fg), italic: false, bg: Some(bg), bold: false, dim: true } });
            out.push(Run { text: rest, paint: Paint { fg: Some(fg), italic: false, bg: Some(bg), bold: false, dim: false } });
            assert(runs_view(out@) =~= spec_body_line(dl@, lines_view(hl@)));
            out
        },
        _ => {
            let empty = no_segs();
            let segs: &[Seg] = match dl.side_line {
                Some(i) => if i < hl.len() {
                    hl[i].as_slice()
                } else {
                    empty.as_slice()
                },
                None => empty.as_slice(),
            };
            assert(segs@.map_values(|s: Seg| s@) =~= segs_for(lines_view(hl@), dl.side_line));
            let line_bg = if dl.tag == DiffTag::Insert {
                Some(Rgb { r: 24, g: 44, b: 30 })
            } else {
                None
            };
            styled_diff_line(
                dl.text.as_str(),
                segs,
                dl.words.as_slice(),
                line_bg,
                Some(Rgb { r: 40, g: 84, b: 50 }),
            )
        },
    }
}

/// The runs of each line of a pane: `diff` the side against the base, `hl`
/// the syntax lines of the side.
pub fn side_body_lines(diff: &[DiffLine], hl: &[Vec<Seg>]) -> (res: Vec<Vec<Run>>)
    ensures
        res@.len() == diff@.len(),
        forall|i: int|
            0 <= i < diff@.len() ==> runs_view(#[trigger] res@[i]@) == spec_body_line(
                diff@[i]@,
                lines_view(hl@),
            ),
{
    let mut out: Vec<Vec<Run>> = Vec::new();
    let mut i: usize = 0;
    while i < diff.len()
        invariant
            i <= diff@.len(),
            out@.len() == i,
            forall|k: int|
                0 <= k < i ==> runs_view(#[trigger] out@[k]@) == spec_body_line(
                    diff@[k]@,
                    lines_view(hl@),
                ),
        decreases diff@.len() - i,
    {
        let line = body_line(&diff[i], hl);
        out.push(line);
        i += 1;
    }
    out
}

/// The content of the first merge base among the columns, if any.
pub open spec fn first_base(cols: Seq<TermView>) -> Option<Seq<Seq<char>>>
    decreases cols.len(),
{
    if cols.len() == 0 {
        None
    } else if cols[0].kind == TermKind::Remove {
        Some(cols[0].content)
    } else {
        first_base(cols.drop_first())
    }
}

/// What a column's pane is compared against: the region's first merge
/// base, or the column itself when the region has none.
pub open spec fn spec_base_for(cols: Seq<TermView>, col: TermView) -> Seq<Seq<char>> {
    match first_base(cols) {
        Some(b) => b,
        None => col.content,
    }
}

/// The lines a column's pane is diffed against: the first merge base of
/// the region's columns, or the column's own lines when there is none.
pub fn base_for(cols: &[Column], col: &Column) -> (res: Vec<String>)
    ensures
        res.deep_view() == spec_base_for(cols@.map_values(|c: Column| c@), col@),
{
    let ghost cv = cols@.map_values(|c: Column| c@);
    let mut i: usize = 0;
    assert(cv.skip(0) =~= cv);
    while i < cols.len()
        invariant
            i <= cols@.len(),
            cv == cols@.map_values(|c: Column| c@),
            first_base(cv) == first_base(cv.skip(i as int)),
        decreases cols@.len() - i,
    {
        assert(cv.skip(i as int)[0] == cols@[i as int]@);
        assert(cv.skip(i as int).drop_first() =~= cv.skip(i + 1));
        if cols[i].kind == TermKind::Remove {
            return copy_lines(&cols[i].content);
        }
        i += 1;
    }
    assert(cv.skip(i as int) =~= Seq::<TermView>::empty());
    copy_lines(&col.content)
}

// ---------------------------------------------------------------------------
// Columns, titles and marks
// ---------------------------------------------------------------------------

/// The accent colour of a column.
#[derive(Debug, Clone, Copy, PartialEq, Eq, Structural)]
pub enum Accent {
    Cyan,
    Green,
    Blue,
    Magenta,
    Yellow,
}

/// The colours given to sides in turn.
pub open spec fn palette(i: nat) -> Accent {
    let k = i % 4;
    if k == 0 {
        Accent::Green
    } else if k == 1 {
        Accent::Blue
    } else if k == 2 {
        Accent::Magenta
    } else {
        Accent::Yellow
    }
}

/// The accent of column `i`: cyan for a base, else the next colour of the
/// palette, counting only the sides before it.
pub open spec fn accent_of(cols: Seq<TermView>, i: int) -> Accent {
    if cols[i].kind == TermKind::Remove {
        Accent::Cyan
    } else {
        palette(count_adds(cols.take(i)))
    }
}

/// The accent colour of each column.
pub fn accents(cols: &[Column]) -> (res: Vec<Accent>)
    ensures
        res@.len() == cols@.len(),
        forall|i: int| 0 <= i < cols@.len() ==> #[trigger] res@[i] == accent_of(cols@.map_values(|c: Column| c@), i),
{
    let ghost cv = cols@.map_values(|c: Column| c@);
    let mut out: Vec<Accent> = Vec::new();
    let mut rank: usize = 0;
    let mut i: usize = 0;
    while i < cols.len()
        invariant
            i <= cols@.len(),
            cv == cols@.map_values(|c: Column| c@),
            out@.len() == i,
            rank == count_adds(cv.take(i as int)),
            rank <= i,
            forall|k: int| 0 <= k < i ==> #[trigger] out@[k] == accent_of(cv, k),
        decreases cols@.len() - i,
    {
        assert(cv.take(i + 1).drop_last() =~= cv.take(i as int));
        assert(cv[i as int].kind == cols@[i as int].kind);
        if cols[i].kind == TermKind::Remove {
            out.push(Accent::Cyan);
        } else {
            let k = rank % 4;
            let a = if k == 0 {
                Accent::Green
            } else if k == 1 {
                Accent::Blue
            } else if k == 2 {
                Accent::Magenta
            } else {
                Accent::Yellow
            };
            out.push(a);
            rank += 1;
        }
        i += 1;
    }
    out
}

/// Whether column `col` is the chosen one of the current region.
pub fn is_chosen(app: &App, col: usize) -> (res: bool)
    ensures
        res == (current_choice_of(app@) == Some(col)),
{
    match app.current_choice() {
        Some(c) => c == col,
        None => false,
    }
}

/// The title of pane `idx` (numbered from one), ticked if chosen.
pub open spec fn spec_pane_title(idx: nat, chosen: bool, title: Seq<char>) -> Seq<char> {
    " "@ + decimal(idx + 1) + (if chosen {
        " \u{2713}"@
    } else {
        Seq::empty()
    }) + " "@ + title + " "@
}

/// The title of pane `idx` (numbered from one), ticked if chosen.
pub fn pane_title(idx: usize, chosen: bool, title: &str) -> (res: String)
    requires
        idx < usize::MAX,
    ensures
        res@ == spec_pane_title(idx as nat, chosen, title@),
{
    let mut t = String::from_str(" ");
    let n = decimal_string(idx + 1);
    t.append(n.as_str());
    if chosen {
        t.append(" \u{2713}");
    }
    t.append(" ");
    t.append(title);
    t.append(" ");
    proof {
        if !chosen {
            assert(" "@ + decimal(idx as nat + 1) + Seq::<char>::empty() =~= " "@ + decimal(idx as nat + 1));
        }
    }
    t
}

/// How far a file has come, as its entry in the file list shows it.
#[derive(Debug, Clone, Copy, PartialEq, Eq, Structural)]
pub enum Mark {
    /// Every region resolved.
    Resolved,
    /// Some region resolved.
    Staged,
    /// Nothing resolved yet.
    Open,
}

/// The mark of a file: resolved, staged or open.
pub fn file_mark(f: &FileState) -> (res: Mark)
    ensures
        res == if crate::conflict::spec_fully_resolved(f@.parsed, crate::app::as_accepts(f@.resolutions)) {
            Mark::Resolved
        } else if exists|i: int| 0 <= i < f@.resolutions.len() && #[trigger] f@.resolutions[i] is Some {
            Mark::Staged
        } else {
            Mark::Open
        },
{
    if f.is_fully_resolved() {
        Mark::Resolved
    } else if f.has_staged() {
        Mark::Staged
    } else {
        Mark::Open
    }
}

/// The side count shown after a file's path: `  [n]`, or nothing.
pub fn sides_tag(f: &FileState) -> (res: String)
    ensures
        res@ == match f@.entry.sides {
            Some(n) => "  ["@ + decimal(n as nat) + "]"@,
            None => Seq::empty(),
        },
{
    match f.entry.sides {
        Some(n) => {
            let mut t = String::from_str("  [");
            let d = decimal_string(n);
            t.append(d.as_str());
            t.append("]");
            t
        },
        None => String::new(),
    }
}

/// The title and the summary line of the header.
pub open spec fn spec_header(s: crate::app::AppView) -> (Seq<char>, Seq<char>) {
    match current_file(s) {
        Some(f) => {
            let total = region_total(f);
            (
                " "@ + f.entry.path + " "@,
                "conflict "@ + decimal((s.region + 1) as nat) + "/"@ + decimal(
                    if total > 1 {
                        total
                    } else {
                        1
                    },
                ) + "   "@ + decimal(count_adds(current_columns(s))) + " sides   "@ + decimal(
                    count_chosen(f.resolutions),
                ) + "/"@ + decimal(total) + " resolved"@,
            )
        },
        None => (" jj-yield "@, "no conflicts"@),
    }
}

/// The title and the summary line of the header: the file's path, and the
/// current region, the number of sides and how many regions are resolved.
pub fn header(app: &App) -> (res: (String, String))
    requires
        app.region < usize::MAX,
    ensures
        (res.0@, res.1@) == spec_header(app@),
{
    match app.file() {
        Some(f) => {
            let total = f.parsed.region_count();
            let cols = app.columns();
            let ghost cv = cols@.map_values(|c: Column| c@);
            let mut adds: usize = 0;
            let mut i: usize = 0;
            while i < cols.len()
                invariant
                    i <= cols@.len(),
                    cv == cols@.map_values(|c: Column| c@),
                    adds == count_adds(cv.take(i as int)),
                    adds <= i,
                decreases cols@.len() - i,
            {
                assert(cv.take(i + 1).drop_last() =~= cv.take(i as int));
                assert(cv[i as int].kind == cols@[i as int].kind);
                if cols[i].kind == TermKind::Add {
                    adds += 1;
                }
                i += 1;
            }
            assert(cv.take(i as int) =~= cv);
            let mut title = String::from_str(" ");
            title.append(f.entry.path.as_str());
            title.append(" ");
            let mut info = String::from_str("conflict ");
            info.append(decimal_string(app.region + 1).as_str());
            info.append("/");
            info.append(decimal_string(if total > 1 { total } else { 1 }).as_str());
            info.append("   ");
            info.append(decimal_string(adds).as_str());
            info.append(" sides   ");
            info.append(decimal_string(f.resolved_count()).as_str());
            info.append("/");
            info.append(decimal_string(total).as_str());
            info.append(" resolved");
            (title, info)
        },
        None => (String::from_str(" jj-yield "), String::from_str("no conflicts")),
    }
}

} // verus!
