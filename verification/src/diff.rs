//! Diff a conflict side against the base, with intra-line word emphasis.
//!
//! Each present side is diffed against the merge base so the UI can colour
//! added lines green, removed lines red, and emphasise the exact words that
//! changed within a modified line. The diff itself is `similar`'s; this module
//! turns its changes into display lines.

use vstd::prelude::*;
use crate::text::push_char;

verus! {

broadcast use vstd::string::group_string_axioms;

/// How a diff line relates to the base.
#[derive(Debug, Clone, Copy, PartialEq, Eq, Structural)]
pub enum DiffTag {
    /// Unchanged relative to the base.
    Equal,
    /// Present in the side but not the base (added).
    Insert,
    /// Present in the base but not the side (removed).
    Delete,
}

/// One run within a line. `emphasized` marks the sub-spans that actually changed
/// (used for intra-line highlighting on modified lines).
#[derive(Debug, Clone, PartialEq, Eq)]
pub struct Word {
    pub text: String,
    pub emphasized: bool,
}

/// The text of a [`Word`].
pub struct WordView {
    pub text: Seq<char>,
    pub emphasized: bool,
}

impl View for Word {
    type V = WordView;

    open spec fn view(&self) -> WordView {
        WordView { text: self.text@, emphasized: self.emphasized }
    }
}

/// One line of a side-vs-base diff.
#[derive(Debug, Clone)]
pub struct DiffLine {
    pub tag: DiffTag,
    /// Full line text (no trailing newline).
    pub text: String,
    /// Segments that concatenate to `text`, carrying per-span emphasis.
    pub words: Vec<Word>,
    /// Index into the *side* content for `Insert`/`Equal` lines; `None` for
    /// `Delete` (those lines exist only in the base).
    pub side_line: Option<usize>,
}

/// The text of a [`DiffLine`].
pub struct DiffLineView {
    pub tag: DiffTag,
    pub text: Seq<char>,
    pub words: Seq<WordView>,
    pub side_line: Option<usize>,
}

impl View for DiffLine {
    type V = DiffLineView;

    open spec fn view(&self) -> DiffLineView {
        DiffLineView {
            tag: self.tag,
            text: self.text@,
            words: self.words@.map_values(|w: Word| w@),
            side_line: self.side_line,
        }
    }
}

/// One change of a line diff as the differ reports it: its tag and its
/// `(emphasized, text)` pieces, line break included.
#[derive(Debug, Clone)]
pub struct RawChange {
    pub tag: DiffTag,
    pub parts: Vec<(bool, String)>,
}

/// The text of a [`RawChange`].
pub struct RawChangeView {
    pub tag: DiffTag,
    pub parts: Seq<(bool, Seq<char>)>,
}

impl View for RawChange {
    type V = RawChangeView;

    open spec fn view(&self) -> RawChangeView {
        RawChangeView { tag: self.tag, parts: self.parts@.map_values(|p: (bool, String)| (p.0, p.1@)) }
    }
}

/// `s` with every `'\n'` removed.
pub open spec fn without_newlines(s: Seq<char>) -> Seq<char>
    decreases s.len(),
{
    if s.len() == 0 {
        Seq::empty()
    } else if s.last() == '\n' {
        without_newlines(s.drop_last())
    } else {
        without_newlines(s.drop_last()).push(s.last())
    }
}

/// The words of a change: each piece without line breaks, empty ones dropped.
pub open spec fn words_of(parts: Seq<(bool, Seq<char>)>) -> Seq<WordView>
    decreases parts.len(),
{
    if parts.len() == 0 {
        Seq::empty()
    } else {
        let prev = words_of(parts.drop_last());
        let cleaned = without_newlines(parts.last().1);
        if cleaned.len() == 0 {
            prev
        } else {
            prev.push(WordView { text: cleaned, emphasized: parts.last().0 })
        }
    }
}

/// The words' texts concatenated.
pub open spec fn words_text(ws: Seq<WordView>) -> Seq<char>
    decreases ws.len(),
{
    if ws.len() == 0 {
        Seq::empty()
    } else {
        words_text(ws.drop_last()) + ws.last().text
    }
}

/// The number of changes that are lines of the side (not deletions).
pub open spec fn side_count(changes: Seq<RawChangeView>) -> nat
    decreases changes.len(),
{
    if changes.len() == 0 {
        0
    } else {
        side_count(changes.drop_last()) + if changes.last().tag == DiffTag::Delete {
            0nat
        } else {
            1nat
        }
    }
}

/// The number of display lines that are lines of the side (not deletions).
pub open spec fn side_lines_before(ls: Seq<DiffLineView>) -> nat
    decreases ls.len(),
{
    if ls.len() == 0 {
        0
    } else {
        side_lines_before(ls.drop_last()) + if ls.last().tag == DiffTag::Delete {
            0nat
        } else {
            1nat
        }
    }
}

/// The display line of the change at `i`, numbered among the side's lines.
pub open spec fn line_of_change(changes: Seq<RawChangeView>, i: int) -> DiffLineView {
    let c = changes[i];
    let ws = words_of(c.parts);
    DiffLineView {
        tag: c.tag,
        text: words_text(ws),
        words: ws,
        side_line: if c.tag == DiffTag::Delete {
            None
        } else {
            Some(side_count(changes.take(i)) as usize)
        },
    }
}

/// The display lines of a list of changes, one per change.
pub open spec fn spec_diff_lines(changes: Seq<RawChangeView>) -> Seq<DiffLineView> {
    Seq::new(changes.len(), |i: int| line_of_change(changes, i))
}

/// Every word is non-empty and holds no line break.
pub open spec fn words_ok(ws: Seq<WordView>) -> bool {
    forall|j: int| 0 <= j < ws.len() ==> #[trigger] ws[j].text.len() > 0 && !ws[j].text.contains('\n')
}

/// A deletion carries no side number; any other line carries `before`, the
/// number of side lines ahead of it.
pub open spec fn numbered(l: DiffLineView, before: nat) -> bool {
    l.side_line == if l.tag == DiffTag::Delete {
        None
    } else {
        Some(before as usize)
    }
}

/// What every display line list satisfies: each line's words are non-empty,
/// hold no line break and spell its text; side lines are numbered 0, 1, …
/// in order and deletions carry no number.
pub open spec fn well_formed_lines(ls: Seq<DiffLineView>) -> bool {
    forall|i: int|
        0 <= i < ls.len() ==> {
            &&& (#[trigger] ls[i]).text == words_text(ls[i].words)
            &&& words_ok(ls[i].words)
            &&& numbered(ls[i], side_lines_before(ls.take(i)))
        }
}

proof fn lemma_without_newlines(s: Seq<char>)
    ensures
        !without_newlines(s).contains('\n'),
    decreases s.len(),
{
    if s.len() > 0 {
        lemma_without_newlines(s.drop_last());
        let p = without_newlines(s.drop_last());
        if s.last() != '\n' {
            assert forall|k: int| 0 <= k < p.len() + 1 implies p.push(s.last())[k] != '\n' by {
                if k < p.len() {
                    assert(p.push(s.last())[k] == p[k]);
                    assert(!p.contains('\n'));
                }
            }
        }
    }
}

proof fn lemma_words_of(parts: Seq<(bool, Seq<char>)>)
    ensures
        words_ok(words_of(parts)),
    decreases parts.len(),
{
    if parts.len() > 0 {
        lemma_words_of(parts.drop_last());
        lemma_without_newlines(parts.last().1);
        let prev = words_of(parts.drop_last());
        assert forall|j: int| 0 <= j < words_of(parts).len() implies #[trigger] words_of(
            parts,
        )[j].text.len() > 0 && !words_of(parts)[j].text.contains('\n') by {
            if j < prev.len() {
                assert(words_of(parts)[j] == prev[j]);
            }
        }
    }
}

/// Display lines made from any list of changes are well formed.
pub proof fn lemma_diff_lines_well_formed(changes: Seq<RawChangeView>)
    ensures
        well_formed_lines(spec_diff_lines(changes)),
{
    let ls = spec_diff_lines(changes);
    assert forall|i: int| 0 <= i < ls.len() implies {
        &&& (#[trigger] ls[i]).text == words_text(ls[i].words)
        &&& words_ok(ls[i].words)
        &&& numbered(ls[i], side_lines_before(ls.take(i)))
    } by {
        lemma_words_of(changes[i].parts);
        lemma_side_counts(changes, i);
        assert(ls[i] == line_of_change(changes, i));
    }
}

proof fn lemma_side_counts(changes: Seq<RawChangeView>, i: int)
    requires
        0 <= i <= changes.len(),
    ensures
        side_lines_before(spec_diff_lines(changes).take(i)) == side_count(changes.take(i)),
    decreases i,
{
    if i > 0 {
        lemma_side_counts(changes, i - 1);
        assert(spec_diff_lines(changes).take(i).drop_last() =~= spec_diff_lines(changes).take(i - 1));
        assert(changes.take(i).drop_last() =~= changes.take(i - 1));
    }
}

/// The text of a change: its pieces' texts, in order.
pub open spec fn parts_text(parts: Seq<(bool, Seq<char>)>) -> Seq<char>
    decreases parts.len(),
{
    if parts.len() == 0 {
        Seq::empty()
    } else {
        parts_text(parts.drop_last()) + parts.last().1
    }
}

/// Whether `c` ends a line when `similar` cuts a text into lines.
pub open spec fn is_break(c: char) -> bool {
    c == '\n' || c == '\r'
}

/// The index of the first line break of `s` at or after `from`, or its
/// length if there is none.
pub open spec fn next_break(s: Seq<char>, from: int) -> int
    decreases s.len() - from,
{
    if from < 0 || from >= s.len() {
        s.len() as int
    } else if is_break(s[from]) {
        from
    } else {
        next_break(s, from + 1)
    }
}

/// The first line break at or after `from` is where [`next_break`] says.
pub proof fn lemma_next_break(s: Seq<char>, from: int)
    requires
        0 <= from <= s.len(),
    ensures
        from <= next_break(s, from) <= s.len(),
        next_break(s, from) < s.len() ==> is_break(s[next_break(s, from)]),
        forall|k: int| from <= k < next_break(s, from) ==> !is_break(#[trigger] s[k]),
    decreases s.len() - from,
{
    if from < s.len() && !is_break(s[from]) {
        lemma_next_break(s, from + 1);
    }
}

/// Where the first line of `s` ends: after its first `'\n'`, `"\r\n"` or
/// lone `'\r'`, or at its end.
pub open spec fn first_line_end(s: Seq<char>) -> int {
    let j = next_break(s, 0);
    if j >= s.len() {
        s.len() as int
    } else if s[j] == '\r' && j + 1 < s.len() && s[j + 1] == '\n' {
        j + 2
    } else {
        j + 1
    }
}

/// The lines of `s` as `similar` cuts them (`tokenize_lines`), each with
/// its ending; a last line without an ending is kept as it is.
pub open spec fn cut_lines(s: Seq<char>) -> Seq<Seq<char>>
    decreases s.len(),
{
    if s.len() == 0 {
        Seq::empty()
    } else {
        proof {
            lemma_next_break(s, 0);
        }
        seq![s.take(first_line_end(s))] + cut_lines(s.skip(first_line_end(s)))
    }
}

/// The texts of the changes that are not insertions (the base's lines).
pub open spec fn old_side(ld: Seq<(DiffTag, Seq<char>)>) -> Seq<Seq<char>>
    decreases ld.len(),
{
    if ld.len() == 0 {
        Seq::empty()
    } else {
        old_side(ld.drop_last()) + if ld.last().0 != DiffTag::Insert {
            seq![ld.last().1]
        } else {
            Seq::<Seq<char>>::empty()
        }
    }
}

/// The texts of the changes that are not deletions (the side's lines).
pub open spec fn new_side(ld: Seq<(DiffTag, Seq<char>)>) -> Seq<Seq<char>>
    decreases ld.len(),
{
    if ld.len() == 0 {
        Seq::empty()
    } else {
        new_side(ld.drop_last()) + if ld.last().0 != DiffTag::Delete {
            seq![ld.last().1]
        } else {
            Seq::<Seq<char>>::empty()
        }
    }
}

/// Each change's tag and text.
pub open spec fn change_list(v: Seq<RawChange>) -> Seq<(DiffTag, Seq<char>)> {
    Seq::new(v.len(), |i: int| (v[i].tag, parts_text(v[i]@.parts)))
}

/// The changes of `similar`'s line diff of `base` against `side`
/// (`TextDiff::from_lines(base, side).iter_all_changes()`), each as its tag
/// and the text of its line, line break included.
pub uninterp spec fn line_diff(base: Seq<char>, side: Seq<char>) -> Seq<(DiffTag, Seq<char>)>;

/// Runs `similar`'s line diff of `base` against `side`
/// (`similar::TextDiff::from_lines`) and expands each of its ops with
/// `iter_inline_changes`, giving each change's tag and the
/// `(emphasized, text)` pieces of `iter_strings_lossy`.
///
/// Claimed: the changes are those of the line diff, [`line_diff`], one for
/// one with the same tags, and each change's pieces spell its line. The
/// source of `iter_inline_changes` shows this: an equal, insert or delete op,
/// and a replace op whose sides differ too much, pass through
/// `iter_changes` with the whole line as one piece; any other replace op
/// yields, for each old line and then each new line, the pieces of its
/// word tokens in order, and the tokens cover the line. `from_lines` sets no
/// deadline, so the line diff depends on the texts alone. Also claimed: the
/// changes that are not insertions carry, in order, the lines of `base` as
/// `tokenize_lines` cuts them ([`cut_lines`]), and those that are not
/// deletions the lines of `side` (an equal change carries the base's line,
/// which equals the side's): the diff's ops cover both texts' lines in
/// order, and `iter_changes` yields one change per line of each op. Not
/// stated: which
/// pieces are emphasised, and where a line is cut into pieces; the word diff
/// behind them stops refining after a fixed deadline, so they can depend on
/// time.
#[verifier::external_body]
fn inline_changes(base: &str, side: &str) -> (res: Vec<RawChange>)
    ensures
        res@.len() == line_diff(base@, side@).len(),
        forall|i: int|
            0 <= i < res@.len() ==> (#[trigger] res@[i]).tag == line_diff(base@, side@)[i].0
                && parts_text(res@[i]@.parts) == line_diff(base@, side@)[i].1,
        old_side(change_list(res@)) == cut_lines(base@),
        new_side(change_list(res@)) == cut_lines(side@),
{
    let diff = similar::TextDiff::from_lines(base, side);
    let mut out = Vec::new();
    for op in diff.ops() {
        for change in diff.iter_inline_changes(op) {
            let tag = match change.tag() {
                similar::ChangeTag::Equal => DiffTag::Equal,
                similar::ChangeTag::Insert => DiffTag::Insert,
                similar::ChangeTag::Delete => DiffTag::Delete,
            };
            let parts = change.iter_strings_lossy().map(|(e, v)| (e, v.into_owned())).collect();
            out.push(RawChange { tag, parts });
        }
    }
    out
}

/// `s` with every line break removed.
fn strip_newlines(s: &String) -> (res: String)
    ensures
        res@ == without_newlines(s@),
{
    let cs = crate::text::chars_of(s.as_str());
    let mut out = String::new();
    let mut i: usize = 0;
    assert(cs@.take(0) =~= Seq::<char>::empty());
    while i < cs.len()
        invariant
            i <= cs@.len(),
            cs@ == s@,
            out@ == without_newlines(cs@.take(i as int)),
        decreases cs@.len() - i,
    {
        assert(cs@.take(i + 1).drop_last() =~= cs@.take(i as int));
        if cs[i] != '\n' {
            push_char(&mut out, cs[i]);
        }
        i += 1;
    }
    assert(cs@.take(i as int) =~= s@);
    out
}

/// The display lines of a list of changes: each change's pieces become its
/// words (line breaks removed, empty pieces dropped), the words spell the
/// line, and side lines are numbered in order.
pub fn lines_from_changes(changes: &Vec<RawChange>) -> (res: Vec<DiffLine>)
    ensures
        res@.map_values(|l: DiffLine| l@) == spec_diff_lines(changes@.map_values(|c: RawChange| c@)),
{
    let ghost cv = changes@.map_values(|c: RawChange| c@);
    let mut out: Vec<DiffLine> = Vec::new();
    let mut side_idx: usize = 0;
    let mut i: usize = 0;
    while i < changes.len()
        invariant
            i <= changes@.len(),
            cv == changes@.map_values(|c: RawChange| c@),
            out@.len() == i,
            forall|k: int| 0 <= k < i ==> #[trigger] out@[k]@ == line_of_change(cv, k),
            side_idx as nat == side_count(cv.take(i as int)),
            side_idx <= i,
        decreases changes@.len() - i,
    {
        let change = &changes[i];
        let ghost parts = change@.parts;
        let mut words: Vec<Word> = Vec::new();
        let mut text = String::new();
        let mut k: usize = 0;
        assert(parts.take(0) =~= Seq::<(bool, Seq<char>)>::empty());
        assert(words@.map_values(|w: Word| w@) =~= Seq::<WordView>::empty());
        while k < change.parts.len()
            invariant
                k <= change.parts@.len(),
                parts == change@.parts,
                words@.map_values(|w: Word| w@) == words_of(parts.take(k as int)),
                text@ == words_text(words_of(parts.take(k as int))),
            decreases change.parts@.len() - k,
        {
            let (emphasized, value) = &change.parts[k];
            assert(parts.take(k + 1).drop_last() =~= parts.take(k as int));
            assert(parts.take(k + 1).last() == (*emphasized, value@));
            let cleaned = strip_newlines(value);
            if cleaned.as_str().unicode_len() != 0 {
                let ghost wv = words@.map_values(|w: Word| w@);
                text.append(cleaned.as_str());
                let w = Word { text: cleaned, emphasized: *emphasized };
                words.push(w);
                assert(words@.map_values(|w: Word| w@) =~= wv.push(w@));
                assert(words_of(parts.take(k + 1)).drop_last() =~= wv);
            }
            k += 1;
        }
        assert(parts.take(k as int) =~= parts);
        let side_line = match change.tag {
            DiffTag::Delete => None,
            _ => Some(side_idx),
        };
        assert(cv.take(i + 1).drop_last() =~= cv.take(i as int));
        match change.tag {
            DiffTag::Delete => {},
            _ => {
                side_idx += 1;
            },
        }
        let line = DiffLine { tag: change.tag, text, words, side_line };
        assert(line@ == line_of_change(cv, i as int));
        out.push(line);
        i += 1;
    }
    assert(out@.map_values(|l: DiffLine| l@) =~= spec_diff_lines(cv));
    out
}

/// The lines, each followed by a newline.
pub open spec fn terminated_text(lines: Seq<Seq<char>>) -> Seq<char>
    decreases lines.len(),
{
    if lines.len() == 0 {
        Seq::empty()
    } else {
        terminated_text(lines.drop_last()) + lines.last().push('\n')
    }
}

/// Each line followed by `'\n'`, concatenated.
pub fn join_lines(lines: &[String]) -> (res: String)
    ensures
        res@ == terminated_text(lines@.map_values(|s: String| s@)),
{
    let ghost lv = lines@.map_values(|s: String| s@);
    let mut s = String::new();
    let mut i: usize = 0;
    assert(lv.take(0) =~= Seq::<Seq<char>>::empty());
    while i < lines.len()
        invariant
            i <= lines@.len(),
            lv == lines@.map_values(|s: String| s@),
            s@ == terminated_text(lv.take(i as int)),
        decreases lines@.len() - i,
    {
        assert(lv.take(i + 1).drop_last() =~= lv.take(i as int));
        s.append(lines[i].as_str());
        push_char(&mut s, '\n');
        i += 1;
    }
    assert(lv.take(i as int) =~= lv);
    s
}

/// `without_newlines` of a concatenation is the concatenation of the parts'.
proof fn lemma_without_newlines_concat(a: Seq<char>, b: Seq<char>)
    ensures
        without_newlines(a + b) == without_newlines(a) + without_newlines(b),
    decreases b.len(),
{
    if b.len() == 0 {
        assert(a + b =~= a);
        assert(without_newlines(a) + without_newlines(b) =~= without_newlines(a));
    } else {
        lemma_without_newlines_concat(a, b.drop_last());
        assert((a + b).drop_last() =~= a + b.drop_last());
        assert((a + b).last() == b.last());
        if b.last() != '\n' {
            assert(without_newlines(a) + without_newlines(b.drop_last()).push(b.last()) =~= (
            without_newlines(a) + without_newlines(b.drop_last())).push(b.last()));
        }
    }
}

/// A change's words spell its text without line breaks.
proof fn lemma_words_text(parts: Seq<(bool, Seq<char>)>)
    ensures
        words_text(words_of(parts)) == without_newlines(parts_text(parts)),
    decreases parts.len(),
{
    if parts.len() > 0 {
        let p0 = parts.drop_last();
        lemma_words_text(p0);
        lemma_without_newlines_concat(parts_text(p0), parts.last().1);
        let prev = words_of(p0);
        let cleaned = without_newlines(parts.last().1);
        if cleaned.len() == 0 {
            assert(without_newlines(parts_text(p0)) + cleaned =~= without_newlines(parts_text(p0)));
        } else {
            let next = prev.push(WordView { text: cleaned, emphasized: parts.last().0 });
            assert(next.drop_last() =~= prev);
        }
    }
}

/// Lines with no line break in them.
pub open spec fn no_breaks(lines: Seq<Seq<char>>) -> bool {
    forall|i: int, k: int|
        0 <= i < lines.len() && 0 <= k < lines[i].len() ==> !is_break(#[trigger] lines[i][k])
}

/// The texts of the display lines that are not insertions.
pub open spec fn old_lines(ls: Seq<DiffLineView>) -> Seq<Seq<char>>
    decreases ls.len(),
{
    if ls.len() == 0 {
        Seq::empty()
    } else {
        old_lines(ls.drop_last()) + if ls.last().tag != DiffTag::Insert {
            seq![ls.last().text]
        } else {
            Seq::<Seq<char>>::empty()
        }
    }
}

/// The texts of the display lines that are not deletions.
pub open spec fn new_lines(ls: Seq<DiffLineView>) -> Seq<Seq<char>>
    decreases ls.len(),
{
    if ls.len() == 0 {
        Seq::empty()
    } else {
        new_lines(ls.drop_last()) + if ls.last().tag != DiffTag::Delete {
            seq![ls.last().text]
        } else {
            Seq::<Seq<char>>::empty()
        }
    }
}

proof fn lemma_terminated_first(lines: Seq<Seq<char>>)
    requires
        lines.len() > 0,
    ensures
        terminated_text(lines) == lines[0].push('\n') + terminated_text(lines.drop_first()),
    decreases lines.len(),
{
    if lines.len() == 1 {
        assert(lines.drop_last() =~= Seq::<Seq<char>>::empty());
        assert(lines.drop_first() =~= Seq::<Seq<char>>::empty());
        assert(Seq::<char>::empty() + lines[0].push('\n') =~= lines[0].push('\n') + Seq::<char>::empty());
    } else {
        lemma_terminated_first(lines.drop_last());
        assert(lines.drop_last().drop_first() =~= lines.drop_first().drop_last());
        assert(lines.drop_first().last() == lines.last());
        let a = lines[0].push('\n');
        let m = terminated_text(lines.drop_first().drop_last());
        let z = lines.last().push('\n');
        assert((a + m) + z =~= a + (m + z));
    }
}

proof fn lemma_next_break_after(s: Seq<char>, b: Seq<char>, from: int)
    requires
        0 <= from <= b.len() < s.len(),
        forall|k: int| 0 <= k < b.len() ==> s[k] == b[k] && !is_break(#[trigger] b[k]),
        s[b.len() as int] == '\n',
    ensures
        next_break(s, from) == b.len(),
    decreases b.len() - from,
{
    if from < b.len() {
        assert(s[from] == b[from]);
        lemma_next_break_after(s, b, from + 1);
    }
}

proof fn lemma_cut_line(b: Seq<char>, rest: Seq<char>)
    requires
        forall|k: int| 0 <= k < b.len() ==> !is_break(#[trigger] b[k]),
    ensures
        cut_lines(b.push('\n') + rest) == seq![b.push('\n')] + cut_lines(rest),
{
    let s = b.push('\n') + rest;
    assert forall|k: int| 0 <= k < b.len() implies s[k] == b[k] && !is_break(#[trigger] b[k]) by {}
    assert(s[b.len() as int] == '\n');
    lemma_next_break_after(s, b, 0);
    assert(first_line_end(s) == b.len() + 1);
    assert(s.take(b.len() + 1int) =~= b.push('\n'));
    assert(s.skip(b.len() + 1int) =~= rest);
}

proof fn lemma_cut_terminated(lines: Seq<Seq<char>>)
    requires
        no_breaks(lines),
    ensures
        cut_lines(terminated_text(lines)) == lines.map_values(|l: Seq<char>| l.push('\n')),
    decreases lines.len(),
{
    if lines.len() == 0 {
        assert(cut_lines(terminated_text(lines)) =~= lines.map_values(|l: Seq<char>| l.push('\n')));
    } else {
        lemma_terminated_first(lines);
        let rest = lines.drop_first();
        assert(no_breaks(rest)) by {
            assert forall|i: int, k: int| 0 <= i < rest.len() && 0 <= k < rest[i].len() implies !is_break(
                #[trigger] rest[i][k],
            ) by {
                assert(rest[i] == lines[i + 1]);
            }
        }
        lemma_cut_terminated(rest);
        assert forall|k: int| 0 <= k < lines[0].len() implies !is_break(#[trigger] lines[0][k]) by {}
        lemma_cut_line(lines[0], terminated_text(rest));
        assert(seq![lines[0].push('\n')] + rest.map_values(|l: Seq<char>| l.push('\n'))
            =~= lines.map_values(|l: Seq<char>| l.push('\n')));
    }
}

proof fn lemma_without_newlines_plain(b: Seq<char>)
    requires
        forall|k: int| 0 <= k < b.len() ==> !is_break(#[trigger] b[k]),
    ensures
        without_newlines(b) == b,
        without_newlines(b.push('\n')) == b,
    decreases b.len(),
{
    assert(b.push('\n').drop_last() =~= b);
    if b.len() > 0 {
        assert forall|k: int| 0 <= k < b.drop_last().len() implies !is_break(#[trigger] b.drop_last()[k]) by {
            assert(b.drop_last()[k] == b[k]);
        }
        lemma_without_newlines_plain(b.drop_last());
        assert(!is_break(b[b.len() - 1]));
        assert(b.drop_last().push(b.last()) =~= b);
    }
}

proof fn lemma_side_lines(ls: Seq<DiffLineView>, ld: Seq<(DiffTag, Seq<char>)>)
    requires
        ls.len() == ld.len(),
        forall|i: int|
            0 <= i < ls.len() ==> (#[trigger] ls[i]).tag == ld[i].0 && ls[i].text == without_newlines(
                ld[i].1,
            ),
    ensures
        old_lines(ls) == old_side(ld).map_values(|t: Seq<char>| without_newlines(t)),
        new_lines(ls) == new_side(ld).map_values(|t: Seq<char>| without_newlines(t)),
    decreases ls.len(),
{
    if ls.len() > 0 {
        let l0 = ls.drop_last();
        let d0 = ld.drop_last();
        assert forall|i: int| 0 <= i < l0.len() implies (#[trigger] l0[i]).tag == d0[i].0 && l0[i].text
            == without_newlines(d0[i].1) by {
            assert(l0[i] == ls[i]);
            assert(d0[i] == ld[i]);
        }
        lemma_side_lines(l0, d0);
        assert(ls.last() == ls[ls.len() - 1]);
        assert(old_lines(ls) =~= old_side(ld).map_values(|t: Seq<char>| without_newlines(t)));
        assert(new_lines(ls) =~= new_side(ld).map_values(|t: Seq<char>| without_newlines(t)));
    }
}

/// Splitting the lines back off the texts, with their line breaks removed.
proof fn lemma_lines_back(lines: Seq<Seq<char>>)
    requires
        no_breaks(lines),
    ensures
        lines.map_values(|l: Seq<char>| l.push('\n')).map_values(|t: Seq<char>| without_newlines(t))
            == lines,
{
    let m = lines.map_values(|l: Seq<char>| l.push('\n')).map_values(|t: Seq<char>| without_newlines(t));
    assert forall|i: int| 0 <= i < lines.len() implies m[i] == lines[i] by {
        assert forall|k: int| 0 <= k < lines[i].len() implies !is_break(#[trigger] lines[i][k]) by {}
        lemma_without_newlines_plain(lines[i]);
    }
    assert(m =~= lines);
}

/// Diff `side` against `base`, line by line, with inline word emphasis:
/// one display line per change of `similar`'s line diff of the two texts
/// (each line followed by a newline), with that change's tag and its line's
/// text. Every line's words spell its text and hold no line break, and side
/// lines are numbered in order. When no line holds a line break, the lines
/// that are not insertions are the base's lines and those that are not
/// deletions the side's.
pub fn diff_side(base: &[String], side: &[String]) -> (res: Vec<DiffLine>)
    ensures
        well_formed_lines(res@.map_values(|l: DiffLine| l@)),
        res@.len() == line_diff(
            terminated_text(base@.map_values(|s: String| s@)),
            terminated_text(side@.map_values(|s: String| s@)),
        ).len(),
        forall|i: int|
            0 <= i < res@.len() ==> {
                let ch = line_diff(
                    terminated_text(base@.map_values(|s: String| s@)),
                    terminated_text(side@.map_values(|s: String| s@)),
                )[i];
                &&& (#[trigger] res@[i]).tag == ch.0
                &&& res@[i]@.text == without_newlines(ch.1)
            },
        no_breaks(base@.map_values(|s: String| s@)) ==> old_lines(res@.map_values(|l: DiffLine| l@))
            == base@.map_values(|s: String| s@),
        no_breaks(side@.map_values(|s: String| s@)) ==> new_lines(res@.map_values(|l: DiffLine| l@))
            == side@.map_values(|s: String| s@),
{
    let base_text = join_lines(base);
    let side_text = join_lines(side);
    let changes = inline_changes(base_text.as_str(), side_text.as_str());
    let res = lines_from_changes(&changes);
    proof {
        let cv = changes@.map_values(|c: RawChange| c@);
        lemma_diff_lines_well_formed(cv);
        let ld = line_diff(base_text@, side_text@);
        assert(res@.map_values(|l: DiffLine| l@).len() == res@.len());
        assert(spec_diff_lines(cv).len() == cv.len());
        assert(res@.len() == ld.len());
        assert forall|i: int| 0 <= i < res@.len() implies {
            let ch = ld[i];
            &&& (#[trigger] res@[i]).tag == ch.0
            &&& res@[i]@.text == without_newlines(ch.1)
        } by {
            assert(res@[i]@ == spec_diff_lines(cv)[i]);
            assert(cv[i] == changes@[i]@);
            assert(changes@[i].tag == ld[i].0);
            lemma_words_text(cv[i].parts);
        }
        assert(change_list(changes@) =~= ld);
        let rv = res@.map_values(|l: DiffLine| l@);
        assert forall|i: int| 0 <= i < rv.len() implies (#[trigger] rv[i]).tag == ld[i].0 && rv[i].text
            == without_newlines(ld[i].1) by {
            assert(rv[i] == res@[i]@);
        }
        lemma_side_lines(rv, ld);
        let bv = base@.map_values(|s: String| s@);
        let sv = side@.map_values(|s: String| s@);
        if no_breaks(bv) {
            lemma_cut_terminated(bv);
            lemma_lines_back(bv);
        }
        if no_breaks(sv) {
            lemma_cut_terminated(sv);
            lemma_lines_back(sv);
        }
    }
    res
}


/// The texts of the pieces whose emphasis flag is `flag`, concatenated.
pub open spec fn pieces_with(parts: Seq<(bool, Seq<char>)>, flag: bool) -> Seq<char>
    decreases parts.len(),
{
    if parts.len() == 0 {
        Seq::empty()
    } else {
        pieces_with(parts.drop_last(), flag) + if parts.last().0 == flag {
            parts.last().1
        } else {
            Seq::empty()
        }
    }
}

/// The texts of the words whose emphasis flag is `flag`, concatenated.
pub open spec fn words_with(ws: Seq<WordView>, flag: bool) -> Seq<char>
    decreases ws.len(),
{
    if ws.len() == 0 {
        Seq::empty()
    } else {
        words_with(ws.drop_last(), flag) + if ws.last().emphasized == flag {
            ws.last().text
        } else {
            Seq::empty()
        }
    }
}

proof fn lemma_words_flags(parts: Seq<(bool, Seq<char>)>, flag: bool)
    ensures
        words_with(words_of(parts), flag) == without_newlines(pieces_with(parts, flag)),
        forall|j: int|
            0 <= j < words_of(parts).len() ==> exists|k: int|
                0 <= k < parts.len() && parts[k].0 == (#[trigger] words_of(parts)[j]).emphasized
                    && words_of(parts)[j].text == without_newlines(parts[k].1),
    decreases parts.len(),
{
    if parts.len() > 0 {
        let p0 = parts.drop_last();
        lemma_words_flags(p0, flag);
        let prev = words_of(p0);
        let last = parts.last();
        let cleaned = without_newlines(last.1);
        let extra = if last.0 == flag {
            last.1
        } else {
            Seq::<char>::empty()
        };
        lemma_without_newlines_concat(pieces_with(p0, flag), extra);
        assert(without_newlines(Seq::<char>::empty()) == Seq::<char>::empty());
        if cleaned.len() == 0 {
            assert(without_newlines(pieces_with(p0, flag)) + without_newlines(extra)
                =~= without_newlines(pieces_with(p0, flag)));
        } else {
            let next = prev.push(WordView { text: cleaned, emphasized: last.0 });
            assert(next.drop_last() =~= prev);
            assert(next.last() == WordView { text: cleaned, emphasized: last.0 });
            if last.0 != flag {
                assert(words_with(prev, flag) + Seq::<char>::empty() =~= words_with(prev, flag));
            }
        }
        assert forall|j: int| 0 <= j < words_of(parts).len() implies exists|k: int|
            0 <= k < parts.len() && parts[k].0 == (#[trigger] words_of(parts)[j]).emphasized
                && words_of(parts)[j].text == without_newlines(parts[k].1) by {
            if j < prev.len() {
                assert(words_of(parts)[j] == prev[j]);
                let k = choose|k: int|
                    0 <= k < p0.len() && p0[k].0 == (#[trigger] prev[j]).emphasized && prev[j].text
                        == without_newlines(p0[k].1);
                assert(parts[k] == p0[k]);
            } else {
                assert(parts[parts.len() - 1] == last);
            }
        }
    }
}

/// Each display line keeps the emphasis of the pieces it was cut from: the
/// emphasised words spell exactly the emphasised (changed) pieces, and the
/// plain words exactly the plain ones, line breaks removed; and every word
/// is the text of one piece that carries the word's own flag.
pub proof fn lemma_diff_lines_emphasis(changes: Seq<RawChangeView>)
    ensures
        forall|i: int, flag: bool|
            0 <= i < changes.len() ==> #[trigger] words_with(spec_diff_lines(changes)[i].words, flag)
                == without_newlines(pieces_with(changes[i].parts, flag)),
        forall|i: int, j: int|
            0 <= i < changes.len() && 0 <= j < spec_diff_lines(changes)[i].words.len() ==> exists|k: int|
                0 <= k < changes[i].parts.len() && changes[i].parts[k].0
                    == (#[trigger] spec_diff_lines(changes)[i].words[j]).emphasized
                    && spec_diff_lines(changes)[i].words[j].text == without_newlines(
                    changes[i].parts[k].1,
                ),
{
    assert forall|i: int, flag: bool| 0 <= i < changes.len() implies #[trigger] words_with(
        spec_diff_lines(changes)[i].words,
        flag,
    ) == without_newlines(pieces_with(changes[i].parts, flag)) by {
        lemma_words_flags(changes[i].parts, flag);
    }
    assert forall|i: int, j: int|
        0 <= i < changes.len() && 0 <= j < spec_diff_lines(changes)[i].words.len() implies exists|k: int|
        0 <= k < changes[i].parts.len() && changes[i].parts[k].0
            == (#[trigger] spec_diff_lines(changes)[i].words[j]).emphasized
            && spec_diff_lines(changes)[i].words[j].text == without_newlines(
            changes[i].parts[k].1,
        ) by {
        lemma_words_flags(changes[i].parts, true);
        assert(spec_diff_lines(changes)[i].words == words_of(changes[i].parts));
    }
}

} // verus!
