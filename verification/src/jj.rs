//! Reading what the `jj` command line reports.
//!
//! Running `jj` is the program's business; this module decides what its
//! answers mean: the repository root that `jj root` prints, the rows of
//! `jj resolve --list` (and whether a failed listing means "nothing to
//! resolve" or an error), and the file that `jj file show` prints. Output is
//! read as `String::from_utf8_lossy` reads it.

use vstd::prelude::*;
use crate::text::{
    chars_of, find_char, find_from, parse_number, parse_usize, push_char, split_on, string_of, trim,
    trim_bounds, trim_end,
};

verus! {

broadcast use vstd::string::group_string_axioms;

/// One row of `jj resolve --list`: a conflicted path and its description.
#[derive(Debug, Clone)]
pub struct ConflictEntry {
    pub path: String,
    pub description: String,
    /// Side count parsed from a description like `3-sided conflict`.
    pub sides: Option<usize>,
}

/// The text of a [`ConflictEntry`].
pub struct EntryView {
    pub path: Seq<char>,
    pub description: Seq<char>,
    pub sides: Option<usize>,
}

impl View for ConflictEntry {
    type V = EntryView;

    open spec fn view(&self) -> EntryView {
        EntryView { path: self.path@, description: self.description@, sides: self.sides }
    }
}

/// The index of the first run of two spaces in `s`, if any.
pub open spec fn find_double_space(s: Seq<char>) -> Option<nat>
    decreases s.len(),
{
    if s.len() < 2 {
        None
    } else if s[0] == ' ' && s[1] == ' ' {
        Some(0)
    } else {
        match find_double_space(s.drop_first()) {
            Some(i) => Some(i + 1),
            None => None,
        }
    }
}

/// The side count of a description: the number before its first `-`.
pub open spec fn spec_sides(description: Seq<char>) -> Option<usize> {
    let first = match find_char(description, '-') {
        Some(i) => description.take(i as int),
        None => description,
    };
    parse_usize(trim(first))
}

/// One row of the listing: the path runs up to the first double space and
/// the rest, trimmed, is the description. Blank rows are skipped.
pub open spec fn spec_list_line(line: Seq<char>) -> Option<EntryView> {
    let l = trim_end(line);
    if l.len() == 0 {
        None
    } else {
        let path = match find_double_space(l) {
            Some(k) => l.take(k as int),
            None => l,
        };
        let description = match find_double_space(l) {
            Some(k) => trim(l.skip(k as int)),
            None => Seq::empty(),
        };
        Some(EntryView { path: path, description: description, sides: spec_sides(description) })
    }
}

/// `line` without one trailing carriage return.
pub open spec fn strip_cr(line: Seq<char>) -> Seq<char> {
    if line.len() > 0 && line.last() == '\r' {
        line.drop_last()
    } else {
        line
    }
}

/// `str::lines`: the lines of a text, each without its `\n` or `\r\n`; a
/// final line ending adds no empty line.
pub open spec fn std_lines(t: Seq<char>) -> Seq<Seq<char>> {
    if t.len() == 0 {
        Seq::empty()
    } else {
        let pieces = split_on(t, '\n');
        let ended = pieces.drop_last().map_values(|p: Seq<char>| strip_cr(p));
        if t.last() == '\n' {
            ended
        } else {
            ended.push(pieces.last())
        }
    }
}

/// The entries of the listing rows, blank rows skipped.
pub open spec fn entries_of(lines: Seq<Seq<char>>) -> Seq<EntryView>
    decreases lines.len(),
{
    if lines.len() == 0 {
        Seq::empty()
    } else {
        let prev = entries_of(lines.drop_last());
        match spec_list_line(lines.last()) {
            Some(e) => prev.push(e),
            None => prev,
        }
    }
}

/// Whether `pat` occurs in `s`.
pub open spec fn contains_seq(s: Seq<char>, pat: Seq<char>) -> bool {
    exists|k: int| 0 <= k && k + pat.len() <= s.len() && #[trigger] s.subrange(k, k + pat.len()) == pat
}

/// What a run of `jj resolve --list` reports: its rows when it succeeded;
/// nothing to resolve when it failed saying `No conflicts`; otherwise an
/// error quoting its trimmed error output.
pub open spec fn spec_conflict_list(success: bool, stdout: Seq<char>, stderr: Seq<char>) -> Result<
    Seq<EntryView>,
    Seq<char>,
> {
    if success {
        Ok(entries_of(std_lines(stdout)))
    } else if contains_seq(stderr, "No conflicts"@) {
        Ok(Seq::empty())
    } else {
        Err("`jj resolve --list` failed: "@ + trim(stderr))
    }
}

/// Whether `s` holds two spaces at `j`.
pub open spec fn double_space_at(s: Seq<char>, j: int) -> bool {
    s[j] == ' ' && s[j + 1] == ' '
}

proof fn lemma_find_double_space(s: Seq<char>)
    ensures
        find_double_space(s) matches Some(i) ==> i + 1 < s.len() && double_space_at(s, i as int)
            && forall|j: int| 0 <= j < i ==> !#[trigger] double_space_at(s, j),
        find_double_space(s) is None ==> forall|j: int|
            0 <= j < s.len() - 1 ==> !#[trigger] double_space_at(s, j),
    decreases s.len(),
{
    if s.len() >= 2 && !(s[0] == ' ' && s[1] == ' ') {
        lemma_find_double_space(s.drop_first());
        assert forall|j: int| 1 <= j < s.len() implies s[j] == s.drop_first()[j - 1] by {}
        assert forall|j: int| 1 <= j < s.len() - 1 implies #[trigger] double_space_at(s, j)
            == double_space_at(s.drop_first(), j - 1) by {}
    }
}

/// Extract the leading integer from a description like `3-sided conflict`.
pub fn parse_sides(description: &str) -> (res: Option<usize>)
    ensures
        res == spec_sides(description@),
{
    let cs = chars_of(description);
    proof {
        assert(cs@.skip(0) =~= description@);
    }
    let end = match find_from(&cs, 0, '-') {
        Some(i) => i,
        None => cs.len(),
    };
    let (b, e) = trim_bounds(&cs, 0, end);
    proof {
        assert(cs@.subrange(0, end as int) =~= match find_char(description@, '-') {
            Some(i) => description@.take(i as int),
            None => description@,
        });
    }
    let piece = string_of(&cs, b, e);
    parse_number(&piece)
}

/// Parse one `jj resolve --list` row. Path and description are separated by a
/// run of >= 2 spaces (column padding).
pub fn parse_list_line(line: &str) -> (res: Option<ConflictEntry>)
    ensures
        match res {
            Some(e) => spec_list_line(line@) == Some(e@),
            None => spec_list_line(line@) is None,
        },
{
    let cs = chars_of(line);
    let (_, n) = trim_bounds(&cs, 0, cs.len());
    let mut e = cs.len();
    while e > 0 && crate::text::is_whitespace(cs[e - 1])
        invariant
            e <= cs@.len(),
            cs@ == line@,
            forall|j: int| e <= j < cs@.len() ==> crate::text::is_ws(#[trigger] cs@[j]),
        decreases e,
    {
        e -= 1;
    }
    let ghost l = trim_end(line@);
    proof {
        assert forall|j: int| e <= j < line@.len() implies crate::text::is_ws(#[trigger] line@[j]) by {}
        crate::text::lemma_trim_end_unique(line@, e as int);
        assert(l =~= cs@.subrange(0, e as int));
    }
    if e == 0 {
        return None;
    }
    let mut k: usize = 0;
    while k + 1 < e && !(cs[k] == ' ' && cs[k + 1] == ' ')
        invariant
            k < e <= cs@.len(),
            l == cs@.subrange(0, e as int),
            forall|j: int| 0 <= j < k ==> !#[trigger] double_space_at(cs@, j),
        decreases e - k,
    {
        k += 1;
    }
    proof {
        lemma_find_double_space(l);
        match find_double_space(l) {
            Some(i) => {
                if i < k {
                    assert(l[i as int] == cs@[i as int]);
                    assert(l[i + 1 as int] == cs@[i + 1 as int]);
                    assert(double_space_at(cs@, i as int));
                }
                if k + 1 < e && k < i {
                    assert(l[k as int] == cs@[k as int]);
                    assert(l[k + 1 as int] == cs@[k + 1 as int]);
                    assert(double_space_at(l, k as int));
                }
            },
            None => {
                if k + 1 < e {
                    assert(l[k as int] == cs@[k as int]);
                    assert(l[k + 1 as int] == cs@[k + 1 as int]);
                    assert(double_space_at(l, k as int));
                }
            },
        }
    }
    if k + 1 < e {
        let path = string_of(&cs, 0, k);
        let (b, t) = trim_bounds(&cs, k, e);
        let description = string_of(&cs, b, t);
        proof {
            assert(find_double_space(l) == Some(k as nat));
            assert(cs@.subrange(0, k as int) =~= l.take(k as int));
            assert(cs@.subrange(k as int, e as int) =~= l.skip(k as int));
        }
        let sides = parse_sides(description.as_str());
        Some(ConflictEntry { path, description, sides })
    } else {
        let path = string_of(&cs, 0, e);
        let description = String::new();
        proof {
            assert(find_double_space(l) is None);
        }
        let sides = parse_sides(description.as_str());
        Some(ConflictEntry { path, description, sides })
    }
}

/// Whether `pat` occurs in `s`.
fn contains_chars(s: &Vec<char>, pat: &Vec<char>) -> (res: bool)
    ensures
        res == contains_seq(s@, pat@),
{
    if pat.len() > s.len() {
        return false;
    }
    let mut k: usize = 0;
    let last = s.len() - pat.len();
    loop
        invariant
            pat@.len() <= s@.len(),
            last + pat@.len() == s@.len(),
            s@.len() <= usize::MAX,
            k <= last,
            forall|m: int| 0 <= m < k ==> #[trigger] s@.subrange(m, m + pat@.len()) != pat@,
        decreases last - k,
    {
        let mut j: usize = 0;
        while j < pat.len() && s[k + j] == pat[j]
            invariant
                k <= last,
                last + pat@.len() == s@.len(),
                s@.len() <= usize::MAX,
                j <= pat@.len(),
                forall|q: int| 0 <= q < j ==> s@[k + q] == pat@[q],
            decreases pat@.len() - j,
        {
            j += 1;
        }
        if j == pat.len() {
            assert(s@.subrange(k as int, k + pat@.len()) =~= pat@);
            return true;
        }
        assert(s@.subrange(k as int, k + pat@.len())[j as int] != pat@[j as int]);
        if k == last {
            proof {
                assert forall|m: int| 0 <= m && m + pat@.len() <= s@.len() implies #[trigger] s@.subrange(
                    m,
                    m + pat@.len(),
                ) != pat@ by {
                    assert(m <= k);
                }
            }
            return false;
        }
        k += 1;
    }
}

/// The lines of a text as `str::lines` gives them.
pub fn text_lines(t: &str) -> (res: Vec<String>)
    ensures
        res.deep_view() == std_lines(t@),
{
    let cs = chars_of(t);
    let mut done: Vec<String> = Vec::new();
    let mut cur = String::new();
    let mut i: usize = 0;
    proof {
        assert(cs@.take(0) =~= Seq::<char>::empty());
        assert(done.deep_view() =~= Seq::<Seq<char>>::empty());
        assert(split_on(cs@.take(0), '\n').drop_last() =~= Seq::<Seq<char>>::empty());
    }
    while i < cs.len()
        invariant
            i <= cs@.len(),
            cs@ == t@,
            done.deep_view() == split_on(cs@.take(i as int), '\n').drop_last().map_values(
                |p: Seq<char>| strip_cr(p),
            ),
            cur@ == split_on(cs@.take(i as int), '\n').last(),
            split_on(cs@.take(i as int), '\n').len() >= 1,
        decreases cs@.len() - i,
    {
        let c = cs[i];
        let ghost pre = cs@.take(i as int);
        let ghost next = cs@.take(i + 1);
        let ghost sp = split_on(pre, '\n');
        assert(next.drop_last() =~= pre);
        assert(next.last() == c);
        if c == '\n' {
            let n = cur.as_str().unicode_len();
            let piece = if n > 0 && cur.as_str().get_char(n - 1) == '\r' {
                cur.as_str().substring_char(0, n - 1).to_owned()
            } else {
                cur
            };
            proof {
                assert(piece@ == strip_cr(sp.last()));
            }
            let ghost before = done.deep_view();
            done.push(piece);
            assert(done.deep_view() =~= before.push(piece@));
            assert(split_on(next, '\n').drop_last() =~= sp);
            assert(sp =~= sp.drop_last().push(sp.last()));
            assert(done.deep_view() =~= split_on(next, '\n').drop_last().map_values(
                |p: Seq<char>| strip_cr(p),
            ));
            cur = String::new();
        } else {
            push_char(&mut cur, c);
            assert(split_on(next, '\n').drop_last() =~= sp.drop_last());
        }
        i += 1;
    }
    proof {
        assert(cs@.take(i as int) =~= t@);
    }
    if cs.len() > 0 && cs[cs.len() - 1] != '\n' {
        let ghost before = done.deep_view();
        let w = cur;
        done.push(w);
        assert(done.deep_view() =~= before.push(w@));
    } else if cs.len() == 0 {
        assert(done.deep_view() =~= Seq::<Seq<char>>::empty());
    }
    done
}

/// Interpret a run of `jj resolve --list`: its exit status and what it
/// printed on standard output and standard error.
pub fn conflict_list(success: bool, stdout: &str, stderr: &str) -> (res: Result<Vec<ConflictEntry>, String>)
    ensures
        match res {
            Ok(v) => spec_conflict_list(success, stdout@, stderr@) == Ok::<Seq<EntryView>, Seq<char>>(
                v@.map_values(|e: ConflictEntry| e@),
            ),
            Err(m) => spec_conflict_list(success, stdout@, stderr@) == Err::<Seq<EntryView>, Seq<char>>(
                m@,
            ),
        },
{
    if !success {
        let err = chars_of(stderr);
        let pat = chars_of("No conflicts");
        if contains_chars(&err, &pat) {
            let empty: Vec<ConflictEntry> = Vec::new();
            assert(empty@.map_values(|e: ConflictEntry| e@) =~= Seq::<EntryView>::empty());
            return Ok(empty);
        }
        let (b, e) = trim_bounds(&err, 0, err.len());
        assert(err@.subrange(0, err@.len() as int) =~= stderr@);
        let detail = string_of(&err, b, e);
        let mut msg = String::from_str("`jj resolve --list` failed: ");
        msg.append(detail.as_str());
        return Err(msg);
    }
    let lines = text_lines(stdout);
    let mut out: Vec<ConflictEntry> = Vec::new();
    let mut i: usize = 0;
    proof {
        assert(lines.deep_view().take(0) =~= Seq::<Seq<char>>::empty());
        assert(out@.map_values(|e: ConflictEntry| e@) =~= Seq::<EntryView>::empty());
    }
    while i < lines.len()
        invariant
            i <= lines@.len(),
            out@.map_values(|e: ConflictEntry| e@) == entries_of(lines.deep_view().take(i as int)),
        decreases lines@.len() - i,
    {
        let ghost before = out@.map_values(|e: ConflictEntry| e@);
        assert(lines.deep_view().take(i + 1).drop_last() =~= lines.deep_view().take(i as int));
        assert(lines.deep_view().take(i + 1).last() == lines@[i as int]@);
        match parse_list_line(lines[i].as_str()) {
            Some(e) => {
                out.push(e);
                assert(out@.map_values(|e: ConflictEntry| e@) =~= before.push(e@));
            },
            None => {},
        }
        i += 1;
    }
    assert(lines.deep_view().take(i as int) =~= lines.deep_view());
    Ok(out)
}

/// What `String::from_utf8_lossy` makes of some bytes: their text, each
/// invalid sequence replaced by U+FFFD.
pub uninterp spec fn lossy_text(bytes: Seq<u8>) -> Seq<char>;

/// `String::from_utf8_lossy(bytes)`, owned. Claimed: the result is
/// [`lossy_text`] of the bytes, and for valid UTF-8 it is the text the bytes
/// encode, as std documents. How invalid sequences are replaced is not
/// stated.
#[verifier::external_body]
fn lossy(bytes: &[u8]) -> (res: String)
    ensures
        res@ == lossy_text(bytes@),
        vstd::utf8::valid_utf8(bytes@) ==> res@ == vstd::utf8::decode_utf8(bytes@),
{
    String::from_utf8_lossy(bytes).into_owned()
}

/// `s` without leading and trailing whitespace.
fn trimmed(s: &str) -> (res: String)
    ensures
        res@ == trim(s@),
{
    let cs = chars_of(s);
    let (b, e) = trim_bounds(&cs, 0, cs.len());
    assert(cs@.subrange(0, cs@.len() as int) =~= s@);
    string_of(&cs, b, e)
}

/// What a run of `jj root` means: the repository root it printed, or why
/// there is none.
pub open spec fn spec_root_outcome(success: bool, stdout: Seq<char>, stderr: Seq<char>) -> Result<
    Seq<char>,
    Seq<char>,
> {
    if !success {
        Err("`jj root` failed: "@ + trim(stderr))
    } else if trim(stdout).len() == 0 {
        Err("`jj root` returned an empty path"@)
    } else {
        Ok(trim(stdout))
    }
}

/// Interpret a run of `jj root`: its exit status and the bytes it printed on
/// standard output and standard error.
pub fn root_outcome(success: bool, stdout: &[u8], stderr: &[u8]) -> (res: Result<String, String>)
    ensures
        match res {
            Ok(r) => spec_root_outcome(success, lossy_text(stdout@), lossy_text(stderr@)) == Ok::<
                Seq<char>,
                Seq<char>,
            >(r@),
            Err(m) => spec_root_outcome(success, lossy_text(stdout@), lossy_text(stderr@)) == Err::<
                Seq<char>,
                Seq<char>,
            >(m@),
        },
{
    if !success {
        let err = lossy(stderr);
        let detail = trimmed(err.as_str());
        let mut msg = String::from_str("`jj root` failed: ");
        msg.append(detail.as_str());
        return Err(msg);
    }
    let out = lossy(stdout);
    let root = trimmed(out.as_str());
    if root.as_str().unicode_len() == 0 {
        return Err(String::from_str("`jj root` returned an empty path"));
    }
    Ok(root)
}

/// What a run of `jj file show` for `path` means: the file's text, or why
/// it could not be shown.
pub open spec fn spec_show_outcome(path: Seq<char>, success: bool, stdout: Seq<char>, stderr: Seq<char>) -> Result<
    Seq<char>,
    Seq<char>,
> {
    if !success {
        Err("`jj file show "@ + path + "` failed: "@ + trim(stderr))
    } else {
        Ok(stdout)
    }
}

/// Interpret a run of `jj file show` for `path`.
pub fn show_outcome(path: &str, success: bool, stdout: &[u8], stderr: &[u8]) -> (res: Result<
    String,
    String,
>)
    ensures
        match res {
            Ok(t) => spec_show_outcome(path@, success, lossy_text(stdout@), lossy_text(stderr@))
                == Ok::<Seq<char>, Seq<char>>(t@),
            Err(m) => spec_show_outcome(path@, success, lossy_text(stdout@), lossy_text(stderr@))
                == Err::<Seq<char>, Seq<char>>(m@),
        },
{
    if !success {
        let err = lossy(stderr);
        let detail = trimmed(err.as_str());
        let mut msg = String::from_str("`jj file show ");
        msg.append(path);
        msg.append("` failed: ");
        msg.append(detail.as_str());
        return Err(msg);
    }
    Ok(lossy(stdout))
}

/// Interpret a run of `jj resolve --list` from the bytes it printed.
pub fn list_outcome(success: bool, stdout: &[u8], stderr: &[u8]) -> (res: Result<
    Vec<ConflictEntry>,
    String,
>)
    ensures
        match res {
            Ok(v) => spec_conflict_list(success, lossy_text(stdout@), lossy_text(stderr@)) == Ok::<
                Seq<EntryView>,
                Seq<char>,
            >(v@.map_values(|e: ConflictEntry| e@)),
            Err(m) => spec_conflict_list(success, lossy_text(stdout@), lossy_text(stderr@)) == Err::<
                Seq<EntryView>,
                Seq<char>,
            >(m@),
        },
{
    let out = lossy(stdout);
    let err = lossy(stderr);
    conflict_list(success, out.as_str(), err.as_str())
}

} // verus!
