//! Character-level helpers shared by the parser and the renderer: the
//! mathematical meaning of splitting, joining, trimming and number parsing on
//! `Seq<char>`, and executable versions proved against it.

use vstd::prelude::*;
use vstd::std_specs::iter::IteratorSpec;

verus! {

broadcast use vstd::string::group_string_axioms;

// ---------------------------------------------------------------------------
// Specifications
// ---------------------------------------------------------------------------

/// Rust's `char::is_whitespace`: the Unicode `White_Space` property.
pub open spec fn is_ws(c: char) -> bool {
    ||| c == ' '
    ||| ('\t' <= c && c <= '\r')
    ||| c == '\u{85}'
    ||| c == '\u{a0}'
    ||| c == '\u{1680}'
    ||| ('\u{2000}' <= c && c <= '\u{200a}')
    ||| c == '\u{2028}'
    ||| c == '\u{2029}'
    ||| c == '\u{202f}'
    ||| c == '\u{205f}'
    ||| c == '\u{3000}'
}

/// `s.split(sep)`: the pieces between occurrences of `sep`; never empty.
pub open spec fn split_on(s: Seq<char>, sep: char) -> Seq<Seq<char>>
    decreases s.len(),
{
    if s.len() == 0 {
        seq![Seq::<char>::empty()]
    } else {
        let prev = split_on(s.drop_last(), sep);
        if s.last() == sep {
            prev.push(Seq::<char>::empty())
        } else {
            prev.update(prev.len() - 1, prev.last().push(s.last()))
        }
    }
}

/// The pieces of `ls` with one `sep` between neighbours (`join`).
pub open spec fn join_with(ls: Seq<Seq<char>>, sep: char) -> Seq<char>
    decreases ls.len(),
{
    if ls.len() == 0 {
        Seq::<char>::empty()
    } else if ls.len() == 1 {
        ls[0]
    } else {
        join_with(ls.drop_last(), sep).push(sep) + ls.last()
    }
}

/// Whether the text ends with a newline.
pub open spec fn ends_with_newline(text: Seq<char>) -> bool {
    text.len() > 0 && text.last() == '\n'
}

/// The text without its single trailing newline, if it has one.
pub open spec fn body_of(text: Seq<char>) -> Seq<char> {
    if ends_with_newline(text) {
        text.drop_last()
    } else {
        text
    }
}

/// The lines of a text: its body split at `'\n'`, and no line at all for an
/// empty body (so `"a\n"` has the single line `"a"`, and `""` has none).
pub open spec fn lines_of(text: Seq<char>) -> Seq<Seq<char>> {
    let body = body_of(text);
    if body.len() == 0 {
        Seq::empty()
    } else {
        split_on(body, '\n')
    }
}

/// The text made of `lines` joined by `'\n'`, followed by a `'\n'` when
/// `trailing` holds.
pub open spec fn unlines(lines: Seq<Seq<char>>, trailing: bool) -> Seq<char> {
    let joined = join_with(lines, '\n');
    if trailing {
        joined.push('\n')
    } else {
        joined
    }
}

/// `s` without its trailing whitespace (`str::trim_end`).
pub open spec fn trim_end(s: Seq<char>) -> Seq<char>
    decreases s.len(),
{
    if s.len() > 0 && is_ws(s.last()) {
        trim_end(s.drop_last())
    } else {
        s
    }
}

/// `s` without its leading whitespace (`str::trim_start`).
pub open spec fn trim_start(s: Seq<char>) -> Seq<char>
    decreases s.len(),
{
    if s.len() > 0 && is_ws(s[0]) {
        trim_start(s.drop_first())
    } else {
        s
    }
}

/// `s` without leading and trailing whitespace (`str::trim`).
pub open spec fn trim(s: Seq<char>) -> Seq<char> {
    trim_start(trim_end(s))
}

/// The number of leading characters of `s` equal to `c`.
pub open spec fn run_len(s: Seq<char>, c: char) -> nat
    decreases s.len(),
{
    if s.len() > 0 && s[0] == c {
        1 + run_len(s.drop_first(), c)
    } else {
        0
    }
}

/// The index of the first `c` in `s`, if any.
pub open spec fn find_char(s: Seq<char>, c: char) -> Option<nat>
    decreases s.len(),
{
    if s.len() == 0 {
        None
    } else if s[0] == c {
        Some(0)
    } else {
        match find_char(s.drop_first(), c) {
            Some(i) => Some(i + 1),
            None => None,
        }
    }
}

/// The whitespace-separated words of `s` (`str::split_whitespace`).
pub open spec fn words(s: Seq<char>) -> Seq<Seq<char>>
    decreases s.len(),
{
    if s.len() == 0 {
        Seq::empty()
    } else {
        let prev = words(s.drop_last());
        let c = s.last();
        if is_ws(c) {
            prev
        } else if s.len() > 1 && !is_ws(s[s.len() - 2]) && prev.len() > 0 {
            prev.update(prev.len() - 1, prev.last().push(c))
        } else {
            prev.push(seq![c])
        }
    }
}

/// Whether `c` is an ASCII decimal digit.
pub open spec fn is_digit(c: char) -> bool {
    '0' <= c && c <= '9'
}

/// The value of a digit character.
pub open spec fn digit_value(c: char) -> nat {
    (c as nat - '0' as nat) as nat
}

/// The value of a string of decimal digits.
pub open spec fn digits_value(s: Seq<char>) -> nat
    decreases s.len(),
{
    if s.len() == 0 {
        0
    } else {
        digits_value(s.drop_last()) * 10 + digit_value(s.last())
    }
}

/// The digits part of a number: the text after an optional leading `'+'`.
pub open spec fn number_digits(s: Seq<char>) -> Seq<char> {
    if s.len() > 0 && s[0] == '+' {
        s.drop_first()
    } else {
        s
    }
}

/// Whether every character is an ASCII digit.
pub open spec fn all_digits(d: Seq<char>) -> bool {
    forall|i: int| 0 <= i < d.len() ==> is_digit(#[trigger] d[i])
}

/// What `str::parse::<usize>()` accepts: an optional `'+'`, then one or more
/// ASCII digits whose value fits in a `usize`.
pub open spec fn parse_usize(s: Seq<char>) -> Option<usize> {
    let d = number_digits(s);
    if d.len() > 0 && all_digits(d) && digits_value(d) <= usize::MAX {
        Some(digits_value(d) as usize)
    } else {
        None
    }
}

/// The decimal representation of `n`, without leading zeros.
pub open spec fn decimal(n: nat) -> Seq<char>
    decreases n,
{
    if n < 10 {
        seq![digit_char(n)]
    } else {
        decimal(n / 10).push(digit_char(n % 10))
    }
}

/// The character of a digit value below ten.
pub open spec fn digit_char(d: nat) -> char {
    if d == 0 {
        '0'
    } else if d == 1 {
        '1'
    } else if d == 2 {
        '2'
    } else if d == 3 {
        '3'
    } else if d == 4 {
        '4'
    } else if d == 5 {
        '5'
    } else if d == 6 {
        '6'
    } else if d == 7 {
        '7'
    } else if d == 8 {
        '8'
    } else {
        '9'
    }
}

// ---------------------------------------------------------------------------
// Lemmas
// ---------------------------------------------------------------------------

/// Splitting never yields an empty list of pieces.
pub proof fn lemma_split_nonempty(s: Seq<char>, sep: char)
    ensures
        split_on(s, sep).len() >= 1,
    decreases s.len(),
{
    if s.len() > 0 {
        lemma_split_nonempty(s.drop_last(), sep);
    }
}

/// Joining the pieces of a split gives back the text.
pub proof fn lemma_join_split(s: Seq<char>, sep: char)
    ensures
        join_with(split_on(s, sep), sep) == s,
    decreases s.len(),
{
    if s.len() == 0 {
        assert(join_with(split_on(s, sep), sep) =~= s);
    } else {
        let p = split_on(s.drop_last(), sep);
        lemma_split_nonempty(s.drop_last(), sep);
        lemma_join_split(s.drop_last(), sep);
        if s.last() == sep {
            let q = p.push(Seq::<char>::empty());
            assert(q.drop_last() =~= p);
            assert(join_with(q, sep) =~= s);
        } else {
            let q = p.update(p.len() - 1, p.last().push(s.last()));
            if p.len() == 1 {
                assert(join_with(q, sep) =~= s);
            } else {
                assert(q.drop_last() =~= p.drop_last());
                assert(join_with(q, sep) == join_with(p.drop_last(), sep).push(sep) + p.last().push(
                    s.last(),
                ));
                assert(join_with(p.drop_last(), sep).push(sep) + p.last().push(s.last()) =~= (
                join_with(p.drop_last(), sep).push(sep) + p.last()).push(s.last()));
                assert(s.drop_last().push(s.last()) =~= s);
            }
        }
    }
}

/// The pieces of two texts split one after the other, with the last piece
/// of the first joined to the first piece of the second.
pub open spec fn glue(x: Seq<Seq<char>>, y: Seq<Seq<char>>) -> Seq<Seq<char>> {
    x.drop_last().push(x.last() + y[0]) + y.skip(1)
}

/// Splitting a concatenation glues the splits of its two parts.
pub proof fn lemma_split_concat(a: Seq<char>, b: Seq<char>, sep: char)
    ensures
        split_on(a + b, sep) == glue(split_on(a, sep), split_on(b, sep)),
    decreases b.len(),
{
    let s = split_on(a, sep);
    lemma_split_nonempty(a, sep);
    if b.len() == 0 {
        assert(a + b =~= a);
        assert(glue(s, split_on(b, sep)) =~= s);
    } else {
        let b0 = b.drop_last();
        let c = b.last();
        let t = split_on(b0, sep);
        lemma_split_nonempty(b0, sep);
        lemma_split_concat(a, b0, sep);
        assert((a + b).drop_last() =~= a + b0);
        assert((a + b).last() == c);
        let g = glue(s, t);
        if c == sep {
            assert(split_on(b, sep) == t.push(Seq::<char>::empty()));
            assert(glue(s, t.push(Seq::<char>::empty())) =~= g.push(Seq::<char>::empty()));
        } else {
            let t2 = t.update(t.len() - 1, t.last().push(c));
            assert(split_on(b, sep) == t2);
            if t.len() == 1 {
                assert((s.last() + t[0]).push(c) =~= s.last() + t[0].push(c));
                assert(glue(s, t2) =~= g.update(g.len() - 1, g.last().push(c)));
            } else {
                assert(glue(s, t2) =~= g.update(g.len() - 1, g.last().push(c)));
            }
        }
    }
}

/// Re-joining the lines of a text, with its trailing newline, gives the text.
pub proof fn lemma_unlines_lines(text: Seq<char>)
    ensures
        unlines(lines_of(text), ends_with_newline(text)) == text,
{
    let body = body_of(text);
    if body.len() == 0 {
        assert(join_with(lines_of(text), '\n') =~= body);
    } else {
        lemma_join_split(body, '\n');
    }
    if ends_with_newline(text) {
        assert(body.push('\n') =~= text);
    }
}

/// `run_len` counts a prefix of `c`s that is followed by another character.
pub proof fn lemma_run_len(s: Seq<char>, c: char)
    ensures
        run_len(s, c) <= s.len(),
        forall|j: int| 0 <= j < run_len(s, c) ==> s[j] == c,
        run_len(s, c) < s.len() ==> s[run_len(s, c) as int] != c,
    decreases s.len(),
{
    if s.len() > 0 && s[0] == c {
        lemma_run_len(s.drop_first(), c);
        assert forall|j: int| 0 <= j < run_len(s, c) implies s[j] == c by {
            if j > 0 {
                assert(s[j] == s.drop_first()[j - 1]);
            }
        }
    }
}

/// `find_char` finds the first occurrence.
pub proof fn lemma_find_char(s: Seq<char>, c: char)
    ensures
        find_char(s, c) matches Some(i) ==> i < s.len() && s[i as int] == c && forall|j: int|
            0 <= j < i ==> s[j] != c,
        find_char(s, c) is None ==> forall|j: int| 0 <= j < s.len() ==> s[j] != c,
    decreases s.len(),
{
    if s.len() > 0 && s[0] != c {
        lemma_find_char(s.drop_first(), c);
        assert forall|j: int| 1 <= j < s.len() implies s[j] == s.drop_first()[j - 1] by {}
    }
}

/// `trim_end` removes exactly a whitespace suffix.
pub proof fn lemma_trim_end(s: Seq<char>)
    ensures
        trim_end(s).len() <= s.len(),
        trim_end(s) == s.take(trim_end(s).len() as int),
        forall|j: int| trim_end(s).len() <= j < s.len() ==> is_ws(#[trigger] s[j]),
        trim_end(s).len() > 0 ==> !is_ws(trim_end(s).last()),
    decreases s.len(),
{
    if s.len() > 0 && is_ws(s.last()) {
        lemma_trim_end(s.drop_last());
        let t = trim_end(s.drop_last());
        assert(s.drop_last().take(t.len() as int) =~= s.take(t.len() as int));
        assert forall|j: int| trim_end(s).len() <= j < s.len() implies is_ws(#[trigger] s[j]) by {
            if j < s.len() - 1 {
                assert(s[j] == s.drop_last()[j]);
            }
        }
    } else {
        assert(s.take(s.len() as int) =~= s);
    }
}

/// `trim_start` removes exactly a whitespace prefix.
pub proof fn lemma_trim_start(s: Seq<char>)
    ensures
        trim_start(s).len() <= s.len(),
        trim_start(s) == s.skip(s.len() - trim_start(s).len()),
        forall|j: int| 0 <= j < s.len() - trim_start(s).len() ==> is_ws(#[trigger] s[j]),
        trim_start(s).len() > 0 ==> !is_ws(trim_start(s)[0]),
    decreases s.len(),
{
    if s.len() > 0 && is_ws(s[0]) {
        lemma_trim_start(s.drop_first());
        let t = trim_start(s.drop_first());
        assert(s.drop_first().skip(s.drop_first().len() - t.len()) =~= s.skip(s.len() - t.len()));
        assert forall|j: int| 0 <= j < s.len() - trim_start(s).len() implies is_ws(
            #[trigger] s[j],
        ) by {
            if j > 0 {
                assert(s[j] == s.drop_first()[j - 1]);
            }
        }
    } else {
        assert(s.skip(0) =~= s);
    }
}

/// A trimmed-at-the-end sequence is determined by where its whitespace
/// suffix starts.
pub proof fn lemma_trim_end_unique(s: Seq<char>, k: int)
    requires
        0 <= k <= s.len(),
        forall|j: int| k <= j < s.len() ==> is_ws(#[trigger] s[j]),
        k > 0 ==> !is_ws(s[k - 1]),
    ensures
        trim_end(s) == s.take(k),
    decreases s.len(),
{
    if s.len() > k {
        assert(is_ws(s[s.len() - 1]));
        lemma_trim_end_unique(s.drop_last(), k);
        assert(s.drop_last().take(k) =~= s.take(k));
    } else {
        assert(s.take(k) =~= s);
    }
}

/// A trimmed-at-the-start sequence is determined by where its whitespace
/// prefix ends.
pub proof fn lemma_trim_start_unique(s: Seq<char>, k: int)
    requires
        0 <= k <= s.len(),
        forall|j: int| 0 <= j < k ==> is_ws(#[trigger] s[j]),
        k < s.len() ==> !is_ws(s[k]),
    ensures
        trim_start(s) == s.skip(k),
    decreases s.len(),
{
    if k > 0 {
        assert(is_ws(s[0]));
        assert forall|j: int| 0 <= j < k - 1 implies is_ws(#[trigger] s.drop_first()[j]) by {
            assert(s.drop_first()[j] == s[j + 1]);
        }
        lemma_trim_start_unique(s.drop_first(), k - 1);
        assert(s.drop_first().skip(k - 1) =~= s.skip(k));
    } else {
        assert(s.skip(0) =~= s);
    }
}

/// Digit strings only grow in value when extended.
pub proof fn lemma_digits_value_monotone(s: Seq<char>, k: int)
    requires
        0 <= k <= s.len(),
    ensures
        digits_value(s.take(k)) <= digits_value(s),
    decreases s.len() - k,
{
    if k < s.len() {
        lemma_digits_value_monotone(s, k + 1);
        assert(s.take(k + 1).drop_last() =~= s.take(k));
        assert(digits_value(s.take(k + 1)) >= digits_value(s.take(k)));
    } else {
        assert(s.take(k) =~= s);
    }
}

// ---------------------------------------------------------------------------
// Executable helpers
// ---------------------------------------------------------------------------

/// Appends one character to a `String` (`String::push`).
/// Claimed: the new contents are the old contents followed by `c`.
#[verifier::external_body]
pub(crate) fn push_char(s: &mut String, c: char)
    ensures
        final(s)@ == old(s)@.push(c),
{
    s.push(c);
}

/// Whether `c` is whitespace.
pub fn is_whitespace(c: char) -> (b: bool)
    ensures
        b == is_ws(c),
{
    c == ' ' || ('\t' <= c && c <= '\r') || c == '\u{85}' || c == '\u{a0}' || c == '\u{1680}'
        || ('\u{2000}' <= c && c <= '\u{200a}') || c == '\u{2028}' || c == '\u{2029}' || c
        == '\u{202f}' || c == '\u{205f}' || c == '\u{3000}'
}

/// The characters of `text`, in order.
pub fn chars_of(text: &str) -> (res: Vec<char>)
    ensures
        res@ == text@,
{
    let mut out: Vec<char> = Vec::new();
    let mut it = text.chars();
    loop
        invariant
            it.remaining() == text@.skip(out@.len() as int),
            out@ == text@.take(out@.len() as int),
            out@.len() <= text@.len(),
        ensures
            out@ == text@,
        decreases text@.len() - out@.len(),
    {
        match it.next() {
            Some(c) => {
                out.push(c);
            },
            None => {
                assert(out@ =~= text@);
                break;
            },
        }
    }
    out
}

/// The string made of `cs[from..to]`.
pub fn string_of(cs: &Vec<char>, from: usize, to: usize) -> (res: String)
    requires
        from <= to <= cs@.len(),
    ensures
        res@ == cs@.subrange(from as int, to as int),
{
    let mut s = String::new();
    let mut i = from;
    while i < to
        invariant
            from <= i <= to <= cs@.len(),
            s@ == cs@.subrange(from as int, i as int),
        decreases to - i,
    {
        push_char(&mut s, cs[i]);
        i += 1;
        assert(s@ =~= cs@.subrange(from as int, i as int));
    }
    s
}

/// The first index at or after `from` where `cs` holds `c`.
pub fn find_from(cs: &Vec<char>, from: usize, c: char) -> (res: Option<usize>)
    requires
        from <= cs@.len(),
    ensures
        match res {
            Some(k) => from <= k < cs@.len() && find_char(cs@.skip(from as int), c) == Some(
                (k - from) as nat,
            ),
            None => find_char(cs@.skip(from as int), c) is None,
        },
{
    let ghost s = cs@.skip(from as int);
    let mut k = from;
    while k < cs.len()
        invariant
            from <= k <= cs@.len(),
            s == cs@.skip(from as int),
            forall|j: int| from <= j < k ==> cs@[j] != c,
        decreases cs@.len() - k,
    {
        if cs[k] == c {
            proof {
                lemma_find_char(s, c);
                assert(s[k - from] == c);
                match find_char(s, c) {
                    Some(i) => {
                        assert(s[i as int] == cs@[from + i]);
                    },
                    None => {},
                }
            }
            return Some(k);
        }
        k += 1;
    }
    proof {
        lemma_find_char(s, c);
        match find_char(s, c) {
            Some(i) => {
                assert(s[i as int] == cs@[from + i]);
            },
            None => {},
        }
    }
    None
}

/// The bounds of `cs[from..to]` with its surrounding whitespace removed.
pub fn trim_bounds(cs: &Vec<char>, from: usize, to: usize) -> (res: (usize, usize))
    requires
        from <= to <= cs@.len(),
    ensures
        from <= res.0 <= res.1 <= to,
        cs@.subrange(res.0 as int, res.1 as int) == trim(cs@.subrange(from as int, to as int)),
{
    let ghost s = cs@.subrange(from as int, to as int);
    let mut e = to;
    while e > from && is_whitespace(cs[e - 1])
        invariant
            from <= e <= to <= cs@.len(),
            forall|j: int| e <= j < to ==> is_ws(#[trigger] cs@[j]),
        decreases e,
    {
        e -= 1;
    }
    proof {
        assert forall|j: int| (e - from) <= j < s.len() implies is_ws(#[trigger] s[j]) by {
            assert(s[j] == cs@[from + j]);
        }
        if e > from {
            assert(s[e - from - 1] == cs@[e - 1]);
        }
        lemma_trim_end_unique(s, e - from);
    }
    let ghost t = trim_end(s);
    let mut b = from;
    while b < e && is_whitespace(cs[b])
        invariant
            from <= b <= e <= to <= cs@.len(),
            forall|j: int| from <= j < b ==> is_ws(#[trigger] cs@[j]),
        decreases e - b,
    {
        b += 1;
    }
    proof {
        assert(t =~= cs@.subrange(from as int, e as int));
        assert forall|j: int| 0 <= j < (b - from) implies is_ws(#[trigger] t[j]) by {
            assert(t[j] == cs@[from + j]);
        }
        if b < e {
            assert(t[b - from] == cs@[b as int]);
        }
        lemma_trim_start_unique(t, b - from);
        assert(t.skip(b - from) =~= cs@.subrange(b as int, e as int));
    }
    (b, e)
}

/// The lines of `text` and whether it ends with a newline.
pub fn split_lines(text: &str) -> (res: (Vec<String>, bool))
    ensures
        res.0.deep_view() == lines_of(text@),
        res.1 == ends_with_newline(text@),
{
    let cs = chars_of(text);
    let trailing = cs.len() > 0 && cs[cs.len() - 1] == '\n';
    let n = if trailing {
        cs.len() - 1
    } else {
        cs.len()
    };
    let ghost body = body_of(text@);
    assert(body =~= cs@.take(n as int));
    let mut done: Vec<String> = Vec::new();
    let mut start: usize = 0;
    let mut i: usize = 0;
    assert(body.take(0) =~= Seq::<char>::empty());
    assert(done.deep_view() =~= Seq::<Seq<char>>::empty());
    assert(cs@.subrange(0, 0) =~= Seq::<char>::empty());
    assert(done.deep_view().push(cs@.subrange(0, 0)) =~= seq![Seq::<char>::empty()]);
    while i < n
        invariant
            n <= cs@.len(),
            body == cs@.take(n as int),
            start <= i <= n,
            done.deep_view().push(cs@.subrange(start as int, i as int)) == split_on(
                body.take(i as int),
                '\n',
            ),
        decreases n - i,
    {
        assert(body.take(i + 1).drop_last() =~= body.take(i as int));
        if cs[i] == '\n' {
            let piece = string_of(&cs, start, i);
            let ghost before = done.deep_view();
            done.push(piece);
            assert(done.deep_view() =~= before.push(piece@));
            start = i + 1;
            assert(cs@.subrange(start as int, (i + 1) as int) =~= Seq::<char>::empty());
        } else {
            assert(cs@.subrange(start as int, (i + 1) as int) =~= cs@.subrange(
                start as int,
                i as int,
            ).push(cs@[i as int]));
        }
        i += 1;
    }
    assert(body.take(n as int) =~= body);
    if n == 0 {
        let empty: Vec<String> = Vec::new();
        assert(empty.deep_view() =~= lines_of(text@));
        (empty, trailing)
    } else {
        let piece = string_of(&cs, start, n);
        let ghost before = done.deep_view();
        done.push(piece);
        assert(done.deep_view() =~= before.push(piece@));
        (done, trailing)
    }
}

/// `s.parse::<usize>()`, as an `Option`.
pub fn parse_number(s: &String) -> (res: Option<usize>)
    ensures
        res == parse_usize(s@),
{
    let cs = chars_of(s.as_str());
    let start: usize = if cs.len() > 0 && cs[0] == '+' {
        1
    } else {
        0
    };
    let ghost d = number_digits(s@);
    assert(d =~= cs@.skip(start as int));
    if start == cs.len() {
        return None;
    }
    let mut acc: usize = 0;
    let mut i = start;
    while i < cs.len()
        invariant
            start <= i <= cs@.len(),
            cs@ == s@,
            d == cs@.skip(start as int),
            d == number_digits(s@),
            forall|j: int| start <= j < i ==> is_digit(#[trigger] cs@[j]),
            acc as nat == digits_value(d.take(i - start)),
        decreases cs@.len() - i,
    {
        let c = cs[i];
        if !('0' <= c && c <= '9') {
            assert(d[i - start] == c);
            assert(!is_digit(d[i - start]));
            assert(!all_digits(d));
            return None;
        }
        let v: u32 = (c as u32) - ('0' as u32);
        assert(d.take(i + 1 - start).drop_last() =~= d.take(i - start));
        assert(d.take(i + 1 - start).last() == c);
        assert(v as nat == digit_value(c));
        let vv = v as usize;
        assert(vv <= 9);
        if acc > (usize::MAX - vv) / 10 {
            proof {
                let a = acc as int;
                let b = vv as int;
                let mx = usize::MAX as int;
                assert(a * 10 + b > mx) by (nonlinear_arith)
                    requires
                        a > (mx - b) / 10,
                        0 <= b <= 9,
                        mx > 9,
                ;
                assert(digits_value(d.take(i + 1 - start)) > usize::MAX);
                lemma_digits_value_monotone(d, i + 1 - start);
                assert(digits_value(d) > usize::MAX);
            }
            return None;
        }
        proof {
            let a = acc as int;
            let b = vv as int;
            let mx = usize::MAX as int;
            assert(a * 10 + b <= mx) by (nonlinear_arith)
                requires
                    a <= (mx - b) / 10,
                    0 <= b <= 9,
                    mx > 9,
            ;
        }
        acc = acc * 10 + vv;
        i += 1;
    }
    proof {
        assert(d.take(i - start) =~= d);
        assert forall|j: int| 0 <= j < d.len() implies is_digit(#[trigger] d[j]) by {
            assert(d[j] == cs@[start + j]);
        }
        assert(all_digits(d));
    }
    Some(acc)
}

/// The decimal representation of `n`.
pub fn decimal_string(n: usize) -> (res: String)
    ensures
        res@ == decimal(n as nat),
    decreases n,
{
    let d = n % 10;
    let c = if d == 0 {
        '0'
    } else if d == 1 {
        '1'
    } else if d == 2 {
        '2'
    } else if d == 3 {
        '3'
    } else if d == 4 {
        '4'
    } else if d == 5 {
        '5'
    } else if d == 6 {
        '6'
    } else if d == 7 {
        '7'
    } else if d == 8 {
        '8'
    } else {
        '9'
    };
    if n < 10 {
        let mut s = String::new();
        push_char(&mut s, c);
        assert(s@ =~= decimal(n as nat));
        s
    } else {
        let mut s = decimal_string(n / 10);
        push_char(&mut s, c);
        s
    }
}

} // verus!
