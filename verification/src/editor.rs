//! Handing a file to the user's editor: which editor, and the shell command
//! that opens the file in it.
//!
//! The command runs through `sh -c`, so that editor settings with flags
//! (`code --wait`) work; the path is single-quoted so that no character of
//! it means anything to the shell.

use vstd::prelude::*;
use crate::text::{chars_of, push_char};

verus! {

broadcast use vstd::string::group_string_axioms;

/// The text of `s` with each `'` written as `'\''` (close the quote, an
/// escaped quote, reopen).
pub open spec fn quote_body(s: Seq<char>) -> Seq<char>
    decreases s.len(),
{
    if s.len() == 0 {
        Seq::empty()
    } else {
        quote_body(s.drop_last()) + if s.last() == '\'' {
            seq!['\'', '\\', '\'', '\'']
        } else {
            seq![s.last()]
        }
    }
}

/// `s` single-quoted for a POSIX shell.
pub open spec fn spec_quoted(s: Seq<char>) -> Seq<char> {
    seq!['\''] + quote_body(s) + seq!['\'']
}

/// Single-quote a string for safe use in a POSIX shell.
pub fn shell_single_quote(s: &str) -> (res: String)
    ensures
        res@ == spec_quoted(s@),
{
    let cs = chars_of(s);
    let mut out = String::new();
    push_char(&mut out, '\'');
    let mut i: usize = 0;
    proof {
        assert(cs@.take(0) =~= Seq::<char>::empty());
        assert(out@ =~= seq!['\''] + quote_body(cs@.take(0)));
    }
    while i < cs.len()
        invariant
            i <= cs@.len(),
            cs@ == s@,
            out@ == seq!['\''] + quote_body(cs@.take(i as int)),
        decreases cs@.len() - i,
    {
        let ghost before = out@;
        assert(cs@.take(i + 1).drop_last() =~= cs@.take(i as int));
        assert(cs@.take(i + 1).last() == cs@[i as int]);
        if cs[i] == '\'' {
            push_char(&mut out, '\'');
            push_char(&mut out, '\\');
            push_char(&mut out, '\'');
            push_char(&mut out, '\'');
            assert(out@ =~= before + seq!['\'', '\\', '\'', '\'']);
        } else {
            push_char(&mut out, cs[i]);
            assert(out@ =~= before + seq![cs@[i as int]]);
        }
        i += 1;
    }
    assert(cs@.take(i as int) =~= s@);
    push_char(&mut out, '\'');
    assert(out@ =~= spec_quoted(s@));
    out
}

/// The editor to use: `$VISUAL` if set and not empty, else `$EDITOR` if set
/// and not empty, else `vi`.
pub open spec fn spec_editor(visual: Option<Seq<char>>, editor: Option<Seq<char>>) -> Seq<char> {
    match visual {
        Some(v) if v.len() > 0 => v,
        _ => match editor {
            Some(e) if e.len() > 0 => e,
            _ => "vi"@,
        },
    }
}

/// Choose the editor from the values of `$VISUAL` and `$EDITOR`.
pub fn choose_editor(visual: Option<String>, editor: Option<String>) -> (res: String)
    ensures
        res@ == spec_editor(
            match visual {
                Some(v) => Some(v@),
                None => None,
            },
            match editor {
                Some(e) => Some(e@),
                None => None,
            },
        ),
{
    match visual {
        Some(v) if v.as_str().unicode_len() > 0 => v,
        _ => match editor {
            Some(e) if e.as_str().unicode_len() > 0 => e,
            _ => String::from_str("vi"),
        },
    }
}

/// The shell command that opens `path` in `editor`.
pub open spec fn spec_editor_command(editor: Seq<char>, path: Seq<char>) -> Seq<char> {
    editor + " "@ + spec_quoted(path)
}

/// The command line for `sh -c` that opens `path` in `editor`.
pub fn editor_command(editor: &str, path: &str) -> (res: String)
    ensures
        res@ == spec_editor_command(editor@, path@),
{
    let mut cmd = String::from_str(editor);
    cmd.append(" ");
    let q = shell_single_quote(path);
    cmd.append(q.as_str());
    cmd
}

} // verus!
