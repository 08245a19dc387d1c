//! What the line editor asks of the language: completion, hints and
//! highlighting.
use crate::text::{push_char, push_text};
use vstd::prelude::*;
use vstd::string::StrSliceExecFns;

verus! {

/// Whether a character is shown in bold: the arithmetic operator characters.
pub open spec fn is_bold_char(ch: char) -> bool {
    ch == '*' || ch == '/' || ch == '+' || ch == '-' || ch == '%' || ch == '!'
}

/// The terminal text that highlights one character of a line.
pub open spec fn formatted_char(ch: char) -> Seq<char> {
    if is_bold_char(ch) {
        seq!['\x1b', '[', '1', 'm', ch, '\x1b', '[', '0', 'm']
    } else if ch == '#' {
        seq!['\x1b', '[', '3', '1', 'm', ch, '\x1b', '[', '0', 'm']
    } else {
        seq![ch]
    }
}

/// The highlighted form of a whole line: each character formatted in turn.
pub open spec fn formatted_line(line: Seq<char>) -> Seq<char>
    decreases line.len(),
{
    if line.len() == 0 {
        Seq::empty()
    } else {
        formatted_line(line.drop_last()) + formatted_char(line.last())
    }
}

/// Formats one character: operators in bold, `#` in red, the rest unchanged.
pub fn op_formatter(ch: char) -> (out: String)
    ensures
        out@ == formatted_char(ch),
{
    let mut out = String::new();
    if ch == '*' || ch == '/' || ch == '+' || ch == '-' || ch == '%' || ch == '!' {
        push_char(&mut out, '\x1b');
        push_char(&mut out, '[');
        push_char(&mut out, '1');
        push_char(&mut out, 'm');
        push_char(&mut out, ch);
        push_char(&mut out, '\x1b');
        push_char(&mut out, '[');
        push_char(&mut out, '0');
        push_char(&mut out, 'm');
    } else if ch == '#' {
        push_char(&mut out, '\x1b');
        push_char(&mut out, '[');
        push_char(&mut out, '3');
        push_char(&mut out, '1');
        push_char(&mut out, 'm');
        push_char(&mut out, ch);
        push_char(&mut out, '\x1b');
        push_char(&mut out, '[');
        push_char(&mut out, '0');
        push_char(&mut out, 'm');
    } else {
        push_char(&mut out, ch);
    }
    assert(out@ =~= formatted_char(ch));
    out
}

/// The line-editor helper of the prompt.
pub struct MathHelper;

impl MathHelper {
    /// Completion offers nothing: no candidates, to stand from the start of
    /// the line.
    pub fn complete(&self, line: &str, pos: usize) -> (r: (usize, Vec<String>))
        ensures
            r.0 == 0,
            r.1@.len() == 0,
    {
        (0, Vec::new())
    }

    /// The line with its operators and `#` set off for the terminal.
    pub fn highlight(&self, line: &str, pos: usize) -> (r: String)
        ensures
            r@ == formatted_line(line@),
    {
        let n = line.unicode_len();
        let mut out = String::new();
        let mut i: usize = 0;
        assert(line@.take(0) =~= Seq::<char>::empty());
        while i < n
            invariant
                i <= n,
                n == line@.len(),
                out@ == formatted_line(line@.take(i as int)),
            decreases n - i,
        {
            let piece = op_formatter(line.get_char(i));
            push_text(&mut out, piece.as_str());
            i += 1;
            assert(line@.take(i as int).drop_last() =~= line@.take(i - 1));
        }
        assert(line@.take(n as int) =~= line@);
        out
    }

    /// No hint is ever shown.
    pub fn hint(&self, line: &str, pos: usize) -> (r: Option<String>)
        ensures
            r is None,
    {
        None
    }
}

} // verus!
