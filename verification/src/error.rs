//! How errors are shown under the line that they are about.
use crate::ast::{
    names_view, recoveries_view, same_text, ErrorRecovery, ErrorRecoveryView, ParseError,
    ParseErrorView,
};
use crate::text::{push_char, push_text};
use crate::token::{Error, ErrorView, SpannedError};
use vstd::prelude::*;
use vstd::string::StringExecFns;

verus! {

/// The short message for an error of a known shape: the end of the input
/// where a token is still needed, or a token where an operator would fit.
pub open spec fn humanized(error: ParseErrorView) -> Option<Seq<char>> {
    match error {
        ParseErrorView::UnrecognizedToken { token, expected } => if token is None {
            Some("Unexpected end of input"@)
        } else if expected.contains("\"operator\""@) {
            Some("Possible missing operator"@)
        } else {
            None
        },
        _ => None,
    }
}

/// The offsets that an error is about; zero and zero where it names none.
pub open spec fn range_of(error: ParseErrorView) -> (usize, usize) {
    match error {
        ParseErrorView::ExtraToken { token } => (token.0, token.2),
        ParseErrorView::InvalidToken { location } => (location, location),
        ParseErrorView::UnrecognizedToken { token, expected } => match token {
            Some(t) => (t.0, t.2),
            None => (0usize, 0usize),
        },
        ParseErrorView::User { error } => (0usize, 0usize),
    }
}

/// A character repeated.
pub open spec fn repeated(c: char, n: nat) -> Seq<char> {
    Seq::new(n, |i: int| c)
}

/// The line that marks the bytes from `start` up to `end` of the line
/// above it, which stands behind a prompt of three characters: a caret for
/// at most one byte, tildes for more.
pub open spec fn marker(start: usize, end: usize) -> Seq<char> {
    "   "@ + repeated(' ', start as nat) + if end - start <= 1 {
        seq!['^']
    } else {
        repeated('~', (end - start) as nat)
    }
}

/// Where an error is marked in a line of `input_len` bytes: at its offsets,
/// or at the end of the line where it names none.
pub open spec fn placed(range: (usize, usize), input_len: usize) -> (usize, usize) {
    if range.0 == 0 && range.1 == 0 {
        (input_len, input_len)
    } else {
        range
    }
}

/// The lines that show one error: its marker and, where it has one, its
/// short message.
pub open spec fn shown(error: ErrorRecoveryView, input_len: usize) -> Seq<Seq<char>> {
    let at = placed(range_of(error.error), input_len);
    match humanized(error.error) {
        Some(message) => seq![marker(at.0, at.1), "=# "@ + message],
        None => seq![marker(at.0, at.1)],
    }
}

/// The lines that show some errors, one after the other.
pub open spec fn shown_all(errors: Seq<ErrorRecoveryView>, input_len: usize) -> Seq<Seq<char>>
    decreases errors.len(),
{
    if errors.len() == 0 {
        Seq::empty()
    } else {
        shown_all(errors.drop_last(), input_len) + shown(errors.last(), input_len)
    }
}

/// Whether none of some errors has a short message.
pub open spec fn none_humanized(errors: Seq<ErrorRecoveryView>) -> bool {
    forall|i: int| 0 <= i < errors.len() ==> humanized((#[trigger] errors[i]).error) is None
}

/// How some errors are shown.
pub struct Report {
    /// The lines to show, in order.
    pub lines: Vec<String>,
    /// Whether the errors are to be shown in full after these lines: that
    /// is so where none of them has a short message.
    pub dump: bool,
}

/// The short message for an error of a known shape.
pub fn try_humanize(error: &ErrorRecovery) -> (r: Option<String>)
    ensures
        match r {
            Some(message) => humanized(error@.error) == Some(message@),
            None => humanized(error@.error) is None,
        },
{
    match &error.error {
        ParseError::UnrecognizedToken { token, expected } => {
            if token.is_none() {
                return Some(String::from_str("Unexpected end of input"));
            }
            let mut i: usize = 0;
            while i < expected.len()
                invariant
                    i <= expected.len(),
                    error@.error is UnrecognizedToken,
                    error@.error->UnrecognizedToken_token is Some,
                    error@.error->expected == names_view(expected@),
                    forall|j: int|
                        0 <= j < i ==> (#[trigger] names_view(expected@)[j]) != "\"operator\""@,
                decreases expected.len() - i,
            {
                if same_text(expected[i].as_str(), "\"operator\"") {
                    assert(names_view(expected@)[i as int] == "\"operator\""@);
                    assert(names_view(expected@).contains("\"operator\""@));
                    return Some(String::from_str("Possible missing operator"));
                }
                i += 1;
            }
            None
        },
        _ => None,
    }
}

/// The offsets that an error is about.
pub fn error_to_range(err: &ErrorRecovery) -> (r: (usize, usize))
    ensures
        r == range_of(err@.error),
{
    match &err.error {
        ParseError::ExtraToken { token } => (token.0, token.2),
        ParseError::InvalidToken { location } => (*location, *location),
        ParseError::UnrecognizedToken { token, expected } => match token {
            Some(t) => (t.0, t.2),
            None => (0, 0),
        },
        ParseError::User { error } => (0, 0),
    }
}

/// Appends a character `n` times.
fn push_repeated(out: &mut String, c: char, n: usize)
    ensures
        final(out)@ == old(out)@ + repeated(c, n as nat),
{
    let mut i: usize = 0;
    assert(out@ =~= old(out)@ + repeated(c, 0));
    while i < n
        invariant
            i <= n,
            out@ == old(out)@ + repeated(c, i as nat),
        decreases n - i,
    {
        push_char(out, c);
        i += 1;
        assert(out@ =~= old(out)@ + repeated(c, i as nat));
    }
}

/// The line that marks the bytes from `start` up to `end`.
pub fn marker_line(start: usize, end: usize) -> (r: String)
    ensures
        r@ == marker(start, end),
{
    let mut out = String::from_str("   ");
    push_repeated(&mut out, ' ', start);
    if end <= start || end - start <= 1 {
        push_char(&mut out, '^');
        assert(out@ =~= marker(start, end));
    } else {
        push_repeated(&mut out, '~', end - start);
    }
    out
}

/// How some errors of the parse of a line of `input_len` bytes are shown.
pub fn render_errors(errs: &Vec<ErrorRecovery>, input_len: usize) -> (r: Report)
    ensures
        names_view(r.lines@) == shown_all(recoveries_view(errs@), input_len),
        r.dump == none_humanized(recoveries_view(errs@)),
{
    let ghost all = recoveries_view(errs@);
    let mut lines: Vec<String> = Vec::new();
    let mut dump = true;
    let mut i: usize = 0;
    assert(names_view(lines@) =~= shown_all(all.take(0), input_len));
    while i < errs.len()
        invariant
            i <= errs.len(),
            all == recoveries_view(errs@),
            names_view(lines@) == shown_all(all.take(i as int), input_len),
            dump == none_humanized(all.take(i as int)),
        decreases errs.len() - i,
    {
        let ghost before = names_view(lines@);
        let range = error_to_range(&errs[i]);
        let (start, end) = if range.0 == 0 && range.1 == 0 {
            (input_len, input_len)
        } else {
            range
        };
        lines.push(marker_line(start, end));
        match try_humanize(&errs[i]) {
            Some(message) => {
                let mut line = String::from_str("=# ");
                push_text(&mut line, message.as_str());
                lines.push(line);
                dump = false;
            },
            None => {},
        }
        i += 1;
        proof {
            let now = all.take(i as int);
            assert(now.drop_last() =~= all.take(i - 1));
            assert(now.last() == errs@[i - 1]@);
            assert(names_view(lines@) =~= before + shown(now.last(), input_len));
            if none_humanized(all.take(i - 1)) && humanized(now.last().error) is None {
                assert forall|j: int| 0 <= j < now.len() implies humanized(
                    (#[trigger] now[j]).error,
                ) is None by {
                    if j < i - 1 {
                        assert(now[j] == all.take(i - 1)[j]);
                    }
                }
            } else if !none_humanized(all.take(i - 1)) {
                let j = choose|j: int|
                    0 <= j < all.take(i - 1).len() && !(humanized(
                        (#[trigger] all.take(i - 1)[j]).error,
                    ) is None);
                assert(now[j] == all.take(i - 1)[j]);
            }
        }
    }
    assert(all.take(errs.len() as int) =~= all);
    Report { lines, dump }
}

/// How the error that ended a parse is shown: as an error that the parse
/// got over, with no token dropped.
pub fn render_parse_error(error: ParseError, input_len: usize) -> (r: Report)
    ensures
        names_view(r.lines@) == shown(
            ErrorRecoveryView { error: error@, dropped_tokens: Seq::empty() },
            input_len,
        ),
        r.dump == (humanized(error@) is None),
{
    let mut errs: Vec<ErrorRecovery> = Vec::new();
    let entry = ErrorRecovery { error, dropped_tokens: Vec::new() };
    let ghost view = ErrorRecoveryView { error: error@, dropped_tokens: Seq::empty() };
    assert(entry@.dropped_tokens =~= view.dropped_tokens);
    errs.push(entry);
    proof {
        let all = recoveries_view(errs@);
        assert(all =~= seq![view]);
        assert(all.drop_last() =~= Seq::<ErrorRecoveryView>::empty());
        assert(all.last() == view);
        assert(shown_all(all.drop_last(), input_len) =~= Seq::<Seq<char>>::empty());
        assert(shown_all(all, input_len) =~= shown(view, input_len));
        assert(all[0] == view);
    }
    render_errors(&errs, input_len)
}

/// The lines that show an error in the text of a line: for a character
/// with which no lexeme begins, a tilde under it and a message. Any other
/// error has no lines of its own.
pub open spec fn lexical_lines(error: ErrorView) -> Option<Seq<Seq<char>>> {
    match error {
        ErrorView::Grammar { location } => Some(
            seq!["   "@ + repeated(' ', location as nat) + seq!['~'], "=# Invalid token"@],
        ),
        _ => None,
    }
}

/// How an error in the text of a line is shown.
pub fn render_lex_error(err: &SpannedError) -> (r: Option<Vec<String>>)
    ensures
        match r {
            Some(lines) => lexical_lines(err@.0) == Some(names_view(lines@)),
            None => lexical_lines(err@.0) is None,
        },
{
    match &err.0 {
        Error::Grammar { location } => {
            let mut first = String::from_str("   ");
            push_repeated(&mut first, ' ', *location);
            push_char(&mut first, '~');
            assert(first@ =~= "   "@ + repeated(' ', *location as nat) + seq!['~']);
            let second = String::from_str("=# Invalid token");
            let ghost wanted = lexical_lines(err@.0)->Some_0;
            assert(wanted.len() == 2);
            assert(wanted[0] == first@);
            assert(wanted[1] == second@);
            let mut lines: Vec<String> = Vec::new();
            lines.push(first);
            lines.push(second);
            assert(names_view(lines@) =~= wanted);
            Some(lines)
        },
        _ => None,
    }
}

} // verus!
