//! Where the lexemes of a line begin and end, and of which kind each is.
use vstd::prelude::*;

verus! {

/// The kinds of lexeme.
#[derive(Copy, Clone, Debug, PartialEq, Eq, Structural)]
pub enum Rule {
    /// A run of letters and digits that begins with a letter.
    Ident,
    /// A word that begins with a digit and is read in base ten.
    Decimal,
    /// A word read in base sixteen: `0x` before its digits, or `h` after them.
    Hex,
    /// A word read in base two: `0b` before its digits.
    Binary,
    /// Digits, a point, digits.
    Float,
    /// One of `+ - * / ** << >>`.
    Operator,
    /// `let` or `#`.
    Keyword,
    /// A parenthesis, a bracket or a brace.
    Grouping,
    /// A blank, a line feed, a comma or a semicolon.
    Separator,
    /// Any other printable character.
    Symbol,
}

/// The sets of characters that make up runs.
#[derive(Copy, Clone, Debug, PartialEq, Eq, Structural)]
pub enum CharClass {
    /// Letters and digits.
    Alnum,
    /// Letters, digits and the underscore.
    Word,
    /// Digits and the underscore.
    DigitMark,
}

pub open spec fn is_digit(b: u8) -> bool {
    48 <= b <= 57
}

pub open spec fn is_letter(b: u8) -> bool {
    (65 <= b <= 90) || (97 <= b <= 122)
}

pub open spec fn in_class(c: CharClass, b: u8) -> bool {
    match c {
        CharClass::Alnum => is_digit(b) || is_letter(b),
        CharClass::Word => is_digit(b) || is_letter(b) || b == 95,
        CharClass::DigitMark => is_digit(b) || b == 95,
    }
}

/// Where the longest run of characters of a class that begins at `pos` ends.
pub open spec fn run_end(s: Seq<u8>, pos: int, c: CharClass) -> int
    decreases s.len() - pos,
{
    if 0 <= pos < s.len() && in_class(c, s[pos]) {
        run_end(s, pos + 1, c)
    } else {
        pos
    }
}

/// The bytes of `let`.
pub open spec fn let_word() -> Seq<u8> {
    seq![108u8, 101u8, 116u8]
}

/// Whether an operator of two characters begins at `pos`.
pub open spec fn double_operator_at(s: Seq<u8>, pos: int) -> bool {
    &&& pos + 1 < s.len()
    &&& s[pos] == s[pos + 1]
    &&& (s[pos] == 42 || s[pos] == 60 || s[pos] == 62)
}

/// Whether `b` is an operator of one character: `+ - * /`.
pub open spec fn is_single_operator(b: u8) -> bool {
    b == 43 || b == 45 || b == 42 || b == 47
}

/// Whether `b` is one of `( ) [ ] { }`.
pub open spec fn is_grouping(b: u8) -> bool {
    b == 40 || b == 41 || b == 91 || b == 93 || b == 123 || b == 125
}

/// Whether `b` is a blank, a line feed, a comma or a semicolon.
pub open spec fn is_separator(b: u8) -> bool {
    b == 32 || b == 10 || b == 44 || b == 59
}

/// The kind and the end of the number that begins at `pos`, where a digit stands.
pub open spec fn scan_number(s: Seq<u8>, pos: int) -> (Rule, int) {
    let end = run_end(s, pos, CharClass::Word);
    if run_end(s, pos, CharClass::DigitMark) == end && end + 1 < s.len() && s[end] == 46
        && is_digit(s[end + 1]) {
        (Rule::Float, run_end(s, end + 1, CharClass::DigitMark))
    } else if end - pos >= 2 && s[pos] == 48 && s[pos + 1] == 120 {
        (Rule::Hex, end)
    } else if s[end - 1] == 104 {
        (Rule::Hex, end)
    } else if end - pos >= 2 && s[pos] == 48 && s[pos + 1] == 98 {
        (Rule::Binary, end)
    } else {
        (Rule::Decimal, end)
    }
}

/// The kind and the end of the lexeme that begins at `pos`; nothing where
/// no lexeme can begin with the character there.
pub open spec fn scan_at(s: Seq<u8>, pos: int) -> Option<(Rule, int)>
    recommends
        0 <= pos < s.len(),
{
    let b = s[pos];
    if is_letter(b) {
        let end = run_end(s, pos, CharClass::Alnum);
        if s.subrange(pos, end) == let_word() {
            Some((Rule::Keyword, end))
        } else {
            Some((Rule::Ident, end))
        }
    } else if is_digit(b) {
        Some(scan_number(s, pos))
    } else if b == 35 {
        Some((Rule::Keyword, pos + 1))
    } else if double_operator_at(s, pos) {
        Some((Rule::Operator, pos + 2))
    } else if is_single_operator(b) {
        Some((Rule::Operator, pos + 1))
    } else if is_grouping(b) {
        Some((Rule::Grouping, pos + 1))
    } else if is_separator(b) {
        Some((Rule::Separator, pos + 1))
    } else if 33 <= b <= 126 {
        Some((Rule::Symbol, pos + 1))
    } else {
        None
    }
}

/// A run ends at or after its beginning and within the text.
pub proof fn lemma_run_end_bounds(s: Seq<u8>, pos: int, c: CharClass)
    requires
        0 <= pos <= s.len(),
    ensures
        pos <= run_end(s, pos, c) <= s.len(),
        0 <= pos < s.len() && in_class(c, s[pos]) ==> pos < run_end(s, pos, c),
        forall|i: int| pos <= i < run_end(s, pos, c) ==> in_class(c, #[trigger] s[i]),
        run_end(s, pos, c) < s.len() ==> !in_class(c, s[run_end(s, pos, c)]),
    decreases s.len() - pos,
{
    if pos < s.len() && in_class(c, s[pos]) {
        lemma_run_end_bounds(s, pos + 1, c);
    }
}

/// A run that is made of the class up to `end`, and stops there, ends at `end`.
pub proof fn lemma_run_end_is(s: Seq<u8>, pos: int, end: int, c: CharClass)
    requires
        0 <= pos <= end <= s.len(),
        forall|i: int| pos <= i < end ==> in_class(c, #[trigger] s[i]),
        end < s.len() ==> !in_class(c, s[end]),
    ensures
        run_end(s, pos, c) == end,
    decreases end - pos,
{
    if pos < end {
        lemma_run_end_is(s, pos + 1, end, c);
    }
}

/// Every lexeme has at least one character and ends within the text.
pub proof fn lemma_scan_advances(s: Seq<u8>, pos: int)
    requires
        0 <= pos < s.len(),
    ensures
        scan_at(s, pos) is Some ==> pos < scan_at(s, pos)->Some_0.1 <= s.len(),
{
    lemma_run_end_bounds(s, pos, CharClass::Alnum);
    lemma_run_end_bounds(s, pos, CharClass::Word);
    lemma_run_end_bounds(s, pos, CharClass::DigitMark);
    let end = run_end(s, pos, CharClass::Word);
    if end + 1 < s.len() {
        lemma_run_end_bounds(s, end + 1, CharClass::DigitMark);
    }
}

pub fn byte_is_digit(b: u8) -> (r: bool)
    ensures
        r == is_digit(b),
{
    48 <= b && b <= 57
}

pub fn byte_is_letter(b: u8) -> (r: bool)
    ensures
        r == is_letter(b),
{
    (65 <= b && b <= 90) || (97 <= b && b <= 122)
}

pub fn byte_in_class(c: CharClass, b: u8) -> (r: bool)
    ensures
        r == in_class(c, b),
{
    match c {
        CharClass::Alnum => byte_is_digit(b) || byte_is_letter(b),
        CharClass::Word => byte_is_digit(b) || byte_is_letter(b) || b == 95,
        CharClass::DigitMark => byte_is_digit(b) || b == 95,
    }
}

/// Where the longest run of a class that begins at `pos` ends.
pub fn find_run_end(s: &[u8], pos: usize, c: CharClass) -> (end: usize)
    requires
        pos <= s@.len(),
    ensures
        end == run_end(s@, pos as int, c),
        pos <= end <= s@.len(),
{
    let mut i: usize = pos;
    while i < s.len() && byte_in_class(c, s[i])
        invariant
            pos <= i <= s@.len(),
            run_end(s@, pos as int, c) == run_end(s@, i as int, c),
        decreases s@.len() - i,
    {
        i += 1;
    }
    i
}

/// The kind and the end of the lexeme that begins at `pos`.
pub fn scan(s: &[u8], pos: usize) -> (r: Option<(Rule, usize)>)
    requires
        pos < s@.len(),
    ensures
        match r {
            Some((rule, end)) => scan_at(s@, pos as int) == Some((rule, end as int)) && pos < end
                <= s@.len(),
            None => scan_at(s@, pos as int) is None,
        },
{
    proof {
        lemma_scan_advances(s@, pos as int);
    }
    let b: u8 = s[pos];
    if byte_is_letter(b) {
        let end = find_run_end(s, pos, CharClass::Alnum);
        let is_let = end - pos == 3 && s[pos] == 108 && s[pos + 1] == 101 && s[pos + 2] == 116;
        proof {
            let w = s@.subrange(pos as int, end as int);
            if is_let {
                assert(w =~= let_word());
            } else if w == let_word() {
                assert(w.len() == 3);
                assert(w[0] == 108 && w[1] == 101 && w[2] == 116);
            }
        }
        if is_let {
            Some((Rule::Keyword, end))
        } else {
            Some((Rule::Ident, end))
        }
    } else if byte_is_digit(b) {
        let end = find_run_end(s, pos, CharClass::Word);
        let digits_end = find_run_end(s, pos, CharClass::DigitMark);
        proof {
            lemma_run_end_bounds(s@, pos as int, CharClass::Word);
        }
        if digits_end == end && end < s.len() && end + 1 < s.len() && s[end] == 46 && byte_is_digit(
            s[end + 1],
        ) {
            let stop = find_run_end(s, end + 1, CharClass::DigitMark);
            Some((Rule::Float, stop))
        } else if end - pos >= 2 && s[pos] == 48 && s[pos + 1] == 120 {
            Some((Rule::Hex, end))
        } else if s[end - 1] == 104 {
            Some((Rule::Hex, end))
        } else if end - pos >= 2 && s[pos] == 48 && s[pos + 1] == 98 {
            Some((Rule::Binary, end))
        } else {
            Some((Rule::Decimal, end))
        }
    } else if b == 35 {
        Some((Rule::Keyword, pos + 1))
    } else if pos + 1 < s.len() && s[pos + 1] == b && (b == 42 || b == 60 || b == 62) {
        Some((Rule::Operator, pos + 2))
    } else if b == 43 || b == 45 || b == 42 || b == 47 {
        Some((Rule::Operator, pos + 1))
    } else if b == 40 || b == 41 || b == 91 || b == 93 || b == 123 || b == 125 {
        Some((Rule::Grouping, pos + 1))
    } else if b == 32 || b == 10 || b == 44 || b == 59 {
        Some((Rule::Separator, pos + 1))
    } else if 33 <= b && b <= 126 {
        Some((Rule::Symbol, pos + 1))
    } else {
        None
    }
}

} // verus!
