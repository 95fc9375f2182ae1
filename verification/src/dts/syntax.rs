//! The grammar of device-tree source, as functions on a sequence of
//! characters and a position in it.
//!
//! A rule either matches at a position, giving a value and the position
//! after what it consumed, or it does not. Alternatives are tried in order
//! and the first match stands; repetitions take as many items as match.
//! Only a block that is not closed is beyond recovery.
//!
//! Filler belongs to the items that it surrounds. A repetition that takes
//! no item takes no filler either, so the braces of a block and the angle
//! brackets of an array have to touch where nothing stands between them.
//! A document is the exception: filler alone is a document without items.
use super::text::{is_ident_char, is_ident_initial, is_symbol_char, is_symbol_initial};
use super::view::{root_name, NameView, NodeView, PropView, ValueView};
use vstd::prelude::*;

verus! {

/// A class of characters that a run is made of.
#[derive(Clone, Copy, Debug, PartialEq, Eq)]
pub enum CharClass {
    /// Blank, tab, carriage return, line feed.
    Space,
    /// `0` to `9`.
    Digit,
    /// A digit, or a letter `a` to `f` in either case.
    HexDigit,
    /// What may continue an identifier.
    Ident,
    /// What may continue a property or node name.
    Symbol,
    /// Anything but a double quote and a backslash.
    Plain,
}

/// `c` is a decimal digit.
pub open spec fn is_digit(c: char) -> bool {
    '0' <= c && c <= '9'
}

/// `c` is a hexadecimal digit.
pub open spec fn is_hex_digit(c: char) -> bool {
    is_digit(c) || ('a' <= c && c <= 'f') || ('A' <= c && c <= 'F')
}

/// `c` is blank space.
pub open spec fn is_space(c: char) -> bool {
    c == ' ' || c == '\t' || c == '\r' || c == '\n'
}

/// `c` belongs to `class`.
pub open spec fn in_class(class: CharClass, c: char) -> bool {
    match class {
        CharClass::Space => is_space(c),
        CharClass::Digit => is_digit(c),
        CharClass::HexDigit => is_hex_digit(c),
        CharClass::Ident => is_ident_char(c),
        CharClass::Symbol => is_symbol_char(c),
        CharClass::Plain => c != '"' && c != '\\',
    }
}

/// Where the longest run of characters of `class` that starts at `pos`
/// ends.
pub open spec fn run_end(s: Seq<char>, pos: int, class: CharClass) -> int
    decreases s.len() - pos,
{
    if 0 <= pos < s.len() && in_class(class, s[pos]) {
        run_end(s, pos + 1, class)
    } else {
        pos
    }
}

/// A run that starts within the input ends within it, not before its
/// start.
pub proof fn lemma_run_end_bounds(s: Seq<char>, pos: int, class: CharClass)
    requires
        0 <= pos <= s.len(),
    ensures
        pos <= run_end(s, pos, class) <= s.len(),
    decreases s.len() - pos,
{
    if pos < s.len() && in_class(class, s[pos]) {
        lemma_run_end_bounds(s, pos + 1, class);
    }
}

/// The character `c` stands at `pos`.
pub open spec fn has_char(s: Seq<char>, pos: int, c: char) -> bool {
    0 <= pos < s.len() && s[pos] == c
}

/// The characters `a`, `b` stand at `pos`.
pub open spec fn has_pair(s: Seq<char>, pos: int, a: char, b: char) -> bool {
    has_char(s, pos, a) && has_char(s, pos + 1, b)
}

/// The word `word` stands at `pos`.
pub open spec fn has_word(s: Seq<char>, pos: int, word: Seq<char>) -> bool {
    0 <= pos && pos + word.len() <= s.len() && s.subrange(pos, pos + word.len()) == word
}

/// The rest of a line: where it ends, at the line feed or at the end of
/// the input. A carriage return ends the line only where a line feed
/// follows it; one that stands alone is not accepted.
pub open spec fn line_rest(s: Seq<char>, pos: int) -> Option<int>
    decreases s.len() - pos,
{
    if pos < 0 || pos >= s.len() {
        Some(s.len() as int)
    } else if s[pos] == '\n' {
        Some(pos)
    } else if s[pos] == '\r' {
        if has_char(s, pos + 1, '\n') {
            Some(pos)
        } else {
            None
        }
    } else {
        line_rest(s, pos + 1)
    }
}

/// The first position from `pos` on at which the characters `a`, `b`
/// stand.
pub open spec fn find_pair(s: Seq<char>, pos: int, a: char, b: char) -> Option<int>
    decreases s.len() - pos,
{
    if pos < 0 || pos + 1 >= s.len() {
        None
    } else if s[pos] == a && s[pos + 1] == b {
        Some(pos)
    } else {
        find_pair(s, pos + 1, a, b)
    }
}

/// The rest of a line ends within the input, not before its start.
pub proof fn lemma_line_rest_bounds(s: Seq<char>, pos: int)
    requires
        0 <= pos <= s.len(),
    ensures
        line_rest(s, pos) matches Some(end) ==> pos <= end <= s.len(),
    decreases s.len() - pos,
{
    if pos < s.len() && s[pos] != '\n' && s[pos] != '\r' {
        lemma_line_rest_bounds(s, pos + 1);
    }
}

/// A pair is found within the input, not before the start of the search.
pub proof fn lemma_find_pair_bounds(s: Seq<char>, pos: int, a: char, b: char)
    requires
        0 <= pos <= s.len(),
    ensures
        find_pair(s, pos, a, b) matches Some(at) ==> pos <= at && at + 2 <= s.len(),
    decreases s.len() - pos,
{
    if pos + 1 < s.len() && !(s[pos] == a && s[pos + 1] == b) {
        lemma_find_pair_bounds(s, pos + 1, a, b);
    }
}

/// A preprocessor line: `#include` or `# `, up to the end of the line.
pub open spec fn preproc(s: Seq<char>, pos: int) -> Option<int> {
    if has_word(s, pos, "#include"@) {
        line_rest(s, pos + "#include"@.len())
    } else if has_pair(s, pos, '#', ' ') {
        line_rest(s, pos + 2)
    } else {
        None
    }
}

/// A comment: from `/*` to the next `*/`, or from `//` up to the end of
/// the line.
pub open spec fn comment(s: Seq<char>, pos: int) -> Option<int> {
    if has_pair(s, pos, '/', '*') {
        match find_pair(s, pos + 2, '*', '/') {
            Some(close) => Some(close + 2),
            None => None,
        }
    } else if has_pair(s, pos, '/', '/') {
        line_rest(s, pos + 2)
    } else {
        None
    }
}

/// One piece of filler: a preprocessor line, a comment, or a run of blank
/// space.
pub open spec fn filler(s: Seq<char>, pos: int) -> Option<int> {
    if preproc(s, pos) is Some {
        preproc(s, pos)
    } else if comment(s, pos) is Some {
        comment(s, pos)
    } else if run_end(s, pos, CharClass::Space) > pos {
        Some(run_end(s, pos, CharClass::Space))
    } else {
        None
    }
}

/// A piece of filler takes one character at least and ends within the
/// input.
pub proof fn lemma_filler_bounds(s: Seq<char>, pos: int)
    requires
        0 <= pos <= s.len(),
    ensures
        filler(s, pos) matches Some(end) ==> pos < end <= s.len(),
{
    reveal_strlit("#include");
    if has_word(s, pos, "#include"@) {
        lemma_line_rest_bounds(s, pos + 8);
    }
    if has_pair(s, pos, '#', ' ') {
        lemma_line_rest_bounds(s, pos + 2);
    }
    if has_pair(s, pos, '/', '*') {
        lemma_find_pair_bounds(s, pos + 2, '*', '/');
    }
    if has_pair(s, pos, '/', '/') {
        lemma_line_rest_bounds(s, pos + 2);
    }
    lemma_run_end_bounds(s, pos, CharClass::Space);
}

/// Where the filler that starts at `pos` ends: after as many pieces as
/// follow one another.
pub open spec fn spacing(s: Seq<char>, pos: int) -> int
    decreases s.len() - pos,
    when 0 <= pos <= s.len()
{
    match filler(s, pos) {
        Some(next) => {
            proof {
                lemma_filler_bounds(s, pos);
            }
            spacing(s, next)
        },
        None => pos,
    }
}

/// Filler ends within the input, not before its start.
pub proof fn lemma_spacing_bounds(s: Seq<char>, pos: int)
    requires
        0 <= pos <= s.len(),
    ensures
        pos <= spacing(s, pos) <= s.len(),
    decreases s.len() - pos,
{
    lemma_filler_bounds(s, pos);
    match filler(s, pos) {
        Some(next) => lemma_spacing_bounds(s, next),
        None => {},
    }
}

/// A property or node name: an initial character and what continues it.
pub open spec fn symbol(s: Seq<char>, pos: int) -> Option<(Seq<char>, int)> {
    if 0 <= pos < s.len() && is_symbol_initial(s[pos]) {
        Some(
            (
                s.subrange(pos, run_end(s, pos + 1, CharClass::Symbol)),
                run_end(s, pos + 1, CharClass::Symbol),
            ),
        )
    } else {
        None
    }
}

/// An identifier: an initial character and what continues it.
pub open spec fn identifier(s: Seq<char>, pos: int) -> Option<(Seq<char>, int)> {
    if 0 <= pos < s.len() && is_ident_initial(s[pos]) {
        Some(
            (
                s.subrange(pos, run_end(s, pos + 1, CharClass::Ident)),
                run_end(s, pos + 1, CharClass::Ident),
            ),
        )
    } else {
        None
    }
}

/// A label: an identifier with a colon right behind it.
pub open spec fn label(s: Seq<char>, pos: int) -> Option<(Seq<char>, int)> {
    match identifier(s, pos) {
        Some((name, end)) => if has_char(s, end, ':') {
            Some((name, end + 1))
        } else {
            None
        },
        None => None,
    }
}

/// A reference: `&` with an identifier right behind it.
pub open spec fn reference(s: Seq<char>, pos: int) -> Option<(Seq<char>, int)> {
    if has_char(s, pos, '&') {
        identifier(s, pos + 1)
    } else {
        None
    }
}

/// A name, an identifier, a label or a reference takes one character at
/// least and ends within the input.
pub proof fn lemma_word_bounds(s: Seq<char>, pos: int)
    requires
        0 <= pos <= s.len(),
    ensures
        symbol(s, pos) matches Some((_, end)) ==> pos < end <= s.len(),
        identifier(s, pos) matches Some((_, end)) ==> pos < end <= s.len(),
        label(s, pos) matches Some((_, end)) ==> pos < end <= s.len(),
        reference(s, pos) matches Some((_, end)) ==> pos < end <= s.len(),
{
    if pos < s.len() {
        lemma_run_end_bounds(s, pos + 1, CharClass::Symbol);
        lemma_run_end_bounds(s, pos + 1, CharClass::Ident);
        if pos + 1 < s.len() {
            lemma_run_end_bounds(s, pos + 2, CharClass::Ident);
        }
    }
}

/// The number that a hexadecimal digit stands for.
pub open spec fn digit_value(c: char) -> int {
    if is_digit(c) {
        c as int - '0' as int
    } else if 'a' <= c && c <= 'f' {
        c as int - 'a' as int + 10
    } else {
        c as int - 'A' as int + 10
    }
}

/// The number that `digits` write in base `base`.
pub open spec fn number(digits: Seq<char>, base: int) -> int
    decreases digits.len(),
{
    if digits.len() == 0 {
        0
    } else {
        number(digits.drop_last(), base) * base + digit_value(digits.last())
    }
}

/// A hexadecimal number without prefix: one digit or more; the number must
/// fit in 64 bits.
pub open spec fn hex(s: Seq<char>, pos: int) -> Option<(u64, int)> {
    let end = run_end(s, pos, CharClass::HexDigit);
    if 0 <= pos < end && number(s.subrange(pos, end), 16) <= u64::MAX {
        Some((number(s.subrange(pos, end), 16) as u64, end))
    } else {
        None
    }
}

/// A decimal number: one digit or more; the number must fit in 64 bits.
pub open spec fn dec(s: Seq<char>, pos: int) -> Option<(u64, int)> {
    let end = run_end(s, pos, CharClass::Digit);
    if 0 <= pos < end && number(s.subrange(pos, end), 10) <= u64::MAX {
        Some((number(s.subrange(pos, end), 10) as u64, end))
    } else {
        None
    }
}

/// A number: hexadecimal behind `0x`, else decimal.
pub open spec fn literal(s: Seq<char>, pos: int) -> Option<(u64, int)> {
    if has_pair(s, pos, '0', 'x') && hex(s, pos + 2) is Some {
        hex(s, pos + 2)
    } else {
        dec(s, pos)
    }
}

/// A number takes one digit at least and ends within the input.
pub proof fn lemma_number_bounds(s: Seq<char>, pos: int)
    requires
        0 <= pos <= s.len(),
    ensures
        hex(s, pos) matches Some((_, end)) ==> pos < end <= s.len(),
        dec(s, pos) matches Some((_, end)) ==> pos < end <= s.len(),
        literal(s, pos) matches Some((_, end)) ==> pos < end <= s.len(),
{
    lemma_run_end_bounds(s, pos, CharClass::HexDigit);
    lemma_run_end_bounds(s, pos, CharClass::Digit);
    if pos + 2 <= s.len() {
        lemma_run_end_bounds(s, pos + 2, CharClass::HexDigit);
    }
}

/// `i` is the code of a character: a Unicode scalar value.
pub open spec fn is_scalar(i: int) -> bool {
    0 <= i <= 0xD7FF || 0xE000 <= i <= 0x10FFFF
}

/// Where the hexadecimal digits of a code point end: after six at most.
pub open spec fn code_end(s: Seq<char>, pos: int) -> int {
    if run_end(s, pos, CharClass::HexDigit) <= pos + 6 {
        run_end(s, pos, CharClass::HexDigit)
    } else {
        pos + 6
    }
}

/// A code point behind a backslash: `u{`, one to six hexadecimal digits
/// that write the code of a character, `}`.
pub open spec fn code_point(s: Seq<char>, pos: int) -> Option<(char, int)> {
    let end = code_end(s, pos + 2);
    if has_pair(s, pos, 'u', '{') && pos + 2 < end && has_char(s, end, '}') && is_scalar(
        number(s.subrange(pos + 2, end), 16),
    ) {
        Some((number(s.subrange(pos + 2, end), 16) as char, end + 1))
    } else {
        None
    }
}

/// The character that a letter behind a backslash stands for.
pub open spec fn escaped_letter(c: char) -> Option<char> {
    if c == 'n' {
        Some('\n')
    } else if c == 'r' {
        Some('\r')
    } else if c == 't' {
        Some('\t')
    } else if c == 'b' {
        Some('\u{08}')
    } else if c == 'f' {
        Some('\u{0C}')
    } else if c == '\\' || c == '/' || c == '"' {
        Some(c)
    } else {
        None
    }
}

/// What stands behind a backslash for one character: a code point or an
/// escaped letter.
pub open spec fn escape(s: Seq<char>, pos: int) -> Option<(char, int)> {
    if code_point(s, pos) is Some {
        code_point(s, pos)
    } else if 0 <= pos < s.len() && escaped_letter(s[pos]) is Some {
        Some((escaped_letter(s[pos])->0, pos + 1))
    } else {
        None
    }
}

/// An escape takes one character at least and ends within the input.
pub proof fn lemma_escape_bounds(s: Seq<char>, pos: int)
    requires
        0 <= pos <= s.len(),
    ensures
        escape(s, pos) matches Some((_, end)) ==> pos < end <= s.len(),
{
    if pos + 2 <= s.len() {
        lemma_run_end_bounds(s, pos + 2, CharClass::HexDigit);
    }
}

/// The inside of a quoted text from `pos` on, with the position at which
/// it ends: runs of plain characters stand for themselves, an escape for
/// its character, and a backslash before blank space for nothing.
pub open spec fn text_body(s: Seq<char>, pos: int) -> (Seq<char>, int)
    decreases s.len() - pos,
    when 0 <= pos <= s.len()
{
    let plain = run_end(s, pos, CharClass::Plain);
    if pos < plain {
        proof {
            lemma_run_end_bounds(s, pos, CharClass::Plain);
        }
        (s.subrange(pos, plain) + text_body(s, plain).0, text_body(s, plain).1)
    } else if has_char(s, pos, '\\') {
        match escape(s, pos + 1) {
            Some((c, next)) => {
                proof {
                    lemma_escape_bounds(s, pos + 1);
                }
                (seq![c] + text_body(s, next).0, text_body(s, next).1)
            },
            None => {
                let blank = run_end(s, pos + 1, CharClass::Space);
                if pos + 1 < blank {
                    proof {
                        lemma_run_end_bounds(s, pos + 1, CharClass::Space);
                    }
                    text_body(s, blank)
                } else {
                    (Seq::empty(), pos)
                }
            },
        }
    } else {
        (Seq::empty(), pos)
    }
}

/// The inside of a quoted text ends within the input, not before its
/// start.
pub proof fn lemma_text_body_bounds(s: Seq<char>, pos: int)
    requires
        0 <= pos <= s.len(),
    ensures
        pos <= text_body(s, pos).1 <= s.len(),
    decreases s.len() - pos,
{
    let plain = run_end(s, pos, CharClass::Plain);
    lemma_run_end_bounds(s, pos, CharClass::Plain);
    if pos < plain {
        lemma_text_body_bounds(s, plain);
    } else if has_char(s, pos, '\\') {
        lemma_escape_bounds(s, pos + 1);
        match escape(s, pos + 1) {
            Some((_, next)) => lemma_text_body_bounds(s, next),
            None => {
                let blank = run_end(s, pos + 1, CharClass::Space);
                lemma_run_end_bounds(s, pos + 1, CharClass::Space);
                if pos + 1 < blank {
                    lemma_text_body_bounds(s, blank);
                }
            },
        }
    }
}

/// A quoted text: between double quotes.
pub open spec fn text(s: Seq<char>, pos: int) -> Option<(Seq<char>, int)> {
    if has_char(s, pos, '"') && has_char(s, text_body(s, pos + 1).1, '"') {
        Some((text_body(s, pos + 1).0, text_body(s, pos + 1).1 + 1))
    } else {
        None
    }
}

/// A quoted text takes two characters at least and ends within the input.
pub proof fn lemma_text_bounds(s: Seq<char>, pos: int)
    requires
        0 <= pos <= s.len(),
    ensures
        text(s, pos) matches Some((_, end)) ==> pos + 1 < end <= s.len(),
{
    if pos < s.len() {
        lemma_text_body_bounds(s, pos + 1);
    }
}

/// How many characters the operator at `pos` takes: two for `||`, `&&`,
/// `<<`, one for each of `|&^*/+-%`.
pub open spec fn operator(s: Seq<char>, pos: int) -> Option<int> {
    if has_pair(s, pos, '|', '|') || has_pair(s, pos, '&', '&') || has_pair(s, pos, '<', '<') {
        Some(2)
    } else if 0 <= pos < s.len() && (s[pos] == '|' || s[pos] == '&' || s[pos] == '^' || s[pos]
        == '*' || s[pos] == '/' || s[pos] == '+' || s[pos] == '-' || s[pos] == '%') {
        Some(1)
    } else {
        None
    }
}

/// The operands that a value brings into an expression: a symbol or a
/// reference itself, an expression its own operands, anything else none.
pub open spec fn operands(value: ValueView) -> Seq<Seq<char>> {
    match value {
        ValueView::Symbol(s) => seq![s],
        ValueView::Reference(s) => seq![s],
        ValueView::Expr(inner) => inner,
        _ => Seq::empty(),
    }
}

/// A simple value: an identifier, a number, a reference, or an expression
/// in parentheses, tried in this order.
pub open spec fn simple_value(s: Seq<char>, pos: int) -> Option<(ValueView, int)>
    decreases s.len() - pos, 2nat,
    when 0 <= pos <= s.len()
{
    if let Some((name, end)) = identifier(s, pos) {
        Some((ValueView::Symbol(name), end))
    } else if let Some((address, end)) = literal(s, pos) {
        Some((ValueView::Address(address), end))
    } else if let Some((label, end)) = reference(s, pos) {
        Some((ValueView::Reference(label), end))
    } else if let Some((inner, end)) = bracketed(s, pos) {
        Some((ValueView::Expr(inner), end))
    } else {
        None
    }
}

/// An expression in parentheses, with filler allowed inside them; its
/// value is the operands of the expression.
pub open spec fn bracketed(s: Seq<char>, pos: int) -> Option<(Seq<Seq<char>>, int)>
    decreases s.len() - pos, 1nat,
    when 0 <= pos <= s.len()
{
    if has_char(s, pos, '(') {
        proof {
            lemma_spacing_bounds(s, pos + 1);
        }
        match expr(s, spacing(s, pos + 1)) {
            Some((inner, end)) => if has_char(s, spacing(s, end), ')') {
                Some((inner, spacing(s, end) + 1))
            } else {
                None
            },
            None => None,
        }
    } else {
        None
    }
}

/// An expression: a simple value, then any number of operators with a
/// simple value each, or expressions in parentheses. Its operands are those
/// of its parts, in order.
///
/// The check that the first value moved the position on shows that the
/// rule ends; it never fails (see [`lemma_simple_value_bounds`]).
pub open spec fn expr(s: Seq<char>, pos: int) -> Option<(Seq<Seq<char>>, int)>
    decreases s.len() - pos, 3nat,
    when 0 <= pos <= s.len()
{
    match simple_value(s, pos) {
        Some((first, end)) => if pos < end <= s.len() {
            Some((operands(first) + expr_rest(s, end).0, expr_rest(s, end).1))
        } else {
            None
        },
        None => None,
    }
}

/// What follows the first value of an expression, from `pos` on: each part
/// with filler before and behind it.
///
/// The checks that a part moved the position on show that the rule ends;
/// they never fail (see [`lemma_simple_value_bounds`]).
pub open spec fn expr_rest(s: Seq<char>, pos: int) -> (Seq<Seq<char>>, int)
    decreases s.len() - pos, 4nat,
    when 0 <= pos <= s.len()
{
    let at = spacing(s, pos);
    proof {
        lemma_spacing_bounds(s, pos);
        if operator(s, at) is Some {
            lemma_spacing_bounds(s, at + operator(s, at)->0);
        }
    }
    if operator(s, at) is Some && simple_value(s, spacing(s, at + operator(s, at)->0)) is Some {
        let found = simple_value(s, spacing(s, at + operator(s, at)->0))->0;
        let next = spacing(s, found.1);
        if pos < next <= s.len() {
            (operands(found.0) + expr_rest(s, next).0, expr_rest(s, next).1)
        } else {
            (Seq::empty(), pos)
        }
    } else {
        match bracketed(s, at) {
            Some((inner, end)) => {
                let next = spacing(s, end);
                if pos < next <= s.len() {
                    (inner + expr_rest(s, next).0, expr_rest(s, next).1)
                } else {
                    (Seq::empty(), pos)
                }
            },
            None => (Seq::empty(), pos),
        }
    }
}

/// A simple value and an expression take one character at least and end
/// within the input; what follows the first value of an expression ends
/// within the input, not before its start. So the checks of positions in
/// these rules, which serve to show that the rules end, never fail.
pub proof fn lemma_simple_value_bounds(s: Seq<char>, pos: int)
    requires
        0 <= pos <= s.len(),
    ensures
        simple_value(s, pos) matches Some((_, end)) ==> pos < end <= s.len(),
    decreases s.len() - pos, 2nat,
{
    lemma_word_bounds(s, pos);
    lemma_number_bounds(s, pos);
    if identifier(s, pos) is None && literal(s, pos) is None && reference(s, pos) is None {
        lemma_bracketed_bounds(s, pos);
    }
}

/// See [`lemma_simple_value_bounds`].
pub proof fn lemma_bracketed_bounds(s: Seq<char>, pos: int)
    requires
        0 <= pos <= s.len(),
    ensures
        bracketed(s, pos) matches Some((_, end)) ==> pos < end <= s.len(),
    decreases s.len() - pos, 1nat,
{
    if has_char(s, pos, '(') {
        lemma_spacing_bounds(s, pos + 1);
        lemma_expr_bounds(s, spacing(s, pos + 1));
        match expr(s, spacing(s, pos + 1)) {
            Some((_, end)) => lemma_spacing_bounds(s, end),
            None => {},
        }
    }
}

/// See [`lemma_simple_value_bounds`].
pub proof fn lemma_expr_bounds(s: Seq<char>, pos: int)
    requires
        0 <= pos <= s.len(),
    ensures
        expr(s, pos) matches Some((_, end)) ==> pos < end <= s.len(),
        simple_value(s, pos) is Some ==> expr(s, pos) is Some,
    decreases s.len() - pos, 3nat,
{
    lemma_simple_value_bounds(s, pos);
    match simple_value(s, pos) {
        Some((_, end)) => lemma_expr_rest_bounds(s, end),
        None => {},
    }
}

/// See [`lemma_simple_value_bounds`].
pub proof fn lemma_expr_rest_bounds(s: Seq<char>, pos: int)
    requires
        0 <= pos <= s.len(),
    ensures
        pos <= expr_rest(s, pos).1 <= s.len(),
    decreases s.len() - pos, 4nat,
{
    let at = spacing(s, pos);
    lemma_spacing_bounds(s, pos);
    if operator(s, at) is Some {
        lemma_spacing_bounds(s, at + operator(s, at)->0);
        lemma_simple_value_bounds(s, spacing(s, at + operator(s, at)->0));
    }
    if operator(s, at) is Some && simple_value(s, spacing(s, at + operator(s, at)->0)) is Some {
        let found = simple_value(s, spacing(s, at + operator(s, at)->0))->0;
        lemma_spacing_bounds(s, found.1);
        lemma_expr_rest_bounds(s, spacing(s, found.1));
    } else {
        lemma_bracketed_bounds(s, at);
        match bracketed(s, at) {
            Some((_, end)) => {
                lemma_spacing_bounds(s, end);
                lemma_expr_rest_bounds(s, spacing(s, end));
            },
            None => {},
        }
    }
}

/// The cells of an array from `pos` on: simple values, each with filler
/// before and behind it.
pub open spec fn cells(s: Seq<char>, pos: int) -> (Seq<ValueView>, int)
    decreases s.len() - pos,
    when 0 <= pos <= s.len()
{
    match simple_value(s, spacing(s, pos)) {
        Some((cell, end)) => {
            proof {
                lemma_spacing_bounds(s, pos);
                lemma_simple_value_bounds(s, spacing(s, pos));
                lemma_spacing_bounds(s, end);
            }
            (seq![cell] + cells(s, spacing(s, end)).0, cells(s, spacing(s, end)).1)
        },
        None => (Seq::empty(), pos),
    }
}

/// The cells of an array end within the input, not before their start.
pub proof fn lemma_cells_bounds(s: Seq<char>, pos: int)
    requires
        0 <= pos <= s.len(),
    ensures
        pos <= cells(s, pos).1 <= s.len(),
    decreases s.len() - pos,
{
    lemma_spacing_bounds(s, pos);
    lemma_simple_value_bounds(s, spacing(s, pos));
    match simple_value(s, spacing(s, pos)) {
        Some((_, end)) => {
            lemma_spacing_bounds(s, end);
            lemma_cells_bounds(s, spacing(s, end));
        },
        None => {},
    }
}

/// An array: cells between `<` and `>`.
pub open spec fn array(s: Seq<char>, pos: int) -> Option<(Seq<ValueView>, int)> {
    if has_char(s, pos, '<') && has_char(s, cells(s, pos + 1).1, '>') {
        Some((cells(s, pos + 1).0, cells(s, pos + 1).1 + 1))
    } else {
        None
    }
}

/// A property value: a quoted text, a simple value, or an array, tried in
/// this order.
pub open spec fn prop_value(s: Seq<char>, pos: int) -> Option<(ValueView, int)> {
    if let Some((content, end)) = text(s, pos) {
        Some((ValueView::Text(content), end))
    } else if simple_value(s, pos) is Some {
        simple_value(s, pos)
    } else if let Some((items, end)) = array(s, pos) {
        Some((ValueView::Array(items), end))
    } else {
        None
    }
}

/// A property value takes one character at least and ends within the
/// input.
pub proof fn lemma_prop_value_bounds(s: Seq<char>, pos: int)
    requires
        0 <= pos <= s.len(),
    ensures
        array(s, pos) matches Some((_, end)) ==> pos < end <= s.len(),
        prop_value(s, pos) matches Some((_, end)) ==> pos < end <= s.len(),
{
    lemma_text_bounds(s, pos);
    lemma_simple_value_bounds(s, pos);
    if pos < s.len() {
        lemma_cells_bounds(s, pos + 1);
    }
}

/// The values that follow the first value of a property, from `pos` on:
/// each behind a comma that has filler on both sides. A comma that no
/// value follows is not taken.
pub open spec fn more_values(s: Seq<char>, pos: int) -> (Seq<ValueView>, int)
    decreases s.len() - pos,
    when 0 <= pos <= s.len()
{
    let comma = spacing(s, pos);
    if has_char(s, comma, ',') {
        match prop_value(s, spacing(s, comma + 1)) {
            Some((value, end)) => {
                proof {
                    lemma_spacing_bounds(s, pos);
                    lemma_spacing_bounds(s, comma + 1);
                    lemma_prop_value_bounds(s, spacing(s, comma + 1));
                }
                (seq![value] + more_values(s, end).0, more_values(s, end).1)
            },
            None => (Seq::empty(), pos),
        }
    } else {
        (Seq::empty(), pos)
    }
}

/// The further values of a property end within the input, not before
/// their start.
pub proof fn lemma_more_values_bounds(s: Seq<char>, pos: int)
    requires
        0 <= pos <= s.len(),
    ensures
        pos <= more_values(s, pos).1 <= s.len(),
    decreases s.len() - pos,
{
    let comma = spacing(s, pos);
    lemma_spacing_bounds(s, pos);
    if has_char(s, comma, ',') {
        lemma_spacing_bounds(s, comma + 1);
        lemma_prop_value_bounds(s, spacing(s, comma + 1));
        match prop_value(s, spacing(s, comma + 1)) {
            Some((_, end)) => lemma_more_values_bounds(s, end),
            None => {},
        }
    }
}

/// The values of a property: one or more, separated by commas.
pub open spec fn prop_values(s: Seq<char>, pos: int) -> Option<(Seq<ValueView>, int)> {
    match prop_value(s, pos) {
        Some((first, end)) => Some((seq![first] + more_values(s, end).0, more_values(s, end).1)),
        None => None,
    }
}

/// What follows the name of a property that ends at `pos`: `=` with filler
/// on both sides and the values, or nothing, for a flag.
pub open spec fn assigned(s: Seq<char>, pos: int) -> (Seq<ValueView>, int) {
    let equals = spacing(s, pos);
    if has_char(s, equals, '=') && prop_values(s, spacing(s, equals + 1)) is Some {
        prop_values(s, spacing(s, equals + 1))->0
    } else {
        (Seq::empty(), pos)
    }
}

/// A property: a name, its values if it has any, and `;` with filler on
/// both sides.
pub open spec fn prop(s: Seq<char>, pos: int) -> Option<(PropView, int)> {
    match symbol(s, pos) {
        Some((name, end)) => {
            let (value, after) = assigned(s, end);
            if has_char(s, spacing(s, after), ';') {
                Some((PropView { name, value }, spacing(s, spacing(s, after) + 1)))
            } else {
                None
            }
        },
        None => None,
    }
}

/// A property takes one character at least and ends within the input.
pub proof fn lemma_prop_bounds(s: Seq<char>, pos: int)
    requires
        0 <= pos <= s.len(),
    ensures
        prop(s, pos) matches Some((_, end)) ==> pos < end <= s.len(),
{
    lemma_word_bounds(s, pos);
    match symbol(s, pos) {
        Some((_, end)) => {
            let equals = spacing(s, end);
            lemma_spacing_bounds(s, end);
            if has_char(s, equals, '=') {
                lemma_spacing_bounds(s, equals + 1);
                lemma_prop_value_bounds(s, spacing(s, equals + 1));
                match prop_value(s, spacing(s, equals + 1)) {
                    Some((_, stop)) => lemma_more_values_bounds(s, stop),
                    None => {},
                }
            }
            let after = assigned(s, end).1;
            lemma_spacing_bounds(s, after);
            if has_char(s, spacing(s, after), ';') {
                lemma_spacing_bounds(s, spacing(s, after) + 1);
            }
        },
        None => {},
    }
}

/// The properties from `pos` on, each with filler before and behind it.
pub open spec fn props(s: Seq<char>, pos: int) -> (Seq<PropView>, int)
    decreases s.len() - pos,
    when 0 <= pos <= s.len()
{
    match prop(s, spacing(s, pos)) {
        Some((first, end)) => {
            proof {
                lemma_spacing_bounds(s, pos);
                lemma_prop_bounds(s, spacing(s, pos));
                lemma_spacing_bounds(s, end);
            }
            (seq![first] + props(s, spacing(s, end)).0, props(s, spacing(s, end)).1)
        },
        None => (Seq::empty(), pos),
    }
}

/// The properties end within the input, not before their start.
pub proof fn lemma_props_bounds(s: Seq<char>, pos: int)
    requires
        0 <= pos <= s.len(),
    ensures
        pos <= props(s, pos).1 <= s.len(),
    decreases s.len() - pos,
{
    lemma_spacing_bounds(s, pos);
    lemma_prop_bounds(s, spacing(s, pos));
    match prop(s, spacing(s, pos)) {
        Some((_, end)) => {
            lemma_spacing_bounds(s, end);
            lemma_props_bounds(s, spacing(s, end));
        },
        None => {},
    }
}

/// The unit address behind a node's name: `@` and a hexadecimal number.
pub open spec fn unit_address(s: Seq<char>, pos: int) -> Option<(u64, int)> {
    if has_char(s, pos, '@') {
        hex(s, pos + 1)
    } else {
        None
    }
}

/// The name of a node: `/` for the root, a name with an optional unit
/// address, or a reference, tried in this order.
pub open spec fn node_name(s: Seq<char>, pos: int) -> Option<(NameView, int)> {
    if has_char(s, pos, '/') {
        Some((root_name(), pos + 1))
    } else if symbol(s, pos) is Some {
        let (name, end) = symbol(s, pos)->0;
        match unit_address(s, end) {
            Some((address, after)) => Some((NameView::Plain(name, Some(address)), after)),
            None => Some((NameView::Plain(name, None), end)),
        }
    } else {
        match reference(s, pos) {
            Some((label, end)) => Some((NameView::Reference(label), end)),
            None => None,
        }
    }
}

/// The name of a node takes one character at least and ends within the
/// input.
pub proof fn lemma_node_name_bounds(s: Seq<char>, pos: int)
    requires
        0 <= pos <= s.len(),
    ensures
        node_name(s, pos) matches Some((_, end)) ==> pos < end <= s.len(),
{
    lemma_word_bounds(s, pos);
    match symbol(s, pos) {
        Some((_, end)) => {
            if end < s.len() {
                lemma_number_bounds(s, end + 1);
            }
        },
        None => {},
    }
}

/// How applying a rule that may hold a block ends.
pub ghost enum Parse<T> {
    /// The rule matched: its value and the position behind it.
    Match(T, int),
    /// The rule did not match; another may be tried.
    Miss,
    /// A block was opened and its `}` is missing at the position given:
    /// nothing can be tried in its place.
    Abort(int),
}

/// A node: an optional label, the name with filler on both sides, and the
/// block with filler behind it.
pub open spec fn node(s: Seq<char>, pos: int) -> Parse<NodeView>
    decreases s.len() - pos, 2nat,
    when 0 <= pos <= s.len()
{
    let labels = match label(s, pos) {
        Some((name, _)) => seq![name],
        None => Seq::empty(),
    };
    let from = match label(s, pos) {
        Some((_, end)) => end,
        None => pos,
    };
    match node_name(s, spacing(s, from)) {
        Some((name, end)) => {
            proof {
                lemma_word_bounds(s, pos);
                lemma_spacing_bounds(s, from);
                lemma_node_name_bounds(s, spacing(s, from));
                lemma_spacing_bounds(s, end);
            }
            match block(s, spacing(s, end)) {
                Parse::Match((props, nodes), after) => Parse::Match(
                    NodeView { labels, name, props, nodes },
                    spacing(s, after),
                ),
                Parse::Miss => Parse::Miss,
                Parse::Abort(at) => Parse::Abort(at),
            }
        },
        None => Parse::Miss,
    }
}

/// A block: `{`, properties, child nodes, `}`, and `;` with filler on both
/// sides. Once the block is open and its properties and children are read,
/// a missing `}` is beyond recovery.
pub open spec fn block(s: Seq<char>, pos: int) -> Parse<(Seq<PropView>, Seq<NodeView>)>
    decreases s.len() - pos, 1nat,
    when 0 <= pos <= s.len()
{
    if has_char(s, pos, '{') {
        proof {
            lemma_props_bounds(s, pos + 1);
        }
        match nodes(s, props(s, pos + 1).1) {
            Parse::Match(children, close) => if has_char(s, close, '}') {
                if has_char(s, spacing(s, close + 1), ';') {
                    Parse::Match(
                        (props(s, pos + 1).0, children),
                        spacing(s, spacing(s, close + 1) + 1),
                    )
                } else {
                    Parse::Miss
                }
            } else {
                Parse::Abort(close)
            },
            Parse::Miss => Parse::Miss,
            Parse::Abort(at) => Parse::Abort(at),
        }
    } else {
        Parse::Miss
    }
}

/// The nodes from `pos` on, each with filler before it.
///
/// The check that a node moved the position on shows that the rule ends;
/// it never fails (see [`lemma_node_bounds`]).
pub open spec fn nodes(s: Seq<char>, pos: int) -> Parse<Seq<NodeView>>
    decreases s.len() - pos, 3nat,
    when 0 <= pos <= s.len()
{
    proof {
        lemma_spacing_bounds(s, pos);
    }
    match node(s, spacing(s, pos)) {
        Parse::Match(first, next) => if pos < next <= s.len() {
            match nodes(s, next) {
                Parse::Match(rest, end) => Parse::Match(seq![first] + rest, end),
                Parse::Miss => Parse::Miss,
                Parse::Abort(at) => Parse::Abort(at),
            }
        } else {
            Parse::Match(Seq::empty(), pos)
        },
        Parse::Miss => Parse::Match(Seq::empty(), pos),
        Parse::Abort(at) => Parse::Abort(at),
    }
}

/// A node takes one character at least and ends within the input, and a
/// block that is not closed is found within the input. So the check of
/// positions in [`nodes`], which serves to show that the rule ends, never
/// fails.
pub proof fn lemma_node_bounds(s: Seq<char>, pos: int)
    requires
        0 <= pos <= s.len(),
    ensures
        match node(s, pos) {
            Parse::Match(_, end) => pos < end <= s.len(),
            Parse::Miss => true,
            Parse::Abort(stop) => pos <= stop <= s.len(),
        },
    decreases s.len() - pos, 2nat,
{
    lemma_word_bounds(s, pos);
    let from = match label(s, pos) {
        Some((_, end)) => end,
        None => pos,
    };
    lemma_spacing_bounds(s, from);
    lemma_node_name_bounds(s, spacing(s, from));
    match node_name(s, spacing(s, from)) {
        Some((_, end)) => {
            lemma_spacing_bounds(s, end);
            lemma_block_bounds(s, spacing(s, end));
            match block(s, spacing(s, end)) {
                Parse::Match(_, after) => lemma_spacing_bounds(s, after),
                _ => {},
            }
        },
        None => {},
    }
}

/// See [`lemma_node_bounds`].
pub proof fn lemma_block_bounds(s: Seq<char>, pos: int)
    requires
        0 <= pos <= s.len(),
    ensures
        match block(s, pos) {
            Parse::Match(_, end) => pos < end <= s.len(),
            Parse::Miss => true,
            Parse::Abort(stop) => pos <= stop <= s.len(),
        },
    decreases s.len() - pos, 1nat,
{
    if has_char(s, pos, '{') {
        lemma_props_bounds(s, pos + 1);
        lemma_nodes_bounds(s, props(s, pos + 1).1);
        match nodes(s, props(s, pos + 1).1) {
            Parse::Match(_, close) => {
                if has_char(s, close, '}') {
                    lemma_spacing_bounds(s, close + 1);
                    if has_char(s, spacing(s, close + 1), ';') {
                        lemma_spacing_bounds(s, spacing(s, close + 1) + 1);
                    }
                }
            },
            _ => {},
        }
    }
}

/// See [`lemma_node_bounds`].
pub proof fn lemma_nodes_bounds(s: Seq<char>, pos: int)
    requires
        0 <= pos <= s.len(),
    ensures
        match nodes(s, pos) {
            Parse::Match(_, end) => pos <= end <= s.len(),
            Parse::Miss => false,
            Parse::Abort(stop) => pos <= stop <= s.len(),
        },
    decreases s.len() - pos, 3nat,
{
    lemma_spacing_bounds(s, pos);
    lemma_node_bounds(s, spacing(s, pos));
    match node(s, spacing(s, pos)) {
        Parse::Match(_, next) => lemma_nodes_bounds(s, next),
        _ => {},
    }
}

/// The items of a document from `pos` on, each with filler before and
/// behind it: nodes, and the version marker `/dts-v1/;`, which gives
/// nothing.
pub open spec fn items(s: Seq<char>, pos: int) -> Parse<Seq<NodeView>>
    decreases s.len() - pos,
    when 0 <= pos <= s.len()
{
    let at = spacing(s, pos);
    proof {
        reveal_strlit("/dts-v1/;");
        lemma_spacing_bounds(s, pos);
        lemma_node_bounds(s, at);
        if has_word(s, at, "/dts-v1/;"@) {
            lemma_spacing_bounds(s, at + "/dts-v1/;"@.len());
        }
    }
    match node(s, at) {
        Parse::Match(first, next) => match items(s, next) {
            Parse::Match(rest, end) => Parse::Match(seq![first] + rest, end),
            Parse::Miss => Parse::Miss,
            Parse::Abort(stop) => Parse::Abort(stop),
        },
        Parse::Miss => if has_word(s, at, "/dts-v1/;"@) {
            items(s, spacing(s, at + "/dts-v1/;"@.len()))
        } else {
            Parse::Match(Seq::empty(), pos)
        },
        Parse::Abort(stop) => Parse::Abort(stop),
    }
}

/// Why a text is not a document.
#[derive(Clone, Copy, Debug, PartialEq, Eq)]
pub enum SyntaxErrorKind {
    /// A block was opened and `}` does not stand where it has to.
    MissingClosingBrace,
    /// What stands at this place is no item of a document, and the input
    /// does not end here.
    TrailingInput,
    /// The rule asked for does not match at the start of the input.
    NoMatch,
}

/// Model of a syntax error: its kind and the position at which parsing
/// stopped.
pub ghost struct SyntaxErrorView {
    pub kind: SyntaxErrorKind,
    pub offset: int,
}

/// A document: items up to the end of the input, where filler may trail
/// them. Anything else that is left over is an error at the place where
/// the items end.
pub open spec fn tree(s: Seq<char>) -> Result<Seq<NodeView>, SyntaxErrorView> {
    match items(s, 0) {
        Parse::Match(forest, end) => if spacing(s, end) == s.len() {
            Ok(forest)
        } else {
            Err(SyntaxErrorView { kind: SyntaxErrorKind::TrailingInput, offset: end })
        },
        Parse::Miss => Err(SyntaxErrorView { kind: SyntaxErrorKind::NoMatch, offset: 0 }),
        Parse::Abort(at) => Err(
            SyntaxErrorView { kind: SyntaxErrorKind::MissingClosingBrace, offset: at },
        ),
    }
}

/// How many characters of the input an error shows at most.
pub const EXCERPT_LEN: usize = 160;

/// The part of the input that an error at `offset` shows: what is left
/// from there, cut after `EXCERPT_LEN` characters.
pub open spec fn excerpt(s: Seq<char>, offset: int) -> Seq<char> {
    if offset < 0 || offset > s.len() {
        Seq::empty()
    } else if offset + EXCERPT_LEN <= s.len() {
        s.subrange(offset, offset + EXCERPT_LEN)
    } else {
        s.subrange(offset, s.len() as int)
    }
}

} // verus!
