//! The words of device-tree source: filler, names, numbers and quoted
//! texts, read from a vector of characters.
use super::syntax::{
    code_end, code_point, comment, dec, digit_value, escape, escaped_letter, filler, find_pair,
    has_char, has_pair, has_word, hex, identifier, in_class, is_digit, is_hex_digit, is_scalar,
    label, line_rest, literal, number, preproc, reference, run_end, spacing, symbol, text,
    text_body, CharClass,
};
use super::text::{
    chars_of, ident_char, ident_initial_char, string_of, symbol_char, symbol_initial_char,
};
use super::{Address, Symbol};
use vstd::prelude::*;

verus! {

/// `char::from_u32` of std: the character with the given code, where the
/// code is a Unicode scalar value, else nothing.
pub assume_specification[ char::from_u32 ](i: u32) -> (r: Option<char>)
    ensures
        r is Some <==> is_scalar(i as int),
        r matches Some(c) ==> c as int == i,
;

/// Whether `c` belongs to `class`.
pub fn class_has(class: CharClass, c: char) -> (r: bool)
    ensures
        r == in_class(class, c),
{
    match class {
        CharClass::Space => c == ' ' || c == '\t' || c == '\r' || c == '\n',
        CharClass::Digit => c >= '0' && c <= '9',
        CharClass::HexDigit => (c >= '0' && c <= '9') || (c >= 'a' && c <= 'f') || (c >= 'A' && c
            <= 'F'),
        CharClass::Ident => ident_char(c),
        CharClass::Symbol => symbol_char(c),
        CharClass::Plain => c != '"' && c != '\\',
    }
}

/// Where the longest run of characters of `class` that starts at `pos`
/// ends.
pub fn skip_run(s: &Vec<char>, pos: usize, class: CharClass) -> (end: usize)
    requires
        pos <= s.len(),
    ensures
        end == run_end(s@, pos as int, class),
        pos <= end <= s.len(),
        forall|i: int| pos <= i < end ==> in_class(class, #[trigger] s@[i]),
{
    let mut i: usize = pos;
    while i < s.len() && class_has(class, s[i])
        invariant
            pos <= i <= s.len(),
            run_end(s@, i as int, class) == run_end(s@, pos as int, class),
            forall|j: int| pos <= j < i ==> in_class(class, #[trigger] s@[j]),
        decreases s.len() - i,
    {
        i += 1;
    }
    i
}

/// Whether the character `c` stands at `pos`.
pub fn at_char(s: &Vec<char>, pos: usize, c: char) -> (r: bool)
    ensures
        r == has_char(s@, pos as int, c),
{
    pos < s.len() && s[pos] == c
}

/// Whether the characters `a`, `b` stand at `pos`.
pub fn at_pair(s: &Vec<char>, pos: usize, a: char, b: char) -> (r: bool)
    ensures
        r == has_pair(s@, pos as int, a, b),
{
    pos < s.len() && s[pos] == a && pos + 1 < s.len() && s[pos + 1] == b
}

/// Whether the word `word` stands at `pos`.
pub fn at_word(s: &Vec<char>, pos: usize, word: &str) -> (r: bool)
    requires
        pos <= s.len(),
    ensures
        r == has_word(s@, pos as int, word@),
{
    let w = chars_of(word);
    if w.len() > s.len() - pos {
        return false;
    }
    let mut i: usize = 0;
    while i < w.len()
        invariant
            i <= w.len(),
            pos + w.len() <= s.len(),
            w@ == word@,
            forall|j: int| 0 <= j < i ==> s@[pos + j] == w@[j],
        decreases w.len() - i,
    {
        if s[pos + i] != w[i] {
            assert(s@.subrange(pos as int, pos + w.len())[i as int] != w@[i as int]);
            return false;
        }
        i += 1;
    }
    assert(s@.subrange(pos as int, pos + w.len()) =~= w@);
    true
}

/// The rest of a line from `pos` on: where it ends, if it ends well.
pub fn skip_line(s: &Vec<char>, pos: usize) -> (r: Option<usize>)
    requires
        pos <= s.len(),
    ensures
        r == match line_rest(s@, pos as int) {
            Some(end) => Some(end as usize),
            None => None,
        },
        r matches Some(end) ==> pos <= end <= s.len() && line_rest(s@, pos as int) == Some(
            end as int,
        ),
{
    let mut i: usize = pos;
    while i < s.len()
        invariant
            pos <= i <= s.len(),
            line_rest(s@, i as int) == line_rest(s@, pos as int),
        decreases s.len() - i,
    {
        let c = s[i];
        if c == '\n' {
            return Some(i);
        }
        if c == '\r' {
            if at_char(s, i + 1, '\n') {
                return Some(i);
            } else {
                return None;
            }
        }
        i += 1;
    }
    Some(i)
}

/// The first position from `pos` on at which the characters `a`, `b`
/// stand.
pub fn seek_pair(s: &Vec<char>, pos: usize, a: char, b: char) -> (r: Option<usize>)
    requires
        pos <= s.len(),
    ensures
        r matches Some(at) ==> pos <= at && at + 2 <= s.len() && find_pair(s@, pos as int, a, b)
            == Some(at as int),
        r is None ==> find_pair(s@, pos as int, a, b) is None,
{
    let mut i: usize = pos;
    while i < s.len() && i + 1 < s.len()
        invariant
            pos <= i <= s.len(),
            find_pair(s@, i as int, a, b) == find_pair(s@, pos as int, a, b),
        decreases s.len() - i,
    {
        if s[i] == a && s[i + 1] == b {
            return Some(i);
        }
        i += 1;
    }
    None
}

/// A preprocessor line at `pos`: where it ends.
pub fn skip_preproc(s: &Vec<char>, pos: usize) -> (r: Option<usize>)
    requires
        pos <= s.len(),
    ensures
        r matches Some(end) ==> pos < end <= s.len() && preproc(s@, pos as int) == Some(
            end as int,
        ),
        r is None ==> preproc(s@, pos as int) is None,
{
    proof {
        reveal_strlit("#include");
    }
    if at_word(s, pos, "#include") {
        skip_line(s, pos + 8)
    } else if at_pair(s, pos, '#', ' ') {
        skip_line(s, pos + 2)
    } else {
        None
    }
}

/// A comment at `pos`: where it ends.
pub fn skip_comment(s: &Vec<char>, pos: usize) -> (r: Option<usize>)
    requires
        pos <= s.len(),
    ensures
        r matches Some(end) ==> pos < end <= s.len() && comment(s@, pos as int) == Some(
            end as int,
        ),
        r is None ==> comment(s@, pos as int) is None,
{
    if at_pair(s, pos, '/', '*') {
        match seek_pair(s, pos + 2, '*', '/') {
            Some(close) => Some(close + 2),
            None => None,
        }
    } else if at_pair(s, pos, '/', '/') {
        skip_line(s, pos + 2)
    } else {
        None
    }
}

/// One piece of filler at `pos`: where it ends.
pub fn skip_filler(s: &Vec<char>, pos: usize) -> (r: Option<usize>)
    requires
        pos <= s.len(),
    ensures
        r matches Some(end) ==> pos < end <= s.len() && filler(s@, pos as int) == Some(
            end as int,
        ),
        r is None ==> filler(s@, pos as int) is None,
{
    match skip_preproc(s, pos) {
        Some(end) => Some(end),
        None => match skip_comment(s, pos) {
            Some(end) => Some(end),
            None => {
                let end = skip_run(s, pos, CharClass::Space);
                if end > pos {
                    Some(end)
                } else {
                    None
                }
            },
        },
    }
}

/// Where the filler that starts at `pos` ends.
pub fn skip_spacing(s: &Vec<char>, pos: usize) -> (end: usize)
    requires
        pos <= s.len(),
    ensures
        end == spacing(s@, pos as int),
        pos <= end <= s.len(),
{
    let mut i: usize = pos;
    loop
        invariant
            pos <= i <= s.len(),
            spacing(s@, i as int) == spacing(s@, pos as int),
        decreases s.len() - i,
    {
        match skip_filler(s, i) {
            Some(next) => {
                i = next;
            },
            None => {
                return i;
            },
        }
    }
}

/// A property or node name at `pos`.
pub fn read_symbol(s: &Vec<char>, pos: usize) -> (r: Option<(Symbol, usize)>)
    requires
        pos <= s.len(),
    ensures
        r matches Some((name, end)) ==> pos < end <= s.len() && symbol(s@, pos as int) == Some(
            (name@, end as int),
        ),
        r is None ==> symbol(s@, pos as int) is None,
{
    if pos < s.len() && symbol_initial_char(s[pos]) {
        let end = skip_run(s, pos + 1, CharClass::Symbol);
        Some((Symbol(string_of(s, pos, end)), end))
    } else {
        None
    }
}

/// An identifier at `pos`.
pub fn read_identifier(s: &Vec<char>, pos: usize) -> (r: Option<(Symbol, usize)>)
    requires
        pos <= s.len(),
    ensures
        r matches Some((name, end)) ==> pos < end <= s.len() && identifier(s@, pos as int)
            == Some((name@, end as int)),
        r is None ==> identifier(s@, pos as int) is None,
{
    if pos < s.len() && ident_initial_char(s[pos]) {
        let end = skip_run(s, pos + 1, CharClass::Ident);
        Some((Symbol(string_of(s, pos, end)), end))
    } else {
        None
    }
}

/// A label at `pos`: an identifier and a colon.
pub fn read_label(s: &Vec<char>, pos: usize) -> (r: Option<(Symbol, usize)>)
    requires
        pos <= s.len(),
    ensures
        r matches Some((name, end)) ==> pos < end <= s.len() && label(s@, pos as int) == Some(
            (name@, end as int),
        ),
        r is None ==> label(s@, pos as int) is None,
{
    match read_identifier(s, pos) {
        Some((name, end)) => {
            if at_char(s, end, ':') {
                Some((name, end + 1))
            } else {
                None
            }
        },
        None => None,
    }
}

/// A reference at `pos`: `&` and an identifier.
pub fn read_reference(s: &Vec<char>, pos: usize) -> (r: Option<(Symbol, usize)>)
    requires
        pos <= s.len(),
    ensures
        r matches Some((name, end)) ==> pos < end <= s.len() && reference(s@, pos as int)
            == Some((name@, end as int)),
        r is None ==> reference(s@, pos as int) is None,
{
    if at_char(s, pos, '&') {
        read_identifier(s, pos + 1)
    } else {
        None
    }
}

/// The number that the hexadecimal digit `c` stands for.
pub fn digit_of(c: char) -> (d: u64)
    requires
        is_hex_digit(c),
    ensures
        d == digit_value(c),
        d < 16,
        is_digit(c) ==> d < 10,
{
    if c >= '0' && c <= '9' {
        (c as u64) - ('0' as u64)
    } else if c >= 'a' && c <= 'f' {
        (c as u64) - ('a' as u64) + 10
    } else {
        (c as u64) - ('A' as u64) + 10
    }
}

/// A number grows with each digit that is written behind it.
pub proof fn lemma_number_grows(digits: Seq<char>, base: int, k: int)
    requires
        base >= 1,
        0 <= k <= digits.len(),
        forall|i: int| 0 <= i < digits.len() ==> is_hex_digit(#[trigger] digits[i]),
    ensures
        0 <= number(digits.subrange(0, k), base) <= number(digits, base),
    decreases digits.len() - k,
{
    if k == digits.len() {
        assert(digits.subrange(0, k) =~= digits);
        lemma_number_nonnegative(digits, base);
    } else {
        let longer = digits.subrange(0, k + 1);
        assert(longer.drop_last() =~= digits.subrange(0, k));
        lemma_number_grows(digits, base, k + 1);
        lemma_number_nonnegative(digits.subrange(0, k), base);
        assert(number(longer, base) == number(digits.subrange(0, k), base) * base + digit_value(
            longer.last(),
        ));
        assert(number(digits.subrange(0, k), base) * base >= number(digits.subrange(0, k), base))
            by (nonlinear_arith)
            requires
                base >= 1,
                number(digits.subrange(0, k), base) >= 0,
        ;
    }
}

/// Digits write a number that is not negative.
pub proof fn lemma_number_nonnegative(digits: Seq<char>, base: int)
    requires
        base >= 1,
        forall|i: int| 0 <= i < digits.len() ==> is_hex_digit(#[trigger] digits[i]),
    ensures
        number(digits, base) >= 0,
    decreases digits.len(),
{
    if digits.len() > 0 {
        lemma_number_nonnegative(digits.drop_last(), base);
        assert(number(digits.drop_last(), base) * base >= 0) by (nonlinear_arith)
            requires
                base >= 1,
                number(digits.drop_last(), base) >= 0,
        ;
    }
}

/// The number that the digits `s[from..to]` write in base `base`, where it
/// fits in 64 bits.
pub fn read_number(s: &Vec<char>, from: usize, to: usize, base: u64) -> (r: Option<u64>)
    requires
        from <= to <= s.len(),
        base == 10 || base == 16,
        forall|i: int| from <= i < to ==> is_hex_digit(#[trigger] s@[i]),
        base == 10 ==> forall|i: int| from <= i < to ==> is_digit(#[trigger] s@[i]),
    ensures
        r matches Some(n) ==> n == number(s@.subrange(from as int, to as int), base as int),
        r is None ==> number(s@.subrange(from as int, to as int), base as int) > u64::MAX,
{
    let ghost digits = s@.subrange(from as int, to as int);
    let mut acc: u64 = 0;
    let mut i: usize = from;
    proof {
        assert(digits.subrange(0, 0) =~= Seq::<char>::empty());
    }
    while i < to
        invariant
            from <= i <= to <= s.len(),
            base == 10 || base == 16,
            digits == s@.subrange(from as int, to as int),
            forall|j: int| 0 <= j < digits.len() ==> is_hex_digit(#[trigger] digits[j]),
            base == 10 ==> forall|j: int| from <= j < to ==> is_digit(#[trigger] s@[j]),
            acc == number(digits.subrange(0, i - from), base as int),
        decreases to - i,
    {
        assert(digits[i - from] == s@[i as int]);
        let d = digit_of(s[i]);
        proof {
            let longer = digits.subrange(0, i - from + 1);
            assert(longer.drop_last() =~= digits.subrange(0, i - from));
            assert(longer.last() == s@[i as int]);
            lemma_number_grows(digits, base as int, i - from + 1);
        }
        if acc > (u64::MAX - d) / base {
            proof {
                assert(acc * base + d > u64::MAX) by (nonlinear_arith)
                    requires
                        acc > (u64::MAX - d) / (base as int),
                        base == 10 || base == 16,
                        0 <= d < 16,
                ;
            }
            return None;
        }
        proof {
            assert(acc * base + d <= u64::MAX) by (nonlinear_arith)
                requires
                    acc <= (u64::MAX - d) / (base as int),
                    base == 10 || base == 16,
                    0 <= d < 16,
                    acc >= 0,
            ;
        }
        acc = acc * base + d;
        i += 1;
    }
    proof {
        assert(digits.subrange(0, i - from) =~= digits);
    }
    Some(acc)
}

/// A hexadecimal number without prefix at `pos`.
pub fn read_hex(s: &Vec<char>, pos: usize) -> (r: Option<(Address, usize)>)
    requires
        pos <= s.len(),
    ensures
        r matches Some((a, end)) ==> pos < end <= s.len() && hex(s@, pos as int) == Some(
            (a@, end as int),
        ),
        r is None ==> hex(s@, pos as int) is None,
{
    let end = skip_run(s, pos, CharClass::HexDigit);
    if end > pos {
        match read_number(s, pos, end, 16) {
            Some(n) => Some((Address(n), end)),
            None => None,
        }
    } else {
        None
    }
}

/// A decimal number at `pos`.
pub fn read_dec(s: &Vec<char>, pos: usize) -> (r: Option<(Address, usize)>)
    requires
        pos <= s.len(),
    ensures
        r matches Some((a, end)) ==> pos < end <= s.len() && dec(s@, pos as int) == Some(
            (a@, end as int),
        ),
        r is None ==> dec(s@, pos as int) is None,
{
    let end = skip_run(s, pos, CharClass::Digit);
    if end > pos {
        match read_number(s, pos, end, 10) {
            Some(n) => Some((Address(n), end)),
            None => None,
        }
    } else {
        None
    }
}

/// A number at `pos`: hexadecimal behind `0x`, else decimal.
pub fn read_literal(s: &Vec<char>, pos: usize) -> (r: Option<(Address, usize)>)
    requires
        pos <= s.len(),
    ensures
        r matches Some((a, end)) ==> pos < end <= s.len() && literal(s@, pos as int) == Some(
            (a@, end as int),
        ),
        r is None ==> literal(s@, pos as int) is None,
{
    if at_pair(s, pos, '0', 'x') {
        match read_hex(s, pos + 2) {
            Some(found) => {
                return Some(found);
            },
            None => {},
        }
    }
    read_dec(s, pos)
}

/// A code point behind a backslash at `pos`: `u{`, up to six hexadecimal
/// digits, `}`.
pub fn read_code_point(s: &Vec<char>, pos: usize) -> (r: Option<(char, usize)>)
    requires
        pos <= s.len(),
    ensures
        r matches Some((c, end)) ==> pos < end <= s.len() && code_point(s@, pos as int) == Some(
            (c, end as int),
        ),
        r is None ==> code_point(s@, pos as int) is None,
{
    if !at_pair(s, pos, 'u', '{') {
        return None;
    }
    let run = skip_run(s, pos + 2, CharClass::HexDigit);
    let end = if run - (pos + 2) <= 6 {
        run
    } else {
        pos + 2 + 6
    };
    assert(end == code_end(s@, pos + 2));
    if end > pos + 2 && at_char(s, end, '}') {
        match read_number(s, pos + 2, end, 16) {
            Some(n) => {
                if n > 0x10FFFF {
                    return None;
                }
                match char::from_u32(n as u32) {
                    Some(c) => {
                        assert(n as char == c);
                        Some((c, end + 1))
                    },
                    None => None,
                }
            },
            None => None,
        }
    } else {
        None
    }
}

/// The character that the letter `c` stands for behind a backslash.
pub fn unescape_letter(c: char) -> (r: Option<char>)
    ensures
        r == escaped_letter(c),
{
    if c == 'n' {
        Some('\n')
    } else if c == 'r' {
        Some('\r')
    } else if c == 't' {
        Some('\t')
    } else if c == 'b' {
        Some('\u{08}')
    } else if c == 'f' {
        Some('\u{0C}')
    } else if c == '\\' || c == '/' || c == '"' {
        Some(c)
    } else {
        None
    }
}

/// What stands behind a backslash for one character, at `pos`.
pub fn read_escape(s: &Vec<char>, pos: usize) -> (r: Option<(char, usize)>)
    requires
        pos <= s.len(),
    ensures
        r matches Some((c, end)) ==> pos < end <= s.len() && escape(s@, pos as int) == Some(
            (c, end as int),
        ),
        r is None ==> escape(s@, pos as int) is None,
{
    match read_code_point(s, pos) {
        Some(found) => Some(found),
        None => {
            if pos < s.len() {
                match unescape_letter(s[pos]) {
                    Some(c) => Some((c, pos + 1)),
                    None => None,
                }
            } else {
                None
            }
        },
    }
}

/// Appends the characters `s[from..to]` to `out`.
pub fn push_run(out: &mut String, s: &Vec<char>, from: usize, to: usize)
    requires
        from <= to <= s.len(),
    ensures
        final(out)@ == old(out)@ + s@.subrange(from as int, to as int),
{
    let mut i: usize = from;
    assert(out@ =~= old(out)@ + s@.subrange(from as int, from as int));
    while i < to
        invariant
            from <= i <= to <= s.len(),
            out@ == old(out)@ + s@.subrange(from as int, i as int),
        decreases to - i,
    {
        out.push(s[i]);
        i += 1;
        assert(out@ =~= old(out)@ + s@.subrange(from as int, i as int));
    }
}

/// The inside of a quoted text from `pos` on: its characters and where it
/// ends.
pub fn read_text_body(s: &Vec<char>, pos: usize) -> (r: (String, usize))
    requires
        pos <= s.len(),
    ensures
        pos <= r.1 <= s.len(),
        (r.0@, r.1 as int) == text_body(s@, pos as int),
{
    let mut out = String::new();
    let mut i: usize = pos;
    assert(out@ + text_body(s@, pos as int).0 =~= text_body(s@, pos as int).0);
    loop
        invariant
            pos <= i <= s.len(),
            text_body(s@, pos as int) == (
                out@ + text_body(s@, i as int).0,
                text_body(s@, i as int).1,
            ),
        decreases s.len() - i,
    {
        let ghost sofar = out@;
        let plain = skip_run(s, i, CharClass::Plain);
        if plain > i {
            push_run(&mut out, s, i, plain);
            proof {
                let rest = text_body(s@, plain as int);
                assert(out@ + rest.0 =~= sofar + (s@.subrange(i as int, plain as int) + rest.0));
            }
            i = plain;
        } else if at_char(s, i, '\\') {
            match read_escape(s, i + 1) {
                Some((c, next)) => {
                    out.push(c);
                    proof {
                        let rest = text_body(s@, next as int);
                        assert(out@ + rest.0 =~= sofar + (seq![c] + rest.0));
                    }
                    i = next;
                },
                None => {
                    let blank = skip_run(s, i + 1, CharClass::Space);
                    if blank > i + 1 {
                        i = blank;
                    } else {
                        assert(out@ + Seq::<char>::empty() =~= out@);
                        return (out, i);
                    }
                },
            }
        } else {
            assert(out@ + Seq::<char>::empty() =~= out@);
            return (out, i);
        }
    }
}

/// A quoted text at `pos`.
pub fn read_text(s: &Vec<char>, pos: usize) -> (r: Option<(String, usize)>)
    requires
        pos <= s.len(),
    ensures
        r matches Some((content, end)) ==> pos < end <= s.len() && text(s@, pos as int) == Some(
            (content@, end as int),
        ),
        r is None ==> text(s@, pos as int) is None,
{
    if at_char(s, pos, '"') {
        let (content, end) = read_text_body(s, pos + 1);
        if at_char(s, end, '"') {
            Some((content, end + 1))
        } else {
            None
        }
    } else {
        None
    }
}

} // verus!
