use kiops::dts::lexer::{seek_pair, skip_line, skip_run};
use kiops::dts::syntax::CharClass;
use nom::bytes::complete::take_until;
use nom::character::complete::{digit1, hex_digit1, multispace1, not_line_ending};
use nom::error::Error;
use nom::IResult;

const SAMPLES: [&str; 16] = [
    "",
    "abc",
    "abc\ndef",
    "abc\r\ndef",
    "abc\rdef",
    "abc\r",
    "\n",
    "\r\n",
    " \t\r\n x",
    "0123456789abcdefABCDEFg",
    "12ab",
    "é*/ü",
    "a * / b */ c */",
    "***/",
    "*",
    "  è",
];

fn chars(text: &str) -> Vec<char> {
    text.chars().collect()
}

/// How many characters a successful parse took, if it succeeded.
fn taken(result: IResult<&str, &str, Error<&str>>) -> Option<usize> {
    result.ok().map(|(_, taken)| taken.chars().count())
}

#[test]
fn rest_of_line_as_the_combinator_takes_it() {
    for sample in SAMPLES {
        assert_eq!(
            skip_line(&chars(sample), 0),
            taken(not_line_ending(sample)),
            "{sample:?}"
        );
    }
}

#[test]
fn runs_as_the_combinators_take_them() {
    for sample in SAMPLES {
        let s = chars(sample);
        let run = |class: CharClass| {
            let end = skip_run(&s, 0, class);
            if end > 0 {
                Some(end)
            } else {
                None
            }
        };
        assert_eq!(run(CharClass::Space), taken(multispace1(sample)), "{sample:?}");
        assert_eq!(run(CharClass::Digit), taken(digit1(sample)), "{sample:?}");
        assert_eq!(run(CharClass::HexDigit), taken(hex_digit1(sample)), "{sample:?}");
    }
}

#[test]
fn end_of_comment_as_the_combinator_finds_it() {
    for sample in SAMPLES {
        assert_eq!(
            seek_pair(&chars(sample), 0, '*', '/'),
            taken(take_until("*/")(sample)),
            "{sample:?}"
        );
    }
}

#[test]
fn runs_start_where_they_are_asked_to() {
    let s = chars("ab  12  ");
    assert_eq!(skip_run(&s, 2, CharClass::Space), 4);
    assert_eq!(skip_run(&s, 4, CharClass::Digit), 6);
    assert_eq!(skip_run(&s, 4, CharClass::Space), 4);
    assert_eq!(skip_run(&s, 8, CharClass::Space), 8);
    assert_eq!(skip_line(&s, 8), Some(8));
    assert_eq!(seek_pair(&s, 7, ' ', ' '), None);
    assert_eq!(seek_pair(&s, 6, ' ', ' '), Some(6));
}
