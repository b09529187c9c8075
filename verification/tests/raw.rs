use muesli::de::raw::{float, signed_integer, size, sized_string, unsigned_integer};
use muesli::ParseError;

/// Runs a reader of slices on each input and compares what it read, and what
/// it left unread, with the expected pair.
fn run_slice_cases<'s>(
    read: impl Fn(&'s [u8]) -> Result<(&'s [u8], usize), ParseError>,
    cases: &[(&'s [u8], Option<(&[u8], &[u8])>)],
) {
    for (input, expected) in cases {
        let output = read(input);
        match expected {
            Some((rest, token)) => {
                let (read, end) = output.unwrap();
                assert_eq!(read, *token);
                assert_eq!(&input[end..], *rest);
            }
            None => assert!(output.is_err()),
        }
    }
}

#[test]
fn parse_unsigned_integer() {
    let cases = [
        (b"0".as_slice(), Some((b"".as_slice(), b"0".as_slice()))),
        (b"123".as_slice(), Some((b"".as_slice(), b"123".as_slice()))),
        (
            b"745a".as_slice(),
            Some((b"a".as_slice(), b"745".as_slice())),
        ),
        (
            b"592.6".as_slice(),
            Some((b".6".as_slice(), b"592".as_slice())),
        ),
        (b"".as_slice(), None),
        (b"a".as_slice(), None),
        (b"-123".as_slice(), None),
    ];

    run_slice_cases(|input| unsigned_integer(input, 0), &cases);
}

#[test]
fn parse_signed_integer() {
    let cases = [
        (b"-0".as_slice(), Some((b"".as_slice(), b"-0".as_slice()))),
        (b"123".as_slice(), Some((b"".as_slice(), b"123".as_slice()))),
        (
            b"745a".as_slice(),
            Some((b"a".as_slice(), b"745".as_slice())),
        ),
        (
            b"592.6".as_slice(),
            Some((b".6".as_slice(), b"592".as_slice())),
        ),
        (
            b"-592.6".as_slice(),
            Some((b".6".as_slice(), b"-592".as_slice())),
        ),
        (b"".as_slice(), None),
        (b"a".as_slice(), None),
    ];

    run_slice_cases(|input| signed_integer(input, 0), &cases);
}

#[test]
fn parse_float() {
    let cases = [
        (b"-0".as_slice(), Some((b"".as_slice(), b"-0".as_slice()))),
        (b"123".as_slice(), Some((b"".as_slice(), b"123".as_slice()))),
        (
            b"745a".as_slice(),
            Some((b"a".as_slice(), b"745".as_slice())),
        ),
        (
            b"592.6".as_slice(),
            Some((b"".as_slice(), b"592.6".as_slice())),
        ),
        (
            b"-592.6".as_slice(),
            Some((b"".as_slice(), b"-592.6".as_slice())),
        ),
        (b"".as_slice(), None),
        (b"a".as_slice(), None),
    ];

    run_slice_cases(|input| float(input, 0), &cases);
}

#[test]
fn parse_size() {
    let cases = [
        (b"1".as_slice(), Some((b"".as_slice(), 1))),
        (
            b"1234567890".as_slice(),
            Some((b"".as_slice(), 1_234_567_890)),
        ),
        (b"323;".as_slice(), Some((b";".as_slice(), 323))),
        (b"".as_slice(), None),
        (b"a".as_slice(), None),
        (b"a:\"asd\"".as_slice(), None),
        (b"-2:\"asd\"".as_slice(), None),
    ];

    for (input, expected) in cases {
        let output = size(input, 0);
        match expected {
            Some((rest, value)) => {
                let (read, end) = output.unwrap();
                assert_eq!(read, value);
                assert_eq!(&input[end..], rest);
            }
            None => assert!(output.is_err()),
        }
    }
}

#[test]
fn parse_sized_string() {
    let cases = [
        (
            b"1:\"a\"".as_slice(),
            Some((b"".as_slice(), b"a".as_slice())),
        ),
        (
            b"10:\"1234567890\"".as_slice(),
            Some((b"".as_slice(), b"1234567890".as_slice())),
        ),
        (b"".as_slice(), None),
        (b"a".as_slice(), None),
        (b"a:\"asd\"".as_slice(), None),
        (b"-2:\"asd\"".as_slice(), None),
    ];

    run_slice_cases(|input| sized_string(input, 0), &cases);
}
