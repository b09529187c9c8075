use muesli::{
    session_decode, session_decode_with_depth, unserialize, unserialize_with_depth, ErrorLabel, ParseError,
    ParseErrorKind, DEFAULT_MAX_DEPTH,
};

fn failure(kind: ParseErrorKind, offset: usize) -> ParseError {
    ParseError { kind, offset, label: None }
}

fn labelled(kind: ParseErrorKind, offset: usize, label: ErrorLabel) -> ParseError {
    ParseError { kind, offset, label: Some(label) }
}

#[test]
fn malformed_inputs_are_refused() {
    for input in [b"i;-0;".as_slice(), b"i:12_320;", b"k:2;", b"i:86A23;", b"b;2;", b"d:12-12"] {
        assert!(unserialize(input).is_err());
    }
}

#[test]
fn syntax_errors_name_the_offending_byte() {
    assert_eq!(unserialize(b"k:2;"), Err(failure(ParseErrorKind::Syntax, 0)));
    assert_eq!(unserialize(b"i;-0;"), Err(failure(ParseErrorKind::Syntax, 1)));
    assert_eq!(unserialize(b"i:12_320;"), Err(failure(ParseErrorKind::Syntax, 4)));
    assert_eq!(unserialize(b"i:86A23;"), Err(failure(ParseErrorKind::Syntax, 4)));
    assert_eq!(unserialize(b"b:2;"), Err(failure(ParseErrorKind::Syntax, 2)));
    assert_eq!(unserialize(b"i:-;"), Err(failure(ParseErrorKind::Syntax, 3)));
    assert_eq!(unserialize(b"d:1.;"), Err(failure(ParseErrorKind::Syntax, 3)));
    assert_eq!(unserialize(b"d:12-12"), Err(failure(ParseErrorKind::Syntax, 4)));
    assert_eq!(unserialize(b"a:2:{i:0;N;}"), Err(failure(ParseErrorKind::Syntax, 11)));
    assert_eq!(unserialize(b"a:1:{N;N;}"), Err(failure(ParseErrorKind::Syntax, 5)));
    assert_eq!(unserialize(b"N:"), Err(failure(ParseErrorKind::Syntax, 1)));
}

#[test]
fn incomplete_inputs_name_the_end() {
    assert_eq!(unserialize(b""), Err(failure(ParseErrorKind::Incomplete, 0)));
    assert_eq!(unserialize(b"N"), Err(failure(ParseErrorKind::Incomplete, 1)));
    assert_eq!(unserialize(b"i:"), Err(failure(ParseErrorKind::Incomplete, 2)));
    assert_eq!(unserialize(b"i:12"), Err(failure(ParseErrorKind::Incomplete, 4)));
    assert_eq!(unserialize(b"s:2:\"ab"), Err(failure(ParseErrorKind::Incomplete, 7)));
    assert_eq!(unserialize(b"a:1:{i:0;N;"), Err(failure(ParseErrorKind::Incomplete, 11)));
    assert_eq!(session_decode(b"foo"), Err(failure(ParseErrorKind::Incomplete, 3)));
    assert_eq!(session_decode(b"foo|i:42;bar"), Err(failure(ParseErrorKind::Incomplete, 12)));
    assert_eq!(session_decode(b"foo|"), Err(failure(ParseErrorKind::Incomplete, 4)));
}

#[test]
fn length_mismatches_are_told_apart() {
    assert_eq!(unserialize(b"s:5:\"ab\";"), Err(failure(ParseErrorKind::LengthMismatch, 5)));
    assert_eq!(unserialize(b"s:1:\"ab\";"), Err(failure(ParseErrorKind::LengthMismatch, 6)));
    assert_eq!(
        unserialize(b"a:1:{i:0;N;i:1;N;}"),
        Err(failure(ParseErrorKind::LengthMismatch, 11))
    );
    assert_eq!(
        unserialize(b"C:1:\"A\":2:{abc}"),
        Err(failure(ParseErrorKind::LengthMismatch, 13))
    );
}

#[test]
fn numbers_out_of_range_are_refused() {
    assert_eq!(
        unserialize(b"i:9223372036854775808;"),
        Err(failure(ParseErrorKind::OutOfRange, 2))
    );
    assert_eq!(
        unserialize(b"i:-9223372036854775809;"),
        Err(failure(ParseErrorKind::OutOfRange, 2))
    );
    assert_eq!(
        unserialize(b"i:123456789012345678901234567890;"),
        Err(failure(ParseErrorKind::OutOfRange, 2))
    );
    assert_eq!(unserialize(b"R:0;"), Err(failure(ParseErrorKind::OutOfRange, 2)));
    assert_eq!(unserialize(b"r:000;"), Err(failure(ParseErrorKind::OutOfRange, 2)));
    assert_eq!(
        unserialize(b"s:99999999999999999999999999:\"abc\";"),
        Err(failure(ParseErrorKind::OutOfRange, 2))
    );
    assert_eq!(
        unserialize(b"a:340282366920938463463374607431768211456:{}"),
        Err(failure(ParseErrorKind::OutOfRange, 2))
    );
}

#[test]
fn integers_at_the_limits_are_read() {
    assert_eq!(
        unserialize(b"i:9223372036854775807;"),
        Ok(muesli::Value::Integer(i64::MAX))
    );
    assert_eq!(
        unserialize(b"i:-9223372036854775808;"),
        Ok(muesli::Value::Integer(i64::MIN))
    );
    assert_eq!(
        unserialize(b"i:-0009223372036854775808;"),
        Ok(muesli::Value::Integer(i64::MIN))
    );
}

#[test]
fn trailing_data_is_refused() {
    assert_eq!(unserialize(b"N;x"), Err(failure(ParseErrorKind::TrailingData, 2)));
    assert_eq!(unserialize(b"i:1;i:2;"), Err(failure(ParseErrorKind::TrailingData, 4)));
    assert_eq!(unserialize(b"a:0:{};"), Err(failure(ParseErrorKind::TrailingData, 6)));
}

#[test]
fn nesting_beyond_the_limit_is_refused() {
    assert_eq!(
        unserialize_with_depth(b"a:0:{}", 0),
        Err(failure(ParseErrorKind::TooDeep, 0))
    );
    assert!(unserialize_with_depth(b"a:0:{}", 1).is_ok());
    assert!(unserialize_with_depth(b"i:1;", 0).is_ok());
    assert_eq!(
        unserialize_with_depth(b"a:1:{i:0;a:0:{}}", 1),
        Err(failure(ParseErrorKind::TooDeep, 9))
    );
    assert!(unserialize_with_depth(b"a:1:{i:0;a:0:{}}", 2).is_ok());
    assert_eq!(
        unserialize_with_depth(b"O:1:\"A\":1:{s:1:\"p\";O:1:\"B\":0:{}}", 1),
        Err(labelled(ParseErrorKind::TooDeep, 19, ErrorLabel::ObjectProperty))
    );
    assert_eq!(
        session_decode_with_depth(b"k|a:0:{}", 0),
        Err(failure(ParseErrorKind::TooDeep, 2))
    );
}

fn nested_arrays(levels: usize) -> Vec<u8> {
    let mut bytes = Vec::new();
    for _ in 0..levels {
        bytes.extend_from_slice(b"a:1:{i:0;");
    }
    bytes.extend_from_slice(b"N;");
    for _ in 0..levels {
        bytes.push(b'}');
    }
    bytes
}

#[test]
fn the_default_limit_is_met_exactly() {
    let deepest = nested_arrays(DEFAULT_MAX_DEPTH);
    assert!(unserialize(&deepest).is_ok());
    let too_deep = nested_arrays(DEFAULT_MAX_DEPTH + 1);
    assert_eq!(
        unserialize(&too_deep),
        Err(failure(ParseErrorKind::TooDeep, 9 * DEFAULT_MAX_DEPTH))
    );
    let far_too_deep = nested_arrays(100_000);
    assert_eq!(
        unserialize(&far_too_deep),
        Err(failure(ParseErrorKind::TooDeep, 9 * DEFAULT_MAX_DEPTH))
    );
    assert!(unserialize_with_depth(&nested_arrays(1000), 1000).is_ok());
}

#[test]
fn failures_inside_objects_are_labelled() {
    assert_eq!(
        unserialize(b"O:1:\"A:0:{}"),
        Err(labelled(ParseErrorKind::LengthMismatch, 6, ErrorLabel::ClassName))
    );
    assert_eq!(
        unserialize(b"O:x:\"A\":0:{}"),
        Err(labelled(ParseErrorKind::Syntax, 2, ErrorLabel::ClassName))
    );
    assert_eq!(
        unserialize(b"C:9:\"A\":0:{}"),
        Err(labelled(ParseErrorKind::LengthMismatch, 5, ErrorLabel::ClassName))
    );
    assert_eq!(
        unserialize(b"O:1:\"A\":x:{}"),
        Err(labelled(ParseErrorKind::Syntax, 8, ErrorLabel::ObjectProperties))
    );
    assert_eq!(
        unserialize(b"O:1:\"A\":0{}"),
        Err(labelled(ParseErrorKind::Syntax, 9, ErrorLabel::ObjectProperties))
    );
    assert_eq!(
        unserialize(b"C:1:\"A\":5:{ab}"),
        Err(labelled(ParseErrorKind::LengthMismatch, 11, ErrorLabel::ObjectProperties))
    );
    assert_eq!(
        unserialize(b"O:1:\"A\":1:{s:1:\"p\";k;}"),
        Err(labelled(ParseErrorKind::Syntax, 19, ErrorLabel::ObjectProperty))
    );
    assert_eq!(
        unserialize(b"O:1:\"A\":1:{i:1;N;}"),
        Err(labelled(ParseErrorKind::Syntax, 11, ErrorLabel::ObjectProperty))
    );
    assert_eq!(
        unserialize(b"O:1:\"A\":1:{s:1:\"p\";O:1:\"B:0:{}}"),
        Err(labelled(ParseErrorKind::LengthMismatch, 25, ErrorLabel::ClassName))
    );
    assert_eq!(
        unserialize(b"O:1:\"A\":0:{"),
        Err(failure(ParseErrorKind::Incomplete, 11))
    );
    assert_eq!(
        unserialize(b"a:1:{i:0;O:1:\"A\":0:{x}"),
        Err(failure(ParseErrorKind::LengthMismatch, 20))
    );
}

#[test]
fn failures_describe_themselves() {
    assert_eq!(ParseErrorKind::Syntax.describe(), "syntax error");
    assert_eq!(ParseErrorKind::LengthMismatch.describe(), "length mismatch");
    assert_eq!(ParseErrorKind::OutOfRange.describe(), "number out of range");
    assert_eq!(ParseErrorKind::Incomplete.describe(), "incomplete input");
    assert_eq!(ParseErrorKind::TrailingData.describe(), "trailing data");
    assert_eq!(ParseErrorKind::TooDeep.describe(), "nesting too deep");
    assert_eq!(ErrorLabel::ClassName.describe(), "class name");
    assert_eq!(ErrorLabel::ObjectProperties.describe(), "object properties");
    assert_eq!(ErrorLabel::ObjectProperty.describe(), "object property");
    let plain = ParseError::new(ParseErrorKind::Syntax, 3);
    assert_eq!(plain, failure(ParseErrorKind::Syntax, 3));
    let inner = plain.within(ErrorLabel::ObjectProperty);
    assert_eq!(inner, labelled(ParseErrorKind::Syntax, 3, ErrorLabel::ObjectProperty));
    assert_eq!(inner.within(ErrorLabel::ObjectProperties), inner);
}
