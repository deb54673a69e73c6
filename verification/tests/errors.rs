use tomlp::drafts::parsetools::ParserLine;
use tomlp::drafts::tomlparse::TOMLParser;
use tomlp::{parse, ErrorKind};

fn kind_of(text: &str) -> (ErrorKind, usize, String) {
    match parse(text) {
        Ok(_) => panic!("{:?} parsed", text),
        Err(e) => (e.kind, e.line, e.detail),
    }
}

fn assert_kind(text: &str, kind: ErrorKind, line: usize) {
    let (k, l, _) = kind_of(text);
    assert_eq!(k, kind, "{:?}", text);
    assert_eq!(l, line, "{:?}", text);
}

#[test]
fn error_end_of_file() {
    assert_kind("a = \"\"\"abc\n", ErrorKind::EndOfFile, 1);
    assert_kind("a = [ 1\n", ErrorKind::EndOfFile, 1);
}

#[test]
fn error_missing_equals() {
    assert_kind("a] = 1\n", ErrorKind::MissingEquals, 1);
}

#[test]
fn error_array_misplaced_comma() {
    assert_kind("a = [ , 1 ]\n", ErrorKind::ArrayMisplacedComma, 1);
}

#[test]
fn error_strings() {
    assert_kind("a = \"abc\n", ErrorKind::UnterminatedBasicString, 1);
    assert_kind("a = \"a\\qb\"\n", ErrorKind::InvalidStringEscape, 1);
    assert_kind("a = \"a\u{7}b\"\n", ErrorKind::InvalidStringChar, 1);
    assert_kind("a = \"\"\"\\q\"\"\"\n", ErrorKind::InvalidEscape, 1);
    assert_kind("a = 'a\u{7}b'\n", ErrorKind::InvalidLiteralStringChar, 1);
    assert_kind("a = \"\\u00e\u{301}9\"\n", ErrorKind::HexDigitCluster, 1);
}

#[test]
fn error_unicode_escape() {
    let mut parser = TOMLParser::from_text("");
    let r = parser.parse_multi_escape_sequence(ParserLine::new("u12\n", 1));
    assert_eq!(r.map(|x| x.0).map_err(|e| e.kind), Err(ErrorKind::InvalidUnicodeEscape));
    let r = parser.parse_multi_escape_sequence(ParserLine::new("UD800DC00\n", 1));
    assert_eq!(r.map(|x| x.0).map_err(|e| e.kind), Err(ErrorKind::InvalidUnicodeEscape));
}

#[test]
fn error_unterminated_literal_string() {
    let parser = TOMLParser::from_text("");
    let mut parser = parser;
    let r = parser.parse_literal_string(ParserLine::new("'abc", 1));
    assert_eq!(r.map(|_| ()).map_err(|e| e.kind), Err(ErrorKind::UnterminatedLiteralString));
}

#[test]
fn error_not_numeric() {
    assert_kind("a = 1.2.3\n", ErrorKind::NotNumeric, 1);
    assert_kind("a = x12\n", ErrorKind::NotNumeric, 1);
}

#[test]
fn error_integer_kinds() {
    let cases = [
        ("+0x12", ErrorKind::IntegerSignedPrefix),
        ("012", ErrorKind::IntegerLeadingZero),
        ("x12", ErrorKind::IntegerBadStart),
        ("+", ErrorKind::IntegerFormat),
        ("12_", ErrorKind::IntegerTrailingUnderscore),
        ("99999999999999999999", ErrorKind::IntegerOverflow),
        ("1__2", ErrorKind::IntegerDoubleUnderscore),
        ("0x1G", ErrorKind::IntegerBadDigit),
    ];
    for (s, k) in cases {
        let r = TOMLParser::parse_integer(ParserLine::new(s, 1));
        assert_eq!(r.map(|_| ()).map_err(|e| e.kind), Err(k), "{:?}", s);
    }
}

#[test]
fn error_float_kinds() {
    let cases = [
        (".5", ErrorKind::FloatLeadingPoint),
        ("5.", ErrorKind::FloatPointWithoutDigit),
        ("abc", ErrorKind::FloatFormat),
    ];
    for (s, k) in cases {
        let r = TOMLParser::parse_float(ParserLine::new(s, 1));
        assert_eq!(r.map(|_| ()).map_err(|e| e.kind), Err(k), "{:?}", s);
    }
}

#[test]
fn error_date_and_bool() {
    let r = TOMLParser::parse_date(ParserLine::new("1979-13-01", 1));
    assert_eq!(r.map(|_| ()).map_err(|e| e.kind), Err(ErrorKind::DateFormat));
    let r = TOMLParser::parse_bool(ParserLine::new("yes", 1));
    assert_eq!(r.map(|_| ()).map_err(|e| e.kind), Err(ErrorKind::BoolFormat));
    assert_kind("a = truth\n", ErrorKind::BoolFormat, 1);
}

#[test]
fn error_inline_tables() {
    assert_kind("a = { , }\n", ErrorKind::InlineTableMisplacedComma, 1);
    assert_kind("a = { b = 1\n", ErrorKind::InlineTableNewline, 1);
    assert_kind("a = { b = 1, }\n", ErrorKind::InlineTableTrailingComma, 1);
    assert_kind("a = { b = \"x\"", ErrorKind::InlineTableEndedEarly, 1);
}

#[test]
fn error_keys() {
    let (k, l, d) = kind_of("a = 1\na = 2\n");
    assert_eq!((k, l, d.as_str()), (ErrorKind::KeyAlreadyDefined, 2, "a"));
    let (k, l, d) = kind_of("a.b = 1\na.b = 2\n");
    assert_eq!((k, l, d.as_str()), (ErrorKind::KeyAlreadyDefined, 2, "a|b"));
    assert_kind("a..b = 1\n", ErrorKind::EmptyBareKey, 1);
    assert_kind("\"a\"", ErrorKind::KeyNotTerminated, 1);
    let (k, _, d) = kind_of("a$ = 1\n");
    assert_eq!((k, d.as_str()), (ErrorKind::InvalidBareKeyChar, "$"));
    assert_kind("= 1\n", ErrorKind::NoKey, 1);
}

#[test]
fn error_table_headers() {
    assert_kind("[a = 1\n", ErrorKind::TableHeaderUnclosed, 1);
    assert_kind("[a\n", ErrorKind::InvalidBareKeyChar, 1);
    let (k, l, d) = kind_of("[t]\n[t]\n");
    assert_eq!((k, l, d.as_str()), (ErrorKind::TableHeaderRedefined, 2, "t"));
    assert_kind("a = 1\n[a.b]\n", ErrorKind::TableHeaderNotTable, 2);
    assert_kind("a.b = 1\n[a]\n", ErrorKind::TableHeaderLastNotTable, 2);
    assert_kind("a.b.c = 1\n[a.b]\n", ErrorKind::TableHeaderRedefinesEntry, 2);
    assert_kind("[[a]\n", ErrorKind::ArrayOfTablesUnclosed, 1);
    assert_kind("a = 1\n[[a.b]]\n", ErrorKind::ArrayOfTablesParentNotArray, 2);
    assert_kind("[a]", ErrorKind::MissingLineEnd, 1);
}

#[test]
fn error_line_ends() {
    let (k, _, d) = kind_of("# bad \u{7}\n");
    assert_eq!((k, d.as_str()), (ErrorKind::InvalidCommentChar, "\u{7}"));
    let (k, _, d) = kind_of("a = 1 x\n");
    assert_eq!((k, d.as_str()), (ErrorKind::RogueCharacter, "x"));
    assert_kind("a =", ErrorKind::LineEndsWithSeparator, 1);
    assert_kind("a = { b =  , c = 1 }\n", ErrorKind::EmptyValueSegment, 1);
    assert_kind("a = [ \"x\"", ErrorKind::ArrayEndedEarly, 1);
    assert_kind("#", ErrorKind::EmptyComment, 1);
    let mut parser = TOMLParser::from_text("");
    let r = parser.parse_table_header(ParserLine::new("[a]\nx", 1));
    assert_eq!(r.map(|_| ()).map_err(|e| e.kind), Err(ErrorKind::EolNotReached));
}

#[test]
fn error_messages() {
    let m = |text: &str| parse(text).unwrap_err().message();
    assert_eq!(m("a = 1\na = 2\n"), "Line 2: Key `a` is already defined at this table level.");
    let e = TOMLParser::parse_integer(ParserLine::new("99999999999999999999", 4)).unwrap_err();
    assert_eq!(e.message(), "Line 4: Integer Parsing Error: Integer Overflow");
    assert_eq!(m("a = \"a\u{7}b\"\n"), "Err: Line 1: Invalid Unicode Character U+7");
    assert_eq!(
        m("[t]\na = 1\n[t]\n"),
        "Line 3: Table header `TPath { delimiter: \"\\0\", content: \"t\" }` is already defined."
    );
    assert_eq!(m("a = truth\n"), "Line 1: Boolean Parsing Error.");
    assert_eq!(m("a] = 1\n"), "Line 1: Equal sign must follow key in a key-value pair.");
}
