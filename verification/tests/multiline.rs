use tomlp::{parse, ErrorKind, TOMLType, ValFromTOMLKey};

#[test]
fn array_over_lines() {
    let p = parse("a = [\n  1,\n  2, # two\n\n]\nb = 3\n").unwrap();
    match p.retrieve("a", "\0") {
        Some(TOMLType::Array(items)) => {
            let v: Vec<i64> = items.iter().map(|t| t.i64().unwrap()).collect();
            assert_eq!(v, vec![1, 2]);
        }
        other => panic!("{:?}", other),
    }
    assert_eq!(p.retrieve("b", "\0").and_then(|v| v.i64()), Some(3));
}

#[test]
fn multi_string_over_lines() {
    let p = parse("s = \"\"\"\nRoses\\\n   are red\"\"\"\nn = 1\n").unwrap();
    assert!(matches!(p.retrieve("s", "\0"), Some(TOMLType::MultiStr(_))));
    assert_eq!(p.retrieve("s", "\0").and_then(|v| v.str()), Some("Rosesare red"));
    assert_eq!(p.retrieve("n", "\0").and_then(|v| v.i64()), Some(1));
}

#[test]
fn multi_string_keeps_line_feeds() {
    let p = parse("s = \"\"\"one\ntwo\"\"\"\n").unwrap();
    assert_eq!(p.retrieve("s", "\0").and_then(|v| v.str()), Some("one\ntwo"));
}

#[test]
fn multi_literal_string_over_lines() {
    let p = parse("s = '''\nC:\\dir\n  end'''\n").unwrap();
    assert!(matches!(p.retrieve("s", "\0"), Some(TOMLType::MultiLitStr(_))));
    assert_eq!(p.retrieve("s", "\0").and_then(|v| v.str()), Some("C:\\dir\n  end"));
}

#[test]
fn multi_literal_key_over_lines() {
    let p = parse("'''ke\ny''' = 1\n").unwrap();
    assert_eq!(p.retrieve("ke\ny", "\0").and_then(|v| v.i64()), Some(1));
}

#[test]
fn inline_table_holding_multi_string() {
    let p = parse("t = { a = \"\"\"x\ny\"\"\" }\nz = 2\n").unwrap();
    assert_eq!(p.retrieve("t", "\0").map(|v| matches!(v, TOMLType::InlineTable(_))), Some(true));
    assert_eq!(p.retrieve("z", "\0").and_then(|v| v.i64()), Some(2));
}

#[test]
fn unclosed_multi_string_reaches_end() {
    let e = parse("s = \"\"\"abc\ndef\n").unwrap_err();
    assert_eq!(e.kind, ErrorKind::EndOfFile);
    assert_eq!(e.line, 2);
}

#[test]
fn array_error_on_later_line() {
    let e = parse("a = [\n  1,\n  , 2\n]\n").unwrap_err();
    assert_eq!(e.kind, ErrorKind::ArrayMisplacedComma);
    assert_eq!(e.line, 3);
}

#[test]
fn multi_string_drops_exactly_the_delimiter() {
    let p = parse("a = \"\"\"e\\u0301\"\"\"\nb = '''x\"'''\nc = \"\"\"q\"\"\"\"\n").unwrap();
    assert_eq!(p.retrieve("a", "\0").and_then(|v| v.str()), Some("e\u{301}"));
    assert_eq!(p.retrieve("b", "\0").and_then(|v| v.str()), Some("x\""));
    assert_eq!(p.retrieve("c", "\0").and_then(|v| v.str()), Some("q\""));
}
