use tomlp::drafts::string_parse::{
    process_basic_str, process_literal_str, process_multi_escape_sequence, process_multi_string, utf8_escape, multi_string_from, split_lines,
    utf8_peek,
};

#[test]
fn test_process_multi_string() {
    let answer = "The quick brown fox jumps over the lazy dog.".to_string();
    let bad_string_input = "   \t\r  \n\t\r\n\n\n\nThe quick brown \\\t\nfox jumps over \\\nthe lazy dog.\\\n\t\n\"\"\"";
    let lines = bad_string_input
        .lines()
        .map(|x| x.to_string())
        .collect::<Vec<String>>();
    assert_eq!(None, process_multi_string(lines));

    let good_string_input = "\"\"\"\nThe quick brown \\\t\nfox jumps over \\\nthe lazy dog.\\\n\"\"\"";
    let lines = good_string_input
        .lines()
        .map(|x| x.to_string())
        .collect::<Vec<String>>();
    assert_eq!(Some(answer), process_multi_string(lines));

    let string_input = "\"\"\"\nRoses are red\nViolets are blue\"\"\"";
    let lines = string_input
        .lines()
        .map(|x| x.to_string())
        .collect::<Vec<String>>();
    assert_eq!(Some("Roses are red\nViolets are blue".to_string()), process_multi_string(lines));
}

#[test]
fn test_process_multi_escape_sequence() {
    let string = "   \t\r  \n\t\r\n\n\n\nThe quick brown \\\t\nfox jumps over \\\nthe lazy dog.\\\n\"\"\"";
    let lines = string
        .lines()
        .map(|x| x.to_string())
        .collect::<Vec<String>>();
    let currline_iter = utf8_peek(lines[0].as_str());
    assert_eq!(
        Some('T'),
        match process_multi_escape_sequence(currline_iter, &lines, 1) {
            Some((c, _currln_iter, _next)) => Some(c),
            None => None,
        }
    );
}

#[test]
fn test_utf8_escape() {
    let slice = "0AE8";
    let mut iter = utf8_peek(slice);
    match utf8_escape(&mut iter) {
        Some(seq) => assert_eq!('\u{0AE8}', seq),
        None => panic!("Incorrect processing."),
    }

    let bad_slice_0 = "4A3";
    let mut iter = utf8_peek(bad_slice_0);
    if let None = utf8_escape(&mut iter) {
    } else {
        panic!("Sequence Length Error");
    }

    let bad_slice_1 = "4A378";
    let mut iter = utf8_peek(bad_slice_1);
    if let None = utf8_escape(&mut iter) {
    } else {
        panic!("Sequence Length Error");
    }

    let good_slice = "0001F525";
    let mut iter = utf8_peek(good_slice);
    match utf8_escape(&mut iter) {
        Some(seq) => assert_eq!('\u{1F525}', seq),
        None => panic!("Incorrect processing: longer sequence."),
    }
}

#[test]
fn basic_and_literal_strings_from_text() {
    assert_eq!(
        Some("Basic \t \\ \u{1F525} \u{1F525} string.".to_string()),
        process_basic_str("  \t  \"Basic \\t \\\\ \\u0001F525 \\U0001F525 string.\"")
    );
    assert_eq!(
        Some("Literal \\t \\n \\u0001F525 string.".to_string()),
        process_literal_str("  \t  'Literal \\t \\n \\u0001F525 string.'")
    );
    assert_eq!(None, process_basic_str("no quote"));
    assert_eq!(None, process_basic_str("\"unterminated"));
    assert_eq!(None, process_basic_str("\"bad \\q escape\""));
    assert_eq!(None, process_literal_str("'unterminated"));
}

#[test]
fn surrogate_escape_is_refused() {
    let mut iter = utf8_peek("D800");
    assert_eq!(None, utf8_escape(&mut iter));
}

#[test]
fn multi_string_with_escaped_mark() {
    let lines = vec!["\"\"\"e\\u0301\"\"\"".to_string()];
    assert_eq!(process_multi_string(lines), Some("e\u{301}".to_string()));
}

#[test]
fn multi_string_from_split_lines() {
    let lines = vec!["\"\"\"".to_string(), "ab\\".to_string(), "   c\"\"\"".to_string()];
    let feeds: Vec<String> = lines.iter().map(|l| format!("{}\n", l)).collect();
    let g = split_lines(&feeds);
    assert_eq!(g.len(), 3);
    assert_eq!(multi_string_from(&g), Some("abc".to_string()));
    assert_eq!(process_multi_string(lines), Some("abc".to_string()));
}
