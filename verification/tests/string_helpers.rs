use tomlp::drafts::string_parse::{is_hexdigit, is_whitespace};

#[test]
fn test_is_whitespace() {
    assert_eq!(false, is_whitespace(None));
    assert_eq!(false, is_whitespace(Some(&"")));
    assert_eq!(false, is_whitespace(Some(&"t")));

    assert_eq!(true, is_whitespace(Some(&" ")));
    assert_eq!(true, is_whitespace(Some(&"\t")));
}

#[test]
fn string_parse_test_is_hexdigit() {
    assert_eq!(false, is_hexdigit(Some(&"")));
    assert_eq!(false, is_hexdigit(Some(&"T")));
    assert_eq!(false, is_hexdigit(Some(&"J")));
    assert_eq!(false, is_hexdigit(None));

    for i in 0..10 {
        let s = i.to_string();
        assert_eq!(true, is_hexdigit(Some(&s.as_str())));
    }

    for i in 'a'..'g' {
        let s = i.to_string();
        assert_eq!(true, is_hexdigit(Some(&s.as_str())));
    }

    for i in 'A'..'G' {
        let s = i.to_string();
        assert_eq!(true, is_hexdigit(Some(&s.as_str())));
    }
}
