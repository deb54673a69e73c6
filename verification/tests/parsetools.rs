use tomlp::drafts::parsetooling::ParserLine as Line;
use tomlp::drafts::parsetools::{ParserLine, TPath};

#[test]
fn tpath_instantiation() {
    let x = vec!["", "home", "tj", "documents"];
    let x: Vec<String> = x.iter().map(|x| x.to_string()).collect();

    assert!(TPath::new(x, "\0").is_some());
    assert_eq!(TPath::new(vec![], "/"), None);
}

#[test]
fn tpath_eq() {
    let x = vec!["", "home", "tj", "documents"];
    let x: Vec<String> = x.iter().map(|x| x.to_string()).collect();
    let path = TPath::new(x.clone(), "\0");

    assert_eq!(path, path);
    assert_eq!(path, TPath::new(x.clone(), "\0"));
    assert_ne!(path, TPath::new(x.clone(), "/"));
}

#[test]
fn test_continuity() {
    let mut pline = ParserLine::new("This is a test", 0);
    let seg = pline.next_seg();
    println!("\n{:?}", seg.is_some());
    let mut seg = seg.unwrap();
    assert_eq!(Some(vec!['T']), seg.next());
    assert_eq!(Some(&vec!['h']), seg.peek());
    let count = seg.count();

    pline = ParserLine::freeze(pline, count);
    seg = pline.next_seg().unwrap();
    assert_eq!(vec!['h'], seg.next().unwrap());
}

#[test]
fn test_blank_pline() {
    let mut blank = ParserLine::new("", 0);
    assert_eq!(blank.next_seg().is_none(), true);
}

#[test]
fn tpath_keys_and_ends() {
    let x: Vec<String> = vec!["a".to_string(), "b".to_string(), "c".to_string()];
    let path = TPath::new(x, "\0").unwrap();
    assert_eq!(path.first(), "a");
    assert_eq!(path.last(), "c");
    assert_eq!(path.segments(), vec!["a".to_string(), "b".to_string(), "c".to_string()]);
    assert_eq!(path.as_string(), "a\0b\0c");
}

#[test]
fn segments_split_at_separators() {
    // `key = value # comment` splits as |key |=| value |# comment|
    let mut pline = ParserLine::new("key = value # comment\n", 3);
    assert_eq!(pline.line_num(), 3);
    let mut texts: Vec<String> = Vec::new();
    while let Some(seg) = pline.next_seg() {
        let s: String = seg.content().iter().collect();
        texts.push(s);
    }
    assert_eq!(texts, vec!["key ", "=", " value ", "# comment\n"]);
    assert!(pline.is_exhausted());
}

#[test]
fn replacement_is_empty() {
    let mut r = ParserLine::replacement();
    assert!(r.is_exhausted());
    assert!(r.next_seg().is_none());
    assert_eq!(r.line_num(), 0);
}

#[test]
fn try_new_refuses_dangling_separator() {
    assert!(ParserLine::try_new("a =", 1).is_none());
    assert!(ParserLine::try_new("1,", 1).is_none());
    let p = ParserLine::try_new("a = 1", 4).unwrap();
    assert_eq!(p.line_num(), 4);
    assert!(ParserLine::try_new("", 0).is_some());
}

#[test]
fn law_segments_concatenate_to_line() {
    let text = "a.b = { c = 1, d = 'x' } # note";
    let mut pline = ParserLine::new(text, 0);
    let mut all = String::new();
    while let Some(seg) = pline.next_seg() {
        let s: String = seg.content().iter().collect();
        assert!(!s.is_empty());
        all.push_str(&s);
    }
    assert_eq!(all, text);
}

#[test]
fn law_freeze_resumes_where_stopped() {
    let mut pline = ParserLine::new("abc = 1", 0);
    let mut seg = pline.next_seg().unwrap();
    seg.next();
    let left = seg.count();
    let mut frozen = ParserLine::freeze(pline, left);
    let again = frozen.next_seg().unwrap();
    let s: String = again.rest_graphemes().iter().flatten().collect();
    assert_eq!(s, "bc ");
    let next = frozen.next_seg().unwrap();
    let s: String = next.content().iter().collect();
    assert_eq!(s, "=");
}

#[test]
fn law_freeze_twice_is_freeze_once() {
    let mut pline = ParserLine::new("abcd = 1", 5);
    pline.next_seg();
    let twice = ParserLine::freeze(ParserLine::freeze(pline.duplicate(), 1), 3);
    let mut once = ParserLine::freeze(pline, 3);
    let mut twice = twice;
    assert_eq!(twice.line_num(), 5);
    assert!(!twice.is_exhausted());
    let a: String = twice.next_seg().unwrap().rest_graphemes().iter().flatten().collect();
    let b: String = once.next_seg().unwrap().rest_graphemes().iter().flatten().collect();
    assert_eq!(a, b);
    assert_eq!(a, "cd ");
}

#[test]
fn law_path_keys_of_joined_keys() {
    let keys: Vec<String> = vec!["x".to_string(), "".to_string(), "y z".to_string()];
    let path = TPath::new(keys.clone(), "\0").unwrap();
    assert_eq!(path.segments(), keys);
    assert_eq!(path.as_string(), "x\0\0y z");
}

#[test]
fn law_continuation_twice_is_continuation_once() {
    let mut pline = Line::new("abcd = 1".to_string(), 2);
    pline.next_seg();
    let mut once = Line::continuation(Line::continuation(Line::replacement(), 0), 0);
    assert!(once.is_exhausted());
    let twice = Line::continuation(Line::continuation(pline, 4), 2);
    assert_eq!(twice.line_num(), 2);
    assert!(!twice.is_exhausted());
    let mut twice = twice;
    let s: String = twice.next_seg().unwrap().rest_graphemes().iter().flatten().collect();
    assert_eq!(s, "d ");
    assert!(once.next_seg().is_none());
}
