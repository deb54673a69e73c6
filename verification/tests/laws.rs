use tomlp::drafts::tomlparse::dates::{date_to_text, time_to_text};
use tomlp::tomltypes::{Date, Time};
use tomlp::drafts::parsetools::TPath;
use tomlp::drafts::tomlparse::{KeyVal, TOMLParser};
use tomlp::drafts::tomlparse::invalid_chars::get_graphemes;
use tomlp::{parse, ErrorKind, TOMLTable, TOMLType, ValFromTOMLKey};

fn int_at(p: &tomlp::ParsedTOML, key: &str) -> Option<i64> {
    p.retrieve(key, "\0").and_then(|v| v.i64())
}

#[test]
fn law_parse_then_retrieve() {
    let p = parse("[a]\nb = 1\n").unwrap();
    assert_eq!(int_at(&p, "a\0b"), Some(1));
    let path = TPath::new(vec!["a".to_string(), "b".to_string()], "\0").unwrap();
    assert_eq!(p.get(&path).and_then(|v| v.i64()), Some(1));
    assert!(p.retrieve("a\0c", "\0").is_none());
}

#[test]
fn law_dotted_key_then_retrieve() {
    let p = parse("x.y.z = \"deep\"\n").unwrap();
    assert_eq!(p.retrieve("x\0y\0z", "\0").and_then(|v| v.str()), Some("deep"));
}

#[test]
fn law_insert_then_lookup() {
    let mut table = TOMLTable::new();
    let path = TPath::new(vec!["k".to_string(), "v".to_string()], "\0").unwrap();
    TOMLParser::insert(KeyVal(path, TOMLType::Int(7)), &mut table).unwrap();
    assert_eq!(table.retrieve("k\0v", "\0").and_then(|v| v.i64()), Some(7));
}

#[test]
fn law_insert_frame() {
    let mut table = TOMLTable::new();
    let a = TPath::new(vec!["a".to_string()], "\0").unwrap();
    let b = TPath::new(vec!["b".to_string()], "\0").unwrap();
    TOMLParser::insert(KeyVal(a, TOMLType::Int(1)), &mut table).unwrap();
    TOMLParser::insert(KeyVal(b, TOMLType::Bool(true)), &mut table).unwrap();
    assert_eq!(table.get("a").and_then(|v| v.i64()), Some(1));
    assert!(matches!(table.get("b"), Some(TOMLType::Bool(true))));
    assert_eq!(table.len(), 2);
}

#[test]
fn law_insert_twice_refused() {
    let mut table = TOMLTable::new();
    let a = TPath::new(vec!["a".to_string()], "\0").unwrap();
    TOMLParser::insert(KeyVal(a.duplicate(), TOMLType::Int(1)), &mut table).unwrap();
    let e = TOMLParser::insert(KeyVal(a, TOMLType::Int(2)), &mut table).unwrap_err();
    assert_eq!(e.kind, ErrorKind::KeyAlreadyDefined);
    assert_eq!(table.get("a").and_then(|v| v.i64()), Some(1));
}

#[test]
fn law_header_selects_table() {
    let p = parse("[x.y]\nk = 'v'\n[z]\nk = 2\n").unwrap();
    assert_eq!(p.retrieve("x\0y\0k", "\0").and_then(|v| v.str()), Some("v"));
    assert_eq!(int_at(&p, "z\0k"), Some(2));
}

#[test]
fn law_aot_appends_table() {
    let p = parse("[[p]]\nn = 1\n[[p]]\nn = 2\n").unwrap();
    match p.retrieve("p", "\0") {
        Some(TOMLType::AoT(ts)) => {
            assert_eq!(ts.len(), 2);
            assert_eq!(ts[0].get("n").and_then(|v| v.i64()), Some(1));
            assert_eq!(ts[1].get("n").and_then(|v| v.i64()), Some(2));
        }
        other => panic!("{:?}", other),
    }
}

#[test]
fn law_header_defined_once() {
    let e = parse("[t]\na = 1\n[t]\n").unwrap_err();
    assert_eq!(e.kind, ErrorKind::TableHeaderRedefined);
    assert_eq!(e.line, 3);
}

#[test]
fn law_empty_text_empty_table() {
    let p = parse("").unwrap();
    assert!(p.view_table().is_empty());
    assert_eq!(p.tree(), "/");
    let p = parse("# only a comment\n\n   \n").unwrap();
    assert!(p.view_table().is_empty());
}

#[test]
fn scenario_readme_tree() {
    let text = "# test.toml\n           # this is a valid comment.\n[package]\nname = \"tomlp\"\nversion = \"0.1.0\"\nedition = \"2021\"\n\n[dependencies]\nunicode-segmentation = \"~1.11.0\"\nchrono = \"0.4.38\"\n\n[lib]\nname = \"tomlp\"\npath = \"src/lib.rs\"\n\n[[bin]]\nname = \"prototype\"\n    path = \"src/bin.rs\"\n\n\n[[bin]]\nname = 123\n    path = \"src/bin.rs\"\n";
    let p = parse(text).unwrap();
    let expected = [
        "/",
        "├── package",
        "│   ├── name",
        "│   │   └── tomlp",
        "│   ├── version",
        "│   │   └── 0.1.0",
        "│   └── edition",
        "│       └── 2021",
        "├── dependencies",
        "│   ├── unicode-segmentation",
        "│   │   └── ~1.11.0",
        "│   └── chrono",
        "│       └── 0.4.38",
        "├── lib",
        "│   ├── name",
        "│   │   └── tomlp",
        "│   └── path",
        "│       └── src/lib.rs",
        "└── bin (Arr_of_Tbls)",
        "    ├── name",
        "    │   └── prototype",
        "    └── path",
        "        └── src/bin.rs",
        "    ├── name",
        "    │   └── 123",
        "    └── path",
        "        └── src/bin.rs",
    ]
    .join("\n");
    assert_eq!(p.tree(), expected);
    assert_eq!(p.retrieve("package\0name", "\0").and_then(|v| v.str()), Some("tomlp"));
    match p.retrieve("bin", "\0") {
        Some(TOMLType::AoT(ts)) => {
            assert_eq!(ts.len(), 2);
            assert_eq!(ts[1].get("name").and_then(|v| v.i64()), Some(123));
        }
        other => panic!("{:?}", other),
    }
}

#[test]
fn scenario_tree_one_pair() {
    let p = parse("a = 1\n").unwrap();
    assert_eq!(p.tree(), "/\n└── a\n    └── 1");
}

#[test]
fn scenario_tree_empty_subtable_and_labels() {
    let p = parse("[a]\n[b]\nx = 1\n").unwrap();
    assert_eq!(p.tree(), "/\n├── a\n└── b\n    └── x\n        └── 1");
    let p = parse("a = [ 1, 2 ]\nb = { c = 1 }\nm = \"\"\"x\ny\"\"\"\n").unwrap();
    assert_eq!(
        p.tree(),
        "/\n├── a\n│   └── ARRAY\n├── b\n│   └── c\n│       └── 1\n└── m\n    └── MULTI-LINE STRING"
    );
}

#[test]
fn wrapper_graphemes_split_clusters() {
    let g = get_graphemes("e\u{301}x\r\n");
    assert_eq!(g, vec![vec!['e', '\u{301}'], vec!['x'], vec!['\r', '\n']]);
}

#[test]
fn wrapper_unicode_escape_builds_char() {
    let p = parse("a = \"\\u00e9\\U0001F525\"\n").unwrap();
    assert_eq!(p.retrieve("a", "\0").and_then(|v| v.str()), Some("é🔥"));
}

#[test]
fn wrapper_dates_in_tree() {
    let p = parse("d = 1979-05-27\nt = 07:32:00.5\nl = 1979-05-27T07:32:00\no = 1979-05-27T07:32:00-08:00\n").unwrap();
    let tree = p.tree();
    println!("{}", tree);
    assert!(matches!(p.retrieve("d", "\0"), Some(TOMLType::Date(_))));
    assert!(tree.contains("└── 1979-05-27\n"));
    // `%f` reads the digits as a count of nanoseconds.
    assert!(tree.contains("└── 07:32:00.000000005\n"));
    assert!(tree.contains("└── 1979-05-27 07:32:00\n"));
    assert!(tree.ends_with("└── 1979-05-27 07:32:00 -08:00"));
}

#[test]
fn law_parse_pair_then_lookup_over_lines() {
    let p = parse("x.y = [\n  1,\n  2\n]\n").unwrap();
    match p.retrieve("x\0y", "\0") {
        Some(TOMLType::Array(items)) => assert_eq!(items.len(), 2),
        other => panic!("{:?}", other),
    }
}

#[test]
fn wrapper_date_text_of_fields() {
    assert_eq!(date_to_text(Date { year: 1979, month: 5, day: 27 }), "1979-05-27");
    assert_eq!(date_to_text(Date { year: 1979, month: 13, day: 1 }), "");
    assert_eq!(time_to_text(Time { hour: 7, minute: 32, second: 0, nanosecond: 0 }), "07:32:00");
    assert_eq!(time_to_text(Time { hour: 25, minute: 0, second: 0, nanosecond: 0 }), "");
    assert_eq!(date_to_text(Date { year: -1, month: 1, day: 1 }), "-0001-01-01");
    assert_eq!(date_to_text(Date { year: 10000, month: 12, day: 31 }), "+10000-12-31");
    assert_eq!(date_to_text(Date { year: 2023, month: 2, day: 29 }), "");
    assert_eq!(date_to_text(Date { year: 2000, month: 2, day: 29 }), "2000-02-29");
    assert_eq!(date_to_text(Date { year: 1900, month: 2, day: 29 }), "");
    assert_eq!(time_to_text(Time { hour: 6, minute: 59, second: 59, nanosecond: 1_500_000_000 }), "06:59:60.500");
    assert_eq!(time_to_text(Time { hour: 23, minute: 56, second: 4, nanosecond: 123_456 }), "23:56:04.000123456");
    assert_eq!(time_to_text(Time { hour: 23, minute: 56, second: 4, nanosecond: 1_234_000 }), "23:56:04.001234");
    assert_eq!(time_to_text(Time { hour: 1, minute: 2, second: 3, nanosecond: 1_000_000_000 }), "");
}

#[test]
fn law_bare_key_parts_join_to_text() {
    let mut parser = TOMLParser::from_text("a . b-c\t.d_1 = 1\n");
    let pline = parser.next_parserline().unwrap();
    let (path, _) = parser.parse_key(pline).unwrap();
    let parts = path.segments();
    assert_eq!(parts, vec!["a".to_string(), "b-c".to_string(), "d_1".to_string()]);
    assert_eq!(parts.join("."), "a.b-c.d_1");
}
