use tomlp::drafts::constants::{LITERAL_STR_TOKEN, STR_TOKEN};
use tomlp::drafts::parsetools::ParserLine;
use tomlp::drafts::tomlparse::{KeyVal, TOMLParser};
use tomlp::drafts::tomlparse::dates::try_naive_dtparse;
use tomlp::{TOMLTable, TOMLType, TomlError};

type TestReturn = Result<(), String>;

fn describe(e: TomlError) -> String {
    format!("Line {}: {:?} {}", e.line, e.kind, e.detail)
}

const BLANK: &str = "";

const SIMPLE: &str = "# A small file\n\
title = \"TOML Example\"\n\
\n\
[owner]\n\
name = \"Tom Preston-Werner\"\n\
dob = 1979-05-27T07:32:00-08:00\n\
\n\
[database]\n\
enabled = true\n\
ports = [ 8000, 8001, 8002 ]\n\
temp_targets = { cpu = 79, case = 72 }\n";

const SPEC_EXAMPLE: &str = "# This is a TOML document\n\
\n\
title = \"TOML Example\"\n\
\n\
[owner]\n\
name = \"Tom Preston-Werner\"\n\
\n\
[database]\n\
server = \"192.168.1.1\"\n\
connection_max = 5000\n\
\n\
[servers]\n\
\n\
[servers.alpha]\n\
ip = \"10.0.0.1\"\n\
role = \"frontend\"\n\
\n\
[servers.beta]\n\
ip = \"10.0.0.2\"\n\
role = \"backend\"\n\
\n\
[[products]]\n\
name = \"Hammer\"\n\
sku = 738594937\n\
\n\
[[products]]\n\
name = \"Nail\"\n\
sku = 284758393\n";

const RIPGREP: &str = "[package]\n\
name = \"ripgrep\"\n\
version = \"14.1.0\"\n\
authors = [\"Andrew Gallant <jamslam@gmail.com>\"]\n\
edition = \"2021\"\n\
\n\
[dependencies]\n\
bstr = \"1.7.0\"\n\
serde_json = \"1.0.23\"\n\
\n\
[dependencies.grep]\n\
version = \"0.3.1\"\n\
path = \"crates/grep\"\n\
\n\
[profile.release]\n\
debug = 1\n";

#[test]
fn test_parser() -> TestReturn {
    let files: [&str; 4] = [BLANK, SIMPLE, SPEC_EXAMPLE, RIPGREP];
    for text in files {
        let parser = TOMLParser::from_text(text);
        let table = parser.parse_toml().map_err(describe)?;
        println!("Parsed TOML:\n{:?}\n", table);
    }
    Ok(())
}

const TABLE_HEADS: &str = "[table]\n\
[table.sub]\n\
[\"quoted key\"]\n\
[ spaced . path ]\n\
[a.b.c]\n";

#[test]
fn parse_tableheads() -> TestReturn {
    let mut parser = TOMLParser::from_text(TABLE_HEADS);
    while let Ok(pline) = parser.next_parserline() {
        parser.parse_table_header(pline).map_err(describe)?;
    }
    let table: &TOMLTable = parser.view_table();
    println!("Table:\n{:?}", table);
    assert!(table.contains_key("table"));
    assert!(table.contains_key("quoted key"));
    assert!(table.contains_key("spaced"));
    assert!(table.contains_key("a"));
    Ok(())
}

const KEYVALS: &str = "key = \"value\"\n\
bare_key = \"value\"\n\
bare-key = \"value\"\n\
1234 = \"value\"\n\
\"127.0.0.1\" = \"value\"\n\
'quoted \"value\"' = \"value\"\n\
name = \"Orange\"\n\
physical.color = \"orange\"\n\
physical.shape = \"round\"\n\
site.\"google.com\" = true\n\
number = 42\n";

#[test]
fn test_insertion() -> TestReturn {
    let mut table = TOMLTable::new();
    let table_head = &mut table;
    let mut parser = TOMLParser::from_text(KEYVALS);
    while let Ok(pline) = parser.next_parserline() {
        let (key_val, _) = parser.parse_keyval(pline).map_err(describe)?;
        TOMLParser::insert(key_val, table_head).map_err(describe)?;
    }
    println!("Parsed Table: {:?}", table);
    assert_eq!(table.len(), 10);
    Ok(())
}

#[test]
fn key_vals() -> TestReturn {
    let mut parser = TOMLParser::from_text(KEYVALS);
    let mut successes = 0;
    while let Ok(pline) = parser.next_parserline() {
        let (KeyVal(key, val), _) = parser.parse_keyval(pline).map_err(describe)?;
        println!("Key: {key:?}\nVal: {val:?}\n");
        successes += 1;
    }
    assert!(successes != 0);
    Ok(())
}

const KEYS: &str = "key = 1\n\
bare_key = 1\n\
\"quoted\" = 1\n\
'literal' = 1\n\
a.b.c = 1\n\
fruit . color = 1\n\
site.\"google.com\" = 1\n";

#[test]
fn parse_keys() -> TestReturn {
    let mut parser = TOMLParser::from_text(KEYS);
    while let Ok(pline) = parser.next_parserline() {
        let (path, _) = parser.parse_key(pline).map_err(describe)?;
        println!("Parsed Key: {:?}", path);
    }
    Ok(())
}

const ARRAYS: &str = "[ 1, 2, 3 ]\n\
[ \"red\", \"yellow\", \"green\" ]\n\
[ [ 1, 2 ], [ 3, 4, 5 ] ]\n\
[ \"all\", 'strings', \"\"\"are the same\"\"\", '''type''' ]\n\
[ 1, 2, 5 ]\n\
[]\n";

#[test]
fn arrays() -> TestReturn {
    let mut parser = TOMLParser::from_text(ARRAYS);
    while let Ok(pline) = parser.next_parserline() {
        let (array, _) = parser.parse_array(pline).map_err(describe)?;
        println!("Array: {:?}", array);
    }
    Ok(())
}

const INLINE_TABLES: &str = "{ first = \"Tom\", last = \"Preston-Werner\" }\n\
{ x = 1, y = 2 }\n\
{ type.name = \"pug\" }\n\
{}\n";

#[test]
fn inline_tables() -> TestReturn {
    let mut parser = TOMLParser::from_text(INLINE_TABLES);
    while let Ok(pline) = parser.next_parserline() {
        let (table, _pline) = parser.parse_inline_table(pline).map_err(describe)?;
        println!("Parsed Inline Table: {:?}", table);
    }
    Ok(())
}

const VALUES: &str = "\"basic string\"\n\
'literal string'\n\
42\n\
-17\n\
+99\n\
0\n\
1_000\n\
0xDEADBEEF\n\
0o755\n\
0b11010110\n\
3.1415\n\
-0.01\n\
5e+22\n\
inf\n\
nan\n\
true\n\
false\n\
1979-05-27T07:32:00Z\n\
1979-05-27\n\
07:32:00\n\
[ 1, 2, 3 ]\n\
{ x = 1 }\n";

#[test]
fn atomic_values() -> TestReturn {
    const NUM_VALUES: i32 = 22; // total number of values in the text.
    let mut parser = TOMLParser::from_text(VALUES);
    let mut successes = 0;
    while let Ok(pline) = parser.next_parserline() {
        parser.parse_value(pline).map_err(describe)?;
        successes += 1;
    }
    assert_eq!(successes, NUM_VALUES);
    Ok(())
}

const BOOLS: &str = "true\nfalse\ntrue\nfalse\n";

#[test]
fn bools() -> TestReturn {
    let mut parser = TOMLParser::from_text(BOOLS);
    let mut test = false;
    // Invariant: `test == !parsed_value`
    while let Ok(pline) = parser.next_parserline() {
        let (boolean, _pline) = TOMLParser::parse_bool(pline).map_err(describe)?;
        if let TOMLType::Bool(val) = boolean {
            assert_eq!(val, !test);
            test = val;
        }
    }
    Ok(())
}

const NUMERICS: &str = "+99\n42\n0\n-17\n1_000\n0xdead_beef\n0o01234567\n0b11010110\n+1.0\n3.1415\n-0.01\n5e+22\n1e06\n-2E-2\n6.626e-34\n224_617.445_991_228\ninf\n-inf\nnan\n";

#[test]
fn numerics() -> TestReturn {
    let mut parser = TOMLParser::from_text(NUMERICS);
    while let Ok(pline) = parser.next_parserline() {
        TOMLParser::parse_numeric(pline).map_err(describe)?;
    }
    Ok(())
}

const DATES: &str = "1979-05-27T07:32:00Z\n\
1979-05-27T00:32:00-07:00\n\
1979-05-27T00:32:00.999999-07:00\n\
1979-05-27 07:32:00Z\n\
1979-05-27T07:32:00\n\
1979-05-27T00:32:00.999999\n\
1979-05-27\n\
07:32:00\n\
00:32:00.999999\n";

#[test]
fn datetime() -> TestReturn {
    let mut parser = TOMLParser::from_text(DATES);
    println!("\nDate Parsing:");
    while let Ok(pline) = parser.next_parserline() {
        let (date, _pline) = TOMLParser::parse_date(pline).map_err(describe)?;
        println!("{:?}", date);
    }
    Ok(())
}

const STRINGS: &str = "\"I'm a string. \\\"You can quote me\\\". Name\\tJos\\u00E9\\nLocation\\tSF.\"\n\
\"Fire: \\U0001F525\"\n\
\n\
\"\"\"\n\
Roses are red\n\
Violets are blue\"\"\"\n\
\"\"\"\n\
The quick brown \\\n\
\n\
\n\
  fox jumps over \\\n\
    the lazy dog.\"\"\"\n\
\n\
'C:\\Users\\nodejs\\templates'\n\
'Tom \"Dubs\" Preston-Werner'\n\
\n\
'''I [dw]on't need \\d{2} apples'''\n\
'''\n\
The first newline is\n\
trimmed in raw strings.\n\
'''\n\
end\n";

#[test]
fn strings() -> TestReturn {
    let mut parser = TOMLParser::from_text(STRINGS);
    let mut pline: ParserLine = parser.next_parserline().map_err(describe)?;
    let str_token = vec![STR_TOKEN];
    let lit_token = vec![LITERAL_STR_TOKEN];

    // Basic Strings
    println!("\nBasic Strings");
    while pline.peek().unwrap().peek() == Some(&str_token) {
        println!("\nLine {}: ", pline.line_num());
        let (outstring, context) = parser.parse_string(pline).map_err(describe)?;
        if let TOMLType::BasicStr(str) = outstring {
            let outstring = str;
            println!("Basic String\n{}", outstring);
        } else {
            return Err(format!("Line {}", context.line_num()));
        }
        pline = parser.next_parserline().map_err(describe)?;
    }

    // Multi-Strings
    println!("\nMulti-line Strings");
    pline = parser.next_parserline().map_err(describe)?;
    while pline.peek().unwrap().peek() == Some(&str_token) {
        println!("Line {}: ", pline.line_num());
        let (outstring, context) = parser.parse_string(pline).map_err(describe)?;
        if let TOMLType::MultiStr(str) = outstring {
            let outstring = str;
            println!("{}", outstring);
        } else {
            return Err(format!("Line {}", context.line_num()));
        }
        pline = parser.next_parserline().map_err(describe)?;
    }

    // Literal Strings
    println!("\nLiteral Strings");
    pline = parser.next_parserline().map_err(describe)?;
    while pline.peek().unwrap().peek() == Some(&lit_token) {
        println!("Line {}: ", pline.line_num());
        let (outstring, context) = parser.parse_literal_string(pline).map_err(describe)?;
        if let TOMLType::LitStr(str) = outstring {
            let outstring = str;
            println!("{}", outstring);
        } else {
            return Err(format!("Line {}", context.line_num()));
        }
        pline = parser.next_parserline().map_err(describe)?;
    }

    // Multi-Literal Strings
    println!("\nMulti-line Literal Strings");
    pline = parser.next_parserline().map_err(describe)?;
    while pline.peek().unwrap().peek() == Some(&lit_token) {
        println!("Line {}: ", pline.line_num());
        let (outstring, context) = parser.parse_literal_string(pline).map_err(describe)?;
        if let TOMLType::MultiLitStr(str) = outstring {
            let outstring = str;
            println!("{}", outstring);
        } else {
            return Err(format!("Line {}", context.line_num()));
        }
        pline = parser.next_parserline().map_err(describe)?;
    }

    Ok(())
}

#[test]
fn escape_sequences() -> TestReturn {
    let mut parser = TOMLParser::from_text(BLANK);

    let eof = "\n".to_string();
    let fire = "u0001f525".to_string();
    let next_nonws = "    \n\n\nt".to_string();

    assert_eq!(
        '🔥',
        parser
            .parse_multi_escape_sequence(ParserLine::new(&fire, 0))
            .map_err(describe)?
            .0
    );
    assert_eq!(
        't',
        parser
            .parse_multi_escape_sequence(ParserLine::new(&next_nonws, 0))
            .map_err(describe)?
            .0
    );
    assert_eq!(
        true,
        parser
            .parse_multi_escape_sequence(ParserLine::new(&eof, 0))
            .is_err()
    );
    Ok(())
}

#[test]
fn test_date_parse() {
    let test_bank: [&str; 10] = [
        "1979-05-27T00:32:00.999999-07:00",
        "1979-05-27T07:32:00Z",
        "1979-05-27T00:32:00-07:00",
        "1979-05-27T00:32:00.999999",
        "1979-05-27T00:32:00",
        "1979-05-27 00:32:00.999999",
        "1979-05-27 00:32:01",
        "1979-05-27",
        "07:32:00",
        "00:32:00.999999",
    ];
    let mut kinds = Vec::new();
    for datetime in test_bank {
        let parsed = try_naive_dtparse(datetime);
        println!("Parsed Output: {:?}", parsed);
        kinds.push(match parsed {
            Some(TOMLType::TimeStamp(_)) => "stamp",
            Some(TOMLType::NaiveDateTime(_)) => "local",
            Some(TOMLType::Date(_)) => "date",
            Some(TOMLType::Time(_)) => "time",
            _ => "none",
        });
    }
    assert_eq!(
        kinds,
        vec!["stamp", "stamp", "stamp", "local", "local", "local", "local", "date", "time", "time"]
    );
}
