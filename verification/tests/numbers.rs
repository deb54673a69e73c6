use tomlp::drafts::parsetools::ParserLine;
use tomlp::drafts::tomlparse::TOMLParser;
use tomlp::TOMLType;

type TestReturn = Result<(), String>;

fn describe(e: tomlp::TomlError) -> String {
    format!("Line {}: {:?} {}", e.line, e.kind, e.detail)
}

#[test]
fn floats() -> TestReturn {
    test_float()?;
    nan_test()?;
    invalid_format()
}

fn test_float() -> TestReturn {
    const FLOAT_STRS: [&str; 13] = [
        "224_627.445_991_228",
        "-0.0",
        "+0.0",
        "inf",
        "+inf",
        "-inf",
        "+1.0",
        "3.1415",
        "-0.01",
        "5e+22",
        "1e06",
        "-2E-2",
        "6.626e-34",
    ];
    const FLOATS: [f64; 13] = [
        224627.445991228,
        -0.0,
        0.0,
        f64::INFINITY,
        f64::INFINITY,
        f64::NEG_INFINITY,
        1.0,
        3.1415,
        -0.01,
        5e22,
        1e6,
        -2e-2,
        6.626e-34,
    ];

    let mut i = 0;
    for s in FLOAT_STRS {
        let pline = ParserLine::new(s, i);
        let result = TOMLParser::parse_float(pline).map_err(describe)?.0;
        match result {
            TOMLType::Float(val) => assert_eq!(FLOATS[i], val.parse::<f64>().unwrap()),
            _ => return Err(String::from("Will never reach here.")),
        }
        i += 1;
    }
    Ok(())
}

fn nan_test() -> TestReturn {
    const NAN_STRS: [&str; 3] = ["nan", "+nan", "-nan"];
    for s in NAN_STRS {
        let pline = ParserLine::new(s, 0);
        let result = TOMLParser::parse_float(pline).map_err(describe)?.0;
        match result {
            TOMLType::Float(val) => assert_eq!(true, val.parse::<f64>().unwrap().is_nan()),
            _ => return Err(String::from("Will never reach here.")),
        }
    }
    Ok(())
}

fn invalid_format() -> TestReturn {
    const BAD_F64: [&str; 3] = [".12", "3.e+20", "12."];
    for s in BAD_F64 {
        let pline = ParserLine::new(s, 0);
        let result = TOMLParser::parse_float(pline);
        match result {
            Err(_msg) => {}
            _ => return Err(String::from("Failed to catch invalid format.")),
        }
    }

    Ok(())
}

#[test]
fn ints() -> TestReturn {
    hundred_twenty_three()?;
    negatives()
}

fn hundred_twenty_three() -> TestReturn {
    const HUNDRED_TWENTY_THREES: [&str; 9] = [
        " 123\n",
        "1_2_3",
        "12_3",
        "0x7b",
        "\t0x0007B",
        "0x07_b",
        "0o173",
        "0b01111011",
        "0b111_1011",
    ];
    for form in &HUNDRED_TWENTY_THREES {
        let pline = ParserLine::new(form, 0);
        let parsed_val = TOMLParser::parse_integer(pline).map_err(describe)?.0;
        match parsed_val {
            TOMLType::Int(val) => assert_eq!(123, val),
            _ => return Err("Should never happen.".to_string()),
        }
    }
    Ok(())
}

fn negatives() -> TestReturn {
    const SIZE: usize = 5;
    const NEGATIVES: [&str; SIZE] = ["-0", "-123", "-27", "-3567", "-562"];
    const NEGATIVE_INTS: [i64; SIZE] = [0, -123, -27, -3567, -562];

    let mut i = 0;
    for s in &NEGATIVES {
        let pline = ParserLine::new(s, i);
        let parsed_val = TOMLParser::parse_integer(pline).map_err(describe)?.0;
        match parsed_val {
            TOMLType::Int(val) => assert_eq!(NEGATIVE_INTS[i], val),
            _ => return Err("Should never happen.".to_string()),
        }
        i += 1;
    }
    Ok(())
}

#[test]
fn integer_range_edges() {
    let max = TOMLParser::parse_integer(ParserLine::new("9223372036854775807", 0)).map(|r| r.0);
    assert!(matches!(max, Ok(TOMLType::Int(i64::MAX))));
    let hex_max = TOMLParser::parse_integer(ParserLine::new("0x7fff_ffff_ffff_ffff", 0)).map(|r| r.0);
    assert!(matches!(hex_max, Ok(TOMLType::Int(i64::MAX))));
    let over = [
        "9223372036854775808",
        "23980767295822410340",
        "-9223372036854775808",
        "0x8000000000000000",
        "0x1_0000_0000_0000_0000",
        "0o1000000000000000000000",
    ];
    for s in over {
        let r = TOMLParser::parse_integer(ParserLine::new(s, 0));
        assert_eq!(r.map(|_| ()).map_err(|e| e.kind), Err(tomlp::ErrorKind::IntegerOverflow), "{:?}", s);
    }
}

#[test]
fn law_digits_value_examples() {
    let cases = [("1_000", 1000i64), ("0xff", 255), ("0o7_7", 63), ("0b1_0_1", 5), ("-9_9", -99)];
    for (s, v) in cases {
        let r = TOMLParser::parse_integer(ParserLine::new(s, 0)).map(|r| r.0);
        assert!(matches!(r, Ok(TOMLType::Int(x)) if x == v), "{:?}", s);
    }
}
