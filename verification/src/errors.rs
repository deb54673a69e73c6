//! What went wrong during parsing.
use vstd::prelude::*;
use crate::text::{nat_text, push_nat_text, chars_of, string_from_chars, char_from_u32};

verus! {

/// The kinds of parse failures.
#[derive(Clone, Copy, Debug, PartialEq, Eq, Structural)]
pub enum ErrorKind {
    /// The file ended while a value was being parsed.
    EndOfFile,
    /// A key was not followed by `=` in a key-value pair.
    MissingEquals,
    /// A comma appeared where a value was expected in an array.
    ArrayMisplacedComma,
    /// A basic string does not close on its line.
    UnterminatedBasicString,
    /// A backslash in a basic string begins no valid escape sequence.
    InvalidStringEscape,
    /// A string holds a character that TOML forbids there (the character).
    InvalidStringChar,
    /// A `\u`/`\U` escape is not 4 or 8 hexadecimal digits of a scalar value.
    InvalidUnicodeEscape,
    /// A grapheme after `\u` begins with a hexadecimal digit but holds more
    /// than one character, so it cannot be read as a digit.
    HexDigitCluster,
    /// A backslash in a multi-line string begins no valid escape sequence.
    InvalidEscape,
    /// A literal string does not close on its line.
    UnterminatedLiteralString,
    /// A literal string holds a forbidden character (the character).
    InvalidLiteralStringChar,
    /// The value is neither an integer, a float nor a date.
    NotNumeric,
    /// A sign before a `0x`, `0o` or `0b` prefix.
    IntegerSignedPrefix,
    /// A decimal integer with a leading zero.
    IntegerLeadingZero,
    /// An integer begins with this grapheme (the grapheme).
    IntegerBadStart,
    /// Nothing follows the sign of an integer, or no digit follows a `0x`,
    /// `0o` or `0b` prefix.
    IntegerFormat,
    /// An underscore ends an integer.
    IntegerTrailingUnderscore,
    /// The integer does not fit in 64 bits.
    IntegerOverflow,
    /// Two underscores in a row in an integer.
    IntegerDoubleUnderscore,
    /// A grapheme that is no digit of the integer's base (the grapheme).
    IntegerBadDigit,
    /// A float begins with `.`.
    FloatLeadingPoint,
    /// A decimal point in a float is not followed by a digit.
    FloatPointWithoutDigit,
    /// The text is not a float.
    FloatFormat,
    /// The text is not a date or time.
    DateFormat,
    /// The text is not `true` or `false`.
    BoolFormat,
    /// A comma appeared where a key-value pair was expected in an inline table.
    InlineTableMisplacedComma,
    /// A line break inside an inline table.
    InlineTableNewline,
    /// A comma before the closing brace of an inline table.
    InlineTableTrailingComma,
    /// A key is defined twice; the keys up to it, joined by `|`.
    KeyAlreadyDefined,
    /// A part of a dotted bare key is empty.
    EmptyBareKey,
    /// A quoted key is followed by neither `=` nor `]`.
    KeyNotTerminated,
    /// A grapheme that may not appear in a bare key (the grapheme).
    InvalidBareKeyChar,
    /// No key was found.
    NoKey,
    /// A table header is not closed by `]`.
    TableHeaderUnclosed,
    /// A table header names a table that a header already defined (the path).
    TableHeaderRedefined,
    /// A part of a dotted table header names a value that is no table.
    TableHeaderNotTable,
    /// A table header names a table defined otherwise than by a header.
    TableHeaderRedefinesEntry,
    /// The last part of a table header names a value that is no header table.
    TableHeaderLastNotTable,
    /// An array-of-tables header is not closed by `]]`.
    ArrayOfTablesUnclosed,
    /// A part of an array-of-tables header names a value that is no array of tables.
    ArrayOfTablesParentNotArray,
    /// A comment holds a forbidden character (the grapheme).
    InvalidCommentChar,
    /// A non-whitespace grapheme after the end of a statement.
    RogueCharacter,
    /// A line ends with `=` or `,`, which leaves the segment after it empty.
    LineEndsWithSeparator,
    /// The segment where a value should start holds only spaces and tabs.
    EmptyValueSegment,
    /// The line ended right after a value inside an array.
    ArrayEndedEarly,
    /// The line ended right after a key-value pair inside an inline table.
    InlineTableEndedEarly,
    /// A comment sign ends the line, with nothing after it.
    EmptyComment,
    /// A table header ends the line, with no line feed after it.
    MissingLineEnd,
    /// Something follows a line break on the same line.
    EolNotReached,
}

/// A parse failure: the line it happened on, its kind, and the text it
/// concerns (the offending grapheme, character or key), empty when the kind
/// needs none.
#[derive(Debug)]
pub struct TomlError {
    pub line: usize,
    pub kind: ErrorKind,
    pub detail: String,
}

impl TomlError {
    /// A failure that concerns no particular text.
    pub fn plain(line: usize, kind: ErrorKind) -> (r: Self)
        ensures
            r.line == line,
            r.kind == kind,
            r.detail@ == Seq::<char>::empty(),
    {
        TomlError { line, kind, detail: String::new() }
    }
}

/// An upper-case hexadecimal digit.
pub open spec fn hex_digit_upper(n: nat) -> char {
    if n < 10 {
        (n + 48) as char
    } else {
        (n + 55) as char
    }
}

/// A number in upper-case hexadecimal, without leading zeros.
pub open spec fn hex_text(n: nat) -> Seq<char>
    decreases n,
{
    if n < 16 {
        seq![hex_digit_upper(n)]
    } else {
        hex_text(n / 16) + seq![hex_digit_upper(n % 16)]
    }
}

/// The code point of the first character of `d`, in hexadecimal.
pub open spec fn code_hex(d: Seq<char>) -> Seq<char> {
    if d.len() > 0 {
        hex_text((d[0] as u32) as nat)
    } else {
        Seq::empty()
    }
}

/// How a character is written inside a quoted text: the null character,
/// quotes, backslashes, line feeds, tabs and carriage returns escaped.
pub open spec fn debug_char(c: char) -> Seq<char> {
    if c == '\0' {
        seq!['\\', '0']
    } else if c == '"' {
        seq!['\\', '"']
    } else if c == '\\' {
        seq!['\\', '\\']
    } else if c == '\n' {
        seq!['\\', 'n']
    } else if c == '\t' {
        seq!['\\', 't']
    } else if c == '\r' {
        seq!['\\', 'r']
    } else {
        seq![c]
    }
}

/// A text with each character written as inside a quoted text.
pub open spec fn debug_text(s: Seq<char>) -> Seq<char>
    decreases s.len(),
{
    if s.len() == 0 {
        Seq::empty()
    } else {
        debug_text(s.drop_last()) + debug_char(s.last())
    }
}

/// The message that reports a failure of the given kind on line `line`,
/// concerning the text `d`.
pub open spec fn message_text(line: nat, kind: ErrorKind, d: Seq<char>) -> Seq<char> {
    let l = nat_text(line);
    match kind {
        ErrorKind::EndOfFile => ""@ + "Line "@ + l + ": "@ + "End of File during parsing operation."@ + ""@ + ""@,
        ErrorKind::MissingEquals => ""@ + "Line "@ + l + ": "@ + "Equal sign must follow key in a key-value pair."@ + ""@ + ""@,
        ErrorKind::ArrayMisplacedComma => ""@ + "Line "@ + l + ": "@ + "Array Parsing Error: The Value Separator (comma) must immediately follow a value."@ + ""@ + ""@,
        ErrorKind::UnterminatedBasicString => "Err: "@ + "Line "@ + l + ": "@ + "Non-terminating basic string."@ + ""@ + ""@,
        ErrorKind::InvalidStringEscape => "Err: "@ + "Line "@ + l + ": "@ + "Invalid String Escape Sequence"@ + ""@ + ""@,
        ErrorKind::InvalidStringChar => "Err: "@ + "Line "@ + l + ": "@ + "Invalid Unicode Character U+"@ + code_hex(d) + ""@,
        ErrorKind::InvalidUnicodeEscape => "Err: "@ + "Line "@ + l + ": "@ + "Invalid UTF8 escape sequence. Format: \\uXXXX or \\uXXXXXXXX"@ + ""@ + ""@,
        ErrorKind::InvalidEscape => "Error: "@ + "Line "@ + l + ": "@ + "Invalid escape sequence."@ + ""@ + ""@,
        ErrorKind::UnterminatedLiteralString => "Err: "@ + "Line "@ + l + ": "@ + "Non-terminating literal string."@ + ""@ + ""@,
        ErrorKind::InvalidLiteralStringChar => "Err: "@ + "Line "@ + l + ": "@ + "Invalid Unicode Character U+"@ + code_hex(d) + " in literal string."@,
        ErrorKind::NotNumeric => ""@ + "Line "@ + l + ": "@ + "Could not parse numeric type. Tried integer, float, and date parsing."@ + ""@ + ""@,
        ErrorKind::IntegerSignedPrefix => ""@ + "Line "@ + l + ": "@ + "Integer Parsing Error: Invalid Prefix. Write '0[box]'"@ + ""@ + ""@,
        ErrorKind::IntegerLeadingZero => ""@ + "Line "@ + l + ": "@ + "Integer Parsing Error: No leading zeros."@ + ""@ + ""@,
        ErrorKind::IntegerBadStart => ""@ + "Line "@ + l + ": "@ + "Invalid integer starting character '"@ + d + "'."@,
        ErrorKind::IntegerFormat => ""@ + "Line "@ + l + ": "@ + "Invalid integer format."@ + ""@ + ""@,
        ErrorKind::IntegerTrailingUnderscore => ""@ + "Line "@ + l + ": "@ + "Integer Parsing Error: Underscore at end of integer."@ + ""@ + ""@,
        ErrorKind::IntegerOverflow => ""@ + "Line "@ + l + ": "@ + "Integer Parsing Error: Integer Overflow"@ + ""@ + ""@,
        ErrorKind::IntegerDoubleUnderscore => ""@ + "Line "@ + l + ": "@ + "Integer Parsing Error: Underscore must be sandwiched between two digits (ex. `12_000`)"@ + ""@ + ""@,
        ErrorKind::IntegerBadDigit => ""@ + "Line "@ + l + ": "@ + "Integer Parsing Error: Invalid digit value '"@ + d + "'."@,
        ErrorKind::FloatLeadingPoint => ""@ + "Line "@ + l + ": "@ + "Float Parsing Error: Cannot begin float with decimal point `.`"@ + ""@ + ""@,
        ErrorKind::FloatPointWithoutDigit => ""@ + "Line "@ + l + ": "@ + "Float Parsing Error: decimal point must be followed by a digit."@ + ""@ + ""@,
        ErrorKind::FloatFormat => ""@ + "Line "@ + l + ": "@ + "Float Parsing Error."@ + ""@ + ""@,
        ErrorKind::DateFormat => ""@ + "Line "@ + l + ": "@ + "Could not parse a datetime"@ + ""@ + ""@,
        ErrorKind::BoolFormat => ""@ + "Line "@ + l + ": "@ + "Boolean Parsing Error."@ + ""@ + ""@,
        ErrorKind::InlineTableMisplacedComma => ""@ + "Line "@ + l + ": "@ + "Inline Table Parsing Error: The value separator (comma) must immediately follow a value."@ + ""@ + ""@,
        ErrorKind::InlineTableNewline => ""@ + "Line "@ + l + ": "@ + "Newlines are prohibited within an inline table (outside of a value that allows them)"@ + ""@ + ""@,
        ErrorKind::InlineTableTrailingComma => ""@ + "Line "@ + l + ": "@ + "Trailing comma prohibited in inline tables."@ + ""@ + ""@,
        ErrorKind::KeyAlreadyDefined => ""@ + "Line "@ + l + ": "@ + "Key `"@ + d + "` is already defined at this table level."@,
        ErrorKind::EmptyBareKey => ""@ + "Line "@ + l + ": "@ + "Bare keys cannot be empty."@ + ""@ + ""@,
        ErrorKind::KeyNotTerminated => ""@ + "Line "@ + l + ": "@ + "Invalid format. Keys must be followed by either an equal sign or a closing square bracket."@ + ""@ + ""@,
        ErrorKind::InvalidBareKeyChar => ""@ + "Line "@ + l + ": "@ + "Invalid bare key character: "@ + d + "."@,
        ErrorKind::NoKey => ""@ + "Line "@ + l + ": "@ + "No key found."@ + ""@ + ""@,
        ErrorKind::TableHeaderUnclosed => ""@ + "Line "@ + l + ": "@ + "Invalid Table Header; Must close with `]`"@ + ""@ + ""@,
        ErrorKind::TableHeaderRedefined => ""@ + "Line "@ + l + ": "@ + "Table header `TPath { delimiter: \"\\0\", content: \""@ + debug_text(d) + "\" }` is already defined."@,
        ErrorKind::TableHeaderNotTable => ""@ + "Line "@ + l + ": "@ + "Table header error: Dotted key component does not refer to a table."@ + ""@ + ""@,
        ErrorKind::TableHeaderRedefinesEntry => ""@ + "Line "@ + l + ": "@ + "Cannot redefine previously-defined table entry."@ + ""@ + ""@,
        ErrorKind::TableHeaderLastNotTable => ""@ + "Line "@ + l + ": "@ + "Table Header Error; The last key segment must point to a table previously created as a supertable in a dotted header, or the segment must extend a table defined through either an array of tables or through a dotted key within a key-value pair."@ + ""@ + ""@,
        ErrorKind::ArrayOfTablesUnclosed => ""@ + "Line "@ + l + ": "@ + "Invalid Array of Tables Declaration; Must close with `]]`"@ + ""@ + ""@,
        ErrorKind::ArrayOfTablesParentNotArray => ""@ + "Line "@ + l + ": "@ + "Nested Arrays of Tables require each parent itself in the dotted key to point to an Array of Tables."@ + ""@ + ""@,
        ErrorKind::RogueCharacter => ""@ + "Line "@ + l + ": "@ + "Rogue non-whitespace character `"@ + d + "`  (outside of comment)."@,
        ErrorKind::LineEndsWithSeparator => "<ParserLine::find_segments>: Premature EoF."@,
        ErrorKind::EmptyValueSegment => "TOMLSeg should never be empty in TOMLParser::parse_value."@,
        ErrorKind::ArrayEndedEarly => "There should still be data after a value was parsed within an array."@,
        ErrorKind::InlineTableEndedEarly => "Inline Table should never terminate prematurely."@,
        ErrorKind::EmptyComment => "Comment parse context should never be entered with an empty line segment."@,
        ErrorKind::EolNotReached => "assertion failed: context.is_exhausted()"@,
        ErrorKind::MissingLineEnd => "called `Option::unwrap()` on a `None` value"@,
        ErrorKind::HexDigitCluster => "called `Result::unwrap()` on an `Err` value: invalid digit"@,
        ErrorKind::InvalidCommentChar => "Invalid Comment Character: '"@ + d + "' on Line "@ + l,
    }
}

fn push_hex_text(out: &mut Vec<char>, n: u32)
    ensures
        final(out)@ == old(out)@ + hex_text(n as nat),
    decreases n,
{
    if n >= 16 {
        push_hex_text(out, n / 16);
    }
    let d = n % 16;
    let code = if d < 10 { d + 48 } else { d + 55 };
    let c = match char_from_u32(code) {
        Some(c) => c,
        None => '0',
    };
    out.push(c);
    assert(out@ =~= old(out)@ + hex_text(n as nat));
}

fn push_debug_text(out: &mut Vec<char>, s: &Vec<char>)
    ensures
        final(out)@ == old(out)@ + debug_text(s@),
{
    let mut i: usize = 0;
    assert(s@.take(0) =~= Seq::<char>::empty());
    while i < s.len()
        invariant
            i <= s.len(),
            out@ == old(out)@ + debug_text(s@.take(i as int)),
        decreases s.len() - i,
    {
        let c = s[i];
        let ghost before = out@;
        if c == '\0' {
            out.push('\\');
            out.push('0');
        } else if c == '"' {
            out.push('\\');
            out.push('"');
        } else if c == '\\' {
            out.push('\\');
            out.push('\\');
        } else if c == '\n' {
            out.push('\\');
            out.push('n');
        } else if c == '\t' {
            out.push('\\');
            out.push('t');
        } else if c == '\r' {
            out.push('\\');
            out.push('r');
        } else {
            out.push(c);
        }
        assert(out@ =~= before + debug_char(c));
        assert(s@.take(i + 1).drop_last() =~= s@.take(i as int));
        i = i + 1;
    }
    assert(s@.take(s.len() as int) =~= s@);
}

/// `p`, then "Line ", the line, ": ", `a`, `d` and `b`.
fn compose(p: &str, l: &String, a: &str, d: &str, b: &str) -> (r: String)
    ensures
        r@ == p@ + "Line "@ + l@ + ": "@ + a@ + d@ + b@,
{
    let mut s = String::from_str(p);
    s.append("Line ");
    s.append(l.as_str());
    s.append(": ");
    s.append(a);
    s.append(d);
    s.append(b);
    s
}

impl TomlError {
    /// The message that reports this failure.
    pub fn message(&self) -> (r: String)
        ensures
            r@ == message_text(self.line as nat, self.kind, self.detail@),
    {
        let mut digits: Vec<char> = Vec::new();
        push_nat_text(&mut digits, self.line as u64);
        let l = string_from_chars(&digits);
        let dchars = chars_of(self.detail.as_str());
        let mut hv: Vec<char> = Vec::new();
        if dchars.len() > 0 {
            let c = dchars[0];
            let code = c as u32;
            push_hex_text(&mut hv, code);
        }
        let hex = string_from_chars(&hv);
        let mut dv: Vec<char> = Vec::new();
        push_debug_text(&mut dv, &dchars);
        let dbg = string_from_chars(&dv);
        match self.kind {
            ErrorKind::EndOfFile => compose("", &l, "End of File during parsing operation.", "", ""),
            ErrorKind::MissingEquals => compose("", &l, "Equal sign must follow key in a key-value pair.", "", ""),
            ErrorKind::ArrayMisplacedComma => compose("", &l, "Array Parsing Error: The Value Separator (comma) must immediately follow a value.", "", ""),
            ErrorKind::UnterminatedBasicString => compose("Err: ", &l, "Non-terminating basic string.", "", ""),
            ErrorKind::InvalidStringEscape => compose("Err: ", &l, "Invalid String Escape Sequence", "", ""),
            ErrorKind::InvalidStringChar => compose("Err: ", &l, "Invalid Unicode Character U+", hex.as_str(), ""),
            ErrorKind::InvalidUnicodeEscape => compose("Err: ", &l, "Invalid UTF8 escape sequence. Format: \\uXXXX or \\uXXXXXXXX", "", ""),
            ErrorKind::InvalidEscape => compose("Error: ", &l, "Invalid escape sequence.", "", ""),
            ErrorKind::UnterminatedLiteralString => compose("Err: ", &l, "Non-terminating literal string.", "", ""),
            ErrorKind::InvalidLiteralStringChar => compose("Err: ", &l, "Invalid Unicode Character U+", hex.as_str(), " in literal string."),
            ErrorKind::NotNumeric => compose("", &l, "Could not parse numeric type. Tried integer, float, and date parsing.", "", ""),
            ErrorKind::IntegerSignedPrefix => compose("", &l, "Integer Parsing Error: Invalid Prefix. Write '0[box]'", "", ""),
            ErrorKind::IntegerLeadingZero => compose("", &l, "Integer Parsing Error: No leading zeros.", "", ""),
            ErrorKind::IntegerBadStart => compose("", &l, "Invalid integer starting character '", self.detail.as_str(), "'."),
            ErrorKind::IntegerFormat => compose("", &l, "Invalid integer format.", "", ""),
                ErrorKind::IntegerTrailingUnderscore => compose("", &l, "Integer Parsing Error: Underscore at end of integer.", "", ""),
            ErrorKind::IntegerOverflow => compose("", &l, "Integer Parsing Error: Integer Overflow", "", ""),
            ErrorKind::IntegerDoubleUnderscore => compose("", &l, "Integer Parsing Error: Underscore must be sandwiched between two digits (ex. `12_000`)", "", ""),
            ErrorKind::IntegerBadDigit => compose("", &l, "Integer Parsing Error: Invalid digit value '", self.detail.as_str(), "'."),
            ErrorKind::FloatLeadingPoint => compose("", &l, "Float Parsing Error: Cannot begin float with decimal point `.`", "", ""),
            ErrorKind::FloatPointWithoutDigit => compose("", &l, "Float Parsing Error: decimal point must be followed by a digit.", "", ""),
            ErrorKind::FloatFormat => compose("", &l, "Float Parsing Error.", "", ""),
            ErrorKind::DateFormat => compose("", &l, "Could not parse a datetime", "", ""),
            ErrorKind::BoolFormat => compose("", &l, "Boolean Parsing Error.", "", ""),
            ErrorKind::InlineTableMisplacedComma => compose("", &l, "Inline Table Parsing Error: The value separator (comma) must immediately follow a value.", "", ""),
            ErrorKind::InlineTableNewline => compose("", &l, "Newlines are prohibited within an inline table (outside of a value that allows them)", "", ""),
            ErrorKind::InlineTableTrailingComma => compose("", &l, "Trailing comma prohibited in inline tables.", "", ""),
            ErrorKind::KeyAlreadyDefined => compose("", &l, "Key `", self.detail.as_str(), "` is already defined at this table level."),
            ErrorKind::EmptyBareKey => compose("", &l, "Bare keys cannot be empty.", "", ""),
            ErrorKind::KeyNotTerminated => compose("", &l, "Invalid format. Keys must be followed by either an equal sign or a closing square bracket.", "", ""),
            ErrorKind::InvalidBareKeyChar => compose("", &l, "Invalid bare key character: ", self.detail.as_str(), "."),
            ErrorKind::NoKey => compose("", &l, "No key found.", "", ""),
            ErrorKind::TableHeaderUnclosed => compose("", &l, "Invalid Table Header; Must close with `]`", "", ""),
            ErrorKind::TableHeaderRedefined => compose("", &l, "Table header `TPath { delimiter: \"\\0\", content: \"", dbg.as_str(), "\" }` is already defined."),
            ErrorKind::TableHeaderNotTable => compose("", &l, "Table header error: Dotted key component does not refer to a table.", "", ""),
            ErrorKind::TableHeaderRedefinesEntry => compose("", &l, "Cannot redefine previously-defined table entry.", "", ""),
            ErrorKind::TableHeaderLastNotTable => compose("", &l, "Table Header Error; The last key segment must point to a table previously created as a supertable in a dotted header, or the segment must extend a table defined through either an array of tables or through a dotted key within a key-value pair.", "", ""),
            ErrorKind::ArrayOfTablesUnclosed => compose("", &l, "Invalid Array of Tables Declaration; Must close with `]]`", "", ""),
            ErrorKind::ArrayOfTablesParentNotArray => compose("", &l, "Nested Arrays of Tables require each parent itself in the dotted key to point to an Array of Tables.", "", ""),
            ErrorKind::RogueCharacter => compose("", &l, "Rogue non-whitespace character `", self.detail.as_str(), "`  (outside of comment)."),
            ErrorKind::LineEndsWithSeparator => String::from_str("<ParserLine::find_segments>: Premature EoF."),
            ErrorKind::EmptyValueSegment => String::from_str("TOMLSeg should never be empty in TOMLParser::parse_value."),
            ErrorKind::ArrayEndedEarly => String::from_str("There should still be data after a value was parsed within an array."),
            ErrorKind::InlineTableEndedEarly => String::from_str("Inline Table should never terminate prematurely."),
            ErrorKind::EmptyComment => String::from_str("Comment parse context should never be entered with an empty line segment."),
            ErrorKind::EolNotReached => String::from_str("assertion failed: context.is_exhausted()"),
            ErrorKind::MissingLineEnd => String::from_str("called `Option::unwrap()` on a `None` value"),
            ErrorKind::HexDigitCluster => String::from_str("called `Result::unwrap()` on an `Err` value: invalid digit"),
            ErrorKind::InvalidCommentChar => {
                let mut s = String::from_str("Invalid Comment Character: '");
                s.append(self.detail.as_str());
                s.append("' on Line ");
                s.append(l.as_str());
                s
            },
        }
    }
}

} // verus!
