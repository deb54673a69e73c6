//! The completely parsed TOML table, and its printout in the manner of
//! the `tree` program.
use vstd::prelude::*;
use crate::text::{int_text, int_to_text, string_from_chars};
use crate::tomltypes::{TOMLTable, TOMLType, TomlValue, TableView, ValFromTOMLKey, lookup_path, retrieve_path, lemma_entries_view, value_view, tables_view, lemma_tables_view};
use crate::drafts::parsetools::TPath;
use crate::drafts::tomlparse::dates::{date_text, time_text, datetime_text, timestamp_text, date_to_text, time_to_text, offset_to_text};

verus! {

broadcast use crate::tomltypes::TOMLTable::lemma_rows;

/// The complete, read-only TOML table.
#[derive(Debug)]
pub struct ParsedTOML {
    table: TOMLTable,
}

/// What the printout writes under a key whose value is not a table.
pub open spec fn value_label(v: TomlValue) -> Seq<char> {
    match v {
        TomlValue::Array(_) => "ARRAY"@,
        TomlValue::MultiStr(_) => "MULTI-LINE STRING"@,
        TomlValue::MultiLitStr(_) => "MULTI-LINE LITERAL STRING"@,
        TomlValue::LitStr(s) => s,
        TomlValue::BasicStr(s) => s,
        TomlValue::Bool(b) => if b { "true"@ } else { "false"@ },
        TomlValue::Int(i) => int_text(i as int),
        TomlValue::Float(s) => s,
        TomlValue::TimeStamp(t) => timestamp_text(t),
        TomlValue::NaiveDateTime(d) => datetime_text(d),
        TomlValue::Date(d) => date_text(d),
        TomlValue::Time(t) => time_text(t),
        TomlValue::InlineTable(_) => Seq::empty(),
        TomlValue::AoT(_) => Seq::empty(),
        TomlValue::HTable(_) => Seq::empty(),
        TomlValue::DKTable(_) => Seq::empty(),
    }
}

/// The name shown for an entry: its key, marked when it holds an array
/// of tables.
pub open spec fn key_label(k: Seq<char>, v: TomlValue) -> Seq<char> {
    if v is AoT {
        k + " (Arr_of_Tbls)"@
    } else {
        k
    }
}

/// The connector before an entry: the last entry of a table closes the branch.
pub open spec fn branch(last: bool) -> Seq<char> {
    if last {
        "└── "@
    } else {
        "├── "@
    }
}

/// What stands, on the lines below an entry, in the entry's column: a bar
/// while more entries follow it, blank after the last.
pub open spec fn stem(last: bool) -> Seq<char> {
    if last {
        "    "@
    } else {
        "│   "@
    }
}

/// The printout of the entries of `t` from the `i`-th on, each line
/// starting with `prefix`: each key, then what its value shows one level
/// further in.
pub open spec fn entries_text(t: TableView, i: int, prefix: Seq<char>) -> Seq<char>
    decreases t, 0int, t.len() - i,
{
    if i < 0 || i >= t.len() {
        Seq::empty()
    } else {
        let k = t[i].0;
        let v = t[i].1;
        let last = i + 1 == t.len();
        let inner = prefix + stem(last);
        proof {
            assert(decreases_to!(t => t[i]));
            assert(decreases_to!(t[i] => v));
        }
        seq!['\n'] + prefix + branch(last) + key_label(k, v) + below_text(v, inner) + entries_text(t, i + 1, prefix)
    }
}

/// What a value shows below its key, each line starting with `prefix`: a
/// table, inline or not, its entries; an array of tables the entries of each
/// of its tables; any other value one label.
pub open spec fn below_text(v: TomlValue, prefix: Seq<char>) -> Seq<char>
    decreases v, 0int, 0int,
{
    match v {
        TomlValue::HTable(sub) => entries_text(sub, 0, prefix),
        TomlValue::DKTable(sub) => entries_text(sub, 0, prefix),
        TomlValue::InlineTable(sub) => entries_text(sub, 0, prefix),
        TomlValue::AoT(ts) => tables_text(ts, 0, prefix),
        _ => seq!['\n'] + prefix + "└── "@ + value_label(v),
    }
}

/// The printouts of the tables of an array of tables from the `j`-th on,
/// one after another.
pub open spec fn tables_text(ts: Seq<TableView>, j: int, prefix: Seq<char>) -> Seq<char>
    decreases ts, 0int, ts.len() - j,
{
    if j < 0 || j >= ts.len() {
        Seq::empty()
    } else {
        proof { assert(decreases_to!(ts => ts[j])); }
        entries_text(ts[j], 0, prefix) + tables_text(ts, j + 1, prefix)
    }
}

/// The printout of a whole table: the root `/`, then its entries.
pub open spec fn tree_text(t: TableView) -> Seq<char> {
    "/"@ + entries_text(t, 0, Seq::empty())
}

} // verus!

verus! {

/// What the printout writes under a key for its value.
fn label_of(v: &TOMLType) -> (r: String)
    ensures
        r@ == value_label(v@),
{
    proof { reveal_strlit(" "); }
    match v {
        TOMLType::Array(_) => String::from_str("ARRAY"),
        TOMLType::AoT(_) => String::new(),
        TOMLType::InlineTable(_) => String::new(),
        TOMLType::MultiStr(_) => String::from_str("MULTI-LINE STRING"),
        TOMLType::MultiLitStr(_) => String::from_str("MULTI-LINE LITERAL STRING"),
        TOMLType::LitStr(s) => s.clone(),
        TOMLType::BasicStr(s) => s.clone(),
        TOMLType::Bool(b) => if *b { String::from_str("true") } else { String::from_str("false") },
        TOMLType::Int(i) => int_to_text(*i),
        TOMLType::Float(s) => s.clone(),
        TOMLType::TimeStamp(t) => {
            let mut s = date_to_text(t.local.date);
            s.append(" ");
            s.append(time_to_text(t.local.time).as_str());
            s.append(" ");
            s.append(string_from_chars(&offset_to_text(t.offset_seconds)).as_str());
            s
        },
        TOMLType::NaiveDateTime(d) => {
            let mut s = date_to_text(d.date);
            s.append(" ");
            s.append(time_to_text(d.time).as_str());
            s
        },
        TOMLType::Date(d) => date_to_text(*d),
        TOMLType::Time(t) => time_to_text(*t),
        TOMLType::HTable(_) => String::new(),
        TOMLType::DKTable(_) => String::new(),
    }
}

impl ParsedTOML {
    /// The model of the table inside.
    pub closed spec fn table_model(self) -> TableView {
        self.table@
    }

    /// The parsed table, wrapped.
    pub fn from(table: TOMLTable) -> (r: Self)
        ensures
            r.table_model() == table@,
    {
        ParsedTOML { table }
    }

    /// The table inside.
    pub fn view_table(&self) -> (r: &TOMLTable)
        ensures
            r@ == self.table_model(),
    {
        &self.table
    }

    /// The value under a key path, looked up through nested tables.
    pub fn get(&self, key: &TPath) -> (r: Option<&TOMLType>)
        ensures
            r matches Some(v) ==> lookup_path(self.table_model(), key.keys()) == Some(v@),
            r is None ==> lookup_path(self.table_model(), key.keys()) is None,
    {
        let keys = key.segments();
        let mut chars: Vec<Vec<char>> = Vec::new();
        let mut i: usize = 0;
        while i < keys.len()
            invariant
                i <= keys.len(),
                chars.len() == i,
                forall|j: int| 0 <= j < i ==> (#[trigger] chars@[j])@ == keys@[j]@,
            decreases keys.len() - i,
        {
            chars.push(crate::text::chars_of(keys[i].as_str()));
            i = i + 1;
        }
        proof {
            assert forall|j: int| 0 <= j < chars.len() implies chars.deep_view()[j] == keys.deep_view()[j] by {
                crate::text::lemma_chars_deep_view(chars@[j]);
            }
            assert(chars.deep_view() =~= keys.deep_view());
            crate::text::lemma_split_nonempty(key.content(), key.delim());
        }
        retrieve_path(&self.table, &chars)
    }

    /// The printout of the table in the manner of the `tree` program: the
    /// root `/`, then each key on a line of its own below its parent, with
    /// its value one level further in.
    pub fn tree(&self) -> (r: String)
        ensures
            r@ == tree_text(self.table_model()),
    {
        let root = String::from_str("/");
        let prefix = String::new();
        Self::tree_iter(&self.table, &prefix, root)
    }

    /// The printout of the entries of a table, each line starting with
    /// `prefix`, appended to `outstr`.
    pub fn tree_iter(table: &TOMLTable, prefix: &String, outstr: String) -> (r: String)
        ensures
            r@ == outstr@ + entries_text(table@, 0, prefix@),
        decreases table@,
    {
        proof { lemma_entries_view(table.entries@); }
        let ghost t = table@;
        let mut out = outstr;
        let n = table.entries.len();
        let mut i: usize = 0;
        assert(out@ =~= outstr@ + Seq::<char>::empty());
        while i < n
            invariant
                n == table.entries.len(),
                t == table@,
                t.len() == n,
                i <= n,
                forall|j: int| 0 <= j < n ==> #[trigger] t[j] == (table.entries@[j].0@, value_view(table.entries@[j].1)),
                outstr@ + entries_text(t, 0, prefix@) == out@ + entries_text(t, i as int, prefix@),
            decreases n - i,
        {
            proof { reveal_strlit("\n"); }
            let ghost o0 = out@;
            let (key, val) = (&table.entries[i].0, &table.entries[i].1);
            let last = i + 1 == n;
            out.append("\n");
            out.append(prefix.as_str());
            if last {
                out.append("└── ");
            } else {
                out.append("├── ");
            }
            out.append(key.as_str());
            if let TOMLType::AoT(_) = val {
                out.append(" (Arr_of_Tbls)");
            }
            let ghost o1 = out@;
            assert(o1 =~= o0 + seq!['\n'] + prefix@ + branch(last) + key_label(t[i as int].0, t[i as int].1));
            let mut inner = prefix.clone();
            if last {
                inner.append("    ");
            } else {
                inner.append("│   ");
            }
            assert(inner@ == prefix@ + stem(last));
            proof {
                assert(decreases_to!(t => t[i as int]));
                assert(decreases_to!(t[i as int] => t[i as int].1));
            }
            out = Self::below_iter(val, &inner, out);
            assert(out@ + entries_text(t, i + 1, prefix@) =~= o0 + entries_text(t, i as int, prefix@));
            i = i + 1;
        }
        assert(entries_text(t, n as int, prefix@) =~= Seq::<char>::empty());
        out
    }

    /// What a value shows below its key, each line starting with `prefix`,
    /// appended to `outstr`.
    fn below_iter(val: &TOMLType, prefix: &String, outstr: String) -> (r: String)
        ensures
            r@ == outstr@ + below_text(val@, prefix@),
        decreases val@,
    {
        let mut out = outstr;
        match val {
            TOMLType::HTable(sub) => {
                proof {
                    let ghost vv = val@;
                    assert(vv == TomlValue::HTable(sub@));
                    assert(decreases_to!(vv => vv->HTable_0));
                }
                Self::tree_iter(sub, prefix, out)
            },
            TOMLType::DKTable(sub) => {
                proof {
                    let ghost vv = val@;
                    assert(vv == TomlValue::DKTable(sub@));
                    assert(decreases_to!(vv => vv->DKTable_0));
                }
                Self::tree_iter(sub, prefix, out)
            },
            TOMLType::InlineTable(sub) => {
                proof {
                    let ghost vv = val@;
                    assert(vv == TomlValue::InlineTable(sub@));
                    assert(decreases_to!(vv => vv->InlineTable_0));
                }
                Self::tree_iter(sub, prefix, out)
            },
            TOMLType::AoT(ts) => {
                let ghost tv = tables_view(ts@);
                proof {
                    lemma_tables_view(ts@);
                    assert(val@ == TomlValue::AoT(tv));
                }
                let m = ts.len();
                let mut j: usize = 0;
                assert(out@ =~= outstr@ + Seq::<char>::empty());
                while j < m
                    invariant
                        m == ts.len(),
                        tv == tables_view(ts@),
                        tv.len() == m,
                        j <= m,
                        forall|q: int| 0 <= q < m ==> #[trigger] tv[q] == ts@[q]@,
                        outstr@ + tables_text(tv, 0, prefix@) == out@ + tables_text(tv, j as int, prefix@),
                        val@ == TomlValue::AoT(tv),
                    decreases m - j,
                {
                    proof {
                        let ghost vv = val@;
                        assert(decreases_to!(vv => vv->AoT_0));
                        assert(decreases_to!(tv => tv[j as int]));
                        assert(tv[j as int] == ts@[j as int]@);
                    }
                    let ghost before = out@;
                    out = Self::tree_iter(&ts[j], prefix, out);
                    assert(out@ + tables_text(tv, j + 1, prefix@) =~= before + tables_text(tv, j as int, prefix@));
                    j = j + 1;
                }
                assert(tables_text(tv, m as int, prefix@) =~= Seq::<char>::empty());
                out
            },
            _ => {
                proof { reveal_strlit("\n"); }
                out.append("\n");
                out.append(prefix.as_str());
                out.append("└── ");
                let label = label_of(val);
                out.append(label.as_str());
                out
            },
        }
    }
}

impl ValFromTOMLKey for ParsedTOML {
    closed spec fn table_view(&self) -> TableView {
        self.table@
    }

    fn retrieve(&self, key_sequence: &str, delimiter: &str) -> (r: Option<&TOMLType>) {
        self.table.retrieve(key_sequence, delimiter)
    }
}

} // verus!

verus! {

/// Law: a boolean is labelled with its Rust text, `true` or `false`.
pub proof fn law_bool_labels(b: bool)
    ensures
        value_label(TomlValue::Bool(b)) == if b { seq!['t', 'r', 'u', 'e'] } else { seq!['f', 'a', 'l', 's', 'e'] },
{
    reveal_strlit("true");
    reveal_strlit("false");
}

/// Law: a table of one boolean under key `k` prints as the root, the key
/// on the last branch, and below it the boolean's Rust text.
pub proof fn law_tree_of_one_bool(k: Seq<char>, b: bool)
    ensures
        tree_text(seq![(k, TomlValue::Bool(b))]) == seq!['/', '\n', '└', '─', '─', ' '] + k + seq![
            '\n',
            ' ',
            ' ',
            ' ',
            ' ',
            '└',
            '─',
            '─',
            ' ',
        ] + if b { seq!['t', 'r', 'u', 'e'] } else { seq!['f', 'a', 'l', 's', 'e'] },
{
    reveal_strlit("true");
    reveal_strlit("false");
    reveal_strlit("/");
    reveal_strlit("└── ");
    reveal_strlit("    ");
    let t = seq![(k, TomlValue::Bool(b))];
    assert(entries_text(t, 1, Seq::empty()) == Seq::<char>::empty());
    let e = Seq::<char>::empty();
    let inner = e + stem(true);
    assert(inner =~= seq![' ', ' ', ' ', ' ']);
    assert(branch(true) =~= seq!['└', '─', '─', ' ']);
    assert(key_label(k, TomlValue::Bool(b)) == k);
    let lab = if b { seq!['t', 'r', 'u', 'e'] } else { seq!['f', 'a', 'l', 's', 'e'] };
    assert(value_label(TomlValue::Bool(b)) == lab);
    assert(below_text(TomlValue::Bool(b), inner) == seq!['\n'] + inner + "└── "@ + lab);
    assert(entries_text(t, 0, e) == seq!['\n'] + e + branch(true) + key_label(k, TomlValue::Bool(b)) + below_text(TomlValue::Bool(b), inner) + entries_text(t, 1, e));
    assert(tree_text(t) =~= seq!['/', '\n', '└', '─', '─', ' '] + k + seq!['\n', ' ', ' ', ' ', ' ', '└', '─', '─', ' ']
        + if b { seq!['t', 'r', 'u', 'e'] } else { seq!['f', 'a', 'l', 's', 'e'] });
}

} // verus!

verus! {

/// Law: a one-line string, basic or literal, is labelled with its text; a
/// float with the text it was written as.
pub proof fn law_text_labels(s: Seq<char>)
    ensures
        value_label(TomlValue::BasicStr(s)) == s,
        value_label(TomlValue::LitStr(s)) == s,
        value_label(TomlValue::Float(s)) == s,
{
}

} // verus!
