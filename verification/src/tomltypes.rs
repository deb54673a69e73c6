//! Rust representations of TOML values and tables.
use vstd::prelude::*;
use crate::text::{chars_of, split_chars, split_on, lemma_chars_deep_view};

verus! {

/// A calendar date.
#[derive(Clone, Copy, Debug, PartialEq, Eq, Structural)]
pub struct Date {
    pub year: i32,
    pub month: u32,
    pub day: u32,
}

/// A time of day.
#[derive(Clone, Copy, Debug, PartialEq, Eq, Structural)]
pub struct Time {
    pub hour: u32,
    pub minute: u32,
    pub second: u32,
    pub nanosecond: u32,
}

/// A date and time of day without offset.
#[derive(Clone, Copy, Debug, PartialEq, Eq, Structural)]
pub struct DateTime {
    pub date: Date,
    pub time: Time,
}

/// A date and time of day together with its offset from UTC.
#[derive(Clone, Copy, Debug, PartialEq, Eq, Structural)]
pub struct TimeStamp {
    pub local: DateTime,
    /// The offset from UTC in seconds (east is positive).
    pub offset_seconds: i32,
}

/// The Rust representation of TOML value types.
#[derive(Debug)]
pub enum TOMLType {
    Bool(bool),
    Int(i64),
    /// A float, held as its text without underscores; the text is in the
    /// form that `str::parse::<f64>` accepts.
    Float(String),
    /// Basic string
    BasicStr(String),
    /// Multi-line string
    MultiStr(String),
    /// Basic literal string
    LitStr(String),
    /// Multi-line literal string
    MultiLitStr(String),
    Date(Date),
    Time(Time),
    NaiveDateTime(DateTime),
    TimeStamp(TimeStamp),
    Array(Vec<TOMLType>),
    /// Table defined via table header syntax `[table]`
    HTable(TOMLTable),
    /// Table defined via dotted key (ex. `apple.color = "red"`)
    DKTable(TOMLTable),
    /// Inline tables are self-contained and cannot be extended after definition
    InlineTable(TOMLTable),
    /// Array of Tables
    AoT(Vec<TOMLTable>),
}

/// A TOML table: keys with their values, in the order of definition; no
/// key occurs twice.
#[derive(Debug)]
pub struct TOMLTable {
    pub(crate) entries: Vec<(String, TOMLType)>,
}

/// The mathematical model of a TOML value.
pub enum TomlValue {
    Bool(bool),
    Int(i64),
    Float(Seq<char>),
    BasicStr(Seq<char>),
    MultiStr(Seq<char>),
    LitStr(Seq<char>),
    MultiLitStr(Seq<char>),
    Date(Date),
    Time(Time),
    NaiveDateTime(DateTime),
    TimeStamp(TimeStamp),
    Array(Seq<TomlValue>),
    HTable(Seq<(Seq<char>, TomlValue)>),
    DKTable(Seq<(Seq<char>, TomlValue)>),
    InlineTable(Seq<(Seq<char>, TomlValue)>),
    AoT(Seq<Seq<(Seq<char>, TomlValue)>>),
}

/// The model of a table: its entries in order.
pub type TableView = Seq<(Seq<char>, TomlValue)>;

pub open spec fn value_view(v: TOMLType) -> TomlValue
    decreases v,
{
    match v {
        TOMLType::Bool(b) => TomlValue::Bool(b),
        TOMLType::Int(i) => TomlValue::Int(i),
        TOMLType::Float(s) => TomlValue::Float(s@),
        TOMLType::BasicStr(s) => TomlValue::BasicStr(s@),
        TOMLType::MultiStr(s) => TomlValue::MultiStr(s@),
        TOMLType::LitStr(s) => TomlValue::LitStr(s@),
        TOMLType::MultiLitStr(s) => TomlValue::MultiLitStr(s@),
        TOMLType::Date(d) => TomlValue::Date(d),
        TOMLType::Time(t) => TomlValue::Time(t),
        TOMLType::NaiveDateTime(d) => TomlValue::NaiveDateTime(d),
        TOMLType::TimeStamp(t) => TomlValue::TimeStamp(t),
        TOMLType::Array(a) => TomlValue::Array(values_view(a@)),
        TOMLType::HTable(t) => TomlValue::HTable(entries_view(t.rows())),
        TOMLType::DKTable(t) => TomlValue::DKTable(entries_view(t.rows())),
        TOMLType::InlineTable(t) => TomlValue::InlineTable(entries_view(t.rows())),
        TOMLType::AoT(ts) => TomlValue::AoT(tables_view(ts@)),
    }
}

pub open spec fn values_view(vs: Seq<TOMLType>) -> Seq<TomlValue>
    decreases vs,
{
    if vs.len() == 0 {
        Seq::empty()
    } else {
        seq![value_view(vs[0])] + values_view(vs.drop_first())
    }
}

pub open spec fn entries_view(es: Seq<(String, TOMLType)>) -> TableView
    decreases es,
{
    if es.len() == 0 {
        Seq::empty()
    } else {
        seq![(es[0].0@, value_view(es[0].1))] + entries_view(es.drop_first())
    }
}

pub open spec fn tables_view(ts: Seq<TOMLTable>) -> Seq<TableView>
    decreases ts,
{
    if ts.len() == 0 {
        Seq::empty()
    } else {
        seq![entries_view(ts[0].rows())] + tables_view(ts.drop_first())
    }
}

impl View for TOMLType {
    type V = TomlValue;

    open spec fn view(&self) -> TomlValue {
        value_view(*self)
    }
}

impl View for TOMLTable {
    type V = TableView;

    open spec fn view(&self) -> TableView {
        entries_view(self.rows())
    }
}

} // verus!

verus! {

/// The position of the first entry with key `k`, looking from `i` on.
pub open spec fn index_from(t: TableView, k: Seq<char>, i: int) -> Option<int>
    decreases t.len() - i,
{
    if i < 0 || i >= t.len() {
        None
    } else if t[i].0 == k {
        Some(i)
    } else {
        index_from(t, k, i + 1)
    }
}

/// The position of the entry with key `k`.
pub open spec fn tv_index(t: TableView, k: Seq<char>) -> Option<int> {
    index_from(t, k, 0)
}

/// The value under key `k`.
pub open spec fn tv_get(t: TableView, k: Seq<char>) -> Option<TomlValue> {
    match tv_index(t, k) {
        Some(i) => Some(t[i].1),
        None => None,
    }
}

/// No key occurs twice.
pub open spec fn keys_distinct(t: TableView) -> bool {
    forall|i: int, j: int| 0 <= i < j < t.len() ==> t[i].0 != t[j].0
}

/// The table inside a value that can be keyed into.
pub open spec fn sub_table(v: TomlValue) -> Option<TableView> {
    match v {
        TomlValue::HTable(t) => Some(t),
        TomlValue::DKTable(t) => Some(t),
        TomlValue::InlineTable(t) => Some(t),
        _ => None,
    }
}

/// The value reached by following the keys through nested tables.
pub open spec fn lookup_path(t: TableView, keys: Seq<Seq<char>>) -> Option<TomlValue>
    decreases keys.len(),
{
    if keys.len() == 0 {
        None
    } else if keys.len() == 1 {
        tv_get(t, keys[0])
    } else {
        match tv_get(t, keys[0]) {
            Some(v) => match sub_table(v) {
                Some(sub) => lookup_path(sub, keys.drop_first()),
                None => None,
            },
            None => None,
        }
    }
}

pub proof fn lemma_index_from(t: TableView, k: Seq<char>, i: int)
    requires
        0 <= i,
    ensures
        index_from(t, k, i) matches Some(j) ==> i <= j < t.len() && t[j].0 == k && forall|m: int|
            i <= m < j ==> #[trigger] t[m].0 != k,
        index_from(t, k, i) is None ==> forall|m: int| i <= m < t.len() ==> #[trigger] t[m].0 != k,
    decreases t.len() - i,
{
    if i < t.len() && t[i].0 != k {
        lemma_index_from(t, k, i + 1);
    }
}

pub proof fn lemma_index_is(t: TableView, k: Seq<char>, j: int)
    requires
        0 <= j < t.len(),
        t[j].0 == k,
        forall|m: int| 0 <= m < j ==> #[trigger] t[m].0 != k,
    ensures
        tv_index(t, k) == Some(j),
{
    lemma_index_from_is(t, k, 0, j);
}

proof fn lemma_index_from_is(t: TableView, k: Seq<char>, i: int, j: int)
    requires
        0 <= i <= j < t.len(),
        t[j].0 == k,
        forall|m: int| i <= m < j ==> #[trigger] t[m].0 != k,
    ensures
        index_from(t, k, i) == Some(j),
    decreases j - i,
{
    if i < j {
        lemma_index_from_is(t, k, i + 1, j);
    }
}

pub proof fn lemma_index_none(t: TableView, k: Seq<char>)
    requires
        forall|m: int| 0 <= m < t.len() ==> #[trigger] t[m].0 != k,
    ensures
        tv_index(t, k) is None,
{
    lemma_index_from(t, k, 0);
    if let Some(j) = tv_index(t, k) {
        assert(t[j].0 != k);
    }
}

pub proof fn lemma_entries_view(es: Seq<(String, TOMLType)>)
    ensures
        entries_view(es).len() == es.len(),
        forall|i: int| 0 <= i < es.len() ==> #[trigger] entries_view(es)[i] == (es[i].0@, value_view(es[i].1)),
    decreases es.len(),
{
    if es.len() > 0 {
        lemma_entries_view(es.drop_first());
        assert forall|i: int| 0 <= i < es.len() implies #[trigger] entries_view(es)[i] == (es[i].0@, value_view(es[i].1)) by {
            if i > 0 {
                assert(entries_view(es)[i] == entries_view(es.drop_first())[i - 1]);
            }
        }
    }
}

pub proof fn lemma_values_view(vs: Seq<TOMLType>)
    ensures
        values_view(vs).len() == vs.len(),
        forall|i: int| 0 <= i < vs.len() ==> #[trigger] values_view(vs)[i] == value_view(vs[i]),
    decreases vs.len(),
{
    if vs.len() > 0 {
        lemma_values_view(vs.drop_first());
        assert forall|i: int| 0 <= i < vs.len() implies #[trigger] values_view(vs)[i] == value_view(vs[i]) by {
            if i > 0 {
                assert(values_view(vs)[i] == values_view(vs.drop_first())[i - 1]);
            }
        }
    }
}

pub proof fn lemma_tables_view(ts: Seq<TOMLTable>)
    ensures
        tables_view(ts).len() == ts.len(),
        forall|i: int| 0 <= i < ts.len() ==> #[trigger] tables_view(ts)[i] == entries_view(ts[i].rows()),
    decreases ts.len(),
{
    if ts.len() > 0 {
        lemma_tables_view(ts.drop_first());
        assert forall|i: int| 0 <= i < ts.len() implies #[trigger] tables_view(ts)[i] == entries_view(ts[i].rows()) by {
            if i > 0 {
                assert(tables_view(ts)[i] == tables_view(ts.drop_first())[i - 1]);
            }
        }
    }
}

/// Two entry lists with the same keys and values have the same model.
pub proof fn lemma_entries_view_ext(a: Seq<(String, TOMLType)>, b: Seq<(String, TOMLType)>)
    requires
        a.len() == b.len(),
        forall|i: int| 0 <= i < a.len() ==> #[trigger] a[i].0@ == b[i].0@ && value_view(a[i].1) == value_view(b[i].1),
    ensures
        entries_view(a) == entries_view(b),
{
    lemma_entries_view(a);
    lemma_entries_view(b);
    assert(entries_view(a) =~= entries_view(b));
}

impl TOMLTable {
    /// The entries, in order.
    pub closed spec fn rows(self) -> Seq<(String, TOMLType)> {
        self.entries@
    }

    /// No key occurs twice.
    #[verifier::type_invariant]
    closed spec fn keys_unique(self) -> bool {
        forall|i: int, j: int| 0 <= i < j < self.entries.len() ==> self.entries@[i].0@ != self.entries@[j].0@
    }

    /// The entries are the rows of the model.
    pub(crate) broadcast proof fn lemma_rows(t: &TOMLTable)
        ensures
            #[trigger] t.rows() == t.entries@,
    {
    }

    /// Puts `v` in place of the value of the `i`-th entry, keeping its key;
    /// gives back the value that was there.
    pub(crate) fn replace_value(&mut self, i: usize, v: TOMLType) -> (r: TOMLType)
        requires
            i < old(self).entries.len(),
        ensures
            final(self).entries@ == old(self).entries@.update(i as int, (old(self).entries@[i as int].0, v)),
            r == old(self).entries@[i as int].1,
    {
        proof { use_type_invariant(&*self); }
        let ghost e0 = self.entries@;
        let mut es: Vec<(String, TOMLType)> = Vec::new();
        std::mem::swap(&mut es, &mut self.entries);
        let (k, old_v) = es.remove(i);
        es.insert(i, (k, v));
        assert(es@ =~= e0.update(i as int, (e0[i as int].0, v)));
        self.entries = es;
        old_v
    }

    /// Adds an entry under a key the table does not have.
    pub(crate) fn push_entry(&mut self, key: String, v: TOMLType)
        requires
            tv_index(old(self)@, key@) is None,
        ensures
            final(self).entries@ == old(self).entries@.push((key, v)),
    {
        proof {
            use_type_invariant(&*self);
            lemma_entries_view(self.entries@);
            lemma_index_from(self@, key@, 0);
            assert(forall|j: int| 0 <= j < self.entries.len() ==> #[trigger] self.entries@[j].0@ == self@[j].0);
        }
        let mut es: Vec<(String, TOMLType)> = Vec::new();
        std::mem::swap(&mut es, &mut self.entries);
        es.push((key, v));
        self.entries = es;
    }

    /// An empty table.
    pub fn new() -> (r: Self)
        ensures
            r@ == TableView::empty(),
    {
        let r = TOMLTable { entries: Vec::new() };
        assert(r@ =~= TableView::empty());
        r
    }

    pub fn len(&self) -> (r: usize)
        ensures
            r == self@.len(),
            keys_distinct(self@),
    {
        proof {
            use_type_invariant(self);
            lemma_entries_view(self.entries@);
        }
        self.entries.len()
    }

    pub fn is_empty(&self) -> (r: bool)
        ensures
            r == (self@.len() == 0),
    {
        proof { lemma_entries_view(self.entries@); }
        self.entries.len() == 0
    }

    /// The position of the entry with the given key.
    pub fn find(&self, key: &String) -> (r: Option<usize>)
        ensures
            r matches Some(i) ==> tv_index(self@, key@) == Some(i as int) && i < self@.len(),
            r is None ==> tv_index(self@, key@) is None,
            keys_distinct(self@),
    {
        proof {
            use_type_invariant(self);
            lemma_entries_view(self.entries@);
        }
        assert(keys_distinct(self@));
        let mut i: usize = 0;
        while i < self.entries.len()
            invariant
                keys_distinct(self@),
                i <= self.entries.len(),
                entries_view(self.entries@).len() == self.entries.len(),
                forall|m: int| 0 <= m < i ==> #[trigger] self@[m].0 != key@,
            decreases self.entries.len() - i,
        {
            proof { lemma_entries_view(self.entries@); }
            if self.entries[i].0 == *key {
                proof { lemma_index_is(self@, key@, i as int); }
                return Some(i);
            }
            i = i + 1;
        }
        proof { lemma_index_none(self@, key@); }
        None
    }

    /// Whether the table has the given key.
    pub fn contains_key(&self, key: &str) -> (r: bool)
        ensures
            r == (tv_index(self@, key@) is Some),
    {
        let k = String::from_str(key);
        self.find(&k).is_some()
    }

    /// The value under the given key.
    pub fn get(&self, key: &str) -> (r: Option<&TOMLType>)
        ensures
            r matches Some(v) ==> tv_get(self@, key@) == Some(v@),
            r is None ==> tv_get(self@, key@) is None,
    {
        let k = String::from_str(key);
        match self.find(&k) {
            Some(i) => {
                proof { lemma_entries_view(self.entries@); }
                Some(&self.entries[i].1)
            },
            None => None,
        }
    }

    /// The keys of the table, in order.
    pub fn keys(&self) -> (r: Vec<String>)
        ensures
            r.len() == self@.len(),
            forall|i: int| 0 <= i < r.len() ==> (#[trigger] r@[i])@ == self@[i].0,
    {
        proof { lemma_entries_view(self.entries@); }
        let mut out: Vec<String> = Vec::new();
        let mut i: usize = 0;
        while i < self.entries.len()
            invariant
                i <= self.entries.len(),
                entries_view(self.entries@).len() == self.entries.len(),
                out.len() == i,
                forall|m: int| 0 <= m < i ==> (#[trigger] out@[m])@ == self@[m].0,
            decreases self.entries.len() - i,
        {
            proof { lemma_entries_view(self.entries@); }
            out.push(self.entries[i].0.clone());
            i = i + 1;
        }
        out
    }
}

} // verus!

verus! {

/// Retrieve a view into the value of a given key-value pair if it exists.
///
/// - `key_sequence`: the (potentially multi-part) key
/// - `delimiter`: the substring used to separate key parts (equivalent to the
///   `.` in a dotted key)
///
/// Arrays and arrays of tables cannot be queried into because they require
/// an index; keying into them gives `None`.
pub trait ValFromTOMLKey {
    /// The table being queried.
    spec fn table_view(&self) -> TableView;

    fn retrieve(&self, key_sequence: &str, delimiter: &str) -> (r: Option<&TOMLType>)
        ensures
            r matches Some(v) ==> lookup_path(self.table_view(), split_on(key_sequence@, delimiter@))
                == Some(v@),
            r is None ==> lookup_path(self.table_view(), split_on(key_sequence@, delimiter@)) is None,
    ;
}

/// Follows `keys` through the nested tables of `table`.
pub fn retrieve_path<'a>(table: &'a TOMLTable, keys: &Vec<Vec<char>>) -> (r: Option<&'a TOMLType>)
    requires
        keys.len() > 0,
    ensures
        r matches Some(v) ==> lookup_path(table@, keys.deep_view()) == Some(v@),
        r is None ==> lookup_path(table@, keys.deep_view()) is None,
{
    let ghost ks = keys.deep_view();
    let mut curr: &TOMLTable = table;
    let mut i: usize = 0;
    assert(ks.skip(0) =~= ks);
    loop
        invariant
            ks == keys.deep_view(),
            i < keys.len(),
            lookup_path(table@, ks) == lookup_path(curr@, ks.skip(i as int)),
        decreases keys.len() - i,
    {
        proof { lemma_chars_deep_view(keys@[i as int]); }
        let key = crate::text::string_from_chars(&keys[i]);
        let ghost rest = ks.skip(i as int);
        assert(rest[0] == key@);
        if i + 1 == keys.len() {
            assert(rest.len() == 1);
            return curr.get(key.as_str());
        }
        match curr.get(key.as_str()) {
            Some(v) => {
                assert(rest.drop_first() =~= ks.skip(i + 1));
                match v {
                    TOMLType::HTable(t) => {
                        curr = t;
                    },
                    TOMLType::DKTable(t) => {
                        curr = t;
                    },
                    TOMLType::InlineTable(t) => {
                        curr = t;
                    },
                    _ => {
                        return None;
                    },
                }
            },
            None => {
                return None;
            },
        }
        i = i + 1;
    }
}

impl ValFromTOMLKey for TOMLTable {
    open spec fn table_view(&self) -> TableView {
        self@
    }

    fn retrieve(&self, key_sequence: &str, delimiter: &str) -> (r: Option<&TOMLType>) {
        let ks = chars_of(key_sequence);
        let d = chars_of(delimiter);
        let keys = split_chars(&ks, &d);
        proof { crate::text::lemma_split_nonempty(ks@, d@); }
        retrieve_path(self, &keys)
    }
}

} // verus!

verus! {

/// Inserting a value under a dotted key: the keys before the last name
/// dotted-key tables, which are created when missing; the last key must be
/// new. `Err(level)` names the key (counted from 0) that is already taken.
pub open spec fn tv_insert_dotted(t: TableView, keys: Seq<Seq<char>>, v: TomlValue) -> Result<TableView, int>
    decreases keys.len(),
{
    if keys.len() == 0 {
        Err(0)
    } else if keys.len() == 1 {
        if tv_index(t, keys[0]) is Some {
            Err(0)
        } else {
            Ok(t.push((keys[0], v)))
        }
    } else {
        match tv_index(t, keys[0]) {
            Some(i) => match t[i].1 {
                TomlValue::DKTable(sub) => match tv_insert_dotted(sub, keys.drop_first(), v) {
                    Ok(sub2) => Ok(t.update(i, (keys[0], TomlValue::DKTable(sub2)))),
                    Err(l) => Err(l + 1),
                },
                _ => Err(0),
            },
            None => match tv_insert_dotted(TableView::empty(), keys.drop_first(), v) {
                Ok(sub2) => Ok(t.push((keys[0], TomlValue::DKTable(sub2)))),
                Err(l) => Err(l + 1),
            },
        }
    }
}

/// A refusal names one of the keys.
pub proof fn lemma_insert_err_level(t: TableView, keys: Seq<Seq<char>>, v: TomlValue)
    ensures
        tv_insert_dotted(t, keys, v) matches Err(l) ==> 0 <= l && (keys.len() == 0 || l < keys.len()),
    decreases keys.len(),
{
    if keys.len() > 1 {
        match tv_index(t, keys[0]) {
            Some(i) => {
                if let TomlValue::DKTable(sub) = t[i].1 {
                    lemma_insert_err_level(sub, keys.drop_first(), v);
                }
            },
            None => {
                lemma_insert_err_level(TableView::empty(), keys.drop_first(), v);
            },
        }
    }
}

/// Into an empty table a dotted key always goes in.
pub proof fn lemma_insert_into_empty(keys: Seq<Seq<char>>, v: TomlValue)
    requires
        keys.len() > 0,
    ensures
        tv_insert_dotted(TableView::empty(), keys, v) is Ok,
    decreases keys.len(),
{
    if keys.len() > 1 {
        lemma_index_none(TableView::empty(), keys[0]);
        lemma_insert_into_empty(keys.drop_first(), v);
    } else {
        lemma_index_none(TableView::empty(), keys[0]);
    }
}

/// Law: a key that already leads to a value cannot be defined again: the
/// insertion is refused.
pub proof fn law_defined_key_refused(t: TableView, keys: Seq<Seq<char>>, v: TomlValue)
    requires
        lookup_path(t, keys) is Some,
    ensures
        tv_insert_dotted(t, keys, v) is Err,
    decreases keys.len(),
{
    if keys.len() > 1 {
        if let Some(i) = tv_index(t, keys[0]) {
            if let TomlValue::DKTable(sub) = t[i].1 {
                law_defined_key_refused(sub, keys.drop_first(), v);
            }
        }
    }
}

/// Law: a value inserted under a dotted key is found again under that key.
pub proof fn law_insert_then_lookup(t: TableView, keys: Seq<Seq<char>>, v: TomlValue)
    requires
        tv_insert_dotted(t, keys, v) is Ok,
    ensures
        lookup_path(tv_insert_dotted(t, keys, v)->Ok_0, keys) == Some(v),
    decreases keys.len(),
{
    let t2 = tv_insert_dotted(t, keys, v)->Ok_0;
    let k = keys[0];
    if keys.len() == 1 {
        lemma_index_none_of(t, k);
        lemma_index_is(t2, k, t.len() as int);
    } else {
        match tv_index(t, k) {
            Some(i) => {
                lemma_index_from(t, k, 0);
                if let TomlValue::DKTable(sub) = t[i].1 {
                    law_insert_then_lookup(sub, keys.drop_first(), v);
                    lemma_index_is(t2, k, i);
                }
            },
            None => {
                lemma_index_none_of(t, k);
                law_insert_then_lookup(TableView::empty(), keys.drop_first(), v);
                lemma_index_is(t2, k, t.len() as int);
            },
        }
    }
}

proof fn lemma_index_none_of(t: TableView, k: Seq<char>)
    requires
        tv_index(t, k) is None,
    ensures
        forall|m: int| 0 <= m < t.len() ==> #[trigger] t[m].0 != k,
{
    lemma_index_from(t, k, 0);
}

/// Law: inserting under a dotted key leaves every other top-level key
/// with its value, keeps the keys that were there, and adds no duplicate.
pub proof fn law_insert_frame(t: TableView, keys: Seq<Seq<char>>, v: TomlValue)
    requires
        tv_insert_dotted(t, keys, v) is Ok,
    ensures
        ({
            let t2 = tv_insert_dotted(t, keys, v)->Ok_0;
            &&& forall|k: Seq<char>| k != keys[0] ==> #[trigger] tv_get(t2, k) == tv_get(t, k)
            &&& keys_distinct(t) ==> keys_distinct(t2)
            &&& tv_index(t2, keys[0]) is Some
        }),
{
    let t2 = tv_insert_dotted(t, keys, v)->Ok_0;
    let k0 = keys[0];
    lemma_index_from(t, k0, 0);
    // the entries of t2 are those of t, with at most one replaced or one added, at key k0
    assert(t2.len() >= t.len());
    assert forall|m: int| 0 <= m < t.len() implies #[trigger] t2[m].0 == t[m].0 by {
        if keys.len() > 1 {
            if let Some(i) = tv_index(t, k0) {
                if let TomlValue::DKTable(sub) = t[i].1 {
                    assert(t[i].0 == k0);
                }
            }
        }
    }
    assert forall|m: int| 0 <= m < t2.len() && t2[m].0 != k0 implies m < t.len() && #[trigger] t2[m] == t[m] by {
        if keys.len() > 1 {
            if let Some(i) = tv_index(t, k0) {
                if let TomlValue::DKTable(sub) = t[i].1 {
                    assert(t[i].0 == k0);
                }
            }
        }
    }
    assert forall|k: Seq<char>| k != k0 implies #[trigger] tv_get(t2, k) == tv_get(t, k) by {
        lemma_index_from(t, k, 0);
        lemma_index_from(t2, k, 0);
        match tv_index(t, k) {
            Some(j) => {
                assert(t2[j].0 == k);
                lemma_index_is(t2, k, j);
                assert(t2[j] == t[j]);
            },
            None => {
                match tv_index(t2, k) {
                    Some(j) => {
                        assert(j < t.len() && t2[j] == t[j]);
                    },
                    None => {},
                }
            },
        }
    }
    if keys_distinct(t) {
        assert forall|a: int, b: int| 0 <= a < b < t2.len() implies t2[a].0 != t2[b].0 by {
            if b >= t.len() {
                // the added entry has key k0, which t did not have
                assert(t2[b].0 == k0);
                assert(tv_index(t, k0) is None);
                assert(t2[a].0 == t[a].0);
            } else {
                assert(t2[a].0 == t[a].0);
                assert(t2[b].0 == t[b].0);
            }
        }
    }
    match tv_index(t2, k0) {
        Some(_) => {},
        None => {
            lemma_index_none_of(t2, k0);
            match tv_index(t, k0) {
                Some(i) => {
                    assert(t2[i].0 == k0);
                },
                None => {
                    assert(t2[t.len() as int].0 == k0);
                },
            }
        },
    }
}

} // verus!

verus! {

impl TOMLTable {
    /// Inserts `val` under the dotted key `keys[idx..]`, creating the
    /// dotted-key tables on the way; on failure the table is left as it was
    /// and the position of the taken key is returned.
    pub fn insert_dotted(&mut self, keys: &Vec<String>, idx: usize, val: TOMLType) -> (r: Result<(), usize>)
        requires
            idx < keys.len(),
        ensures
            match tv_insert_dotted(old(self)@, keys.deep_view().skip(idx as int), val@) {
                Ok(t2) => r is Ok && final(self)@ == t2,
                Err(l) => idx + l < keys.len() && r == Err::<(), usize>((idx + l) as usize) && final(self)@ == old(self)@,
            },
        decreases keys.len() - idx,
    {
        let ghost ks = keys.deep_view().skip(idx as int);
        let ghost old_view = self@;
        proof { lemma_entries_view(self.entries@); }
        let key = &keys[idx];
        assert(ks[0] == key@);
        if idx + 1 == keys.len() {
            assert(ks.len() == 1);
            match self.find(key) {
                Some(_) => Err(idx),
                None => {
                    self.push_entry(key.clone(), val);
                    proof {
                        lemma_entries_view(self.entries@);
                        assert(self@ =~= old_view.push((key@, val@)));
                    }
                    Ok(())
                },
            }
        } else {
            assert(ks.drop_first() =~= keys.deep_view().skip(idx + 1));
            match self.find(key) {
                Some(i) => {
                    let ghost k = self.entries@[i as int].0;
                let v = self.replace_value(i, TOMLType::Bool(false));
                    match v {
                        TOMLType::DKTable(mut sub) => {
                            let r = sub.insert_dotted(keys, idx + 1, val);
                            self.replace_value(i, TOMLType::DKTable(sub));
                            proof {
                                lemma_entries_view(self.entries@);
                                lemma_entries_view(old(self).entries@);
                                lemma_index_from(old_view, key@, 0);
                                assert(self.entries@ =~= old(self).entries@.update(i as int, (k, TOMLType::DKTable(sub))));
                                match r {
                                    Ok(_) => {
                                        assert(self@ =~= old_view.update(i as int, (key@, value_view(TOMLType::DKTable(sub)))));
                                    },
                                    Err(_) => {
                                        assert(self@ =~= old_view);
                                    },
                                }
                            }
                            match r {
                                Ok(()) => Ok(()),
                                Err(l) => Err(l),
                            }
                        },
                        other => {
                            self.replace_value(i, other);
                            proof {
                                lemma_entries_view(self.entries@);
                                lemma_entries_view(old(self).entries@);
                                assert(self@ =~= old_view);
                            }
                            Err(idx)
                        },
                    }
                },
                None => {
                    let mut sub = TOMLTable::new();
                    proof { lemma_insert_into_empty(ks.drop_first(), val@); }
                    let r = sub.insert_dotted(keys, idx + 1, val);
                    self.push_entry(key.clone(), TOMLType::DKTable(sub));
                    proof {
                        lemma_entries_view(self.entries@);
                        assert(self@ =~= old_view.push((key@, value_view(TOMLType::DKTable(sub)))));
                    }
                    match r {
                        Ok(()) => Ok(()),
                        Err(l) => Err(l),
                    }
                },
            }
        }
    }
}

} // verus!

verus! {

impl TOMLType {
    /// The text of a string value.
    pub fn str(&self) -> (r: Option<&str>)
        ensures
            match self@ {
                TomlValue::BasicStr(s) | TomlValue::MultiStr(s) | TomlValue::LitStr(s) | TomlValue::MultiLitStr(s) => r
                    matches Some(t) && t@ == s,
                _ => r is None,
            },
    {
        match self {
            TOMLType::BasicStr(s) => Some(s.as_str()),
            TOMLType::MultiStr(s) => Some(s.as_str()),
            TOMLType::LitStr(s) => Some(s.as_str()),
            TOMLType::MultiLitStr(s) => Some(s.as_str()),
            _ => None,
        }
    }

    /// The number of an integer value.
    pub fn i64(&self) -> (r: Option<i64>)
        ensures
            match self@ {
                TomlValue::Int(n) => r == Some(n),
                _ => r is None,
            },
    {
        if let TOMLType::Int(n) = self {
            Some(*n)
        } else {
            None
        }
    }

    /// The text of a float value (as `str::parse::<f64>` reads it).
    pub fn float_text(&self) -> (r: Option<&str>)
        ensures
            match self@ {
                TomlValue::Float(s) => r matches Some(t) && t@ == s,
                _ => r is None,
            },
    {
        if let TOMLType::Float(s) = self {
            Some(s.as_str())
        } else {
            None
        }
    }

    /// The elements of an array value.
    pub fn array(&self) -> (r: Option<&Vec<TOMLType>>)
        ensures
            match self@ {
                TomlValue::Array(a) => r matches Some(v) && values_view(v@) == a,
                _ => r is None,
            },
    {
        if let TOMLType::Array(arr) = self {
            Some(arr)
        } else {
            None
        }
    }
}

} // verus!

verus! {

/// Law: a query descends into the value under its first key whenever that
/// value is a table of any kind (header, dotted-key or inline): the rest of
/// the query is answered by that table. Under a value that is no table a
/// longer query finds nothing, and a one-key query gives the value itself.
pub proof fn law_lookup_descends(t: TableView, k: Seq<char>, ks: Seq<Seq<char>>)
    requires
        ks.len() > 0,
    ensures
        tv_get(t, k) matches Some(TomlValue::InlineTable(s)) ==> lookup_path(t, seq![k] + ks) == lookup_path(s, ks),
        tv_get(t, k) matches Some(TomlValue::HTable(s)) ==> lookup_path(t, seq![k] + ks) == lookup_path(s, ks),
        tv_get(t, k) matches Some(TomlValue::DKTable(s)) ==> lookup_path(t, seq![k] + ks) == lookup_path(s, ks),
        tv_get(t, k) matches Some(v) && !(v is InlineTable || v is HTable || v is DKTable) ==> lookup_path(t, seq![k] + ks) is None,
        tv_get(t, k) is None ==> lookup_path(t, seq![k] + ks) is None,
        lookup_path(t, seq![k]) == tv_get(t, k),
{
    let p = seq![k] + ks;
    assert(p[0] == k);
    assert(p.drop_first() =~= ks);
    assert(seq![k][0] == k);
}

/// A successful insertion under a dotted key leaves every path that led to
/// a value other than a dotted-key table leading to the same value.
pub proof fn lemma_insert_keeps_value(t: TableView, keys: Seq<Seq<char>>, v: TomlValue, p: Seq<Seq<char>>, x: TomlValue)
    requires
        tv_insert_dotted(t, keys, v) is Ok,
        lookup_path(t, p) == Some(x),
        !(x is DKTable),
    ensures
        lookup_path(tv_insert_dotted(t, keys, v)->Ok_0, p) == Some(x),
    decreases keys.len(),
{
    let t2 = tv_insert_dotted(t, keys, v)->Ok_0;
    law_insert_frame(t, keys, v);
    let k0 = keys[0];
    let pk = p[0];
    if pk != k0 {
        assert(tv_get(t2, pk) == tv_get(t, pk));
    } else {
        lemma_index_from(t, k0, 0);
        if keys.len() == 1 {
            assert(tv_index(t, k0) is None);
        } else {
            match tv_index(t, k0) {
                Some(i) => {
                    if let TomlValue::DKTable(sub) = t[i].1 {
                        let sub2 = tv_insert_dotted(sub, keys.drop_first(), v)->Ok_0;
                        assert(t2 == t.update(i, (k0, TomlValue::DKTable(sub2))));
                        assert(tv_get(t, k0) == Some(TomlValue::DKTable(sub)));
                        assert(p.len() > 1);
                        lemma_index_is(t2, k0, i);
                        assert(tv_get(t2, k0) == Some(TomlValue::DKTable(sub2)));
                        lemma_insert_keeps_value(sub, keys.drop_first(), v, p.drop_first(), x);
                    }
                },
                None => {},
            }
        }
    }
}

} // verus!
