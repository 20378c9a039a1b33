//! Row encoding and decoding: typed values to CSV text and back.

use vstd::prelude::*;

use crate::error::StoreError;
use crate::numbers::{
    digits_only, digits_value, float_syntax, i64_value, is_digit, is_float_text, parse_i64,
    unsigned_part,
};
use crate::schema::{records_view, ColumnType};
use crate::text::views;

verus! {

/// A value of a row.
#[derive(Debug, Clone, PartialEq)]
pub enum Value {
    Int(i64),
    /// A float, held as its decimal text.
    Float(String),
    Text(String),
    /// A value of a kind that this engine does not store, by its kind's name.
    Other(String),
}

/// A value as a mathematical object.
pub enum ValueView {
    Int(int),
    Float(Seq<char>),
    Text(Seq<char>),
    Other(Seq<char>),
}

impl View for Value {
    type V = ValueView;

    open spec fn view(&self) -> ValueView {
        match self {
            Value::Int(n) => ValueView::Int(*n as int),
            Value::Float(s) => ValueView::Float(s@),
            Value::Text(s) => ValueView::Text(s@),
            Value::Other(s) => ValueView::Other(s@),
        }
    }
}

/// The views of a row's values.
pub open spec fn row_view(row: Seq<Value>) -> Seq<ValueView> {
    row.map_values(|v: Value| v@)
}

/// The value that a field's text holds under its column's type.
pub open spec fn field_value(text: Seq<char>, t: ColumnType) -> Option<ValueView> {
    match t {
        ColumnType::Int => match i64_value(text) {
            Some(n) => Some(ValueView::Int(n)),
            None => None,
        },
        ColumnType::Float => if float_syntax(text) {
            Some(ValueView::Float(text))
        } else {
            None
        },
        ColumnType::String => Some(ValueView::Text(text)),
    }
}

/// The number of fields that a record and its column types pair up.
pub open spec fn paired_len(fields: Seq<Seq<char>>, types: Seq<ColumnType>) -> int {
    if fields.len() <= types.len() {
        fields.len() as int
    } else {
        types.len() as int
    }
}

/// Whether every paired field reads as its column's type.
pub open spec fn record_decodes(fields: Seq<Seq<char>>, types: Seq<ColumnType>) -> bool {
    forall|i: int| 0 <= i < paired_len(fields, types) ==> (#[trigger] field_value(fields[i], types[i])).is_some()
}

/// The values of a record that decodes.
pub open spec fn record_values(fields: Seq<Seq<char>>, types: Seq<ColumnType>) -> Seq<ValueView> {
    Seq::new(paired_len(fields, types) as nat, |i: int| field_value(fields[i], types[i])->Some_0)
}

/// The decimal digit `d`.
pub open spec fn digit_char(d: int) -> char {
    seq!['0', '1', '2', '3', '4', '5', '6', '7', '8', '9'][d]
}

/// The decimal text of a natural number.
pub open spec fn nat_text(n: nat) -> Seq<char>
    decreases n,
{
    if n < 10 {
        seq![digit_char(n as int)]
    } else {
        nat_text((n / 10) as nat).push(digit_char((n % 10) as int))
    }
}

/// The plain decimal text of an integer.
pub open spec fn decimal_text(n: int) -> Seq<char> {
    if n < 0 {
        seq!['-'] + nat_text((-n) as nat)
    } else {
        nat_text(n as nat)
    }
}

/// The canonical text of a value, where its kind is stored.
pub open spec fn value_text(v: ValueView) -> Option<Seq<char>> {
    match v {
        ValueView::Int(n) => Some(decimal_text(n)),
        ValueView::Float(s) => Some(s),
        ValueView::Text(s) => Some(s),
        ValueView::Other(_) => None,
    }
}

/// Whether every value of a row has a text.
pub open spec fn row_encodes(row: Seq<ValueView>) -> bool {
    forall|i: int| 0 <= i < row.len() ==> (#[trigger] value_text(row[i])).is_some()
}

/// The texts of a row's values.
pub open spec fn row_texts(row: Seq<ValueView>) -> Seq<Seq<char>> {
    Seq::new(row.len(), |i: int| value_text(row[i])->Some_0)
}

/// What the CSV reader makes of a text: its records, or `None` where a
/// record is ragged or malformed.
pub uninterp spec fn csv_rows(text: Seq<char>) -> Option<Seq<Seq<Seq<char>>>>;

/// What the CSV writer makes of one record: its text with the record
/// terminator, or `None` where writing fails.
pub uninterp spec fn csv_record(fields: Seq<Seq<char>>) -> Option<Seq<char>>;

/// Relies on `csv::Reader` (no header handling, records of equal length):
/// reads every record of the text.
#[verifier::external_body]
fn read_csv_rows(text: &str) -> (r: Option<Vec<Vec<String>>>)
    ensures
        match r {
            Some(rows) => csv_rows(text@) == Some(records_view(rows@)),
            None => csv_rows(text@).is_none(),
        },
{
    let mut reader = csv::ReaderBuilder::new().has_headers(false).from_reader(text.as_bytes());
    let mut rows = Vec::new();
    for record in reader.records() {
        rows.push(record.ok()?.iter().map(String::from).collect());
    }
    Some(rows)
}

/// Relies on `csv::Writer::write_record`: the CSV text of one record.
#[verifier::external_body]
pub(crate) fn write_csv_record(fields: &Vec<String>) -> (r: Option<String>)
    ensures
        match r {
            Some(s) => csv_record(views(fields@)) == Some(s@),
            None => csv_record(views(fields@)).is_none(),
        },
{
    let mut writer = csv::WriterBuilder::new().from_writer(Vec::new());
    writer.write_record(fields).ok()?;
    String::from_utf8(writer.into_inner().ok()?).ok()
}

/// The records of a table's text.
pub fn parse_records(text: &str) -> (r: Result<Vec<Vec<String>>, StoreError>)
    ensures
        match r {
            Ok(rows) => csv_rows(text@) == Some(records_view(rows@)),
            Err(e) => csv_rows(text@).is_none() && e == StoreError::MalformedRecord,
        },
{
    match read_csv_rows(text) {
        Some(rows) => Ok(rows),
        None => Err(StoreError::MalformedRecord),
    }
}

/// The value that a field's text holds under its column's type.
pub fn value_from_str(val: &str, typ: ColumnType) -> (r: Result<Value, StoreError>)
    ensures
        match r {
            Ok(v) => field_value(val@, typ) == Some(v@),
            Err(e) => field_value(val@, typ).is_none() && e == StoreError::ValueParseError,
        },
{
    match typ {
        ColumnType::Int => match parse_i64(val) {
            Some(n) => Ok(Value::Int(n)),
            None => Err(StoreError::ValueParseError),
        },
        ColumnType::Float => if is_float_text(val) {
            Ok(Value::Float(val.to_owned()))
        } else {
            Err(StoreError::ValueParseError)
        },
        ColumnType::String => Ok(Value::Text(val.to_owned())),
    }
}

/// The values of a record, each read as its column's type.
pub fn read_csv_record(record: &Vec<String>, col_types: &Vec<ColumnType>) -> (r: Result<
    Vec<Value>,
    StoreError,
>)
    ensures
        match r {
            Ok(row) => record_decodes(views(record@), col_types@) && row_view(row@)
                == record_values(views(record@), col_types@),
            Err(e) => !record_decodes(views(record@), col_types@) && e
                == StoreError::ValueParseError,
        },
{
    let ghost fs = views(record@);
    let n = if record.len() <= col_types.len() {
        record.len()
    } else {
        col_types.len()
    };
    let mut row: Vec<Value> = Vec::new();
    let mut i: usize = 0;
    while i < n
        invariant
            i <= n,
            n == paired_len(fs, col_types@),
            fs == views(record@),
            row@.len() == i,
            forall|j: int| 0 <= j < i ==> (#[trigger] field_value(fs[j], col_types@[j])) == Some(
                row@[j]@,
            ),
        decreases n - i,
    {
        match value_from_str(record[i].as_str(), col_types[i]) {
            Ok(v) => {
                row.push(v);
            },
            Err(e) => {
                assert(field_value(fs[i as int], col_types@[i as int]).is_none());
                return Err(e);
            },
        }
        i = i + 1;
    }
    assert(row_view(row@) == record_values(fs, col_types@));
    Ok(row)
}

/// Relies on `<i64 as ToString>::to_string`: the value in plain decimal.
#[verifier::external_body]
fn i64_text(n: i64) -> (r: String)
    ensures
        r@ == decimal_text(n as int),
{
    n.to_string()
}

/// The canonical text of a value: plain decimal for numbers, the text
/// itself for strings; other kinds are not stored.
pub fn format_value(value: &Value) -> (r: Result<String, StoreError>)
    ensures
        match r {
            Ok(s) => value_text(value@) == Some(s@),
            Err(e) => value_text(value@).is_none() && e == StoreError::UnsupportedValue,
        },
{
    match value {
        Value::Int(n) => Ok(i64_text(*n)),
        Value::Float(s) => Ok(s.clone()),
        Value::Text(s) => Ok(s.clone()),
        Value::Other(_) => Err(StoreError::UnsupportedValue),
    }
}

/// A record's text without its line terminator.
pub open spec fn strip_terminator(s: Seq<char>) -> Seq<char> {
    if s.len() > 0 && s.last() == '\n' {
        s.drop_last()
    } else {
        s
    }
}

/// The line that holds a row in a table's file.
pub open spec fn row_line(row: Seq<ValueView>) -> Result<Seq<char>, StoreError> {
    if !row_encodes(row) {
        Err(StoreError::UnsupportedValue)
    } else {
        match csv_record(row_texts(row)) {
            Some(s) => Ok(strip_terminator(s)),
            None => Err(StoreError::IOError),
        }
    }
}

/// The line that holds a row in a table's file: the row's values as one
/// CSV record, without the line terminator.
pub fn encode_row(row: &Vec<Value>) -> (r: Result<String, StoreError>)
    ensures
        match r {
            Ok(s) => row_line(row_view(row@)) == Ok::<Seq<char>, StoreError>(s@),
            Err(e) => row_line(row_view(row@)) == Err::<Seq<char>, StoreError>(e),
        },
{
    let ghost rv = row_view(row@);
    let mut texts: Vec<String> = Vec::new();
    let mut i: usize = 0;
    while i < row.len()
        invariant
            i <= row.len(),
            rv == row_view(row@),
            texts@.len() == i,
            forall|j: int| 0 <= j < i ==> (#[trigger] value_text(rv[j])) == Some(texts@[j]@),
        decreases row.len() - i,
    {
        match format_value(&row[i]) {
            Ok(s) => {
                texts.push(s);
            },
            Err(e) => {
                assert(value_text(rv[i as int]).is_none());
                return Err(e);
            },
        }
        i = i + 1;
    }
    assert(views(texts@) == row_texts(rv));
    match write_csv_record(&texts) {
        Some(s) => {
            let cs = crate::text::chars_of(s.as_str());
            let n = cs.len();
            if n > 0 && cs[n - 1] == '\n' {
                let line = crate::text::string_of(&cs, 0, n - 1);
                assert(cs@.subrange(0, n - 1) == cs@.drop_last());
                Ok(line)
            } else {
                Ok(s)
            }
        },
        None => Err(StoreError::IOError),
    }
}

/// The decimal digit `d` is a digit whose value is `d`.
proof fn lemma_digit_char(d: int)
    requires
        0 <= d < 10,
    ensures
        is_digit(digit_char(d)),
        digit_char(d) as int - '0' as int == d,
{
    let ds = seq!['0', '1', '2', '3', '4', '5', '6', '7', '8', '9'];
    assert(ds[0] == '0' && ds[1] == '1' && ds[2] == '2' && ds[3] == '3' && ds[4] == '4');
    assert(ds[5] == '5' && ds[6] == '6' && ds[7] == '7' && ds[8] == '8' && ds[9] == '9');
}

/// The decimal text of a natural number is digits that read back as it.
proof fn lemma_nat_text(n: nat)
    ensures
        nat_text(n).len() > 0,
        digits_only(nat_text(n)),
        digits_value(nat_text(n)) == n,
    decreases n,
{
    let t = nat_text(n);
    if n < 10 {
        lemma_digit_char(n as int);
        assert(t.drop_last() == Seq::<char>::empty());
        assert(t.last() == digit_char(n as int));
        assert(digits_value(t.drop_last()) == 0);
        assert(digits_value(t) == 10 * digits_value(t.drop_last()) + (t.last() as int - '0' as int));
    } else {
        let q = (n / 10) as nat;
        let r = (n % 10) as int;
        lemma_nat_text(q);
        lemma_digit_char(r);
        assert(t.drop_last() == nat_text(q));
        assert(t.last() == digit_char(r));
        assert forall|i: int| 0 <= i < t.len() implies is_digit(#[trigger] t[i]) by {
            if i < t.len() - 1 {
                assert(t[i] == nat_text(q)[i]);
            }
        }
        assert(10 * q + r == n);
        assert(digits_value(t) == 10 * digits_value(t.drop_last()) + (t.last() as int - '0' as int));
    }
}

/// An integer value's text reads back as the same integer: a row's `Int`
/// values survive being written and read under an `Int` column.
pub proof fn lemma_int_text_round_trip(n: int)
    requires
        i64::MIN <= n <= i64::MAX,
    ensures
        i64_value(decimal_text(n)) == Some(n),
        field_value(decimal_text(n), ColumnType::Int) == Some(ValueView::Int(n)),
{
    let t = decimal_text(n);
    if n < 0 {
        let m = (-n) as nat;
        lemma_nat_text(m);
        assert(t[0] == '-');
        assert(unsigned_part(t) == nat_text(m));
    } else {
        lemma_nat_text(n as nat);
        assert(!(t[0] == '+' || t[0] == '-')) by {
            assert(is_digit(t[0]));
        }
        assert(unsigned_part(t) == t);
    }
}

/// A text value reads back as the same text under a `String` column.
pub proof fn lemma_text_round_trip(s: Seq<char>)
    ensures
        field_value(s, ColumnType::String) == Some(ValueView::Text(s)),
{
}

} // verus!
