//! The attribute table: a fixed header, a schema of typed columns, and
//! records of one fixed length.

use crate::bytes::{le_u16, le_u16_at, le_u32, le_u32_at};
use crate::text::{
    ascii_text, decimal_number, decode_text, digit_value, is_decimal_number, is_digit,
    lemma_ascii_is_utf8, lemma_decimal_number_is_ascii, nul_terminated, same_text, trim,
    trimmed, until_nul,
};
use std::rc::Rc;
use vstd::pervasive::unreached;
use vstd::prelude::*;
use vstd::slice::{slice_subrange, slice_to_vec};
use vstd::utf8::{decode_utf8, valid_utf8};

verus! {

/// A calendar date. Nothing is checked of the month and the day.
#[derive(Debug, PartialEq, Eq, Clone, Copy, Structural)]
pub struct Date {
    pub year: u32,
    pub month: u8,
    pub day: u8,
}

/// Why a field of a record has no value.
#[derive(Debug, PartialEq, Eq, Clone, Copy, Structural)]
pub enum DecodeError {
    /// The field's range ends behind the record's buffer.
    OutsideRecord,
    /// A date field of under eight bytes, or a logical field of none.
    TooShort,
    /// The content of a character or memo field is not UTF-8.
    InvalidText,
    /// The content of a numeric field is no decimal number.
    InvalidNumber,
    /// One of the eight bytes of a date is no digit.
    InvalidDate,
}

impl DecodeError {
    /// What the error says in words.
    pub open spec fn message_text(self) -> Seq<char> {
        match self {
            DecodeError::OutsideRecord => "field lies outside the record"@,
            DecodeError::TooShort => "field is too short for its type"@,
            DecodeError::InvalidText => "invalid text"@,
            DecodeError::InvalidNumber => "invalid number"@,
            DecodeError::InvalidDate => "invalid date"@,
        }
    }

    /// What the error says in words.
    pub fn message(&self) -> (text: String)
        ensures
            text@ == self.message_text(),
    {
        match self {
            DecodeError::OutsideRecord => "field lies outside the record".to_owned(),
            DecodeError::TooShort => "field is too short for its type".to_owned(),
            DecodeError::InvalidText => "invalid text".to_owned(),
            DecodeError::InvalidNumber => "invalid number".to_owned(),
            DecodeError::InvalidDate => "invalid date".to_owned(),
        }
    }
}

/// One decoded field.
#[derive(Debug, PartialEq)]
pub enum RecordField {
    /// A character or memo field, without the padding at its ends.
    Text(String),
    /// A numeric field: the decimal number as it is written in the record,
    /// without the padding at its ends.
    Number(String),
    Date(Date),
    Bool(bool),
}

/// What a `RecordField` holds.
pub enum FieldValue {
    Text(Seq<char>),
    Number(Seq<char>),
    Date(Date),
    Bool(bool),
}

impl View for RecordField {
    type V = FieldValue;

    open spec fn view(&self) -> FieldValue {
        match *self {
            RecordField::Text(text) => FieldValue::Text(text@),
            RecordField::Number(text) => FieldValue::Number(text@),
            RecordField::Date(date) => FieldValue::Date(date),
            RecordField::Bool(b) => FieldValue::Bool(b),
        }
    }
}

/// One column of the table.
#[derive(Debug)]
pub struct FieldDescriptor {
    pub name: String,
    /// The type tag, an ASCII letter.
    pub field_type: u8,
    /// The number of bytes the field takes in a record.
    pub field_length: u8,
    /// Where the field starts in a record.
    pub field_start: u32,
}

/// What a `FieldDescriptor` holds.
pub struct FieldSpec {
    pub name: Seq<char>,
    pub field_type: u8,
    pub field_length: u8,
    pub field_start: u32,
}

impl View for FieldDescriptor {
    type V = FieldSpec;

    open spec fn view(&self) -> FieldSpec {
        FieldSpec {
            name: self.name@,
            field_type: self.field_type,
            field_length: self.field_length,
            field_start: self.field_start,
        }
    }
}

/// Type tag of a character field, the letter `C`.
pub const CHARACTER: u8 = 0x43;

/// Type tag of a date field, the letter `D`.
pub const DATE: u8 = 0x44;

/// Type tag of a floating-point field, the letter `F`.
pub const FLOATING_POINT: u8 = 0x46;

/// Type tag of a logical field, the letter `L`.
pub const LOGICAL: u8 = 0x4c;

/// Type tag of a memo field, the letter `M`.
pub const MEMO: u8 = 0x4d;

/// Type tag of a numeric field, the letter `N`.
pub const NUMERIC: u8 = 0x4e;

/// `tag` is one of the six type tags.
pub open spec fn is_field_type(tag: u8) -> bool {
    tag == CHARACTER || tag == DATE || tag == FLOATING_POINT || tag == LOGICAL || tag == MEMO
        || tag == NUMERIC
}

/// The date in the three bytes of a table header: years since 1900, month,
/// day.
pub open spec fn binary_date(s: Seq<u8>) -> Date {
    Date { year: (1900 + s[0]) as u32, month: s[1], day: s[2] }
}

/// The first eight bytes of `s` are digits.
pub open spec fn is_text_date(s: Seq<u8>) -> bool {
    s.len() >= 8 && forall|i: int| 0 <= i < 8 ==> is_digit(#[trigger] s[i])
}

/// The date that the eight digits `YYYYMMDD` at the start of `s` spell.
pub open spec fn text_date(s: Seq<u8>) -> Date {
    Date {
        year: (1000 * digit_value(s[0]) + 100 * digit_value(s[1]) + 10 * digit_value(s[2])
            + digit_value(s[3])) as u32,
        month: (10 * digit_value(s[4]) + digit_value(s[5])) as u8,
        day: (10 * digit_value(s[6]) + digit_value(s[7])) as u8,
    }
}

/// Reads the last-modified date of a table header.
pub fn parse_date_binary(buffer: &[u8]) -> (date: Date)
    requires
        buffer.len() >= 3,
    ensures
        date == binary_date(buffer@),
{
    Date { year: 1900 + buffer[0] as u32, month: buffer[1], day: buffer[2] }
}

fn digit_at(buffer: &[u8], at: usize) -> (r: Option<u8>)
    requires
        at < buffer.len(),
    ensures
        r is Some <==> is_digit(buffer@[at as int]),
        r matches Some(d) ==> d == digit_value(buffer@[at as int]),
{
    let b = buffer[at];
    if 0x30 <= b && b <= 0x39 {
        Some(b - 0x30)
    } else {
        None
    }
}

fn two_digits(buffer: &[u8], at: usize) -> (r: Option<u8>)
    requires
        at + 2 <= buffer.len(),
    ensures
        r is Some <==> is_digit(buffer@[at as int]) && is_digit(buffer@[at + 1]),
        r matches Some(v) ==> v == 10 * digit_value(buffer@[at as int]) + digit_value(
            buffer@[at + 1],
        ),
{
    match (digit_at(buffer, at), digit_at(buffer, at + 1)) {
        (Some(tens), Some(ones)) => Some(10 * tens + ones),
        _ => None,
    }
}

/// Reads a date written as the eight digits `YYYYMMDD`.
pub fn parse_date_text(buffer: &[u8]) -> (r: Option<Date>)
    requires
        buffer.len() >= 8,
    ensures
        r is Some <==> is_text_date(buffer@),
        r matches Some(date) ==> date == text_date(buffer@),
{
    match (two_digits(buffer, 0), two_digits(buffer, 2), two_digits(buffer, 4), two_digits(
        buffer,
        6,
    )) {
        (Some(century), Some(year), Some(month), Some(day)) => Some(
            Date { year: 100 * (century as u32) + year as u32, month, day },
        ),
        _ => None,
    }
}

/// The schema as a sequence of what its descriptors hold.
pub open spec fn schema_view(fields: Seq<FieldDescriptor>) -> Seq<FieldSpec> {
    fields.map_values(|field: FieldDescriptor| field@)
}

/// A schema as a table holds it: each type tag is one of the six, the first
/// field starts at 0, and each field starts where the one before it ends.
pub open spec fn schema_wf(fields: Seq<FieldSpec>) -> bool {
    &&& forall|i: int| 0 <= i < fields.len() ==> is_field_type((#[trigger] fields[i]).field_type)
    &&& fields.len() > 0 ==> fields[0].field_start == 0
    &&& forall|i: int, j: int|
        0 <= i && j == i + 1 && j < fields.len() ==> (#[trigger] fields[j]).field_start == (
        #[trigger] fields[i]).field_start + fields[i].field_length
}

/// A logical field is true where its byte is one of `Y` (0x59), `y`
/// (0x79), `T` (0x54), `t` (0x74).
pub open spec fn is_true_byte(b: u8) -> bool {
    b == 0x59 || b == 0x79 || b == 0x54 || b == 0x74
}

/// The value of the field `field` in the record buffer `data`.
///
/// Character and memo fields are trimmed and decoded as UTF-8. Numeric and
/// floating-point fields are trimmed and must spell a decimal number. A
/// date field is read from its first eight bytes, a logical field from its
/// first byte. Of a field whose tag is none of the six nothing is said: no
/// table holds one.
pub open spec fn field_value(data: Seq<u8>, field: FieldSpec) -> Result<FieldValue, DecodeError> {
    let start = field.field_start as int;
    let end = start + field.field_length;
    let raw = data.subrange(start, end);
    let tag = field.field_type;
    if end > data.len() {
        Err(DecodeError::OutsideRecord)
    } else if tag == CHARACTER || tag == MEMO {
        if valid_utf8(trimmed(raw)) {
            Ok(FieldValue::Text(decode_utf8(trimmed(raw))))
        } else {
            Err(DecodeError::InvalidText)
        }
    } else if tag == DATE {
        if raw.len() < 8 {
            Err(DecodeError::TooShort)
        } else if is_text_date(raw) {
            Ok(FieldValue::Date(text_date(raw)))
        } else {
            Err(DecodeError::InvalidDate)
        }
    } else if tag == FLOATING_POINT || tag == NUMERIC {
        if is_decimal_number(trimmed(raw)) {
            Ok(FieldValue::Number(ascii_text(trimmed(raw))))
        } else {
            Err(DecodeError::InvalidNumber)
        }
    } else if tag == LOGICAL {
        if raw.len() < 1 {
            Err(DecodeError::TooShort)
        } else {
            Ok(FieldValue::Bool(is_true_byte(raw[0])))
        }
    } else {
        arbitrary()
    }
}

/// The index of the first field named `name`, if there is one.
pub open spec fn name_position(fields: Seq<FieldSpec>, name: Seq<char>) -> Option<int>
    decreases fields.len(),
{
    if fields.len() == 0 {
        None
    } else if name_position(fields.drop_last(), name) is Some {
        name_position(fields.drop_last(), name)
    } else if fields.last().name == name {
        Some(fields.len() - 1)
    } else {
        None
    }
}

/// What `name_position` finds is the first field of that name; it finds
/// nothing only where no field has the name.
pub proof fn lemma_name_position_first(fields: Seq<FieldSpec>, name: Seq<char>)
    ensures
        match name_position(fields, name) {
            Some(index) => {
                &&& 0 <= index < fields.len()
                &&& fields[index].name == name
                &&& forall|j: int| 0 <= j < index ==> (#[trigger] fields[j]).name != name
            },
            None => forall|i: int| 0 <= i < fields.len() ==> (#[trigger] fields[i]).name != name,
        },
    decreases fields.len(),
{
    if fields.len() > 0 {
        let front = fields.drop_last();
        lemma_name_position_first(front, name);
        assert(forall|j: int| 0 <= j < front.len() ==> front[j] == fields[j]);
    }
}

/// The first field of a given name is the one that `name_position` finds.
pub proof fn lemma_name_position(fields: Seq<FieldSpec>, name: Seq<char>, index: int)
    requires
        0 <= index < fields.len(),
        fields[index].name == name,
        forall|j: int| 0 <= j < index ==> (#[trigger] fields[j]).name != name,
    ensures
        name_position(fields, name) == Some(index),
{
    lemma_name_position_first(fields, name);
}

/// What a decoding returns, as values.
pub open spec fn decoded(r: Result<RecordField, DecodeError>) -> Result<FieldValue, DecodeError> {
    match r {
        Ok(value) => Ok(value@),
        Err(e) => Err(e),
    }
}

/// One record of a table: its bytes, and the schema of the table that it
/// belongs to.
pub struct Record {
    data: Vec<u8>,
    fields: Rc<Vec<FieldDescriptor>>,
}

/// What a `Record` holds.
pub struct RecordView {
    pub data: Seq<u8>,
    pub fields: Seq<FieldSpec>,
}

impl View for Record {
    type V = RecordView;

    closed spec fn view(&self) -> RecordView {
        RecordView { data: self.data@, fields: schema_view(self.fields@) }
    }
}

impl RecordView {
    /// The value of the field at `index`.
    pub open spec fn field(self, index: int) -> Result<FieldValue, DecodeError> {
        field_value(self.data, self.fields[index])
    }

    /// The value of the first field named `name`.
    pub open spec fn named_field(self, name: Seq<char>) -> Option<Result<FieldValue, DecodeError>> {
        match name_position(self.fields, name) {
            Some(index) => Some(self.field(index)),
            None => None,
        }
    }
}

impl Record {
    /// The schema is one that a table holds.
    pub open spec fn wf(&self) -> bool {
        schema_wf(self@.fields)
    }

    #[verifier::type_invariant]
    spec fn inv(self) -> bool {
        self.wf()
    }

    /// The number of fields in the schema.
    pub fn num_fields(&self) -> (count: usize)
        ensures
            count == self@.fields.len(),
    {
        self.fields.len()
    }

    /// Decodes the field at `index` of the schema.
    pub fn field_by_index(&self, index: usize) -> (r: Result<RecordField, DecodeError>)
        requires
            index < self@.fields.len(),
        ensures
            decoded(r) == self@.field(index as int),
    {
        proof {
            use_type_invariant(self);
        }
        let field = &self.fields[index];
        assert(field@ == self@.fields[index as int]);
        let start = field.field_start as usize;
        let length = field.field_length as usize;
        if start > self.data.len() || length > self.data.len() - start {
            return Err(DecodeError::OutsideRecord);
        }
        let raw = slice_subrange(self.data.as_slice(), start, start + length);
        let tag = field.field_type;
        if tag == CHARACTER || tag == MEMO {
            match decode_text(trim(raw)) {
                Some(text) => Ok(RecordField::Text(text)),
                None => Err(DecodeError::InvalidText),
            }
        } else if tag == DATE {
            if raw.len() < 8 {
                Err(DecodeError::TooShort)
            } else {
                match parse_date_text(raw) {
                    Some(date) => Ok(RecordField::Date(date)),
                    None => Err(DecodeError::InvalidDate),
                }
            }
        } else if tag == FLOATING_POINT || tag == NUMERIC {
            let number = trim(raw);
            if decimal_number(number) {
                proof {
                    lemma_decimal_number_is_ascii(number@);
                    lemma_ascii_is_utf8(number@);
                }
                match decode_text(number) {
                    Some(text) => Ok(RecordField::Number(text)),
                    None => unreached(),
                }
            } else {
                Err(DecodeError::InvalidNumber)
            }
        } else if tag == LOGICAL {
            if raw.len() < 1 {
                Err(DecodeError::TooShort)
            } else {
                let b = raw[0];
                Ok(RecordField::Bool(b == 0x59 || b == 0x79 || b == 0x54 || b == 0x74))
            }
        } else {
            unreached()
        }
    }

    /// Decodes the first field named `field_name`, if the schema has one.
    /// The name is compared as it is written, capitals apart from small
    /// letters.
    pub fn field_by_name(&self, field_name: &str) -> (r: Option<Result<RecordField, DecodeError>>)
        ensures
            match r {
                Some(value) => self@.named_field(field_name@) == Some(decoded(value)),
                None => self@.named_field(field_name@) is None,
            },
    {
        let mut i: usize = 0;
        while i < self.fields.len()
            invariant
                i <= self.fields.len(),
                self@.fields.len() == self.fields.len(),
                forall|j: int| 0 <= j < i ==> (#[trigger] self@.fields[j]).name != field_name@,
            decreases self.fields.len() - i,
        {
            if same_text(self.fields[i].name.as_str(), field_name) {
                proof {
                    lemma_name_position(self@.fields, field_name@, i as int);
                }
                return Some(self.field_by_index(i));
            }
            i += 1;
        }
        proof {
            lemma_name_position_first(self@.fields, field_name@);
        }
        None
    }
}

/// Why a table does not load.
#[derive(Debug, PartialEq, Eq, Clone, Copy, Structural)]
pub enum TableError {
    /// The bytes end before the header, a field descriptor or a record
    /// does.
    UnexpectedEof,
    /// The header gives itself a length under 33 bytes.
    InvalidHeaderLength,
    /// The type tag of a field descriptor is none of the six.
    InvalidFieldType,
    /// The name of a field is not UTF-8.
    InvalidFieldName,
}

impl TableError {
    /// What the error says in words.
    pub open spec fn message_text(self) -> Seq<char> {
        match self {
            TableError::UnexpectedEof => "failed to fill whole buffer"@,
            TableError::InvalidHeaderLength => "invalid header length"@,
            TableError::InvalidFieldType => "invalid field type"@,
            TableError::InvalidFieldName => "invalid field name"@,
        }
    }

    /// What the error says in words.
    pub fn message(&self) -> (text: String)
        ensures
            text@ == self.message_text(),
    {
        match self {
            TableError::UnexpectedEof => "failed to fill whole buffer".to_owned(),
            TableError::InvalidHeaderLength => "invalid header length".to_owned(),
            TableError::InvalidFieldType => "invalid field type".to_owned(),
            TableError::InvalidFieldName => "invalid field name".to_owned(),
        }
    }
}

/// The number of records that the header declares.
pub open spec fn record_count(bytes: Seq<u8>) -> int {
    le_u32_at(bytes, 4)
}

/// The length in bytes that the header declares for itself.
pub open spec fn header_len(bytes: Seq<u8>) -> int {
    le_u16_at(bytes, 8)
}

/// The length in bytes that the header declares for each record.
pub open spec fn record_len(bytes: Seq<u8>) -> int {
    le_u16_at(bytes, 10)
}

/// The number of field descriptors: what the header's length leaves for
/// them after its 32 fixed bytes and one terminator.
pub open spec fn field_count(bytes: Seq<u8>) -> int {
    (header_len(bytes) - 33) / 32
}

/// Where the descriptor of field `i` starts.
pub open spec fn descriptor_at(i: int) -> int {
    32 + 32 * i
}

/// The bytes of the name of field `i`: the first eleven bytes of its
/// descriptor, up to the first zero byte among them.
pub open spec fn descriptor_name(bytes: Seq<u8>, i: int) -> Seq<u8> {
    until_nul(bytes.subrange(descriptor_at(i), descriptor_at(i) + 11))
}

/// The type tag of field `i`.
pub open spec fn descriptor_type(bytes: Seq<u8>, i: int) -> u8 {
    bytes[descriptor_at(i) + 11]
}

/// The declared length of field `i`.
pub open spec fn descriptor_length(bytes: Seq<u8>, i: int) -> u8 {
    bytes[descriptor_at(i) + 16]
}

/// Where field `i` starts in a record: the sum of the declared lengths of
/// the fields before it.
pub open spec fn field_offset(bytes: Seq<u8>, i: int) -> int
    decreases i,
{
    if i <= 0 {
        0
    } else {
        field_offset(bytes, i - 1) + descriptor_length(bytes, i - 1)
    }
}

/// The schema entry that the descriptor of field `i` gives.
pub open spec fn field_spec(bytes: Seq<u8>, i: int) -> FieldSpec {
    FieldSpec {
        name: decode_utf8(descriptor_name(bytes, i)),
        field_type: descriptor_type(bytes, i),
        field_length: descriptor_length(bytes, i),
        field_start: field_offset(bytes, i) as u32,
    }
}

/// What is wrong with the descriptor of field `i`, if anything.
pub open spec fn descriptor_error(bytes: Seq<u8>, i: int) -> Option<TableError> {
    if bytes.len() < descriptor_at(i) + 32 {
        Some(TableError::UnexpectedEof)
    } else if !is_field_type(descriptor_type(bytes, i)) {
        Some(TableError::InvalidFieldType)
    } else if !valid_utf8(descriptor_name(bytes, i)) {
        Some(TableError::InvalidFieldName)
    } else {
        None
    }
}

/// The error of the first descriptor that has one, among those of the
/// fields from `from` up to `count`.
pub open spec fn schema_error(bytes: Seq<u8>, from: int, count: int) -> Option<TableError>
    decreases count - from,
{
    if from >= count {
        None
    } else if descriptor_error(bytes, from) is Some {
        descriptor_error(bytes, from)
    } else {
        schema_error(bytes, from + 1, count)
    }
}

/// Where record `k` starts: behind the header and one more byte.
pub open spec fn record_at(bytes: Seq<u8>, k: int) -> int {
    header_len(bytes) + 1 + k * record_len(bytes)
}

/// The bytes hold every record that the header declares. Records of no
/// bytes are held by any file.
pub open spec fn records_fit(bytes: Seq<u8>) -> bool {
    record_count(bytes) * record_len(bytes) == 0 || record_at(bytes, record_count(bytes))
        <= bytes.len()
}

/// The bytes of record `k`.
pub open spec fn record_data(bytes: Seq<u8>, k: int) -> Seq<u8> {
    if record_len(bytes) == 0 {
        Seq::empty()
    } else {
        bytes.subrange(record_at(bytes, k), record_at(bytes, k + 1))
    }
}

/// Why `bytes` are no table, if they are none: the first of the errors in
/// the order header, field descriptors, records.
pub open spec fn table_error(bytes: Seq<u8>) -> Option<TableError> {
    if bytes.len() < 32 {
        Some(TableError::UnexpectedEof)
    } else if header_len(bytes) < 33 {
        Some(TableError::InvalidHeaderLength)
    } else if schema_error(bytes, 0, field_count(bytes)) is Some {
        schema_error(bytes, 0, field_count(bytes))
    } else if !records_fit(bytes) {
        Some(TableError::UnexpectedEof)
    } else {
        None
    }
}

/// The schema that `bytes` declare.
pub open spec fn schema_of(bytes: Seq<u8>) -> Seq<FieldSpec> {
    Seq::new(field_count(bytes) as nat, |i: int| field_spec(bytes, i))
}

/// What a `DBF` holds.
pub struct TableView {
    pub last_modified: Date,
    /// The length of each record's buffer.
    pub record_len: int,
    pub fields: Seq<FieldSpec>,
    pub records: Seq<RecordView>,
}

/// The table that `bytes` hold.
pub open spec fn table_of(bytes: Seq<u8>) -> TableView {
    TableView {
        last_modified: binary_date(bytes.subrange(1, 4)),
        record_len: record_len(bytes),
        fields: schema_of(bytes),
        records: Seq::new(
            record_count(bytes) as nat,
            |k: int| RecordView { data: record_data(bytes, k), fields: schema_of(bytes) },
        ),
    }
}

/// A loaded table.
pub struct DBF {
    last_modified: Date,
    record_len: u16,
    fields: Rc<Vec<FieldDescriptor>>,
    records: Vec<Record>,
}

impl View for DBF {
    type V = TableView;

    closed spec fn view(&self) -> TableView {
        TableView {
            last_modified: self.last_modified,
            record_len: self.record_len as int,
            fields: schema_view(self.fields@),
            records: self.records@.map_values(|record: Record| record@),
        }
    }
}

impl TableView {
    /// The schema is well formed, and every record has it and a buffer of
    /// the table's record length.
    pub open spec fn wf(self) -> bool {
        &&& schema_wf(self.fields)
        &&& forall|k: int|
            0 <= k < self.records.len() ==> (#[trigger] self.records[k]).fields == self.fields
                && self.records[k].data.len() == self.record_len
    }
}

/// The start of a field is at most 255 bytes for each field before it.
pub proof fn lemma_field_offset_bound(bytes: Seq<u8>, i: int)
    requires
        0 <= i,
    ensures
        0 <= field_offset(bytes, i) <= 255 * i,
    decreases i,
{
    if i > 0 {
        lemma_field_offset_bound(bytes, i - 1);
    }
}

/// The schema that a table's bytes declare is well formed, if no
/// descriptor has an error.
pub proof fn lemma_schema_of_wf(bytes: Seq<u8>)
    requires
        bytes.len() >= 32,
        header_len(bytes) >= 33,
        schema_error(bytes, 0, field_count(bytes)) is None,
    ensures
        schema_wf(schema_of(bytes)),
{
    let fields = schema_of(bytes);
    let count = field_count(bytes);
    assert forall|i: int| 0 <= i < fields.len() implies is_field_type(
        (#[trigger] fields[i]).field_type,
    ) by {
        lemma_schema_error_none(bytes, 0, count, i);
    }
    assert forall|i: int, j: int| 0 <= i && j == i + 1 && j < fields.len() implies (
    #[trigger] fields[j]).field_start == (#[trigger] fields[i]).field_start
        + fields[i].field_length by {
        lemma_field_offset_bound(bytes, i);
        lemma_field_offset_bound(bytes, j);
    }
}

/// Where no descriptor from `from` up to `count` has an error, none of
/// them has.
proof fn lemma_schema_error_none(bytes: Seq<u8>, from: int, count: int, i: int)
    requires
        schema_error(bytes, from, count) is None,
        from <= i < count,
    ensures
        descriptor_error(bytes, i) is None,
    decreases count - from,
{
    if from < i {
        lemma_schema_error_none(bytes, from + 1, count, i);
    }
}

/// Where the records fit, each of them lies inside the bytes, one behind
/// the other.
proof fn lemma_record_at(bytes: Seq<u8>, k: int)
    requires
        records_fit(bytes),
        record_len(bytes) > 0,
        0 <= k < record_count(bytes),
    ensures
        header_len(bytes) + 1 <= record_at(bytes, k),
        record_at(bytes, k) + record_len(bytes) == record_at(bytes, k + 1),
        record_at(bytes, k + 1) <= bytes.len(),
{
    let size = record_len(bytes);
    let count = record_count(bytes);
    assert(count * size != 0) by (nonlinear_arith)
        requires
            count > 0,
            size > 0,
    ;
    assert((k + 1) * size == k * size + size) by (nonlinear_arith);
    assert((k + 1) * size <= count * size) by (nonlinear_arith)
        requires
            k + 1 <= count,
            size >= 0,
    ;
    assert(k * size >= 0) by (nonlinear_arith)
        requires
            k >= 0,
            size >= 0,
    ;
}

/// Reads the descriptors of `count` fields.
fn read_schema(bytes: &[u8], count: usize) -> (r: Result<Vec<FieldDescriptor>, TableError>)
    requires
        bytes.len() >= 32,
        count <= 2046,
    ensures
        match r {
            Ok(fields) => schema_error(bytes@, 0, count as int) is None && fields.len() == count
                && forall|i: int| 0 <= i < count ==> (#[trigger] fields[i])@ == field_spec(bytes@, i),
            Err(e) => schema_error(bytes@, 0, count as int) == Some(e),
        },
{
    let mut fields: Vec<FieldDescriptor> = Vec::with_capacity(count);
    let mut offset: u32 = 0;
    let mut i: usize = 0;
    while i < count
        invariant
            i <= count <= 2046,
            fields.len() == i,
            offset == field_offset(bytes@, i as int),
            schema_error(bytes@, 0, count as int) == schema_error(bytes@, i as int, count as int),
            forall|j: int| 0 <= j < i ==> (#[trigger] fields[j])@ == field_spec(bytes@, j),
        decreases count - i,
    {
        proof {
            lemma_field_offset_bound(bytes@, i as int);
        }
        let at = 32 + 32 * i;
        if bytes.len() < at + 32 {
            return Err(TableError::UnexpectedEof);
        }
        let field_type = bytes[at + 11];
        if !(field_type == CHARACTER || field_type == DATE || field_type == FLOATING_POINT
            || field_type == LOGICAL || field_type == MEMO || field_type == NUMERIC) {
            return Err(TableError::InvalidFieldType);
        }
        let name = match decode_text(nul_terminated(slice_subrange(bytes, at, at + 11))) {
            Some(name) => name,
            None => {
                return Err(TableError::InvalidFieldName);
            },
        };
        let field_length = bytes[at + 16];
        fields.push(FieldDescriptor { name, field_type, field_length, field_start: offset });
        offset += field_length as u32;
        i += 1;
    }
    Ok(fields)
}

/// Reads `count` records of `record_bytes` bytes each, the first of them
/// one byte behind the header. Nothing comes back where the bytes end
/// before the last record does.
fn read_records(
    bytes: &[u8],
    header_bytes: u16,
    record_bytes: u16,
    count: u32,
    fields: &Rc<Vec<FieldDescriptor>>,
) -> (r: Option<Vec<Record>>)
    requires
        bytes.len() >= 32,
        header_bytes == header_len(bytes@),
        record_bytes == record_len(bytes@),
        count == record_count(bytes@),
        schema_view(fields@) == schema_of(bytes@),
        schema_wf(schema_of(bytes@)),
    ensures
        r is Some <==> records_fit(bytes@),
        r matches Some(records) ==> records.len() == count && forall|k: int|
            0 <= k < count ==> (#[trigger] records[k])@ == (RecordView {
                data: record_data(bytes@, k),
                fields: schema_of(bytes@),
            }) && records[k]@.data.len() == record_bytes,
{
    assert(count * record_bytes <= 0xffff_ffff * 0xffff) by (nonlinear_arith)
        requires
            0 <= count <= 0xffff_ffff,
            0 <= record_bytes <= 0xffff,
    ;
    let total = count as u64 * record_bytes as u64;
    let first = header_bytes as u64 + 1;
    if total != 0 && first + total > bytes.len() as u64 {
        return None;
    }
    let mut records: Vec<Record> = Vec::new();
    let mut k: usize = 0;
    while k < count as usize
        invariant
            k <= count,
            records.len() == k,
            header_bytes == header_len(bytes@),
            record_bytes == record_len(bytes@),
            count == record_count(bytes@),
            schema_view(fields@) == schema_of(bytes@),
            schema_wf(schema_of(bytes@)),
            records_fit(bytes@),
            forall|j: int|
                0 <= j < k ==> (#[trigger] records[j])@ == (RecordView {
                    data: record_data(bytes@, j),
                    fields: schema_of(bytes@),
                }) && records[j]@.data.len() == record_bytes,
        decreases count - k,
    {
        let data = if record_bytes == 0 {
            Vec::new()
        } else {
            proof {
                lemma_record_at(bytes@, k as int);
                assert(record_at(bytes@, k + 1) <= bytes.len());
            }
            let start = header_bytes as usize + 1 + k * (record_bytes as usize);
            slice_to_vec(slice_subrange(bytes, start, start + record_bytes as usize))
        };
        let record = Record { data, fields: fields.clone() };
        records.push(record);
        k += 1;
    }
    Some(records)
}

impl DBF {
    /// The table is well formed.
    pub open spec fn wf(&self) -> bool {
        self@.wf()
    }

    #[verifier::type_invariant]
    spec fn inv(self) -> bool {
        self.wf()
    }

    /// Decodes a table from the bytes of a whole file.
    ///
    /// The header is read first, then one descriptor for each field, then
    /// the records, which start one byte behind the header. The first thing
    /// that is wrong decides the error.
    pub fn from_bytes(bytes: &[u8]) -> (r: Result<DBF, TableError>)
        ensures
            match r {
                Ok(table) => table_error(bytes@) is None && table@ == table_of(bytes@)
                    && table.wf(),
                Err(e) => table_error(bytes@) == Some(e),
            },
    {
        if bytes.len() < 32 {
            return Err(TableError::UnexpectedEof);
        }
        let last_modified = parse_date_binary(slice_subrange(bytes, 1, 4));
        let num_records = le_u32(bytes, 4);
        let num_header_bytes = le_u16(bytes, 8);
        let bytes_per_record = le_u16(bytes, 10);
        if num_header_bytes < 33 {
            return Err(TableError::InvalidHeaderLength);
        }
        let num_fields = ((num_header_bytes - 33) / 32) as usize;
        let fields = match read_schema(bytes, num_fields) {
            Ok(fields) => Rc::new(fields),
            Err(e) => {
                return Err(e);
            },
        };
        proof {
            lemma_schema_of_wf(bytes@);
            assert(schema_view(fields@) =~= schema_of(bytes@));
        }
        let records = match read_records(
            bytes,
            num_header_bytes,
            bytes_per_record,
            num_records,
            &fields,
        ) {
            Some(records) => records,
            None => {
                return Err(TableError::UnexpectedEof);
            },
        };
        let table = DBF { last_modified, record_len: bytes_per_record, fields, records };
        assert(table@.records =~= table_of(bytes@).records);
        Ok(table)
    }

    /// When the table was last modified, as its header says.
    pub fn last_modified(&self) -> (date: &Date)
        ensures
            *date == self@.last_modified,
    {
        &self.last_modified
    }

    /// The schema, in the order of the fields in a record.
    pub fn fields(&self) -> (fields: &[FieldDescriptor])
        ensures
            schema_view(fields@) == self@.fields,
    {
        self.fields.as_slice()
    }

    /// The number of fields in the schema.
    pub fn num_fields(&self) -> (count: usize)
        ensures
            count == self@.fields.len(),
            self.wf(),
    {
        proof {
            use_type_invariant(self);
        }
        self.fields.len()
    }

    /// The number of records.
    pub fn num_records(&self) -> (count: usize)
        ensures
            count == self@.records.len(),
    {
        self.records.len()
    }

    /// The record at `index`, if the table has that many.
    pub fn record(&self, index: usize) -> (record: Option<&Record>)
        ensures
            match record {
                Some(record) => index < self@.records.len() && record@ == self@.records[index as int],
                None => index >= self@.records.len(),
            },
            self.wf(),
    {
        proof {
            use_type_invariant(self);
        }
        if index < self.records.len() {
            Some(&self.records[index])
        } else {
            None
        }
    }

    /// An iterator over the records, from the first.
    pub fn iter_records(&self) -> (iter: RecordsIterator<'_>)
        ensures
            iter.table() == self,
            iter.position() == 0,
    {
        RecordsIterator { parent: self, index: 0 }
    }
}

impl core::ops::Index<usize> for DBF {
    type Output = Record;

    fn index(&self, index: usize) -> (record: &Record)
        ensures
            record@ == self@.records[index as int],
            self.wf(),
    {
        proof {
            use_type_invariant(self);
        }
        &self.records[index]
    }
}

impl vstd::std_specs::core::IndexSpecImpl<usize> for DBF {
    open spec fn index_req(&self, index: &usize) -> bool {
        *index < self@.records.len()
    }
}

/// A walk over the records of a table.
pub struct RecordsIterator<'a> {
    parent: &'a DBF,
    index: usize,
}

impl<'a> RecordsIterator<'a> {
    /// The table that is walked.
    pub closed spec fn table(&self) -> &'a DBF {
        self.parent
    }

    /// The number of records that were handed out.
    pub closed spec fn position(&self) -> nat {
        self.index as nat
    }

    #[verifier::type_invariant]
    spec fn inv(self) -> bool {
        self.index <= self.parent.records.len()
    }

    /// The next record, or nothing once all were handed out.
    pub fn next(&mut self) -> (record: Option<&'a Record>)
        ensures
            final(self).table() == old(self).table(),
            old(self).table().wf(),
            match record {
                Some(record) => old(self).position() < old(self).table()@.records.len()
                    && record@ == old(self).table()@.records[old(self).position() as int]
                    && final(self).position() == old(self).position() + 1,
                None => old(self).position() >= old(self).table()@.records.len()
                    && final(self).position() == old(self).position(),
            },
    {
        proof {
            use_type_invariant(&*self);
            use_type_invariant(self.parent);
        }
        if self.index < self.parent.records.len() {
            self.index += 1;
            Some(&self.parent.records[self.index - 1])
        } else {
            None
        }
    }
}

/// With fields of one byte or more, a later field starts behind an earlier
/// one.
pub proof fn lemma_field_offset_increases(bytes: Seq<u8>, i: int, j: int)
    requires
        0 <= i < j,
        forall|k: int| i <= k < j ==> descriptor_length(bytes, k) > 0,
    ensures
        field_offset(bytes, i) < field_offset(bytes, j),
    decreases j,
{
    if i + 1 < j {
        lemma_field_offset_increases(bytes, i, j - 1);
    }
}

/// The layout of a loaded schema. A table that loads has one schema entry
/// for each descriptor that its header leaves room for. Where every field
/// is declared with one byte or more, the fields start at strictly
/// increasing offsets; and where the declared lengths add up to the
/// declared length of a record, the last field ends where the record does.
pub proof fn lemma_schema_layout(bytes: Seq<u8>)
    requires
        table_error(bytes) is None,
        forall|k: int| 0 <= k < field_count(bytes) ==> descriptor_length(bytes, k) > 0,
        field_offset(bytes, field_count(bytes)) == record_len(bytes),
    ensures
        table_of(bytes).fields.len() == field_count(bytes),
        forall|i: int, j: int|
            0 <= i < j < field_count(bytes) ==> (#[trigger] table_of(bytes).fields[i]).field_start
                < (#[trigger] table_of(bytes).fields[j]).field_start,
        field_count(bytes) > 0 ==> table_of(bytes).fields.last().field_start + table_of(
            bytes,
        ).fields.last().field_length == record_len(bytes),
{
    let fields = table_of(bytes).fields;
    let count = field_count(bytes);
    assert forall|i: int, j: int| 0 <= i < j < count implies (#[trigger] fields[i]).field_start < (
    #[trigger] fields[j]).field_start by {
        lemma_field_offset_increases(bytes, i, j);
        lemma_field_offset_bound(bytes, i);
        lemma_field_offset_bound(bytes, j);
    }
    if count > 0 {
        lemma_field_offset_bound(bytes, count - 1);
    }
}

/// Decoding has no hidden state: whatever two decodings of one field of one
/// record return, they return the same.
pub proof fn lemma_field_by_index_repeats(
    record: RecordView,
    index: int,
    first: Result<RecordField, DecodeError>,
    second: Result<RecordField, DecodeError>,
)
    requires
        0 <= index < record.fields.len(),
        decoded(first) == record.field(index),
        decoded(second) == record.field(index),
    ensures
        decoded(first) == decoded(second),
{
}

/// A lookup by name is the lookup by the index of the first field of that
/// name, and finds nothing where no field has the name.
pub proof fn lemma_field_by_name_is_by_index(record: RecordView, name: Seq<char>)
    ensures
        match name_position(record.fields, name) {
            Some(index) => {
                &&& 0 <= index < record.fields.len()
                &&& record.fields[index].name == name
                &&& forall|j: int| 0 <= j < index ==> (#[trigger] record.fields[j]).name != name
                &&& record.named_field(name) == Some(record.field(index))
            },
            None => {
                &&& forall|i: int|
                    0 <= i < record.fields.len() ==> (#[trigger] record.fields[i]).name != name
                &&& record.named_field(name) is None
            },
        },
{
    lemma_name_position_first(record.fields, name);
}

} // verus!
