use shapefile_dbf::dbf::{
    parse_date_binary, parse_date_text, Date, DecodeError, RecordField, TableError, DBF,
};

/// The header and the field descriptors of a table, with the terminator.
fn table_header(date: [u8; 3], records: u32, record_len: u16, fields: &[(&str, u8, u8)]) -> Vec<u8> {
    let header_len = 32 + 32 * fields.len() as u16 + 1;
    let mut bytes = vec![3u8];
    bytes.extend_from_slice(&date);
    bytes.extend_from_slice(&records.to_le_bytes());
    bytes.extend_from_slice(&header_len.to_le_bytes());
    bytes.extend_from_slice(&record_len.to_le_bytes());
    bytes.resize(32, 0);
    for &(name, tag, length) in fields {
        let mut descriptor = [0u8; 32];
        descriptor[..name.len()].copy_from_slice(name.as_bytes());
        descriptor[11] = tag;
        descriptor[16] = length;
        bytes.extend_from_slice(&descriptor);
    }
    bytes.push(0x0d);
    bytes
}

/// A whole table in the layout that tools write: each record is one flag
/// byte and then its fields, and the file ends with one marker byte.
fn table_file(date: [u8; 3], fields: &[(&str, u8, u8)], rows: &[Vec<&str>]) -> Vec<u8> {
    let record_len = 1 + fields.iter().map(|f| f.2 as u16).sum::<u16>();
    let mut bytes = table_header(date, rows.len() as u32, record_len, fields);
    for row in rows {
        bytes.push(b' ');
        for (value, field) in row.iter().zip(fields) {
            let width = field.2 as usize;
            assert!(value.len() <= width);
            let mut cell = vec![b' '; width];
            if field.1 == b'N' || field.1 == b'F' {
                cell[width - value.len()..].copy_from_slice(value.as_bytes());
            } else {
                cell[..value.len()].copy_from_slice(value.as_bytes());
            }
            bytes.extend_from_slice(&cell);
        }
    }
    bytes.push(0x1a);
    bytes
}

const STATES_SCHEMA: [(&str, u8, u8); 9] = [
    ("STATEFP", b'C', 2),
    ("STATENS", b'C', 8),
    ("AFFGEOID", b'C', 14),
    ("GEOID", b'C', 2),
    ("STUSPS", b'C', 2),
    ("NAME", b'C', 100),
    ("LSAD", b'C', 2),
    ("ALAND", b'N', 14),
    ("AWATER", b'N', 14),
];

const STATE_NAMES: [&str; 30] = [
    "Alabama", "Alaska", "Arizona", "Arkansas", "California", "Connecticut", "Delaware",
    "Florida", "Georgia", "Hawaii", "Idaho", "Illinois", "Indiana", "Iowa", "Kansas",
    "Kentucky", "Louisiana", "Maine", "Maryland", "Massachusetts", "Michigan", "Minnesota",
    "Mississippi", "Missouri", "Montana", "Colorado", "Nebraska", "Nevada", "New Hampshire",
    "New Jersey",
];

/// A table of the shape of the states table: its nine fields, its date, and
/// Colorado in the record at index 25.
fn states_table() -> Vec<u8> {
    let codes: Vec<String> = (0..STATE_NAMES.len()).map(|i| format!("{:02}", i + 1)).collect();
    let rows: Vec<Vec<&str>> = STATE_NAMES
        .iter()
        .zip(&codes)
        .map(|(name, code)| {
            vec![code.as_str(), "01779775", "0400000US08", code.as_str(), "XX", *name, "00", "268429343790", "1175112870"]
        })
        .collect();
    table_file([116, 2, 17], &STATES_SCHEMA, &rows)
}

#[test]
fn dbf_test() {
    let dbf = DBF::from_bytes(&states_table()).unwrap();
    assert_eq!(dbf.last_modified().year, 2016);
    assert_eq!(dbf.last_modified().month, 2);
    assert_eq!(dbf.last_modified().day, 17);

    for f in dbf.fields().iter() {
        println!("field: {:?}", f);
    }

    assert_eq!(dbf.fields().len(), 9);
    assert_eq!(dbf.fields()[0].name, "STATEFP");
    assert_eq!(dbf.fields()[0].field_type, b'C');

    assert_eq!(
        dbf[25].field_by_name("NAME").unwrap().unwrap(),
        RecordField::Text(String::from("Colorado"))
    );

    let mut records = dbf.iter_records();
    for _ in 0..5 {
        let rec = records.next().unwrap();
        for i in 0..dbf.num_fields() {
            println!("field number {} : {:?}", i, rec.field_by_index(i));
        }
    }
}

#[test]
fn schema_has_one_entry_for_each_descriptor() {
    for count in [0usize, 1, 2, 9, 40] {
        let names: Vec<String> = (0..count).map(|i| format!("F{}", i)).collect();
        let fields: Vec<(&str, u8, u8)> =
            names.iter().enumerate().map(|(i, n)| (n.as_str(), b'C', (i % 7 + 1) as u8)).collect();
        let total: u16 = fields.iter().map(|f| f.2 as u16).sum();
        let bytes = table_header([100, 1, 1], 0, total, &fields);
        let table = DBF::from_bytes(&bytes).unwrap();
        assert_eq!(table.num_fields(), count);
        assert_eq!(table.fields().len(), count);
        for (descriptor, field) in table.fields().iter().zip(&fields) {
            assert_eq!(descriptor.name, field.0);
            assert_eq!(descriptor.field_type, field.1);
            assert_eq!(descriptor.field_length, field.2);
        }
    }
}

#[test]
fn offsets_are_running_sums_and_end_with_the_record() {
    let fields = [("A", b'C', 3u8), ("B", b'N', 10), ("C", b'D', 8), ("D", b'L', 1), ("E", b'M', 255)];
    let bytes = table_header([100, 1, 1], 0, 277, &fields);
    let table = DBF::from_bytes(&bytes).unwrap();
    let starts: Vec<u32> = table.fields().iter().map(|f| f.field_start).collect();
    assert_eq!(starts, vec![0, 3, 13, 21, 22]);
    for pair in table.fields().windows(2) {
        assert!(pair[0].field_start < pair[1].field_start);
        assert_eq!(pair[0].field_start + pair[0].field_length as u32, pair[1].field_start);
    }
    let last = table.fields().last().unwrap();
    assert_eq!(last.field_start + last.field_length as u32, 277);
}

#[test]
fn offsets_do_not_wrap_on_a_wide_schema() {
    let names: Vec<String> = (0..300).map(|i| format!("F{}", i)).collect();
    let fields: Vec<(&str, u8, u8)> = names.iter().map(|n| (n.as_str(), b'C', 255u8)).collect();
    let bytes = table_header([100, 1, 1], 0, 10, &fields);
    let table = DBF::from_bytes(&bytes).unwrap();
    assert_eq!(table.fields()[299].field_start, 299 * 255);
}

#[test]
fn header_date_counts_from_1900() {
    let bytes = table_header([0, 12, 31], 0, 0, &[]);
    let table = DBF::from_bytes(&bytes).unwrap();
    assert_eq!(*table.last_modified(), Date { year: 1900, month: 12, day: 31 });
    let bytes = table_header([255, 0, 99], 0, 0, &[]);
    let table = DBF::from_bytes(&bytes).unwrap();
    assert_eq!(*table.last_modified(), Date { year: 2155, month: 0, day: 99 });
}

#[test]
fn parse_date_binary_reads_three_bytes() {
    assert_eq!(parse_date_binary(&[116, 2, 17]), Date { year: 2016, month: 2, day: 17 });
    assert_eq!(parse_date_binary(&[95, 7, 26, 200]), Date { year: 1995, month: 7, day: 26 });
}

#[test]
fn parse_date_text_reads_eight_digits() {
    assert_eq!(parse_date_text(b"20160217"), Some(Date { year: 2016, month: 2, day: 17 }));
    assert_eq!(parse_date_text(b"00000000"), Some(Date { year: 0, month: 0, day: 0 }));
    assert_eq!(parse_date_text(b"99999999"), Some(Date { year: 9999, month: 99, day: 99 }));
    assert_eq!(parse_date_text(b"19951231 and more"), Some(Date { year: 1995, month: 12, day: 31 }));
}

#[test]
fn parse_date_text_rejects_what_is_no_digit() {
    assert_eq!(parse_date_text(b"2016021 "), None);
    assert_eq!(parse_date_text(b"        "), None);
    assert_eq!(parse_date_text(b"+2016217"), None);
    assert_eq!(parse_date_text(b"2016-2-7"), None);
    assert_eq!(parse_date_text(b"2016021/"), None);
    assert_eq!(parse_date_text(b"2016021:"), None);
}

#[test]
fn short_input_is_unexpected_eof() {
    assert_eq!(DBF::from_bytes(&[]).err(), Some(TableError::UnexpectedEof));
    assert_eq!(DBF::from_bytes(&[0u8; 31]).err(), Some(TableError::UnexpectedEof));
}

#[test]
fn header_length_under_33_is_rejected() {
    let mut bytes = table_header([100, 1, 1], 0, 0, &[]);
    bytes[8] = 32;
    bytes[9] = 0;
    assert_eq!(DBF::from_bytes(&bytes).err(), Some(TableError::InvalidHeaderLength));
    bytes[8] = 0;
    assert_eq!(DBF::from_bytes(&bytes).err(), Some(TableError::InvalidHeaderLength));
    bytes[8] = 33;
    assert!(DBF::from_bytes(&bytes).is_ok());
}

#[test]
fn truncated_descriptor_is_unexpected_eof() {
    let bytes = table_header([100, 1, 1], 0, 4, &[("A", b'C', 2), ("B", b'C', 2)]);
    assert!(DBF::from_bytes(&bytes[..96]).is_ok());
    assert_eq!(DBF::from_bytes(&bytes[..95]).err(), Some(TableError::UnexpectedEof));
    assert_eq!(DBF::from_bytes(&bytes[..40]).err(), Some(TableError::UnexpectedEof));
}

#[test]
fn unknown_type_tag_is_invalid_field_type() {
    for tag in [b'X', b'c', b'0', 0u8, b'B', b'I'] {
        let bytes = table_header([100, 1, 1], 0, 4, &[("A", b'C', 2), ("B", tag, 2)]);
        assert_eq!(DBF::from_bytes(&bytes).err(), Some(TableError::InvalidFieldType), "{}", tag);
    }
    for tag in [b'C', b'D', b'F', b'L', b'M', b'N'] {
        let bytes = table_header([100, 1, 1], 0, 4, &[("A", b'C', 2), ("B", tag, 2)]);
        assert!(DBF::from_bytes(&bytes).is_ok(), "{}", tag);
    }
}

#[test]
fn first_wrong_descriptor_decides_the_error() {
    let bytes = table_header([100, 1, 1], 0, 4, &[("A", b'X', 2), ("B", b'C', 2)]);
    assert_eq!(DBF::from_bytes(&bytes[..64]).err(), Some(TableError::InvalidFieldType));
    let bytes = table_header([100, 1, 1], 0, 4, &[("A", b'C', 2), ("B", b'X', 2)]);
    assert_eq!(DBF::from_bytes(&bytes[..64]).err(), Some(TableError::UnexpectedEof));
}

#[test]
fn name_that_is_not_utf8_is_invalid_field_name() {
    let mut bytes = table_header([100, 1, 1], 0, 2, &[("A", b'C', 2)]);
    bytes[32] = 0xff;
    assert_eq!(DBF::from_bytes(&bytes).err(), Some(TableError::InvalidFieldName));
    bytes[43] = b'X';
    assert_eq!(DBF::from_bytes(&bytes).err(), Some(TableError::InvalidFieldType));
}

#[test]
fn name_runs_to_the_first_zero_byte() {
    let mut bytes = table_header([100, 1, 1], 0, 2, &[("ELEVENCHARS", b'C', 1), ("AB", b'C', 1)]);
    bytes[64 + 3] = b'Z';
    let table = DBF::from_bytes(&bytes).unwrap();
    assert_eq!(table.fields()[0].name, "ELEVENCHARS");
    assert_eq!(table.fields()[1].name, "AB");
}

#[test]
fn name_may_hold_more_than_ascii() {
    let bytes = table_header([100, 1, 1], 0, 2, &[("STRA\u{df}E", b'C', 2)]);
    let table = DBF::from_bytes(&bytes).unwrap();
    assert_eq!(table.fields()[0].name, "STRA\u{df}E");
}

#[test]
fn truncated_table_record_is_unexpected_eof() {
    let bytes = table_file([100, 1, 1], &[("A", b'C', 3)], &[vec!["abc"], vec!["def"]]);
    assert!(DBF::from_bytes(&bytes).is_ok());
    assert_eq!(DBF::from_bytes(&bytes[..bytes.len() - 1]).err(), Some(TableError::UnexpectedEof));
}

#[test]
fn table_without_records_needs_no_bytes_behind_the_header() {
    let bytes = table_header([100, 1, 1], 0, 10, &[("A", b'C', 10)]);
    let table = DBF::from_bytes(&bytes[..64]).unwrap();
    assert_eq!(table.num_records(), 0);
    assert_eq!(table.num_fields(), 1);
    assert!(table.iter_records().next().is_none());
}

#[test]
fn records_of_no_bytes_need_no_bytes() {
    let bytes = table_header([100, 1, 1], 3, 0, &[("A", b'C', 1)]);
    let table = DBF::from_bytes(&bytes[..64]).unwrap();
    assert_eq!(table.num_records(), 3);
    assert_eq!(table[2].field_by_index(0), Err(DecodeError::OutsideRecord));
}

#[test]
fn records_start_one_byte_behind_the_header() {
    let mut bytes = table_header([100, 1, 1], 2, 4, &[("A", b'C', 4)]);
    bytes.extend_from_slice(b"#abcdefgh");
    let table = DBF::from_bytes(&bytes).unwrap();
    assert_eq!(table.num_records(), 2);
    assert_eq!(table[0].field_by_index(0), Ok(RecordField::Text(String::from("abcd"))));
    assert_eq!(table[1].field_by_index(0), Ok(RecordField::Text(String::from("efgh"))));
}

fn one_field_table(tag: u8, content: &[u8]) -> DBF {
    let mut bytes = table_header([100, 1, 1], 1, content.len() as u16, &[("F", tag, content.len() as u8)]);
    bytes.push(b' ');
    bytes.extend_from_slice(content);
    DBF::from_bytes(&bytes).unwrap()
}

#[test]
fn character_field_is_trimmed_text() {
    for tag in [b'C', b'M'] {
        let table = one_field_table(tag, b"  New Mexico   ");
        assert_eq!(table[0].field_by_index(0), Ok(RecordField::Text(String::from("New Mexico"))));
        let table = one_field_table(tag, b"      ");
        assert_eq!(table[0].field_by_index(0), Ok(RecordField::Text(String::new())));
        let table = one_field_table(tag, "  Cura\u{e7}ao ".as_bytes());
        assert_eq!(table[0].field_by_index(0), Ok(RecordField::Text(String::from("Cura\u{e7}ao"))));
    }
}

#[test]
fn character_field_that_is_not_utf8_is_invalid_text() {
    let table = one_field_table(b'C', &[b' ', 0xe7, b'a', b' ']);
    assert_eq!(table[0].field_by_index(0), Err(DecodeError::InvalidText));
}

#[test]
fn numeric_field_is_a_trimmed_decimal_number() {
    for tag in [b'N', b'F'] {
        let table = one_field_table(tag, b"   268429343790");
        assert_eq!(table[0].field_by_index(0), Ok(RecordField::Number(String::from("268429343790"))));
        let table = one_field_table(tag, b" -12.50 ");
        let field = table[0].field_by_index(0).unwrap();
        assert_eq!(field, RecordField::Number(String::from("-12.50")));
        if let RecordField::Number(text) = field {
            assert_eq!(text.parse::<f64>(), Ok(-12.5));
        }
        let table = one_field_table(tag, b"1.5e3");
        assert_eq!(table[0].field_by_index(0), Ok(RecordField::Number(String::from("1.5e3"))));
    }
}

#[test]
fn numeric_field_that_is_no_number_is_invalid_number() {
    for content in [&b"        "[..], b"  12a   ", b"1 2", b"********", b"-", b"1,5", &[0x31, 0xff]] {
        let table = one_field_table(b'N', content);
        assert_eq!(table[0].field_by_index(0), Err(DecodeError::InvalidNumber));
        let table = one_field_table(b'F', content);
        assert_eq!(table[0].field_by_index(0), Err(DecodeError::InvalidNumber));
    }
}

#[test]
fn every_number_the_library_accepts_parses() {
    for content in ["0", "-0", "+7", "3.", ".25", "1e-7", "6.02E23", "inf", "-Infinity", "NaN", "00012"] {
        let table = one_field_table(b'N', content.as_bytes());
        match table[0].field_by_index(0) {
            Ok(RecordField::Number(text)) => assert!(text.parse::<f64>().is_ok(), "{}", text),
            other => panic!("{:?}", other),
        }
    }
}

#[test]
fn date_field_is_read_from_eight_digits() {
    let table = one_field_table(b'D', b"20160217");
    assert_eq!(
        table[0].field_by_index(0),
        Ok(RecordField::Date(Date { year: 2016, month: 2, day: 17 }))
    );
    let table = one_field_table(b'D', b"1999123100");
    assert_eq!(
        table[0].field_by_index(0),
        Ok(RecordField::Date(Date { year: 1999, month: 12, day: 31 }))
    );
}

#[test]
fn date_field_with_other_bytes_is_invalid_date() {
    for content in [&b"        "[..], b"2016 217", b"2016021x", b"+0160217"] {
        let table = one_field_table(b'D', content);
        assert_eq!(table[0].field_by_index(0), Err(DecodeError::InvalidDate));
    }
}

#[test]
fn date_field_under_eight_bytes_is_too_short() {
    let table = one_field_table(b'D', b"2016021");
    assert_eq!(table[0].field_by_index(0), Err(DecodeError::TooShort));
    let table = one_field_table(b'D', b"");
    assert_eq!(table[0].field_by_index(0), Err(DecodeError::TooShort));
}

#[test]
fn logical_field_is_true_for_four_letters() {
    for byte in 0..=255u8 {
        let table = one_field_table(b'L', &[byte]);
        let expected = byte == b'Y' || byte == b'y' || byte == b'T' || byte == b't';
        assert_eq!(table[0].field_by_index(0), Ok(RecordField::Bool(expected)), "{}", byte);
    }
    let table = one_field_table(b'L', b"Tx");
    assert_eq!(table[0].field_by_index(0), Ok(RecordField::Bool(true)));
}

#[test]
fn logical_field_of_no_bytes_is_too_short() {
    let table = one_field_table(b'L', b"");
    assert_eq!(table[0].field_by_index(0), Err(DecodeError::TooShort));
}

#[test]
fn field_behind_the_record_is_outside_record() {
    let mut bytes = table_header([100, 1, 1], 1, 5, &[("A", b'C', 3), ("B", b'C', 2), ("C", b'C', 1)]);
    bytes.extend_from_slice(b" abcde");
    let table = DBF::from_bytes(&bytes).unwrap();
    assert_eq!(table[0].field_by_index(0), Ok(RecordField::Text(String::from("abc"))));
    assert_eq!(table[0].field_by_index(1), Ok(RecordField::Text(String::from("de"))));
    assert_eq!(table[0].field_by_index(2), Err(DecodeError::OutsideRecord));
}

#[test]
fn a_wrong_value_spoils_only_its_own_field() {
    let fields = [("N", b'N', 4u8), ("T", b'C', 4), ("D", b'D', 8)];
    let table = DBF::from_bytes(&table_file(
        [100, 1, 1],
        &fields,
        &[vec!["x", "ok", "20200101"], vec!["12", "fine", "2020"]],
    ))
    .unwrap();
    assert_eq!(table[0].field_by_index(0), Err(DecodeError::InvalidNumber));
    assert_eq!(table[0].field_by_index(1), Ok(RecordField::Text(String::from("ok"))));
    assert_eq!(
        table[0].field_by_index(2),
        Ok(RecordField::Date(Date { year: 2020, month: 1, day: 1 }))
    );
    assert_eq!(table[1].field_by_index(0), Ok(RecordField::Number(String::from("12"))));
    assert_eq!(table[1].field_by_index(2), Err(DecodeError::InvalidDate));
}

#[test]
fn decoding_twice_gives_the_same() {
    let table = DBF::from_bytes(&states_table()).unwrap();
    for k in 0..table.num_records() {
        for i in 0..table.num_fields() {
            assert_eq!(table[k].field_by_index(i), table[k].field_by_index(i));
        }
    }
    let table = one_field_table(b'N', b"bad");
    assert_eq!(table[0].field_by_index(0), table[0].field_by_index(0));
}

#[test]
fn lookup_by_name_is_lookup_by_index() {
    let table = DBF::from_bytes(&states_table()).unwrap();
    for k in [0usize, 7, 25, 29] {
        for (i, field) in STATES_SCHEMA.iter().enumerate() {
            assert_eq!(table[k].field_by_name(field.0), Some(table[k].field_by_index(i)));
        }
    }
}

#[test]
fn lookup_of_an_absent_name_finds_nothing() {
    let table = DBF::from_bytes(&states_table()).unwrap();
    for name in ["name", "NAME ", "NAM", "", "POPULATION", "STATEF"] {
        assert_eq!(table[25].field_by_name(name), None, "{}", name);
    }
}

#[test]
fn lookup_takes_the_first_field_of_a_name() {
    let fields = [("A", b'C', 1u8), ("B", b'C', 1), ("A", b'C', 1)];
    let table = DBF::from_bytes(&table_file([100, 1, 1], &fields, &[vec!["x", "y", "z"]])).unwrap();
    assert_eq!(table[0].field_by_name("A"), Some(Ok(RecordField::Text(String::from("x")))));
    assert_eq!(table[0].field_by_name("B"), Some(Ok(RecordField::Text(String::from("y")))));
}

#[test]
fn lookup_hands_on_the_error_of_the_field() {
    let table = one_field_table(b'N', b"bad");
    assert_eq!(table[0].field_by_name("F"), Some(Err(DecodeError::InvalidNumber)));
}

#[test]
fn records_come_in_file_order() {
    let table = DBF::from_bytes(&states_table()).unwrap();
    assert_eq!(table.num_records(), STATE_NAMES.len());
    let mut records = table.iter_records();
    for name in STATE_NAMES {
        let record = records.next().unwrap();
        assert_eq!(record.field_by_name("NAME"), Some(Ok(RecordField::Text(String::from(name)))));
    }
    assert!(records.next().is_none());
    assert!(records.next().is_none());
}

#[test]
fn record_by_index_is_checked() {
    let table = DBF::from_bytes(&states_table()).unwrap();
    assert!(table.record(29).is_some());
    assert!(table.record(30).is_none());
    assert_eq!(
        table.record(25).unwrap().field_by_index(5),
        Ok(RecordField::Text(String::from("Colorado")))
    );
}

#[test]
fn table_errors_say_what_they_are() {
    assert_eq!(TableError::UnexpectedEof.message(), "failed to fill whole buffer");
    assert_eq!(TableError::InvalidHeaderLength.message(), "invalid header length");
    assert_eq!(TableError::InvalidFieldType.message(), "invalid field type");
    assert_eq!(TableError::InvalidFieldName.message(), "invalid field name");
    assert_eq!(DecodeError::OutsideRecord.message(), "field lies outside the record");
    assert_eq!(DecodeError::TooShort.message(), "field is too short for its type");
    assert_eq!(DecodeError::InvalidText.message(), "invalid text");
    assert_eq!(DecodeError::InvalidNumber.message(), "invalid number");
    assert_eq!(DecodeError::InvalidDate.message(), "invalid date");
}

#[test]
fn record_knows_the_size_of_its_schema() {
    let table = DBF::from_bytes(&states_table()).unwrap();
    assert_eq!(table[0].num_fields(), 9);
    assert_eq!(table[29].num_fields(), table.num_fields());
    let table = one_field_table(b'C', b"x");
    assert_eq!(table[0].num_fields(), 1);
}
