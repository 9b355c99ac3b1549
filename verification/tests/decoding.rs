//! Tests of the structural decoders: leader, directory, field controls,
//! array descriptors and format controls.

use iso8211::controls::{parse_field_controls, DataStructureCode, DataTypeCode, FieldControls, TruncEscSeq};
use iso8211::directory::{parse_directory, DirectoryEntry};
use iso8211::error::ErrorKind;
use iso8211::formats::{parse_format_controls, ParseData, ParseType};
use iso8211::ddf::parse_array_descriptors;
use iso8211::leader::{parse_leader, Leader};

fn get_test_leader() -> Leader {
    Leader {
        rl: 241,
        il: '3',
        li: 'L',
        cei: 'E',
        vn: '1',
        ai: ' ',
        fcl: ['0', '9'],
        ba: 58,
        csi: [' ', '!', ' '],
        flf: 3,
        fpf: 4,
        rsv: '0',
        ftf: 4,
    }
}

fn get_test_directory() -> Vec<DirectoryEntry> {
    vec![
        DirectoryEntry {
            id: "0000".to_string(),
            length: 19,
            offset: 0,
        },
        DirectoryEntry {
            id: "0001".to_string(),
            length: 44,
            offset: 19,
        },
        DirectoryEntry {
            id: "CATD".to_string(),
            length: 120,
            offset: 63,
        },
    ]
}

fn get_test_field_controls() -> FieldControls {
    FieldControls {
        dsc: DataStructureCode::LS,
        dtc: DataTypeCode::MDT,
        aux: "00".to_string(),
        prt: ";&".to_string(),
        tes: TruncEscSeq::LE1,
    }
}

fn get_test_format_controls() -> Vec<ParseData> {
    vec![
        ParseData::Fixed(ParseType::Text, 2),
        ParseData::Fixed(ParseType::Integer, 10),
        ParseData::Fixed(ParseType::Integer, 10),
        ParseData::Variable(ParseType::Real),
        ParseData::Variable(ParseType::Real),
    ]
}

#[test]
fn test_parse_leader() {
    let length = 241;
    let leader = "3LE1 0900058 ! 3404".as_bytes();
    let expected = get_test_leader();
    let actual = parse_leader(leader, length).unwrap();
    assert_eq!(actual, expected);
}

#[test]
fn test_parse_directory() {
    let leader = get_test_leader();
    let directory = "0000019000000010440019CATD1200063".as_bytes();
    let expected = get_test_directory();
    let actual = parse_directory(directory, &leader).unwrap();
    assert_eq!(actual, expected);
}

#[test]
fn test_parse_field_controls() {
    let field_controls = "1600;&-A ".as_bytes();
    let expected = get_test_field_controls();
    let actual = parse_field_controls(field_controls).unwrap();
    assert_eq!(actual, expected);
}

#[test]
fn test_parse_array_descriptor() {
    let array_descriptor = "RCNM!RCID!FILE!LFIL!VOLM!IMPL!SLAT!WLON!NLAT!ELON!CRCS!COMT".as_bytes();
    let expected = vec![
        "RCNM", "RCID", "FILE", "LFIL", "VOLM", "IMPL", "SLAT", "WLON", "NLAT", "ELON", "CRCS",
        "COMT",
    ];
    let actual = parse_array_descriptors(array_descriptor).unwrap();
    assert_eq!(actual, expected);
}

#[test]
fn test_parse_format_controls_with_empty() {
    let array_descriptor = &[0u8; 0];
    assert!(parse_format_controls(array_descriptor).is_err())
}

#[test]
fn test_parse_format_controls() {
    let format_controls = "(A(2),2I(10),2R)".as_bytes();
    let expected = get_test_format_controls();
    let actual = parse_format_controls(format_controls).unwrap();
    assert_eq!(actual, expected);
}

#[test]
fn decoding_same_bytes_twice_is_identical() {
    let leader_bytes = "3LE1 0900058 ! 3404".as_bytes();
    assert_eq!(
        parse_leader(leader_bytes, 241).unwrap(),
        parse_leader(leader_bytes, 241).unwrap()
    );
    let leader = get_test_leader();
    let directory = "0000019000000010440019CATD1200063".as_bytes();
    assert_eq!(
        parse_directory(directory, &leader).unwrap(),
        parse_directory(directory, &leader).unwrap()
    );
    let fc = "1600;&-A ".as_bytes();
    assert_eq!(
        parse_field_controls(fc).unwrap(),
        parse_field_controls(fc).unwrap()
    );
    let fmts = "(A(2),2I(10),2R)".as_bytes();
    assert_eq!(
        parse_format_controls(fmts).unwrap(),
        parse_format_controls(fmts).unwrap()
    );
}

#[test]
fn directory_not_multiple_of_chunk_width_fails() {
    let leader = get_test_leader();
    // chunk width 4 + 3 + 4 = 11; 12 bytes leave a remainder of 1
    let directory = "000001900000".as_bytes();
    let err = parse_directory(directory, &leader).unwrap_err();
    assert!(matches!(err.kind, ErrorKind::BadDirectoryData));
}

#[test]
fn directory_of_exact_chunks_yields_one_entry_each() {
    let leader = get_test_leader();
    let directory = "00000190000CATD1200063".as_bytes();
    let actual = parse_directory(directory, &leader).unwrap();
    assert_eq!(actual.len(), 2);
    assert_eq!(actual[0].id, "0000");
    assert_eq!(actual[1].id, "CATD");
}

#[test]
fn empty_array_descriptor_synthesizes_reserved_tag() {
    let actual = parse_array_descriptors(&[]).unwrap();
    assert_eq!(actual, vec!["DRID"]);
}

#[test]
fn one_byte_format_controls_fail() {
    let err = parse_format_controls("(".as_bytes()).unwrap_err();
    assert!(matches!(err.kind, ErrorKind::EmptyFormatControls));
}

#[test]
fn unrecognized_format_letter_fails() {
    let err = parse_format_controls("(Z)".as_bytes()).unwrap_err();
    assert!(matches!(err.kind, ErrorKind::BadFormatControls));
}

#[test]
fn format_count_of_zero_expands_to_nothing() {
    let actual = parse_format_controls("(0A,I(3))".as_bytes()).unwrap();
    assert_eq!(actual, vec![ParseData::Fixed(ParseType::Integer, 3)]);
}

#[test]
fn bad_data_structure_code_is_reported() {
    let err = parse_field_controls("9600;&-A ".as_bytes()).unwrap_err();
    assert!(matches!(err.kind, ErrorKind::BadFieldControl));
    let cause = err.cause.unwrap();
    assert!(matches!(cause.kind, ErrorKind::BadDataStructureCode(ref s) if s == "9"));
}

#[test]
fn bad_data_type_code_is_reported() {
    let err = parse_field_controls("1900;&-A ".as_bytes()).unwrap_err();
    assert!(matches!(err.kind, ErrorKind::BadFieldControl));
    let cause = err.cause.unwrap();
    assert!(matches!(cause.kind, ErrorKind::BadDataTypeCode(ref s) if s == "9"));
}

#[test]
fn bad_trunc_esc_seq_is_reported() {
    let err = parse_field_controls("1600;&XXX".as_bytes()).unwrap_err();
    assert!(matches!(err.kind, ErrorKind::BadFieldControl));
    let cause = err.cause.unwrap();
    assert!(matches!(cause.kind, ErrorKind::BadTruncEscSeq(ref s) if s == "XXX"));
}
