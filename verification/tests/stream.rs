//! Tests of the schema build, the scalar decoder, and the record stream.

use iso8211::catalog::Catalog;
use iso8211::ddf::{parse_ddf, parse_ddfs};
use iso8211::directory::DirectoryEntry;
use iso8211::error::ErrorKind;
use iso8211::formats::{ParseData, ParseType};
use iso8211::num::parse_to_usize;
use iso8211::scalar::{parse_scalar, parse_to_i64, Data};
use iso8211::text::parse_to_string;

fn concat(parts: &[&[u8]]) -> Vec<u8> {
    let mut out: Vec<u8> = Vec::new();
    for p in parts {
        out.extend_from_slice(p);
    }
    out
}

/// One record defining the `0001` field: record-identifier subfield as a
/// five-digit integer.
fn ddr_with_id_field() -> Vec<u8> {
    concat(&[
        b"00069",
        b"3LE1 0900058 ! 3404",
        b"00000020000",
        b"00010200002",
        b"\x1e",
        b"X\x1e",
        b"1600;&-A ID\x1f\x1f(I(5))\x1e",
    ])
}

#[test]
fn parse_to_usize_reads_decimal() {
    assert_eq!(parse_to_usize(b"00058").unwrap(), 58);
    assert_eq!(parse_to_usize(b"+7").unwrap(), 7);
    assert!(matches!(parse_to_usize(b"").unwrap_err().kind, ErrorKind::ParseInt));
    assert!(matches!(parse_to_usize(b"1x").unwrap_err().kind, ErrorKind::ParseInt));
    assert!(matches!(
        parse_to_usize(b"99999999999999999999999999").unwrap_err().kind,
        ErrorKind::ParseInt
    ));
}

#[test]
fn parse_to_i64_reads_signed_decimal() {
    assert_eq!(parse_to_i64(b"-0042").unwrap(), -42);
    assert_eq!(parse_to_i64(b"+5").unwrap(), 5);
    assert!(parse_to_i64(b"--5").is_err());
    assert!(parse_to_i64(b"-").is_err());
}

#[test]
fn parse_to_string_decodes_utf8() {
    // a two-byte UTF-8 scalar must come back as one char, not two
    let s = parse_to_string(&[0xC3, 0xA9]).unwrap();
    assert_eq!(s, "\u{e9}");
    assert!(matches!(parse_to_string(&[0xFF]).unwrap_err().kind, ErrorKind::Utf));
}

#[test]
fn scalar_fixed_integer_of_spaces_is_absent() {
    let mut pos: usize = 0;
    let v = parse_scalar(&ParseData::Fixed(ParseType::Integer, 3), b"   \x1e", &mut pos).unwrap();
    assert_eq!(v, Data::Integer(None));
    assert_eq!(pos, 3);
}

#[test]
fn scalar_variable_consumes_unit_separator() {
    let mut pos: usize = 0;
    let v = parse_scalar(&ParseData::Variable(ParseType::Text), b"abc\x1fde\x1e", &mut pos)
        .unwrap();
    assert_eq!(v, Data::Text("abc".to_string()));
    assert_eq!(pos, 4);
    let v2 = parse_scalar(&ParseData::Variable(ParseType::Text), b"abc\x1fde\x1e", &mut pos)
        .unwrap();
    assert_eq!(v2, Data::Text("de".to_string()));
    assert_eq!(pos, 6);
}

#[test]
fn scalar_past_the_end_is_an_error() {
    let mut pos: usize = 0;
    let err = parse_scalar(&ParseData::Fixed(ParseType::Text, 10), b"abc", &mut pos).unwrap_err();
    assert!(matches!(err.kind, ErrorKind::UnexpectedEof));
    let err2 = parse_scalar(&ParseData::Variable(ParseType::Text), b"abc", &mut pos).unwrap_err();
    assert!(matches!(err2.kind, ErrorKind::UnexpectedEof));
}

#[test]
fn ddf_with_matching_counts_decodes() {
    let region = concat(&[b"1600;&-A ID", b"\x1f", b"RCNM!RCID", b"\x1f", b"(A(2),I(10))"]);
    let entry = parse_ddf(&region).unwrap();
    assert_eq!(entry.name, "ID");
    assert_eq!(
        entry.foc,
        vec![
            ("RCNM".to_string(), ParseData::Fixed(ParseType::Text, 2)),
            ("RCID".to_string(), ParseData::Fixed(ParseType::Integer, 10)),
        ]
    );
}

#[test]
fn ddf_with_mismatched_counts_fails() {
    let region = concat(&[b"1600;&-A ID", b"\x1f", b"RCNM!RCID", b"\x1f", b"(A(2))"]);
    let err = parse_ddf(&region).unwrap_err();
    assert!(matches!(err.kind, ErrorKind::InvalidDDF(ref s) if s == "ID"));
}

#[test]
fn ddf_too_short_for_field_controls_fails() {
    let err = parse_ddf(b"x").unwrap_err();
    assert!(matches!(err.kind, ErrorKind::InvalidHeader));
}

#[test]
fn ddf_with_unreadable_name_fails() {
    let region = concat(&[b"1600;&-A \xFF", b"\x1f", b"\x1f", b"(A)"]);
    let err = parse_ddf(&region).unwrap_err();
    assert!(matches!(err.kind, ErrorKind::CouldNotParseName));
    assert!(matches!(err.cause.unwrap().kind, ErrorKind::Utf));
}

#[test]
fn ddfs_with_entry_out_of_bounds_fails() {
    let dirs = vec![
        DirectoryEntry { id: "0000".to_string(), length: 2, offset: 0 },
        DirectoryEntry { id: "0001".to_string(), length: 99, offset: 2 },
    ];
    let err = parse_ddfs(b"X\x1eshort", &dirs).unwrap_err();
    assert!(matches!(err.kind, ErrorKind::InvalidDDFS));
}

#[test]
fn catalog_of_empty_source_fails_to_bootstrap() {
    let err = Catalog::new(Vec::new()).unwrap_err();
    assert!(matches!(err.kind, ErrorKind::CouldNotParseCatalog));
}

#[test]
fn catalog_with_bad_field_definition_fails_to_bootstrap() {
    // the second directory entry points past the end of the field area
    let data = concat(&[
        b"00069",
        b"3LE1 0900058 ! 3404",
        b"00000020000",
        b"00010990002",
        b"\x1e",
        b"X\x1e",
        b"1600;&-A ID\x1f\x1f(I(5))\x1e",
    ]);
    let err = Catalog::new(data).unwrap_err();
    assert!(matches!(err.kind, ErrorKind::CouldNotParseCatalog));
    assert!(matches!(err.cause.unwrap().kind, ErrorKind::InvalidDDR));
}

#[test]
fn catalog_yields_record_with_integer_identifier() {
    let data = concat(&[
        &ddr_with_id_field(),
        b"00042",
        b"3LE1 0900058 ! 3404",
        b"00010060000",
        b"\x1e",
        b"00042\x1e",
    ]);
    let mut cat = Catalog::new(data).unwrap();
    let rec = cat.next().unwrap().unwrap();
    assert_eq!(rec.id(), Some(42));
    let field = rec.get("0001").unwrap();
    assert_eq!(field.get("DRID").unwrap(), &Data::Integer(Some(42)));
    assert!(rec.get("CATD").is_none());
    assert!(cat.next().is_none());
}

#[test]
fn catalog_yields_variable_width_subfields() {
    let data = concat(&[
        b"00077",
        b"3LE1 0900058 ! 3404",
        b"00000020000",
        b"CATD0280002",
        b"\x1e",
        b"X\x1e",
        b"1600;&-A CAT\x1fFILE!COMT\x1f(2A)\x1e",
        b"00048",
        b"3LE1 0900058 ! 3404",
        b"CATD0120000",
        b"\x1e",
        b"F.TXT\x1fhello\x1e",
    ]);
    let mut cat = Catalog::new(data).unwrap();
    let rec = cat.next().unwrap().unwrap();
    assert_eq!(rec.id(), None);
    let field = rec.get("CATD").unwrap();
    assert_eq!(field.get("FILE").unwrap(), &Data::Text("F.TXT".to_string()));
    assert_eq!(field.get("COMT").unwrap(), &Data::Text("hello".to_string()));
    assert!(cat.next().is_none());
}

#[test]
fn record_with_tag_missing_from_schema_is_an_error() {
    let data = concat(&[
        &ddr_with_id_field(),
        b"00042",
        b"3LE1 0900058 ! 3404",
        b"ZZZZ0060000",
        b"\x1e",
        b"00042\x1e",
    ]);
    let mut cat = Catalog::new(data).unwrap();
    let err = cat.next().unwrap().unwrap_err();
    assert!(matches!(err.kind, ErrorKind::InvalidDR));
}

#[test]
fn truncated_record_frame_is_an_error() {
    let data = concat(&[&ddr_with_id_field(), b"004"]);
    let mut cat = Catalog::new(data).unwrap();
    let err = cat.next().unwrap().unwrap_err();
    assert!(matches!(err.kind, ErrorKind::UnexpectedEof));
}
