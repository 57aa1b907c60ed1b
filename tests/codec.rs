use asn1_oer::oer::{decode, encode, DecodeError, EncodeError, Schema};
use asn1_oer::schema::AsnModule;

const GEO: &str = "Geometry DEFINITIONS AUTOMATIC TAGS ::= BEGIN
    Point ::= SEQUENCE { x INTEGER, y INTEGER }
    Line ::= SEQUENCE { p1 Point, p2 Point }
    TinyRectangle ::= SEQUENCE { width INTEGER (0..255), height INTEGER (0..255) }
    SmallRectangle ::= SEQUENCE { width INTEGER (0..65535), height INTEGER (0..65535) }
    Box ::= SEQUENCE { w INTEGER (0..4294967295), h INTEGER (0..18446744073709551615) }
END
";

fn geo() -> Schema<'static> {
    AsnModule::parse(GEO).unwrap().resolve().unwrap()
}

#[test]
fn point() {
    let schema = geo();
    let oer_bytes = [1u8, 254, 1, 2];
    assert_eq!(decode(&schema, "Point", &oer_bytes).unwrap(), vec![-2, 2]);
    assert_eq!(encode(&schema, "Point", &[-2, 2]).unwrap(), oer_bytes.to_vec());
}

#[test]
fn line() {
    let schema = geo();
    let oer_bytes = [1u8, 5, 1, 10, 1, 15, 1, 25];
    assert_eq!(decode(&schema, "Line", &oer_bytes).unwrap(), vec![5, 10, 15, 25]);
    assert_eq!(encode(&schema, "Line", &[5, 10, 15, 25]).unwrap(), oer_bytes.to_vec());
}

#[test]
fn tiny_rectangle() {
    let schema = geo();
    let oer_bytes = [10u8, 5];
    assert_eq!(decode(&schema, "TinyRectangle", &oer_bytes).unwrap(), vec![10, 5]);
    assert_eq!(encode(&schema, "TinyRectangle", &[10, 5]).unwrap(), oer_bytes.to_vec());
}

#[test]
fn small_rectangle() {
    let schema = geo();
    let oer_bytes = [0u8, 11, 0, 6];
    assert_eq!(decode(&schema, "SmallRectangle", &oer_bytes).unwrap(), vec![11, 6]);
    assert_eq!(encode(&schema, "SmallRectangle", &[11, 6]).unwrap(), oer_bytes.to_vec());
}

#[test]
fn wide_fixed_fields() {
    let schema = geo();
    let bytes = [0u8, 0, 1, 2, 255, 255, 255, 255, 255, 255, 255, 255];
    assert_eq!(decode(&schema, "Box", &bytes).unwrap(), vec![258, 18446744073709551615]);
    assert_eq!(encode(&schema, "Box", &[258, 18446744073709551615]).unwrap(), bytes.to_vec());
}

#[test]
fn trailing_bytes() {
    let schema = geo();
    assert_eq!(decode(&schema, "Point", &[1, 254, 1, 2, 0]), Err(DecodeError::TrailingBytes));
}

#[test]
fn unexpected_eof() {
    let schema = geo();
    assert_eq!(decode(&schema, "Point", &[1, 254]), Err(DecodeError::UnexpectedEof));
    assert_eq!(decode(&schema, "Point", &[1, 254, 2, 0]), Err(DecodeError::UnexpectedEof));
    assert_eq!(decode(&schema, "SmallRectangle", &[0, 11, 0]), Err(DecodeError::UnexpectedEof));
    assert_eq!(decode(&schema, "Point", &[]), Err(DecodeError::UnexpectedEof));
}

#[test]
fn decode_errors() {
    let schema = geo();
    assert_eq!(
        decode(&schema, "Point", &[9, 0, 0, 0, 0, 0, 0, 0, 0, 1, 1, 0]),
        Err(DecodeError::Overflow)
    );
    assert_eq!(decode(&schema, "Point", &[0, 1, 1]), Err(DecodeError::InvalidLength));
    assert_eq!(decode(&schema, "Point", &[9]), Err(DecodeError::UnexpectedEof));
    assert_eq!(decode(&schema, "Point", &[200, 1, 2, 3]), Err(DecodeError::UnexpectedEof));
    assert_eq!(decode(&schema, "Circle", &[1, 1]), Err(DecodeError::UnknownType));
    let cyclic = AsnModule::parse("M ::= BEGIN A ::= SEQUENCE { b B } B ::= SEQUENCE { a A } END")
        .unwrap()
        .resolve()
        .unwrap();
    assert_eq!(decode(&cyclic, "A", &[1, 1]), Err(DecodeError::NestingTooDeep));
    assert_eq!(encode(&cyclic, "A", &[1]), Err(EncodeError::NestingTooDeep));
}

#[test]
fn multi_octet_unbounded() {
    let schema = geo();
    assert_eq!(decode(&schema, "Point", &[2, 1, 0, 2, 255, 127]).unwrap(), vec![256, -129]);
    assert_eq!(encode(&schema, "Point", &[256, -129]).unwrap(), vec![2, 1, 0, 2, 255, 127]);
    let extremes = [i64::MIN as i128, i64::MAX as i128];
    let bytes = encode(&schema, "Point", &extremes).unwrap();
    assert_eq!(
        bytes,
        vec![8, 128, 0, 0, 0, 0, 0, 0, 0, 8, 127, 255, 255, 255, 255, 255, 255, 255]
    );
    assert_eq!(decode(&schema, "Point", &bytes).unwrap(), extremes.to_vec());
}

#[test]
fn encoding_is_minimal() {
    let schema = geo();
    assert_eq!(encode(&schema, "Point", &[127, -128]).unwrap(), vec![1, 127, 1, 128]);
    assert_eq!(encode(&schema, "Point", &[128, -129]).unwrap(), vec![2, 0, 128, 2, 255, 127]);
    assert_eq!(encode(&schema, "Point", &[0, -1]).unwrap(), vec![1, 0, 1, 255]);
}

#[test]
fn round_trip() {
    let schema = geo();
    let values: [(&str, Vec<i128>); 4] = [
        ("Point", vec![-70000, 3]),
        ("Line", vec![1, -1, 1000000, -1000000]),
        ("TinyRectangle", vec![0, 255]),
        ("SmallRectangle", vec![65535, 256]),
    ];
    for (name, vals) in values.iter() {
        let first = encode(&schema, name, vals).unwrap();
        let second = encode(&schema, name, vals).unwrap();
        assert_eq!(first, second);
        assert_eq!(&decode(&schema, name, &first).unwrap(), vals);
    }
}

#[test]
fn encode_errors() {
    let schema = geo();
    assert_eq!(encode(&schema, "TinyRectangle", &[256, 1]), Err(EncodeError::ValueOutOfRange));
    assert_eq!(encode(&schema, "TinyRectangle", &[-1, 1]), Err(EncodeError::ValueOutOfRange));
    assert_eq!(
        encode(&schema, "Point", &[i64::MAX as i128 + 1, 0]),
        Err(EncodeError::ValueOutOfRange)
    );
    assert_eq!(encode(&schema, "Line", &[1, 2, 3]), Err(EncodeError::MissingValue));
    assert_eq!(encode(&schema, "Point", &[1, 2, 3]), Err(EncodeError::ExtraValues));
    assert_eq!(encode(&schema, "Circle", &[1]), Err(EncodeError::UnknownType));
}

#[test]
fn padded_input_reencodes_shorter() {
    let schema = geo();
    let padded = [2u8, 0, 5, 1, 2];
    let vals = decode(&schema, "Point", &padded).unwrap();
    assert_eq!(vals, vec![5, 2]);
    let canonical = encode(&schema, "Point", &vals).unwrap();
    assert_eq!(canonical, vec![1, 5, 1, 2]);
    assert!(canonical.len() < padded.len());
    assert_eq!(decode(&schema, "Point", &canonical).unwrap(), vals);
}
