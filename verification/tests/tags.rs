use gfa::optfields::{
    drain_optional_field, encode_tag, parse_tag, OptField, OptFieldVal,
};
use gfa::error::ParseFieldError;

fn encode(f: &OptField) -> Vec<u8> {
    let mut out: Vec<u8> = Vec::new();
    encode_tag(f, &mut out);
    out
}

fn round_trips(f: OptField) {
    let bytes = encode(&f);
    let back = parse_tag(&bytes).expect("encoded tag must decode");
    assert_eq!(back, f);
}

#[test]
fn tag_round_trip_all_seven_kinds() {
    round_trips(OptField::new(b"aa", OptFieldVal::PrintableChar(b'x')));
    round_trips(OptField::new(b"ab", OptFieldVal::SignedInt(-123)));
    round_trips(OptField::new(b"ac", OptFieldVal::SignedInt(i64::MIN)));
    round_trips(OptField::new(b"ad", OptFieldVal::SignedInt(i64::MAX)));
    round_trips(OptField::new(b"ae", OptFieldVal::Float(b"3.14".to_vec())));
    round_trips(OptField::new(
        b"af",
        OptFieldVal::Float(b"-1.5e-3".to_vec()),
    ));
    round_trips(OptField::new(
        b"ag",
        OptFieldVal::PrintableString(b"hello world".to_vec()),
    ));
    round_trips(OptField::new(
        b"ah",
        OptFieldVal::JsonString(b"{\"k\": 1}".to_vec()),
    ));
    round_trips(OptField::new(
        b"ai",
        OptFieldVal::ByteArray(vec![10, 10, 12, 12, 15, 15, 0, 5]),
    ));
    round_trips(OptField::new(
        b"aj",
        OptFieldVal::IntArray(vec![1, -2, 3, 52124]),
    ));
    round_trips(OptField::new(b"ak", OptFieldVal::IntArray(vec![])));
    round_trips(OptField::new(
        b"al",
        OptFieldVal::FloatArray(vec![b"1.5".to_vec(), b"2e3".to_vec()]),
    ));
}

#[test]
fn tag_encodings_are_exact() {
    assert_eq!(
        encode(&OptField::new(b"RC", OptFieldVal::SignedInt(123))),
        b"RC:i:123".to_vec()
    );
    assert_eq!(
        encode(&OptField::new(b"SH", OptFieldVal::ByteArray(vec![10, 12, 15, 0]))),
        b"SH:H:ACF0".to_vec()
    );
    assert_eq!(
        encode(&OptField::new(b"AB", OptFieldVal::IntArray(vec![1, 2, 3]))),
        b"AB:B:i1,2,3".to_vec()
    );
    assert_eq!(
        encode(&OptField::new(
            b"cg",
            OptFieldVal::FloatArray(vec![b"1.5".to_vec(), b"2.5".to_vec()])
        )),
        b"cg:B:f1.5,2.5".to_vec()
    );
    assert_eq!(
        encode(&OptField::new(b"ij", OptFieldVal::PrintableChar(b'x'))),
        b"ij:A:x".to_vec()
    );
}

#[test]
fn tag_decoding() {
    let f = parse_tag(b"LN:i:+123").unwrap();
    assert_eq!(f.tag, [b'L', b'N']);
    assert_eq!(f.value, OptFieldVal::SignedInt(123));

    let f = parse_tag(b"SH:H:AACCFF05").unwrap();
    assert_eq!(
        f.value,
        OptFieldVal::ByteArray(vec![10, 10, 12, 12, 15, 15, 0, 5])
    );

    let f = parse_tag(b"AB:B:I1,2,3,52124").unwrap();
    assert_eq!(f.value, OptFieldVal::IntArray(vec![1, 2, 3, 52124]));

    let f = parse_tag(b"xf:f:2.5e2").unwrap();
    assert_eq!(f.value, OptFieldVal::Float(b"2.5e2".to_vec()));

    let f = parse_tag(b"zz:B:f1,2.5").unwrap();
    assert_eq!(
        f.value,
        OptFieldVal::FloatArray(vec![b"1".to_vec(), b"2.5".to_vec()])
    );

    let f = parse_tag(b"ab:B:i").unwrap();
    assert_eq!(f.value, OptFieldVal::IntArray(vec![]));
}

#[test]
fn tag_rejects_malformed_payloads() {
    // 'i' on a non-integer fails
    assert!(parse_tag(b"xx:i:abc").is_err());
    assert!(parse_tag(b"xx:i:12abc").is_err());
    assert!(parse_tag(b"xx:i:").is_err());
    // integer overflow fails
    assert!(parse_tag(b"xx:i:9223372036854775808").is_err());
    assert!(parse_tag(b"xx:i:-9223372036854775808").is_ok());
    // 'A' needs exactly one printable character
    assert!(parse_tag(b"xx:A:").is_err());
    assert!(parse_tag(b"xx:A:ab").is_err());
    // 'f' needs a float
    assert!(parse_tag(b"xx:f:1.2.3").is_err());
    assert!(parse_tag(b"xx:f:e5").is_err());
    assert!(parse_tag(b"xx:f:5.").is_err());
    assert!(parse_tag(b"xx:f:.5").is_ok());
    // 'Z' must be non-empty printable text
    assert!(parse_tag(b"xx:Z:").is_err());
    assert!(parse_tag(b"xx:Z:a\x07b").is_err());
    // 'H' wants uppercase hex digits
    assert!(parse_tag(b"xx:H:aacc").is_err());
    assert!(parse_tag(b"xx:H:").is_err());
    // a 'B' array with one unparsable element fails as a whole
    assert!(parse_tag(b"xx:B:i1,zz,3").is_err());
    assert!(parse_tag(b"xx:B:f1,oops").is_err());
    assert!(parse_tag(b"xx:B:").is_err());
    // the sub-type marker must be an integer marker or `f`
    assert!(parse_tag(b"xx:B:q1,2").is_err());
    // the tag name is one letter then one letter or digit
    assert!(parse_tag(b"1x:i:5").is_err());
    // the triplet needs its colons
    assert!(parse_tag(b"xx_i_5").is_err());
    assert!(parse_tag(b"x").is_err());
}

#[test]
fn unknown_tag_type_is_its_own_defect() {
    // the format defines a closed set of seven type characters
    let err = parse_tag(b"xx:Q:whatever").unwrap_err();
    assert!(matches!(err, ParseFieldError::Unknown));
    // a malformed payload of a known type is an ordinary field failure
    let err = parse_tag(b"xx:i:oops").unwrap_err();
    assert!(matches!(err, ParseFieldError::ParseFromStringError));
}

#[test]
fn remaining_tags_reserialize() {
    let mut tags = vec![
        OptField::new(b"RC", OptFieldVal::SignedInt(1)),
        OptField::new(b"KC", OptFieldVal::SignedInt(2)),
        OptField::new(b"ab", OptFieldVal::PrintableString(b"x".to_vec())),
    ];
    let peeled = drain_optional_field(&mut tags, b"RC");
    assert!(peeled.is_some());

    let mut out = b"S\t1\tA".to_vec();
    gfa::optfields::encode_tags(&tags, &mut out);
    assert_eq!(out, b"S\t1\tA\tKC:i:2\tab:Z:x".to_vec());
}

#[test]
fn drain_takes_first_match_and_keeps_order() {
    let a = OptField::new(b"RC", OptFieldVal::SignedInt(1));
    let b = OptField::new(b"KC", OptFieldVal::SignedInt(2));
    let c = OptField::new(b"RC", OptFieldVal::SignedInt(3));
    let mut tags = vec![a.clone(), b.clone(), c.clone()];

    let first = drain_optional_field(&mut tags, b"RC");
    assert_eq!(first, Some(a));
    assert_eq!(tags, vec![b.clone(), c.clone()]);

    assert_eq!(drain_optional_field(&mut tags, b"MQ"), None);
    assert_eq!(tags, vec![b, c]);
}
