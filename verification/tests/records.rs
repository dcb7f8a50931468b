use gfa::error::{ParseError, ParseFieldError};
use gfa::fields::split_bytes;
use gfa::gfa::{Containment, GFA, Header, Line, Link, Orientation, Path, Segment};
use gfa::gfa::Orientation::{Backward, Forward};
use gfa::optfields::{drain_optional_field, OptField, OptFieldVal, OptionalFields};
use gfa::parser::{
    parse_containment, parse_gfa, parse_header, parse_line, parse_link, parse_path, parse_segment,
};

fn fields(s: &[u8]) -> Vec<Vec<u8>> {
    split_bytes(s, b'\t')
}

#[test]
fn can_parse_header() {
    let hdr = fields(b"VN:Z:1.0");
    let hdr_ = Header::<OptionalFields> {
        version: Some(b"1.0".to_vec()),
        optional: Vec::new(),
    };

    match parse_header::<OptionalFields>(&hdr) {
        Err(_) => {
            panic!("Error parsing header");
        }
        Ok(h) => assert_eq!(h, hdr_),
    }
}

#[test]
fn can_parse_segment() {
    let seg = fields(
        b"11\tACCTT\tLN:i:123\tSH:H:AACCFF05\tRC:i:123\tUR:Z:http://test.com/\tIJ:A:x\tAB:B:I1,2,3,52124",
    );

    let s = match parse_segment::<OptionalFields>(&seg) {
        Err(_) => panic!("Error parsing segment"),
        Ok(s) => s,
    };

    assert_eq!(s.name, b"11".to_vec());
    assert_eq!(s.sequence, b"ACCTT".to_vec());

    let mut opt_fields = s.optional.clone();
    let segment_length = drain_optional_field(&mut opt_fields, b"LN");
    let read_count = drain_optional_field(&mut opt_fields, b"RC");
    let fragment_count = drain_optional_field(&mut opt_fields, b"FC");
    let kmer_count = drain_optional_field(&mut opt_fields, b"KC");
    let sha256 = drain_optional_field(&mut opt_fields, b"SH");
    let uri = drain_optional_field(&mut opt_fields, b"UR");

    assert_eq!(
        segment_length.map(|f| f.value),
        Some(OptFieldVal::SignedInt(123))
    );
    assert_eq!(read_count.map(|f| f.value), Some(OptFieldVal::SignedInt(123)));
    assert_eq!(fragment_count, None);
    assert_eq!(kmer_count, None);
    assert_eq!(
        sha256.map(|f| f.value),
        Some(OptFieldVal::ByteArray(vec![10, 10, 12, 12, 15, 15, 0, 5]))
    );
    assert_eq!(
        uri.map(|f| f.value),
        Some(OptFieldVal::PrintableString(b"http://test.com/".to_vec()))
    );

    let opt1 = OptField::new(b"IJ", OptFieldVal::PrintableChar(b'x'));
    let opt2 = OptField::new(b"AB", OptFieldVal::IntArray(vec![1, 2, 3, 52124]));
    assert_eq!(opt_fields, vec![opt1, opt2]);
}

#[test]
fn can_parse_link() {
    let link = fields(b"11\t+\t12\t-\t4M");
    let link_ = Link::<Vec<u8>, OptionalFields> {
        from_segment: b"11".to_vec(),
        from_orient: Orientation::Forward,
        to_segment: b"12".to_vec(),
        to_orient: Orientation::Backward,
        overlap: b"4M".to_vec(),
        optional: Vec::new(),
    };
    match parse_link::<OptionalFields>(&link) {
        Err(_) => {
            panic!("Error parsing link");
        }
        Ok(l) => assert_eq!(l, link_),
    }
}

#[test]
fn can_parse_containment() {
    let cont = fields(b"1\t-\t2\t+\t110\t100M");

    let cont_ = Containment::<Vec<u8>, OptionalFields> {
        container_name: b"1".to_vec(),
        container_orient: Orientation::Backward,
        contained_name: b"2".to_vec(),
        contained_orient: Orientation::Forward,
        pos: 110,
        overlap: b"100M".to_vec(),
        optional: Vec::new(),
    };

    match parse_containment::<OptionalFields>(&cont) {
        Err(_) => {
            panic!("Error parsing containment");
        }
        Ok(c) => assert_eq!(c, cont_),
    }
}

#[test]
fn can_parse_path() {
    let path = fields(b"14\t11+,12-,13+\t4M,5M");

    let path_ = Path::<OptionalFields> {
        path_name: b"14".to_vec(),
        segment_names: b"11+,12-,13+".to_vec(),
        overlaps: vec![b"4M".to_vec(), b"5M".to_vec()],
        optional: Vec::new(),
    };

    match parse_path::<OptionalFields>(&path) {
        Err(_) => {
            panic!("Error parsing path");
        }
        Ok(p) => assert_eq!(p, path_),
    }
}

#[test]
fn can_parse_lines() {
    let input = b"H\tVN:Z:1.0
S\t1\tCAAATAAG
S\t2\tA
S\t3\tG
S\t4\tT
S\t5\tC
L\t1\t+\t2\t+\t0M
L\t1\t+\t3\t+\t0M
P\tx\t1+,3+,5+,6+,8+,9+,11+,12+,14+,15+\t8M,1M,1M,3M,1M,19M,1M,4M,1M,11M";

    let lines: Vec<Vec<u8>> = split_bytes(input, b'\n');
    let mut gfa: GFA<Vec<u8>, ()> = GFA::new();

    let gfa_correct = GFA::<Vec<u8>, ()> {
        header: Header {
            version: Some(b"1.0".to_vec()),
            optional: (),
        },
        segments: vec![
            Segment::new(b"1", b"CAAATAAG"),
            Segment::new(b"2", b"A"),
            Segment::new(b"3", b"G"),
            Segment::new(b"4", b"T"),
            Segment::new(b"5", b"C"),
        ],
        links: vec![
            Link::new(b"1", Orientation::Forward, b"2", Orientation::Forward, b"0M"),
            Link::new(b"1", Orientation::Forward, b"3", Orientation::Forward, b"0M"),
        ],
        containments: vec![],
        paths: vec![Path {
            path_name: b"x".to_vec(),
            segment_names: b"1+,3+,5+,6+,8+,9+,11+,12+,14+,15+".to_vec(),
            overlaps: vec![
                b"8M".to_vec(),
                b"1M".to_vec(),
                b"1M".to_vec(),
                b"3M".to_vec(),
                b"1M".to_vec(),
                b"19M".to_vec(),
                b"1M".to_vec(),
                b"4M".to_vec(),
                b"1M".to_vec(),
                b"11M".to_vec(),
            ],
            optional: (),
        }],
    };

    for l in lines.iter() {
        if let Ok(p) = parse_line::<()>(l) {
            gfa.insert_line(p);
        }
    }

    assert_eq!(gfa_correct, gfa);

    let folded = parse_gfa::<()>(&lines).expect("fold failed");
    assert_eq!(gfa_correct, folded);
}

#[test]
fn path_iter() {
    let path = Path::<()> {
        path_name: b"14".to_vec(),
        segment_names: b"11+,12-,13+".to_vec(),
        overlaps: vec![b"4M".to_vec(), b"5M".to_vec()],
        optional: (),
    };
    let mut path_iter = path.iter();
    assert_eq!(Some(Ok((b"11".to_vec(), Forward))), path_iter.next());
    assert_eq!(Some(Ok((b"12".to_vec(), Backward))), path_iter.next());
    assert_eq!(Some(Ok((b"13".to_vec(), Forward))), path_iter.next());
    assert_eq!(None, path_iter.next());
}

#[test]
fn path_iter_is_restartable_and_rejects_bad_steps() {
    let path = Path::<()> {
        path_name: b"p".to_vec(),
        segment_names: b"7+,8?".to_vec(),
        overlaps: vec![],
        optional: (),
    };
    let mut it = path.iter();
    assert_eq!(Some(Ok((b"7".to_vec(), Orientation::Forward))), it.next());
    assert!(matches!(it.next(), Some(Err(ParseFieldError::OrientationError))));
    let mut again = path.iter();
    assert_eq!(Some(Ok((b"7".to_vec(), Orientation::Forward))), again.next());
}

#[test]
fn segment_line_with_tag_scenario() {
    let line = b"S\t11\tACCTT\tRC:i:123";
    match parse_line::<OptionalFields>(line) {
        Ok(Line::Segment(s)) => {
            assert_eq!(s.name, b"11".to_vec());
            assert_eq!(s.sequence, b"ACCTT".to_vec());
            assert_eq!(
                s.optional,
                vec![OptField::new(b"RC", OptFieldVal::SignedInt(123))]
            );
        }
        _ => panic!("segment line did not parse as a segment"),
    }
}

#[test]
fn unknown_marker_is_recoverable_and_skipped() {
    let bad = parse_line::<()>(b"X\twhatever").unwrap_err();
    assert!(matches!(bad, ParseError::UnknownLineType));
    assert!(bad.can_safely_continue());

    let empty = parse_line::<()>(b"").unwrap_err();
    assert!(matches!(empty, ParseError::EmptyLine));
    assert!(empty.can_safely_continue());

    let lines = vec![
        b"S\t1\tA".to_vec(),
        b"X\tnot a record".to_vec(),
        b"".to_vec(),
        b"S\t2\tG".to_vec(),
    ];
    let gfa = parse_gfa::<()>(&lines).expect("recoverable lines must be skipped");
    assert_eq!(gfa.segments.len(), 2);
    assert_eq!(gfa.segments[0].name, b"1".to_vec());
    assert_eq!(gfa.segments[1].name, b"2".to_vec());
}

#[test]
fn malformed_record_is_fatal() {
    let lines = vec![b"S\t1\tA".to_vec(), b"L\t1\t?\t2\t+\t0M".to_vec()];
    let err = parse_gfa::<()>(&lines).unwrap_err();
    match err {
        ParseError::InvalidLine(ParseFieldError::OrientationError, raw) => {
            assert_eq!(raw, b"L\t1\t?\t2\t+\t0M".to_vec());
        }
        _ => panic!("expected an invalid-line error for the bad orientation"),
    }
    let short = vec![b"S\tonlyname".to_vec()];
    let err2 = parse_gfa::<()>(&short).unwrap_err();
    assert!(matches!(
        err2,
        ParseError::InvalidLine(ParseFieldError::MissingFields, _)
    ));
    assert!(!err2.can_safely_continue());
    assert!(err2.break_if_necessary().is_err());

    let badpos = vec![b"C\t1\t-\t2\t+\tzzz\t100M".to_vec()];
    let err3 = parse_gfa::<()>(&badpos).unwrap_err();
    assert!(matches!(
        err3,
        ParseError::InvalidLine(ParseFieldError::InvalidField("pos"), _)
    ));
}

#[test]
fn error_messages() {
    assert_eq!(
        ParseError::EmptyLine.message(),
        "Line was empty".to_string()
    );
    assert_eq!(
        ParseError::UnknownLineType.message(),
        "Line type was not one of 'H', 'S', 'L', 'C', 'P'".to_string()
    );
    assert_eq!(
        ParseFieldError::InvalidField("pos").message(),
        "Failed to parse field `pos`".to_string()
    );
    assert_eq!(
        ParseFieldError::MissingFields.message(),
        "Line is missing required fields".to_string()
    );
    let wrapped = ParseError::InvalidLine(ParseFieldError::OrientationError, b"L\tx".to_vec());
    assert_eq!(
        wrapped.message(),
        "Failed to parse line, error: Failed to parse an orientation character".to_string()
    );
}

#[test]
fn orientation_basics() {
    assert_eq!(Orientation::from_bytes(b"+"), Some(Orientation::Forward));
    assert_eq!(Orientation::from_bytes(b"-"), Some(Orientation::Backward));
    assert_eq!(Orientation::from_bytes(b"x"), None);
    assert_eq!(Orientation::from_bytes(b"++"), None);
    assert!(!Orientation::Forward.is_reverse());
    assert!(Orientation::Backward.is_reverse());
    assert_eq!(Orientation::default(), Orientation::Forward);
    assert_eq!(Orientation::Forward.to_byte(), b'+');
    assert_eq!(Orientation::Backward.to_byte(), b'-');
}

#[test]
fn gfa_into_iter_orders_records() {
    let lines = vec![
        b"P\tp\t1+\t*".to_vec(),
        b"S\t1\tA".to_vec(),
        b"L\t1\t+\t1\t-\t0M".to_vec(),
    ];
    let gfa = parse_gfa::<()>(&lines).unwrap();
    let out = gfa::gfa::gfa_into_iter(gfa);
    assert_eq!(out.len(), 3);
    assert!(matches!(out[0], Line::Segment(_)));
    assert!(matches!(out[1], Line::Link(_)));
    assert!(matches!(out[2], Line::Path(_)));
}
