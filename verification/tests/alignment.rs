use gfa::cigar::{CIGAR, CIGAROp};
use gfa::cigar::CIGAROp::{D, E, H, I, M, N, P, S, X};
use gfa::gafpaf::GAFPath::{OrientIntv, StableId};
use gfa::gafpaf::GAFStep::{SegId, StableIntv};
use gfa::gfa::Orientation::{Backward, Forward};
use std::ops::Range;
use gfa::fields::split_bytes;
use gfa::gafpaf::{parse_gaf, parse_paf, GAF, GAFPath, GAFStep, PAF};
use gfa::gfa::Orientation;
use gfa::optfields::{OptField, OptFieldVal, OptionalFields};

fn fields(s: &[u8]) -> Vec<Vec<u8>> {
    split_bytes(s, b'\t')
}

#[test]
fn parse_gaf_lines() {
    let gaf_in1 = b"read1\t6\t0\t6\t+\t>s2>s3>s4\t12\t2\t8\t6\t6\t60\tcg:Z:6M";

    let path_i1: Vec<GAFStep> = [b"s2".to_vec(), b"s3".to_vec(), b"s4".to_vec()]
        .iter()
        .map(|s| SegId(Forward, s.clone()))
        .collect();

    let expected_1 = GAF::<OptionalFields> {
        seq_name: b"read1".to_vec(),
        seq_len: 6,
        seq_range: 0..6,
        strand: Forward,
        path: GAFPath::OrientIntv(path_i1),
        path_len: 12,
        path_range: 2..8,
        residue_matches: 6,
        block_length: 6,
        quality: 60,
        optional: vec![OptField::new(
            b"cg",
            OptFieldVal::PrintableString(b"6M".to_vec()),
        )],
    };

    let gaf_1: Option<GAF<OptionalFields>> = parse_gaf(&fields(gaf_in1));

    assert_eq!(Some(expected_1.clone()), gaf_1);

    let gaf_in2 = b"read1\t6\t0\t6\t+\tchr1\t12\t2\t8\t6\t6\t60\tcg:Z:6M";

    let expected_2 = GAF {
        path: GAFPath::StableId(b"chr1".to_vec()),
        ..expected_1
    };

    let gaf_2: Option<GAF<OptionalFields>> = parse_gaf(&fields(gaf_in2));

    assert_eq!(Some(expected_2.clone()), gaf_2);

    let gaf_in3 = b"read2\t7\t0\t7\t-\t>chr1:5-8>foo:8-16\t11\t1\t8\t7\t7\t60\tcg:Z:7M";

    let path_i3: Vec<GAFStep> = vec![
        StableIntv(Forward, b"chr1".to_vec(), 5..8),
        StableIntv(Forward, b"foo".to_vec(), 8..16),
    ];

    let expected_3 = GAF::<OptionalFields> {
        seq_name: b"read2".to_vec(),
        seq_len: 7,
        seq_range: 0..7,
        strand: Backward,
        path: GAFPath::OrientIntv(path_i3),
        path_len: 11,
        path_range: 1..8,
        residue_matches: 7,
        block_length: 7,
        quality: 60,
        optional: vec![OptField::new(
            b"cg",
            OptFieldVal::PrintableString(b"7M".to_vec()),
        )],
    };

    let gaf_3: Option<GAF<OptionalFields>> = parse_gaf(&fields(gaf_in3));

    assert_eq!(Some(expected_3), gaf_3);
}

#[test]
fn parse_gaf_step() {
    // segment ids
    let s1 = b">s1";
    let s2 = b"<segmentid>s1<s2";

    let (step1, i1) = GAFStep::parse_step(s1, 0).unwrap();
    // The step is parsed as an oriented segment ID
    assert_eq!(SegId(Forward, b"s1".to_vec()), step1);
    // If there's just one segment ID to parse, it consumes the entire input
    assert_eq!(b"", &s1[i1..]);

    let (step2, i2) = GAFStep::parse_step(s2, 0).unwrap();
    assert_eq!(SegId(Backward, b"segmentid".to_vec()), step2);
    assert_eq!(b">s1<s2", &s2[i2..]);

    // Can parse another step from the remaining bytes
    let (step2_2, i2_2) = GAFStep::parse_step(s2, i2).unwrap();
    assert_eq!(b"<s2", &s2[i2_2..]);
    assert_eq!(SegId(Forward, b"s1".to_vec()), step2_2);

    // stable intervals
    let s3 = b">chr1:123-456";
    let s4 = b"<chr2:123-456<chr2:455-780";

    let (step3, i3) = GAFStep::parse_step(s3, 0).unwrap();
    assert_eq!(b"", &s3[i3..]);
    assert_eq!(StableIntv(Forward, b"chr1".to_vec(), 123..456), step3);

    let (step4, i4) = GAFStep::parse_step(s4, 0).unwrap();
    assert_eq!(b"<chr2:455-780", &s4[i4..]);
    assert_eq!(StableIntv(Backward, b"chr2".to_vec(), 123..456), step4);

    let (step4_2, i4_2) = GAFStep::parse_step(s4, i4).unwrap();
    assert_eq!(b"", &s4[i4_2..]);
    assert_eq!(StableIntv(Backward, b"chr2".to_vec(), 455..780), step4_2);

    // Stops at tabs
    let with_tab = b"<s2\t266";
    let (s, i) = GAFStep::parse_step(with_tab, 0).unwrap();
    assert_eq!(b"\t266", &with_tab[i..]);
    assert_eq!(SegId(Backward, b"s2".to_vec()), s);

    // Must start with > or <
    assert!(GAFStep::parse_step(b"s1", 0).is_none());
}

#[test]
fn parse_gaf_paths() {
    let seg_fwd = |bs: &[u8]| SegId(Forward, bs.to_vec());
    let seg_bwd = |bs: &[u8]| SegId(Backward, bs.to_vec());
    let stbl_fwd = |bs: &[u8], r: Range<usize>| StableIntv(Forward, bs.to_vec(), r);
    let stbl_bwd = |bs: &[u8], r: Range<usize>| StableIntv(Backward, bs.to_vec(), r);

    // stable IDs
    let p_id1 = b"some_id1";
    let p_id2 = b"chr1\t123";

    let (p, i) = GAFPath::parse_path(p_id1).unwrap();
    assert_eq!(b"", &p_id1[i..]);
    assert_eq!(StableId(b"some_id1".to_vec()), p);

    let (p, i) = GAFPath::parse_path(p_id2).unwrap();
    assert_eq!(b"\t123", &p_id2[i..]);
    assert_eq!(StableId(b"chr1".to_vec()), p);

    println!("{:?}", GAFPath::parse_path(p_id1));
    println!("{:?}", GAFPath::parse_path(p_id2));

    // oriented paths

    let p_orient1 = b">s1>s2<s3<s4";
    let p_orient2 = b">chr1:5-8>foo:8-16<bar:16-20\t298";

    let (p, i) = GAFPath::parse_path(p_orient1).unwrap();
    assert_eq!(b"", &p_orient1[i..]);
    assert_eq!(
        OrientIntv(vec![
            seg_fwd(b"s1"),
            seg_fwd(b"s2"),
            seg_bwd(b"s3"),
            seg_bwd(b"s4")
        ]),
        p
    );

    let (p, i) = GAFPath::parse_path(p_orient2).unwrap();
    assert_eq!(b"\t298", &p_orient2[i..]);
    assert_eq!(
        OrientIntv(vec![
            stbl_fwd(b"chr1", 5..8),
            stbl_fwd(b"foo", 8..16),
            stbl_bwd(b"bar", 16..20),
        ]),
        p
    );

    // If the path doesn't start with an orientation, it must be a
    // stable ID, and thus cannot contain any > or <
    let err_input = b"s1>s2<s3\t123";
    let parse_error = GAFPath::parse_path(err_input);
    assert!(parse_error.is_none());
}

#[test]
fn parse_paf_record() {
    let paf_in = b"q1\t100\t5\t95\t-\tt9\t200\t10\t110\t80\t90\t255\tNM:i:7";
    let paf: PAF<OptionalFields> = parse_paf(&fields(paf_in)).unwrap();
    assert_eq!(paf.query_seq_name, b"q1".to_vec());
    assert_eq!(paf.query_seq_len, 100);
    assert_eq!(paf.query_seq_range, 5..95);
    assert_eq!(paf.strand, Orientation::Backward);
    assert_eq!(paf.target_seq_name, b"t9".to_vec());
    assert_eq!(paf.target_seq_len, 200);
    assert_eq!(paf.target_seq_range, 10..110);
    assert_eq!(paf.residue_matches, 80);
    assert_eq!(paf.block_length, 90);
    assert_eq!(paf.quality, 255);
    assert_eq!(
        paf.optional,
        vec![OptField::new(b"NM", OptFieldVal::SignedInt(7))]
    );

    // missing columns are fatal for the record, not defaulted
    let short = b"q1\t100\t5\t95\t-\tt9\t200";
    assert!(parse_paf::<OptionalFields>(&fields(short)).is_none());

    // a non-numeric required column is fatal for the record
    let bad = b"q1\t100\tfive\t95\t-\tt9\t200\t10\t110\t80\t90\t255";
    assert!(parse_paf::<OptionalFields>(&fields(bad)).is_none());

    // quality above a byte is fatal
    let badq = b"q1\t100\t5\t95\t-\tt9\t200\t10\t110\t80\t90\t256";
    assert!(parse_paf::<OptionalFields>(&fields(badq)).is_none());
}

#[test]
fn gaf_rejects_malformed_target() {
    // a bare delimiter with no valid step fails both sub-grammars
    let bad = b"read1\t6\t0\t6\t+\ts1>s2\t12\t2\t8\t6\t6\t60";
    assert!(parse_gaf::<OptionalFields>(&fields(bad)).is_none());
}

#[test]
fn cigar_display() {
    let input = b"20M12D3M4N9S10H5P11=9X";
    let input_str = std::str::from_utf8(input).unwrap();
    let (cigar, _) = CIGAR::parse(input).unwrap();
    let cigstr = String::from_utf8(cigar.to_bytes()).unwrap();
    assert_eq!(input_str, cigstr);
}

#[test]
fn cigar_parser() {
    let input = b"20M12D3M4N9S10H5P11=9X";
    let (cigar, used) = CIGAR::parse(input).unwrap();
    assert_eq!(b"", &input[used..]);
    assert_eq!(
        CIGAR(vec![
            (20, M),
            (12, D),
            (3, M),
            (4, N),
            (9, S),
            (10, H),
            (5, P),
            (11, E),
            (9, X)
        ]),
        cigar
    );

    let input = b"20M12D93  X";
    let (cigar, used) = CIGAR::parse(input).unwrap();
    assert_eq!(b"93  X", &input[used..]);
    assert_eq!(CIGAR(vec![(20, M), (12, D)]), cigar);

    assert!(CIGAR::parse(b"M20").is_none());
    assert!(CIGAR::parse(b"20").is_none());
    assert!(CIGAR::parse(b"").is_none());
}

#[test]
fn cigar_op_symbols() {
    assert_eq!(CIGAROp::E.to_u8(), b'=');
    assert_eq!(CIGAROp::M.to_u8(), b'M');
    assert_eq!(CIGAROp::from_u8(b'='), Some(CIGAROp::E));
    assert_eq!(CIGAROp::from_u8(b'X'), Some(CIGAROp::X));
    assert_eq!(CIGAROp::from_u8(b'Q'), None);
}

#[test]
fn cigar_overflow_fails() {
    // a run length beyond 32 bits fails the parse instead of wrapping
    assert!(CIGAR::parse(b"4294967296M").is_none());
    let (c, _) = CIGAR::parse(b"4294967295M").unwrap();
    assert_eq!(c, CIGAR(vec![(4294967295, CIGAROp::M)]));
}

#[test]
fn cigar_round_trips_on_zero_run() {
    let (c, used) = CIGAR::parse(b"0M5I").unwrap();
    assert_eq!(used, 4);
    assert_eq!(String::from_utf8(c.to_bytes()).unwrap(), "0M5I");
}
