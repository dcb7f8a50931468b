use gfa::fields::split_bytes;
use gfa::gfa::{parse_usize, Orientation, GFA};
use gfa::parser::parse_gfa;

fn graph(lines: &[&[u8]]) -> GFA<Vec<u8>, ()> {
    let owned: Vec<Vec<u8>> = lines.iter().map(|l| l.to_vec()).collect();
    parse_gfa::<()>(&owned).expect("graph lines must parse")
}

#[test]
fn usize_names_projects_whole_graph() {
    let g = graph(&[
        b"S\t11\tACCTT",
        b"S\t12\tTCAAGG",
        b"L\t11\t+\t12\t-\t4M",
        b"C\t11\t+\t12\t-\t3\t4M",
        b"P\t14\t11+,12-\t4M",
    ]);
    let p = g.usize_names().expect("all names are integers");
    assert_eq!(p.segments.len(), 2);
    assert_eq!(p.segments[0].name, 11);
    assert_eq!(p.segments[1].name, 12);
    assert_eq!(p.segments[0].sequence, b"ACCTT".to_vec());
    assert_eq!(p.links[0].from_segment, 11);
    assert_eq!(p.links[0].to_segment, 12);
    assert_eq!(p.links[0].from_orient, Orientation::Forward);
    assert_eq!(p.containments[0].container_name, 11);
    assert_eq!(p.containments[0].contained_name, 12);
    assert_eq!(p.containments[0].pos, 3);
    assert_eq!(p.paths[0].segment_names, b"11+,12-".to_vec());
}

#[test]
fn usize_names_is_all_or_nothing() {
    // one non-numeric segment name invalidates the whole projection
    let g = graph(&[b"S\t11\tACCTT", b"S\ttwelve\tTCAAGG"]);
    assert!(g.usize_names().is_none());

    // one non-numeric link end does too
    let g = graph(&[b"S\t11\tA", b"L\t11\t+\tx\t-\t4M"]);
    assert!(g.usize_names().is_none());

    // a path step with a non-numeric identity does too
    let g = graph(&[b"S\t11\tA", b"P\tp\t11+,ab-\t4M"]);
    assert!(g.usize_names().is_none());
}

#[test]
fn projection_of_integer_graph_is_identity() {
    // a graph whose identities are already integers projects to exactly
    // those integers; rendering them back and projecting again changes
    // nothing
    let g = graph(&[b"S\t7\tA", b"S\t8\tG", b"L\t7\t+\t8\t+\t0M", b"P\tp\t7+,8+\t0M"]);
    let once = g.usize_names().expect("integer names project");

    let rendered: Vec<Vec<u8>> = vec![
        format!("S\t{}\tA", once.segments[0].name).into_bytes(),
        format!("S\t{}\tG", once.segments[1].name).into_bytes(),
        format!(
            "L\t{}\t+\t{}\t+\t0M",
            once.links[0].from_segment, once.links[0].to_segment
        )
        .into_bytes(),
        b"P\tp\t7+,8+\t0M".to_vec(),
    ];
    let again = parse_gfa::<()>(&rendered)
        .unwrap()
        .usize_names()
        .expect("projected graph re-projects");
    assert_eq!(once, again);
}

#[test]
fn usize_segments_checks_every_step() {
    let g = graph(&[b"P\tp\t11+,12-\t*", b"P\tq\t11+,ab-\t*"]);
    assert!(g.paths[0].usize_segments());
    assert!(!g.paths[1].usize_segments());
}

#[test]
fn per_record_projection() {
    let g = graph(&[b"S\t42\tACGT", b"L\t1\t+\t2\t-\t*", b"C\t3\t+\t4\t-\t0\t*"]);
    let s = g.segments[0].usize_name().unwrap();
    assert_eq!(s.name, 42);
    assert_eq!(s.sequence, b"ACGT".to_vec());
    let l = g.links[0].usize_name().unwrap();
    assert_eq!((l.from_segment, l.to_segment), (1, 2));
    let c = g.containments[0].usize_name().unwrap();
    assert_eq!((c.container_name, c.contained_name), (3, 4));

    assert_eq!(parse_usize(b"0"), Some(0));
    assert_eq!(parse_usize(b"+7"), Some(7));
    assert_eq!(parse_usize(b"-7"), None);
    assert_eq!(parse_usize(b""), None);
    assert_eq!(parse_usize(b"1x"), None);
    assert_eq!(parse_usize(b"18446744073709551616"), None);
}

#[test]
fn split_terminator_semantics() {
    let v = split_bytes(b"a,b,,c,", b',');
    let expected: Vec<Vec<u8>> = vec![
        b"a".to_vec(),
        b"b".to_vec(),
        b"".to_vec(),
        b"c".to_vec(),
    ];
    assert_eq!(v, expected);
    assert_eq!(split_bytes(b"", b','), Vec::<Vec<u8>>::new());
    assert_eq!(split_bytes(b",", b','), vec![b"".to_vec()]);
}
