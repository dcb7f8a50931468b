//! The per-record-kind grammars of the graph format, the line
//! classifier, and the driving fold that accumulates a graph while
//! skipping the two recoverable line kinds.

use vstd::prelude::*;

use crate::error::{ParseError, ParseFieldError};
use crate::fields::{has_byte, split_bytes, split_sep, views_of};
use crate::gfa::{
    orientation_of, Containment, GFA, Header, Line, Link, Orientation, Path, Segment,
};
use crate::optfields::{
    all_tags_valid, is_alpha, parsed_tags, spec_parse_tag, parse_tag, OptFieldVal, OptFields,
    TagModel,
};

verus! {

/// A record or path name: non-empty and free of the column delimiter.
pub open spec fn name_token_ok(t: Seq<u8>) -> bool {
    t.len() > 0 && !has_byte(t, 9)
}

/// A byte a stored sequence may consist of.
pub open spec fn seq_char(b: u8) -> bool {
    is_alpha(b) || b == 61 || b == 46
}

/// A sequence column: the `*` sentinel meaning absent, or a non-empty
/// run of sequence bytes.
pub open spec fn sequence_token_ok(t: Seq<u8>) -> bool {
    t == seq![42u8] || (t.len() > 0 && forall|i: int| 0 <= i < t.len() ==> seq_char(#[trigger] t[i]))
}

/// Checks a name column.
fn check_name(t: &Vec<u8>) -> (r: bool)
    ensures
        r == name_token_ok(t@),
{
    t.len() > 0 && !crate::fields::contains_byte(t.as_slice(), 9)
}

/// Checks a sequence column.
fn check_sequence(t: &Vec<u8>) -> (r: bool)
    ensures
        r == sequence_token_ok(t@),
{
    if t.len() == 1 && t[0] == 42 {
        proof {
            assert(t@ =~= seq![42u8]);
        }
        return true;
    }
    if t.len() == 0 {
        proof {
            assert(t@ != seq![42u8]);
        }
        return false;
    }
    proof {
        assert(seq![42u8].len() == 1 && seq![42u8][0] == 42u8);
        assert(t@ != seq![42u8]);
    }
    let mut i: usize = 0;
    while i < t.len()
        invariant
            i <= t@.len(),
            t@ != seq![42u8],
            forall|j: int| 0 <= j < i ==> seq_char(#[trigger] t@[j]),
        decreases t@.len() - i,
    {
        let b = t[i];
        if !((65 <= b && b <= 90) || (97 <= b && b <= 122) || b == 61 || b == 46) {
            proof {
                assert(!seq_char(t@[i as int]));
            }
            return false;
        }
        i = i + 1;
    }
    true
}

/// The version tag of a header's first column, when that column is a
/// `VN` tag with a string payload.
pub open spec fn header_version(ts: Seq<Seq<u8>>) -> Option<Seq<u8>> {
    if ts.len() > 0 && spec_parse_tag(ts[0]) is Some && spec_parse_tag(ts[0]).unwrap().name
        == seq![86u8, 78u8] && spec_parse_tag(ts[0]).unwrap().val is Str {
        Some(spec_parse_tag(ts[0]).unwrap().val->Str_0)
    } else {
        None
    }
}

/// The header columns left over after the version tag, if one led.
pub open spec fn header_rest(ts: Seq<Seq<u8>>) -> Seq<Seq<u8>> {
    if header_version(ts) is Some {
        ts.skip(1)
    } else {
        ts
    }
}

/// A header record's columns are well formed: every column after the
/// optional leading version tag is a valid tag.
pub open spec fn header_grammar_ok(ts: Seq<Seq<u8>>) -> bool {
    all_tags_valid(header_rest(ts))
}

/// The header value a well-formed column list denotes.
pub open spec fn header_matches<T: OptFields>(ts: Seq<Seq<u8>>, h: Header<T>) -> bool {
    &&& (header_version(ts) is Some <==> h.version is Some)
    &&& (h.version is Some ==> h.version.unwrap()@ == header_version(ts).unwrap())
    &&& h.optional.captured() == if T::capturing() {
        parsed_tags(header_rest(ts))
    } else {
        Seq::<TagModel>::empty()
    }
}

/// Parses a header record from its columns (the kind marker already
/// consumed).
pub fn parse_header<T: OptFields>(fields: &[Vec<u8>]) -> (r: Result<Header<T>, ParseFieldError>)
    ensures
        match r {
            Ok(h) => header_grammar_ok(views_of(fields@)) && header_matches(
                views_of(fields@),
                h,
            ),
            Err(_) => !header_grammar_ok(views_of(fields@)),
        },
{
    let ghost ts = views_of(fields@);
    proof {
        assert(forall|k: int| 0 <= k < fields@.len() ==> #[trigger] ts[k] == fields@[k]@);
    }
    if fields.len() > 0 {
        match parse_tag(fields[0].as_slice()) {
            Ok(f) => {
                let is_vn = f.tag[0] == 86 && f.tag[1] == 78;
                proof {
                    assert(f.tag@ =~= seq![f.tag[0], f.tag[1]]);
                    if is_vn {
                        assert(f@.name == seq![86u8, 78u8]);
                    } else {
                        assert(f@.name != seq![86u8, 78u8]);
                    }
                }
                match f.value {
                    OptFieldVal::PrintableString(v) => {
                        if is_vn {
                            let optional = match T::parse(fields, 1) {
                                Ok(t) => t,
                                Err(e) => {
                                    return Err(e);
                                },
                            };
                            return Ok(Header { version: Some(v), optional });
                        }
                    },
                    _ => {},
                }
            },
            Err(_) => {},
        }
    }
    proof {
        assert(header_version(ts) is None);
        assert(header_rest(ts) == ts);
    }
    let optional = match T::parse(fields, 0) {
        Ok(t) => t,
        Err(e) => {
            return Err(e);
        },
    };
    proof {
        assert(views_of(fields@).skip(0) =~~= ts);
    }
    Ok(Header { version: None, optional })
}

/// A segment record's columns are well formed: a name, a sequence, then
/// tags.
pub open spec fn segment_grammar_ok(ts: Seq<Seq<u8>>) -> bool {
    &&& ts.len() >= 2
    &&& name_token_ok(ts[0])
    &&& sequence_token_ok(ts[1])
    &&& all_tags_valid(ts.skip(2))
}

/// The segment value a well-formed column list denotes.
pub open spec fn segment_matches<T: OptFields>(ts: Seq<Seq<u8>>, s: Segment<Vec<u8>, T>) -> bool {
    &&& s.name@ == ts[0]
    &&& s.sequence@ == ts[1]
    &&& s.optional.captured() == if T::capturing() {
        parsed_tags(ts.skip(2))
    } else {
        Seq::<TagModel>::empty()
    }
}

/// Parses a segment record from its columns.
pub fn parse_segment<T: OptFields>(fields: &[Vec<u8>]) -> (r: Result<
    Segment<Vec<u8>, T>,
    ParseFieldError,
>)
    ensures
        match r {
            Ok(s) => segment_grammar_ok(views_of(fields@)) && segment_matches(
                views_of(fields@),
                s,
            ),
            Err(e) => {
                &&& !segment_grammar_ok(views_of(fields@))
                &&& (e is MissingFields ==> views_of(fields@).len() < 2)
            },
        },
{
    let ghost ts = views_of(fields@);
    proof {
        assert(forall|k: int| 0 <= k < fields@.len() ==> #[trigger] ts[k] == fields@[k]@);
    }
    if fields.len() < 2 {
        return Err(ParseFieldError::MissingFields);
    }
    if !check_name(&fields[0]) {
        return Err(ParseFieldError::InvalidField("name"));
    }
    if !check_sequence(&fields[1]) {
        return Err(ParseFieldError::InvalidField("sequence"));
    }
    let optional = match T::parse(fields, 2) {
        Ok(t) => t,
        Err(e) => {
            return Err(e);
        },
    };
    Ok(
        Segment {
            name: crate::optfields::clone_bytes(&fields[0]),
            sequence: crate::optfields::clone_bytes(&fields[1]),
            optional,
        },
    )
}

/// A link record's columns are well formed: two oriented names, an
/// overlap, then tags.
pub open spec fn link_grammar_ok(ts: Seq<Seq<u8>>) -> bool {
    &&& ts.len() >= 5
    &&& name_token_ok(ts[0])
    &&& orientation_of(ts[1]) is Some
    &&& name_token_ok(ts[2])
    &&& orientation_of(ts[3]) is Some
    &&& all_tags_valid(ts.skip(5))
}

/// The link value a well-formed column list denotes; the overlap column
/// is kept verbatim.
pub open spec fn link_matches<T: OptFields>(ts: Seq<Seq<u8>>, l: Link<Vec<u8>, T>) -> bool {
    &&& l.from_segment@ == ts[0]
    &&& orientation_of(ts[1]) == Some(l.from_orient)
    &&& l.to_segment@ == ts[2]
    &&& orientation_of(ts[3]) == Some(l.to_orient)
    &&& l.overlap@ == ts[4]
    &&& l.optional.captured() == if T::capturing() {
        parsed_tags(ts.skip(5))
    } else {
        Seq::<TagModel>::empty()
    }
}

/// Parses a link record from its columns.
pub fn parse_link<T: OptFields>(fields: &[Vec<u8>]) -> (r: Result<
    Link<Vec<u8>, T>,
    ParseFieldError,
>)
    ensures
        match r {
            Ok(l) => link_grammar_ok(views_of(fields@)) && link_matches(views_of(fields@), l),
            Err(e) => {
                &&& !link_grammar_ok(views_of(fields@))
                &&& (e is MissingFields ==> views_of(fields@).len() < 5)
            },
        },
{
    let ghost ts = views_of(fields@);
    proof {
        assert(forall|k: int| 0 <= k < fields@.len() ==> #[trigger] ts[k] == fields@[k]@);
    }
    if fields.len() < 5 {
        return Err(ParseFieldError::MissingFields);
    }
    if !check_name(&fields[0]) {
        return Err(ParseFieldError::InvalidField("from segment"));
    }
    let from_orient = match Orientation::from_bytes(fields[1].as_slice()) {
        Some(o) => o,
        None => {
            return Err(ParseFieldError::OrientationError);
        },
    };
    if !check_name(&fields[2]) {
        return Err(ParseFieldError::InvalidField("to segment"));
    }
    let to_orient = match Orientation::from_bytes(fields[3].as_slice()) {
        Some(o) => o,
        None => {
            return Err(ParseFieldError::OrientationError);
        },
    };
    let optional = match T::parse(fields, 5) {
        Ok(t) => t,
        Err(e) => {
            return Err(e);
        },
    };
    Ok(
        Link {
            from_segment: crate::optfields::clone_bytes(&fields[0]),
            from_orient,
            to_segment: crate::optfields::clone_bytes(&fields[2]),
            to_orient,
            overlap: crate::optfields::clone_bytes(&fields[4]),
            optional,
        },
    )
}

/// A containment record's columns are well formed: two oriented names,
/// an integer position, an overlap, then tags.
pub open spec fn containment_grammar_ok(ts: Seq<Seq<u8>>) -> bool {
    &&& ts.len() >= 6
    &&& name_token_ok(ts[0])
    &&& orientation_of(ts[1]) is Some
    &&& name_token_ok(ts[2])
    &&& orientation_of(ts[3]) is Some
    &&& crate::digits::uint_token_val(ts[4]) is Some
    &&& crate::digits::uint_token_val(ts[4]).unwrap() <= usize::MAX
    &&& all_tags_valid(ts.skip(6))
}

/// The containment value a well-formed column list denotes.
pub open spec fn containment_matches<T: OptFields>(
    ts: Seq<Seq<u8>>,
    c: Containment<Vec<u8>, T>,
) -> bool {
    &&& c.container_name@ == ts[0]
    &&& orientation_of(ts[1]) == Some(c.container_orient)
    &&& c.contained_name@ == ts[2]
    &&& orientation_of(ts[3]) == Some(c.contained_orient)
    &&& crate::digits::uint_token_val(ts[4]) == Some(c.pos as int)
    &&& c.overlap@ == ts[5]
    &&& c.optional.captured() == if T::capturing() {
        parsed_tags(ts.skip(6))
    } else {
        Seq::<TagModel>::empty()
    }
}

/// Parses a containment record from its columns.
pub fn parse_containment<T: OptFields>(fields: &[Vec<u8>]) -> (r: Result<
    Containment<Vec<u8>, T>,
    ParseFieldError,
>)
    ensures
        match r {
            Ok(c) => containment_grammar_ok(views_of(fields@)) && containment_matches(
                views_of(fields@),
                c,
            ),
            Err(e) => {
                &&& !containment_grammar_ok(views_of(fields@))
                &&& (e is MissingFields ==> views_of(fields@).len() < 6)
            },
        },
{
    let ghost ts = views_of(fields@);
    proof {
        assert(forall|k: int| 0 <= k < fields@.len() ==> #[trigger] ts[k] == fields@[k]@);
    }
    if fields.len() < 6 {
        return Err(ParseFieldError::MissingFields);
    }
    if !check_name(&fields[0]) {
        return Err(ParseFieldError::InvalidField("container name"));
    }
    let container_orient = match Orientation::from_bytes(fields[1].as_slice()) {
        Some(o) => o,
        None => {
            return Err(ParseFieldError::OrientationError);
        },
    };
    if !check_name(&fields[2]) {
        return Err(ParseFieldError::InvalidField("contained name"));
    }
    let contained_orient = match Orientation::from_bytes(fields[3].as_slice()) {
        Some(o) => o,
        None => {
            return Err(ParseFieldError::OrientationError);
        },
    };
    let pos = match crate::gfa::parse_usize(fields[4].as_slice()) {
        Some(v) => v,
        None => {
            return Err(ParseFieldError::InvalidField("pos"));
        },
    };
    let optional = match T::parse(fields, 6) {
        Ok(t) => t,
        Err(e) => {
            return Err(e);
        },
    };
    Ok(
        Containment {
            container_name: crate::optfields::clone_bytes(&fields[0]),
            container_orient,
            contained_name: crate::optfields::clone_bytes(&fields[2]),
            contained_orient,
            pos,
            overlap: crate::optfields::clone_bytes(&fields[5]),
            optional,
        },
    )
}

/// A path record's columns are well formed: a name, the unparsed step
/// string, the comma-joined overlaps, then tags.
pub open spec fn path_grammar_ok(ts: Seq<Seq<u8>>) -> bool {
    &&& ts.len() >= 3
    &&& name_token_ok(ts[0])
    &&& all_tags_valid(ts.skip(3))
}

/// The path value a well-formed column list denotes: the step string is
/// stored unparsed, the overlaps split on commas.
pub open spec fn path_record_matches<T: OptFields>(ts: Seq<Seq<u8>>, p: Path<T>) -> bool {
    &&& p.path_name@ == ts[0]
    &&& p.segment_names@ == ts[1]
    &&& views_of(p.overlaps@) == split_sep(ts[2], 44)
    &&& p.optional.captured() == if T::capturing() {
        parsed_tags(ts.skip(3))
    } else {
        Seq::<TagModel>::empty()
    }
}

/// Parses a path record from its columns.
pub fn parse_path<T: OptFields>(fields: &[Vec<u8>]) -> (r: Result<Path<T>, ParseFieldError>)
    ensures
        match r {
            Ok(p) => path_grammar_ok(views_of(fields@)) && path_record_matches(
                views_of(fields@),
                p,
            ),
            Err(e) => {
                &&& !path_grammar_ok(views_of(fields@))
                &&& (e is MissingFields ==> views_of(fields@).len() < 3)
            },
        },
{
    let ghost ts = views_of(fields@);
    proof {
        assert(forall|k: int| 0 <= k < fields@.len() ==> #[trigger] ts[k] == fields@[k]@);
    }
    if fields.len() < 3 {
        return Err(ParseFieldError::MissingFields);
    }
    if !check_name(&fields[0]) {
        return Err(ParseFieldError::InvalidField("path name"));
    }
    let overlaps = split_bytes(fields[2].as_slice(), 44);
    let optional = match T::parse(fields, 3) {
        Ok(t) => t,
        Err(e) => {
            return Err(e);
        },
    };
    Ok(
        Path {
            path_name: crate::optfields::clone_bytes(&fields[0]),
            segment_names: crate::optfields::clone_bytes(&fields[1]),
            overlaps,
            optional,
        },
    )
}

/// The columns of a whole line, split on the tab delimiter.
pub open spec fn line_tokens(l: Seq<u8>) -> Seq<Seq<u8>> {
    split_sep(l, 9)
}

/// The line's first column is exactly the one-byte marker `m`.
pub open spec fn marker_is(l: Seq<u8>, m: u8) -> bool {
    l.len() > 0 && line_tokens(l)[0] == seq![m]
}

/// The columns after the record-kind marker.
pub open spec fn line_body(l: Seq<u8>) -> Seq<Seq<u8>> {
    line_tokens(l).skip(1)
}

/// The line opens with one of the five record-kind markers.
pub open spec fn known_marker(l: Seq<u8>) -> bool {
    marker_is(l, 72) || marker_is(l, 83) || marker_is(l, 76) || marker_is(l, 67) || marker_is(
        l,
        80,
    )
}

/// The line carries a record of its marker's kind, well formed.
pub open spec fn line_grammar_ok(l: Seq<u8>) -> bool {
    ||| marker_is(l, 72) && header_grammar_ok(line_body(l))
    ||| marker_is(l, 83) && segment_grammar_ok(line_body(l))
    ||| marker_is(l, 76) && link_grammar_ok(line_body(l))
    ||| marker_is(l, 67) && containment_grammar_ok(line_body(l))
    ||| marker_is(l, 80) && path_grammar_ok(line_body(l))
}

/// The line names a record kind but its columns are malformed: the
/// fatal case for a stream-processing loop.
pub open spec fn line_fatal(l: Seq<u8>) -> bool {
    known_marker(l) && !line_grammar_ok(l)
}

/// The parsed line denotes what the raw line's columns say.
pub open spec fn line_matches<T: OptFields>(l: Seq<u8>, parsed: Line<Vec<u8>, T>) -> bool {
    match parsed {
        Line::Header(h) => marker_is(l, 72) && header_matches(line_body(l), h),
        Line::Segment(s) => marker_is(l, 83) && segment_matches(line_body(l), s),
        Line::Link(k) => marker_is(l, 76) && link_matches(line_body(l), k),
        Line::Containment(c) => marker_is(l, 67) && containment_matches(line_body(l), c),
        Line::Path(p) => marker_is(l, 80) && path_record_matches(line_body(l), p),
    }
}

/// Classifies and parses one whole line. An empty line and a line with
/// an unrecognized record-kind marker come back as the two recoverable
/// errors; a malformed record of a known kind comes back fatal, wrapped
/// with a copy of the offending line.
pub fn parse_line<T: OptFields>(line: &[u8]) -> (r: Result<Line<Vec<u8>, T>, ParseError>)
    ensures
        match r {
            Ok(l) => line_grammar_ok(line@) && line_matches(line@, l),
            Err(e) => match e {
                ParseError::EmptyLine => line@.len() == 0,
                ParseError::UnknownLineType => line@.len() > 0 && !known_marker(line@),
                ParseError::InvalidLine(fe, raw) => raw@ == line@ && line_fatal(line@),
                _ => false,
            },
        },
{
    if line.len() == 0 {
        return Err(ParseError::EmptyLine);
    }
    let tokens = split_bytes(line, 9);
    let ghost ts = line_tokens(line@);
    proof {
        crate::fields::lemma_split_nonempty(line@, 9);
        assert(views_of(tokens@) == ts);
        assert(tokens@.len() == ts.len());
        assert(tokens@[0]@ == ts[0]);
    }
    let kind = &tokens[0];
    if kind.len() != 1 {
        proof {
            assert(forall|m: u8| seq![m].len() == 1);
        }
        return Err(ParseError::UnknownLineType);
    }
    let m = kind[0];
    proof {
        assert(ts[0] =~= seq![m]);
        assert(forall|m2: u8| #[trigger] seq![m2][0] == m2);
    }
    if m != 72 && m != 83 && m != 76 && m != 67 && m != 80 {
        proof {
            assert(!known_marker(line@)) by {
                assert(seq![72u8][0] == 72 && seq![83u8][0] == 83 && seq![76u8][0] == 76
                    && seq![67u8][0] == 67 && seq![80u8][0] == 80);
            }
        }
        return Err(ParseError::UnknownLineType);
    }
    let body = vstd::slice::slice_subrange(tokens.as_slice(), 1, tokens.len());
    proof {
        assert(views_of(body@) =~~= line_body(line@)) by {
            assert(body@.len() == ts.len() - 1);
            assert(forall|k: int|
                0 <= k < body@.len() ==> #[trigger] body@[k] == tokens@[k + 1]);
            assert(forall|k: int|
                0 <= k < body@.len() ==> #[trigger] views_of(body@)[k] == body@[k]@);
            assert(forall|k: int|
                0 <= k < ts.skip(1).len() ==> #[trigger] ts.skip(1)[k] == ts[k + 1]);
            assert(forall|k: int|
                0 <= k < tokens@.len() ==> #[trigger] tokens@[k]@ == ts[k]);
        }
        assert(marker_is(line@, m));
        assert(seq![72u8][0] == 72 && seq![83u8][0] == 83 && seq![76u8][0] == 76 && seq![67u8][0]
            == 67 && seq![80u8][0] == 80);
    }
    if m == 72 {
        match parse_header::<T>(body) {
            Ok(h) => Ok(Line::Header(h)),
            Err(e) => Err(ParseError::invalid_line(e, line)),
        }
    } else if m == 83 {
        match parse_segment::<T>(body) {
            Ok(s) => Ok(Line::Segment(s)),
            Err(e) => Err(ParseError::invalid_line(e, line)),
        }
    } else if m == 76 {
        match parse_link::<T>(body) {
            Ok(l) => Ok(Line::Link(l)),
            Err(e) => Err(ParseError::invalid_line(e, line)),
        }
    } else if m == 67 {
        match parse_containment::<T>(body) {
            Ok(c) => Ok(Line::Containment(c)),
            Err(e) => Err(ParseError::invalid_line(e, line)),
        }
    } else {
        match parse_path::<T>(body) {
            Ok(p) => Ok(Line::Path(p)),
            Err(e) => Err(ParseError::invalid_line(e, line)),
        }
    }
}

/// The lines that insert a header.
pub open spec fn header_lines(ls: Seq<Seq<u8>>) -> Seq<Seq<u8>> {
    ls.filter(|l: Seq<u8>| marker_is(l, 72) && header_grammar_ok(line_body(l)))
}

/// The lines that insert a segment.
pub open spec fn segment_lines(ls: Seq<Seq<u8>>) -> Seq<Seq<u8>> {
    ls.filter(|l: Seq<u8>| marker_is(l, 83) && segment_grammar_ok(line_body(l)))
}

/// The lines that insert a link.
pub open spec fn link_lines(ls: Seq<Seq<u8>>) -> Seq<Seq<u8>> {
    ls.filter(|l: Seq<u8>| marker_is(l, 76) && link_grammar_ok(line_body(l)))
}

/// The lines that insert a containment.
pub open spec fn containment_lines(ls: Seq<Seq<u8>>) -> Seq<Seq<u8>> {
    ls.filter(|l: Seq<u8>| marker_is(l, 67) && containment_grammar_ok(line_body(l)))
}

/// The lines that insert a path.
pub open spec fn path_lines(ls: Seq<Seq<u8>>) -> Seq<Seq<u8>> {
    ls.filter(|l: Seq<u8>| marker_is(l, 80) && path_grammar_ok(line_body(l)))
}

proof fn lemma_kind_lines_push(ls: Seq<Seq<u8>>, x: Seq<u8>)
    ensures
        header_lines(ls.push(x)) == if marker_is(x, 72) && header_grammar_ok(line_body(x)) {
            header_lines(ls).push(x)
        } else {
            header_lines(ls)
        },
        segment_lines(ls.push(x)) == if marker_is(x, 83) && segment_grammar_ok(line_body(x)) {
            segment_lines(ls).push(x)
        } else {
            segment_lines(ls)
        },
        link_lines(ls.push(x)) == if marker_is(x, 76) && link_grammar_ok(line_body(x)) {
            link_lines(ls).push(x)
        } else {
            link_lines(ls)
        },
        containment_lines(ls.push(x)) == if marker_is(x, 67) && containment_grammar_ok(
            line_body(x),
        ) {
            containment_lines(ls).push(x)
        } else {
            containment_lines(ls)
        },
        path_lines(ls.push(x)) == if marker_is(x, 80) && path_grammar_ok(line_body(x)) {
            path_lines(ls).push(x)
        } else {
            path_lines(ls)
        },
{
    broadcast use vstd::seq_lib::group_filter_ensures;

    assert(ls.push(x).drop_last() =~= ls);
    assert(ls.push(x).last() == x);
    reveal(Seq::filter);
}

proof fn lemma_markers_distinct()
    ensures
        seq![72u8] != seq![83u8],
        seq![72u8] != seq![76u8],
        seq![72u8] != seq![67u8],
        seq![72u8] != seq![80u8],
        seq![83u8] != seq![76u8],
        seq![83u8] != seq![67u8],
        seq![83u8] != seq![80u8],
        seq![76u8] != seq![67u8],
        seq![76u8] != seq![80u8],
        seq![67u8] != seq![80u8],
{
    assert(seq![72u8][0] == 72 && seq![83u8][0] == 83 && seq![76u8][0] == 76 && seq![67u8][0]
        == 67 && seq![80u8][0] == 80);
}

proof fn lemma_kind_lines_empty()
    ensures
        header_lines(Seq::empty()) == Seq::<Seq<u8>>::empty(),
        segment_lines(Seq::empty()) == Seq::<Seq<u8>>::empty(),
        link_lines(Seq::empty()) == Seq::<Seq<u8>>::empty(),
        containment_lines(Seq::empty()) == Seq::<Seq<u8>>::empty(),
        path_lines(Seq::empty()) == Seq::<Seq<u8>>::empty(),
{
    reveal(Seq::filter);
}

/// The graph a well-formed line stream denotes: each kind's records are
/// the parses of that kind's lines in order, and the header is the last
/// header line's parse, or empty when there is none.
pub open spec fn gfa_matches_lines<T: OptFields>(ls: Seq<Seq<u8>>, g: GFA<Vec<u8>, T>) -> bool {
    &&& g.segments@.len() == segment_lines(ls).len()
    &&& forall|k: int|
        0 <= k < g.segments@.len() ==> segment_matches(
            line_body(segment_lines(ls)[k]),
            #[trigger] g.segments@[k],
        )
    &&& g.links@.len() == link_lines(ls).len()
    &&& forall|k: int|
        0 <= k < g.links@.len() ==> link_matches(
            line_body(link_lines(ls)[k]),
            #[trigger] g.links@[k],
        )
    &&& g.containments@.len() == containment_lines(ls).len()
    &&& forall|k: int|
        0 <= k < g.containments@.len() ==> containment_matches(
            line_body(containment_lines(ls)[k]),
            #[trigger] g.containments@[k],
        )
    &&& g.paths@.len() == path_lines(ls).len()
    &&& forall|k: int|
        0 <= k < g.paths@.len() ==> path_record_matches(
            line_body(path_lines(ls)[k]),
            #[trigger] g.paths@[k],
        )
    &&& if header_lines(ls).len() == 0 {
        g.header.version is None && g.header.optional.captured() == Seq::<TagModel>::empty()
    } else {
        header_matches(line_body(header_lines(ls).last()), g.header)
    }
}

/// Folds a stream of lines into a graph: recoverable lines — empty, or
/// an unrecognized marker — are skipped; the first malformed record of
/// a known kind stops the fold and comes back with the offending line.
pub fn parse_gfa<T: OptFields>(lines: &[Vec<u8>]) -> (r: Result<GFA<Vec<u8>, T>, ParseError>)
    ensures
        match r {
            Ok(g) => {
                &&& forall|i: int|
                    0 <= i < lines@.len() ==> !line_fatal(#[trigger] views_of(lines@)[i])
                &&& gfa_matches_lines(views_of(lines@), g)
            },
            Err(e) => exists|i: int|
                {
                    &&& 0 <= i < lines@.len()
                    &&& line_fatal(#[trigger] views_of(lines@)[i])
                    &&& forall|j: int| 0 <= j < i ==> !line_fatal(views_of(lines@)[j])
                    &&& e matches ParseError::InvalidLine(_, raw) && raw@ == views_of(lines@)[i]
                },
        },
{
    let ghost ls = views_of(lines@);
    let mut gfa = GFA::<Vec<u8>, T>::new();
    let mut i: usize = 0;
    proof {
        lemma_kind_lines_empty();
        assert(ls.take(0) =~~= Seq::<Seq<u8>>::empty());
    }
    while i < lines.len()
        invariant
            i <= lines@.len(),
            ls == views_of(lines@),
            forall|j: int| 0 <= j < i ==> !line_fatal(#[trigger] ls[j]),
            gfa_matches_lines(ls.take(i as int), gfa),
        decreases lines@.len() - i,
    {
        let ghost taken = ls.take(i as int);
        proof {
            assert(ls[i as int] == lines@[i as int]@);
            assert(ls.take(i + 1) =~~= taken.push(ls[i as int]));
        }
        match parse_line::<T>(lines[i].as_slice()) {
            Ok(l) => {
                let ghost lv = l;
                let ghost gfa0 = gfa;
                gfa.insert_line(l);
                proof {
                    let x = ls[i as int];
                    lemma_kind_lines_push(taken, x);
                    lemma_markers_distinct();
                    match lv {
                        Line::Header(h) => {
                            assert(marker_is(x, 72) && !marker_is(x, 83) && !marker_is(x, 76)
                                && !marker_is(x, 67) && !marker_is(x, 80));
                            assert(header_lines(ls.take(i + 1)) == header_lines(taken).push(x));
                            assert(header_lines(taken).push(x).last() == x);
                            assert(gfa.segments@ == gfa0.segments@ && gfa.links@ == gfa0.links@
                                && gfa.containments@ == gfa0.containments@ && gfa.paths@
                                == gfa0.paths@);
                        },
                        Line::Segment(s) => {
                            assert(marker_is(x, 83) && !marker_is(x, 72) && !marker_is(x, 76)
                                && !marker_is(x, 67) && !marker_is(x, 80));
                            assert(segment_lines(ls.take(i + 1)) == segment_lines(taken).push(x));
                            assert(gfa.segments@ == gfa0.segments@.push(s));
                            assert forall|k: int| 0 <= k < gfa.segments@.len() implies
                                segment_matches(
                                line_body(segment_lines(ls.take(i + 1))[k]),
                                #[trigger] gfa.segments@[k],
                            ) by {
                                if k < gfa0.segments@.len() {
                                    assert(gfa.segments@[k] == gfa0.segments@[k]);
                                    assert(segment_lines(ls.take(i + 1))[k] == segment_lines(
                                        taken,
                                    )[k]);
                                } else {
                                    assert(gfa.segments@[k] == s);
                                    assert(segment_lines(ls.take(i + 1))[k] == x);
                                }
                            }
                        },
                        Line::Link(w) => {
                            assert(marker_is(x, 76) && !marker_is(x, 72) && !marker_is(x, 83)
                                && !marker_is(x, 67) && !marker_is(x, 80));
                            assert(link_lines(ls.take(i + 1)) == link_lines(taken).push(x));
                            assert(gfa.links@ == gfa0.links@.push(w));
                            assert forall|k: int| 0 <= k < gfa.links@.len() implies link_matches(
                                line_body(link_lines(ls.take(i + 1))[k]),
                                #[trigger] gfa.links@[k],
                            ) by {
                                if k < gfa0.links@.len() {
                                    assert(gfa.links@[k] == gfa0.links@[k]);
                                    assert(link_lines(ls.take(i + 1))[k] == link_lines(taken)[k]);
                                } else {
                                    assert(gfa.links@[k] == w);
                                    assert(link_lines(ls.take(i + 1))[k] == x);
                                }
                            }
                        },
                        Line::Containment(c) => {
                            assert(marker_is(x, 67) && !marker_is(x, 72) && !marker_is(x, 83)
                                && !marker_is(x, 76) && !marker_is(x, 80));
                            assert(containment_lines(ls.take(i + 1)) == containment_lines(
                                taken,
                            ).push(x));
                            assert(gfa.containments@ == gfa0.containments@.push(c));
                            assert forall|k: int| 0 <= k < gfa.containments@.len() implies
                                containment_matches(
                                line_body(containment_lines(ls.take(i + 1))[k]),
                                #[trigger] gfa.containments@[k],
                            ) by {
                                if k < gfa0.containments@.len() {
                                    assert(gfa.containments@[k] == gfa0.containments@[k]);
                                    assert(containment_lines(ls.take(i + 1))[k]
                                        == containment_lines(taken)[k]);
                                } else {
                                    assert(gfa.containments@[k] == c);
                                    assert(containment_lines(ls.take(i + 1))[k] == x);
                                }
                            }
                        },
                        Line::Path(p) => {
                            assert(marker_is(x, 80) && !marker_is(x, 72) && !marker_is(x, 83)
                                && !marker_is(x, 76) && !marker_is(x, 67));
                            assert(path_lines(ls.take(i + 1)) == path_lines(taken).push(x));
                            assert(gfa.paths@ == gfa0.paths@.push(p));
                            assert forall|k: int| 0 <= k < gfa.paths@.len() implies
                                path_record_matches(
                                line_body(path_lines(ls.take(i + 1))[k]),
                                #[trigger] gfa.paths@[k],
                            ) by {
                                if k < gfa0.paths@.len() {
                                    assert(gfa.paths@[k] == gfa0.paths@[k]);
                                    assert(path_lines(ls.take(i + 1))[k] == path_lines(taken)[k]);
                                } else {
                                    assert(gfa.paths@[k] == p);
                                    assert(path_lines(ls.take(i + 1))[k] == x);
                                }
                            }
                        },
                    }
                }
            },
            Err(e) => {
                if e.can_safely_continue() {
                    proof {
                        assert(!known_marker(ls[i as int]));
                        lemma_kind_lines_push(taken, ls[i as int]);
                    }
                } else {
                    return Err(e);
                }
            },
        }
        i = i + 1;
    }
    proof {
        assert(ls.take(i as int) =~~= ls);
    }
    Ok(gfa)
}

} // verus!
