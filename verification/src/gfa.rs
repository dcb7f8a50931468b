//! The graph record types — header, segment, link, containment, path —
//! the container aggregating them, the integer-identity projection, and
//! the lazy decoder of a path's stored step string.

use vstd::prelude::*;

use crate::digits::{
    dec_repr, digits_only, lemma_uint_token_round_trip, uint_token_val,
};
use crate::error::ParseFieldError;
use crate::fields::{
    has_byte, find_byte, lemma_split_concat, lemma_split_single, split_sep,
};
use crate::optfields::{clone_bytes, OptFields, TagModel};

verus! {

/// Strand or direction marker of a segment or step.
#[derive(Debug, Clone, Copy, PartialEq, Eq, Structural)]
pub enum Orientation {
    Forward,
    Backward,
}

impl Default for Orientation {
    /// The forward strand is the default.
    fn default() -> (r: Self)
        ensures
            r is Forward,
    {
        Orientation::Forward
    }
}

/// The classification of a one-byte strand token: `+` is forward, `-`
/// is backward, anything else is no orientation.
pub open spec fn orientation_of(s: Seq<u8>) -> Option<Orientation> {
    if s == seq![43u8] {
        Some(Orientation::Forward)
    } else if s == seq![45u8] {
        Some(Orientation::Backward)
    } else {
        None
    }
}

impl Orientation {
    /// True exactly for the backward strand.
    pub fn is_reverse(&self) -> (r: bool)
        ensures
            r == (*self is Backward),
    {
        match self {
            Orientation::Forward => false,
            Orientation::Backward => true,
        }
    }

    /// True exactly for the forward strand.
    pub fn as_bool(&self) -> (r: bool)
        ensures
            r == (*self is Forward),
    {
        match self {
            Orientation::Forward => true,
            Orientation::Backward => false,
        }
    }

    /// Reads a strand token: `+` or `-`, exactly one byte.
    pub fn from_bytes(bs: &[u8]) -> (r: Option<Self>)
        ensures
            r == orientation_of(bs@),
    {
        if bs.len() == 1 && bs[0] == 43 {
            proof {
                assert(bs@ =~= seq![43u8]);
            }
            Some(Orientation::Forward)
        } else if bs.len() == 1 && bs[0] == 45 {
            proof {
                assert(bs@ =~= seq![45u8]);
            }
            Some(Orientation::Backward)
        } else {
            proof {
                if bs@.len() == 1 {
                    assert(bs@[0] != 43 && bs@[0] != 45);
                    assert(bs@ != seq![43u8] && bs@ != seq![45u8]);
                } else {
                    assert(bs@.len() != seq![43u8].len() && bs@.len() != seq![45u8].len());
                }
            }
            None
        }
    }

    /// The byte this orientation prints as.
    pub open spec fn spec_byte(self) -> u8 {
        if self is Forward {
            43
        } else {
            45
        }
    }

    /// The strand character, `+` or `-`, as a byte.
    pub fn to_byte(&self) -> (r: u8)
        ensures
            r == self.spec_byte(),
    {
        match self {
            Orientation::Forward => 43,
            Orientation::Backward => 45,
        }
    }
}

/// The header record: an optional version string and its tags.
#[derive(Debug, Clone, PartialEq, Eq)]
pub struct Header<T: OptFields> {
    pub version: Option<Vec<u8>>,
    pub optional: T,
}

/// A graph node carrying a sequence. Generic over the identity
/// representation: opaque bytes or a dense unsigned integer.
#[derive(Debug, Clone, PartialEq, Eq)]
pub struct Segment<N, T: OptFields> {
    pub name: N,
    pub sequence: Vec<u8>,
    pub optional: T,
}

/// A directed, oriented edge between two segments with an overlap
/// descriptor.
#[derive(Debug, Clone, PartialEq, Eq)]
pub struct Link<N, T: OptFields> {
    pub from_segment: N,
    pub from_orient: Orientation,
    pub to_segment: N,
    pub to_orient: Orientation,
    pub overlap: Vec<u8>,
    pub optional: T,
}

/// One segment's sequence containing another's at an offset.
#[derive(Debug, Clone, PartialEq, Eq)]
pub struct Containment<N, T: OptFields> {
    pub container_name: N,
    pub container_orient: Orientation,
    pub contained_name: N,
    pub contained_orient: Orientation,
    pub pos: usize,
    pub overlap: Vec<u8>,
    pub optional: T,
}

/// A walk through the graph. The step list stays unparsed, as the
/// comma-joined bytes it arrived in, to bound memory; `iter` decodes it
/// step by step on demand.
#[derive(Debug, Clone, PartialEq, Eq)]
pub struct Path<T: OptFields> {
    pub path_name: Vec<u8>,
    pub segment_names: Vec<u8>,
    pub overlaps: Vec<Vec<u8>>,
    pub optional: T,
}

/// One parsed line of a graph file.
#[derive(Debug, Clone, PartialEq, Eq)]
pub enum Line<N, T: OptFields> {
    Header(Header<T>),
    Segment(Segment<N, T>),
    Link(Link<N, T>),
    Containment(Containment<N, T>),
    Path(Path<T>),
}

/// A parsed graph: one header and the records of each kind in input
/// order, with no deduplication and no cross-referencing.
#[derive(Debug, Clone, PartialEq, Eq)]
pub struct GFA<N, T: OptFields> {
    pub header: Header<T>,
    pub segments: Vec<Segment<N, T>>,
    pub links: Vec<Link<N, T>>,
    pub containments: Vec<Containment<N, T>>,
    pub paths: Vec<Path<T>>,
}

impl<N, T: OptFields> GFA<N, T> {
    /// An empty graph: no version, no tags, no records.
    pub fn new() -> (r: Self)
        ensures
            r.header.version is None,
            r.header.optional.captured() == Seq::<TagModel>::empty(),
            r.segments@.len() == 0,
            r.links@.len() == 0,
            r.containments@.len() == 0,
            r.paths@.len() == 0,
    {
        GFA {
            header: Header { version: None, optional: T::empty() },
            segments: Vec::new(),
            links: Vec::new(),
            containments: Vec::new(),
            paths: Vec::new(),
        }
    }

    /// Inserts one parsed line: a header replaces the current header,
    /// any other record is appended to its kind's list.
    pub fn insert_line(&mut self, line: Line<N, T>)
        ensures
            match line {
                Line::Header(h) => *final(self) == (GFA { header: h, ..*old(self) }),
                Line::Segment(s) => {
                    &&& final(self).segments@ == old(self).segments@.push(s)
                    &&& *final(self) == (GFA { segments: final(self).segments, ..*old(self) })
                },
                Line::Link(l) => {
                    &&& final(self).links@ == old(self).links@.push(l)
                    &&& *final(self) == (GFA { links: final(self).links, ..*old(self) })
                },
                Line::Containment(c) => {
                    &&& final(self).containments@ == old(self).containments@.push(c)
                    &&& *final(self) == (GFA {
                        containments: final(self).containments,
                        ..*old(self)
                    })
                },
                Line::Path(p) => {
                    &&& final(self).paths@ == old(self).paths@.push(p)
                    &&& *final(self) == (GFA { paths: final(self).paths, ..*old(self) })
                },
            },
    {
        match line {
            Line::Header(h) => {
                self.header = h;
            },
            Line::Segment(s) => {
                self.segments.push(s);
            },
            Line::Link(l) => {
                self.links.push(l);
            },
            Line::Containment(c) => {
                self.containments.push(c);
            },
            Line::Path(p) => {
                self.paths.push(p);
            },
        }
    }
}

/// Consumes a graph and lays its records out as lines: all segments,
/// then links, then containments, then paths.
pub fn gfa_into_iter<N, T: OptFields>(gfa: GFA<N, T>) -> (r: Vec<Line<N, T>>)
    ensures
        r@ == gfa.segments@.map_values(|s: Segment<N, T>| Line::<N, T>::Segment(s))
            + gfa.links@.map_values(|l: Link<N, T>| Line::<N, T>::Link(l))
            + gfa.containments@.map_values(|c: Containment<N, T>| Line::<N, T>::Containment(c))
            + gfa.paths@.map_values(|p: Path<T>| Line::<N, T>::Path(p)),
{
    let mut gfa = gfa;
    let mut out: Vec<Line<N, T>> = Vec::new();
    let ghost segs = gfa.segments@;
    let ghost links = gfa.links@;
    let ghost conts = gfa.containments@;
    let ghost paths = gfa.paths@;
    proof {
        assert(out@ =~= segs.subrange(0, 0).map_values(
            |s: Segment<N, T>| Line::<N, T>::Segment(s),
        ));
    }
    while gfa.segments.len() > 0
        invariant
            gfa.segments@.len() <= segs.len(),
            gfa.segments@ == segs.skip(segs.len() - gfa.segments@.len()),
            gfa.links@ == links,
            gfa.containments@ == conts,
            gfa.paths@ == paths,
            out@ == segs.subrange(0, segs.len() - gfa.segments@.len()).map_values(
                |s: Segment<N, T>| Line::<N, T>::Segment(s),
            ),
        decreases gfa.segments@.len(),
    {
        let ghost k = segs.len() - gfa.segments@.len();
        let s = gfa.segments.remove(0);
        proof {
            assert(s == segs[k]);
            assert(gfa.segments@ =~= segs.skip(k + 1));
        }
        out.push(Line::Segment(s));
        proof {
            assert(out@ =~= segs.subrange(0, k + 1).map_values(
                |s: Segment<N, T>| Line::<N, T>::Segment(s),
            ));
        }
    }
    let ghost part1 = segs.map_values(|s: Segment<N, T>| Line::<N, T>::Segment(s));
    proof {
        assert(segs.subrange(0, segs.len() as int) =~= segs);
        assert(out@ == part1);
        assert(out@ =~= part1 + links.subrange(0, 0).map_values(
            |l: Link<N, T>| Line::<N, T>::Link(l),
        ));
    }
    while gfa.links.len() > 0
        invariant
            gfa.links@.len() <= links.len(),
            gfa.links@ == links.skip(links.len() - gfa.links@.len()),
            gfa.containments@ == conts,
            gfa.paths@ == paths,
            out@ == part1 + links.subrange(0, links.len() - gfa.links@.len()).map_values(
                |l: Link<N, T>| Line::<N, T>::Link(l),
            ),
        decreases gfa.links@.len(),
    {
        let ghost k = links.len() - gfa.links@.len();
        let l = gfa.links.remove(0);
        proof {
            assert(l == links[k]);
            assert(gfa.links@ =~= links.skip(k + 1));
        }
        out.push(Line::Link(l));
        proof {
            assert(out@ =~= part1 + links.subrange(0, k + 1).map_values(
                |l: Link<N, T>| Line::<N, T>::Link(l),
            ));
        }
    }
    let ghost part2 = part1 + links.map_values(|l: Link<N, T>| Line::<N, T>::Link(l));
    proof {
        assert(links.subrange(0, links.len() as int) =~= links);
        assert(out@ == part2);
        assert(out@ =~= part2 + conts.subrange(0, 0).map_values(
            |c: Containment<N, T>| Line::<N, T>::Containment(c),
        ));
    }
    while gfa.containments.len() > 0
        invariant
            gfa.containments@.len() <= conts.len(),
            gfa.containments@ == conts.skip(conts.len() - gfa.containments@.len()),
            gfa.paths@ == paths,
            out@ == part2 + conts.subrange(0, conts.len() - gfa.containments@.len()).map_values(
                |c: Containment<N, T>| Line::<N, T>::Containment(c),
            ),
        decreases gfa.containments@.len(),
    {
        let ghost k = conts.len() - gfa.containments@.len();
        let c = gfa.containments.remove(0);
        proof {
            assert(c == conts[k]);
            assert(gfa.containments@ =~= conts.skip(k + 1));
        }
        out.push(Line::Containment(c));
        proof {
            assert(out@ =~= part2 + conts.subrange(0, k + 1).map_values(
                |c: Containment<N, T>| Line::<N, T>::Containment(c),
            ));
        }
    }
    let ghost part3 = part2 + conts.map_values(|c: Containment<N, T>| Line::<N, T>::Containment(c));
    proof {
        assert(conts.subrange(0, conts.len() as int) =~= conts);
        assert(out@ == part3);
        assert(out@ =~= part3 + paths.subrange(0, 0).map_values(
            |p: Path<T>| Line::<N, T>::Path(p),
        ));
    }
    while gfa.paths.len() > 0
        invariant
            gfa.paths@.len() <= paths.len(),
            gfa.paths@ == paths.skip(paths.len() - gfa.paths@.len()),
            out@ == part3 + paths.subrange(0, paths.len() - gfa.paths@.len()).map_values(
                |p: Path<T>| Line::<N, T>::Path(p),
            ),
        decreases gfa.paths@.len(),
    {
        let ghost k = paths.len() - gfa.paths@.len();
        let p = gfa.paths.remove(0);
        proof {
            assert(p == paths[k]);
            assert(gfa.paths@ =~= paths.skip(k + 1));
        }
        out.push(Line::Path(p));
        proof {
            assert(out@ =~= part3 + paths.subrange(0, k + 1).map_values(
                |p: Path<T>| Line::<N, T>::Path(p),
            ));
        }
    }
    proof {
        assert(paths.subrange(0, paths.len() as int) =~= paths);
    }
    out
}

/// Parses a whole token as a non-negative integer identity.
pub fn parse_usize(s: &[u8]) -> (r: Option<usize>)
    ensures
        match r {
            Some(v) => uint_token_val(s@) == Some(v as int),
            None => uint_token_val(s@) is None || uint_token_val(s@).unwrap() > usize::MAX,
        },
{
    match crate::digits::parse_uint_token(s) {
        Some(m) => {
            if m <= usize::MAX as u64 {
                Some(m as usize)
            } else {
                None
            }
        },
        None => None,
    }
}

/// The comma-separated fragments of a path's stored step string.
pub open spec fn path_fragments(names: Seq<u8>) -> Seq<Seq<u8>> {
    split_sep(names, 44)
}

/// A step fragment is non-empty and ends with a strand character.
pub open spec fn step_fragment_ok(f: Seq<u8>) -> bool {
    f.len() >= 1 && (f.last() == 43 || f.last() == 45)
}

/// The orientation a step fragment ends with.
pub open spec fn fragment_orientation(f: Seq<u8>) -> Orientation {
    if f.last() == 43 {
        Orientation::Forward
    } else {
        Orientation::Backward
    }
}

/// The identity part of a step fragment: everything before the strand
/// character.
pub open spec fn fragment_name(f: Seq<u8>) -> Seq<u8> {
    f.drop_last()
}

/// Every fragment of the step string is a well-formed step.
pub open spec fn path_steps_ok(names: Seq<u8>) -> bool {
    forall|i: int|
        0 <= i < path_fragments(names).len() ==> step_fragment_ok(#[trigger] path_fragments(names)[i])
}

/// Every fragment is a well-formed step whose identity is all digits.
pub open spec fn path_steps_uint(names: Seq<u8>) -> bool {
    &&& path_steps_ok(names)
    &&& forall|i: int|
        0 <= i < path_fragments(names).len() ==> digits_only(
            fragment_name(#[trigger] path_fragments(names)[i]),
        )
}

/// Splits one step fragment into its identity and its orientation. A
/// fragment without a trailing strand character is an orientation
/// error, never silently accepted.
pub fn parse_path_segment(input: &[u8]) -> (r: Result<(Vec<u8>, Orientation), ParseFieldError>)
    ensures
        match r {
            Ok(p) => step_fragment_ok(input@) && p.0@ == fragment_name(input@) && p.1
                == fragment_orientation(input@),
            Err(e) => !step_fragment_ok(input@) && e is OrientationError,
        },
{
    let n = input.len();
    if n == 0 {
        return Err(ParseFieldError::OrientationError);
    }
    let last = input[n - 1];
    let o: Orientation;
    if last == 43 {
        o = Orientation::Forward;
    } else if last == 45 {
        o = Orientation::Backward;
    } else {
        return Err(ParseFieldError::OrientationError);
    }
    let name = vstd::slice::slice_to_vec(vstd::slice::slice_subrange(input, 0, n - 1));
    proof {
        assert(name@ =~= input@.drop_last());
    }
    Ok((name, o))
}

/// A lazy, restartable decoder over a path's stored step string: no
/// step exists until `next` is asked for it.
pub struct PathSteps {
    pub names: Vec<u8>,
    pub pos: usize,
    pub consumed: Ghost<int>,
}

impl PathSteps {
    /// The fragment list this cursor walks.
    pub open spec fn frags(&self) -> Seq<Seq<u8>> {
        path_fragments(self.names@)
    }

    /// The cursor sits at a fragment boundary: what remains of the
    /// string splits into exactly the fragments not yet consumed.
    pub open spec fn wf(&self) -> bool {
        &&& 0 <= self.consumed@ <= self.frags().len()
        &&& self.pos <= self.names@.len()
        &&& split_sep(self.names@.skip(self.pos as int), 44) == self.frags().skip(self.consumed@)
    }

    /// Decodes the next step, or `None` past the last one. A malformed
    /// fragment is handed out as an error, and the cursor moves on.
    pub fn next(&mut self) -> (r: Option<Result<(Vec<u8>, Orientation), ParseFieldError>>)
        requires
            old(self).wf(),
        ensures
            final(self).wf(),
            final(self).names@ == old(self).names@,
            old(self).consumed@ == old(self).frags().len() ==> r is None && final(self).consumed@
                == old(self).consumed@,
            old(self).consumed@ < old(self).frags().len() ==> {
                let f = old(self).frags()[old(self).consumed@];
                &&& final(self).consumed@ == old(self).consumed@ + 1
                &&& (step_fragment_ok(f) ==> (r matches Some(Ok(p)) && p.0@ == fragment_name(f)
                    && p.1 == fragment_orientation(f)))
                &&& (!step_fragment_ok(f) ==> (r matches Some(Err(e)) && e is OrientationError))
            },
    {
        let n = self.names.len();
        if self.pos == n {
            proof {
                assert(self.names@.skip(self.pos as int) =~= Seq::<u8>::empty());
                assert(split_sep(Seq::<u8>::empty(), 44).len() == 0);
                assert(self.frags().skip(self.consumed@).len() == 0);
            }
            return None;
        }
        let ghost suffix = self.names@.skip(self.pos as int);
        proof {
            assert(suffix.len() > 0);
            assert(suffix[0] == self.names@[self.pos as int]);
            assert(split_sep(suffix, 44).len() >= 1);
            assert(self.consumed@ < self.frags().len());
        }
        let j = find_byte(self.names.as_slice(), self.pos, 44);
        let frag_slice = vstd::slice::slice_subrange(self.names.as_slice(), self.pos, j);
        let ghost f = self.names@.subrange(self.pos as int, j as int);
        proof {
            assert(!has_byte(f, 44)) by {
                assert(forall|k: int|
                    0 <= k < f.len() ==> #[trigger] f[k] == self.names@[k + self.pos]);
            }
            let fr = self.frags();
            let c = self.consumed@;
            if j < self.names@.len() {
                assert(suffix =~= f + seq![44u8] + self.names@.skip(j + 1));
                lemma_split_concat(f, self.names@.skip(j + 1), 44);
                let rest = split_sep(self.names@.skip(j + 1), 44);
                assert(fr.skip(c) == seq![f] + rest);
                assert(fr.skip(c)[0] == fr[c]);
                assert((seq![f] + rest)[0] == f);
                assert(fr[c] == f);
                assert forall|k: int| 0 <= k < rest.len() implies rest[k] == fr.skip(c + 1)[k] by {
                    assert(rest[k] == (seq![f] + rest)[k + 1]);
                    assert(fr.skip(c)[k + 1] == fr[c + k + 1]);
                    assert(fr.skip(c + 1)[k] == fr[c + 1 + k]);
                }
                assert(rest =~~= fr.skip(c + 1));
            } else {
                assert(f =~= suffix);
                lemma_split_single(f, 44);
                assert(fr.skip(c) =~~= seq![f]);
                assert(fr.skip(c)[0] == fr[c]);
                assert(fr[c] == f);
                assert(fr.skip(c).len() == 1);
                assert(self.names@.skip(self.names@.len() as int) =~= Seq::<u8>::empty());
                assert(split_sep(self.names@.skip(self.names@.len() as int), 44) =~~= fr.skip(
                    c + 1,
                ));
            }
        }
        let r = parse_path_segment(frag_slice);
        if j < n {
            self.pos = j + 1;
        } else {
            self.pos = j;
        }
        proof {
            self.consumed@ = self.consumed@ + 1;
        }
        Some(r)
    }
}

impl<T: OptFields> Path<T> {
    /// A fresh cursor over this path's steps, starting at the first.
    pub fn iter(&self) -> (r: PathSteps)
        ensures
            r.wf(),
            r.names@ == self.segment_names@,
            r.consumed@ == 0,
    {
        let r = PathSteps { names: clone_bytes(&self.segment_names), pos: 0, consumed: Ghost(0) };
        proof {
            assert(r.names@.skip(0) =~= r.names@);
            assert(r.frags().skip(0) =~~= r.frags());
        }
        r
    }

    /// True exactly when every step of the path is well formed and its
    /// identity consists of digits alone.
    pub fn usize_segments(&self) -> (r: bool)
        ensures
            r == path_steps_uint(self.segment_names@),
    {
        let ghost frags = path_fragments(self.segment_names@);
        let mut it = self.iter();
        loop
            invariant
                it.wf(),
                it.names@ == self.segment_names@,
                it.frags() == frags,
                forall|k: int|
                    0 <= k < it.consumed@ ==> step_fragment_ok(#[trigger] frags[k]) && digits_only(
                        fragment_name(frags[k]),
                    ),
            decreases frags.len() - it.consumed@,
        {
            let ghost k = it.consumed@;
            match it.next() {
                None => {
                    return true;
                },
                Some(Ok(p)) => {
                    if !crate::digits::check_digits(p.0.as_slice()) {
                        proof {
                            assert(!digits_only(fragment_name(frags[k])));
                        }
                        return false;
                    }
                },
                Some(Err(_)) => {
                    proof {
                        assert(!step_fragment_ok(frags[k]));
                    }
                    return false;
                },
            }
        }
    }

    /// A copy of this path with the same name, step string, overlaps
    /// and tags.
    pub fn duplicate(&self) -> (r: Self)
        ensures
            path_kept(*self, r),
    {
        Path {
            path_name: clone_bytes(&self.path_name),
            segment_names: clone_bytes(&self.segment_names),
            overlaps: clone_byte_rows(&self.overlaps),
            optional: self.optional.duplicate(),
        }
    }
}

/// A copy of a vector of byte strings with the same contents.
pub fn clone_byte_rows(v: &Vec<Vec<u8>>) -> (r: Vec<Vec<u8>>)
    ensures
        crate::fields::views_of(r@) == crate::fields::views_of(v@),
{
    let mut out: Vec<Vec<u8>> = Vec::new();
    let mut i: usize = 0;
    proof {
        assert(crate::fields::views_of(out@) =~~= crate::fields::views_of(v@.subrange(0, 0)));
    }
    while i < v.len()
        invariant
            i <= v@.len(),
            out@.len() == i,
            crate::fields::views_of(out@) == crate::fields::views_of(v@.subrange(0, i as int)),
        decreases v@.len() - i,
    {
        let ghost out0 = out@;
        let c = clone_bytes(&v[i]);
        out.push(c);
        i = i + 1;
        proof {
            assert forall|j: int| 0 <= j < i implies crate::fields::views_of(out@)[j]
                == crate::fields::views_of(v@.subrange(0, i as int))[j] by {
                if j < i - 1 {
                    assert(out@[j] == out0[j]);
                    assert(crate::fields::views_of(out0)[j] == crate::fields::views_of(
                        v@.subrange(0, i - 1),
                    )[j]);
                } else {
                    assert(out@[j] == c);
                }
            }
            assert(crate::fields::views_of(out@) =~= crate::fields::views_of(
                v@.subrange(0, i as int),
            ));
        }
    }
    proof {
        assert(v@.subrange(0, i as int) =~= v@);
    }
    out
}

/// `b` keeps every observable part of `a`: name, step string, overlaps
/// and captured tags.
pub open spec fn path_kept<T: OptFields>(a: Path<T>, b: Path<T>) -> bool {
    &&& b.path_name@ == a.path_name@
    &&& b.segment_names@ == a.segment_names@
    &&& crate::fields::views_of(b.overlaps@) == crate::fields::views_of(a.overlaps@)
    &&& b.optional.captured() == a.optional.captured()
}

/// The token is a non-negative integer that fits an identity.
pub open spec fn uint_name_ok(s: Seq<u8>) -> bool {
    uint_token_val(s) is Some && uint_token_val(s).unwrap() <= usize::MAX
}

/// `b` is `a` with its identity read as an integer.
pub open spec fn seg_projected<T: OptFields>(a: Segment<Vec<u8>, T>, b: Segment<usize, T>) -> bool {
    &&& uint_token_val(a.name@) == Some(b.name as int)
    &&& b.sequence@ == a.sequence@
    &&& b.optional.captured() == a.optional.captured()
}

/// `b` is `a` with both identities read as integers.
pub open spec fn link_projected<T: OptFields>(a: Link<Vec<u8>, T>, b: Link<usize, T>) -> bool {
    &&& uint_token_val(a.from_segment@) == Some(b.from_segment as int)
    &&& b.from_orient == a.from_orient
    &&& uint_token_val(a.to_segment@) == Some(b.to_segment as int)
    &&& b.to_orient == a.to_orient
    &&& b.overlap@ == a.overlap@
    &&& b.optional.captured() == a.optional.captured()
}

/// `b` is `a` with both identities read as integers.
pub open spec fn cont_projected<T: OptFields>(
    a: Containment<Vec<u8>, T>,
    b: Containment<usize, T>,
) -> bool {
    &&& uint_token_val(a.container_name@) == Some(b.container_name as int)
    &&& b.container_orient == a.container_orient
    &&& uint_token_val(a.contained_name@) == Some(b.contained_name as int)
    &&& b.contained_orient == a.contained_orient
    &&& b.pos == a.pos
    &&& b.overlap@ == a.overlap@
    &&& b.optional.captured() == a.optional.captured()
}

impl<T: OptFields> Segment<Vec<u8>, T> {
    /// A segment with the given identity and sequence and no tags.
    pub fn new(name: &[u8], sequence: &[u8]) -> (r: Self)
        ensures
            r.name@ == name@,
            r.sequence@ == sequence@,
            r.optional.captured() == Seq::<TagModel>::empty(),
    {
        Segment {
            name: vstd::slice::slice_to_vec(name),
            sequence: vstd::slice::slice_to_vec(sequence),
            optional: T::empty(),
        }
    }

    /// This segment with its identity read as an integer; `None` when
    /// the identity is not a non-negative integer token.
    pub fn usize_name(&self) -> (r: Option<Segment<usize, T>>)
        ensures
            match r {
                Some(b) => seg_projected(*self, b),
                None => !uint_name_ok(self.name@),
            },
    {
        match parse_usize(self.name.as_slice()) {
            Some(ix) => Some(
                Segment {
                    name: ix,
                    sequence: clone_bytes(&self.sequence),
                    optional: self.optional.duplicate(),
                },
            ),
            None => None,
        }
    }
}

impl<T: OptFields> Link<Vec<u8>, T> {
    /// A link between the given oriented identities with no tags.
    pub fn new(
        from_segment: &[u8],
        from_orient: Orientation,
        to_segment: &[u8],
        to_orient: Orientation,
        overlap: &[u8],
    ) -> (r: Link<Vec<u8>, T>)
        ensures
            r.from_segment@ == from_segment@,
            r.from_orient == from_orient,
            r.to_segment@ == to_segment@,
            r.to_orient == to_orient,
            r.overlap@ == overlap@,
            r.optional.captured() == Seq::<TagModel>::empty(),
    {
        Link {
            from_segment: vstd::slice::slice_to_vec(from_segment),
            from_orient,
            to_segment: vstd::slice::slice_to_vec(to_segment),
            to_orient,
            overlap: vstd::slice::slice_to_vec(overlap),
            optional: T::empty(),
        }
    }

    /// This link with both identities read as integers; `None` when
    /// either is not a non-negative integer token.
    pub fn usize_name(&self) -> (r: Option<Link<usize, T>>)
        ensures
            match r {
                Some(b) => link_projected(*self, b),
                None => !(uint_name_ok(self.from_segment@) && uint_name_ok(self.to_segment@)),
            },
    {
        let from_segment = match parse_usize(self.from_segment.as_slice()) {
            Some(v) => v,
            None => {
                return None;
            },
        };
        let to_segment = match parse_usize(self.to_segment.as_slice()) {
            Some(v) => v,
            None => {
                return None;
            },
        };
        Some(
            Link {
                from_segment,
                from_orient: self.from_orient,
                to_segment,
                to_orient: self.to_orient,
                overlap: clone_bytes(&self.overlap),
                optional: self.optional.duplicate(),
            },
        )
    }
}

impl<T: OptFields> Containment<Vec<u8>, T> {
    /// This containment with both identities read as integers; `None`
    /// when either is not a non-negative integer token.
    pub fn usize_name(&self) -> (r: Option<Containment<usize, T>>)
        ensures
            match r {
                Some(b) => cont_projected(*self, b),
                None => !(uint_name_ok(self.container_name@) && uint_name_ok(
                    self.contained_name@,
                )),
            },
    {
        let container_name = match parse_usize(self.container_name.as_slice()) {
            Some(v) => v,
            None => {
                return None;
            },
        };
        let contained_name = match parse_usize(self.contained_name.as_slice()) {
            Some(v) => v,
            None => {
                return None;
            },
        };
        Some(
            Containment {
                container_name,
                container_orient: self.container_orient,
                contained_name,
                contained_orient: self.contained_orient,
                pos: self.pos,
                overlap: clone_bytes(&self.overlap),
                optional: self.optional.duplicate(),
            },
        )
    }
}

/// `b` keeps `a`'s version string and tags.
pub open spec fn header_kept<T: OptFields>(a: Header<T>, b: Header<T>) -> bool {
    &&& (a.version is Some <==> b.version is Some)
    &&& (a.version is Some ==> b.version.unwrap()@ == a.version.unwrap()@)
    &&& b.optional.captured() == a.optional.captured()
}

/// Every identity of the graph is a non-negative integer token, and
/// every path's steps are well formed with all-digit identities.
pub open spec fn gfa_names_ok<T: OptFields>(g: GFA<Vec<u8>, T>) -> bool {
    &&& forall|i: int|
        0 <= i < g.segments@.len() ==> uint_name_ok((#[trigger] g.segments@[i]).name@)
    &&& forall|i: int|
        0 <= i < g.links@.len() ==> uint_name_ok((#[trigger] g.links@[i]).from_segment@)
            && uint_name_ok(g.links@[i].to_segment@)
    &&& forall|i: int|
        0 <= i < g.containments@.len() ==> uint_name_ok(
            (#[trigger] g.containments@[i]).container_name@,
        ) && uint_name_ok(g.containments@[i].contained_name@)
    &&& forall|i: int|
        0 <= i < g.paths@.len() ==> path_steps_uint((#[trigger] g.paths@[i]).segment_names@)
}

/// `b` is `a` with every identity read as an integer: the all-or-nothing
/// projection of a whole graph.
pub open spec fn gfa_projected<T: OptFields>(a: GFA<Vec<u8>, T>, b: GFA<usize, T>) -> bool {
    &&& header_kept(a.header, b.header)
    &&& b.segments@.len() == a.segments@.len()
    &&& forall|i: int|
        0 <= i < a.segments@.len() ==> seg_projected(
            #[trigger] a.segments@[i],
            b.segments@[i],
        )
    &&& b.links@.len() == a.links@.len()
    &&& forall|i: int|
        0 <= i < a.links@.len() ==> link_projected(#[trigger] a.links@[i], b.links@[i])
    &&& b.containments@.len() == a.containments@.len()
    &&& forall|i: int|
        0 <= i < a.containments@.len() ==> cont_projected(
            #[trigger] a.containments@[i],
            b.containments@[i],
        )
    &&& b.paths@.len() == a.paths@.len()
    &&& forall|i: int|
        0 <= i < a.paths@.len() ==> path_steps_uint((#[trigger] a.paths@[i]).segment_names@)
            && path_kept(a.paths@[i], b.paths@[i])
}

impl<T: OptFields> GFA<Vec<u8>, T> {
    /// The whole graph with every identity read as an integer. Fails as
    /// a whole — returns `None`, never a partial graph — the moment any
    /// identity is not a non-negative integer token or any path step is
    /// not an all-digit identity.
    pub fn usize_names(&self) -> (r: Option<GFA<usize, T>>)
        ensures
            match r {
                Some(g) => gfa_projected(*self, g),
                None => !gfa_names_ok(*self),
            },
    {
        let mut gfa: GFA<usize, T> = GFA {
            header: Header {
                version: match &self.header.version {
                    Some(v) => Some(clone_bytes(v)),
                    None => None,
                },
                optional: self.header.optional.duplicate(),
            },
            segments: Vec::new(),
            links: Vec::new(),
            containments: Vec::new(),
            paths: Vec::new(),
        };
        let mut i: usize = 0;
        while i < self.segments.len()
            invariant
                i <= self.segments@.len(),
                header_kept(self.header, gfa.header),
                gfa.segments@.len() == i,
                forall|j: int|
                    0 <= j < i ==> seg_projected(
                        #[trigger] self.segments@[j],
                        gfa.segments@[j],
                    ),
                gfa.links@.len() == 0,
                gfa.containments@.len() == 0,
                gfa.paths@.len() == 0,
            decreases self.segments@.len() - i,
        {
            match self.segments[i].usize_name() {
                Some(s) => {
                    gfa.segments.push(s);
                },
                None => {
                    return None;
                },
            }
            i = i + 1;
        }
        let mut i: usize = 0;
        while i < self.links.len()
            invariant
                i <= self.links@.len(),
                header_kept(self.header, gfa.header),
                gfa.segments@.len() == self.segments@.len(),
                forall|j: int|
                    0 <= j < self.segments@.len() ==> seg_projected(
                        #[trigger] self.segments@[j],
                        gfa.segments@[j],
                    ),
                gfa.links@.len() == i,
                forall|j: int|
                    0 <= j < i ==> link_projected(#[trigger] self.links@[j], gfa.links@[j]),
                gfa.containments@.len() == 0,
                gfa.paths@.len() == 0,
            decreases self.links@.len() - i,
        {
            match self.links[i].usize_name() {
                Some(l) => {
                    gfa.links.push(l);
                },
                None => {
                    return None;
                },
            }
            i = i + 1;
        }
        let mut i: usize = 0;
        while i < self.containments.len()
            invariant
                i <= self.containments@.len(),
                header_kept(self.header, gfa.header),
                gfa.segments@.len() == self.segments@.len(),
                forall|j: int|
                    0 <= j < self.segments@.len() ==> seg_projected(
                        #[trigger] self.segments@[j],
                        gfa.segments@[j],
                    ),
                gfa.links@.len() == self.links@.len(),
                forall|j: int|
                    0 <= j < self.links@.len() ==> link_projected(
                        #[trigger] self.links@[j],
                        gfa.links@[j],
                    ),
                gfa.containments@.len() == i,
                forall|j: int|
                    0 <= j < i ==> cont_projected(
                        #[trigger] self.containments@[j],
                        gfa.containments@[j],
                    ),
                gfa.paths@.len() == 0,
            decreases self.containments@.len() - i,
        {
            match self.containments[i].usize_name() {
                Some(c) => {
                    gfa.containments.push(c);
                },
                None => {
                    return None;
                },
            }
            i = i + 1;
        }
        let mut i: usize = 0;
        while i < self.paths.len()
            invariant
                i <= self.paths@.len(),
                header_kept(self.header, gfa.header),
                gfa.segments@.len() == self.segments@.len(),
                forall|j: int|
                    0 <= j < self.segments@.len() ==> seg_projected(
                        #[trigger] self.segments@[j],
                        gfa.segments@[j],
                    ),
                gfa.links@.len() == self.links@.len(),
                forall|j: int|
                    0 <= j < self.links@.len() ==> link_projected(
                        #[trigger] self.links@[j],
                        gfa.links@[j],
                    ),
                gfa.containments@.len() == self.containments@.len(),
                forall|j: int|
                    0 <= j < self.containments@.len() ==> cont_projected(
                        #[trigger] self.containments@[j],
                        gfa.containments@[j],
                    ),
                gfa.paths@.len() == i,
                forall|j: int|
                    0 <= j < i ==> path_steps_uint((#[trigger] self.paths@[j]).segment_names@)
                        && path_kept(self.paths@[j], gfa.paths@[j]),
            decreases self.paths@.len() - i,
        {
            if self.paths[i].usize_segments() {
                gfa.paths.push(self.paths[i].duplicate());
            } else {
                return None;
            }
            i = i + 1;
        }
        Some(gfa)
    }
}

/// `a` is the canonical decimal rendering of the integer-named graph
/// `b`: each identity of `a` is the numeral of the corresponding
/// identity of `b`, and everything else is kept.
pub open spec fn gfa_rendered<T: OptFields>(a: GFA<Vec<u8>, T>, b: GFA<usize, T>) -> bool {
    &&& header_kept(a.header, b.header)
    &&& a.segments@.len() == b.segments@.len()
    &&& forall|i: int|
        0 <= i < a.segments@.len() ==> {
            let x = #[trigger] a.segments@[i];
            let y = b.segments@[i];
            x.name@ == dec_repr(y.name as nat) && y.sequence@ == x.sequence@
                && y.optional.captured() == x.optional.captured()
        }
    &&& a.links@.len() == b.links@.len()
    &&& forall|i: int|
        0 <= i < a.links@.len() ==> {
            let x = #[trigger] a.links@[i];
            let y = b.links@[i];
            x.from_segment@ == dec_repr(y.from_segment as nat) && x.to_segment@ == dec_repr(
                y.to_segment as nat,
            ) && y.from_orient == x.from_orient && y.to_orient == x.to_orient && y.overlap@
                == x.overlap@ && y.optional.captured() == x.optional.captured()
        }
    &&& a.containments@.len() == b.containments@.len()
    &&& forall|i: int|
        0 <= i < a.containments@.len() ==> {
            let x = #[trigger] a.containments@[i];
            let y = b.containments@[i];
            x.container_name@ == dec_repr(y.container_name as nat) && x.contained_name@
                == dec_repr(y.contained_name as nat) && y.container_orient == x.container_orient
                && y.contained_orient == x.contained_orient && y.pos == x.pos && y.overlap@
                == x.overlap@ && y.optional.captured() == x.optional.captured()
        }
    &&& a.paths@.len() == b.paths@.len()
    &&& forall|i: int|
        0 <= i < a.paths@.len() ==> path_steps_uint((#[trigger] a.paths@[i]).segment_names@)
            && path_kept(a.paths@[i], b.paths@[i])
}

/// Projection is idempotent on an already-all-integer-identity graph:
/// when `a` is the canonical rendering of the integer-named graph `b`,
/// projecting `a` succeeds and yields exactly `b` — so re-projecting a
/// projected graph changes nothing.
pub proof fn lemma_projection_idempotent<T: OptFields>(a: GFA<Vec<u8>, T>, b: GFA<usize, T>)
    requires
        gfa_rendered(a, b),
    ensures
        gfa_names_ok(a),
        gfa_projected(a, b),
{
    assert forall|i: int| 0 <= i < a.segments@.len() implies uint_name_ok(
        (#[trigger] a.segments@[i]).name@,
    ) && seg_projected(a.segments@[i], b.segments@[i]) by {
        lemma_uint_token_round_trip(b.segments@[i].name as nat);
    }
    assert forall|i: int| 0 <= i < a.links@.len() implies uint_name_ok(
        (#[trigger] a.links@[i]).from_segment@,
    ) && uint_name_ok(a.links@[i].to_segment@) && link_projected(a.links@[i], b.links@[i]) by {
        lemma_uint_token_round_trip(b.links@[i].from_segment as nat);
        lemma_uint_token_round_trip(b.links@[i].to_segment as nat);
    }
    assert forall|i: int| 0 <= i < a.containments@.len() implies uint_name_ok(
        (#[trigger] a.containments@[i]).container_name@,
    ) && uint_name_ok(a.containments@[i].contained_name@) && cont_projected(
        a.containments@[i],
        b.containments@[i],
    ) by {
        lemma_uint_token_round_trip(b.containments@[i].container_name as nat);
        lemma_uint_token_round_trip(b.containments@[i].contained_name as nat);
    }
}

} // verus!
