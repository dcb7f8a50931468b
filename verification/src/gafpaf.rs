//! The two alignment-record grammars: the flat tab-delimited form and
//! the graph-walk form that re-reads the flat form's target-name column
//! as an oriented walk or a stable identifier.

use vstd::prelude::*;

use std::ops::Range;

use crate::digits::{dec_val, digit_run, parse_dec_u64, scan_digits};
use crate::fields::{has_byte, views_of};
use crate::gfa::{orientation_of, Orientation};
use crate::optfields::{all_tags_valid, parsed_tags, OptFields, TagModel};

verus! {

/// Relies on the standard library's derived `Clone` for `core::ops::Range`,
/// which clones the two bounds.
pub assume_specification<Idx: Clone>[ <Range<Idx> as Clone>::clone ](r: &Range<Idx>) -> (res: Range<
    Idx,
>)
    ensures
        vstd::pervasive::cloned::<Idx>(r.start, res.start),
        vstd::pervasive::cloned::<Idx>(r.end, res.end),
;

/// One step of an oriented walk: an oriented segment reference, or an
/// oriented stable-coordinate interval.
#[derive(Debug, Clone, PartialEq, Eq)]
pub enum GAFStep {
    SegId(Orientation, Vec<u8>),
    StableIntv(Orientation, Vec<u8>, Range<usize>),
}

/// The mathematical value of one walk step.
pub struct StepModel {
    pub orient: Orientation,
    pub name: Seq<u8>,
    pub interval: Option<(int, int)>,
}

impl View for GAFStep {
    type V = StepModel;

    open spec fn view(&self) -> StepModel {
        match self {
            GAFStep::SegId(o, n) => StepModel { orient: *o, name: n@, interval: None },
            GAFStep::StableIntv(o, n, r) => StepModel {
                orient: *o,
                name: n@,
                interval: Some((r.start as int, r.end as int)),
            },
        }
    }
}

/// A target column: a flat stable identifier, or an oriented walk.
#[derive(Debug, Clone, PartialEq, Eq)]
pub enum GAFPath {
    StableId(Vec<u8>),
    OrientIntv(Vec<GAFStep>),
}

/// The mathematical value of a target column.
pub enum PathModel {
    Stable(Seq<u8>),
    Walk(Seq<StepModel>),
}

impl View for GAFPath {
    type V = PathModel;

    open spec fn view(&self) -> PathModel {
        match self {
            GAFPath::StableId(n) => PathModel::Stable(n@),
            GAFPath::OrientIntv(steps) => PathModel::Walk(
                steps@.map_values(|s: GAFStep| s@),
            ),
        }
    }
}

/// A byte an identity inside a walk may consist of: anything but the
/// walk delimiters, the interval colon and whitespace.
pub open spec fn step_name_char(b: u8) -> bool {
    b != 60 && b != 62 && b != 58 && b != 32 && b != 9 && b != 13 && b != 10
}

/// The length of the maximal run of step-identity bytes at the front.
pub open spec fn name_run(s: Seq<u8>) -> int
    decreases s.len(),
{
    if s.len() == 0 || !step_name_char(s[0]) {
        0
    } else {
        1 + name_run(s.skip(1))
    }
}

pub proof fn lemma_name_run(s: Seq<u8>)
    ensures
        0 <= name_run(s) <= s.len(),
        forall|i: int| 0 <= i < name_run(s) ==> step_name_char(#[trigger] s[i]),
        name_run(s) < s.len() ==> !step_name_char(s[name_run(s)]),
    decreases s.len(),
{
    if s.len() > 0 && step_name_char(s[0]) {
        lemma_name_run(s.skip(1));
        assert forall|i: int| 0 <= i < name_run(s) implies step_name_char(#[trigger] s[i]) by {
            if i > 0 {
                assert(s.skip(1)[i - 1] == s[i]);
                assert(step_name_char(s.skip(1)[i - 1]));
            }
        }
        if name_run(s) < s.len() {
            assert(s.skip(1)[name_run(s) - 1] == s[name_run(s)]);
        }
    }
}

proof fn lemma_name_run_char(s: Seq<u8>, k: int)
    requires
        0 <= k <= s.len(),
        forall|i: int| 0 <= i < k ==> step_name_char(#[trigger] s[i]),
        k < s.len() ==> !step_name_char(s[k]),
    ensures
        name_run(s) == k,
    decreases s.len(),
{
    if s.len() == 0 || !step_name_char(s[0]) {
        assert(k == 0);
    } else {
        assert(forall|i: int|
            0 <= i < s.skip(1).len() ==> #[trigger] s.skip(1)[i] == s[i + 1]);
        lemma_name_run_char(s.skip(1), k - 1);
    }
}

/// Returns the end of the maximal run of step-identity bytes starting
/// at `from`.
fn scan_step_name(s: &[u8], from: usize) -> (r: usize)
    requires
        from <= s@.len(),
    ensures
        from <= r <= s@.len(),
        r - from == name_run(s@.skip(from as int)),
{
    let mut i: usize = from;
    while i < s.len() && s[i] != 60 && s[i] != 62 && s[i] != 58 && s[i] != 32 && s[i] != 9
        && s[i] != 13 && s[i] != 10
        invariant
            from <= i <= s@.len(),
            forall|j: int| from <= j < i ==> step_name_char(#[trigger] s@[j]),
        decreases s@.len() - i,
    {
        i = i + 1;
    }
    proof {
        let t = s@.skip(from as int);
        assert(forall|j: int| 0 <= j < t.len() ==> #[trigger] t[j] == s@[j + from]);
        lemma_name_run_char(t, i - from);
    }
    i
}

/// The parse of one walk step at position `i`: an orientation marker
/// (`>` forward, `<` backward), a non-empty identity, and optionally a
/// half-open interval `:start-end`. A `:` not followed by a well-formed
/// interval is left unconsumed; an interval bound beyond the machine
/// range fails the step.
pub open spec fn spec_parse_step(s: Seq<u8>, i: int) -> Option<(StepModel, int)> {
    if !(0 <= i < s.len()) {
        None
    } else if s[i] != 60 && s[i] != 62 {
        None
    } else {
        let o = if s[i] == 62 {
            Orientation::Forward
        } else {
            Orientation::Backward
        };
        let n = name_run(s.skip(i + 1));
        if n <= 0 || i + 1 + n > s.len() {
            None
        } else {
            let name = s.subrange(i + 1, i + 1 + n);
            let j = i + 1 + n;
            if j < s.len() && s[j] == 58 {
                let r1 = digit_run(s.skip(j + 1));
                if r1 > 0 && j + 1 + r1 < s.len() && s[j + 1 + r1] == 45 {
                    let r2 = digit_run(s.skip(j + 2 + r1));
                    if r2 > 0 && j + 2 + r1 + r2 <= s.len() {
                        let v1 = dec_val(s.subrange(j + 1, j + 1 + r1));
                        let v2 = dec_val(s.subrange(j + 2 + r1, j + 2 + r1 + r2));
                        if v1 <= usize::MAX && v2 <= usize::MAX {
                            Some(
                                (
                                    StepModel { orient: o, name, interval: Some((v1, v2)) },
                                    j + 2 + r1 + r2,
                                ),
                            )
                        } else {
                            None
                        }
                    } else {
                        Some((StepModel { orient: o, name, interval: None }, j))
                    }
                } else {
                    Some((StepModel { orient: o, name, interval: None }, j))
                }
            } else {
                Some((StepModel { orient: o, name, interval: None }, j))
            }
        }
    }
}

impl GAFStep {
    /// Parses one step from position `from`, returning the step and the
    /// position of the first unconsumed byte.
    pub fn parse_step(i: &[u8], from: usize) -> (r: Option<(GAFStep, usize)>)
        requires
            from <= i@.len(),
        ensures
            match r {
                Some(p) => spec_parse_step(i@, from as int) == Some((p.0@, p.1 as int)),
                None => spec_parse_step(i@, from as int) is None,
            },
    {
        let s = i;
        let n = s.len();
        if from >= n {
            return None;
        }
        let o: Orientation;
        if s[from] == 62 {
            o = Orientation::Forward;
        } else if s[from] == 60 {
            o = Orientation::Backward;
        } else {
            return None;
        }
        let name_end = scan_step_name(s, from + 1);
        if name_end == from + 1 {
            return None;
        }
        let name = vstd::slice::slice_to_vec(
            vstd::slice::slice_subrange(s, from + 1, name_end),
        );
        let j = name_end;
        proof {
            assert(name@ =~= s@.subrange(from + 1, j as int));
        }
        if j < n && s[j] == 58 {
            let d1_end = scan_digits(s, j + 1);
            proof {
                assert(digit_run(s@.skip(j + 1)) == d1_end - (j + 1));
            }
            if d1_end > j + 1 && d1_end < n && s[d1_end] == 45 {
                let d2_end = scan_digits(s, d1_end + 1);
                proof {
                    assert(digit_run(s@.skip(d1_end + 1)) == d2_end - (d1_end + 1));
                }
                if d2_end > d1_end + 1 {
                    let v1 = match parse_dec_u64(s, j + 1, d1_end) {
                        Some(v) => v,
                        None => {
                            proof {
                                let d = s@.subrange(j + 1, d1_end as int);
                                assert(crate::digits::digits_only(d)) by {
                                    assert(forall|k: int|
                                        0 <= k < d.len() ==> #[trigger] d[k] == s@[k + j + 1]);
                                }
                                assert(dec_val(d) > u64::MAX);
                                assert(u64::MAX >= usize::MAX);
                            }
                            return None;
                        },
                    };
                    let v2 = match parse_dec_u64(s, d1_end + 1, d2_end) {
                        Some(v) => v,
                        None => {
                            proof {
                                let d = s@.subrange(d1_end + 1, d2_end as int);
                                assert(crate::digits::digits_only(d)) by {
                                    assert(forall|k: int|
                                        0 <= k < d.len() ==> #[trigger] d[k] == s@[k + d1_end
                                            + 1]);
                                }
                                assert(dec_val(d) > u64::MAX);
                                assert(u64::MAX >= usize::MAX);
                            }
                            return None;
                        },
                    };
                    if v1 <= usize::MAX as u64 && v2 <= usize::MAX as u64 {
                        let start = v1 as usize;
                        let end = v2 as usize;
                        return Some((GAFStep::StableIntv(o, name, start..end), d2_end));
                    } else {
                        return None;
                    }
                }
            }
            return Some((GAFStep::SegId(o, name), j));
        }
        Some((GAFStep::SegId(o, name), j))
    }
}

/// The length of the maximal run of non-tab bytes at the front.
pub open spec fn nontab_run(s: Seq<u8>) -> int
    decreases s.len(),
{
    if s.len() == 0 || s[0] == 9 {
        0
    } else {
        1 + nontab_run(s.skip(1))
    }
}

proof fn lemma_nontab_run_char(s: Seq<u8>, k: int)
    requires
        0 <= k <= s.len(),
        forall|i: int| 0 <= i < k ==> #[trigger] s[i] != 9,
        k < s.len() ==> s[k] == 9,
    ensures
        nontab_run(s) == k,
    decreases s.len(),
{
    if s.len() == 0 || s[0] == 9 {
        assert(k == 0);
    } else {
        assert(forall|i: int|
            0 <= i < s.skip(1).len() ==> #[trigger] s.skip(1)[i] == s[i + 1]);
        lemma_nontab_run_char(s.skip(1), k - 1);
    }
}

/// The maximal run of one-or-more steps readable from position `i`,
/// with the position where reading stopped.
pub open spec fn spec_parse_walk(s: Seq<u8>, i: int) -> (Seq<StepModel>, int)
    decreases s.len() - i,
{
    match spec_parse_step(s, i) {
        None => (Seq::empty(), i),
        Some(p) => if i < p.1 <= s.len() {
            let tail = spec_parse_walk(s, p.1);
            (seq![p.0] + tail.0, tail.1)
        } else {
            (seq![p.0], p.1)
        },
    }
}

/// The classification of a target-name column: an oriented walk when at
/// least one step can be read; otherwise a stable identifier, which is
/// the non-empty run up to the next tab and must contain no walk
/// delimiter; otherwise no parse at all.
pub open spec fn spec_parse_gafpath(s: Seq<u8>) -> Option<(PathModel, int)> {
    if spec_parse_step(s, 0) is Some {
        let w = spec_parse_walk(s, 0);
        Some((PathModel::Walk(w.0), w.1))
    } else {
        let t = nontab_run(s);
        if t <= 0 {
            None
        } else {
            let id = s.subrange(0, t);
            if !has_byte(id, 60) && !has_byte(id, 62) {
                Some((PathModel::Stable(id), t))
            } else {
                None
            }
        }
    }
}

/// The step views of a step list.
pub open spec fn step_views(v: Seq<GAFStep>) -> Seq<StepModel> {
    v.map_values(|s: GAFStep| s@)
}

impl GAFPath {
    /// Parses a target-name column from the front of `i`, returning the
    /// classification and the position of the first unconsumed byte.
    pub fn parse_path(i: &[u8]) -> (r: Option<(GAFPath, usize)>)
        ensures
            match r {
                Some(p) => spec_parse_gafpath(i@) == Some((p.0@, p.1 as int)),
                None => spec_parse_gafpath(i@) is None,
            },
    {
        let s = i;
        match GAFStep::parse_step(s, 0) {
            Some(first) => {
                let mut steps: Vec<GAFStep> = Vec::new();
                let mut pos: usize = 0;
                proof {
                    assert(step_views(steps@) + spec_parse_walk(s@, 0).0 =~= spec_parse_walk(
                        s@,
                        0,
                    ).0);
                }
                loop
                    invariant
                        s@ == i@,
                        pos <= s@.len(),
                        spec_parse_walk(s@, 0).0 == step_views(steps@) + spec_parse_walk(
                            s@,
                            pos as int,
                        ).0,
                        spec_parse_walk(s@, 0).1 == spec_parse_walk(s@, pos as int).1,
                        spec_parse_step(s@, 0) is Some,
                        steps@.len() == 0 ==> pos == 0,
                    decreases s@.len() - pos,
                {
                    match GAFStep::parse_step(s, pos) {
                        None => {
                            proof {
                                assert(spec_parse_walk(s@, pos as int).0 =~= Seq::<
                                    StepModel,
                                >::empty());
                                assert(step_views(steps@) + Seq::<StepModel>::empty()
                                    =~= step_views(steps@));
                                assert(spec_parse_walk(s@, 0).1 == pos as int);
                                assert(steps@.len() > 0) by {
                                    if steps@.len() == 0 {
                                        assert(spec_parse_step(s@, pos as int) is None);
                                    }
                                }
                                assert(spec_parse_gafpath(i@) == Some(
                                    (PathModel::Walk(step_views(steps@)), pos as int),
                                ));
                            }
                            let ghost steps0 = steps@;
                            let out = GAFPath::OrientIntv(steps);
                            proof {
                                assert(out@ == PathModel::Walk(step_views(steps0)));
                            }
                            return Some((out, pos));
                        },
                        Some(st) => {
                            let ghost steps0 = steps@;
                            let ghost stv = st.0@;
                            let j = st.1;
                            proof {
                                assert(spec_parse_step(s@, pos as int) == Some((stv, j as int)));
                                assert(pos < j <= s@.len()) by {
                                    let p = spec_parse_step(s@, pos as int).unwrap();
                                    assert(p.1 == j as int);
                                }
                            }
                            steps.push(st.0);
                            proof {
                                assert(step_views(steps@) =~= step_views(steps0) + seq![stv]);
                                let tail = spec_parse_walk(s@, j as int);
                                assert(spec_parse_walk(s@, pos as int).0 == seq![stv] + tail.0);
                                assert(spec_parse_walk(s@, pos as int).1 == tail.1);
                                assert(step_views(steps0) + (seq![stv] + tail.0) =~= step_views(
                                    steps@,
                                ) + tail.0);
                            }
                            pos = j;
                        },
                    }
                }
            },
            None => {
                let t = scan_nontab(s, 0);
                proof {
                    assert(s@.skip(0) =~= s@);
                    assert(nontab_run(s@) == t as int);
                }
                if t == 0 {
                    return None;
                }
                let id_slice = vstd::slice::slice_subrange(s, 0, t);
                let ghost id = s@.subrange(0, t as int);
                if crate::fields::contains_byte(id_slice, 60) || crate::fields::contains_byte(
                    id_slice,
                    62,
                ) {
                    return None;
                }
                let idv = vstd::slice::slice_to_vec(id_slice);
                Some((GAFPath::StableId(idv), t))
            },
        }
    }
}

/// Returns the end of the maximal run of non-tab bytes starting at
/// `from`.
fn scan_nontab(s: &[u8], from: usize) -> (r: usize)
    requires
        from <= s@.len(),
    ensures
        from <= r <= s@.len(),
        r - from == nontab_run(s@.skip(from as int)),
{
    let mut i: usize = from;
    while i < s.len() && s[i] != 9
        invariant
            from <= i <= s@.len(),
            forall|j: int| from <= j < i ==> #[trigger] s@[j] != 9,
        decreases s@.len() - i,
    {
        i = i + 1;
    }
    proof {
        let t = s@.skip(from as int);
        assert(forall|j: int| 0 <= j < t.len() ==> #[trigger] t[j] == s@[j + from]);
        lemma_nontab_run_char(t, i - from);
    }
    i
}

/// A token reads as the start of an oriented walk.
pub open spec fn parses_as_walk(t: Seq<u8>) -> bool {
    spec_parse_step(t, 0) is Some
}

/// A token reads as a flat stable identifier: non-empty, without tabs
/// and without the walk delimiters.
pub open spec fn parses_as_stable(t: Seq<u8>) -> bool {
    t.len() > 0 && !has_byte(t, 9) && !has_byte(t, 60) && !has_byte(t, 62)
}

/// The two target sub-grammars are mutually exclusive, and together
/// total on well-formed tokens: no token reads as both; one that reads
/// as neither, though non-empty and tab-free, must contain a bare walk
/// delimiter — the malformed case, which the parser rejects; and each
/// side alone determines the parser's classification.
pub proof fn lemma_target_classification_exclusive(t: Seq<u8>)
    ensures
        !(parses_as_walk(t) && parses_as_stable(t)),
        (!parses_as_walk(t) && !parses_as_stable(t) && t.len() > 0 && !has_byte(t, 9)) ==> (
        has_byte(t, 60) || has_byte(t, 62)),
        parses_as_walk(t) ==> (spec_parse_gafpath(t) matches Some(p) && p.0 is Walk),
        (parses_as_stable(t) && !parses_as_walk(t)) ==> spec_parse_gafpath(t) == Some(
            (PathModel::Stable(t), t.len() as int),
        ),
{
    if parses_as_walk(t) {
        assert(t[0] == 60 || t[0] == 62);
        assert(has_byte(t, 60) || has_byte(t, 62));
    }
    if parses_as_stable(t) && !parses_as_walk(t) {
        assert(forall|i: int| 0 <= i < t.len() ==> #[trigger] t[i] != 9);
        lemma_nontab_run_char(t, t.len() as int);
        assert(t.subrange(0, t.len() as int) =~= t);
    }
}

/// The flat alignment record: query and target coordinates, counts,
/// quality and trailing tags, all positional.
#[derive(Debug, Clone, PartialEq, Eq)]
pub struct PAF<T: OptFields> {
    pub query_seq_name: Vec<u8>,
    pub query_seq_len: usize,
    pub query_seq_range: Range<usize>,
    pub strand: Orientation,
    pub target_seq_name: Vec<u8>,
    pub target_seq_len: usize,
    pub target_seq_range: Range<usize>,
    pub residue_matches: usize,
    pub block_length: usize,
    pub quality: u8,
    pub optional: T,
}

/// The graph-walk alignment record: the flat shape with the target
/// column reinterpreted as a walk or stable identifier.
#[derive(Debug, Clone, PartialEq, Eq)]
pub struct GAF<T: OptFields> {
    pub seq_name: Vec<u8>,
    pub seq_len: usize,
    pub seq_range: Range<usize>,
    pub strand: Orientation,
    pub path: GAFPath,
    pub path_len: usize,
    pub path_range: Range<usize>,
    pub residue_matches: usize,
    pub block_length: usize,
    pub quality: u8,
    pub optional: T,
}

/// The token is a non-negative integer that fits a length or
/// coordinate.
pub open spec fn uint_fits_usize(t: Seq<u8>) -> bool {
    crate::digits::uint_token_val(t) is Some && crate::digits::uint_token_val(t).unwrap()
        <= usize::MAX
}

/// The token is a non-negative integer that fits a mapping quality.
pub open spec fn uint_fits_u8(t: Seq<u8>) -> bool {
    crate::digits::uint_token_val(t) is Some && crate::digits::uint_token_val(t).unwrap() <= 255
}

/// The twelve required columns are present and well formed, and every
/// trailing column is a valid tag.
pub open spec fn paf_fields_ok(ts: Seq<Seq<u8>>) -> bool {
    &&& ts.len() >= 12
    &&& uint_fits_usize(ts[1])
    &&& uint_fits_usize(ts[2])
    &&& uint_fits_usize(ts[3])
    &&& orientation_of(ts[4]) is Some
    &&& uint_fits_usize(ts[6])
    &&& uint_fits_usize(ts[7])
    &&& uint_fits_usize(ts[8])
    &&& uint_fits_usize(ts[9])
    &&& uint_fits_usize(ts[10])
    &&& uint_fits_u8(ts[11])
    &&& all_tags_valid(ts.skip(12))
}

/// The record's fields are the respective columns' parses.
pub open spec fn paf_matches<T: OptFields>(ts: Seq<Seq<u8>>, p: PAF<T>) -> bool {
    &&& p.query_seq_name@ == ts[0]
    &&& crate::digits::uint_token_val(ts[1]) == Some(p.query_seq_len as int)
    &&& crate::digits::uint_token_val(ts[2]) == Some(p.query_seq_range.start as int)
    &&& crate::digits::uint_token_val(ts[3]) == Some(p.query_seq_range.end as int)
    &&& orientation_of(ts[4]) == Some(p.strand)
    &&& p.target_seq_name@ == ts[5]
    &&& crate::digits::uint_token_val(ts[6]) == Some(p.target_seq_len as int)
    &&& crate::digits::uint_token_val(ts[7]) == Some(p.target_seq_range.start as int)
    &&& crate::digits::uint_token_val(ts[8]) == Some(p.target_seq_range.end as int)
    &&& crate::digits::uint_token_val(ts[9]) == Some(p.residue_matches as int)
    &&& crate::digits::uint_token_val(ts[10]) == Some(p.block_length as int)
    &&& crate::digits::uint_token_val(ts[11]) == Some(p.quality as int)
    &&& p.optional.captured() == if T::capturing() {
        parsed_tags(ts.skip(12))
    } else {
        Seq::<TagModel>::empty()
    }
}

/// Parses a flat alignment record from its columns. Succeeds exactly
/// when all twelve required columns are present and well formed and
/// every trailing tag parses.
pub fn parse_paf<T: OptFields>(fields: &[Vec<u8>]) -> (r: Option<PAF<T>>)
    ensures
        match r {
            Some(p) => paf_fields_ok(views_of(fields@)) && paf_matches(views_of(fields@), p),
            None => !paf_fields_ok(views_of(fields@)),
        },
{
    let ghost ts = views_of(fields@);
    if fields.len() < 12 {
        return None;
    }
    proof {
        assert(forall|k: int| 0 <= k < fields@.len() ==> #[trigger] ts[k] == fields@[k]@);
    }
    let query_seq_len = match parse_usize_col(&fields[1]) {
        Some(v) => v,
        None => {
            return None;
        },
    };
    let qs = match parse_usize_col(&fields[2]) {
        Some(v) => v,
        None => {
            return None;
        },
    };
    let qe = match parse_usize_col(&fields[3]) {
        Some(v) => v,
        None => {
            return None;
        },
    };
    let strand = match Orientation::from_bytes(fields[4].as_slice()) {
        Some(o) => o,
        None => {
            return None;
        },
    };
    let target_seq_len = match parse_usize_col(&fields[6]) {
        Some(v) => v,
        None => {
            return None;
        },
    };
    let tstart = match parse_usize_col(&fields[7]) {
        Some(v) => v,
        None => {
            return None;
        },
    };
    let tend = match parse_usize_col(&fields[8]) {
        Some(v) => v,
        None => {
            return None;
        },
    };
    let residue_matches = match parse_usize_col(&fields[9]) {
        Some(v) => v,
        None => {
            return None;
        },
    };
    let block_length = match parse_usize_col(&fields[10]) {
        Some(v) => v,
        None => {
            return None;
        },
    };
    let quality = match parse_u8_col(&fields[11]) {
        Some(v) => v,
        None => {
            return None;
        },
    };
    let optional = match T::parse(fields, 12) {
        Ok(t) => t,
        Err(_) => {
            return None;
        },
    };
    Some(
        PAF {
            query_seq_name: crate::optfields::clone_bytes(&fields[0]),
            query_seq_len,
            query_seq_range: qs..qe,
            strand,
            target_seq_name: crate::optfields::clone_bytes(&fields[5]),
            target_seq_len,
            target_seq_range: tstart..tend,
            residue_matches,
            block_length,
            quality,
            optional,
        },
    )
}

/// Reads one coordinate column as a machine-sized integer.
fn parse_usize_col(t: &Vec<u8>) -> (r: Option<usize>)
    ensures
        match r {
            Some(v) => crate::digits::uint_token_val(t@) == Some(v as int),
            None => !uint_fits_usize(t@),
        },
{
    crate::gfa::parse_usize(t.as_slice())
}

/// Reads the mapping-quality column.
fn parse_u8_col(t: &Vec<u8>) -> (r: Option<u8>)
    ensures
        match r {
            Some(v) => crate::digits::uint_token_val(t@) == Some(v as int),
            None => !uint_fits_u8(t@),
        },
{
    match crate::digits::parse_uint_token(t.as_slice()) {
        Some(m) => {
            if m <= 255 {
                Some(m as u8)
            } else {
                None
            }
        },
        None => None,
    }
}

/// The graph-walk record's fields are the columns' parses, with the
/// target name re-read through the walk grammar.
pub open spec fn gaf_matches<T: OptFields>(ts: Seq<Seq<u8>>, g: GAF<T>) -> bool {
    &&& g.seq_name@ == ts[0]
    &&& crate::digits::uint_token_val(ts[1]) == Some(g.seq_len as int)
    &&& crate::digits::uint_token_val(ts[2]) == Some(g.seq_range.start as int)
    &&& crate::digits::uint_token_val(ts[3]) == Some(g.seq_range.end as int)
    &&& orientation_of(ts[4]) == Some(g.strand)
    &&& spec_parse_gafpath(ts[5]) is Some
    &&& g.path@ == spec_parse_gafpath(ts[5]).unwrap().0
    &&& crate::digits::uint_token_val(ts[6]) == Some(g.path_len as int)
    &&& crate::digits::uint_token_val(ts[7]) == Some(g.path_range.start as int)
    &&& crate::digits::uint_token_val(ts[8]) == Some(g.path_range.end as int)
    &&& crate::digits::uint_token_val(ts[9]) == Some(g.residue_matches as int)
    &&& crate::digits::uint_token_val(ts[10]) == Some(g.block_length as int)
    &&& crate::digits::uint_token_val(ts[11]) == Some(g.quality as int)
    &&& g.optional.captured() == if T::capturing() {
        parsed_tags(ts.skip(12))
    } else {
        Seq::<TagModel>::empty()
    }
}

/// Parses a graph-walk alignment record from its columns: the flat
/// grammar first, then the target-name column through the walk grammar.
/// Succeeds exactly when both do.
pub fn parse_gaf<T: OptFields>(fields: &[Vec<u8>]) -> (r: Option<GAF<T>>)
    ensures
        match r {
            Some(g) => paf_fields_ok(views_of(fields@)) && gaf_matches(views_of(fields@), g),
            None => !(paf_fields_ok(views_of(fields@)) && spec_parse_gafpath(
                views_of(fields@)[5],
            ) is Some),
        },
{
    let paf = match parse_paf::<T>(fields) {
        Some(p) => p,
        None => {
            return None;
        },
    };
    let path = match GAFPath::parse_path(paf.target_seq_name.as_slice()) {
        Some(p) => p.0,
        None => {
            return None;
        },
    };
    Some(
        GAF {
            seq_name: paf.query_seq_name,
            seq_len: paf.query_seq_len,
            seq_range: paf.query_seq_range,
            strand: paf.strand,
            path,
            path_len: paf.target_seq_len,
            path_range: paf.target_seq_range,
            residue_matches: paf.residue_matches,
            block_length: paf.block_length,
            quality: paf.quality,
            optional: paf.optional,
        },
    )
}

} // verus!
