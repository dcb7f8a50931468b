//! The run-length operation-code codec used inside alignment records:
//! one or more (decimal run length, operation code) pairs, re-emitted
//! byte-identically.

use vstd::prelude::*;

use crate::digits::{
    canonical_digits, dec_repr, dec_val, digit_run, digits_only, is_digit, lemma_dec_repr_shape,
    lemma_digit_run, lemma_repr_of_val, parse_dec_u64, push_dec_u64, scan_digits,
};

verus! {

/// The nine alignment operation codes.
#[derive(Debug, Clone, Copy, PartialEq, Eq, PartialOrd, Ord, Structural)]
pub enum CIGAROp {
    M,
    I,
    D,
    N,
    S,
    H,
    P,
    E,
    X,
}

/// The byte an operation code prints as; the exact-match code `E`
/// prints as `=`, every other as its own letter.
pub open spec fn op_byte(op: CIGAROp) -> u8 {
    match op {
        CIGAROp::M => 77,
        CIGAROp::I => 73,
        CIGAROp::D => 68,
        CIGAROp::N => 78,
        CIGAROp::S => 83,
        CIGAROp::H => 72,
        CIGAROp::P => 80,
        CIGAROp::E => 61,
        CIGAROp::X => 88,
    }
}

/// The operation code a byte reads as, through the same symbol table
/// the printer uses.
pub open spec fn op_of_byte(b: u8) -> Option<CIGAROp> {
    if b == 77 {
        Some(CIGAROp::M)
    } else if b == 73 {
        Some(CIGAROp::I)
    } else if b == 68 {
        Some(CIGAROp::D)
    } else if b == 78 {
        Some(CIGAROp::N)
    } else if b == 83 {
        Some(CIGAROp::S)
    } else if b == 72 {
        Some(CIGAROp::H)
    } else if b == 80 {
        Some(CIGAROp::P)
    } else if b == 61 {
        Some(CIGAROp::E)
    } else if b == 88 {
        Some(CIGAROp::X)
    } else {
        None
    }
}

impl CIGAROp {
    /// The byte this operation prints as.
    pub fn to_u8(self) -> (r: u8)
        ensures
            r == op_byte(self),
    {
        match self {
            CIGAROp::M => 77,
            CIGAROp::I => 73,
            CIGAROp::D => 68,
            CIGAROp::N => 78,
            CIGAROp::S => 83,
            CIGAROp::H => 72,
            CIGAROp::P => 80,
            CIGAROp::E => 61,
            CIGAROp::X => 88,
        }
    }

    /// Reads one operation byte.
    pub fn from_u8(byte: u8) -> (r: Option<CIGAROp>)
        ensures
            r == op_of_byte(byte),
    {
        if byte == 77 {
            Some(CIGAROp::M)
        } else if byte == 73 {
            Some(CIGAROp::I)
        } else if byte == 68 {
            Some(CIGAROp::D)
        } else if byte == 78 {
            Some(CIGAROp::N)
        } else if byte == 83 {
            Some(CIGAROp::S)
        } else if byte == 72 {
            Some(CIGAROp::H)
        } else if byte == 80 {
            Some(CIGAROp::P)
        } else if byte == 61 {
            Some(CIGAROp::E)
        } else if byte == 88 {
            Some(CIGAROp::X)
        } else {
            None
        }
    }
}

/// A lone operation byte maps back through the same symbol table the
/// printer uses: reading what was printed returns the operation.
pub proof fn lemma_op_symbol_round_trip(op: CIGAROp)
    ensures
        op_of_byte(op_byte(op)) == Some(op),
{
}

/// A run-length alignment description: ordered (length, operation)
/// pairs. Order defines the alignment left to right.
#[derive(Debug, Clone, PartialEq, Eq)]
pub struct CIGAR(pub Vec<(u32, CIGAROp)>);

/// The runs readable from position `i` on, with the position where
/// reading stopped. Reading stops cleanly before the first position
/// with no digits or no operation byte after the digits; a run length
/// beyond `u32` fails the whole parse.
pub open spec fn spec_cigar_runs(s: Seq<u8>, i: int) -> Option<(Seq<(u32, CIGAROp)>, int)>
    decreases s.len() - i,
{
    let r = digit_run(s.skip(i));
    if i < 0 || r <= 0 || i + r > s.len() {
        Some((Seq::empty(), i))
    } else if dec_val(s.subrange(i, i + r)) > u32::MAX {
        None
    } else if i + r == s.len() || op_of_byte(s[i + r]) is None {
        Some((Seq::empty(), i))
    } else {
        match spec_cigar_runs(s, i + r + 1) {
            None => None,
            Some(tail) => Some(
                (
                    seq![(dec_val(s.subrange(i, i + r)) as u32, op_of_byte(s[i + r]).unwrap())]
                        + tail.0,
                    tail.1,
                ),
            ),
        }
    }
}

/// The parse of a whole byte string: the maximal run list readable from
/// the front and the position of the first unconsumed byte. Fails when
/// no run at all can be read, or on run-length overflow.
pub open spec fn spec_cigar_parse(s: Seq<u8>) -> Option<(Seq<(u32, CIGAROp)>, int)> {
    match spec_cigar_runs(s, 0) {
        None => None,
        Some(p) => if p.0.len() == 0 {
            None
        } else {
            Some(p)
        },
    }
}

/// The printed bytes of a run list: each length in canonical decimal,
/// then its operation byte.
pub open spec fn spec_cigar_format(runs: Seq<(u32, CIGAROp)>) -> Seq<u8>
    decreases runs.len(),
{
    if runs.len() == 0 {
        Seq::empty()
    } else {
        dec_repr(runs[0].0 as nat) + seq![op_byte(runs[0].1)] + spec_cigar_format(runs.skip(1))
    }
}

impl CIGAR {
    /// Parses one or more runs from the front of `i`, returning the
    /// parsed runs and how many bytes they covered; `None` when no run
    /// can be read or a run length overflows.
    pub fn parse(i: &[u8]) -> (r: Option<(CIGAR, usize)>)
        ensures
            match r {
                Some(p) => spec_cigar_parse(i@) == Some((p.0.0@, p.1 as int)),
                None => spec_cigar_parse(i@) is None,
            },
    {
        let s = i;
        proof {
            assert(s@ == i@);
        }
        let mut runs: Vec<(u32, CIGAROp)> = Vec::new();
        let mut pos: usize = 0;
        proof {
            if spec_cigar_runs(s@, 0) is Some {
                assert(runs@ + spec_cigar_runs(s@, 0).unwrap().0 =~= spec_cigar_runs(
                    s@,
                    0,
                ).unwrap().0);
            }
        }
        loop
            invariant
                s@ == i@,
                pos <= s@.len(),
                spec_cigar_runs(s@, pos as int) is None ==> spec_cigar_runs(s@, 0) is None,
                spec_cigar_runs(s@, pos as int) is Some ==> {
                    let tail = spec_cigar_runs(s@, pos as int).unwrap();
                    let whole = spec_cigar_runs(s@, 0);
                    &&& whole is Some
                    &&& whole.unwrap().0 == runs@ + tail.0
                    &&& whole.unwrap().1 == tail.1
                },
            decreases s@.len() - pos,
        {
            let rend = scan_digits(s, pos);
            let ghost rn = rend - pos;
            proof {
                assert(digit_run(s@.skip(pos as int)) == rn);
            }
            if rend == pos {
                proof {
                    assert(spec_cigar_runs(s@, pos as int).unwrap().0 =~= Seq::<(
                        u32,
                        CIGAROp,
                    )>::empty());
                    assert(runs@ + Seq::<(u32, CIGAROp)>::empty() =~= runs@);
                    assert(spec_cigar_runs(s@, 0).unwrap() =~= (runs@, pos as int));
                }
                if runs.len() == 0 {
                    return None;
                }
                return Some((CIGAR(runs), pos));
            }
            let v = match parse_dec_u64(s, pos, rend) {
                Some(v) => v,
                None => {
                    proof {
                        let d = s@.subrange(pos as int, rend as int);
                        assert(digits_only(d) && d.len() > 0);
                        assert(dec_val(d) > u64::MAX);
                        assert(spec_cigar_runs(s@, pos as int) is None);
                    }
                    return None;
                },
            };
            if v > 0xffff_ffffu64 {
                proof {
                    assert(spec_cigar_runs(s@, pos as int) is None);
                }
                return None;
            }
            if rend == s.len() {
                proof {
                    assert(spec_cigar_runs(s@, pos as int).unwrap().0 =~= Seq::<(
                        u32,
                        CIGAROp,
                    )>::empty());
                    assert(runs@ + Seq::<(u32, CIGAROp)>::empty() =~= runs@);
                    assert(spec_cigar_runs(s@, 0).unwrap() =~= (runs@, pos as int));
                }
                if runs.len() == 0 {
                    return None;
                }
                return Some((CIGAR(runs), pos));
            }
            let op = match CIGAROp::from_u8(s[rend]) {
                Some(op) => op,
                None => {
                    proof {
                        assert(spec_cigar_runs(s@, pos as int).unwrap().0 =~= Seq::<(
                            u32,
                            CIGAROp,
                        )>::empty());
                        assert(runs@ + Seq::<(u32, CIGAROp)>::empty() =~= runs@);
                        assert(spec_cigar_runs(s@, 0).unwrap() =~= (runs@, pos as int));
                    }
                    if runs.len() == 0 {
                        return None;
                    }
                    return Some((CIGAR(runs), pos));
                },
            };
            let ghost runs0 = runs@;
            let ghost pair = (dec_val(s@.subrange(pos as int, rend as int)) as u32, op);
            runs.push((v as u32, op));
            proof {
                assert(runs@ =~= runs0 + seq![pair]);
            }
            pos = rend + 1;
            proof {
                let prev = (rend - rn) as int;
                assert(op_of_byte(s@[prev + rn]) == Some(pair.1));
                if spec_cigar_runs(s@, pos as int) is Some {
                    let tail0 = spec_cigar_runs(s@, pos as int).unwrap().0;
                    let tail1 = spec_cigar_runs(s@, pos as int).unwrap().1;
                    assert(spec_cigar_runs(s@, prev) is Some);
                    assert(spec_cigar_runs(s@, prev).unwrap().0 == seq![pair] + tail0);
                    assert(spec_cigar_runs(s@, prev).unwrap().1 == tail1);
                    assert(runs0 + (seq![pair] + tail0) =~= runs@ + tail0);
                } else {
                    assert(spec_cigar_runs(s@, prev) is None);
                }
            }
        }
    }

    /// The printed bytes of this run list.
    pub fn to_bytes(&self) -> (r: Vec<u8>)
        ensures
            r@ == spec_cigar_format(self.0@),
    {
        let mut out: Vec<u8> = Vec::new();
        let mut j: usize = 0;
        proof {
            assert(out@ =~= spec_cigar_format(self.0@.subrange(0, 0)));
        }
        while j < self.0.len()
            invariant
                j <= self.0@.len(),
                out@ == spec_cigar_format(self.0@.subrange(0, j as int)),
            decreases self.0@.len() - j,
        {
            let (v, op) = self.0[j];
            push_dec_u64(v as u64, &mut out);
            out.push(op.to_u8());
            j = j + 1;
            proof {
                lemma_format_concat(self.0@.subrange(0, j - 1), seq![self.0@[j - 1]]);
                assert(self.0@.subrange(0, j as int) =~= self.0@.subrange(0, j - 1) + seq![
                    self.0@[j - 1],
                ]);
                assert(spec_cigar_format(seq![self.0@[j - 1]]) =~= dec_repr(
                    self.0@[j - 1].0 as nat,
                ) + seq![op_byte(self.0@[j - 1].1)]) by {
                    assert(seq![self.0@[j - 1]].skip(1) =~= Seq::<(u32, CIGAROp)>::empty());
                    assert(spec_cigar_format(Seq::<(u32, CIGAROp)>::empty()) =~= Seq::<
                        u8,
                    >::empty());
                }
                assert(out@ =~= spec_cigar_format(self.0@.subrange(0, j as int)));
            }
        }
        proof {
            assert(self.0@.subrange(0, j as int) =~= self.0@);
        }
        out
    }
}

/// Printing distributes over concatenation of run lists.
pub proof fn lemma_format_concat(a: Seq<(u32, CIGAROp)>, b: Seq<(u32, CIGAROp)>)
    ensures
        spec_cigar_format(a + b) =~= spec_cigar_format(a) + spec_cigar_format(b),
    decreases a.len(),
{
    if a.len() == 0 {
        assert(a + b =~= b);
    } else {
        lemma_format_concat(a.skip(1), b);
        assert((a + b).skip(1) =~= a.skip(1) + b);
        assert((a + b)[0] == a[0]);
    }
}

/// Every maximal digit run that the reading passes over is canonical:
/// no run has a leading zero (a lone `0` is allowed).
pub open spec fn cigar_runs_canonical(s: Seq<u8>, i: int) -> bool
    decreases s.len() - i,
{
    let r = digit_run(s.skip(i));
    if i < 0 || r <= 0 || i + r > s.len() {
        true
    } else if dec_val(s.subrange(i, i + r)) > u32::MAX {
        true
    } else if i + r == s.len() || op_of_byte(s[i + r]) is None {
        true
    } else {
        canonical_digits(s.subrange(i, i + r)) && cigar_runs_canonical(s, i + r + 1)
    }
}

proof fn lemma_cigar_round_trip_at(s: Seq<u8>, i: int)
    requires
        0 <= i <= s.len(),
        spec_cigar_runs(s, i) is Some,
        spec_cigar_runs(s, i).unwrap().1 == s.len(),
        cigar_runs_canonical(s, i),
    ensures
        spec_cigar_format(spec_cigar_runs(s, i).unwrap().0) =~= s.skip(i),
    decreases s.len() - i,
{
    let r = digit_run(s.skip(i));
    lemma_digit_run(s.skip(i));
    if r <= 0 || i + r > s.len() {
        assert(i == s.len());
        assert(s.skip(i) =~= Seq::<u8>::empty());
    } else if i + r == s.len() || op_of_byte(s[i + r]) is None {
        assert(i == s.len());
        assert(s.skip(i) =~= Seq::<u8>::empty());
    } else {
        let d = s.subrange(i, i + r);
        let v = dec_val(d);
        let op = op_of_byte(s[i + r]).unwrap();
        lemma_cigar_round_trip_at(s, i + r + 1);
        let tail = spec_cigar_runs(s, i + r + 1).unwrap().0;
        let runs = spec_cigar_runs(s, i).unwrap().0;
        assert(runs == seq![(v as u32, op)] + tail);
        assert(digits_only(d)) by {
            assert(forall|k: int| 0 <= k < d.len() ==> #[trigger] d[k] == s.skip(i)[k]);
        }
        lemma_repr_of_val(d);
        assert(dec_repr((v as u32) as nat) =~= d);
        assert(op_byte(op) == s[i + r]);
        assert(runs.skip(1) =~= tail);
        assert(runs[0] == (v as u32, op));
        assert(spec_cigar_format(runs) =~= d + seq![s[i + r]] + spec_cigar_format(tail));
        assert(spec_cigar_format(tail) =~= s.skip(i + r + 1));
        assert(s.skip(i) =~= d + seq![s[i + r]] + s.skip(i + r + 1));
    }
}

/// The round-trip law: printing what was parsed reproduces the input,
/// for every byte string that parses as a whole and whose run lengths
/// are written canonically, without leading zeros.
pub proof fn lemma_cigar_round_trip(s: Seq<u8>)
    requires
        spec_cigar_parse(s) is Some,
        spec_cigar_parse(s).unwrap().1 == s.len(),
        cigar_runs_canonical(s, 0),
    ensures
        spec_cigar_format(spec_cigar_parse(s).unwrap().0) == s,
{
    lemma_cigar_round_trip_at(s, 0);
    assert(s.skip(0) =~= s);
}

} // verus!
