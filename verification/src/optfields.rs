//! The optional-tag sub-language: `tag:type:value` triplets with seven
//! payload kinds, the codec for them, and the tag-capture policies that
//! record grammars are generic over.

use vstd::prelude::*;

use crate::digits::{
    digit_run, digits_only, int_token_val, is_digit, lemma_digit_run, parse_int_token,
    hex_val, hex_chr, is_hex_digit, int_repr, push_int_token, lemma_int_token_round_trip,
    lemma_dec_repr_shape,
};
use crate::error::ParseFieldError;
use crate::fields::{
    has_byte, join_sep, lemma_join_snoc, lemma_split_join, split_bytes, split_sep, views_of,
};

verus! {

/// The payload of one optional tag. Floating-point payloads keep their
/// validated lexical form, so re-encoding them is byte-exact.
#[derive(Debug, PartialEq, Eq)]
pub enum OptFieldVal {
    /// `A`: one printable character.
    PrintableChar(u8),
    /// `i`: a signed 64-bit integer.
    SignedInt(i64),
    /// `f`: a floating-point number, kept as its lexical bytes.
    Float(Vec<u8>),
    /// `Z`: a printable string, spaces allowed.
    PrintableString(Vec<u8>),
    /// `J`: a JSON string, passed through verbatim.
    JsonString(Vec<u8>),
    /// `H`: hex digits decoded nibble by nibble into values below 16.
    ByteArray(Vec<u8>),
    /// `B` with an integer sub-type: a list of signed 64-bit integers.
    IntArray(Vec<i64>),
    /// `B` with sub-type `f`: a list of floats as lexical bytes.
    FloatArray(Vec<Vec<u8>>),
}

/// The mathematical value of a tag payload.
pub enum TagVal {
    Char(u8),
    Int(int),
    Float(Seq<u8>),
    Str(Seq<u8>),
    Json(Seq<u8>),
    Hex(Seq<u8>),
    Ints(Seq<int>),
    Floats(Seq<Seq<u8>>),
}

/// The mathematical value of one optional tag.
pub struct TagModel {
    pub name: Seq<u8>,
    pub val: TagVal,
}

impl View for OptFieldVal {
    type V = TagVal;

    open spec fn view(&self) -> TagVal {
        match self {
            OptFieldVal::PrintableChar(c) => TagVal::Char(*c),
            OptFieldVal::SignedInt(v) => TagVal::Int(*v as int),
            OptFieldVal::Float(s) => TagVal::Float(s@),
            OptFieldVal::PrintableString(s) => TagVal::Str(s@),
            OptFieldVal::JsonString(s) => TagVal::Json(s@),
            OptFieldVal::ByteArray(s) => TagVal::Hex(s@),
            OptFieldVal::IntArray(v) => TagVal::Ints(v@.map_values(|x: i64| x as int)),
            OptFieldVal::FloatArray(v) => TagVal::Floats(v@.map_values(|x: Vec<u8>| x@)),
        }
    }
}

/// One optional tag: a two-character name and a typed payload.
#[derive(Debug, PartialEq, Eq)]
pub struct OptField {
    pub tag: [u8; 2],
    pub value: OptFieldVal,
}

impl View for OptField {
    type V = TagModel;

    open spec fn view(&self) -> TagModel {
        TagModel { name: self.tag@, val: self.value@ }
    }
}

/// `b` is printable and not a space.
pub open spec fn is_printable(b: u8) -> bool {
    33 <= b <= 126
}

/// `b` is printable or a space.
pub open spec fn printable_or_space(b: u8) -> bool {
    32 <= b <= 126
}

/// `b` is an ASCII letter.
pub open spec fn is_alpha(b: u8) -> bool {
    (65 <= b <= 90) || (97 <= b <= 122)
}

/// `b` is an ASCII letter or digit.
pub open spec fn is_alnum(b: u8) -> bool {
    is_alpha(b) || is_digit(b)
}

/// A tag name is one letter followed by one letter or digit.
pub open spec fn tag_name_ok(s: Seq<u8>) -> bool {
    s.len() == 2 && is_alpha(s[0]) && is_alnum(s[1])
}

/// A non-empty string of printable-or-space bytes.
pub open spec fn printable_str_ok(s: Seq<u8>) -> bool {
    s.len() > 0 && forall|i: int| 0 <= i < s.len() ==> printable_or_space(#[trigger] s[i])
}

/// A non-empty string of uppercase hexadecimal digits.
pub open spec fn hex_str_ok(s: Seq<u8>) -> bool {
    s.len() > 0 && forall|i: int| 0 <= i < s.len() ==> is_hex_digit(#[trigger] s[i])
}

/// The bytes a floating-point token may consist of.
pub open spec fn float_char(b: u8) -> bool {
    is_digit(b) || b == 43 || b == 45 || b == 46 || b == 101 || b == 69
}

pub open spec fn float_chars_only(s: Seq<u8>) -> bool {
    forall|i: int| 0 <= i < s.len() ==> float_char(#[trigger] s[i])
}

/// An exponent suffix: `e` or `E`, then a signed integer token.
pub open spec fn exp_ok(s: Seq<u8>) -> bool {
    s.len() >= 1 && (s[0] == 101 || s[0] == 69) && int_token_val(s.skip(1)) is Some
}

/// The body of a float after any sign: digits, or digits around one
/// dot with at least one digit after it, each optionally followed by
/// an exponent suffix.
pub open spec fn float_body_ok(s: Seq<u8>) -> bool {
    let r = digit_run(s);
    if r == s.len() {
        r >= 1
    } else if s[r] == 46 {
        let t = s.skip(r + 1);
        let r2 = digit_run(t);
        r2 >= 1 && (r2 == t.len() || exp_ok(t.skip(r2)))
    } else {
        r >= 1 && exp_ok(s.skip(r))
    }
}

/// A whole token in standard decimal or exponent form.
pub open spec fn float_token_ok(s: Seq<u8>) -> bool {
    float_chars_only(s) && float_body_ok(
        if s.len() >= 1 && (s[0] == 43 || s[0] == 45) {
            s.skip(1)
        } else {
            s
        },
    )
}

/// A digit string is all digits exactly when its digit run covers it.
proof fn lemma_digit_run_all(s: Seq<u8>)
    ensures
        (digit_run(s) == s.len()) == digits_only(s),
{
    lemma_digit_run(s);
    if digits_only(s) {
        crate::digits::lemma_digit_run_char(s, s.len() as int);
    }
}

/// Checks the exponent grammar of `s` from position `from`.
fn check_exp(s: &[u8], from: usize) -> (r: bool)
    requires
        from < s@.len(),
    ensures
        r == exp_ok(s@.skip(from as int)),
{
    let ghost e = s@.skip(from as int);
    proof {
        assert(e[0] == s@[from as int]);
    }
    if !(s[from] == 101 || s[from] == 69) {
        return false;
    }
    let mut i: usize = from + 1;
    let ghost body = e.skip(1);
    proof {
        assert(body =~= s@.skip(from + 1));
    }
    if i >= s.len() {
        return false;
    }
    let sign: bool = s[i] == 43 || s[i] == 45;
    let ds: usize = if sign { i + 1 } else { i };
    let run_end = crate::digits::scan_digits(s, ds);
    let ok = run_end == s.len() && run_end > ds;
    proof {
        let d = s@.skip(ds as int);
        lemma_digit_run_all(d);
        assert(forall|j: int| 0 <= j < d.len() ==> #[trigger] d[j] == s@[j + ds]);
        assert(digit_run(d) == run_end - ds || digit_run(d) != run_end - ds) by {}
        assert(d =~= s@.skip(ds as int));
        if sign {
            assert(body[0] == s@[i as int]);
            assert(body.skip(1) =~= d);
        } else {
            assert(body =~= d);
            if body.len() >= 1 && (body[0] == 43 || body[0] == 45) {
                assert(false);
            }
        }
    }
    ok
}

/// Validates a whole token against the floating-point grammar.
pub fn check_float_token(s: &[u8]) -> (r: bool)
    ensures
        r == float_token_ok(s@),
{
    let mut i: usize = 0;
    while i < s.len()
        invariant
            i <= s@.len(),
            forall|j: int| 0 <= j < i ==> float_char(#[trigger] s@[j]),
        decreases s@.len() - i,
    {
        let b = s[i];
        if !(48 <= b && b <= 57) && b != 43 && b != 45 && b != 46 && b != 101 && b != 69 {
            return false;
        }
        i = i + 1;
    }
    let b0: usize = if s.len() >= 1 && (s[0] == 43 || s[0] == 45) {
        1
    } else {
        0
    };
    let ghost body = if b0 == 1 {
        s@.skip(1)
    } else {
        s@
    };
    proof {
        assert(body =~= s@.skip(b0 as int));
        assert(forall|j: int| 0 <= j < body.len() ==> #[trigger] body[j] == s@[j + b0]);
    }
    let r1 = crate::digits::scan_digits(s, b0);
    proof {
        assert(digit_run(body) == r1 - b0);
    }
    if r1 == s.len() {
        return r1 > b0;
    }
    if s[r1] == 46 {
        proof {
            assert(body[r1 - b0] == s@[r1 as int]);
        }
        let ghost t = body.skip(r1 - b0 + 1);
        proof {
            assert(t =~= s@.skip(r1 + 1));
        }
        let r2 = crate::digits::scan_digits(s, r1 + 1);
        proof {
            assert(digit_run(t) == r2 - (r1 + 1));
        }
        if r2 == r1 + 1 {
            return false;
        }
        if r2 == s.len() {
            return true;
        }
        let e = check_exp(s, r2);
        proof {
            assert(t.skip(r2 - (r1 + 1)) =~= s@.skip(r2 as int));
        }
        e
    } else {
        proof {
            assert(body[r1 - b0] == s@[r1 as int]);
        }
        if r1 == b0 {
            return false;
        }
        let e = check_exp(s, r1);
        proof {
            assert(body.skip(r1 - b0) =~= s@.skip(r1 as int));
        }
        e
    }
}

/// Every fragment is a signed integer token whose value fits an `i64`.
pub open spec fn all_int_tokens(fs: Seq<Seq<u8>>) -> bool {
    forall|j: int|
        0 <= j < fs.len() ==> {
            let v = int_token_val(#[trigger] fs[j]);
            v is Some && i64::MIN <= v.unwrap() <= i64::MAX
        }
}

/// The integer values of a fragment list.
pub open spec fn int_vals(fs: Seq<Seq<u8>>) -> Seq<int> {
    fs.map_values(|f: Seq<u8>| int_token_val(f).unwrap())
}

/// Every fragment is a floating-point token.
pub open spec fn all_float_tokens(fs: Seq<Seq<u8>>) -> bool {
    forall|j: int| 0 <= j < fs.len() ==> float_token_ok(#[trigger] fs[j])
}

/// The nibble values of a hexadecimal string.
pub open spec fn nibbles_of(s: Seq<u8>) -> Seq<u8> {
    s.map_values(|b: u8| hex_val(b) as u8)
}

/// The sub-type markers a `B` array may open with: `c`, `C`, `s`, `S`,
/// `i`, `I` for integers, `f` for floats.
pub open spec fn int_subtype(b: u8) -> bool {
    b == 99 || b == 67 || b == 115 || b == 83 || b == 105 || b == 73
}

/// The payload value of one tag, by type character. `None` when the
/// payload is malformed for that type or the type is not one of the
/// seven known ones.
pub open spec fn spec_parse_val(ty: u8, p: Seq<u8>) -> Option<TagVal> {
    if ty == 65 {  // A
        if p.len() == 1 && is_printable(p[0]) {
            Some(TagVal::Char(p[0]))
        } else {
            None
        }
    } else if ty == 105 {  // i
        let v = int_token_val(p);
        if v is Some && i64::MIN <= v.unwrap() <= i64::MAX {
            Some(TagVal::Int(v.unwrap()))
        } else {
            None
        }
    } else if ty == 102 {  // f
        if float_token_ok(p) {
            Some(TagVal::Float(p))
        } else {
            None
        }
    } else if ty == 90 {  // Z
        if printable_str_ok(p) {
            Some(TagVal::Str(p))
        } else {
            None
        }
    } else if ty == 74 {  // J
        if printable_str_ok(p) {
            Some(TagVal::Json(p))
        } else {
            None
        }
    } else if ty == 72 {  // H
        if hex_str_ok(p) {
            Some(TagVal::Hex(nibbles_of(p)))
        } else {
            None
        }
    } else if ty == 66 {  // B
        if p.len() >= 1 {
            let fs = split_sep(p.skip(1), 44);
            if p[0] == 102 {
                if all_float_tokens(fs) {
                    Some(TagVal::Floats(fs))
                } else {
                    None
                }
            } else if int_subtype(p[0]) {
                if all_int_tokens(fs) {
                    Some(TagVal::Ints(int_vals(fs)))
                } else {
                    None
                }
            } else {
                None
            }
        } else {
            None
        }
    } else {
        None
    }
}

/// The token is long enough, opens with a well-formed tag name and has
/// colons where the triplet grammar puts them.
pub open spec fn tag_shape_ok(t: Seq<u8>) -> bool {
    t.len() >= 5 && tag_name_ok(t.subrange(0, 2)) && t[2] == 58 && t[4] == 58
}

/// The seven type characters of the tag sub-language.
pub open spec fn known_tag_type(b: u8) -> bool {
    b == 65 || b == 105 || b == 102 || b == 90 || b == 74 || b == 72 || b == 66
}

/// The parse of one whole tag token.
pub open spec fn spec_parse_tag(t: Seq<u8>) -> Option<TagModel> {
    if tag_shape_ok(t) {
        match spec_parse_val(t[3], t.skip(5)) {
            Some(v) => Some(TagModel { name: t.subrange(0, 2), val: v }),
            None => None,
        }
    } else {
        None
    }
}

/// Parses one `tag:type:value` token. Fails with `Unknown` exactly when
/// the triplet is well shaped but its type character is not one of the
/// seven defined ones — a defect the format calls unrecoverable — and
/// with `ParseFromStringError` on any other malformation.
pub fn parse_tag(t: &[u8]) -> (r: Result<OptField, ParseFieldError>)
    ensures
        match r {
            Ok(f) => spec_parse_tag(t@) == Some(f@),
            Err(e) => {
                &&& spec_parse_tag(t@) is None
                &&& (e is Unknown <==> tag_shape_ok(t@) && !known_tag_type(t@[3]))
                &&& (e is Unknown || e is ParseFromStringError)
            },
        },
{
    let n = t.len();
    if n < 5 {
        return Err(ParseFieldError::ParseFromStringError);
    }
    let name_ok = (65 <= t[0] && t[0] <= 90) || (97 <= t[0] && t[0] <= 122);
    let n1 = t[1];
    let name1_ok = (65 <= n1 && n1 <= 90) || (97 <= n1 && n1 <= 122) || (48 <= n1 && n1 <= 57);
    proof {
        assert(t@.subrange(0, 2)[0] == t@[0] && t@.subrange(0, 2)[1] == t@[1]);
    }
    if !(name_ok && name1_ok && t[2] == 58 && t[4] == 58) {
        return Err(ParseFieldError::ParseFromStringError);
    }
    let ty = t[3];
    let p = vstd::slice::slice_subrange(t, 5, n);
    proof {
        assert(p@ =~= t@.skip(5));
    }
    let value: OptFieldVal;
    if ty == 65 {
        if p.len() == 1 && 33 <= p[0] && p[0] <= 126 {
            value = OptFieldVal::PrintableChar(p[0]);
        } else {
            return Err(ParseFieldError::ParseFromStringError);
        }
    } else if ty == 105 {
        match parse_int_token(p) {
            Some(v) => {
                value = OptFieldVal::SignedInt(v);
            },
            None => {
                return Err(ParseFieldError::ParseFromStringError);
            },
        }
    } else if ty == 102 {
        if check_float_token(p) {
            value = OptFieldVal::Float(vstd::slice::slice_to_vec(p));
        } else {
            return Err(ParseFieldError::ParseFromStringError);
        }
    } else if ty == 90 || ty == 74 {
        if !check_printable_str(p) {
            return Err(ParseFieldError::ParseFromStringError);
        }
        let v = vstd::slice::slice_to_vec(p);
        value = if ty == 90 {
            OptFieldVal::PrintableString(v)
        } else {
            OptFieldVal::JsonString(v)
        };
    } else if ty == 72 {
        match parse_hex_nibbles(p) {
            Some(v) => {
                value = OptFieldVal::ByteArray(v);
            },
            None => {
                return Err(ParseFieldError::ParseFromStringError);
            },
        }
    } else if ty == 66 {
        if p.len() < 1 {
            return Err(ParseFieldError::ParseFromStringError);
        }
        let sub = p[0];
        let rest = vstd::slice::slice_subrange(p, 1, p.len());
        proof {
            assert(rest@ =~= p@.skip(1));
        }
        let frags = split_bytes(rest, 44);
        if sub == 102 {
            match check_float_array(&frags) {
                true => {
                    value = OptFieldVal::FloatArray(frags);
                },
                false => {
                    return Err(ParseFieldError::ParseFromStringError);
                },
            }
        } else if sub == 99 || sub == 67 || sub == 115 || sub == 83 || sub == 105 || sub == 73 {
            match parse_int_array(&frags) {
                Some(v) => {
                    value = OptFieldVal::IntArray(v);
                },
                None => {
                    return Err(ParseFieldError::ParseFromStringError);
                },
            }
        } else {
            return Err(ParseFieldError::ParseFromStringError);
        }
    } else {
        return Err(ParseFieldError::Unknown);
    }
    let f = OptField { tag: [t[0], t[1]], value };
    proof {
        assert(f.tag@ =~= t@.subrange(0, 2));
    }
    Ok(f)
}

/// Checks that `p` is a non-empty printable-or-space string.
fn check_printable_str(p: &[u8]) -> (r: bool)
    ensures
        r == printable_str_ok(p@),
{
    if p.len() == 0 {
        return false;
    }
    let mut i: usize = 0;
    while i < p.len()
        invariant
            i <= p@.len(),
            forall|j: int| 0 <= j < i ==> printable_or_space(#[trigger] p@[j]),
        decreases p@.len() - i,
    {
        if !(32 <= p[i] && p[i] <= 126) {
            return false;
        }
        i = i + 1;
    }
    true
}

/// Decodes a non-empty hexadecimal string nibble by nibble.
fn parse_hex_nibbles(p: &[u8]) -> (r: Option<Vec<u8>>)
    ensures
        match r {
            Some(v) => hex_str_ok(p@) && v@ == nibbles_of(p@),
            None => !hex_str_ok(p@),
        },
{
    if p.len() == 0 {
        return None;
    }
    let mut out: Vec<u8> = Vec::new();
    let mut i: usize = 0;
    while i < p.len()
        invariant
            i <= p@.len(),
            forall|j: int| 0 <= j < i ==> is_hex_digit(#[trigger] p@[j]),
            out@ =~= nibbles_of(p@.subrange(0, i as int)),
        decreases p@.len() - i,
    {
        let b = p[i];
        let v: u8;
        if 48 <= b && b <= 57 {
            v = b - 48;
        } else if 65 <= b && b <= 70 {
            v = b - 55;
        } else {
            return None;
        }
        out.push(v);
        i = i + 1;
        proof {
            assert(out@ =~= nibbles_of(p@.subrange(0, i as int))) by {
                assert(p@.subrange(0, i as int) =~= p@.subrange(0, i - 1).push(b));
                assert(nibbles_of(p@.subrange(0, i as int)) =~= nibbles_of(
                    p@.subrange(0, i - 1),
                ).push(hex_val(b) as u8));
            }
        }
    }
    proof {
        assert(p@.subrange(0, i as int) =~= p@);
    }
    Some(out)
}

/// Checks every fragment against the floating-point grammar.
fn check_float_array(frags: &Vec<Vec<u8>>) -> (r: bool)
    ensures
        r == all_float_tokens(views_of(frags@)),
{
    let mut i: usize = 0;
    while i < frags.len()
        invariant
            i <= frags@.len(),
            forall|j: int| 0 <= j < i ==> float_token_ok(#[trigger] views_of(frags@)[j]),
        decreases frags@.len() - i,
    {
        if !check_float_token(frags[i].as_slice()) {
            proof {
                assert(views_of(frags@)[i as int] == frags@[i as int]@);
            }
            return false;
        }
        i = i + 1;
    }
    true
}

/// Parses every fragment as a signed 64-bit integer.
fn parse_int_array(frags: &Vec<Vec<u8>>) -> (r: Option<Vec<i64>>)
    ensures
        match r {
            Some(v) => all_int_tokens(views_of(frags@)) && v@.map_values(|x: i64| x as int)
                =~= int_vals(views_of(frags@)),
            None => !all_int_tokens(views_of(frags@)),
        },
{
    let ghost fv = views_of(frags@);
    let mut out: Vec<i64> = Vec::new();
    let mut i: usize = 0;
    while i < frags.len()
        invariant
            i <= frags@.len(),
            fv == views_of(frags@),
            out@.len() == i,
            forall|j: int|
                0 <= j < i ==> {
                    let v = int_token_val(#[trigger] fv[j]);
                    v is Some && v.unwrap() == out@[j] as int
                },
        decreases frags@.len() - i,
    {
        match parse_int_token(frags[i].as_slice()) {
            Some(v) => {
                out.push(v);
            },
            None => {
                proof {
                    assert(fv[i as int] == frags@[i as int]@);
                }
                return None;
            },
        }
        i = i + 1;
    }
    proof {
        assert(out@.map_values(|x: i64| x as int) =~= int_vals(fv));
    }
    Some(out)
}

/// The type character a payload is encoded under.
pub open spec fn type_char_of(v: TagVal) -> u8 {
    match v {
        TagVal::Char(_) => 65,
        TagVal::Int(_) => 105,
        TagVal::Float(_) => 102,
        TagVal::Str(_) => 90,
        TagVal::Json(_) => 74,
        TagVal::Hex(_) => 72,
        TagVal::Ints(_) => 66,
        TagVal::Floats(_) => 66,
    }
}

/// The payload is legal for its variant: exactly the values the decoder
/// can produce.
pub open spec fn wf_val(v: TagVal) -> bool {
    match v {
        TagVal::Char(c) => is_printable(c),
        TagVal::Int(x) => i64::MIN <= x <= i64::MAX,
        TagVal::Float(s) => float_token_ok(s),
        TagVal::Str(s) => printable_str_ok(s),
        TagVal::Json(s) => printable_str_ok(s),
        TagVal::Hex(ns) => ns.len() > 0 && forall|i: int| 0 <= i < ns.len() ==> ns[i] < 16,
        TagVal::Ints(vs) => forall|i: int|
            0 <= i < vs.len() ==> i64::MIN <= #[trigger] vs[i] <= i64::MAX,
        TagVal::Floats(fs) => all_float_tokens(fs),
    }
}

/// A well-formed tag: a legal name and a legal payload.
pub open spec fn wf_tag(t: TagModel) -> bool {
    tag_name_ok(t.name) && wf_val(t.val)
}

/// The encoded payload bytes of a tag value.
pub open spec fn spec_encode_val(v: TagVal) -> Seq<u8> {
    match v {
        TagVal::Char(c) => seq![c],
        TagVal::Int(x) => int_repr(x),
        TagVal::Float(s) => s,
        TagVal::Str(s) => s,
        TagVal::Json(s) => s,
        TagVal::Hex(ns) => ns.map_values(|x: u8| hex_chr(x as int)),
        TagVal::Ints(vs) => seq![105u8] + join_sep(vs.map_values(|x: int| int_repr(x)), 44),
        TagVal::Floats(fs) => seq![102u8] + join_sep(fs, 44),
    }
}

/// The whole `tag:type:value` token of a tag.
pub open spec fn spec_encode_tag(t: TagModel) -> Seq<u8> {
    t.name + seq![58u8, type_char_of(t.val), 58u8] + spec_encode_val(t.val)
}

/// A floating-point token is non-empty and never contains a comma.
pub proof fn lemma_float_token_shape(s: Seq<u8>)
    requires
        float_token_ok(s),
    ensures
        s.len() > 0,
        !has_byte(s, 44),
{
    let b = if s.len() >= 1 && (s[0] == 43 || s[0] == 45) {
        s.skip(1)
    } else {
        s
    };
    lemma_digit_run(b);
    if b.len() == 0 {
        assert(!float_body_ok(b));
    }
    assert(forall|i: int| 0 <= i < s.len() ==> #[trigger] s[i] != 44) by {
        assert(forall|i: int| 0 <= i < s.len() ==> float_char(#[trigger] s[i]));
    }
}

/// A signed integer token is non-empty and never contains a comma.
pub proof fn lemma_int_repr_shape(v: int)
    ensures
        int_repr(v).len() > 0,
        !has_byte(int_repr(v), 44),
{
    if v < 0 {
        lemma_dec_repr_shape((-v) as nat);
        let s = int_repr(v);
        assert(forall|i: int| 0 <= i < s.len() ==> #[trigger] s[i] != 44) by {
            assert(s[0] == 45);
            assert(forall|i: int|
                1 <= i < s.len() ==> #[trigger] s[i] == dec_repr_of_neg(v)[i - 1]);
            lemma_dec_repr_shape((-v) as nat);
            assert(forall|i: int|
                0 <= i < dec_repr_of_neg(v).len() ==> is_digit(#[trigger] dec_repr_of_neg(v)[i]));
        }
    } else {
        lemma_dec_repr_shape(v as nat);
        let s = int_repr(v);
        assert(forall|i: int| 0 <= i < s.len() ==> #[trigger] s[i] != 44) by {
            assert(forall|i: int| 0 <= i < s.len() ==> is_digit(#[trigger] s[i]));
        }
    }
}

/// The digit part of a negative integer token.
pub open spec fn dec_repr_of_neg(v: int) -> Seq<u8> {
    crate::digits::dec_repr((-v) as nat)
}

/// Encode-then-decode is the identity on every well-formed tag.
pub proof fn lemma_tag_round_trip(t: TagModel)
    requires
        wf_tag(t),
    ensures
        spec_parse_tag(spec_encode_tag(t)) == Some(t),
{
    let e = spec_encode_tag(t);
    let p = spec_encode_val(t.val);
    let ty = type_char_of(t.val);
    assert(e.len() == 5 + p.len());
    assert(e.subrange(0, 2) =~= t.name);
    assert(e[2] == 58 && e[3] == ty && e[4] == 58);
    assert(e.skip(5) =~= p);
    assert(tag_shape_ok(e));
    match t.val {
        TagVal::Char(c) => {
            assert(p[0] == c);
        },
        TagVal::Int(x) => {
            lemma_int_token_round_trip(x);
        },
        TagVal::Float(s) => {},
        TagVal::Str(s) => {},
        TagVal::Json(s) => {},
        TagVal::Hex(ns) => {
            assert(hex_str_ok(p)) by {
                assert(forall|i: int|
                    0 <= i < p.len() ==> is_hex_digit(#[trigger] p[i])) by {
                    assert(forall|i: int|
                        0 <= i < ns.len() ==> #[trigger] p[i] == hex_chr(ns[i] as int));
                }
            }
            assert(nibbles_of(p) =~= ns) by {
                assert(forall|i: int|
                    0 <= i < ns.len() ==> #[trigger] nibbles_of(p)[i] == ns[i]) by {
                    assert(forall|i: int|
                        0 <= i < ns.len() ==> #[trigger] p[i] == hex_chr(ns[i] as int));
                }
            }
        },
        TagVal::Ints(vs) => {
            let ms = vs.map_values(|x: int| int_repr(x));
            assert(p[0] == 105 && int_subtype(105) && p[0] != 102);
            assert(p.skip(1) =~= join_sep(ms, 44));
            assert(forall|i: int| 0 <= i < ms.len() ==> (#[trigger] ms[i]).len() > 0) by {
                assert forall|i: int| 0 <= i < ms.len() implies (#[trigger] ms[i]).len() > 0 by {
                    lemma_int_repr_shape(vs[i]);
                }
            }
            assert(forall|i: int| 0 <= i < ms.len() ==> !has_byte(#[trigger] ms[i], 44)) by {
                assert forall|i: int| 0 <= i < ms.len() implies !has_byte(#[trigger] ms[i], 44) by {
                    lemma_int_repr_shape(vs[i]);
                }
            }
            lemma_split_join(ms, 44);
            assert(all_int_tokens(ms)) by {
                assert forall|j: int| 0 <= j < ms.len() implies {
                    let v = int_token_val(#[trigger] ms[j]);
                    v is Some && i64::MIN <= v.unwrap() <= i64::MAX
                } by {
                    lemma_int_token_round_trip(vs[j]);
                }
            }
            assert(int_vals(ms) =~= vs) by {
                assert forall|j: int| 0 <= j < ms.len() implies #[trigger] int_vals(ms)[j]
                    == vs[j] by {
                    lemma_int_token_round_trip(vs[j]);
                }
            }
        },
        TagVal::Floats(fs) => {
            assert(p[0] == 102);
            assert(p.skip(1) =~= join_sep(fs, 44));
            assert forall|i: int| 0 <= i < fs.len() implies (#[trigger] fs[i]).len() > 0
                && !has_byte(fs[i], 44) by {
                lemma_float_token_shape(fs[i]);
            }
            lemma_split_join(fs, 44);
        },
    }
}

impl Clone for OptFieldVal {
    /// A clone carries the same payload value.
    fn clone(&self) -> (r: Self)
        ensures
            r@ == self@,
    {
        match self {
            OptFieldVal::PrintableChar(c) => OptFieldVal::PrintableChar(*c),
            OptFieldVal::SignedInt(v) => OptFieldVal::SignedInt(*v),
            OptFieldVal::Float(s) => OptFieldVal::Float(clone_bytes(s)),
            OptFieldVal::PrintableString(s) => OptFieldVal::PrintableString(clone_bytes(s)),
            OptFieldVal::JsonString(s) => OptFieldVal::JsonString(clone_bytes(s)),
            OptFieldVal::ByteArray(s) => OptFieldVal::ByteArray(clone_bytes(s)),
            OptFieldVal::IntArray(v) => {
                let mut out: Vec<i64> = Vec::new();
                let mut i: usize = 0;
                while i < v.len()
                    invariant
                        i <= v@.len(),
                        out@ == v@.subrange(0, i as int),
                    decreases v@.len() - i,
                {
                    out.push(v[i]);
                    i = i + 1;
                    proof {
                        assert(out@ =~= v@.subrange(0, i as int));
                    }
                }
                proof {
                    assert(out@ =~= v@);
                }
                OptFieldVal::IntArray(out)
            },
            OptFieldVal::FloatArray(v) => {
                let mut out: Vec<Vec<u8>> = Vec::new();
                let mut i: usize = 0;
                proof {
                    assert(views_of(out@) =~~= views_of(v@.subrange(0, 0)));
                }
                while i < v.len()
                    invariant
                        i <= v@.len(),
                        out@.len() == i,
                        views_of(out@) == views_of(v@.subrange(0, i as int)),
                    decreases v@.len() - i,
                {
                    let ghost out0 = out@;
                    let c = clone_bytes(&v[i]);
                    proof {
                        assert(c@ == v@[i as int]@);
                    }
                    out.push(c);
                    i = i + 1;
                    proof {
                        assert forall|j: int| 0 <= j < i implies views_of(out@)[j] == views_of(
                            v@.subrange(0, i as int),
                        )[j] by {
                            assert(views_of(out@)[j] == out@[j]@);
                            assert(views_of(v@.subrange(0, i as int))[j] == v@.subrange(
                                0,
                                i as int,
                            )[j]@);
                            if j < i - 1 {
                                assert(out@[j] == out0[j]);
                                assert(views_of(out0)[j] == views_of(
                                    v@.subrange(0, i - 1),
                                )[j]);
                            } else {
                                assert(out@[j] == c);
                            }
                        }
                        assert(views_of(out@) =~= views_of(v@.subrange(0, i as int)));
                    }
                }
                proof {
                    assert(v@.subrange(0, i as int) =~= v@);
                    assert(views_of(out@) =~~= views_of(v@));
                }
                OptFieldVal::FloatArray(out)
            },
        }
    }
}

/// A copy of a byte vector with the same contents.
pub fn clone_bytes(s: &Vec<u8>) -> (r: Vec<u8>)
    ensures
        r@ == s@,
{
    vstd::slice::slice_to_vec(s.as_slice())
}

impl Clone for OptField {
    /// A clone names the same tag and carries the same payload value.
    fn clone(&self) -> (r: Self)
        ensures
            r@ == self@,
    {
        let r = OptField { tag: [self.tag[0], self.tag[1]], value: self.value.clone() };
        proof {
            assert(r.tag@ =~= self.tag@);
        }
        r
    }
}

impl OptField {
    /// Builds a tag from a two-byte name and a payload.
    pub fn new(tag: &[u8], value: OptFieldVal) -> (r: Self)
        requires
            tag@.len() == 2,
        ensures
            r@.name == tag@,
            r@.val == value@,
    {
        let r = OptField { tag: [tag[0], tag[1]], value };
        proof {
            assert(r.tag@ =~= tag@);
        }
        r
    }
}

/// Appends the `tag:type:value` encoding of a well-formed tag to `out`.
pub fn encode_tag(f: &OptField, out: &mut Vec<u8>)
    requires
        wf_tag(f@),
    ensures
        final(out)@ == old(out)@ + spec_encode_tag(f@),
{
    out.push(f.tag[0]);
    out.push(f.tag[1]);
    out.push(58);
    let ty: u8 = match &f.value {
        OptFieldVal::PrintableChar(_) => 65,
        OptFieldVal::SignedInt(_) => 105,
        OptFieldVal::Float(_) => 102,
        OptFieldVal::PrintableString(_) => 90,
        OptFieldVal::JsonString(_) => 74,
        OptFieldVal::ByteArray(_) => 72,
        OptFieldVal::IntArray(_) => 66,
        OptFieldVal::FloatArray(_) => 66,
    };
    out.push(ty);
    out.push(58);
    let ghost head = old(out)@ + f@.name + seq![58u8, type_char_of(f@.val), 58u8];
    proof {
        assert(out@ =~= head);
    }
    match &f.value {
        OptFieldVal::PrintableChar(c) => {
            out.push(*c);
            proof {
                assert(out@ =~= head + spec_encode_val(f@.val));
            }
        },
        OptFieldVal::SignedInt(v) => {
            push_int_token(*v, out);
        },
        OptFieldVal::Float(s) => {
            out.extend_from_slice(s.as_slice());
        },
        OptFieldVal::PrintableString(s) => {
            out.extend_from_slice(s.as_slice());
        },
        OptFieldVal::JsonString(s) => {
            out.extend_from_slice(s.as_slice());
        },
        OptFieldVal::ByteArray(ns) => {
            let ghost target = spec_encode_val(f@.val);
            let mut i: usize = 0;
            while i < ns.len()
                invariant
                    i <= ns@.len(),
                    forall|j: int| 0 <= j < ns@.len() ==> #[trigger] ns@[j] < 16,
                    target == ns@.map_values(|x: u8| hex_chr(x as int)),
                    out@ == head + target.subrange(0, i as int),
                decreases ns@.len() - i,
            {
                let v = ns[i];
                if v < 10 {
                    out.push(v + 48);
                } else {
                    out.push(v + 55);
                }
                i = i + 1;
                proof {
                    assert(out@ =~= head + target.subrange(0, i as int));
                }
            }
            proof {
                assert(target.subrange(0, i as int) =~= target);
            }
        },
        OptFieldVal::IntArray(vs) => {
            out.push(105);
            let ghost ms = f@.val->Ints_0.map_values(|x: int| int_repr(x));
            let mut i: usize = 0;
            proof {
                assert(out@ =~= head + seq![105u8] + join_sep(ms.subrange(0, 0), 44));
            }
            while i < vs.len()
                invariant
                    i <= vs@.len(),
                    ms == f@.val->Ints_0.map_values(|x: int| int_repr(x)),
                    ms.len() == vs@.len(),
                    forall|j: int|
                        0 <= j < vs@.len() ==> #[trigger] ms[j] == int_repr(vs@[j] as int),
                    out@ == head + seq![105u8] + join_sep(ms.subrange(0, i as int), 44),
                decreases vs@.len() - i,
            {
                if i > 0 {
                    out.push(44);
                }
                push_int_token(vs[i], out);
                i = i + 1;
                proof {
                    lemma_join_snoc(ms.subrange(0, i as int), 44);
                    assert(ms.subrange(0, i as int).drop_last() =~= ms.subrange(0, i - 1));
                    assert(out@ =~= head + seq![105u8] + join_sep(ms.subrange(0, i as int), 44));
                }
            }
            proof {
                assert(ms.subrange(0, i as int) =~= ms);
                assert(out@ =~= head + spec_encode_val(f@.val));
            }
        },
        OptFieldVal::FloatArray(fs) => {
            out.push(102);
            let ghost ms = f@.val->Floats_0;
            let mut i: usize = 0;
            proof {
                assert(out@ =~= head + seq![102u8] + join_sep(ms.subrange(0, 0), 44));
            }
            while i < fs.len()
                invariant
                    i <= fs@.len(),
                    ms == f@.val->Floats_0,
                    ms.len() == fs@.len(),
                    forall|j: int| 0 <= j < fs@.len() ==> #[trigger] ms[j] == fs@[j]@,
                    out@ == head + seq![102u8] + join_sep(ms.subrange(0, i as int), 44),
                decreases fs@.len() - i,
            {
                if i > 0 {
                    out.push(44);
                }
                out.extend_from_slice(fs[i].as_slice());
                i = i + 1;
                proof {
                    lemma_join_snoc(ms.subrange(0, i as int), 44);
                    assert(ms.subrange(0, i as int).drop_last() =~= ms.subrange(0, i - 1));
                    assert(out@ =~= head + seq![102u8] + join_sep(ms.subrange(0, i as int), 44));
                }
            }
            proof {
                assert(ms.subrange(0, i as int) =~= ms);
                assert(out@ =~= head + spec_encode_val(f@.val));
            }
        },
    }
}

/// The trailing-column encoding of a tag list: each tag's triplet
/// behind its own column delimiter, ready to append to a record line.
pub open spec fn spec_encode_tags(ts: Seq<TagModel>) -> Seq<u8>
    decreases ts.len(),
{
    if ts.len() == 0 {
        Seq::empty()
    } else {
        seq![9u8] + spec_encode_tag(ts[0]) + spec_encode_tags(ts.skip(1))
    }
}

/// Appending one tag appends one delimited triplet.
proof fn lemma_encode_tags_snoc(ts: Seq<TagModel>, x: TagModel)
    ensures
        spec_encode_tags(ts.push(x)) =~= spec_encode_tags(ts) + seq![9u8] + spec_encode_tag(x),
    decreases ts.len(),
{
    if ts.len() == 0 {
        assert(ts.push(x)[0] == x);
        assert(ts.push(x).skip(1) =~= Seq::<TagModel>::empty());
        assert(spec_encode_tags(Seq::<TagModel>::empty()) =~= Seq::<u8>::empty());
    } else {
        lemma_encode_tags_snoc(ts.skip(1), x);
        assert(ts.push(x)[0] == ts[0]);
        assert(ts.push(x).skip(1) =~= ts.skip(1).push(x));
    }
}

/// Re-serializes a list of tags — for instance what is left after
/// peeling well-known ones out — as trailing columns.
pub fn encode_tags(opts: &Vec<OptField>, out: &mut Vec<u8>)
    requires
        forall|i: int| 0 <= i < opts@.len() ==> wf_tag((#[trigger] opts@[i])@),
    ensures
        final(out)@ == old(out)@ + spec_encode_tags(opts@.map_values(|f: OptField| f@)),
{
    let ghost ts = opts@.map_values(|f: OptField| f@);
    let mut i: usize = 0;
    proof {
        assert(spec_encode_tags(ts.take(0)) =~= Seq::<u8>::empty());
        assert(out@ =~= old(out)@ + spec_encode_tags(ts.take(0)));
    }
    while i < opts.len()
        invariant
            i <= opts@.len(),
            ts == opts@.map_values(|f: OptField| f@),
            forall|k: int| 0 <= k < opts@.len() ==> wf_tag((#[trigger] opts@[k])@),
            out@ == old(out)@ + spec_encode_tags(ts.take(i as int)),
        decreases opts@.len() - i,
    {
        out.push(9);
        encode_tag(&opts[i], out);
        i = i + 1;
        proof {
            lemma_encode_tags_snoc(ts.take(i - 1), ts[i - 1]);
            assert(ts.take(i as int) =~= ts.take(i - 1).push(ts[i - 1]));
            assert(out@ =~= old(out)@ + spec_encode_tags(ts.take(i as int)));
        }
    }
    proof {
        assert(ts.take(i as int) =~= ts);
    }
}

/// Every token parses as a tag.
pub open spec fn all_tags_valid(ts: Seq<Seq<u8>>) -> bool {
    forall|j: int| 0 <= j < ts.len() ==> spec_parse_tag(#[trigger] ts[j]) is Some
}

/// The parses of a token list.
pub open spec fn parsed_tags(ts: Seq<Seq<u8>>) -> Seq<TagModel> {
    ts.map_values(|t: Seq<u8>| spec_parse_tag(t).unwrap())
}

/// A tag-capture policy, chosen at compose time by each record
/// grammar's type parameter. Parsing always validates every trailing
/// tag token; whether the parsed tags are retained is the policy's
/// choice.
pub trait OptFields: Sized {
    /// The tags this value retains, in input order.
    spec fn captured(&self) -> Seq<TagModel>;

    /// Whether this policy retains tags at all.
    spec fn capturing() -> bool;

    /// A value holding no tags.
    fn empty() -> (r: Self)
        ensures
            r.captured() == Seq::<TagModel>::empty(),
    ;

    /// A copy retaining the same tags.
    fn duplicate(&self) -> (r: Self)
        ensures
            r.captured() == self.captured(),
    ;

    /// Parses the tag tokens `tokens[from..]`. Succeeds exactly when
    /// every one is a well-formed tag; a capturing policy then retains
    /// them all, in order.
    fn parse(tokens: &[Vec<u8>], from: usize) -> (r: Result<Self, ParseFieldError>)
        requires
            from <= tokens@.len(),
        ensures
            match r {
                Ok(t) => all_tags_valid(views_of(tokens@).skip(from as int)) && t.captured()
                    == if Self::capturing() {
                    parsed_tags(views_of(tokens@).skip(from as int))
                } else {
                    Seq::<TagModel>::empty()
                },
                Err(e) => !all_tags_valid(views_of(tokens@).skip(from as int)) && (e is Unknown
                    || e is ParseFromStringError),
            },
    ;

    /// The retained tags, as values.
    fn fields(&self) -> (r: Vec<OptField>)
        ensures
            r@.map_values(|f: OptField| f@) == self.captured(),
    ;
}

/// The discarding policy: every trailing tag is validated, nothing is
/// kept, no memory is spent.
impl OptFields for () {
    open spec fn captured(&self) -> Seq<TagModel> {
        Seq::empty()
    }

    open spec fn capturing() -> bool {
        false
    }

    fn empty() -> (r: Self) {
    }

    fn duplicate(&self) -> (r: Self) {
    }

    fn parse(tokens: &[Vec<u8>], from: usize) -> (r: Result<Self, ParseFieldError>) {
        let ghost ts = views_of(tokens@).skip(from as int);
        let mut i: usize = from;
        while i < tokens.len()
            invariant
                from <= i <= tokens@.len(),
                ts == views_of(tokens@).skip(from as int),
                forall|j: int|
                    0 <= j < i - from ==> spec_parse_tag(#[trigger] ts[j]) is Some,
            decreases tokens@.len() - i,
        {
            proof {
                assert(ts[i - from] == tokens@[i as int]@);
            }
            match parse_tag(tokens[i].as_slice()) {
                Ok(_) => {},
                Err(e) => {
                    return Err(e);
                },
            }
            i = i + 1;
        }
        Ok(())
    }

    fn fields(&self) -> (r: Vec<OptField>) {
        let r: Vec<OptField> = Vec::new();
        proof {
            assert(r@.map_values(|f: OptField| f@) =~= Seq::<TagModel>::empty());
        }
        r
    }
}

/// The capture-all policy: an ordered sequence of parsed tags.
pub type OptionalFields = Vec<OptField>;

/// The capturing policy: every trailing tag is retained, in input
/// order.
impl OptFields for Vec<OptField> {
    open spec fn captured(&self) -> Seq<TagModel> {
        self@.map_values(|f: OptField| f@)
    }

    open spec fn capturing() -> bool {
        true
    }

    fn empty() -> (r: Self) {
        let r: Vec<OptField> = Vec::new();
        proof {
            assert(r.captured() =~= Seq::<TagModel>::empty());
        }
        r
    }

    fn duplicate(&self) -> (r: Self) {
        let mut out: Vec<OptField> = Vec::new();
        let mut i: usize = 0;
        proof {
            assert(out.captured() =~= self@.subrange(0, 0).map_values(|f: OptField| f@));
        }
        while i < self.len()
            invariant
                i <= self@.len(),
                out@.len() == i,
                out.captured() == self@.subrange(0, i as int).map_values(|f: OptField| f@),
            decreases self@.len() - i,
        {
            let ghost out0 = out@;
            let c = self[i].clone();
            proof {
                assert(c@ == self@[i as int]@);
            }
            out.push(c);
            i = i + 1;
            proof {
                let target = self@.subrange(0, i as int).map_values(|f: OptField| f@);
                assert forall|j: int| 0 <= j < i implies out.captured()[j] == target[j] by {
                    assert(out.captured()[j] == out@[j]@);
                    assert(target[j] == self@.subrange(0, i as int)[j]@);
                    if j < i - 1 {
                        assert(out@[j] == out0[j]);
                        assert(out0.map_values(|f: OptField| f@)[j] == self@.subrange(
                            0,
                            i - 1,
                        ).map_values(|f: OptField| f@)[j]);
                    } else {
                        assert(out@[j] == c);
                    }
                }
                assert(out.captured() =~= target);
            }
        }
        proof {
            assert(self@.subrange(0, i as int) =~= self@);
            assert(out.captured() =~= self.captured());
        }
        out
    }

    fn parse(tokens: &[Vec<u8>], from: usize) -> (r: Result<Self, ParseFieldError>) {
        let ghost ts = views_of(tokens@).skip(from as int);
        let mut out: Vec<OptField> = Vec::new();
        let mut i: usize = from;
        while i < tokens.len()
            invariant
                from <= i <= tokens@.len(),
                ts == views_of(tokens@).skip(from as int),
                out@.len() == i - from,
                forall|j: int|
                    0 <= j < i - from ==> spec_parse_tag(#[trigger] ts[j]) == Some(out@[j]@),
            decreases tokens@.len() - i,
        {
            proof {
                assert(ts[i - from] == tokens@[i as int]@);
            }
            match parse_tag(tokens[i].as_slice()) {
                Ok(f) => {
                    out.push(f);
                },
                Err(e) => {
                    return Err(e);
                },
            }
            i = i + 1;
        }
        proof {
            assert(out.captured() =~= parsed_tags(ts));
        }
        Ok(out)
    }

    fn fields(&self) -> (r: Vec<OptField>) {
        self.duplicate()
    }
}

/// Removes the first tag named `tag` from `opts` and returns it,
/// leaving the remaining tags in order; `None` when no tag has that
/// name.
pub fn drain_optional_field(opts: &mut Vec<OptField>, tag: &[u8]) -> (r: Option<OptField>)
    ensures
        match r {
            None => final(opts)@ == old(opts)@ && (forall|j: int|
                0 <= j < old(opts)@.len() ==> (#[trigger] old(opts)@[j])@.name != tag@),
            Some(f) => exists|j: int|
                {
                    &&& 0 <= j < old(opts)@.len()
                    &&& (#[trigger] old(opts)@[j])@.name == tag@
                    &&& forall|k: int| 0 <= k < j ==> old(opts)@[k]@.name != tag@
                    &&& f == old(opts)@[j]
                    &&& final(opts)@ == old(opts)@.remove(j)
                },
        },
{
    let mut i: usize = 0;
    while i < opts.len()
        invariant
            i <= opts@.len(),
            opts@ == old(opts)@,
            forall|k: int| 0 <= k < i ==> opts@[k]@.name != tag@,
        decreases opts@.len() - i,
    {
        let name: &[u8] = opts[i].tag.as_slice();
        if crate::fields::bytes_eq(name, tag) {
            let f = opts.remove(i);
            proof {
                let j = i as int;
                assert(0 <= j < old(opts)@.len() && old(opts)@[j]@.name == tag@ && (forall|
                    k: int,
                |
                    0 <= k < j ==> old(opts)@[k]@.name != tag@) && f == old(opts)@[j] && opts@
                    == old(opts)@.remove(j));
            }
            return Some(f);
        }
        i = i + 1;
    }
    None
}

} // verus!
