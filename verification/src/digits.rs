//! Decimal and hexadecimal digit codecs shared by every column grammar:
//! run lengths, coordinates, integer identities and integer tag payloads.

use vstd::prelude::*;

verus! {

/// `b` is an ASCII decimal digit.
pub open spec fn is_digit(b: u8) -> bool {
    48 <= b <= 57
}

/// Every byte of `s` is a decimal digit.
pub open spec fn digits_only(s: Seq<u8>) -> bool {
    forall|i: int| 0 <= i < s.len() ==> is_digit(#[trigger] s[i])
}

/// The value of a digit string read as a decimal numeral.
pub open spec fn dec_val(s: Seq<u8>) -> int
    decreases s.len(),
{
    if s.len() == 0 {
        0
    } else {
        dec_val(s.drop_last()) * 10 + (s.last() - 48)
    }
}

/// The canonical decimal numeral of a non-negative integer: no leading
/// zeros, except that zero itself is the single digit `0`.
pub open spec fn dec_repr(n: nat) -> Seq<u8>
    decreases n,
{
    if n < 10 {
        seq![(n + 48) as u8]
    } else {
        dec_repr(n / 10) + seq![((n % 10) + 48) as u8]
    }
}

/// A digit string is canonical when it is non-empty and has no leading
/// zero (a lone `0` is canonical).
pub open spec fn canonical_digits(s: Seq<u8>) -> bool {
    &&& digits_only(s)
    &&& s.len() > 0
    &&& (s[0] != 48 || s.len() == 1)
}

pub proof fn lemma_dec_val_nonneg(s: Seq<u8>)
    requires
        digits_only(s),
    ensures
        dec_val(s) >= 0,
    decreases s.len(),
{
    if s.len() > 0 {
        assert(digits_only(s.drop_last())) by {
            assert(forall|i: int|
                0 <= i < s.drop_last().len() ==> #[trigger] s.drop_last()[i] == s[i]);
        }
        lemma_dec_val_nonneg(s.drop_last());
    }
}

pub proof fn lemma_dec_val_pos(s: Seq<u8>)
    requires
        digits_only(s),
        s.len() > 0,
        s[0] != 48,
    ensures
        dec_val(s) >= 1,
    decreases s.len(),
{
    if s.len() == 1 {
        assert(dec_val(s.drop_last()) == 0);
    } else {
        assert(digits_only(s.drop_last()) && s.drop_last()[0] == s[0]) by {
            assert(forall|i: int|
                0 <= i < s.drop_last().len() ==> #[trigger] s.drop_last()[i] == s[i]);
        }
        lemma_dec_val_pos(s.drop_last());
    }
}

/// Appending one digit multiplies the value by ten and adds the digit.
pub proof fn lemma_dec_val_snoc(s: Seq<u8>, b: u8)
    ensures
        dec_val(s + seq![b]) == dec_val(s) * 10 + (b - 48),
{
    let t = s + seq![b];
    assert(t.drop_last() =~= s);
    assert(t.last() == b);
}

/// The canonical numeral consists of digits and begins with a non-zero
/// digit unless it is the single digit `0`.
pub proof fn lemma_dec_repr_shape(n: nat)
    ensures
        dec_repr(n).len() >= 1,
        digits_only(dec_repr(n)),
        n > 0 ==> dec_repr(n)[0] != 48,
        n == 0 ==> dec_repr(n) =~= seq![48u8],
        canonical_digits(dec_repr(n)),
    decreases n,
{
    if n < 10 {
    } else {
        lemma_dec_repr_shape(n / 10);
        let r = dec_repr(n / 10);
        let t = r + seq![((n % 10) + 48) as u8];
        assert(t[0] == r[0]);
        assert(forall|i: int| 0 <= i < t.len() ==> is_digit(#[trigger] t[i]));
    }
}

/// Reading the canonical numeral of `n` back yields `n`.
pub proof fn lemma_val_of_repr(n: nat)
    ensures
        dec_val(dec_repr(n)) == n,
    decreases n,
{
    if n < 10 {
        assert(dec_val(dec_repr(n)) == dec_val(Seq::<u8>::empty()) * 10 + n) by {
            assert(dec_repr(n).drop_last() =~= Seq::<u8>::empty());
        }
    } else {
        lemma_val_of_repr(n / 10);
        let d = ((n % 10) + 48) as u8;
        lemma_dec_val_snoc(dec_repr(n / 10), d);
    }
}

/// A canonical digit string is the canonical numeral of its own value:
/// the decimal codec round-trips.
pub proof fn lemma_repr_of_val(s: Seq<u8>)
    requires
        canonical_digits(s),
    ensures
        dec_val(s) >= 0,
        dec_repr(dec_val(s) as nat) =~= s,
    decreases s.len(),
{
    lemma_dec_val_nonneg(s);
    if s.len() == 1 {
        assert(dec_val(s.drop_last()) == 0);
        assert(dec_val(s) == s[0] - 48);
    } else {
        let init = s.drop_last();
        assert(digits_only(init) && init[0] == s[0]) by {
            assert(forall|i: int| 0 <= i < init.len() ==> #[trigger] init[i] == s[i]);
        }
        lemma_dec_val_pos(init);
        lemma_repr_of_val(init);
        let d = s.last();
        let v = dec_val(s);
        assert(v == dec_val(init) * 10 + (d - 48));
        assert(v / 10 == dec_val(init) && v % 10 == d - 48) by {
            vstd::arithmetic::div_mod::lemma_fundamental_div_mod_converse(
                v,
                10,
                dec_val(init),
                (d - 48) as int,
            );
        }
        assert(v >= 10);
        assert(dec_repr(v as nat) =~= dec_repr(dec_val(init) as nat) + seq![d]);
        assert(init + seq![d] =~= s);
    }
}

/// Parses `s[from..to]` as an unsigned decimal numeral. Returns the
/// value when the range is non-empty, all digits, and the value fits in
/// a `u64`; returns `None` otherwise.
pub fn parse_dec_u64(s: &[u8], from: usize, to: usize) -> (r: Option<u64>)
    requires
        from <= to <= s.len(),
    ensures
        ({
            let d = s@.subrange(from as int, to as int);
            match r {
                Some(v) => digits_only(d) && d.len() > 0 && dec_val(d) == v,
                None => !(digits_only(d) && d.len() > 0 && dec_val(d) <= u64::MAX),
            }
        }),
{
    let ghost d = s@.subrange(from as int, to as int);
    if from == to {
        return None;
    }
    let mut acc: u64 = 0;
    let mut i: usize = from;
    while i < to
        invariant
            from <= i <= to <= s.len(),
            d == s@.subrange(from as int, to as int),
            digits_only(s@.subrange(from as int, i as int)),
            acc == dec_val(s@.subrange(from as int, i as int)),
        decreases to - i,
    {
        let b = s[i];
        if !(48 <= b && b <= 57) {
            proof {
                assert(d[i - from] == b);
            }
            return None;
        }
        let dig: u64 = (b - 48) as u64;
        proof {
            lemma_dec_val_snoc(s@.subrange(from as int, i as int), b);
            assert(s@.subrange(from as int, i as int) + seq![b] =~= s@.subrange(
                from as int,
                i + 1,
            ));
        }
        if acc > (u64::MAX - dig) / 10 {
            proof {
                let p = s@.subrange(from as int, i + 1);
                assert(dec_val(p) == acc * 10 + dig);
                assert(dec_val(p) > u64::MAX);
                if digits_only(d) {
                    lemma_dec_val_prefix_le(d, (i + 1 - from) as int);
                    assert(p =~= d.subrange(0, i + 1 - from));
                }
            }
            return None;
        }
        acc = acc * 10 + dig;
        i = i + 1;
    }
    proof {
        assert(s@.subrange(from as int, i as int) =~= d);
    }
    Some(acc)
}

/// A prefix of a digit string never exceeds the whole string in value.
pub proof fn lemma_dec_val_prefix_le(s: Seq<u8>, k: int)
    requires
        0 <= k <= s.len(),
        digits_only(s),
    ensures
        dec_val(s.subrange(0, k)) <= dec_val(s),
    decreases s.len() - k,
{
    if k < s.len() {
        lemma_dec_val_prefix_le(s, k + 1);
        let p = s.subrange(0, k);
        let q = s.subrange(0, k + 1);
        assert(q =~= p + seq![s[k]]);
        lemma_dec_val_snoc(p, s[k]);
        assert(digits_only(p)) by {
            assert(forall|i: int| 0 <= i < p.len() ==> #[trigger] p[i] == s[i]);
        }
        lemma_dec_val_nonneg(p);
    } else {
        assert(s.subrange(0, k) =~= s);
    }
}

/// Appends the canonical decimal numeral of `n` to `out`.
pub fn push_dec_u64(n: u64, out: &mut Vec<u8>)
    ensures
        final(out)@ == old(out)@ + dec_repr(n as nat),
    decreases n,
{
    if n < 10 {
        out.push((n as u8) + 48);
    } else {
        push_dec_u64(n / 10, out);
        out.push(((n % 10) as u8) + 48);
        proof {
            assert(old(out)@ + dec_repr((n / 10) as nat) + seq![((n % 10) + 48) as u8]
                =~= old(out)@ + dec_repr(n as nat));
        }
    }
}

/// The length of the maximal run of decimal digits at the front of `s`.
pub open spec fn digit_run(s: Seq<u8>) -> int
    decreases s.len(),
{
    if s.len() == 0 || !is_digit(s[0]) {
        0
    } else {
        1 + digit_run(s.skip(1))
    }
}

pub proof fn lemma_digit_run(s: Seq<u8>)
    ensures
        0 <= digit_run(s) <= s.len(),
        forall|i: int| 0 <= i < digit_run(s) ==> is_digit(#[trigger] s[i]),
        digit_run(s) < s.len() ==> !is_digit(s[digit_run(s)]),
    decreases s.len(),
{
    if s.len() > 0 && is_digit(s[0]) {
        lemma_digit_run(s.skip(1));
        assert forall|i: int| 0 <= i < digit_run(s) implies is_digit(#[trigger] s[i]) by {
            if i > 0 {
                assert(s.skip(1)[i - 1] == s[i]);
                assert(is_digit(s.skip(1)[i - 1]));
            }
        }
        if digit_run(s) < s.len() {
            assert(s.skip(1)[digit_run(s) - 1] == s[digit_run(s)]);
        }
    }
}

/// The digit run is determined by its characteristic properties: `k`
/// counts leading digits and stops at a non-digit or the end.
pub proof fn lemma_digit_run_char(s: Seq<u8>, k: int)
    requires
        0 <= k <= s.len(),
        forall|i: int| 0 <= i < k ==> is_digit(#[trigger] s[i]),
        k < s.len() ==> !is_digit(s[k]),
    ensures
        digit_run(s) == k,
    decreases s.len(),
{
    if s.len() == 0 || !is_digit(s[0]) {
        assert(k == 0);
    } else {
        assert(k >= 1);
        assert(forall|i: int|
            0 <= i < s.skip(1).len() ==> #[trigger] s.skip(1)[i] == s[i + 1]);
        lemma_digit_run_char(s.skip(1), k - 1);
    }
}

/// Returns the end of the maximal digit run of `s` starting at `from`.
pub fn scan_digits(s: &[u8], from: usize) -> (r: usize)
    requires
        from <= s@.len(),
    ensures
        from <= r <= s@.len(),
        r - from == digit_run(s@.skip(from as int)),
        forall|i: int| from <= i < r ==> is_digit(#[trigger] s@[i]),
        r < s@.len() ==> !is_digit(s@[r as int]),
{
    let mut i: usize = from;
    while i < s.len() && 48 <= s[i] && s[i] <= 57
        invariant
            from <= i <= s@.len(),
            forall|j: int| from <= j < i ==> is_digit(#[trigger] s@[j]),
        decreases s@.len() - i,
    {
        i = i + 1;
    }
    proof {
        let t = s@.skip(from as int);
        assert(forall|j: int| 0 <= j < t.len() ==> #[trigger] t[j] == s@[j + from]);
        lemma_digit_run_char(t, i - from);
    }
    i
}

/// The value of a signed integer token: an optional leading `+` or `-`
/// followed by a non-empty digit run, and nothing else.
pub open spec fn int_token_val(s: Seq<u8>) -> Option<int> {
    if s.len() >= 1 && (s[0] == 43 || s[0] == 45) {
        let d = s.skip(1);
        if digits_only(d) && d.len() > 0 {
            Some(
                if s[0] == 45 {
                    -dec_val(d)
                } else {
                    dec_val(d)
                },
            )
        } else {
            None
        }
    } else if digits_only(s) && s.len() > 0 {
        Some(dec_val(s))
    } else {
        None
    }
}

/// The canonical token of a signed integer: a `-` before the canonical
/// numeral of the magnitude for negative values, the bare numeral
/// otherwise.
pub open spec fn int_repr(v: int) -> Seq<u8> {
    if v < 0 {
        seq![45u8] + dec_repr((-v) as nat)
    } else {
        dec_repr(v as nat)
    }
}

/// Parses a whole token as a signed 64-bit integer. Succeeds exactly
/// when the token is a signed integer token whose value fits in `i64`.
pub fn parse_int_token(s: &[u8]) -> (r: Option<i64>)
    ensures
        match r {
            Some(v) => int_token_val(s@) == Some(v as int),
            None => int_token_val(s@) is None || int_token_val(s@).unwrap() < i64::MIN
                || int_token_val(s@).unwrap() > i64::MAX,
        },
{
    let n = s.len();
    let neg: bool;
    let ds: usize;
    if n >= 1 && (s[0] == 43 || s[0] == 45) {
        neg = s[0] == 45;
        ds = 1;
    } else {
        neg = false;
        ds = 0;
    }
    proof {
        assert(s@.subrange(ds as int, n as int) =~= if ds == 1 {
            s@.skip(1)
        } else {
            s@
        });
    }
    match parse_dec_u64(s, ds, n) {
        None => None,
        Some(m) => {
            if neg {
                if m <= 9223372036854775807u64 {
                    Some(-(m as i64))
                } else if m == 9223372036854775808u64 {
                    Some(i64::MIN)
                } else {
                    None
                }
            } else {
                if m <= 9223372036854775807u64 {
                    Some(m as i64)
                } else {
                    None
                }
            }
        },
    }
}

/// Appends the canonical token of a signed 64-bit integer to `out`.
pub fn push_int_token(v: i64, out: &mut Vec<u8>)
    ensures
        final(out)@ == old(out)@ + int_repr(v as int),
{
    if v >= 0 {
        push_dec_u64(v as u64, out);
    } else {
        out.push(45);
        let m: u64 = ((-(v + 1)) as u64) + 1;
        push_dec_u64(m, out);
        proof {
            assert(m == -(v as int));
            assert(old(out)@ + seq![45u8] + dec_repr(m as nat) =~= old(out)@ + int_repr(
                v as int,
            ));
        }
    }
}

/// The signed decimal codec round-trips on every value an `i64` can
/// hold.
pub proof fn lemma_int_token_round_trip(v: int)
    requires
        i64::MIN <= v <= i64::MAX,
    ensures
        int_token_val(int_repr(v)) == Some(v),
{
    if v < 0 {
        let s = seq![45u8] + dec_repr((-v) as nat);
        lemma_dec_repr_shape((-v) as nat);
        lemma_val_of_repr((-v) as nat);
        assert(s.skip(1) =~= dec_repr((-v) as nat));
        assert(int_token_val(s) == Some(-dec_val(dec_repr((-v) as nat))));
    } else {
        lemma_dec_repr_shape(v as nat);
        lemma_val_of_repr(v as nat);
        let s = dec_repr(v as nat);
        assert(is_digit(s[0]));
        assert(!(s[0] == 43 || s[0] == 45));
    }
}

/// Whether every byte of `s` is a decimal digit.
pub fn check_digits(s: &[u8]) -> (r: bool)
    ensures
        r == digits_only(s@),
{
    let mut i: usize = 0;
    while i < s.len()
        invariant
            i <= s@.len(),
            forall|j: int| 0 <= j < i ==> is_digit(#[trigger] s@[j]),
        decreases s@.len() - i,
    {
        if !(48 <= s[i] && s[i] <= 57) {
            return false;
        }
        i = i + 1;
    }
    true
}

/// The value of an unsigned integer token: an optional leading `+`
/// followed by a non-empty digit run, and nothing else.
pub open spec fn uint_token_val(s: Seq<u8>) -> Option<int> {
    if s.len() >= 1 && s[0] == 43 {
        let d = s.skip(1);
        if digits_only(d) && d.len() > 0 {
            Some(dec_val(d))
        } else {
            None
        }
    } else if digits_only(s) && s.len() > 0 {
        Some(dec_val(s))
    } else {
        None
    }
}

/// Parses a whole token as an unsigned 64-bit integer. Succeeds exactly
/// when the token is an unsigned integer token whose value fits in a
/// `u64`.
pub fn parse_uint_token(s: &[u8]) -> (r: Option<u64>)
    ensures
        match r {
            Some(v) => uint_token_val(s@) == Some(v as int),
            None => uint_token_val(s@) is None || uint_token_val(s@).unwrap() > u64::MAX,
        },
{
    let n = s.len();
    let ds: usize = if n >= 1 && s[0] == 43 {
        1
    } else {
        0
    };
    proof {
        assert(s@.subrange(ds as int, n as int) =~= if ds == 1 {
            s@.skip(1)
        } else {
            s@
        });
    }
    parse_dec_u64(s, ds, n)
}

/// The unsigned decimal codec round-trips on the canonical numeral.
pub proof fn lemma_uint_token_round_trip(n: nat)
    ensures
        uint_token_val(dec_repr(n)) == Some(n as int),
{
    lemma_dec_repr_shape(n);
    lemma_val_of_repr(n);
    assert(is_digit(dec_repr(n)[0]));
}

/// `b` is an uppercase hexadecimal digit.
pub open spec fn is_hex_digit(b: u8) -> bool {
    (48 <= b <= 57) || (65 <= b <= 70)
}

/// The value of one hexadecimal digit.
pub open spec fn hex_val(b: u8) -> int {
    if 48 <= b <= 57 {
        b - 48
    } else {
        b - 55
    }
}

/// The uppercase hexadecimal digit of a nibble value.
pub open spec fn hex_chr(v: int) -> u8 {
    if v < 10 {
        (v + 48) as u8
    } else {
        (v + 55) as u8
    }
}

} // verus!
