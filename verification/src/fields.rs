//! Splitting and joining on single-byte delimiters: the tab between
//! record columns, the comma between steps, array elements and
//! per-step overlaps.

use vstd::prelude::*;

verus! {

/// Some byte of `s` equals `b`.
pub open spec fn has_byte(s: Seq<u8>, b: u8) -> bool {
    exists|i: int| 0 <= i < s.len() && s[i] == b
}

/// Attaches `p` to the front of the first fragment of `xs`, or makes it
/// the only fragment when there is none.
pub open spec fn prepend_head(p: Seq<u8>, xs: Seq<Seq<u8>>) -> Seq<Seq<u8>> {
    if xs.len() == 0 {
        seq![p]
    } else {
        seq![p + xs[0]] + xs.skip(1)
    }
}

/// The fragments of `s` between occurrences of `sep`, with a single
/// trailing separator terminating the last fragment rather than opening
/// an empty one. The empty input has no fragments.
pub open spec fn split_sep(s: Seq<u8>, sep: u8) -> Seq<Seq<u8>>
    decreases s.len(),
{
    if s.len() == 0 {
        Seq::empty()
    } else if s[0] == sep {
        seq![Seq::<u8>::empty()] + split_sep(s.skip(1), sep)
    } else {
        prepend_head(seq![s[0]], split_sep(s.skip(1), sep))
    }
}

/// The fragments of `xs` joined with `sep` between consecutive ones.
pub open spec fn join_sep(xs: Seq<Seq<u8>>, sep: u8) -> Seq<u8>
    decreases xs.len(),
{
    if xs.len() == 0 {
        Seq::empty()
    } else if xs.len() == 1 {
        xs[0]
    } else {
        xs[0] + seq![sep] + join_sep(xs.skip(1), sep)
    }
}

/// A separator-free non-empty string is its own single fragment.
pub proof fn lemma_split_single(f: Seq<u8>, sep: u8)
    requires
        f.len() > 0,
        !has_byte(f, sep),
    ensures
        split_sep(f, sep) =~~= seq![f],
    decreases f.len(),
{
    assert(f[0] != sep);
    if f.len() == 1 {
        assert(f.skip(1) =~= Seq::<u8>::empty());
        assert(split_sep(f.skip(1), sep) =~~= Seq::<Seq<u8>>::empty());
        assert(split_sep(f, sep) =~~= seq![seq![f[0]]]);
        assert(seq![f[0]] =~= f);
    } else {
        assert(!has_byte(f.skip(1), sep)) by {
            assert(forall|i: int|
                0 <= i < f.skip(1).len() ==> #[trigger] f.skip(1)[i] == f[i + 1]);
        }
        lemma_split_single(f.skip(1), sep);
        assert(split_sep(f, sep) =~~= seq![seq![f[0]] + f.skip(1)]);
        assert(seq![f[0]] + f.skip(1) =~= f);
    }
}

/// Splitting `f`, a separator, then `t` yields `f` and then the
/// fragments of `t`, provided `f` itself is separator-free.
pub proof fn lemma_split_concat(f: Seq<u8>, t: Seq<u8>, sep: u8)
    requires
        !has_byte(f, sep),
    ensures
        split_sep(f + seq![sep] + t, sep) =~~= seq![f] + split_sep(t, sep),
    decreases f.len(),
{
    let s = f + seq![sep] + t;
    if f.len() == 0 {
        assert(s[0] == sep);
        assert(s.skip(1) =~= t);
        assert(seq![Seq::<u8>::empty()] =~~= seq![f]);
    } else {
        assert(s[0] == f[0] && f[0] != sep);
        assert(!has_byte(f.skip(1), sep)) by {
            assert(forall|i: int|
                0 <= i < f.skip(1).len() ==> #[trigger] f.skip(1)[i] == f[i + 1]);
        }
        lemma_split_concat(f.skip(1), t, sep);
        assert(s.skip(1) =~= f.skip(1) + seq![sep] + t);
        let rest = split_sep(s.skip(1), sep);
        assert(rest =~~= seq![f.skip(1)] + split_sep(t, sep));
        assert(rest.len() > 0);
        assert(split_sep(s, sep) =~~= seq![seq![s[0]] + rest[0]] + rest.skip(1));
        assert(seq![s[0]] + rest[0] =~= f);
        assert(rest.skip(1) =~~= split_sep(t, sep));
    }
}

/// A non-empty string has at least one fragment.
pub proof fn lemma_split_nonempty(s: Seq<u8>, sep: u8)
    requires
        s.len() > 0,
    ensures
        split_sep(s, sep).len() >= 1,
{
    if s[0] == sep {
    } else {
        let rest = split_sep(s.skip(1), sep);
        if rest.len() == 0 {
        } else {
        }
    }
}

/// Joining fragments and splitting again restores them, provided every
/// fragment is non-empty and separator-free.
pub proof fn lemma_split_join(xs: Seq<Seq<u8>>, sep: u8)
    requires
        forall|i: int| 0 <= i < xs.len() ==> (#[trigger] xs[i]).len() > 0,
        forall|i: int| 0 <= i < xs.len() ==> !has_byte(#[trigger] xs[i], sep),
    ensures
        split_sep(join_sep(xs, sep), sep) =~~= xs,
    decreases xs.len(),
{
    if xs.len() == 0 {
    } else if xs.len() == 1 {
        lemma_split_single(xs[0], sep);
    } else {
        lemma_split_join(xs.skip(1), sep);
        lemma_split_concat(xs[0], join_sep(xs.skip(1), sep), sep);
    }
}

/// Joining one more fragment appends a separator (unless it is the
/// first) and the fragment.
pub proof fn lemma_join_snoc(xs: Seq<Seq<u8>>, sep: u8)
    requires
        xs.len() > 0,
    ensures
        join_sep(xs, sep) =~= if xs.len() == 1 {
            xs.last()
        } else {
            join_sep(xs.drop_last(), sep) + seq![sep] + xs.last()
        },
    decreases xs.len(),
{
    if xs.len() > 1 {
        lemma_join_snoc(xs.skip(1), sep);
        if xs.len() == 2 {
            assert(xs.drop_last() =~~= seq![xs[0]]);
        } else {
            assert(xs.skip(1).drop_last() =~~= xs.drop_last().skip(1));
            assert(xs.skip(1).last() == xs.last());
            assert(join_sep(xs.drop_last(), sep) =~= xs[0] + seq![sep] + join_sep(
                xs.drop_last().skip(1),
                sep,
            ));
        }
    }
}

/// The views of a vector of byte vectors.
pub open spec fn views_of(v: Seq<Vec<u8>>) -> Seq<Seq<u8>> {
    v.map_values(|x: Vec<u8>| x@)
}

/// Splits `s` on the byte `sep`, with terminator semantics: a trailing
/// separator closes the last fragment instead of opening an empty one.
pub fn split_bytes(s: &[u8], sep: u8) -> (r: Vec<Vec<u8>>)
    ensures
        views_of(r@) =~~= split_sep(s@, sep),
{
    let mut out: Vec<Vec<u8>> = Vec::new();
    let mut cur: Vec<u8> = Vec::new();
    let mut i: usize = 0;
    proof {
        assert(cur@ + s@.skip(0) =~= s@);
        assert(views_of(out@) =~~= Seq::<Seq<u8>>::empty());
    }
    while i < s.len()
        invariant
            i <= s@.len(),
            !has_byte(cur@, sep),
            split_sep(s@, sep) =~~= views_of(out@) + split_sep(cur@ + s@.skip(i as int), sep),
        decreases s@.len() - i,
    {
        let b = s[i];
        if b == sep {
            let ghost out0 = out@;
            let ghost cur0 = cur@;
            proof {
                assert(cur@ + s@.skip(i as int) =~= cur@ + seq![sep] + s@.skip(i + 1));
                lemma_split_concat(cur@, s@.skip(i + 1), sep);
            }
            out.push(cur);
            cur = Vec::new();
            proof {
                assert(cur@ + s@.skip(i + 1) =~= s@.skip(i + 1));
                assert(views_of(out@) =~~= views_of(out0) + seq![cur0]);
                assert(split_sep(cur0 + s@.skip(i as int), sep) =~~= seq![cur0] + split_sep(
                    s@.skip(i + 1),
                    sep,
                ));
                assert(views_of(out@) + split_sep(cur@ + s@.skip(i + 1), sep) =~~= (
                views_of(out0) + seq![cur0]) + split_sep(s@.skip(i + 1), sep));
                assert(split_sep(s@, sep) =~~= views_of(out@) + split_sep(
                    cur@ + s@.skip(i + 1),
                    sep,
                ));
            }
        } else {
            let ghost cur0 = cur@;
            proof {
                assert(cur@ + s@.skip(i as int) =~= (cur@ + seq![b]) + s@.skip(i + 1));
            }
            cur.push(b);
            proof {
                assert(cur@ =~= cur0 + seq![b]);
                assert(cur@ + s@.skip(i + 1) =~= cur0 + s@.skip(i as int));
                assert(!has_byte(cur@, sep)) by {
                    assert(forall|j: int|
                        0 <= j < cur0.len() ==> #[trigger] cur@[j] == cur0[j]);
                    assert(cur@[cur0.len() as int] == b);
                }
            }
        }
        i = i + 1;
    }
    proof {
        assert(cur@ + s@.skip(i as int) =~= cur@);
    }
    if cur.len() > 0 {
        proof {
            lemma_split_single(cur@, sep);
        }
        out.push(cur);
    }
    out
}

/// The position of the first occurrence of `b` at or after `from`, or
/// the length of `s` when there is none.
pub fn find_byte(s: &[u8], from: usize, b: u8) -> (r: usize)
    requires
        from <= s@.len(),
    ensures
        from <= r <= s@.len(),
        forall|j: int| from <= j < r ==> s@[j] != b,
        r < s@.len() ==> s@[r as int] == b,
{
    let mut i: usize = from;
    while i < s.len()
        invariant
            from <= i <= s@.len(),
            forall|j: int| from <= j < i ==> s@[j] != b,
        decreases s@.len() - i,
    {
        if s[i] == b {
            return i;
        }
        i = i + 1;
    }
    i
}

/// Whether `s` contains the byte `b`.
pub fn contains_byte(s: &[u8], b: u8) -> (r: bool)
    ensures
        r == has_byte(s@, b),
{
    let i = find_byte(s, 0, b);
    i < s.len()
}

/// Byte-for-byte equality of two byte strings.
pub fn bytes_eq(a: &[u8], b: &[u8]) -> (r: bool)
    ensures
        r == (a@ == b@),
{
    if a.len() != b.len() {
        return false;
    }
    let mut i: usize = 0;
    while i < a.len()
        invariant
            i <= a@.len(),
            a@.len() == b@.len(),
            forall|j: int| 0 <= j < i ==> a@[j] == b@[j],
        decreases a@.len() - i,
    {
        if a[i] != b[i] {
            return false;
        }
        i = i + 1;
    }
    proof {
        assert(a@ =~= b@);
    }
    true
}

} // verus!
