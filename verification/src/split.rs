//! Splitting byte regions on a separator byte.
//!
//! The interchange format delimits segments with reserved bytes (the unit
//! separator inside fields, `!` inside array descriptors, `,` inside format
//! controls). `spec_split` is the mathematical splitting of a sequence; the
//! executable splitter is proved to return exactly it.

use vstd::prelude::*;

verus! {

/// `p` holds no occurrence of `sep`.
pub open spec fn sep_free(p: Seq<u8>, sep: u8) -> bool {
    forall|i: int| 0 <= i < p.len() ==> p[i] != sep
}

/// The segments of `s` between occurrences of `sep`, in order: one segment
/// more than there are separators, each free of the separator.
pub open spec fn spec_split(s: Seq<u8>, sep: u8) -> Seq<Seq<u8>>
    decreases s.len(),
{
    if s.len() == 0 {
        seq![Seq::<u8>::empty()]
    } else if s[0] == sep {
        seq![Seq::<u8>::empty()] + spec_split(s.drop_first(), sep)
    } else {
        let rest = spec_split(s.drop_first(), sep);
        seq![seq![s[0]] + rest[0]] + rest.drop_first()
    }
}

/// The views of a sequence of byte vectors.
pub open spec fn part_views(q: Seq<Vec<u8>>) -> Seq<Seq<u8>> {
    q.map_values(|v: Vec<u8>| v@)
}

/// Splitting yields at least one segment.
pub proof fn lemma_split_nonempty(s: Seq<u8>, sep: u8)
    ensures
        spec_split(s, sep).len() >= 1,
    decreases s.len(),
{
    if s.len() > 0 && s[0] != sep {
        lemma_split_nonempty(s.drop_first(), sep);
    }
}

/// A region without the separator is one whole segment.
pub proof fn lemma_split_whole(s: Seq<u8>, sep: u8)
    requires
        sep_free(s, sep),
    ensures
        spec_split(s, sep) == seq![s],
    decreases s.len(),
{
    if s.len() == 0 {
        assert(spec_split(s, sep) =~~= seq![s]);
    } else {
        assert(sep_free(s.drop_first(), sep));
        lemma_split_whole(s.drop_first(), sep);
        assert(seq![s[0]] + s.drop_first() =~= s);
        assert(spec_split(s, sep) =~~= seq![s]);
    }
}

/// Peeling the first segment: a separator-free prefix followed by `sep`
/// splits off as one segment before the split of the remainder.
pub proof fn lemma_split_peel(a: Seq<u8>, b: Seq<u8>, sep: u8)
    requires
        sep_free(a, sep),
    ensures
        spec_split(a + seq![sep] + b, sep) == seq![a] + spec_split(b, sep),
    decreases a.len(),
{
    let s = a + seq![sep] + b;
    if a.len() == 0 {
        assert(s[0] == sep);
        assert(s.drop_first() =~= b);
        assert(spec_split(s, sep) =~~= seq![a] + spec_split(b, sep));
    } else {
        assert(s[0] == a[0]);
        assert(s[0] != sep);
        assert(s.drop_first() =~= a.drop_first() + seq![sep] + b);
        assert(sep_free(a.drop_first(), sep));
        lemma_split_peel(a.drop_first(), b, sep);
        let rest = spec_split(s.drop_first(), sep);
        lemma_split_nonempty(b, sep);
        assert(rest[0] == a.drop_first());
        assert(seq![s[0]] + rest[0] =~= a);
        assert(rest.drop_first() =~= spec_split(b, sep));
        assert(spec_split(s, sep) =~~= seq![a] + spec_split(b, sep));
    }
}

/// Splits `s` into the segments between occurrences of `sep`.
pub fn split_bytes(s: &[u8], sep: u8) -> (r: Vec<Vec<u8>>)
    ensures
        part_views(r@) == spec_split(s@, sep),
{
    let n = s.len();
    let mut r: Vec<Vec<u8>> = Vec::new();
    let mut seg_start: usize = 0;
    let mut i: usize = 0;
    proof {
        assert(part_views(r@) =~= Seq::<Seq<u8>>::empty());
        assert(s@.subrange(0, n as int) =~= s@);
    }
    while i < n
        invariant
            seg_start <= i <= n,
            n == s@.len(),
            sep_free(s@.subrange(seg_start as int, i as int), sep),
            spec_split(s@, sep) == part_views(r@) + spec_split(
                s@.subrange(seg_start as int, n as int),
                sep,
            ),
        decreases n - i,
    {
        if s[i] == sep {
            let piece = vstd::slice::slice_to_vec(vstd::slice::slice_subrange(s, seg_start, i));
            proof {
                let cur = s@.subrange(seg_start as int, i as int);
                let rem = s@.subrange(seg_start as int, n as int);
                let rest = s@.subrange(i as int + 1, n as int);
                assert(rem =~= cur + seq![sep] + rest);
                lemma_split_peel(cur, rest, sep);
                assert(part_views(r@.push(piece)) =~= part_views(r@) + seq![cur]);
                assert(part_views(r@) + seq![cur] + spec_split(rest, sep) =~= part_views(r@)
                    + (seq![cur] + spec_split(rest, sep)));
            }
            r.push(piece);
            seg_start = i + 1;
            proof {
                assert(sep_free(s@.subrange(seg_start as int, seg_start as int + 0), sep));
            }
        } else {
            proof {
                assert(s@.subrange(seg_start as int, i as int + 1) =~= s@.subrange(
                    seg_start as int,
                    i as int,
                ).push(s@[i as int]));
            }
        }
        i = i + 1;
    }
    let piece = vstd::slice::slice_to_vec(vstd::slice::slice_subrange(s, seg_start, n));
    proof {
        let cur = s@.subrange(seg_start as int, n as int);
        lemma_split_whole(cur, sep);
        assert(part_views(r@.push(piece)) =~= part_views(r@) + seq![cur]);
        assert(part_views(r@) + seq![cur] =~= spec_split(s@, sep));
    }
    r.push(piece);
    r
}

} // verus!
