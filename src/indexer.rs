//! Mixed-radix decomposition of a linear job index into wordlist offsets.
//!
//! The first wordlist varies fastest: offset `k` is
//! `(i / (sizes[0] * ... * sizes[k-1])) % sizes[k]`.
use vstd::prelude::*;
use vstd::arithmetic::div_mod::{lemma_div_denominator, lemma_fundamental_div_mod_converse};

verus! {

/// The sizes as mathematical integers.
pub open spec fn nat_seq(v: Seq<usize>) -> Seq<nat> {
    v.map_values(|x: usize| x as nat)
}

/// Every size is at least one.
pub open spec fn all_positive(sizes: Seq<nat>) -> bool {
    forall|k: int| 0 <= k < sizes.len() ==> sizes[k] > 0
}

/// The number of combinations: the product of all sizes (one for no sizes).
pub open spec fn total(sizes: Seq<nat>) -> nat
    decreases sizes.len(),
{
    if sizes.len() == 0 {
        1
    } else {
        sizes[0] * total(sizes.drop_first())
    }
}

/// The offsets of index `i`: repeatedly take `i % size`, then divide by it.
pub open spec fn offsets(i: nat, sizes: Seq<nat>) -> Seq<nat>
    decreases sizes.len(),
{
    if sizes.len() == 0 {
        Seq::empty()
    } else {
        seq![i % sizes[0]].add(offsets(i / sizes[0], sizes.drop_first()))
    }
}

/// The index whose offsets are `offs`: the inverse of `offsets`.
pub open spec fn compose(offs: Seq<nat>, sizes: Seq<nat>) -> nat
    decreases sizes.len(),
{
    if sizes.len() == 0 || offs.len() == 0 {
        0
    } else {
        offs[0] + sizes[0] * compose(offs.drop_first(), sizes.drop_first())
    }
}

/// A tuple of offsets, one below each size.
pub open spec fn in_range(offs: Seq<nat>, sizes: Seq<nat>) -> bool {
    &&& offs.len() == sizes.len()
    &&& forall|k: int| 0 <= k < sizes.len() ==> offs[k] < sizes[k]
}

proof fn lemma_total_positive(sizes: Seq<nat>)
    requires
        all_positive(sizes),
    ensures
        total(sizes) > 0,
    decreases sizes.len(),
{
    if sizes.len() > 0 {
        lemma_total_positive(sizes.drop_first());
        assert(sizes[0] * total(sizes.drop_first()) > 0) by (nonlinear_arith)
            requires
                sizes[0] > 0,
                total(sizes.drop_first()) > 0,
        ;
    }
}

/// Dropping sizes from the front never makes the product larger.
proof fn lemma_total_suffix_le(sizes: Seq<nat>, j: int)
    requires
        all_positive(sizes),
        0 <= j <= sizes.len(),
    ensures
        total(sizes.subrange(j, sizes.len() as int)) <= total(sizes),
    decreases j,
{
    if j == 0 {
        assert(sizes.subrange(0, sizes.len() as int) =~= sizes);
    } else {
        let n = sizes.len() as int;
        lemma_total_suffix_le(sizes, j - 1);
        let longer = sizes.subrange(j - 1, n);
        assert(longer.drop_first() =~= sizes.subrange(j, n));
        let t = total(sizes.subrange(j, n));
        assert(longer[0] * t >= t) by (nonlinear_arith)
            requires
                longer[0] > 0,
        ;
    }
}

/// Every offset lies below its size.
pub proof fn lemma_offsets_in_range(i: nat, sizes: Seq<nat>)
    requires
        all_positive(sizes),
    ensures
        in_range(offsets(i, sizes), sizes),
    decreases sizes.len(),
{
    if sizes.len() > 0 {
        lemma_offsets_in_range(i / sizes[0], sizes.drop_first());
        let o = offsets(i, sizes);
        assert forall|k: int| 0 <= k < sizes.len() implies o[k] < sizes[k] by {
            if k > 0 {
                assert(o[k] == offsets(i / sizes[0], sizes.drop_first())[k - 1]);
            }
        }
    }
}

/// Composing the offsets of an index in range gives the index back.
pub proof fn lemma_compose_offsets(i: nat, sizes: Seq<nat>)
    requires
        all_positive(sizes),
        i < total(sizes),
    ensures
        compose(offsets(i, sizes), sizes) == i,
    decreases sizes.len(),
{
    if sizes.len() > 0 {
        let s0 = sizes[0];
        let rest = sizes.drop_first();
        let q = i / s0;
        assert(q < total(rest)) by (nonlinear_arith)
            requires
                i < s0 * total(rest),
                s0 > 0,
                q == i / s0,
        ;
        lemma_compose_offsets(q, rest);
        let o = offsets(i, sizes);
        assert(o.drop_first() =~= offsets(q, rest));
        assert(i == i % s0 + s0 * q) by (nonlinear_arith)
            requires
                s0 > 0,
                q == i / s0,
        ;
    }
}

/// Offsets in range compose to an index in range whose offsets they are.
pub proof fn lemma_offsets_compose(offs: Seq<nat>, sizes: Seq<nat>)
    requires
        all_positive(sizes),
        in_range(offs, sizes),
    ensures
        compose(offs, sizes) < total(sizes),
        offsets(compose(offs, sizes), sizes) == offs,
    decreases sizes.len(),
{
    if sizes.len() > 0 {
        let s0 = sizes[0];
        let rest = sizes.drop_first();
        let o0 = offs[0];
        let orest = offs.drop_first();
        lemma_offsets_compose(orest, rest);
        let c = compose(orest, rest);
        let t = total(rest);
        assert(o0 + s0 * c < s0 * t) by (nonlinear_arith)
            requires
                o0 < s0,
                c < t,
        ;
        lemma_fundamental_div_mod_converse((o0 + s0 * c) as int, s0 as int, c as int, o0 as int);
        assert(offsets(compose(offs, sizes), sizes) =~= offs);
    }
}

/// The offsets as stated in closed form: offset `k` of `i` is `i` divided by
/// the product of the earlier sizes, modulo size `k`.
pub proof fn lemma_offset_closed_form(i: nat, sizes: Seq<nat>, k: int)
    requires
        all_positive(sizes),
        0 <= k < sizes.len(),
    ensures
        offsets(i, sizes)[k] == (i / total(sizes.take(k))) % sizes[k],
    decreases k,
{
    let rest = sizes.drop_first();
    lemma_offsets_in_range(i, sizes);
    if k == 0 {
        assert(sizes.take(0) =~= Seq::<nat>::empty());
    } else {
        let q = i / sizes[0];
        lemma_offset_closed_form(q, rest, k - 1);
        lemma_offsets_in_range(q, rest);
        assert(offsets(i, sizes)[k] == offsets(q, rest)[k - 1]);
        assert(sizes.take(k).drop_first() =~= rest.take(k - 1));
        let t = total(rest.take(k - 1));
        assert(total(sizes.take(k)) == sizes[0] * t);
        lemma_total_positive(rest.take(k - 1));
        lemma_div_denominator(i as int, sizes[0] as int, t as int);
        assert(q / t == i / (sizes[0] * t));
    }
}

/// For positive sizes, `offsets` is a bijection from the indices below `total`
/// onto the tuples of offsets in range: `compose` is its inverse on both
/// sides, so no two indices share a tuple and every tuple is reached.
pub proof fn lemma_indexer_bijective(sizes: Seq<nat>)
    requires
        all_positive(sizes),
    ensures
        forall|i: nat| #![trigger offsets(i, sizes)]
            i < total(sizes) ==> in_range(offsets(i, sizes), sizes) && compose(
                offsets(i, sizes),
                sizes,
            ) == i,
        forall|offs: Seq<nat>| #![trigger compose(offs, sizes)]
            in_range(offs, sizes) ==> compose(offs, sizes) < total(sizes) && offsets(
                compose(offs, sizes),
                sizes,
            ) == offs,
        forall|i: nat, j: nat|
            i < total(sizes) && j < total(sizes) && #[trigger] offsets(i, sizes) == #[trigger] offsets(
                j,
                sizes,
            ) ==> i == j,
{
    assert forall|i: nat| #![trigger offsets(i, sizes)] i < total(sizes) implies in_range(
        offsets(i, sizes),
        sizes,
    ) && compose(offsets(i, sizes), sizes) == i by {
        lemma_offsets_in_range(i, sizes);
        lemma_compose_offsets(i, sizes);
    }
    assert forall|offs: Seq<nat>| #![trigger compose(offs, sizes)] in_range(
        offs,
        sizes,
    ) implies compose(offs, sizes) < total(sizes) && offsets(compose(offs, sizes), sizes)
        == offs by {
        lemma_offsets_compose(offs, sizes);
    }
    assert forall|i: nat, j: nat|
        i < total(sizes) && j < total(sizes) && #[trigger] offsets(i, sizes) == #[trigger] offsets(
            j,
            sizes,
        ) implies i == j by {
        lemma_compose_offsets(i, sizes);
        lemma_compose_offsets(j, sizes);
    }
}

/// The number of combinations of the given sizes, or `None` where it does not
/// fit in a `usize`.
pub fn total_combinations(sizes: &Vec<usize>) -> (r: Option<usize>)
    requires
        all_positive(nat_seq(sizes@)),
    ensures
        r == (if total(nat_seq(sizes@)) <= usize::MAX {
            Some(total(nat_seq(sizes@)) as usize)
        } else {
            None::<usize>
        }),
{
    let ghost s = nat_seq(sizes@);
    let n = sizes.len();
    let mut acc: usize = 1;
    let mut k: usize = n;
    assert(s.subrange(n as int, n as int) =~= Seq::<nat>::empty());
    while k > 0
        invariant
            k <= n == sizes.len(),
            s == nat_seq(sizes@),
            all_positive(s),
            acc as nat == total(s.subrange(k as int, n as int)),
        decreases k,
    {
        let ghost tail = s.subrange(k - 1, n as int);
        assert(tail.drop_first() =~= s.subrange(k as int, n as int));
        assert(tail[0] == sizes[k - 1] as nat);
        match acc.checked_mul(sizes[k - 1]) {
            Some(p) => {
                acc = p;
                k = k - 1;
            },
            None => {
                proof {
                    lemma_total_suffix_le(s, (k - 1) as int);
                }
                return None;
            },
        }
    }
    assert(s.subrange(0, n as int) =~= s);
    Some(acc)
}

/// Decomposes `nth` into one offset per size, the first size varying fastest.
pub fn product(nth: usize, sizes: &Vec<usize>) -> (out: Vec<usize>)
    requires
        all_positive(nat_seq(sizes@)),
    ensures
        nat_seq(out@) == offsets(nth as nat, nat_seq(sizes@)),
        forall|k: int|
            0 <= k < sizes.len() ==> out@[k] as nat == (nth as nat / total(
                nat_seq(sizes@).take(k),
            )) % nat_seq(sizes@)[k],
{
    let ghost s = nat_seq(sizes@);
    let mut out: Vec<usize> = Vec::new();
    let mut rest: usize = nth;
    let mut k: usize = 0;
    assert(s.subrange(0, s.len() as int) =~= s);
    assert(nat_seq(out@) =~= Seq::<nat>::empty());
    while k < sizes.len()
        invariant
            k <= sizes.len(),
            s == nat_seq(sizes@),
            all_positive(s),
            nat_seq(out@) + offsets(rest as nat, s.subrange(k as int, s.len() as int))
                == offsets(nth as nat, s),
        decreases sizes.len() - k,
    {
        let size = sizes[k];
        let ghost before = rest as nat;
        let ghost tail = s.subrange(k as int, s.len() as int);
        assert(s[k as int] == size as nat);
        assert(tail.drop_first() =~= s.subrange(k + 1, s.len() as int));
        assert(offsets(before, tail) == seq![before % (size as nat)].add(
            offsets(before / (size as nat), tail.drop_first()),
        ));
        assert(nat_seq(out@.push(rest % size)) =~= nat_seq(out@).push((rest % size) as nat));
        out.push(rest % size);
        rest = rest / size;
        assert(nat_seq(out@) + offsets(rest as nat, s.subrange(k + 1, s.len() as int))
            =~= nat_seq(out@).drop_last() + offsets(before, tail));
        k = k + 1;
    }
    assert(s.subrange(k as int, s.len() as int) =~= Seq::<nat>::empty());
    assert forall|k: int| 0 <= k < sizes.len() implies out@[k] as nat == (nth as nat / total(
        s.take(k),
    )) % s[k] by {
        lemma_offset_closed_form(nth as nat, s, k);
        lemma_offsets_in_range(nth as nat, s);
        assert(nat_seq(out@)[k] == out@[k] as nat);
    }
    out
}

} // verus!
