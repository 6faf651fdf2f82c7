//! Handing out job indices.
//!
//! A run shares one counter among its workers. Each claim is a single step on
//! it (the workers serialise their claims on the counter, for instance behind
//! a mutex), so whatever the number of workers and however their claims
//! interleave, the claims of a run form one sequence of steps.
use vstd::prelude::*;

verus! {

/// What a claim returns when the next index is `next` and there are `total`
/// jobs: the index itself while it is below `total`, then nothing.
pub open spec fn claim_result(next: nat, total: nat) -> Option<nat> {
    if next < total {
        Some(next)
    } else {
        None
    }
}

/// The next index after a claim.
pub open spec fn claim_next(next: nat, total: nat) -> nat {
    if next < total {
        next + 1
    } else {
        next
    }
}

/// The results of `n` claims in a row, starting with next index `next`.
pub open spec fn claims(next: nat, total: nat, n: nat) -> Seq<Option<nat>>
    decreases n,
{
    if n == 0 {
        Seq::empty()
    } else {
        seq![claim_result(next, total)] + claims(claim_next(next, total), total, (n - 1) as nat)
    }
}

/// The indices that a sequence of claims handed out.
pub open spec fn claimed(results: Seq<Option<nat>>) -> Set<nat> {
    Set::new(|x: nat| exists|i: int| 0 <= i < results.len() && results[i] == Some(x))
}

/// The counter of a run: the next index to hand out, and the number of jobs.
#[derive(Debug)]
pub struct JobCounter {
    next: usize,
    total: usize,
}

impl JobCounter {
    /// The next index to hand out.
    pub closed spec fn next_index(&self) -> nat {
        self.next as nat
    }

    /// The number of jobs of the run.
    pub closed spec fn total_jobs(&self) -> nat {
        self.total as nat
    }

    /// A counter for a run of `total` jobs, none handed out yet.
    pub fn new(total: usize) -> (c: JobCounter)
        ensures
            c.next_index() == 0,
            c.total_jobs() == total,
    {
        JobCounter { next: 0, total }
    }

    /// Hands out the next index while one below the total is left: reads the
    /// counter and advances it in one step.
    pub fn claim(&mut self) -> (r: Option<usize>)
        ensures
            final(self).total_jobs() == old(self).total_jobs(),
            final(self).next_index() == claim_next(old(self).next_index(), old(self).total_jobs()),
            match r {
                Some(i) => claim_result(old(self).next_index(), old(self).total_jobs()) == Some(
                    i as nat,
                ),
                None => claim_result(old(self).next_index(), old(self).total_jobs()) is None,
            },
    {
        if self.next < self.total {
            let i = self.next;
            self.next = self.next + 1;
            Some(i)
        } else {
            None
        }
    }
}

proof fn lemma_claims_from(next: nat, total: nat, n: nat)
    ensures
        claims(next, total, n).len() == n,
        forall|i: int|
            0 <= i < n ==> #[trigger] claims(next, total, n)[i] == (if next + i < total {
                Some((next + i) as nat)
            } else {
                None
            }),
    decreases n,
{
    if n > 0 {
        let next2 = claim_next(next, total);
        lemma_claims_from(next2, total, (n - 1) as nat);
        let c = claims(next, total, n);
        assert forall|i: int| 0 <= i < n implies #[trigger] c[i] == (if next + i < total {
            Some((next + i) as nat)
        } else {
            None
        }) by {
            if i > 0 {
                assert(c[i] == claims(next2, total, (n - 1) as nat)[i - 1]);
            }
        }
    }
}

/// A full run hands out every index exactly once: from a fresh counter for
/// `total` jobs, any `n >= total` claims return the indices `0, 1, ...,
/// total - 1` in increasing order and then nothing, so the indices handed out
/// are exactly those below `total`, none twice, and none at or past `total`.
pub proof fn lemma_full_run(total: nat, n: nat)
    requires
        n >= total,
    ensures
        claims(0, total, n).len() == n,
        forall|i: int|
            0 <= i < n ==> #[trigger] claims(0, total, n)[i] == (if i < total {
                Some(i as nat)
            } else {
                None
            }),
        claimed(claims(0, total, n)) == Set::new(|x: nat| x < total),
        forall|i: int, j: int|
            0 <= i < n && 0 <= j < n && #[trigger] claims(0, total, n)[i] is Some
                && claims(0, total, n)[i] == #[trigger] claims(0, total, n)[j] ==> i == j,
{
    lemma_claims_from(0, total, n);
    let c = claims(0, total, n);
    assert forall|x: nat| claimed(c).contains(x) <==> x < total by {
        if x < total {
            assert(c[x as int] == Some(x));
        }
    }
    assert(claimed(c) =~= Set::new(|x: nat| x < total));
}

} // verus!
