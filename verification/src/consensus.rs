//! Consensus persistence: the status of a verified claim and the statistics of a store
//! of claims.

use vstd::prelude::*;

verus! {

/// Status of a verified claim.
#[derive(Debug, Clone, Copy, PartialEq, Eq, Structural)]
pub enum ClaimStatus {
    Active,
    Decayed,
    Challenged,
    Revoked,
}

/// Statistics of a consensus store.
#[derive(Debug, Clone, Copy, PartialEq, Eq, Structural)]
pub struct StoreStats {
    pub total: usize,
    pub active: usize,
    pub decayed: usize,
    pub revoked: usize,
    pub total_references: u32,
}

/// Number of claims of `claims` (each a status and a reference count) with status `s`.
pub open spec fn status_count(claims: Seq<(ClaimStatus, u32)>, s: ClaimStatus) -> nat
    decreases claims.len(),
{
    if claims.len() == 0 {
        0
    } else {
        status_count(claims.drop_last(), s) + (if claims.last().0 == s {
            1nat
        } else {
            0nat
        })
    }
}

/// Sum of the reference counts of `claims`.
pub open spec fn reference_sum(claims: Seq<(ClaimStatus, u32)>) -> nat
    decreases claims.len(),
{
    if claims.len() == 0 {
        0
    } else {
        reference_sum(claims.drop_last()) + claims.last().1 as nat
    }
}

/// The sum of the reference counts of a prefix is at most that of the whole.
proof fn lemma_reference_sum_prefix(claims: Seq<(ClaimStatus, u32)>, k: int)
    requires
        0 <= k <= claims.len(),
    ensures
        reference_sum(claims.take(k)) <= reference_sum(claims),
    decreases claims.len(),
{
    if k < claims.len() {
        lemma_reference_sum_prefix(claims.drop_last(), k);
        assert(claims.drop_last().take(k) =~= claims.take(k));
    } else {
        assert(claims.take(k) =~= claims);
    }
}

impl StoreStats {
    /// The statistics of a store whose claims have the given statuses and reference
    /// counts: the number of claims, of active, decayed and revoked claims, and the sum of
    /// the reference counts. That sum is a `u32`: `None` when it does not fit.
    pub fn tally(claims: &[(ClaimStatus, u32)]) -> (r: Option<StoreStats>)
        ensures
            r is None <==> reference_sum(claims@) > u32::MAX,
            r matches Some(st) ==> {
                &&& st.total == claims@.len()
                &&& st.active == status_count(claims@, ClaimStatus::Active)
                &&& st.decayed == status_count(claims@, ClaimStatus::Decayed)
                &&& st.revoked == status_count(claims@, ClaimStatus::Revoked)
                &&& st.total_references == reference_sum(claims@)
            },
    {
        let ghost cs = claims@;
        let mut active: usize = 0;
        let mut decayed: usize = 0;
        let mut revoked: usize = 0;
        let mut refs: u32 = 0;
        let mut i: usize = 0;
        while i < claims.len()
            invariant
                i <= cs.len(),
                cs == claims@,
                active == status_count(cs.take(i as int), ClaimStatus::Active),
                decayed == status_count(cs.take(i as int), ClaimStatus::Decayed),
                revoked == status_count(cs.take(i as int), ClaimStatus::Revoked),
                refs == reference_sum(cs.take(i as int)),
                active + decayed + revoked <= i,
            decreases cs.len() - i,
        {
            assert(cs.take(i + 1).drop_last() =~= cs.take(i as int));
            let (status, count) = claims[i];
            match refs.checked_add(count) {
                Some(sum) => {
                    refs = sum;
                },
                None => {
                    proof {
                        lemma_reference_sum_prefix(cs, i + 1);
                    }
                    return None;
                },
            }
            match status {
                ClaimStatus::Active => {
                    active = active + 1;
                },
                ClaimStatus::Decayed => {
                    decayed = decayed + 1;
                },
                ClaimStatus::Revoked => {
                    revoked = revoked + 1;
                },
                ClaimStatus::Challenged => {},
            }
            i = i + 1;
        }
        assert(cs.take(cs.len() as int) =~= cs);
        Some(StoreStats { total: claims.len(), active, decayed, revoked, total_references: refs })
    }
}

/// Every claim has exactly one status: the four status counts add up to the number of
/// claims, so the active, decayed and revoked claims never outnumber the store.
pub proof fn lemma_status_counts_partition(claims: Seq<(ClaimStatus, u32)>)
    ensures
        status_count(claims, ClaimStatus::Active) + status_count(claims, ClaimStatus::Decayed)
            + status_count(claims, ClaimStatus::Challenged) + status_count(
            claims,
            ClaimStatus::Revoked,
        ) == claims.len(),
    decreases claims.len(),
{
    if claims.len() > 0 {
        lemma_status_counts_partition(claims.drop_last());
    }
}

} // verus!
