//! Stance-based divergence: how far the stances of agents agree.
//!
//! Each agent's stance is a vector over `d` dimensions, each `+1`, `-1` or `0`
//! (unmentioned). Two stances are compared position by position over their common
//! length: a position both leave unmentioned is skipped; equal stances agree; a stance
//! against an unmentioned one agrees by half; anything else disagrees. The agreement of
//! two stances is `(agreements + half_agreements / 2) / compared`, or one half when no
//! position was compared, and the divergence of a group is one minus the mean agreement
//! over all pairs. This module counts, exactly, what those ratios are made of.

use vstd::prelude::*;

verus! {

/// The counts of a comparison of two stances.
#[derive(Debug, Clone, Copy, PartialEq, Eq, Structural)]
pub struct StanceTally {
    /// Compared positions where both stances are equal (and not both unmentioned).
    pub agreements: usize,
    /// Compared positions where exactly one stance is unmentioned.
    pub half_agreements: usize,
    /// Positions compared: those of the common length that are not unmentioned in both.
    pub compared: usize,
}

/// Mathematical model of a [`StanceTally`].
pub struct TallyModel {
    pub agreements: nat,
    pub half_agreements: nat,
    pub compared: nat,
}

impl View for StanceTally {
    type V = TallyModel;

    open spec fn view(&self) -> TallyModel {
        TallyModel {
            agreements: self.agreements as nat,
            half_agreements: self.half_agreements as nat,
            compared: self.compared as nat,
        }
    }
}

/// The tally of the first `n` positions of the stances `a` and `b`.
pub open spec fn tally_prefix(a: Seq<i8>, b: Seq<i8>, n: nat) -> TallyModel
    decreases n,
{
    if n == 0 {
        TallyModel { agreements: 0, half_agreements: 0, compared: 0 }
    } else {
        let t = tally_prefix(a, b, (n - 1) as nat);
        let x = a[n - 1];
        let y = b[n - 1];
        if x == 0 && y == 0 {
            t
        } else if x == y {
            TallyModel { agreements: t.agreements + 1, half_agreements: t.half_agreements, compared: t.compared + 1 }
        } else if x == 0 || y == 0 {
            TallyModel { agreements: t.agreements, half_agreements: t.half_agreements + 1, compared: t.compared + 1 }
        } else {
            TallyModel { agreements: t.agreements, half_agreements: t.half_agreements, compared: t.compared + 1 }
        }
    }
}

/// The length over which two stances are compared: the shorter of the two.
pub open spec fn common_len(a: Seq<i8>, b: Seq<i8>) -> nat {
    if a.len() <= b.len() {
        a.len()
    } else {
        b.len()
    }
}

/// The tally of the comparison of the stances `a` and `b`.
pub open spec fn spec_stance_tally(a: Seq<i8>, b: Seq<i8>) -> TallyModel {
    tally_prefix(a, b, common_len(a, b))
}

/// Compares two stances position by position over their common length.
pub fn stance_tally(a: &[i8], b: &[i8]) -> (r: StanceTally)
    ensures
        r@ == spec_stance_tally(a@, b@),
{
    let n = if a.len() <= b.len() {
        a.len()
    } else {
        b.len()
    };
    let mut agreements: usize = 0;
    let mut half_agreements: usize = 0;
    let mut compared: usize = 0;
    let mut i: usize = 0;
    while i < n
        invariant
            i <= n,
            n == common_len(a@, b@),
            tally_prefix(a@, b@, i as nat) == (TallyModel {
                agreements: agreements as nat,
                half_agreements: half_agreements as nat,
                compared: compared as nat,
            }),
            agreements <= i,
            half_agreements <= i,
            compared <= i,
        decreases n - i,
    {
        let x = a[i];
        let y = b[i];
        if x == 0 && y == 0 {
        } else if x == y {
            agreements = agreements + 1;
            compared = compared + 1;
        } else if x == 0 || y == 0 {
            half_agreements = half_agreements + 1;
            compared = compared + 1;
        } else {
            compared = compared + 1;
        }
        i = i + 1;
    }
    StanceTally { agreements, half_agreements, compared }
}

/// The tallies of stance `i` against each later stance `i + 1, ..., n - 1`, in order.
pub open spec fn tally_row(vs: Seq<Seq<i8>>, i: int) -> Seq<TallyModel> {
    Seq::new((vs.len() - i - 1) as nat, |k: int| spec_stance_tally(vs[i], vs[i + 1 + k]))
}

/// The tallies of all pairs `(i, j)` with `i < j` and `i` below `rows`, ordered by `i`
/// and then by `j`.
pub open spec fn pair_tallies_upto(vs: Seq<Seq<i8>>, rows: nat) -> Seq<TallyModel>
    decreases rows,
{
    if rows == 0 {
        Seq::empty()
    } else {
        pair_tallies_upto(vs, (rows - 1) as nat) + tally_row(vs, rows - 1)
    }
}

/// The tallies of all pairs `(i, j)` of stances with `i < j`, ordered by `i` and then
/// by `j`.
pub open spec fn pair_tallies(vs: Seq<Seq<i8>>) -> Seq<TallyModel> {
    pair_tallies_upto(vs, vs.len())
}

/// Compares every pair of stances `(i, j)` with `i < j`, ordered by `i` and then by
/// `j`: the counts that the divergence of the group is computed from. Fewer than two
/// stances give no pair.
pub fn pairwise_tallies(stance_vectors: &[Vec<i8>]) -> (r: Vec<StanceTally>)
    ensures
        r@.map_values(|t: StanceTally| t@) == pair_tallies(
            stance_vectors@.map_values(|v: Vec<i8>| v@),
        ),
{
    let ghost vs = stance_vectors@.map_values(|v: Vec<i8>| v@);
    let n = stance_vectors.len();
    let mut res: Vec<StanceTally> = Vec::new();
    let mut i: usize = 0;
    while i < n
        invariant
            i <= n,
            n == vs.len(),
            vs == stance_vectors@.map_values(|v: Vec<i8>| v@),
            res@.map_values(|t: StanceTally| t@) == pair_tallies_upto(vs, i as nat),
        decreases n - i,
    {
        let mut j: usize = i + 1;
        while j < n
            invariant
                i < n,
                i + 1 <= j <= n,
                n == vs.len(),
                vs == stance_vectors@.map_values(|v: Vec<i8>| v@),
                res@.map_values(|t: StanceTally| t@) == pair_tallies_upto(vs, i as nat) + tally_row(
                    vs,
                    i as int,
                ).take(j - i - 1),
            decreases n - j,
        {
            let ghost prev = res@.map_values(|t: StanceTally| t@);
            let t = stance_tally(stance_vectors[i].as_slice(), stance_vectors[j].as_slice());
            res.push(t);
            proof {
                let row = tally_row(vs, i as int);
                assert(row.take(j - i) =~= row.take(j - i - 1).push(row[j - i - 1]));
                assert(res@.map_values(|t: StanceTally| t@) =~= prev.push(t@));
            }
            j = j + 1;
        }
        proof {
            let row = tally_row(vs, i as int);
            assert(row.take(n - i - 1) =~= row);
        }
        i = i + 1;
    }
    res
}

/// Comparing stances is symmetric: `a` against `b` counts the same as `b` against `a`.
pub proof fn lemma_stance_tally_symmetric(a: Seq<i8>, b: Seq<i8>)
    ensures
        spec_stance_tally(a, b) == spec_stance_tally(b, a),
{
    lemma_tally_prefix_symmetric(a, b, common_len(a, b));
}

proof fn lemma_tally_prefix_symmetric(a: Seq<i8>, b: Seq<i8>, n: nat)
    ensures
        tally_prefix(a, b, n) == tally_prefix(b, a, n),
    decreases n,
{
    if n > 0 {
        lemma_tally_prefix_symmetric(a, b, (n - 1) as nat);
    }
}

/// The counts are bounded: agreements and half agreements are compared positions, and no
/// more positions are compared than the two stances have in common.
pub proof fn lemma_stance_tally_bounds(a: Seq<i8>, b: Seq<i8>)
    ensures
        spec_stance_tally(a, b).agreements + spec_stance_tally(a, b).half_agreements
            <= spec_stance_tally(a, b).compared,
        spec_stance_tally(a, b).compared <= common_len(a, b),
{
    lemma_tally_prefix_bounds(a, b, common_len(a, b));
}

proof fn lemma_tally_prefix_bounds(a: Seq<i8>, b: Seq<i8>, n: nat)
    ensures
        tally_prefix(a, b, n).agreements + tally_prefix(a, b, n).half_agreements <= tally_prefix(
            a,
            b,
            n,
        ).compared,
        tally_prefix(a, b, n).compared <= n,
    decreases n,
{
    if n > 0 {
        lemma_tally_prefix_bounds(a, b, (n - 1) as nat);
    }
}

/// A stance agrees fully with itself: every compared position is an agreement.
pub proof fn lemma_identical_stances_agree(a: Seq<i8>)
    ensures
        spec_stance_tally(a, a).agreements == spec_stance_tally(a, a).compared,
        spec_stance_tally(a, a).half_agreements == 0,
{
    lemma_tally_prefix_self(a, a.len());
}

proof fn lemma_tally_prefix_self(a: Seq<i8>, n: nat)
    requires
        n <= a.len(),
    ensures
        tally_prefix(a, a, n).agreements == tally_prefix(a, a, n).compared,
        tally_prefix(a, a, n).half_agreements == 0,
    decreases n,
{
    if n > 0 {
        lemma_tally_prefix_self(a, (n - 1) as nat);
    }
}

/// Opposite stances disagree completely: when every common position is mentioned by both
/// and differs, every position is compared and none agrees, even by half.
pub proof fn lemma_opposite_stances_disagree(a: Seq<i8>, b: Seq<i8>)
    requires
        forall|i: int| 0 <= i < common_len(a, b) ==> a[i] != 0 && b[i] != 0 && a[i] != b[i],
    ensures
        spec_stance_tally(a, b).agreements == 0,
        spec_stance_tally(a, b).half_agreements == 0,
        spec_stance_tally(a, b).compared == common_len(a, b),
{
    lemma_tally_prefix_opposite(a, b, common_len(a, b));
}

proof fn lemma_tally_prefix_opposite(a: Seq<i8>, b: Seq<i8>, n: nat)
    requires
        n <= common_len(a, b),
        forall|i: int| 0 <= i < common_len(a, b) ==> a[i] != 0 && b[i] != 0 && a[i] != b[i],
    ensures
        tally_prefix(a, b, n).agreements == 0,
        tally_prefix(a, b, n).half_agreements == 0,
        tally_prefix(a, b, n).compared == n,
    decreases n,
{
    if n > 0 {
        lemma_tally_prefix_opposite(a, b, (n - 1) as nat);
    }
}

/// A group of `n` stances has `n * (n - 1) / 2` pairs.
pub proof fn lemma_pair_count(vs: Seq<Seq<i8>>)
    ensures
        2 * pair_tallies(vs).len() == vs.len() * (vs.len() - 1),
{
    lemma_pair_count_upto(vs, vs.len());
}

proof fn lemma_pair_count_upto(vs: Seq<Seq<i8>>, rows: nat)
    requires
        rows <= vs.len(),
    ensures
        2 * pair_tallies_upto(vs, rows).len() == rows * (2 * vs.len() - rows - 1),
    decreases rows,
{
    if rows > 0 {
        lemma_pair_count_upto(vs, (rows - 1) as nat);
        let n = vs.len() as int;
        let r = rows as int;
        let p = pair_tallies_upto(vs, (rows - 1) as nat).len() as int;
        assert(tally_row(vs, r - 1).len() == n - r);
        assert(pair_tallies_upto(vs, rows).len() == p + (n - r));
        assert(2 * p == (r - 1) * (2 * n - (r - 1) - 1));
        assert(2 * p + 2 * (n - r) == r * (2 * n - r - 1)) by (nonlinear_arith)
            requires
                2 * p == (r - 1) * (2 * n - (r - 1) - 1),
        ;
        assert(2 * pair_tallies_upto(vs, rows).len() == r * (2 * n - r - 1));
    } else {
        assert(2 * pair_tallies_upto(vs, rows).len() == 0);
    }
}

/// A group of identical stances agrees fully: every pair tally has all its compared
/// positions in agreement, so the group's divergence is zero.
pub proof fn lemma_identical_group_agrees(vs: Seq<Seq<i8>>, k: int)
    requires
        forall|i: int| 0 <= i < vs.len() ==> #[trigger] vs[i] == vs[0],
        0 <= k < pair_tallies(vs).len(),
    ensures
        pair_tallies(vs)[k].agreements == pair_tallies(vs)[k].compared,
        pair_tallies(vs)[k].half_agreements == 0,
{
    lemma_identical_rows(vs, vs.len(), k);
}

proof fn lemma_identical_rows(vs: Seq<Seq<i8>>, rows: nat, k: int)
    requires
        rows <= vs.len(),
        forall|i: int| 0 <= i < vs.len() ==> #[trigger] vs[i] == vs[0],
        0 <= k < pair_tallies_upto(vs, rows).len(),
    ensures
        pair_tallies_upto(vs, rows)[k].agreements == pair_tallies_upto(vs, rows)[k].compared,
        pair_tallies_upto(vs, rows)[k].half_agreements == 0,
    decreases rows,
{
    lemma_identical_stances_agree(vs[0]);
    let prev = pair_tallies_upto(vs, (rows - 1) as nat);
    if k < prev.len() {
        lemma_identical_rows(vs, (rows - 1) as nat, k);
    } else {
        let r = rows - 1;
        let m = k - prev.len();
        assert(pair_tallies_upto(vs, rows)[k] == tally_row(vs, r)[m]);
        assert(vs[r] == vs[0]);
        assert(vs[r + 1 + m] == vs[0]);
    }
}

} // verus!
