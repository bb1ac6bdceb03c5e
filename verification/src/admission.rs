//! What a caller can test of an input before running a round on it.

use std::collections::BTreeSet;
use vstd::prelude::*;
use crate::auction::balances_fit;
use crate::laws::lemma_well_formed_round_fits;
use crate::participant::{distinct_ids, AuctionInput, Participant};
use crate::sums::{lemma_sum_take_next, sum_of};

verus! {

/// The weight that gives each participant the coin it came with.
pub open spec fn coin_held() -> spec_fn(Participant) -> int {
    |p: Participant| p.in_coin as int
}

/// The weight that gives each participant the energy it came with.
pub open spec fn energy_held() -> spec_fn(Participant) -> int {
    |p: Participant| p.in_energy as int
}

/// The ids are distinct, and all the coin of the round fits into 64 bits, as does all its
/// energy. No balance of such a round can outgrow 64 bits, whoever ends up holding what.
pub open spec fn well_formed(ps: Seq<Participant>) -> bool {
    &&& distinct_ids(ps)
    &&& sum_of(ps, coin_held()) <= u64::MAX
    &&& sum_of(ps, energy_held()) <= u64::MAX
}

/// Tells whether no two participants carry the same id.
pub fn has_distinct_ids(participants: &[Participant]) -> (ok: bool)
    ensures
        ok == distinct_ids(participants@),
{

    let mut seen: BTreeSet<u32> = BTreeSet::new();
    let mut i: usize = 0;
    while i < participants.len()
        invariant
            i <= participants.len(),
            forall|a: int, b: int| 0 <= a < b < i ==> participants@[a].id != participants@[b].id,
            forall|id: u32|
                seen@.contains(id) <==> exists|k: int|
                    0 <= k < i && (#[trigger] participants@[k]).id == id,
        decreases participants.len() - i,
    {
        let id = participants[i].id;
        let fresh = seen.insert(id);
        if !fresh {
            return false;
        }
        i += 1;
    }
    true
}

/// The coin and the energy that the participants came with, summed over all of them.
pub fn total_holdings(participants: &[Participant]) -> (totals: (u128, u128))
    ensures
        totals.0 == sum_of(participants@, coin_held()),
        totals.1 == sum_of(participants@, energy_held()),
{
    let mut coin: u128 = 0;
    let mut energy: u128 = 0;
    let mut i: usize = 0;
    while i < participants.len()
        invariant
            i <= participants.len(),
            coin == sum_of(participants@.take(i as int), coin_held()),
            energy == sum_of(participants@.take(i as int), energy_held()),
            coin <= i * u64::MAX,
            energy <= i * u64::MAX,
        decreases participants.len() - i,
    {
        proof {
            lemma_sum_take_next(participants@, i as int, coin_held());
            lemma_sum_take_next(participants@, i as int, energy_held());
        }
        coin = coin + participants[i].in_coin as u128;
        energy = energy + participants[i].in_energy as u128;
        i += 1;
    }
    assert(participants@.take(i as int) =~= participants@);
    (coin, energy)
}

impl AuctionInput {
    /// Tells whether the input is well formed: distinct ids, and totals of coin and of
    /// energy within 64 bits. A round can be run on every well-formed input.
    pub fn is_well_formed(&self) -> (ok: bool)
        ensures
            ok == well_formed(self.participants@),
            ok ==> distinct_ids(self.participants@) && balances_fit(self.participants@),
    {
        if !has_distinct_ids(self.participants.as_slice()) {
            return false;
        }
        let (coin, energy) = total_holdings(self.participants.as_slice());
        let ok = coin <= u64::MAX as u128 && energy <= u64::MAX as u128;
        proof {
            if ok {
                lemma_well_formed_round_fits(self.participants@);
            }
        }
        ok
    }
}

} // verus!
