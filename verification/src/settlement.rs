//! From traded quantities to balances.

use vstd::prelude::*;
use crate::allocation::traded;
use crate::participant::Participant;

verus! {

/// The quantity that `entries` allocates to `id`: that of the first entry with this id, and
/// zero where there is none.
pub open spec fn allocated_quantity(entries: Seq<(u32, u64)>, id: u32) -> u64
    decreases entries.len(),
{
    if entries.len() == 0 {
        0
    } else if entries[0].0 == id {
        entries[0].1
    } else {
        allocated_quantity(entries.drop_first(), id)
    }
}

/// The coin that `p` holds after trading `quantity` units at `price`: a buyer pays, anyone
/// else is paid.
pub open spec fn settled_coin(p: Participant, quantity: u64, price: u64) -> int {
    if p.role == 0 {
        p.in_coin - price * quantity
    } else {
        p.in_coin + price * quantity
    }
}

/// The energy that `p` holds after trading `quantity` units: a buyer receives, anyone else
/// delivers.
pub open spec fn settled_energy(p: Participant, quantity: u64) -> int {
    if p.role == 0 {
        p.in_energy + quantity
    } else {
        p.in_energy - quantity
    }
}

/// Both balances of `p` after the trade are amounts: not negative, and within 64 bits.
pub open spec fn settles(p: Participant, quantity: u64, price: u64) -> bool {
    &&& 0 <= settled_coin(p, quantity, price) <= u64::MAX
    &&& 0 <= settled_energy(p, quantity) <= u64::MAX
}

/// The balances that each participant holds once `entries` are settled at `price`.
pub open spec fn settled_at(entries: Seq<(u32, u64)>, price: u64) -> spec_fn(Participant) -> (
    int,
    int,
) {
    |p: Participant|
        (
            settled_coin(p, allocated_quantity(entries, p.id), price),
            settled_energy(p, allocated_quantity(entries, p.id)),
        )
}

/// The balances that each participant came with.
pub open spec fn unchanged() -> spec_fn(Participant) -> (int, int) {
    |p: Participant| (p.in_coin as int, p.in_energy as int)
}

/// Looks up the quantity allocated to `id`.
pub fn allocated_to(entries: &[(u32, u64)], id: u32) -> (quantity: u64)
    ensures
        quantity == allocated_quantity(entries@, id),
{
    let mut i: usize = 0;
    assert(entries@.skip(0) =~= entries@);
    while i < entries.len()
        invariant
            i <= entries.len(),
            allocated_quantity(entries@, id) == allocated_quantity(entries@.skip(i as int), id),
        decreases entries.len() - i,
    {
        assert(entries@.skip(i as int).drop_first() =~= entries@.skip(i + 1));
        if entries[i].0 == id {
            return entries[i].1;
        }
        i += 1;
    }
    0
}

/// Settles the allocations at the clearing price: for each participant, in the order given,
/// its id with the coin and the energy it holds afterwards. A buyer pays the price for each
/// unit allocated to its id and receives the units; any other participant is paid and
/// delivers. Who is allocated nothing keeps its balances.
///
/// No balance may turn negative or grow beyond 64 bits. The allocations of price discovery
/// never take a balance below zero.
pub fn compute_outputs(
    participants: &[Participant],
    allocations: &[(u32, u64)],
    clearing_price: u64,
) -> (outputs: Vec<(u32, u64, u64)>)
    requires
        forall|k: int|
            0 <= k < participants@.len() ==> settles(
                #[trigger] participants@[k],
                allocated_quantity(allocations@, participants@[k].id),
                clearing_price,
            ),
    ensures
        outputs@.len() == participants@.len(),
        forall|k: int|
            0 <= k < participants@.len() ==> {
                let p = participants@[k];
                let quantity = allocated_quantity(allocations@, p.id);
                &&& (#[trigger] outputs@[k]).0 == p.id
                &&& outputs@[k].1 == settled_coin(p, quantity, clearing_price)
                &&& outputs@[k].2 == settled_energy(p, quantity)
            },
{
    let mut outputs: Vec<(u32, u64, u64)> = Vec::new();
    let mut i: usize = 0;
    while i < participants.len()
        invariant
            i <= participants.len(),
            outputs@.len() == i,
            forall|k: int|
                0 <= k < participants@.len() ==> settles(
                    #[trigger] participants@[k],
                    allocated_quantity(allocations@, participants@[k].id),
                    clearing_price,
                ),
            forall|k: int|
                0 <= k < i ==> {
                    let p = participants@[k];
                    let quantity = allocated_quantity(allocations@, p.id);
                    &&& (#[trigger] outputs@[k]).0 == p.id
                    &&& outputs@[k].1 == settled_coin(p, quantity, clearing_price)
                    &&& outputs@[k].2 == settled_energy(p, quantity)
                },
        decreases participants.len() - i,
    {
        let p = participants[i];
        let allocated = allocated_to(allocations, p.id);
        let (out_coin, out_energy) = if allocated > 0 {
            if p.role == 0 {
                (p.in_coin - clearing_price * allocated, p.in_energy + allocated)
            } else {
                (p.in_coin + clearing_price * allocated, p.in_energy - allocated)
            }
        } else {
            assert(clearing_price * allocated == 0) by (nonlinear_arith)
                requires
                    allocated == 0,
            ;
            (p.in_coin, p.in_energy)
        };
        outputs.push((p.id, out_coin, out_energy));
        i += 1;
    }
    outputs
}

/// No two entries carry the same id.
pub open spec fn distinct_keys(entries: Seq<(u32, u64)>) -> bool {
    forall|i: int, j: int| 0 <= i < j < entries.len() ==> entries[i].0 != entries[j].0
}

/// An id that no entry carries is allocated nothing.
pub proof fn lemma_allocated_absent(entries: Seq<(u32, u64)>, id: u32)
    requires
        forall|k: int| 0 <= k < entries.len() ==> (#[trigger] entries[k]).0 != id,
    ensures
        allocated_quantity(entries, id) == 0,
    decreases entries.len(),
{
    if entries.len() > 0 {
        lemma_allocated_absent(entries.drop_first(), id);
    }
}

/// Where ids are distinct, each entry's id is allocated that entry's quantity.
pub proof fn lemma_allocated_present(entries: Seq<(u32, u64)>, k: int)
    requires
        distinct_keys(entries),
        0 <= k < entries.len(),
    ensures
        allocated_quantity(entries, entries[k].0) == entries[k].1,
    decreases entries.len(),
{
    if k > 0 {
        let rest = entries.drop_first();
        lemma_allocated_present(rest, k - 1);
    }
}

/// A lookup in two lists, one behind the other, finds the id in the first list or else
/// goes on in the second.
pub proof fn lemma_allocated_concat(a: Seq<(u32, u64)>, b: Seq<(u32, u64)>, id: u32)
    ensures
        allocated_quantity(a + b, id) == if exists|k: int|
            0 <= k < a.len() && (#[trigger] a[k]).0 == id {
            allocated_quantity(a, id)
        } else {
            allocated_quantity(b, id)
        },
    decreases a.len(),
{
    if a.len() > 0 {
        assert((a + b).drop_first() =~= a.drop_first() + b);
        lemma_allocated_concat(a.drop_first(), b, id);
        if a[0].0 != id {
            if exists|k: int| 0 <= k < a.len() && (#[trigger] a[k]).0 == id {
                let k = choose|k: int| 0 <= k < a.len() && (#[trigger] a[k]).0 == id;
                assert(a.drop_first()[k - 1] == a[k]);
            }
        }
    }
}

/// Where ids are distinct, dropping the entries without a quantity changes no lookup.
pub proof fn lemma_allocated_traded(entries: Seq<(u32, u64)>, id: u32)
    requires
        distinct_keys(entries),
    ensures
        allocated_quantity(entries.filter(traded()), id) == allocated_quantity(entries, id),
    decreases entries.len(),
{
    if entries.len() > 0 {
        let first = entries[0];
        let rest = entries.drop_first();
        assert(entries =~= seq![first] + rest);
        rest.lemma_filter_prepend(first, traded());
        lemma_allocated_traded(rest, id);
        let kept = rest.filter(traded());
        if traded()(first) {
            assert((seq![first] + kept).drop_first() =~= kept);
        } else {
            if first.0 == id {
                lemma_allocated_absent(rest, id);
            }
        }
    }
}

/// Dropping entries keeps the ids of the others distinct.
pub proof fn lemma_distinct_keys_filter(
    entries: Seq<(u32, u64)>,
    keep: spec_fn((u32, u64)) -> bool,
)
    requires
        distinct_keys(entries),
    ensures
        distinct_keys(entries.filter(keep)),
    decreases entries.len(),
{
    reveal(Seq::filter);
    if entries.len() > 0 {
        let front = entries.drop_last();
        lemma_distinct_keys_filter(front, keep);
        let kept = front.filter(keep);
        if keep(entries.last()) {
            let all = kept.push(entries.last());
            assert forall|i: int, j: int| 0 <= i < j < all.len() implies all[i].0 != all[j].0 by {
                if j >= kept.len() {
                    front.lemma_filter_contains_rev(keep, kept[i]);
                }
            }
        }
    }
}

} // verus!
