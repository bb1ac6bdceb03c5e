//! The journal: balances before and after, row by row in the order of service.

use std::collections::BTreeMap;
use vstd::prelude::*;
use crate::participant::{distinct_ids, JournalView, Participant, PublicJournal};
use crate::settlement::unchanged;

verus! {

/// The balances on record after reading `outputs` front to back, by id. A later entry
/// replaces an earlier one with the same id.
pub open spec fn recorded(outputs: Seq<(u32, u64, u64)>) -> Map<u32, (u64, u64)>
    decreases outputs.len(),
{
    if outputs.len() == 0 {
        Map::empty()
    } else {
        recorded(outputs.drop_last()).insert(outputs.last().0, (outputs.last().1, outputs.last().2))
    }
}

/// The balances that `records` holds for each participant, by id, and the participant's own
/// where it holds none.
pub open spec fn held_after(records: Map<u32, (u64, u64)>) -> spec_fn(Participant) -> (int, int) {
    |p: Participant|
        if records.contains_key(p.id) {
            (records[p.id].0 as int, records[p.id].1 as int)
        } else {
            (p.in_coin as int, p.in_energy as int)
        }
}

/// One entry per participant, in order: its id with the balances it came with.
pub open spec fn unchanged_outputs(participants: Seq<Participant>) -> Seq<(u32, u64, u64)> {
    Seq::new(
        participants.len(),
        |k: int| (participants[k].id, participants[k].in_coin, participants[k].in_energy),
    )
}

/// `journal` has one row for each entry of `order`, in that order: the balances the
/// participant came with, and those that `after` gives it.
pub open spec fn lists(
    journal: JournalView,
    order: Seq<Participant>,
    after: spec_fn(Participant) -> (int, int),
) -> bool {
    &&& journal.in_coin.len() == order.len()
    &&& journal.in_energy.len() == order.len()
    &&& journal.out_coin.len() == order.len()
    &&& journal.out_energy.len() == order.len()
    &&& forall|i: int|
        0 <= i < order.len() ==> {
            &&& journal.in_coin[i] == (#[trigger] order[i]).in_coin
            &&& journal.in_energy[i] == order[i].in_energy
            &&& journal.out_coin[i] == after(order[i]).0
            &&& journal.out_energy[i] == after(order[i]).1
        }
}

/// Appends one row per participant of `list` to the journal.
fn append_rows(
    journal: PublicJournal,
    list: &[Participant],
    records: &BTreeMap<u32, (u64, u64)>,
    Ghost(above): Ghost<Seq<Participant>>,
) -> (extended: PublicJournal)
    requires
        lists(journal@, above, held_after(records@)),
    ensures
        lists(extended@, above + list@, held_after(records@)),
{

    let mut extended = journal;
    let mut i: usize = 0;
    while i < list.len()
        invariant
            i <= list.len(),
            lists(extended@, above + list@.take(i as int), held_after(records@)),
        decreases list.len() - i,
    {
        let p = list[i];
        let (out_coin, out_energy) = match records.get(&p.id) {
            Some(balances) => *balances,
            None => (p.in_coin, p.in_energy),
        };
        extended.in_coin.push(p.in_coin);
        extended.in_energy.push(p.in_energy);
        extended.out_coin.push(out_coin);
        extended.out_energy.push(out_energy);
        proof {
            let order = above + list@.take(i as int);
            let longer = above + list@.take(i + 1);
            assert(longer =~= order.push(p));
        }
        i += 1;
    }
    assert(list@.take(i as int) =~= list@);
    extended
}

/// Lays out the journal of a round: one row for each buyer in the order given, then one for
/// each seller. A row holds the balances the participant came with and the balances on
/// record for its id in `outputs`; a participant with no record keeps what it came with.
/// Where `outputs` names an id more than once, the last entry counts.
pub fn build_journal_with_outputs(
    _participants: &[Participant],
    buyers_sorted: &[Participant],
    sellers_sorted: &[Participant],
    outputs: &[(u32, u64, u64)],
) -> (journal: PublicJournal)
    ensures
        lists(journal@, buyers_sorted@ + sellers_sorted@, held_after(recorded(outputs@))),
{
    let mut records: BTreeMap<u32, (u64, u64)> = BTreeMap::new();
    let mut i: usize = 0;
    while i < outputs.len()
        invariant
            i <= outputs.len(),
            records@ == recorded(outputs@.take(i as int)),
        decreases outputs.len() - i,
    {
        let (id, coin, energy) = outputs[i];
        assert(outputs@.take(i + 1).drop_last() =~= outputs@.take(i as int));
        records.insert(id, (coin, energy));
        i += 1;
    }
    assert(outputs@.take(i as int) =~= outputs@);
    let journal = PublicJournal {
        in_coin: Vec::new(),
        in_energy: Vec::new(),
        out_coin: Vec::new(),
        out_energy: Vec::new(),
    };
    let journal = append_rows(journal, buyers_sorted, &records, Ghost(Seq::empty()));
    append_rows(journal, sellers_sorted, &records, Ghost(buyers_sorted@))
}

/// Lays out the journal of a round in which nothing trades: every balance on record is the
/// one that the participant of that id came with. Where the ids are distinct and the two
/// sides hold participants of the round, every row repeats the balances it starts with.
pub fn build_journal(
    participants: &[Participant],
    buyers: &[Participant],
    sellers: &[Participant],
) -> (journal: PublicJournal)
    ensures
        lists(
            journal@,
            buyers@ + sellers@,
            held_after(recorded(unchanged_outputs(participants@))),
        ),
        distinct_ids(participants@) && (forall|i: int|
            0 <= i < (buyers@ + sellers@).len() ==> participants@.contains(
                #[trigger] (buyers@ + sellers@)[i],
            )) ==> lists(journal@, buyers@ + sellers@, unchanged()),
{
    let mut outputs: Vec<(u32, u64, u64)> = Vec::new();
    let mut i: usize = 0;
    while i < participants.len()
        invariant
            i <= participants.len(),
            outputs@ == unchanged_outputs(participants@).take(i as int),
        decreases participants.len() - i,
    {
        let p = participants[i];
        outputs.push((p.id, p.in_coin, p.in_energy));
        i += 1;
    }
    assert(unchanged_outputs(participants@).take(i as int) =~= unchanged_outputs(participants@));
    let journal = build_journal_with_outputs(participants, buyers, sellers, outputs.as_slice());
    proof {
        let order = buyers@ + sellers@;
        let after = held_after(recorded(outputs@));
        if distinct_ids(participants@) && (forall|i: int|
            0 <= i < order.len() ==> participants@.contains(#[trigger] order[i])) {
            assert forall|i: int| 0 <= i < order.len() implies after(#[trigger] order[i])
                == unchanged()(order[i]) by {
                lemma_outputs_record(participants@, outputs@, unchanged(), order[i]);
            }
        }
    }
    journal
}

/// No two entries of `outputs` carry the same id.
pub open spec fn distinct_output_ids(outputs: Seq<(u32, u64, u64)>) -> bool {
    forall|i: int, j: int| 0 <= i < j < outputs.len() ==> outputs[i].0 != outputs[j].0
}

/// Where the ids are distinct, the record of each entry's id holds that entry's balances.
pub proof fn lemma_recorded_distinct(outputs: Seq<(u32, u64, u64)>)
    requires
        distinct_output_ids(outputs),
    ensures
        forall|k: int|
            0 <= k < outputs.len() ==> {
                &&& recorded(outputs).contains_key((#[trigger] outputs[k]).0)
                &&& recorded(outputs)[outputs[k].0] == (outputs[k].1, outputs[k].2)
            },
    decreases outputs.len(),
{
    if outputs.len() > 0 {
        let front = outputs.drop_last();
        lemma_recorded_distinct(front);
        assert forall|k: int| 0 <= k < outputs.len() implies {
            &&& recorded(outputs).contains_key((#[trigger] outputs[k]).0)
            &&& recorded(outputs)[outputs[k].0] == (outputs[k].1, outputs[k].2)
        } by {
            if k < front.len() {
                assert(front[k] == outputs[k]);
            }
        }
    }
}

/// Where one entry per participant holds that participant's id and balances, and the ids are
/// distinct, the record of every participant of the round holds its own balances.
pub proof fn lemma_outputs_record(
    ps: Seq<Participant>,
    outputs: Seq<(u32, u64, u64)>,
    after: spec_fn(Participant) -> (int, int),
    x: Participant,
)
    requires
        distinct_ids(ps),
        outputs.len() == ps.len(),
        forall|k: int|
            0 <= k < ps.len() ==> {
                &&& (#[trigger] outputs[k]).0 == ps[k].id
                &&& outputs[k].1 == after(ps[k]).0
                &&& outputs[k].2 == after(ps[k]).1
            },
        ps.contains(x),
    ensures
        held_after(recorded(outputs))(x) == after(x),
{
    lemma_recorded_distinct(outputs);
    let k = choose|k: int| 0 <= k < ps.len() && ps[k] == x;
    assert(outputs[k].0 == x.id);
}

} // verus!
