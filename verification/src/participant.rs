//! The records an auction round works on.

use vstd::prelude::*;

verus! {

/// One bidder of a round: a limit price, a wanted quantity and the two balances held.
///
/// `role` is 0 for a buyer and 1 for a seller. Any other value takes part on neither side.
#[derive(Clone, Copy, Debug, PartialEq, Eq, Structural)]
pub struct Participant {
    pub id: u32,
    pub role: u32,
    pub price: u64,
    pub quantity: u64,
    pub in_coin: u64,
    pub in_energy: u64,
}

/// The two sides of the market.
#[derive(Clone, Copy, Debug, PartialEq, Eq, Structural)]
pub enum Side {
    Buy,
    Sell,
}

impl Side {
    /// The value of `Participant::role` that places a participant on this side.
    pub open spec fn role(self) -> u32 {
        match self {
            Side::Buy => 0u32,
            Side::Sell => 1u32,
        }
    }

    /// `p` takes part on this side.
    pub open spec fn admits(self, p: Participant) -> bool {
        p.role == self.role()
    }

    /// `a` is served no later than `b` on this side: buyers by falling price, sellers by
    /// rising price, equal prices by rising id.
    pub open spec fn precedes(self, a: Participant, b: Participant) -> bool {
        match self {
            Side::Buy => a.price > b.price || (a.price == b.price && a.id <= b.id),
            Side::Sell => a.price < b.price || (a.price == b.price && a.id <= b.id),
        }
    }

    /// `p` accepts to trade at `price`: a buyer whose limit is not below it, a seller whose
    /// limit is not above it.
    pub open spec fn qualifies(self, p: Participant, price: u64) -> bool {
        match self {
            Side::Buy => p.price >= price,
            Side::Sell => p.price <= price,
        }
    }

    /// The most that `p` can trade at `price`: a buyer what the coin held pays for, a seller
    /// the energy held, and neither more than the quantity wanted.
    pub open spec fn cap(self, p: Participant, price: u64) -> int {
        match self {
            Side::Buy => if p.quantity <= p.in_coin / price {
                p.quantity as int
            } else {
                p.in_coin as int / price as int
            },
            Side::Sell => if p.quantity <= p.in_energy {
                p.quantity as int
            } else {
                p.in_energy as int
            },
        }
    }

    /// Decides `admits`.
    pub fn takes(self, p: &Participant) -> (b: bool)
        ensures
            b == self.admits(*p),
    {
        match self {
            Side::Buy => p.role == 0,
            Side::Sell => p.role == 1,
        }
    }

    /// Decides `precedes`.
    pub fn serves_first(self, a: &Participant, b: &Participant) -> (r: bool)
        ensures
            r == self.precedes(*a, *b),
    {
        match self {
            Side::Buy => a.price > b.price || (a.price == b.price && a.id <= b.id),
            Side::Sell => a.price < b.price || (a.price == b.price && a.id <= b.id),
        }
    }

    /// Decides `qualifies`.
    pub fn accepts(self, p: &Participant, price: u64) -> (b: bool)
        ensures
            b == self.qualifies(*p, price),
    {
        match self {
            Side::Buy => p.price >= price,
            Side::Sell => p.price <= price,
        }
    }

    /// Computes `cap`. For a buyer the price must not be zero.
    pub fn cap_of(self, p: &Participant, price: u64) -> (c: u64)
        requires
            self == Side::Buy ==> price > 0,
        ensures
            c == self.cap(*p, price),
            c <= p.quantity,
    {
        match self {
            Side::Buy => {
                let afford: u64 = p.in_coin / price;
                if p.quantity <= afford {
                    p.quantity
                } else {
                    afford
                }
            },
            Side::Sell => {
                if p.quantity <= p.in_energy {
                    p.quantity
                } else {
                    p.in_energy
                }
            },
        }
    }
}

/// No two entries of `ps` carry the same id.
pub open spec fn distinct_ids(ps: Seq<Participant>) -> bool {
    forall|i: int, j: int| 0 <= i < j < ps.len() ==> ps[i].id != ps[j].id
}

/// What a round is run on: the participants, in the order in which they were handed in.
#[derive(Clone, Debug, PartialEq, Eq)]
pub struct AuctionInput {
    pub participants: Vec<Participant>,
}

/// A named round as it is kept on file.
#[derive(Clone, Debug, PartialEq, Eq)]
pub struct AuctionScenario {
    pub scenario_name: String,
    pub description: String,
    pub participants: Vec<Participant>,
}

impl AuctionScenario {
    /// The input of the round that this scenario describes: its participants, in order, and
    /// nothing else.
    pub fn input(&self) -> (input: AuctionInput)
        ensures
            input.participants@ == self.participants@,
    {
        let mut participants: Vec<Participant> = Vec::new();
        let mut i: usize = 0;
        while i < self.participants.len()
            invariant
                i <= self.participants.len(),
                participants@ == self.participants@.take(i as int),
            decreases self.participants.len() - i,
        {
            participants.push(self.participants[i]);
            i += 1;
        }
        AuctionInput { participants }
    }
}

/// The balances of a round before and after it, four columns of one length. Row `i` of each
/// column belongs to the same participant: all buyers first, by falling price, then all
/// sellers, by rising price, equal prices by rising id.
#[derive(Clone, Debug, PartialEq, Eq)]
pub struct PublicJournal {
    pub in_coin: Vec<u64>,
    pub in_energy: Vec<u64>,
    pub out_coin: Vec<u64>,
    pub out_energy: Vec<u64>,
}

/// The four columns of a journal as sequences.
pub struct JournalView {
    pub in_coin: Seq<u64>,
    pub in_energy: Seq<u64>,
    pub out_coin: Seq<u64>,
    pub out_energy: Seq<u64>,
}

impl View for PublicJournal {
    type V = JournalView;

    open spec fn view(&self) -> JournalView {
        JournalView {
            in_coin: self.in_coin@,
            in_energy: self.in_energy@,
            out_coin: self.out_coin@,
            out_energy: self.out_energy@,
        }
    }
}

} // verus!
