use vstd::prelude::*;

verus! {

/// The two sides of the book.
#[derive(Debug, Clone, Copy, PartialEq, Eq, Structural, Hash)]
pub enum Side {
    Ask,
    Bid,
}

/// Where an order is in its life.
#[derive(Debug, Clone, Copy, PartialEq, Eq, Structural, Hash)]
pub enum Status {
    Created,
    Pending,
    Executed,
    Cancelled,
}

impl Side {
    /// The signed coefficient of a side: -1 for an ask, +1 for a bid.
    pub open spec fn sign(self) -> int {
        match self {
            Side::Ask => -1,
            Side::Bid => 1,
        }
    }

    /// The other side.
    pub open spec fn flip(self) -> Side {
        match self {
            Side::Ask => Side::Bid,
            Side::Bid => Side::Ask,
        }
    }

    /// The signed coefficient, as a machine integer.
    pub fn coefficient(self) -> (r: i8)
        ensures
            r as int == self.sign(),
    {
        match self {
            Side::Ask => -1,
            Side::Bid => 1,
        }
    }

    /// The opposite side.
    pub fn opposite(self) -> (r: Side)
        ensures
            r == self.flip(),
            r.sign() == -self.sign(),
    {
        match self {
            Side::Ask => Side::Bid,
            Side::Bid => Side::Ask,
        }
    }
}

impl core::ops::Neg for Side {
    type Output = Side;

    fn neg(self) -> (r: Side)
        ensures
            r == self.flip(),
    {
        self.opposite()
    }
}

impl vstd::std_specs::ops::NegSpecImpl for Side {
    open spec fn obeys_neg_spec() -> bool {
        true
    }

    open spec fn neg_req(self) -> bool {
        true
    }

    open spec fn neg_spec(self) -> Side {
        self.flip()
    }
}

} // verus!
