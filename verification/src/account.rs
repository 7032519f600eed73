use vstd::prelude::*;

verus! {

/// A ledger address held as plain values: the kind of address
/// (account or contract) and its 32-byte payload, as two big-endian halves.
///
/// Addresses are ordered by kind, then by payload, which is the order in
/// which the host keeps the keys of its maps.
#[derive(Clone, Copy, PartialEq, Eq, Structural, Debug)]
pub struct AccountId {
    pub kind: u8,
    pub high: u128,
    pub low: u128,
}

/// Strict order of addresses: by kind, then by the payload read as a
/// big-endian number.
pub open spec fn precedes(a: AccountId, b: AccountId) -> bool {
    ||| a.kind < b.kind
    ||| (a.kind == b.kind && a.high < b.high)
    ||| (a.kind == b.kind && a.high == b.high && a.low < b.low)
}

impl AccountId {
    /// Whether `self` comes strictly before `other` in address order.
    pub fn precedes(&self, other: &AccountId) -> (r: bool)
        ensures
            r == precedes(*self, *other),
    {
        if self.kind != other.kind {
            self.kind < other.kind
        } else if self.high != other.high {
            self.high < other.high
        } else {
            self.low < other.low
        }
    }

    /// Whether two addresses are the same.
    pub fn same_as(&self, other: &AccountId) -> (r: bool)
        ensures
            r == (*self == *other),
    {
        self.kind == other.kind && self.high == other.high && self.low == other.low
    }
}

/// The address order is a strict total order.
pub proof fn lemma_precedes_total(a: AccountId, b: AccountId)
    ensures
        !(precedes(a, b) && precedes(b, a)),
        !precedes(a, a),
        a != b ==> (precedes(a, b) || precedes(b, a)),
{
}

} // verus!
