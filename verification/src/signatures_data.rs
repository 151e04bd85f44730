//! One entry of an address's signature history, and the order of entries.
use crate::signature::{
    first_difference_decides, signature_order_is_total, signature_order_is_transitive, Signature,
};
use solana_sdk::transaction::TransactionError;
use std::cmp::Ordering;
use vstd::prelude::*;
use vstd::std_specs::cmp::PartialOrdSpec;

verus! {

/// A transaction that touched an address.
#[derive(Debug, Clone, PartialEq, Eq)]
pub struct SignaturesData {
    pub signature: Signature,
    pub slot: u64,
    pub block_time: Option<i64>,
    pub err: Option<TransactionError>,
}

/// No time comes before any time; two times compare as numbers.
pub open spec fn time_precedes(a: Option<i64>, b: Option<i64>) -> bool {
    match (a, b) {
        (None, Some(_)) => true,
        (Some(s), Some(t)) => s < t,
        (_, None) => false,
    }
}

impl SignaturesData {
    /// What the order of entries looks at. Entries with one key count as the
    /// same entry, whatever `err` says.
    pub open spec fn key(self) -> (u64, Option<i64>, Signature) {
        (self.slot, self.block_time, self.signature)
    }

    /// The order of entries: by slot, then by block time, then by signature.
    pub open spec fn precedes(self, other: SignaturesData) -> bool {
        ||| self.slot < other.slot
        ||| self.slot == other.slot && time_precedes(self.block_time, other.block_time)
        ||| self.slot == other.slot && self.block_time == other.block_time
            && self.signature.precedes(other.signature)
    }

    /// Compares two entries by slot, then by block time, then by signature.
    pub fn cmp(&self, other: &SignaturesData) -> (order: Ordering)
        ensures
            match order {
                Ordering::Less => self.precedes(*other),
                Ordering::Equal => self.key() == other.key(),
                Ordering::Greater => other.precedes(*self),
            },
            self.slot < other.slot ==> order == Ordering::Less,
            self.slot > other.slot ==> order == Ordering::Greater,
            self.slot == other.slot ==> match (self.block_time, other.block_time) {
                (None, Some(_)) => order == Ordering::Less,
                (Some(_), None) => order == Ordering::Greater,
                (Some(mine), Some(theirs)) => {
                    &&& mine < theirs ==> order == Ordering::Less
                    &&& mine > theirs ==> order == Ordering::Greater
                },
                (None, None) => true,
            },
            order == Ordering::Equal <==> {
                &&& self.slot == other.slot
                &&& self.block_time == other.block_time
                &&& self.signature.bytes@ == other.signature.bytes@
            },
            forall|i: int|
                #![trigger self.signature.bytes@[i], other.signature.bytes@[i]]
                self.slot == other.slot && self.block_time == other.block_time && 0 <= i < 64
                    && self.signature.bytes@[i] < other.signature.bytes@[i] && (forall|j: int|
                    0 <= j < i ==> #[trigger] self.signature.bytes@[j]
                        == other.signature.bytes@[j]) ==> order == Ordering::Less,
            forall|i: int|
                #![trigger self.signature.bytes@[i], other.signature.bytes@[i]]
                self.slot == other.slot && self.block_time == other.block_time && 0 <= i < 64
                    && self.signature.bytes@[i] > other.signature.bytes@[i] && (forall|j: int|
                    0 <= j < i ==> #[trigger] self.signature.bytes@[j]
                        == other.signature.bytes@[j]) ==> order == Ordering::Greater,
    {
        if self.slot < other.slot {
            return Ordering::Less;
        }
        if other.slot < self.slot {
            return Ordering::Greater;
        }
        match (self.block_time, other.block_time) {
            (None, Some(_)) => Ordering::Less,
            (Some(_), None) => Ordering::Greater,
            (None, None) => self.signature.cmp(&other.signature),
            (Some(mine), Some(theirs)) => {
                if mine < theirs {
                    Ordering::Less
                } else if theirs < mine {
                    Ordering::Greater
                } else {
                    self.signature.cmp(&other.signature)
                }
            },
        }
    }

    /// Whether this entry comes before the other.
    pub(crate) fn comes_before(&self, other: &SignaturesData) -> (before: bool)
        ensures
            before == self.precedes(*other),
            self.slot < other.slot ==> before,
            self.slot > other.slot ==> !before,
    {
        proof {
            entry_order_is_total(*self, *other);
        }
        match self.cmp(other) {
            Ordering::Less => true,
            Ordering::Equal => false,
            Ordering::Greater => false,
        }
    }
}

impl PartialOrd for SignaturesData {
    fn partial_cmp(&self, other: &SignaturesData) -> (order: Option<Ordering>) {
        proof {
            entry_order_is_total(*self, *other);
        }
        Some(self.cmp(other))
    }
}

impl vstd::std_specs::cmp::PartialOrdSpecImpl for SignaturesData {
    open spec fn obeys_partial_cmp_spec() -> bool {
        true
    }

    open spec fn partial_cmp_spec(&self, other: &SignaturesData) -> Option<Ordering> {
        if self.precedes(*other) {
            Some(Ordering::Less)
        } else if self.key() == other.key() {
            Some(Ordering::Equal)
        } else {
            Some(Ordering::Greater)
        }
    }
}

/// The entry of the earlier slot comes first, whatever the block times say.
pub proof fn earlier_slot_comes_first(a: SignaturesData, b: SignaturesData)
    requires
        a.slot < b.slot,
    ensures
        a.precedes(b),
        !b.precedes(a),
{
}

/// Within a slot an entry without a block time comes before one that has a
/// time, and an earlier time before a later one, whatever the signatures say.
pub proof fn earlier_time_comes_first(a: SignaturesData, b: SignaturesData)
    requires
        a.slot == b.slot,
        b.block_time is Some,
        a.block_time is None || a.block_time->0 < b.block_time->0,
    ensures
        a.precedes(b),
        !b.precedes(a),
{
}

/// At one time of one slot the entry with the smaller byte, where the
/// signatures first differ, comes first.
pub proof fn smaller_signature_comes_first(a: SignaturesData, b: SignaturesData, i: int)
    requires
        a.slot == b.slot,
        a.block_time == b.block_time,
        0 <= i < 64,
        a.signature.bytes@[i] < b.signature.bytes@[i],
        forall|j: int| 0 <= j < i ==> #[trigger] a.signature.bytes@[j] == b.signature.bytes@[j],
    ensures
        a.precedes(b),
        !b.precedes(a),
{
    first_difference_decides(a.signature, b.signature, i);
}

/// Entries have one key exactly if slot, block time and signature are the
/// same. Then neither comes first, whatever became of the transactions.
pub proof fn same_transaction_has_one_key(a: SignaturesData, b: SignaturesData)
    ensures
        a.key() == b.key() <==> {
            &&& a.slot == b.slot
            &&& a.block_time == b.block_time
            &&& a.signature.bytes@ == b.signature.bytes@
        },
        a.key() == b.key() <==> !a.precedes(b) && !b.precedes(a),
{
    entry_order_is_total(a, b);
    if a.signature.bytes@ == b.signature.bytes@ {
        assert(a.signature.bytes =~= b.signature.bytes);
    }
}

/// Comparing by operators gives the same order.
pub proof fn operators_follow_the_order(a: SignaturesData, b: SignaturesData)
    ensures
        a.partial_cmp_spec(&b) == Some(Ordering::Less) <==> a.precedes(b),
        a.partial_cmp_spec(&b) == Some(Ordering::Equal) <==> a.key() == b.key(),
        a.partial_cmp_spec(&b) == Some(Ordering::Greater) <==> b.precedes(a),
{
    entry_order_is_total(a, b);
}

/// Of two entries, exactly one of three holds: the first comes before the
/// second, they have one key, or the second comes before the first.
pub proof fn entry_order_is_total(a: SignaturesData, b: SignaturesData)
    ensures
        a.precedes(b) || a.key() == b.key() || b.precedes(a),
        !(a.precedes(b) && b.precedes(a)),
        a.key() == b.key() ==> !a.precedes(b) && !b.precedes(a),
{
    signature_order_is_total(a.signature, b.signature);
}

/// An entry before a second one is before each that comes after the second.
pub proof fn entry_order_is_transitive(a: SignaturesData, b: SignaturesData, c: SignaturesData)
    requires
        a.precedes(b),
        b.precedes(c),
    ensures
        a.precedes(c),
{
    if a.slot == b.slot && b.slot == c.slot && a.block_time == b.block_time && b.block_time
        == c.block_time {
        signature_order_is_transitive(a.signature, b.signature, c.signature);
    }
}

} // verus!
