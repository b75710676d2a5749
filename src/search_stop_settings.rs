use vstd::prelude::*;
use crate::id_types::ExchangeOperationType;

verus! {

/// The depth of the walk ending at the last element of `chain`: the number
/// of operations between the root balance and that element.
pub open spec fn level_of(chain: Seq<ExchangeOperationType>) -> int {
    chain.len() as int / 2
}

/// Number of `Transfer` operations in `s`.
pub open spec fn transfer_count(s: Seq<ExchangeOperationType>) -> int
    decreases s.len(),
{
    if s.len() == 0 {
        0
    } else {
        transfer_count(s.drop_last()) + if s.last() is Transfer {
            1int
        } else {
            0int
        }
    }
}

/// The last element of `chain` is equal or inverse to an earlier element
/// other than the root.
pub open spec fn has_cycle_at_end(chain: Seq<ExchangeOperationType>) -> bool {
    exists|i: int|
        #![trigger chain[i]]
        1 <= i < chain.len() - 1 && (chain[i] == chain.last()
            || ExchangeOperationType::spec_is_inverse(chain.last(), chain[i]))
}

/// Bounds that stop the expansion of a walk.
#[derive(Debug, Clone, Copy, PartialEq, Eq, Structural)]
pub struct SearchStopSettings {
    /// A node at this depth or deeper ends its walk.
    pub max_level: u8,
    /// Stop at a node equal or inverse to one of its non-root ancestors.
    pub ignore_cycles: bool,
    /// Stop when a walk holds more transfers than this.
    pub max_transfers: i32,
}

impl SearchStopSettings {
    /// Whether the walk `chain`, ending at the node under test, stops there.
    pub open spec fn spec_is_stop(self, chain: Seq<ExchangeOperationType>) -> bool {
        ||| level_of(chain) >= self.max_level
        ||| (self.ignore_cycles && has_cycle_at_end(chain))
        ||| transfer_count(chain) > self.max_transfers
    }

    pub fn new_default() -> (r: Self)
        ensures
            r == (SearchStopSettings { max_level: 4, ignore_cycles: true, max_transfers: 2 }),
    {
        SearchStopSettings { max_level: 4, ignore_cycles: true, max_transfers: 2 }
    }

    pub fn new(max_level: u8, ignore_cycles: bool, max_transfers: i32) -> (r: Self)
        ensures
            r == (SearchStopSettings { max_level, ignore_cycles, max_transfers }),
    {
        SearchStopSettings { max_level, ignore_cycles, max_transfers }
    }

    /// `chain` is the walk from the root to the node under test, inclusive.
    pub fn is_skip_search_node(&self, chain: &Vec<ExchangeOperationType>) -> (r: bool)
        requires
            chain@.len() >= 1,
            chain@.len() <= i32::MAX,
        ensures
            r == self.spec_is_stop(chain@),
    {
        if chain.len() / 2 >= self.max_level as usize {
            return true;
        }
        if self.ignore_cycles && node_has_cycles(chain) {
            return true;
        }
        node_transfer_count(chain) > self.max_transfers
    }
}

fn node_has_cycles(chain: &Vec<ExchangeOperationType>) -> (r: bool)
    requires
        chain@.len() >= 1,
    ensures
        r == has_cycle_at_end(chain@),
{
    let last = chain.len() - 1;
    let a = chain[last];
    let mut i: usize = 1;
    while i < last
        invariant
            last == chain@.len() - 1,
            a == chain@.last(),
            1 <= i,
            forall|j: int|
                1 <= j < i && j < last ==> !(chain@[j] == a
                    || ExchangeOperationType::spec_is_inverse(a, chain@[j])),
        decreases last - i,
    {
        let b = chain[i];
        if a == b || ExchangeOperationType::is_inverse(&a, &b) {
            return true;
        }
        i += 1;
    }
    false
}

fn node_transfer_count(chain: &Vec<ExchangeOperationType>) -> (r: i32)
    requires
        chain@.len() <= i32::MAX,
    ensures
        r == transfer_count(chain@),
{
    let mut count: i32 = 0;
    let mut i: usize = 0;
    while i < chain.len()
        invariant
            i <= chain@.len() <= i32::MAX,
            count == transfer_count(chain@.take(i as int)),
            0 <= count <= i,
        decreases chain@.len() - i,
    {
        assert(chain@.take(i as int + 1).drop_last() == chain@.take(i as int));
        if let ExchangeOperationType::Transfer(_) = chain[i] {
            count += 1;
        }
        i += 1;
    }
    assert(chain@.take(chain@.len() as int) == chain@);
    count
}

} // verus!
