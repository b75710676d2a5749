use vstd::prelude::*;
use crate::id_types::{CurrencyID, CurrencyIDPair, ExchangeID};

verus! {

/// A market of one exchange, keyed by its two currencies in increasing id
/// order, so that a pair and its inverse share a key.
#[derive(Debug, Clone, Copy, PartialEq, Eq, Structural, Hash)]
pub struct ExchangeMarketKey {
    pub exchange: ExchangeID,
    pub sorted_currency_pair_less: CurrencyID,
    pub sorted_currency_pair_greater: CurrencyID,
}

impl ExchangeMarketKey {
    pub fn create(exchange: ExchangeID, c1: CurrencyID, c2: CurrencyID) -> (r: Self)
        requires
            c1 != c2,
        ensures
            r.exchange == exchange,
            r.sorted_currency_pair_less.0 == if c1.0 < c2.0 { c1.0 } else { c2.0 },
            r.sorted_currency_pair_greater.0 == if c1.0 < c2.0 { c2.0 } else { c1.0 },
    {
        if c1.0 < c2.0 {
            ExchangeMarketKey { exchange, sorted_currency_pair_less: c1, sorted_currency_pair_greater: c2 }
        } else {
            ExchangeMarketKey { exchange, sorted_currency_pair_less: c2, sorted_currency_pair_greater: c1 }
        }
    }

    pub fn create_from_pair(exchange: ExchangeID, pair: CurrencyIDPair) -> (r: Self)
        requires
            pair.first != pair.second,
        ensures
            r.exchange == exchange,
            r.sorted_currency_pair_less.0 == if pair.first.0 < pair.second.0 { pair.first.0 } else { pair.second.0 },
            r.sorted_currency_pair_greater.0 == if pair.first.0 < pair.second.0 { pair.second.0 } else { pair.first.0 },
    {
        Self::create(exchange, pair.first, pair.second)
    }
}

} // verus!
