use vstd::prelude::*;
use crate::id_types::{CurrencyID, CurrencyIDPair};

verus! {

/// Every pair of two distinct currencies below `max_currencies`, once each.
pub fn exchange_domain_currency_pairs_generation_exaustive(max_currencies: u16) -> (r: Vec<CurrencyIDPair>)
    ensures
        r@.no_duplicates(),
        forall|p: CurrencyIDPair| #[trigger]
            r@.contains(p) == (p.first.0 < max_currencies && p.second.0 < max_currencies && p.first
                != p.second),
{
    let mut r: Vec<CurrencyIDPair> = Vec::new();
    let mut c1: u16 = 0;
    while c1 < max_currencies
        invariant
            c1 <= max_currencies,
            r@.no_duplicates(),
            forall|i: int| 0 <= i < r@.len() ==> (#[trigger] r@[i]).first.0 < c1,
            forall|p: CurrencyIDPair| #[trigger]
                r@.contains(p) == (p.first.0 < c1 && p.second.0 < max_currencies && p.first != p.second),
        decreases max_currencies - c1,
    {
        let mut c2: u16 = 0;
        let ghost r0 = r@;
        while c2 < max_currencies
            invariant
                c1 < max_currencies,
                c2 <= max_currencies,
                r@.no_duplicates(),
                r@.len() >= r0.len(),
                forall|i: int| 0 <= i < r0.len() ==> r@[i] == r0[i],
                forall|i: int| 0 <= i < r0.len() ==> (#[trigger] r0[i]).first.0 < c1,
                forall|i: int| r0.len() <= i < r@.len() ==> (#[trigger] r@[i]).first.0 == c1 && r@[i].second.0 < c2,
                forall|p: CurrencyIDPair| #[trigger]
                    r@.contains(p) == (r0.contains(p) || (p.first.0 == c1 && p.second.0 < c2 && p.first != p.second)),
                forall|p: CurrencyIDPair| #[trigger]
                    r0.contains(p) == (p.first.0 < c1 && p.second.0 < max_currencies && p.first != p.second),
            decreases max_currencies - c2,
        {
            if c1 != c2 {
                let p = CurrencyIDPair { first: CurrencyID(c1), second: CurrencyID(c2) };
                let ghost before = r@;
                proof {
                    if before.contains(p) {
                        let k = choose|k: int| 0 <= k < before.len() && before[k] == p;
                        if k < r0.len() {
                            assert(r0[k] == before[k]);
                        }
                    }
                }
                r.push(p);
                proof {
                    assert forall|q: CurrencyIDPair| #[trigger] r@.contains(q) == (before.contains(q) || q == p) by {
                        if before.contains(q) {
                            let k = choose|k: int| 0 <= k < before.len() && before[k] == q;
                            assert(r@[k] == q);
                        }
                        if q == p {
                            assert(r@[before.len() as int] == q);
                        }
                        if r@.contains(q) {
                            let k = choose|k: int| 0 <= k < r@.len() && r@[k] == q;
                            if k < before.len() {
                                assert(before[k] == q);
                            }
                        }
                    }
                }
            }
            c2 += 1;
        }
        proof {
            assert forall|i: int| 0 <= i < r@.len() implies (#[trigger] r@[i]).first.0 < c1 + 1 by {
                if i < r0.len() {
                    assert(r@[i] == r0[i]);
                }
            }
        }
        c1 += 1;
    }
    r
}

/// Every pair of a currency of the lower half below `max_currencies` with a
/// currency of the upper half, once each.
pub fn exchange_domain_currency_pairs_generation_representative(max_currencies: u16) -> (r: Vec<
    CurrencyIDPair,
>)
    ensures
        r@.no_duplicates(),
        forall|p: CurrencyIDPair| #[trigger]
            r@.contains(p) == (p.first.0 < max_currencies / 2 && max_currencies / 2 <= p.second.0
                < max_currencies),
{
    let half = max_currencies / 2;
    let mut r: Vec<CurrencyIDPair> = Vec::new();
    let mut c1: u16 = 0;
    while c1 < half
        invariant
            half == max_currencies / 2,
            c1 <= half,
            r@.no_duplicates(),
            forall|i: int| 0 <= i < r@.len() ==> (#[trigger] r@[i]).first.0 < c1,
            forall|p: CurrencyIDPair| #[trigger]
                r@.contains(p) == (p.first.0 < c1 && half <= p.second.0 < max_currencies),
        decreases half - c1,
    {
        let mut c2: u16 = half;
        let ghost r0 = r@;
        while c2 < max_currencies
            invariant
                half == max_currencies / 2,
                c1 < half,
                half <= c2 <= max_currencies,
                r@.no_duplicates(),
                r@.len() >= r0.len(),
                forall|i: int| 0 <= i < r0.len() ==> r@[i] == r0[i],
                forall|i: int| 0 <= i < r0.len() ==> (#[trigger] r0[i]).first.0 < c1,
                forall|i: int| r0.len() <= i < r@.len() ==> (#[trigger] r@[i]).first.0 == c1 && r@[i].second.0 < c2,
                forall|p: CurrencyIDPair| #[trigger]
                    r@.contains(p) == (r0.contains(p) || (p.first.0 == c1 && half <= p.second.0 < c2)),
                forall|p: CurrencyIDPair| #[trigger]
                    r0.contains(p) == (p.first.0 < c1 && half <= p.second.0 < max_currencies),
            decreases max_currencies - c2,
        {
            let p = CurrencyIDPair { first: CurrencyID(c1), second: CurrencyID(c2) };
            let ghost before = r@;
            proof {
                if before.contains(p) {
                    let k = choose|k: int| 0 <= k < before.len() && before[k] == p;
                    if k < r0.len() {
                        assert(r0[k] == before[k]);
                    }
                }
            }
            r.push(p);
            proof {
                assert forall|q: CurrencyIDPair| #[trigger] r@.contains(q) == (before.contains(q) || q == p) by {
                    if before.contains(q) {
                        let k = choose|k: int| 0 <= k < before.len() && before[k] == q;
                        assert(r@[k] == q);
                    }
                    if q == p {
                        assert(r@[before.len() as int] == q);
                    }
                    if r@.contains(q) {
                        let k = choose|k: int| 0 <= k < r@.len() && r@[k] == q;
                        if k < before.len() {
                            assert(before[k] == q);
                        }
                    }
                }
            }
            c2 += 1;
        }
        proof {
            assert forall|i: int| 0 <= i < r@.len() implies (#[trigger] r@[i]).first.0 < c1 + 1 by {
                if i < r0.len() {
                    assert(r@[i] == r0[i]);
                }
            }
        }
        c1 += 1;
    }
    r
}

} // verus!
