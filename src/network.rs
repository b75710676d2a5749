use vstd::prelude::*;
use crate::seq_facts::lemma_push_contains;
use crate::id_types::{
    BalanceExchangeCurrencyInfo, CurrencyID, CurrencyIDPair, ExchangeID, ExchangeIDCurrencyIDPair,
    ExchangeOperationType,
};
use crate::nodes::{
    execute_and_connect_transaction, execute_and_connect_transfer, tr_balance, tr_op, tx_balance,
    tx_op, BalanceNode,
};
use crate::search_stop_settings::{level_of, SearchStopSettings};
use crate::arbitrage_paths::{
    alternates, class_of, classified_matches, lemma_paths_view_push, loops_view, merge_reversed_paths,
    merged, paths_view, project_pairs, ArbitragePath, ArbitragePath11Nodes, ArbitragePath7Nodes,
    ClassifiedPath, SingleExchangeTransactionOnly3PairsPath, SingleExchangeTransactionOnly5PairsPath,
    Target, TargetKnownPaths,
};
use vstd::layout::size_of;
use crate::walks::lemma_target_paths_distinct;

verus! {

/// The values stored under key `k` in an index of (key, values) entries: those
/// of the last entry with that key, or none.
pub open spec fn index_lookup<K, V>(s: Seq<(K, Vec<V>)>, k: K) -> Seq<V>
    decreases s.len(),
{
    if s.len() == 0 {
        Seq::empty()
    } else if s.last().0 == k {
        s.last().1@
    } else {
        index_lookup(s.drop_last(), k)
    }
}

proof fn lemma_index_lookup_from<K, V>(s: Seq<(K, Vec<V>)>, k: K, j: int)
    requires
        0 <= j < index_lookup(s, k).len(),
    ensures
        exists|i: int| 0 <= i < s.len() && s[i].0 == k && s[i].1@ == index_lookup(s, k),
    decreases s.len(),
{
    if s.last().0 == k {
        assert(s[s.len() - 1].0 == k);
    } else {
        lemma_index_lookup_from(s.drop_last(), k, j);
        let i = choose|i: int| 0 <= i < s.drop_last().len() && s.drop_last()[i].0 == k
            && s.drop_last()[i].1@ == index_lookup(s.drop_last(), k);
        assert(s[i] == s.drop_last()[i]);
    }
}

fn index_find<V>(s: &Vec<(ExchangeIDCurrencyIDPair, Vec<V>)>, k: ExchangeIDCurrencyIDPair) -> (r: Option<usize>)
    ensures
        match r {
            Some(i) => i < s@.len() && s@[i as int].1@ == index_lookup(s@, k),
            None => index_lookup(s@, k).len() == 0,
        },
{
    let mut i = s.len();
    assert(s@.take(i as int) == s@);
    while i > 0
        invariant
            i <= s@.len(),
            index_lookup(s@, k) == index_lookup(s@.take(i as int), k),
        decreases i,
    {
        assert(s@.take(i as int).drop_last() == s@.take(i - 1));
        if s[i - 1].0 == k {
            return Some(i - 1);
        }
        i -= 1;
    }
    None
}

/// The pairs of `s` that contain `c`, in order.
pub open spec fn pairs_with(s: Seq<CurrencyIDPair>, c: CurrencyID) -> Seq<CurrencyIDPair>
    decreases s.len(),
{
    if s.len() == 0 {
        Seq::empty()
    } else if s.last().spec_contains(c) {
        pairs_with(s.drop_last(), c).push(s.last())
    } else {
        pairs_with(s.drop_last(), c)
    }
}

/// Some pair of `s` contains `c`.
pub open spec fn lists_currency(s: Seq<CurrencyIDPair>, c: CurrencyID) -> bool {
    exists|i: int| 0 <= i < s.len() && #[trigger] s[i].spec_contains(c)
}

/// The exchanges of `s`, in order, other than `e`, whose pairs contain `c`.
pub open spec fn transfer_targets(
    s: Seq<(ExchangeID, Vec<CurrencyIDPair>)>,
    e: ExchangeID,
    c: CurrencyID,
) -> Seq<ExchangeID>
    decreases s.len(),
{
    if s.len() == 0 {
        Seq::empty()
    } else if s.last().0 != e && lists_currency(s.last().1@, c) {
        transfer_targets(s.drop_last(), e, c).push(s.last().0)
    } else {
        transfer_targets(s.drop_last(), e, c)
    }
}

proof fn lemma_pairs_with(s: Seq<CurrencyIDPair>, c: CurrencyID, j: int)
    requires
        0 <= j < pairs_with(s, c).len(),
    ensures
        pairs_with(s, c)[j].spec_contains(c),
        s.contains(pairs_with(s, c)[j]),
    decreases s.len(),
{
    if s.last().spec_contains(c) && j == pairs_with(s, c).len() - 1 {
        assert(s[s.len() - 1] == s.last());
    } else {
        lemma_pairs_with(s.drop_last(), c, j);
        let k = choose|k: int| 0 <= k < s.drop_last().len() && s.drop_last()[k] == pairs_with(s.drop_last(), c)[j];
        assert(s[k] == s.drop_last()[k]);
    }
}

proof fn lemma_pairs_with_empty(s: Seq<CurrencyIDPair>, c: CurrencyID)
    requires
        !lists_currency(s, c),
    ensures
        pairs_with(s, c).len() == 0,
    decreases s.len(),
{
    if s.len() > 0 {
        assert(s[s.len() - 1] == s.last());
        assert forall|i: int| 0 <= i < s.drop_last().len() implies !#[trigger] s.drop_last()[i].spec_contains(c) by {
            assert(s[i] == s.drop_last()[i]);
        }
        lemma_pairs_with_empty(s.drop_last(), c);
    }
}

/// In an index with unique keys, the values stored under the key of entry `i`
/// are those of entry `i`.
proof fn lemma_index_lookup_unique<K, V>(s: Seq<(K, Vec<V>)>, i: int)
    requires
        0 <= i < s.len(),
        forall|a: int, b: int| 0 <= a < b < s.len() ==> #[trigger] s[a].0 != #[trigger] s[b].0,
    ensures
        index_lookup(s, s[i].0) == s[i].1@,
    decreases s.len(),
{
    if i < s.len() - 1 {
        assert(s.last() == s[s.len() - 1]);
        assert(s.drop_last()[i] == s[i]);
        lemma_index_lookup_unique(s.drop_last(), i);
    }
}

proof fn lemma_index_lookup_absent<K, V>(s: Seq<(K, Vec<V>)>, k: K)
    requires
        forall|a: int| 0 <= a < s.len() ==> #[trigger] s[a].0 != k,
    ensures
        index_lookup(s, k).len() == 0,
    decreases s.len(),
{
    if s.len() > 0 {
        assert(s.last() == s[s.len() - 1]);
        assert forall|a: int| 0 <= a < s.drop_last().len() implies #[trigger] s.drop_last()[a].0 != k by {
            assert(s.drop_last()[a] == s[a]);
        }
        lemma_index_lookup_absent(s.drop_last(), k);
    }
}


fn exchange_find(s: &Vec<(ExchangeID, Vec<CurrencyIDPair>)>, e: ExchangeID) -> (r: Option<usize>)
    ensures
        match r {
            Some(i) => i < s@.len() && s@[i as int].0 == e,
            None => forall|a: int| 0 <= a < s@.len() ==> #[trigger] s@[a].0 != e,
        },
{
    let mut i: usize = 0;
    while i < s.len()
        invariant
            i <= s@.len(),
            forall|a: int| 0 <= a < i ==> #[trigger] s@[a].0 != e,
        decreases s@.len() - i,
    {
        if s[i].0 == e {
            return Some(i);
        }
        i += 1;
    }
    None
}

fn contains_pair(v: &Vec<CurrencyIDPair>, p: CurrencyIDPair) -> (r: bool)
    ensures
        r == v@.contains(p),
{
    let mut i: usize = 0;
    while i < v.len()
        invariant
            i <= v@.len(),
            forall|a: int| 0 <= a < i ==> v@[a] != p,
        decreases v@.len() - i,
    {
        if v[i] == p {
            return true;
        }
        i += 1;
    }
    false
}

fn lists(v: &Vec<CurrencyIDPair>, c: CurrencyID) -> (r: bool)
    ensures
        r == lists_currency(v@, c),
{
    let mut i: usize = 0;
    while i < v.len()
        invariant
            i <= v@.len(),
            forall|a: int| 0 <= a < i ==> !(#[trigger] v@[a]).spec_contains(c),
        decreases v@.len() - i,
    {
        if v[i].cointains(&c) {
            return true;
        }
        i += 1;
    }
    false
}

fn pairs_with_currency(v: &Vec<CurrencyIDPair>, c: CurrencyID) -> (r: Vec<CurrencyIDPair>)
    ensures
        r@ == pairs_with(v@, c),
{
    let mut r: Vec<CurrencyIDPair> = Vec::new();
    let mut i: usize = 0;
    while i < v.len()
        invariant
            i <= v@.len(),
            r@ == pairs_with(v@.take(i as int), c),
        decreases v@.len() - i,
    {
        assert(v@.take(i + 1).drop_last() == v@.take(i as int));
        if v[i].cointains(&c) {
            r.push(v[i]);
        }
        i += 1;
    }
    assert(v@.take(i as int) == v@);
    r
}

/// Every currency listed by some pair of `v`, once each.
fn currencies_of(v: &Vec<CurrencyIDPair>) -> (r: Vec<CurrencyID>)
    ensures
        forall|c: CurrencyID| #[trigger] r@.contains(c) == lists_currency(v@, c),
{
    let mut r: Vec<CurrencyID> = Vec::new();
    let mut i: usize = 0;
    while i < v.len()
        invariant
            i <= v@.len(),
            forall|c: CurrencyID| #[trigger] r@.contains(c) == lists_currency(v@.take(i as int), c),
        decreases v@.len() - i,
    {
        let p = v[i];
        proof {
            assert forall|c: CurrencyID| #[trigger] lists_currency(v@.take(i + 1), c) == (lists_currency(v@.take(i as int), c) || p.spec_contains(c)) by {
                if lists_currency(v@.take(i + 1), c) {
                    let k = choose|k: int| 0 <= k < v@.take(i + 1).len() && #[trigger] v@.take(i + 1)[k].spec_contains(c);
                    if k < i {
                        assert(v@.take(i as int)[k] == v@.take(i + 1)[k]);
                    }
                }
                if lists_currency(v@.take(i as int), c) {
                    let k = choose|k: int| 0 <= k < v@.take(i as int).len() && #[trigger] v@.take(i as int)[k].spec_contains(c);
                    assert(v@.take(i + 1)[k] == v@.take(i as int)[k]);
                }
                if p.spec_contains(c) {
                    assert(v@.take(i + 1)[i as int] == p);
                }
            }
        }
        let ghost r0 = r@;
        if !contains_currency(&r, p.first) {
            r.push(p.first);
        }
        let ghost r1 = r@;
        if !contains_currency(&r, p.second) {
            r.push(p.second);
        }
        proof {
            assert forall|c: CurrencyID| #[trigger] r@.contains(c) == (r0.contains(c) || p.spec_contains(c)) by {
                lemma_push_contains(r0, p.first, c);
                lemma_push_contains(r1, p.second, c);
            }
        }
        i += 1;
    }
    assert(v@.take(i as int) == v@);
    r
}

fn contains_currency(v: &Vec<CurrencyID>, c: CurrencyID) -> (r: bool)
    ensures
        r == v@.contains(c),
{
    let mut i: usize = 0;
    while i < v.len()
        invariant
            i <= v@.len(),
            forall|a: int| 0 <= a < i ==> v@[a] != c,
        decreases v@.len() - i,
    {
        if v[i] == c {
            return true;
        }
        i += 1;
    }
    false
}

proof fn lemma_pairs_with_distinct(s: Seq<CurrencyIDPair>, c: CurrencyID)
    requires
        s.no_duplicates(),
    ensures
        pairs_with(s, c).no_duplicates(),
    decreases s.len(),
{
    if s.len() > 0 {
        let d = s.drop_last();
        assert forall|i: int, j: int| 0 <= i < j < d.len() implies d[i] != d[j] by {
            assert(d[i] == s[i] && d[j] == s[j]);
        }
        lemma_pairs_with_distinct(d, c);
        if s.last().spec_contains(c) {
            let pw = pairs_with(d, c);
            assert forall|k: int| 0 <= k < pw.len() implies pw[k] != s.last() by {
                lemma_pairs_with(d, c, k);
                let m = choose|m: int| 0 <= m < d.len() && d[m] == pw[k];
                assert(s[m] == d[m]);
                assert(s[s.len() - 1] == s.last());
            }
            assert forall|i: int, j: int| 0 <= i < j < pw.push(s.last()).len() implies pw.push(s.last())[i]
                != pw.push(s.last())[j] by {
                if j == pw.len() {
                    assert(pw.push(s.last())[i] == pw[i]);
                } else {
                    assert(pw.push(s.last())[i] == pw[i] && pw.push(s.last())[j] == pw[j]);
                }
            }
        }
    }
}

proof fn lemma_transfer_targets_from(s: Seq<(ExchangeID, Vec<CurrencyIDPair>)>, e: ExchangeID, c: CurrencyID, j: int)
    requires
        0 <= j < transfer_targets(s, e, c).len(),
    ensures
        exists|k: int|
            0 <= k < s.len() && s[k].0 == transfer_targets(s, e, c)[j] && s[k].0 != e && lists_currency(s[k].1@, c),
    decreases s.len(),
{
    let d = s.drop_last();
    if s.last().0 != e && lists_currency(s.last().1@, c) && j == transfer_targets(d, e, c).len() {
        assert(s[s.len() - 1].0 == transfer_targets(s, e, c)[j]);
    } else {
        lemma_transfer_targets_from(d, e, c, j);
        let k = choose|k: int| 0 <= k < d.len() && d[k].0 == transfer_targets(d, e, c)[j] && d[k].0 != e
            && lists_currency(d[k].1@, c);
        assert(s[k] == d[k]);
    }
}

proof fn lemma_transfer_targets_distinct(s: Seq<(ExchangeID, Vec<CurrencyIDPair>)>, e: ExchangeID, c: CurrencyID)
    requires
        forall|a: int, b: int| 0 <= a < b < s.len() ==> #[trigger] s[a].0 != #[trigger] s[b].0,
    ensures
        transfer_targets(s, e, c).no_duplicates(),
    decreases s.len(),
{
    if s.len() > 0 {
        let d = s.drop_last();
        assert forall|a: int, b: int| 0 <= a < b < d.len() implies #[trigger] d[a].0 != #[trigger] d[b].0 by {
            assert(d[a] == s[a] && d[b] == s[b]);
        }
        lemma_transfer_targets_distinct(d, e, c);
        if s.last().0 != e && lists_currency(s.last().1@, c) {
            let tt = transfer_targets(d, e, c);
            assert forall|k: int| 0 <= k < tt.len() implies tt[k] != s.last().0 by {
                lemma_transfer_targets_from(d, e, c, k);
                let m = choose|m: int| 0 <= m < d.len() && d[m].0 == tt[k] && d[m].0 != e && lists_currency(d[m].1@, c);
                assert(s[m] == d[m]);
                assert(s[s.len() - 1] == s.last());
            }
            assert forall|i: int, j: int| 0 <= i < j < tt.push(s.last().0).len() implies tt.push(s.last().0)[i]
                != tt.push(s.last().0)[j] by {
                if j == tt.len() {
                    assert(tt.push(s.last().0)[i] == tt[i]);
                } else {
                    assert(tt.push(s.last().0)[i] == tt[i] && tt.push(s.last().0)[j] == tt[j]);
                }
            }
        }
    }
}

/// Per-exchange pair sets, and the adjacency indices computed from them.
pub struct Network {
    exchange_pairs: Vec<(ExchangeID, Vec<CurrencyIDPair>)>,
    transaction_index: Vec<(ExchangeIDCurrencyIDPair, Vec<CurrencyIDPair>)>,
    transfer_index: Vec<(ExchangeIDCurrencyIDPair, Vec<ExchangeID>)>,
    is_update_exchange_hubs: bool,
}

impl Network {
    /// Pairs usable for a transaction from balance `b`.
    pub closed spec fn tx_adjacency(&self, b: BalanceExchangeCurrencyInfo) -> Seq<CurrencyIDPair> {
        index_lookup(self.transaction_index@, b)
    }

    /// Exchanges that balance `b` can be transferred to.
    pub closed spec fn tr_adjacency(&self, b: BalanceExchangeCurrencyInfo) -> Seq<ExchangeID> {
        index_lookup(self.transfer_index@, b)
    }

    /// The exchanges added so far, each with its pairs, in order of addition.
    pub closed spec fn exchanges(&self) -> Seq<(ExchangeID, Vec<CurrencyIDPair>)> {
        self.exchange_pairs@
    }

    /// The pairs added for exchange `e`, each once, in order of addition.
    pub open spec fn pairs_of(&self, e: ExchangeID) -> Seq<CurrencyIDPair> {
        index_lookup(self.exchanges(), e)
    }

    pub open spec fn has_exchange(&self, e: ExchangeID) -> bool {
        exists|i: int| 0 <= i < self.exchanges().len() && #[trigger] self.exchanges()[i].0 == e
    }

    /// The adjacency indices agree with the pairs: the transaction adjacency of
    /// `(e, c)` is the pairs of `e` containing `c`; the transfer adjacency is,
    /// where `e` lists `c`, every other exchange that lists `c`.
    pub open spec fn indices_exact(&self) -> bool {
        &&& forall|b: ExchangeIDCurrencyIDPair| #[trigger]
            self.tx_adjacency(b) == pairs_with(self.pairs_of(b.exchange), b.currency)
        &&& forall|b: ExchangeIDCurrencyIDPair| #[trigger]
            self.tr_adjacency(b) == if lists_currency(self.pairs_of(b.exchange), b.currency) {
                transfer_targets(self.exchanges(), b.exchange, b.currency)
            } else {
                Seq::empty()
            }
    }

    pub closed spec fn is_dirty(&self) -> bool {
        self.is_update_exchange_hubs
    }

    /// Exchanges are unique, each holds distinct pairs of distinct currencies,
    /// every indexed pair can be traded from the currency it is indexed under,
    /// and a network that needs no rebuild has exact indices.
    pub closed spec fn wf(&self) -> bool {
        &&& forall|a: int, b: int|
            0 <= a < b < self.exchange_pairs@.len() ==> #[trigger] self.exchange_pairs@[a].0
                != #[trigger] self.exchange_pairs@[b].0
        &&& forall|a: int| 0 <= a < self.exchange_pairs@.len() ==> (#[trigger] self.exchange_pairs@[a]).1@.no_duplicates()
        &&& forall|a: int, j: int|
            0 <= a < self.exchange_pairs@.len() && 0 <= j < self.exchange_pairs@[a].1@.len() ==> #[trigger] self.exchange_pairs@[a].1@[j].first
                != self.exchange_pairs@[a].1@[j].second
        &&& forall|i: int, j: int|
            0 <= i < self.transaction_index@.len() && 0 <= j
                < self.transaction_index@[i].1@.len() ==> #[trigger] self.transaction_index@[i].1@[j].selects(
                self.transaction_index@[i].0.currency,
            )
        &&& forall|i: int| 0 <= i < self.transaction_index@.len() ==> (#[trigger] self.transaction_index@[i]).1@.no_duplicates()
        &&& forall|i: int| 0 <= i < self.transfer_index@.len() ==> (#[trigger] self.transfer_index@[i]).1@.no_duplicates()
        &&& !self.is_update_exchange_hubs ==> self.indices_exact()
    }

    /// In a network with exact indices, a pair offered for a transaction
    /// from `b` is one that `b`'s exchange lists.
    pub proof fn lemma_tx_adjacency_listed(&self, b: BalanceExchangeCurrencyInfo, j: int)
        requires
            self.indices_exact(),
            0 <= j < self.tx_adjacency(b).len(),
        ensures
            self.pairs_of(b.exchange).contains(self.tx_adjacency(b)[j]),
    {
        assert(self.tx_adjacency(b) == pairs_with(self.pairs_of(b.exchange), b.currency));
        lemma_pairs_with(self.pairs_of(b.exchange), b.currency, j);
    }

    /// In a network with exact indices, a transfer from `b` goes to another
    /// exchange, and both exchanges list `b`'s currency.
    pub proof fn lemma_tr_adjacency_listed(&self, b: BalanceExchangeCurrencyInfo, j: int)
        requires
            self.wf(),
            self.indices_exact(),
            0 <= j < self.tr_adjacency(b).len(),
        ensures
            self.tr_adjacency(b)[j] != b.exchange,
            lists_currency(self.pairs_of(b.exchange), b.currency),
            lists_currency(self.pairs_of(self.tr_adjacency(b)[j]), b.currency),
    {
        let ep = self.exchange_pairs@;
        assert(lists_currency(self.pairs_of(b.exchange), b.currency));
        assert(self.tr_adjacency(b) == transfer_targets(ep, b.exchange, b.currency));
        lemma_transfer_targets_from(ep, b.exchange, b.currency, j);
        let k = choose|k: int|
            0 <= k < ep.len() && ep[k].0 == transfer_targets(ep, b.exchange, b.currency)[j] && ep[k].0 != b.exchange
                && lists_currency(ep[k].1@, b.currency);
        lemma_index_lookup_unique(ep, k);
    }

    /// No adjacency list repeats an item.
    pub proof fn lemma_adjacency_distinct(&self, b: BalanceExchangeCurrencyInfo)
        requires
            self.wf(),
        ensures
            self.tx_adjacency(b).no_duplicates(),
            self.tr_adjacency(b).no_duplicates(),
    {
        if self.tx_adjacency(b).len() > 0 {
            lemma_index_lookup_from(self.transaction_index@, b, 0);
            let i = choose|i: int| 0 <= i < self.transaction_index@.len() && self.transaction_index@[i].0 == b
                && self.transaction_index@[i].1@ == index_lookup(self.transaction_index@, b);
            assert(self.transaction_index@[i].1@.no_duplicates());
        }
        if self.tr_adjacency(b).len() > 0 {
            lemma_index_lookup_from(self.transfer_index@, b, 0);
            let i = choose|i: int| 0 <= i < self.transfer_index@.len() && self.transfer_index@[i].0 == b
                && self.transfer_index@[i].1@ == index_lookup(self.transfer_index@, b);
            assert(self.transfer_index@[i].1@.no_duplicates());
        }
    }

    pub proof fn lemma_tx_adjacency_selects(&self, b: BalanceExchangeCurrencyInfo, j: int)
        requires
            self.wf(),
            0 <= j < self.tx_adjacency(b).len(),
        ensures
            self.tx_adjacency(b)[j].selects(b.currency),
    {
        lemma_index_lookup_from(self.transaction_index@, b, j);
        let i = choose|i: int| 0 <= i < self.transaction_index@.len() && self.transaction_index@[i].0 == b
            && self.transaction_index@[i].1@ == index_lookup(self.transaction_index@, b);
        assert(self.transaction_index@[i].1@[j].selects(self.transaction_index@[i].0.currency));
    }

    pub fn new() -> (r: Network)
        ensures
            r.wf(),
            r.exchanges().len() == 0,
            !r.is_dirty(),
    {
        let r = Network {
            exchange_pairs: Vec::new(),
            transaction_index: Vec::new(),
            transfer_index: Vec::new(),
            is_update_exchange_hubs: false,
        };
        assert(r.indices_exact()) by {
            assert forall|b: ExchangeIDCurrencyIDPair| #[trigger]
                r.tx_adjacency(b) == pairs_with(r.pairs_of(b.exchange), b.currency) by {
                assert(r.pairs_of(b.exchange).len() == 0);
            }
        }
        r
    }

    /// Adds `cps` to the pairs of `exchange` (registering the exchange if new).
    /// Returns whether the exchange or any pair was new; the indices are left
    /// as they were and marked for a rebuild in that case.
    pub fn add_pairs(&mut self, exchange: ExchangeID, cps: &[CurrencyIDPair]) -> (r: bool)
        requires
            old(self).wf(),
            forall|j: int| 0 <= j < cps@.len() ==> (#[trigger] cps@[j]).first != cps@[j].second,
        ensures
            final(self).wf(),
            forall|e: ExchangeID| #[trigger]
                final(self).has_exchange(e) == (old(self).has_exchange(e) || e == exchange),
            forall|e: ExchangeID| e != exchange ==> #[trigger] final(self).pairs_of(e) == old(self).pairs_of(e),
            forall|p: CurrencyIDPair| #[trigger]
                final(self).pairs_of(exchange).contains(p) == (old(self).pairs_of(exchange).contains(p)
                    || cps@.contains(p)),
            r == (!old(self).has_exchange(exchange) || exists|j: int|
                0 <= j < cps@.len() && !old(self).pairs_of(exchange).contains(#[trigger] cps@[j])),
            !r ==> final(self).exchanges() == old(self).exchanges(),
            final(self).is_dirty() == (old(self).is_dirty() || r),
            forall|b: ExchangeIDCurrencyIDPair| #[trigger] final(self).tx_adjacency(b) == old(self).tx_adjacency(b),
            forall|b: ExchangeIDCurrencyIDPair| #[trigger] final(self).tr_adjacency(b) == old(self).tr_adjacency(b),
    {
        let ghost old_ep = self.exchange_pairs@;
        let ghost old_pairs = self.pairs_of(exchange);
        let mut is_updated = false;
        let idx = match exchange_find(&self.exchange_pairs, exchange) {
            Some(i) => {
                proof {
                    lemma_index_lookup_unique(old_ep, i as int);
                }
                i
            },
            None => {
                proof {
                    lemma_index_lookup_absent(old_ep, exchange);
                }
                is_updated = true;
                self.exchange_pairs.push((exchange, Vec::new()));
                self.exchange_pairs.len() - 1
            },
        };
        let ghost ep_mid = self.exchange_pairs@;
        assert(ep_mid[idx as int].1@ == old_pairs);
        assert(is_updated == !old(self).has_exchange(exchange));
        let mut j: usize = 0;
        while j < cps.len()
            invariant
                old(self).wf(),
                forall|j: int| 0 <= j < cps@.len() ==> (#[trigger] cps@[j]).first != cps@[j].second,
                idx < ep_mid.len(),
                self.exchange_pairs@.len() == ep_mid.len(),
                ep_mid[idx as int].0 == exchange,
                ep_mid[idx as int].1@ == old_pairs,
                is_updated == (!old(self).has_exchange(exchange) || exists|k: int|
                    0 <= k < j && !old_pairs.contains(#[trigger] cps@[k])),
                !is_updated ==> self.exchange_pairs@ == old_ep,
                self.exchange_pairs@[idx as int].0 == exchange,
                forall|a: int| 0 <= a < ep_mid.len() && a != idx ==> #[trigger] self.exchange_pairs@[a] == ep_mid[a],
                forall|p: CurrencyIDPair| #[trigger]
                    self.exchange_pairs@[idx as int].1@.contains(p) == (old_pairs.contains(p)
                        || cps@.take(j as int).contains(p)),
                self.exchange_pairs@[idx as int].1@.no_duplicates(),
                forall|k: int|
                    0 <= k < self.exchange_pairs@[idx as int].1@.len() ==> #[trigger] self.exchange_pairs@[idx as int].1@[k].first
                        != self.exchange_pairs@[idx as int].1@[k].second,
                self.transaction_index == old(self).transaction_index,
                self.transfer_index == old(self).transfer_index,
                self.is_update_exchange_hubs == old(self).is_update_exchange_hubs,
                j <= cps@.len(),
                ep_mid == old_ep || (ep_mid.len() == old_ep.len() + 1 && idx == old_ep.len() && !old(self).has_exchange(exchange)
                    && forall|a: int| 0 <= a < old_ep.len() ==> #[trigger] ep_mid[a] == old_ep[a]),
            decreases cps@.len() - j,
        {
            let cp = cps[j];
            let ghost before = self.exchange_pairs@[idx as int].1@;
            if !contains_pair(&self.exchange_pairs[idx].1, cp) {
                self.exchange_pairs[idx].1.push(cp);
                is_updated = true;
                proof {
                    assert(!old_pairs.contains(cp));
                }
            } else {
                proof {
                    if !old_pairs.contains(cp) {
                        assert(cps@.take(j as int).contains(cp));
                        let k = choose|k: int| 0 <= k < j && cps@.take(j as int)[k] == cp;
                        assert(cps@[k] == cp);
                    }
                }
            }
            proof {
                assert(cps@.take(j + 1) == cps@.take(j as int).push(cp));
                assert forall|p: CurrencyIDPair| #[trigger]
                    self.exchange_pairs@[idx as int].1@.contains(p) == (old_pairs.contains(p)
                        || cps@.take(j + 1).contains(p)) by {
                    lemma_push_contains(cps@.take(j as int), cp, p);
                    if self.exchange_pairs@[idx as int].1@ != before {
                        assert(self.exchange_pairs@[idx as int].1@ == before.push(cp));
                        lemma_push_contains(before, cp, p);
                    }
                }
            }
            j += 1;
        }
        self.is_update_exchange_hubs = self.is_update_exchange_hubs || is_updated;
        proof {
            assert(cps@.take(cps@.len() as int) == cps@);
            let ep = self.exchange_pairs@;
            assert(forall|a: int| 0 <= a < ep.len() && a != idx ==> #[trigger] ep[a] == ep_mid[a]);
            assert forall|a: int, b: int| 0 <= a < b < ep.len() implies #[trigger] ep[a].0 != #[trigger] ep[b].0 by {
                if a != idx && b != idx {
                    if ep_mid != old_ep {
                        assert(ep_mid[a] == old_ep[a]);
                        if b == old_ep.len() {
                            assert(old(self).exchanges()[a].0 == ep_mid[a].0);
                        } else {
                            assert(ep_mid[b] == old_ep[b]);
                        }
                    }
                } else if ep_mid != old_ep {
                    if a == idx {
                    } else {
                        assert(ep_mid[a] == old_ep[a]);
                        assert(old(self).exchanges()[a].0 == old_ep[a].0);
                    }
                } else {
                }
            }
            assert(old(self).exchanges() == old_ep);
            assert(self.exchanges() == ep);
            assert forall|e: ExchangeID| #[trigger]
                self.has_exchange(e) == (old(self).has_exchange(e) || e == exchange) by {
                if old(self).has_exchange(e) {
                    let a = choose|a: int| 0 <= a < old(self).exchanges().len() && #[trigger] old(self).exchanges()[a].0 == e;
                    assert(ep_mid[a] == old_ep[a]);
                    if a != idx {
                        assert(ep[a] == ep_mid[a]);
                        assert(self.exchanges()[a].0 == e);
                    } else {
                        assert(self.exchanges()[idx as int].0 == e);
                    }
                }
                if e == exchange {
                    assert(self.exchanges()[idx as int].0 == e);
                }
                if self.has_exchange(e) && e != exchange {
                    let a = choose|a: int| 0 <= a < self.exchanges().len() && #[trigger] self.exchanges()[a].0 == e;
                    assert(a != idx);
                    assert(ep[a] == ep_mid[a]);
                    assert(a < old_ep.len());
                    assert(ep_mid[a] == old_ep[a]);
                    assert(old(self).exchanges()[a].0 == e);
                }
            }
            assert forall|e: ExchangeID| e != exchange implies #[trigger] self.pairs_of(e) == old(self).pairs_of(e) by {
                if old(self).has_exchange(e) {
                    let a = choose|a: int| 0 <= a < old_ep.len() && #[trigger] old_ep[a].0 == e;
                    lemma_index_lookup_unique(old_ep, a);
                    if ep_mid != old_ep {
                        assert(ep_mid[a] == old_ep[a]);
                    }
                    assert(ep[a] == ep_mid[a]);
                    lemma_index_lookup_unique(ep, a);
                } else {
                    lemma_index_lookup_absent(old_ep, e);
                    assert forall|a: int| 0 <= a < ep.len() implies #[trigger] ep[a].0 != e by {
                        if a != idx {
                            if ep_mid != old_ep {
                                assert(ep_mid[a] == old_ep[a]);
                            }
                            assert(old_ep[a].0 == ep[a].0);
                        }
                    }
                    lemma_index_lookup_absent(ep, e);
                }
            }
            lemma_index_lookup_unique(ep, idx as int);
            assert forall|a: int| 0 <= a < ep.len() implies (#[trigger] ep[a]).1@.no_duplicates() by {
                if a != idx {
                    if ep_mid != old_ep && a < old_ep.len() {
                        assert(ep_mid[a] == old_ep[a]);
                    }
                    assert(ep[a] == ep_mid[a]);
                }
            }
            assert forall|a: int, k: int| 0 <= a < ep.len() && 0 <= k < ep[a].1@.len() implies #[trigger] ep[a].1@[k].first
                != ep[a].1@[k].second by {
                if a != idx {
                    if ep_mid != old_ep && a < old_ep.len() {
                        assert(ep_mid[a] == old_ep[a]);
                    }
                    assert(ep[a] == ep_mid[a]);
                }
            }
            if !is_updated {
                assert(self.exchanges() == old(self).exchanges());
                assert(self.pairs_of(exchange) == old(self).pairs_of(exchange));
                if !self.is_update_exchange_hubs {
                    assert(old(self).indices_exact());
                    assert forall|b: ExchangeIDCurrencyIDPair| #[trigger]
                        self.tx_adjacency(b) == pairs_with(self.pairs_of(b.exchange), b.currency) by {
                        assert(old(self).tx_adjacency(b) == pairs_with(old(self).pairs_of(b.exchange), b.currency));
                    }
                    assert forall|b: ExchangeIDCurrencyIDPair| #[trigger]
                        self.tr_adjacency(b) == self.expected_tr(b) by {
                        assert(old(self).tr_adjacency(b) == old(self).expected_tr(b));
                    }
                }
            }
        }
        is_updated
    }

    /// Rebuilds the adjacency indices from the pairs when they are marked for
    /// a rebuild; afterwards they are exact.
    pub fn update_exchange_hubs(&mut self)
        requires
            old(self).wf(),
        ensures
            final(self).wf(),
            final(self).exchanges() == old(self).exchanges(),
            final(self).indices_exact(),
            !final(self).is_dirty(),
    {
        if !self.is_update_exchange_hubs {
            return;
        }
        let ghost ep = self.exchange_pairs@;
        let mut tx_index: Vec<(ExchangeIDCurrencyIDPair, Vec<CurrencyIDPair>)> = Vec::new();
        let mut tr_index: Vec<(ExchangeIDCurrencyIDPair, Vec<ExchangeID>)> = Vec::new();
        let n = self.exchange_pairs.len();
        let mut i: usize = 0;
        while i < n
            invariant
                self.wf(),
                self.exchange_pairs@ == ep,
                n == ep.len(),
                i <= n,
                forall|b: ExchangeIDCurrencyIDPair| #[trigger] index_lookup(tx_index@, b) == if exists|a: int|
                    0 <= a < i && #[trigger] ep[a].0 == b.exchange {
                    self.expected_tx(b)
                } else {
                    Seq::empty()
                },
                forall|b: ExchangeIDCurrencyIDPair| #[trigger] index_lookup(tr_index@, b) == if exists|a: int|
                    0 <= a < i && #[trigger] ep[a].0 == b.exchange {
                    self.expected_tr(b)
                } else {
                    Seq::empty()
                },
                forall|k: int, j: int|
                    0 <= k < tx_index@.len() && 0 <= j < tx_index@[k].1@.len() ==> #[trigger] tx_index@[k].1@[j].selects(
                        tx_index@[k].0.currency,
                    ),
                forall|k: int| 0 <= k < tx_index@.len() ==> (#[trigger] tx_index@[k]).1@.no_duplicates(),
                forall|k: int| 0 <= k < tr_index@.len() ==> (#[trigger] tr_index@[k]).1@.no_duplicates(),
            decreases n - i,
        {
            let e = self.exchange_pairs[i].0;
            let cur = currencies_of(&self.exchange_pairs[i].1);
            proof {
                lemma_index_lookup_unique(ep, i as int);
            }
            let mut j: usize = 0;
            while j < cur.len()
                invariant
                    self.wf(),
                    self.exchange_pairs@ == ep,
                    n == ep.len(),
                    i < n,
                    e == ep[i as int].0,
                    self.pairs_of(e) == ep[i as int].1@,
                    forall|c: CurrencyID| #[trigger] cur@.contains(c) == lists_currency(ep[i as int].1@, c),
                    j <= cur@.len(),
                    forall|b: ExchangeIDCurrencyIDPair| #[trigger] index_lookup(tx_index@, b) == if (exists|a: int|
                        0 <= a < i && #[trigger] ep[a].0 == b.exchange) || (b.exchange == e
                        && cur@.take(j as int).contains(b.currency)) {
                        self.expected_tx(b)
                    } else {
                        Seq::empty()
                    },
                    forall|b: ExchangeIDCurrencyIDPair| #[trigger] index_lookup(tr_index@, b) == if (exists|a: int|
                        0 <= a < i && #[trigger] ep[a].0 == b.exchange) || (b.exchange == e
                        && cur@.take(j as int).contains(b.currency)) {
                        self.expected_tr(b)
                    } else {
                        Seq::empty()
                    },
                    forall|k: int, j: int|
                        0 <= k < tx_index@.len() && 0 <= j < tx_index@[k].1@.len() ==> #[trigger] tx_index@[k].1@[j].selects(
                            tx_index@[k].0.currency,
                        ),
                    forall|k: int| 0 <= k < tx_index@.len() ==> (#[trigger] tx_index@[k]).1@.no_duplicates(),
                    forall|k: int| 0 <= k < tr_index@.len() ==> (#[trigger] tr_index@[k]).1@.no_duplicates(),
                decreases cur@.len() - j,
            {
                let c = cur[j];
                let key = ExchangeIDCurrencyIDPair { exchange: e, currency: c };
                let txs = pairs_with_currency(&self.exchange_pairs[i].1, c);
                let trs = self.transfer_targets_of(e, c);
                proof {
                    assert(cur@.contains(c));
                    assert(cur@.take(j + 1) == cur@.take(j as int).push(c));
                    assert forall|b: ExchangeIDCurrencyIDPair| #![auto] cur@.take(j + 1).contains(b.currency) == (cur@.take(j as int).contains(b.currency) || b.currency == c) by {
                        lemma_push_contains(cur@.take(j as int), c, b.currency);
                    }
                    assert forall|jj: int| 0 <= jj < txs@.len() implies #[trigger] txs@[jj].selects(c) by {
                        lemma_pairs_with(ep[i as int].1@, c, jj);
                        let k = choose|k: int| 0 <= k < ep[i as int].1@.len() && ep[i as int].1@[k] == txs@[jj];
                        assert(ep[i as int].1@[k].first != ep[i as int].1@[k].second);
                    }
                }
                let ghost tx0 = tx_index@;
                let ghost tr0 = tr_index@;
                tx_index.push((key, txs));
                tr_index.push((key, trs));
                proof {
                    assert(tx_index@.drop_last() == tx0);
                    assert(tr_index@.drop_last() == tr0);
                    assert(lists_currency(self.pairs_of(e), c));
                    lemma_pairs_with_distinct(ep[i as int].1@, c);
                    lemma_transfer_targets_distinct(ep, e, c);
                    assert forall|k: int| 0 <= k < tx_index@.len() implies (#[trigger] tx_index@[k]).1@.no_duplicates() by {
                        if k < tx0.len() {
                            assert(tx_index@[k] == tx0[k]);
                        }
                    }
                    assert forall|k: int| 0 <= k < tr_index@.len() implies (#[trigger] tr_index@[k]).1@.no_duplicates() by {
                        if k < tr0.len() {
                            assert(tr_index@[k] == tr0[k]);
                        }
                    }
                    assert forall|b: ExchangeIDCurrencyIDPair| #[trigger] index_lookup(tx_index@, b) == if (exists|a: int|
                        0 <= a < i && #[trigger] ep[a].0 == b.exchange) || (b.exchange == e
                        && cur@.take(j + 1).contains(b.currency)) {
                        self.expected_tx(b)
                    } else {
                        Seq::empty()
                    } by {
                        lemma_push_contains(cur@.take(j as int), c, b.currency);
                        if b != key {
                            assert(index_lookup(tx_index@, b) == index_lookup(tx0, b));
                        }
                    }
                    assert forall|b: ExchangeIDCurrencyIDPair| #[trigger] index_lookup(tr_index@, b) == if (exists|a: int|
                        0 <= a < i && #[trigger] ep[a].0 == b.exchange) || (b.exchange == e
                        && cur@.take(j + 1).contains(b.currency)) {
                        self.expected_tr(b)
                    } else {
                        Seq::empty()
                    } by {
                        lemma_push_contains(cur@.take(j as int), c, b.currency);
                        if b != key {
                            assert(index_lookup(tr_index@, b) == index_lookup(tr0, b));
                        }
                    }
                    assert forall|k: int, jj: int|
                        0 <= k < tx_index@.len() && 0 <= jj < tx_index@[k].1@.len() implies #[trigger] tx_index@[k].1@[jj].selects(
                            tx_index@[k].0.currency,
                        ) by {
                        if k < tx0.len() {
                            assert(tx_index@[k] == tx0[k]);
                        }
                    }
                }
                j += 1;
            }
            proof {
                assert(cur@.take(cur@.len() as int) == cur@);
                assert forall|b: ExchangeIDCurrencyIDPair| b.exchange == e && !cur@.contains(b.currency) implies
                    self.expected_tx(b).len() == 0 && self.expected_tr(b).len() == 0 by {
                    lemma_pairs_with_empty(ep[i as int].1@, b.currency);
                }
                assert forall|b: ExchangeIDCurrencyIDPair| #![auto] (exists|a: int| 0 <= a < i + 1 && #[trigger] ep[a].0 == b.exchange)
                    == ((exists|a: int| 0 <= a < i && #[trigger] ep[a].0 == b.exchange) || b.exchange == e) by {
                    if b.exchange == e {
                        assert(ep[i as int].0 == b.exchange);
                    }
                }
            }
            i += 1;
        }
        proof {
            assert forall|b: ExchangeIDCurrencyIDPair| !(exists|a: int| 0 <= a < n && #[trigger] ep[a].0 == b.exchange) implies
                self.expected_tx(b).len() == 0 && self.expected_tr(b).len() == 0 by {
                lemma_index_lookup_absent(ep, b.exchange);
                assert(!lists_currency(self.pairs_of(b.exchange), b.currency));
            }
        }
        self.transaction_index = tx_index;
        self.transfer_index = tr_index;
        self.is_update_exchange_hubs = false;
        proof {
            assert forall|b: ExchangeIDCurrencyIDPair| #[trigger]
                self.tx_adjacency(b) == pairs_with(self.pairs_of(b.exchange), b.currency) by {
                if !(exists|a: int| 0 <= a < n && #[trigger] ep[a].0 == b.exchange) {
                    lemma_index_lookup_absent(ep, b.exchange);
                    assert(self.expected_tx(b).len() == 0);
                }
            }
            assert forall|b: ExchangeIDCurrencyIDPair| #[trigger]
                self.tr_adjacency(b) == self.expected_tr(b) by {
                if !(exists|a: int| 0 <= a < n && #[trigger] ep[a].0 == b.exchange) {
                    lemma_index_lookup_absent(ep, b.exchange);
                    assert(!lists_currency(self.pairs_of(b.exchange), b.currency));
                    assert(self.expected_tr(b).len() == 0);
                }
            }
        }
    }

    pub open spec fn expected_tx(&self, b: ExchangeIDCurrencyIDPair) -> Seq<CurrencyIDPair> {
        pairs_with(self.pairs_of(b.exchange), b.currency)
    }

    pub open spec fn expected_tr(&self, b: ExchangeIDCurrencyIDPair) -> Seq<ExchangeID> {
        if lists_currency(self.pairs_of(b.exchange), b.currency) {
            transfer_targets(self.exchanges(), b.exchange, b.currency)
        } else {
            Seq::empty()
        }
    }

    fn transfer_targets_of(&self, e: ExchangeID, c: CurrencyID) -> (r: Vec<ExchangeID>)
        ensures
            r@ == transfer_targets(self.exchanges(), e, c),
    {
        let mut r: Vec<ExchangeID> = Vec::new();
        let mut i: usize = 0;
        while i < self.exchange_pairs.len()
            invariant
                i <= self.exchange_pairs@.len(),
                r@ == transfer_targets(self.exchange_pairs@.take(i as int), e, c),
            decreases self.exchange_pairs@.len() - i,
        {
            assert(self.exchange_pairs@.take(i + 1).drop_last() == self.exchange_pairs@.take(i as int));
            let e2 = self.exchange_pairs[i].0;
            if e2 != e && lists(&self.exchange_pairs[i].1, c) {
                r.push(e2);
            }
            i += 1;
        }
        assert(self.exchange_pairs@.take(i as int) == self.exchange_pairs@);
        r
    }

    /// The walks emitted by the depth-first expansion of the walk `chain`
    /// (which ends at a balance), in emission order. `flag` forbids transfers
    /// from this node; it flips at every step.
    pub open spec fn search_spec(
        &self,
        st: SearchStopSettings,
        tc: CurrencyID,
        flag: bool,
        chain: Seq<ExchangeOperationType>,
    ) -> Seq<Seq<ExchangeOperationType>>
        decreases st.max_level - level_of(chain), 2int, 0int,
    {
        let b = chain.last()->Balance_0;
        let emitted = if chain.len() > 1 && b.currency == tc {
            seq![chain]
        } else {
            Seq::empty()
        };
        if st.spec_is_stop(chain) {
            emitted
        } else {
            let txs = self.tx_part(st, tc, flag, chain, self.tx_adjacency(b).len() as int);
            let trs = if flag {
                Seq::empty()
            } else {
                self.tr_part(st, tc, flag, chain, self.tr_adjacency(b).len() as int)
            };
            emitted + txs + trs
        }
    }

    /// The walks emitted below the first `n` transactions from the end of `chain`.
    pub open spec fn tx_part(
        &self,
        st: SearchStopSettings,
        tc: CurrencyID,
        flag: bool,
        chain: Seq<ExchangeOperationType>,
        n: int,
    ) -> Seq<Seq<ExchangeOperationType>>
        decreases st.max_level - level_of(chain), 1int, n,
    {
        if n <= 0 {
            Seq::empty()
        } else {
            let b = chain.last()->Balance_0;
            let pair = self.tx_adjacency(b)[n - 1];
            let c1 = chain.push(tx_op(b, pair));
            let rest = self.tx_part(st, tc, flag, chain, n - 1);
            if st.spec_is_stop(c1) {
                rest
            } else {
                rest + self.search_spec(
                    st,
                    tc,
                    !flag,
                    c1.push(ExchangeOperationType::Balance(tx_balance(b, pair))),
                )
            }
        }
    }

    /// The walks emitted below the first `n` transfers from the end of `chain`.
    pub open spec fn tr_part(
        &self,
        st: SearchStopSettings,
        tc: CurrencyID,
        flag: bool,
        chain: Seq<ExchangeOperationType>,
        n: int,
    ) -> Seq<Seq<ExchangeOperationType>>
        decreases st.max_level - level_of(chain), 1int, n,
    {
        if n <= 0 {
            Seq::empty()
        } else {
            let b = chain.last()->Balance_0;
            let to = self.tr_adjacency(b)[n - 1];
            let c1 = chain.push(tr_op(b, to));
            let rest = self.tr_part(st, tc, flag, chain, n - 1);
            if st.spec_is_stop(c1) {
                rest
            } else {
                rest + self.search_spec(
                    st,
                    tc,
                    !flag,
                    c1.push(ExchangeOperationType::Balance(tr_balance(b, to))),
                )
            }
        }
    }

    /// The walks found for target `t`: those of the expansion of its root balance.
    pub open spec fn target_paths_spec(&self, t: Target, st: SearchStopSettings) -> Seq<
        Seq<ExchangeOperationType>,
    > {
        self.search_spec(st, t.currency, true, seq![ExchangeOperationType::Balance(t)])
    }

    /// Every walk that starts at target `t` and returns to its currency,
    /// within the bounds of `search_stop_settings`, each once.
    pub fn search_target_start(&self, t: Target, search_stop_settings: &SearchStopSettings) -> (r:
        TargetKnownPaths)
        requires
            self.wf(),
        ensures
            paths_view(r@) == self.target_paths_spec(t, *search_stop_settings),
            paths_view(r@).no_duplicates(),
    {
        let target_node = BalanceNode::create(None, 0, t);
        let mut chain: Vec<ExchangeOperationType> = Vec::new();
        chain.push(ExchangeOperationType::Balance(t));
        let mut leafs: Vec<ArbitragePath> = Vec::new();
        proof {
            assert(chain@ == seq![ExchangeOperationType::Balance(t)]);
            assert(paths_view(leafs@) =~= Seq::empty());
        }
        self.search_filter(true, t.currency, &target_node, &mut chain, search_stop_settings, &mut leafs);
        proof {
            assert(paths_view(leafs@) =~= self.target_paths_spec(t, *search_stop_settings));
            lemma_target_paths_distinct(self, t, *search_stop_settings);
        }
        leafs
    }

    /// Depth-first expansion of the walk `chain` (ending at `next`): appends
    /// every emitted walk to `leafs` and leaves `chain` as it found it.
    fn search_filter(
        &self,
        is_last_transfer: bool,
        target_currency: CurrencyID,
        next: &BalanceNode,
        chain: &mut Vec<ExchangeOperationType>,
        search_stop_settings: &SearchStopSettings,
        leafs: &mut Vec<ArbitragePath>,
    )
        requires
            self.wf(),
            old(chain)@.len() >= 1,
            old(chain)@.last() == ExchangeOperationType::Balance(next.operation_data),
            next.level as int == level_of(old(chain)@),
        ensures
            final(chain)@ == old(chain)@,
            paths_view(final(leafs)@) == paths_view(old(leafs)@) + self.search_spec(
                *search_stop_settings,
                target_currency,
                is_last_transfer,
                old(chain)@,
            ),
        decreases search_stop_settings.max_level - next.level,
    {
        let ghost chain0 = chain@;
        let ghost leafs0 = paths_view(leafs@);
        let ghost st = *search_stop_settings;
        let b = next.operation_data;
        if chain.len() > 1 && b.currency == target_currency {
            let leaf = ArbitragePath(chain.clone());
            proof {
                lemma_paths_view_push(leafs@, leaf);
            }
            leafs.push(leaf);
        }
        let ghost emitted = if chain0.len() > 1 && b.currency == target_currency {
            seq![chain0]
        } else {
            Seq::<Seq<ExchangeOperationType>>::empty()
        };
        assert(paths_view(leafs@) == leafs0 + emitted);
        if search_stop_settings.is_skip_search_node(chain) {
            return;
        }
        // transactions
        if let Some(k) = index_find(&self.transaction_index, b) {
            let pairs = &self.transaction_index[k].1;
            let mut i: usize = 0;
            while i < pairs.len()
                invariant
                    self.wf(),
                    chain@ == chain0,
                    pairs@ == self.tx_adjacency(b),
                    i <= pairs@.len(),
                    chain0.last() == ExchangeOperationType::Balance(b),
                    next.operation_data == b,
                    next.level as int == level_of(chain0),
                    chain0.len() >= 1,
                    !st.spec_is_stop(chain0),
                    st == *search_stop_settings,
                    paths_view(leafs@) == leafs0 + emitted + self.tx_part(
                        st,
                        target_currency,
                        is_last_transfer,
                        chain0,
                        i as int,
                    ),
                decreases pairs@.len() - i,
            {
                let pair = pairs[i];
                proof {
                    self.lemma_tx_adjacency_selects(b, i as int);
                }
                let ghost before = paths_view(leafs@);
                match execute_and_connect_transaction(next, pair, chain, search_stop_settings) {
                    Some(nb) => {
                        chain.push(ExchangeOperationType::Balance(nb.operation_data));
                        self.search_filter(
                            !is_last_transfer,
                            target_currency,
                            &nb,
                            chain,
                            search_stop_settings,
                            leafs,
                        );
                        chain.pop();
                        chain.pop();
                        proof {
                            assert(chain@ =~= chain0);
                        }
                    },
                    None => {},
                }
                proof {
                    assert(paths_view(leafs@) =~= leafs0 + emitted + self.tx_part(
                        st,
                        target_currency,
                        is_last_transfer,
                        chain0,
                        i + 1,
                    ));
                }
                i += 1;
            }
        }
        let ghost after_tx = paths_view(leafs@);
        if is_last_transfer {
            proof {
                assert(after_tx =~= leafs0 + self.search_spec(st, target_currency, is_last_transfer, chain0));
            }
            return;
        }
        // transfers
        if let Some(k) = index_find(&self.transfer_index, b) {
            let exchanges = &self.transfer_index[k].1;
            let mut i: usize = 0;
            while i < exchanges.len()
                invariant
                    self.wf(),
                    chain@ == chain0,
                    exchanges@ == self.tr_adjacency(b),
                    i <= exchanges@.len(),
                    chain0.last() == ExchangeOperationType::Balance(b),
                    next.operation_data == b,
                    next.level as int == level_of(chain0),
                    chain0.len() >= 1,
                    !st.spec_is_stop(chain0),
                    st == *search_stop_settings,
                    paths_view(leafs@) == after_tx + self.tr_part(
                        st,
                        target_currency,
                        is_last_transfer,
                        chain0,
                        i as int,
                    ),
                decreases exchanges@.len() - i,
            {
                let to = exchanges[i];
                match execute_and_connect_transfer(next, to, chain, search_stop_settings) {
                    Some(nb) => {
                        chain.push(ExchangeOperationType::Balance(nb.operation_data));
                        self.search_filter(
                            !is_last_transfer,
                            target_currency,
                            &nb,
                            chain,
                            search_stop_settings,
                            leafs,
                        );
                        chain.pop();
                        chain.pop();
                        proof {
                            assert(chain@ =~= chain0);
                        }
                    },
                    None => {},
                }
                proof {
                    assert(paths_view(leafs@) =~= after_tx + self.tr_part(
                        st,
                        target_currency,
                        is_last_transfer,
                        chain0,
                        i + 1,
                    ));
                }
                i += 1;
            }
        }
        proof {
            assert(paths_view(leafs@) =~= leafs0 + self.search_spec(st, target_currency, is_last_transfer, chain0));
        }
    }
}

impl Network {
    /// Runs the expansion for each target in turn; the result holds each
    /// target with its walks, in the order of `targets`.
    pub fn search_targets_sync(&self, targets: Vec<Target>, search_settings: &SearchStopSettings) -> (r: Vec<
        (Target, TargetKnownPaths),
    >)
        requires
            self.wf(),
        ensures
            r@.len() == targets@.len(),
            forall|i: int|
                0 <= i < r@.len() ==> (#[trigger] r@[i]).0 == targets@[i] && paths_view(r@[i].1@)
                    == self.target_paths_spec(targets@[i], *search_settings),
    {
        let mut out: Vec<(Target, TargetKnownPaths)> = Vec::new();
        let mut i: usize = 0;
        while i < targets.len()
            invariant
                self.wf(),
                i <= targets@.len(),
                out@.len() == i,
                forall|j: int|
                    0 <= j < i ==> (#[trigger] out@[j]).0 == targets@[j] && paths_view(out@[j].1@)
                        == self.target_paths_spec(targets@[j], *search_settings),
            decreases targets@.len() - i,
        {
            let target = targets[i];
            let target_paths = self.search_target_start(target, search_settings);
            out.push((target, target_paths));
            i += 1;
        }
        out
    }
}

/// The walks of `s` that fall in bucket `k`, in order.
pub open spec fn walks_of_class(s: Seq<Seq<ExchangeOperationType>>, k: int) -> Seq<Seq<ExchangeOperationType>>
    decreases s.len(),
{
    if s.len() == 0 {
        s
    } else if class_of(s.last()) == k {
        walks_of_class(s.drop_last(), k).push(s.last())
    } else {
        walks_of_class(s.drop_last(), k)
    }
}

/// The traded pairs of each walk.
pub open spec fn projected(s: Seq<Seq<ExchangeOperationType>>) -> Seq<Seq<CurrencyIDPair>> {
    s.map_values(|w: Seq<ExchangeOperationType>| project_pairs(w))
}

/// The walks found for one target, sorted into the five buckets, with
/// reversal duplicates dropped from the single-exchange loops.
pub struct OptimizedPreCalcedPaths {
    pub id: BalanceExchangeCurrencyInfo,
    pub tr_7_paths: Option<Vec<ArbitragePath7Nodes>>,
    pub tr_11_paths: Option<Vec<ArbitragePath11Nodes>>,
    pub tx_only_3pairs_paths: Option<Vec<SingleExchangeTransactionOnly3PairsPath>>,
    pub tx_only_5pairs_paths: Option<Vec<SingleExchangeTransactionOnly5PairsPath>>,
    pub unknown_paths: Option<Vec<ArbitragePath>>,
}

#[derive(Debug, Default, Clone, Copy, PartialEq, Eq, Structural)]
pub struct OptimizedPreCalcedPathsStats {
    pub estimated_size_in_bytes: usize,
    pub tr_7_paths: usize,
    pub tr_11_paths: usize,
    pub tx_only_3pairs_paths: usize,
    pub tx_only_5pairs_paths: usize,
    pub unknown_paths: usize,
}

pub open spec fn tr7_view(s: Seq<ArbitragePath7Nodes>) -> Seq<Seq<ExchangeOperationType>> {
    s.map_values(|p: ArbitragePath7Nodes| p.0@)
}

pub open spec fn tr11_view(s: Seq<ArbitragePath11Nodes>) -> Seq<Seq<ExchangeOperationType>> {
    s.map_values(|p: ArbitragePath11Nodes| p.0@)
}

/// Sorts the walks of target `id` into the five buckets (order kept) and
/// drops reversal duplicates from the two single-exchange buckets.
pub fn classify_target_paths(id: Target, paths: Vec<ArbitragePath>) -> (r: OptimizedPreCalcedPaths)
    requires
        forall|i: int| 0 <= i < paths@.len() ==> alternates(#[trigger] paths@[i].0@),
    ensures
        r.id == id,
        r.tr_7_paths is Some && tr7_view(r.tr_7_paths->0@) == walks_of_class(paths_view(paths@), 0),
        r.tr_11_paths is Some && tr11_view(r.tr_11_paths->0@) == walks_of_class(paths_view(paths@), 1),
        r.tx_only_3pairs_paths is Some && loops_view(r.tx_only_3pairs_paths->0@) == merged(
            projected(walks_of_class(paths_view(paths@), 2)),
        ),
        r.tx_only_5pairs_paths is Some && loops_view(r.tx_only_5pairs_paths->0@) == merged(
            projected(walks_of_class(paths_view(paths@), 3)),
        ),
        r.unknown_paths is Some && paths_view(r.unknown_paths->0@) == walks_of_class(paths_view(paths@), 4),
{
    let ghost pv = paths_view(paths@);
    let mut rest = paths;
    let mut tr_7: Vec<ArbitragePath7Nodes> = Vec::new();
    let mut tr_11: Vec<ArbitragePath11Nodes> = Vec::new();
    let mut tx_3: Vec<SingleExchangeTransactionOnly3PairsPath> = Vec::new();
    let mut tx_5: Vec<SingleExchangeTransactionOnly5PairsPath> = Vec::new();
    let mut unknown: Vec<ArbitragePath> = Vec::new();
    let ghost mut i: int = 0;
    proof {
        assert(pv.take(0) =~= Seq::<Seq<ExchangeOperationType>>::empty());
        assert(paths_view(rest@) =~= pv.skip(0));
        assert(tr7_view(tr_7@) =~= walks_of_class(pv.take(0), 0));
        assert(tr11_view(tr_11@) =~= walks_of_class(pv.take(0), 1));
        assert(loops_view(tx_3@) =~= projected(walks_of_class(pv.take(0), 2)));
        assert(loops_view(tx_5@) =~= projected(walks_of_class(pv.take(0), 3)));
        assert(paths_view(unknown@) =~= walks_of_class(pv.take(0), 4));
    }
    while rest.len() > 0
        invariant
            0 <= i <= pv.len(),
            paths_view(rest@) == pv.skip(i),
            forall|j: int| 0 <= j < rest@.len() ==> alternates(#[trigger] rest@[j].0@),
            tr7_view(tr_7@) == walks_of_class(pv.take(i), 0),
            tr11_view(tr_11@) == walks_of_class(pv.take(i), 1),
            loops_view(tx_3@) == projected(walks_of_class(pv.take(i), 2)),
            loops_view(tx_5@) == projected(walks_of_class(pv.take(i), 3)),
            paths_view(unknown@) == walks_of_class(pv.take(i), 4),
        decreases rest@.len(),
    {
        let ghost before = rest@;
        let p = rest.remove(0);
        let ghost w = p.0@;
        proof {
            assert(paths_view(before).len() == before.len());
            assert(paths_view(before)[0] == w);
            assert(i < pv.len());
            assert(pv.skip(i)[0] == pv[i]);
            assert(pv[i] == w);
            assert(pv.take(i + 1).drop_last() =~= pv.take(i));
            assert(pv.take(i + 1).last() == w);
            assert forall|j: int| 0 <= j < rest@.len() implies #[trigger] paths_view(rest@)[j] == pv.skip(i + 1)[j] by {
                assert(rest@[j] == before[j + 1]);
                assert(paths_view(before)[j + 1] == pv.skip(i)[j + 1]);
            }
            assert(paths_view(rest@) =~= pv.skip(i + 1));
            assert(alternates(before[0].0@));
            assert forall|j: int| 0 <= j < rest@.len() implies alternates(#[trigger] rest@[j].0@) by {
                assert(rest@[j] == before[j + 1]);
            }
        }
        let c = p.classify();
        let ghost t7 = tr7_view(tr_7@);
        let ghost t11 = tr11_view(tr_11@);
        let ghost x3 = loops_view(tx_3@);
        let ghost x5 = loops_view(tx_5@);
        let ghost un = paths_view(unknown@);
        match c {
            ClassifiedPath::Tr7(v) => {
                tr_7.push(v);
                assert(tr7_view(tr_7@) =~= t7.push(w));
            },
            ClassifiedPath::Tr11(v) => {
                tr_11.push(v);
                assert(tr11_view(tr_11@) =~= t11.push(w));
            },
            ClassifiedPath::Tx3(v) => {
                tx_3.push(v);
                assert(loops_view(tx_3@) =~= x3.push(project_pairs(w)));
                assert(projected(walks_of_class(pv.take(i), 2).push(w)) =~= x3.push(project_pairs(w)));
            },
            ClassifiedPath::Tx5(v) => {
                tx_5.push(v);
                assert(loops_view(tx_5@) =~= x5.push(project_pairs(w)));
                assert(projected(walks_of_class(pv.take(i), 3).push(w)) =~= x5.push(project_pairs(w)));
            },
            ClassifiedPath::Unknown(v) => {
                unknown.push(v);
                assert(paths_view(unknown@) =~= un.push(w));
            },
        }
        proof {
            i = i + 1;
        }
    }
    proof {
        assert(i == pv.len());
        assert(pv.take(i) =~= pv);
    }
    let tx_3 = merge_reversed_paths(tx_3);
    let tx_5 = merge_reversed_paths(tx_5);
    OptimizedPreCalcedPaths {
        id,
        tr_7_paths: Some(tr_7),
        tr_11_paths: Some(tr_11),
        tx_only_3pairs_paths: Some(tx_3),
        tx_only_5pairs_paths: Some(tx_5),
        unknown_paths: Some(unknown),
    }
}

/// Number of stored items, none when the list is absent.
pub open spec fn opt_len<T>(o: Option<Vec<T>>) -> nat {
    if o is Some {
        o->0@.len()
    } else {
        0
    }
}

/// Sum of the lengths of the given walks.
pub open spec fn total_nodes(s: Seq<ArbitragePath>) -> int
    decreases s.len(),
{
    if s.len() == 0 {
        0
    } else {
        total_nodes(s.drop_last()) + s.last().0@.len()
    }
}

pub open spec fn saturate(x: int) -> usize {
    if x > usize::MAX {
        usize::MAX
    } else {
        x as usize
    }
}

fn sat_add(a: usize, b: usize) -> (r: usize)
    ensures
        r == saturate(a + b),
{
    a.saturating_add(b)
}

/// Adds a saturated part to a saturated running sum.
fn add_part(acc: usize, part: usize, Ghost(exact): Ghost<int>, Ghost(exact_part): Ghost<int>) -> (r: usize)
    requires
        exact >= 0,
        exact_part >= 0,
        acc == saturate(exact),
        part == saturate(exact_part),
    ensures
        r == saturate(exact + exact_part),
{
    acc.saturating_add(part)
}

/// Multiplies a size by a saturated count.
fn mul_part(size: usize, count: usize, Ghost(exact_count): Ghost<int>) -> (r: usize)
    requires
        exact_count >= 0,
        count == saturate(exact_count),
    ensures
        r == saturate(size * exact_count),
{
    match size.checked_mul(count) {
        Some(v) => {
            proof {
                if exact_count > usize::MAX {
                    assert(size <= 1) by (nonlinear_arith)
                        requires
                            size * count <= usize::MAX as int,
                            count == usize::MAX as int,
                    ;
                    if size == 1 {
                        assert(size * exact_count == exact_count);
                    } else {
                        assert(size * exact_count == 0);
                    }
                }
            }
            v
        },
        None => {
            if size > 0 {
                assert(size * exact_count >= size * count) by (nonlinear_arith)
                    requires size > 0, exact_count >= count as int;
            }
            usize::MAX
        },
    }
}

impl OptimizedPreCalcedPaths {
    /// Estimated footprint: the fixed part of the bundle, one fixed-size item
    /// per stored walk or loop, and one walk-sized item per node of the
    /// walks kept verbatim.
    pub open spec fn estimated_size(&self) -> int {
        size_of::<BalanceExchangeCurrencyInfo>() + size_of::<Option<Vec<ArbitragePath7Nodes>>>()
            + size_of::<ArbitragePath7Nodes>() * opt_len(self.tr_7_paths) + size_of::<
            Option<Vec<ArbitragePath11Nodes>>,
        >() + size_of::<ArbitragePath11Nodes>() * opt_len(self.tr_11_paths) + size_of::<
            Option<Vec<SingleExchangeTransactionOnly3PairsPath>>,
        >() + size_of::<SingleExchangeTransactionOnly3PairsPath>() * opt_len(self.tx_only_3pairs_paths)
            + size_of::<Option<Vec<SingleExchangeTransactionOnly5PairsPath>>>() + size_of::<
            SingleExchangeTransactionOnly5PairsPath,
        >() * opt_len(self.tx_only_5pairs_paths) + size_of::<Option<Vec<ArbitragePath>>>() + size_of::<
            ArbitragePath,
        >() * if self.unknown_paths is Some {
            total_nodes(self.unknown_paths->0@)
        } else {
            0
        }
    }

    /// Item counts per bucket and the estimated footprint, which saturates at
    /// the largest `usize`.
    pub fn stats(&self) -> (r: OptimizedPreCalcedPathsStats)
        ensures
            r.tr_7_paths == opt_len(self.tr_7_paths),
            r.tr_11_paths == opt_len(self.tr_11_paths),
            r.tx_only_3pairs_paths == opt_len(self.tx_only_3pairs_paths),
            r.tx_only_5pairs_paths == opt_len(self.tx_only_5pairs_paths),
            r.unknown_paths == opt_len(self.unknown_paths),
            r.estimated_size_in_bytes == saturate(self.estimated_size()),
    {
        let tr_7_paths: usize = match &self.tr_7_paths { Some(v) => v.len(), None => 0 };
        let tr_11_paths: usize = match &self.tr_11_paths { Some(v) => v.len(), None => 0 };
        let tx_only_3pairs_paths: usize = match &self.tx_only_3pairs_paths { Some(v) => v.len(), None => 0 };
        let tx_only_5pairs_paths: usize = match &self.tx_only_5pairs_paths { Some(v) => v.len(), None => 0 };
        let unknown_paths: usize = match &self.unknown_paths { Some(v) => v.len(), None => 0 };
        let mut unknown_nodes: usize = 0;
        let ghost mut exact_nodes: int = 0;
        if let Some(v) = &self.unknown_paths {
            let mut i: usize = 0;
            while i < v.len()
                invariant
                    i <= v@.len(),
                    exact_nodes == total_nodes(v@.take(i as int)),
                    unknown_nodes == saturate(exact_nodes),
                    exact_nodes >= 0,
                decreases v@.len() - i,
            {
                assert(v@.take(i + 1).drop_last() == v@.take(i as int));
                unknown_nodes = sat_add(unknown_nodes, v[i].0.len());
                proof {
                    exact_nodes = exact_nodes + v@[i as int].0@.len();
                }
                i += 1;
            }
            assert(v@.take(i as int) == v@);
        }
        let ghost un_exact: int = if self.unknown_paths is Some {
            total_nodes(self.unknown_paths->0@)
        } else {
            0
        };
        assert(unknown_nodes == saturate(un_exact) && un_exact >= 0);
        let mut acc = std::mem::size_of::<BalanceExchangeCurrencyInfo>();
        let ghost mut exact: int = size_of::<BalanceExchangeCurrencyInfo>() as int;
        acc = add_part(acc, std::mem::size_of::<Option<Vec<ArbitragePath7Nodes>>>(), Ghost(exact), Ghost(size_of::<Option<Vec<ArbitragePath7Nodes>>>() as int));
        proof { exact = exact + size_of::<Option<Vec<ArbitragePath7Nodes>>>(); }
        acc = add_part(acc, mul_part(std::mem::size_of::<ArbitragePath7Nodes>(), tr_7_paths, Ghost(tr_7_paths as int)), Ghost(exact), Ghost(size_of::<ArbitragePath7Nodes>() * tr_7_paths));
        proof { exact = exact + size_of::<ArbitragePath7Nodes>() * tr_7_paths; }
        acc = add_part(acc, std::mem::size_of::<Option<Vec<ArbitragePath11Nodes>>>(), Ghost(exact), Ghost(size_of::<Option<Vec<ArbitragePath11Nodes>>>() as int));
        proof { exact = exact + size_of::<Option<Vec<ArbitragePath11Nodes>>>(); }
        acc = add_part(acc, mul_part(std::mem::size_of::<ArbitragePath11Nodes>(), tr_11_paths, Ghost(tr_11_paths as int)), Ghost(exact), Ghost(size_of::<ArbitragePath11Nodes>() * tr_11_paths));
        proof { exact = exact + size_of::<ArbitragePath11Nodes>() * tr_11_paths; }
        acc = add_part(acc, std::mem::size_of::<Option<Vec<SingleExchangeTransactionOnly3PairsPath>>>(), Ghost(exact), Ghost(size_of::<Option<Vec<SingleExchangeTransactionOnly3PairsPath>>>() as int));
        proof { exact = exact + size_of::<Option<Vec<SingleExchangeTransactionOnly3PairsPath>>>(); }
        acc = add_part(acc, mul_part(std::mem::size_of::<SingleExchangeTransactionOnly3PairsPath>(), tx_only_3pairs_paths, Ghost(tx_only_3pairs_paths as int)), Ghost(exact), Ghost(size_of::<SingleExchangeTransactionOnly3PairsPath>() * tx_only_3pairs_paths));
        proof { exact = exact + size_of::<SingleExchangeTransactionOnly3PairsPath>() * tx_only_3pairs_paths; }
        acc = add_part(acc, std::mem::size_of::<Option<Vec<SingleExchangeTransactionOnly5PairsPath>>>(), Ghost(exact), Ghost(size_of::<Option<Vec<SingleExchangeTransactionOnly5PairsPath>>>() as int));
        proof { exact = exact + size_of::<Option<Vec<SingleExchangeTransactionOnly5PairsPath>>>(); }
        acc = add_part(acc, mul_part(std::mem::size_of::<SingleExchangeTransactionOnly5PairsPath>(), tx_only_5pairs_paths, Ghost(tx_only_5pairs_paths as int)), Ghost(exact), Ghost(size_of::<SingleExchangeTransactionOnly5PairsPath>() * tx_only_5pairs_paths));
        proof { exact = exact + size_of::<SingleExchangeTransactionOnly5PairsPath>() * tx_only_5pairs_paths; }
        acc = add_part(acc, std::mem::size_of::<Option<Vec<ArbitragePath>>>(), Ghost(exact), Ghost(size_of::<Option<Vec<ArbitragePath>>>() as int));
        proof { exact = exact + size_of::<Option<Vec<ArbitragePath>>>(); }
        acc = add_part(acc, mul_part(std::mem::size_of::<ArbitragePath>(), unknown_nodes, Ghost(un_exact)), Ghost(exact), Ghost(size_of::<ArbitragePath>() * un_exact));
        proof { exact = exact + size_of::<ArbitragePath>() * un_exact; }
        assert(exact == self.estimated_size());
        let estimated_size_in_bytes = acc;
        OptimizedPreCalcedPathsStats {
            estimated_size_in_bytes,
            tr_7_paths,
            tr_11_paths,
            tx_only_3pairs_paths,
            tx_only_5pairs_paths,
            unknown_paths,
        }
    }
}

} // verus!
