use vstd::prelude::*;
use crate::seq_facts::lemma_push_contains;
use crate::id_types::{
    BalanceExchangeCurrencyInfo, CurrencyID, CurrencyIDPair, ExchangeID, ExchangeOperationType,
    TransactionExchangeCurrenciesBuySellInfo, TransactionSide,
};
use crate::nodes::{tx_balance, tx_op};

verus! {

/// A search target: the balance that walks start from and return to.
pub type Target = BalanceExchangeCurrencyInfo;

/// A walk: balances alternating with operations, root first.
#[derive(Debug, PartialEq, Eq, PartialOrd, Ord, Hash, Clone)]
pub struct ArbitragePath(pub Vec<ExchangeOperationType>);

/// The walks found for one target.
pub type TargetKnownPaths = Vec<ArbitragePath>;

/// A walk of seven nodes holding at least one transfer.
#[derive(Debug, PartialEq, Eq, PartialOrd, Ord, Hash, Clone, Copy)]
pub struct ArbitragePath7Nodes(pub [ExchangeOperationType; 7]);

/// A walk of eleven nodes holding at least one transfer.
#[derive(Debug, PartialEq, Eq, PartialOrd, Ord, Hash, Clone, Copy)]
pub struct ArbitragePath11Nodes(pub [ExchangeOperationType; 11]);

/// A single-exchange walk of three transactions, kept as the pairs traded.
#[derive(Debug, PartialEq, Eq, PartialOrd, Ord, Hash, Clone, Copy)]
pub struct SingleExchangeTransactionOnly3PairsPath(pub [CurrencyIDPair; 3]);

/// A single-exchange walk of five transactions, kept as the pairs traded.
#[derive(Debug, PartialEq, Eq, PartialOrd, Ord, Hash, Clone, Copy)]
pub struct SingleExchangeTransactionOnly5PairsPath(pub [CurrencyIDPair; 5]);

/// The operation sequences held by a sequence of paths.
pub open spec fn paths_view(s: Seq<ArbitragePath>) -> Seq<Seq<ExchangeOperationType>> {
    s.map_values(|p: ArbitragePath| p.0@)
}

pub proof fn lemma_paths_view_push(s: Seq<ArbitragePath>, p: ArbitragePath)
    ensures
        paths_view(s.push(p)) == paths_view(s).push(p.0@),
{
    assert(paths_view(s.push(p)) =~= paths_view(s).push(p.0@));
}

/// `a` read backwards is `b`.
pub open spec fn pairs_reversed(a: Seq<CurrencyIDPair>, b: Seq<CurrencyIDPair>) -> bool {
    a.len() == b.len() && forall|i: int| 0 <= i < a.len() ==> #[trigger] a[i] == b[b.len() - 1 - i]
}

/// The currency shared by the first and the last pair (the first pair's base
/// currency where both of its currencies qualify).
pub open spec fn start_end_currency(s: Seq<CurrencyIDPair>) -> Option<CurrencyID> {
    if s.len() == 0 {
        None
    } else {
        let f = s[0];
        let l = s.last();
        if f.first == l.first || f.first == l.second {
            Some(f.first)
        } else if f.second == l.first || f.second == l.second {
            Some(f.second)
        } else {
            None
        }
    }
}

/// The market pair that a transaction trades on.
pub open spec fn tx_pair(tx: TransactionExchangeCurrenciesBuySellInfo) -> CurrencyIDPair {
    match tx.side {
        TransactionSide::BUY => CurrencyIDPair { first: tx.currency_from, second: tx.currency_to },
        TransactionSide::SELL => CurrencyIDPair { first: tx.currency_to, second: tx.currency_from },
    }
}

/// The pairs traded by the transactions of a walk, in order.
pub open spec fn project_pairs(s: Seq<ExchangeOperationType>) -> Seq<CurrencyIDPair>
    decreases s.len(),
{
    if s.len() == 0 {
        Seq::empty()
    } else {
        let rest = project_pairs(s.drop_last());
        match s.last() {
            ExchangeOperationType::Transaction(tx) => rest.push(tx_pair(tx)),
            _ => rest,
        }
    }
}

/// The exchange an operation happens on; none for a transfer.
pub open spec fn op_exchange(op: ExchangeOperationType) -> Option<ExchangeID> {
    match op {
        ExchangeOperationType::Balance(b) => Some(b.exchange),
        ExchangeOperationType::Transaction(t) => Some(t.exchange),
        ExchangeOperationType::Transfer(_) => None,
    }
}

pub open spec fn has_transfer(s: Seq<ExchangeOperationType>) -> bool {
    exists|i: int| 0 <= i < s.len() && (#[trigger] s[i]) is Transfer
}

/// A non-empty walk without transfers whose operations all happen on one exchange.
pub open spec fn same_exchange(s: Seq<ExchangeOperationType>) -> bool {
    &&& s.len() > 0
    &&& op_exchange(s[0]) is Some
    &&& forall|i: int| 0 <= i < s.len() ==> #[trigger] op_exchange(s[i]) == op_exchange(s[0])
}

/// Balances at even positions, operations at odd positions, a balance at each end.
pub open spec fn alternates(s: Seq<ExchangeOperationType>) -> bool {
    &&& s.len() % 2 == 1
    &&& forall|i: int| 0 <= i < s.len() ==> ((#[trigger] s[i]) is Balance <==> i % 2 == 0)
}

/// The five buckets of the classifier.
pub enum ClassifiedPath {
    Tr7(ArbitragePath7Nodes),
    Tr11(ArbitragePath11Nodes),
    Tx3(SingleExchangeTransactionOnly3PairsPath),
    Tx5(SingleExchangeTransactionOnly5PairsPath),
    Unknown(ArbitragePath),
}

/// Which bucket a walk falls in: transfers first, then single-exchange loops
/// of three or five transactions, else unknown.
pub open spec fn class_of(s: Seq<ExchangeOperationType>) -> int {
    if s.len() == 7 && has_transfer(s) {
        0
    } else if s.len() == 11 && has_transfer(s) {
        1
    } else if s.len() == 7 && same_exchange(s) {
        2
    } else if s.len() == 11 && same_exchange(s) {
        3
    } else {
        4
    }
}

/// What a classified walk holds: the whole walk, or its traded pairs.
pub open spec fn classified_matches(c: ClassifiedPath, s: Seq<ExchangeOperationType>) -> bool {
    match c {
        ClassifiedPath::Tr7(p) => class_of(s) == 0 && p.0@ == s,
        ClassifiedPath::Tr11(p) => class_of(s) == 1 && p.0@ == s,
        ClassifiedPath::Tx3(p) => class_of(s) == 2 && p.0@ == project_pairs(s),
        ClassifiedPath::Tx5(p) => class_of(s) == 3 && p.0@ == project_pairs(s),
        ClassifiedPath::Unknown(p) => class_of(s) == 4 && p.0@ == s,
    }
}

/// Balance of `e` in `c`.
pub open spec fn balance_op(e: ExchangeID, c: CurrencyID) -> ExchangeOperationType {
    ExchangeOperationType::Balance(BalanceExchangeCurrencyInfo { exchange: e, currency: c })
}

/// The currency held after trading `pairs` in order from `c`.
pub open spec fn end_currency(c: CurrencyID, pairs: Seq<CurrencyIDPair>) -> CurrencyID
    decreases pairs.len(),
{
    if pairs.len() == 0 {
        c
    } else {
        pairs.last().spec_next(end_currency(c, pairs.drop_last())).0
    }
}

/// Each pair in turn can be traded from the currency held at that point.
pub open spec fn walkable(c: CurrencyID, pairs: Seq<CurrencyIDPair>) -> bool
    decreases pairs.len(),
{
    pairs.len() == 0 || (walkable(c, pairs.drop_last()) && pairs.last().selects(
        end_currency(c, pairs.drop_last()),
    ))
}

/// The walk on exchange `e` from currency `c` that trades `pairs` in order.
pub open spec fn interpolated(e: ExchangeID, c: CurrencyID, pairs: Seq<CurrencyIDPair>) -> Seq<
    ExchangeOperationType,
>
    decreases pairs.len(),
{
    if pairs.len() == 0 {
        seq![balance_op(e, c)]
    } else {
        let b = BalanceExchangeCurrencyInfo { exchange: e, currency: end_currency(c, pairs.drop_last()) };
        interpolated(e, c, pairs.drop_last()).push(tx_op(b, pairs.last())).push(
            ExchangeOperationType::Balance(tx_balance(b, pairs.last())),
        )
    }
}

/// The transaction and balance that follow balance `(exchange, c)` on `pair`.
fn interpolate_next_nodes(exchange: ExchangeID, c: CurrencyID, pair: CurrencyIDPair) -> (r: (
    TransactionExchangeCurrenciesBuySellInfo,
    BalanceExchangeCurrencyInfo,
))
    requires
        pair.selects(c),
    ensures
        ExchangeOperationType::Transaction(r.0) == tx_op(
            BalanceExchangeCurrencyInfo { exchange, currency: c },
            pair,
        ),
        r.1 == tx_balance(BalanceExchangeCurrencyInfo { exchange, currency: c }, pair),
{
    let (new_balance_currency, side) = if pair.first == c {
        (pair.second, TransactionSide::BUY)
    } else {
        (pair.first, TransactionSide::SELL)
    };
    let tx = TransactionExchangeCurrenciesBuySellInfo {
        currency_from: c,
        currency_to: new_balance_currency,
        exchange,
        side,
    };
    let b = BalanceExchangeCurrencyInfo { currency: new_balance_currency, exchange };
    (tx, b)
}

fn tx_to_currency_id_pairs(tx: &TransactionExchangeCurrenciesBuySellInfo) -> (r: CurrencyIDPair)
    ensures
        r == tx_pair(*tx),
{
    match tx.side {
        TransactionSide::BUY => CurrencyIDPair::new(tx.currency_from, tx.currency_to),
        TransactionSide::SELL => CurrencyIDPair::new(tx.currency_to, tx.currency_from),
    }
}

/// Whether `pairs` can be traded in order starting from currency `c`.
pub fn pairs_walkable(c: CurrencyID, pairs: &[CurrencyIDPair]) -> (r: bool)
    ensures
        r == walkable(c, pairs@),
{
    let mut cur = c;
    let mut i: usize = 0;
    while i < pairs.len()
        invariant
            i <= pairs@.len(),
            walkable(c, pairs@.take(i as int)),
            cur == end_currency(c, pairs@.take(i as int)),
        decreases pairs@.len() - i,
    {
        assert(pairs@.take(i + 1).drop_last() == pairs@.take(i as int));
        let p = pairs[i];
        if p.first == p.second || !(p.first == cur || p.second == cur) {
            proof {
                if walkable(c, pairs@) {
                    lemma_walkable_prefix(c, pairs@, i as int + 1);
                    assert(pairs@.take(i + 1).last() == p);
                }
            }
            return false;
        }
        cur = if p.first == cur {
            p.second
        } else {
            p.first
        };
        i += 1;
    }
    assert(pairs@.take(i as int) == pairs@);
    true
}

proof fn lemma_walkable_prefix(c: CurrencyID, pairs: Seq<CurrencyIDPair>, k: int)
    requires
        0 <= k <= pairs.len(),
        walkable(c, pairs),
    ensures
        walkable(c, pairs.take(k)),
    decreases pairs.len() - k,
{
    if k < pairs.len() {
        assert(pairs.take(k + 1).drop_last() == pairs.take(k));
        lemma_walkable_prefix(c, pairs, k + 1);
    } else {
        assert(pairs.take(k) == pairs);
    }
}

/// The walk that trades `pairs` in order from `(exchange, c)`.
fn interpolate_path(exchange: ExchangeID, c: CurrencyID, pairs: &[CurrencyIDPair], reversed: bool) -> (r:
    ArbitragePath)
    requires
        !reversed ==> walkable(c, pairs@),
        reversed ==> walkable(c, pairs@.reverse()),
    ensures
        !reversed ==> r.0@ == interpolated(exchange, c, pairs@),
        reversed ==> r.0@ == interpolated(exchange, c, pairs@.reverse()),
{
    let ghost ps = if reversed {
        pairs@.reverse()
    } else {
        pairs@
    };
    let mut out: Vec<ExchangeOperationType> = Vec::new();
    out.push(ExchangeOperationType::Balance(BalanceExchangeCurrencyInfo { currency: c, exchange }));
    let mut start_c = c;
    let mut i: usize = 0;
    let n = pairs.len();
    assert(out@ == interpolated(exchange, c, ps.take(0)));
    while i < n
        invariant
            n == pairs@.len() == ps.len(),
            ps == if reversed {
                pairs@.reverse()
            } else {
                pairs@
            },
            walkable(c, ps),
            i <= n,
            out@ == interpolated(exchange, c, ps.take(i as int)),
            start_c == end_currency(c, ps.take(i as int)),
        decreases n - i,
    {
        let pair = if reversed {
            pairs[n - 1 - i]
        } else {
            pairs[i]
        };
        assert(pair == ps[i as int]);
        assert(ps.take(i + 1).drop_last() == ps.take(i as int));
        proof {
            lemma_walkable_prefix(c, ps, i + 1);
        }
        let (tx, b) = interpolate_next_nodes(exchange, start_c, pair);
        start_c = b.currency;
        out.push(ExchangeOperationType::Transaction(tx));
        out.push(ExchangeOperationType::Balance(b));
        i += 1;
    }
    assert(ps.take(n as int) == ps);
    ArbitragePath(out)
}

/// Re-expands a single-exchange loop stored as pairs into its two walks from
/// `(exchange, c)`: trading the pairs in order, and in reverse order.
pub fn interpolate_reversed_paths(exchange: ExchangeID, c: CurrencyID, pairs: &[CurrencyIDPair]) -> (r: (
    ArbitragePath,
    ArbitragePath,
))
    requires
        walkable(c, pairs@),
        walkable(c, pairs@.reverse()),
    ensures
        r.0.0@ == interpolated(exchange, c, pairs@),
        r.1.0@ == interpolated(exchange, c, pairs@.reverse()),
{
    let first = interpolate_path(exchange, c, pairs, false);
    let second = interpolate_path(exchange, c, pairs, true);
    (first, second)
}

/// Operation `a` mirrors operation `b`: equal balances, or inverse operations.
pub open spec fn ops_mirror(a: ExchangeOperationType, b: ExchangeOperationType) -> bool {
    match (a, b) {
        (ExchangeOperationType::Balance(x), ExchangeOperationType::Balance(y)) => x == y,
        _ => ExchangeOperationType::spec_is_inverse(a, b),
    }
}

/// `a` read forwards mirrors `b` read backwards, over the shorter of the two.
pub open spec fn ops_reversed(a: Seq<ExchangeOperationType>, b: Seq<ExchangeOperationType>) -> bool {
    forall|i: int|
        0 <= i < a.len() && i < b.len() ==> #[trigger] ops_mirror(a[i], b[b.len() - 1 - i])
}

/// Number of elements of `s` that are transactions.
proof fn lemma_project_len(s: Seq<ExchangeOperationType>, k: int)
    requires
        0 <= k <= s.len(),
        forall|i: int| 0 <= i < s.len() ==> ((#[trigger] s[i]) is Balance <==> i % 2 == 0),
        !has_transfer(s),
    ensures
        project_pairs(s.take(k)).len() == k / 2,
    decreases k,
{
    if k > 0 {
        assert(s.take(k).drop_last() == s.take(k - 1));
        lemma_project_len(s, k - 1);
        assert(s.take(k).last() == s[k - 1]);
        assert(!(s[k - 1] is Transfer));
    }
}

proof fn lemma_same_exchange_no_transfer(s: Seq<ExchangeOperationType>)
    requires
        same_exchange(s),
    ensures
        !has_transfer(s),
{
    if has_transfer(s) {
        let i = choose|i: int| 0 <= i < s.len() && (#[trigger] s[i]) is Transfer;
        assert(op_exchange(s[i]) == op_exchange(s[0]));
    }
}

impl ArbitragePath {
    pub fn new() -> (r: Self)
        ensures
            r.0@.len() == 0,
    {
        ArbitragePath(Vec::new())
    }

    pub fn is_path_with_transfer(&self) -> (r: bool)
        ensures
            r == has_transfer(self.0@),
    {
        let mut i: usize = 0;
        while i < self.0.len()
            invariant
                i <= self.0@.len(),
                forall|j: int| 0 <= j < i ==> !((#[trigger] self.0@[j]) is Transfer),
            decreases self.0@.len() - i,
        {
            if let ExchangeOperationType::Transfer(_) = self.0[i] {
                return true;
            }
            i += 1;
        }
        false
    }

    pub fn is_same_exchange_path(&self) -> (r: bool)
        ensures
            r == same_exchange(self.0@),
    {
        if self.0.len() == 0 {
            return false;
        }
        let first = match self.0[0] {
            ExchangeOperationType::Balance(b) => b.exchange,
            ExchangeOperationType::Transaction(tx) => tx.exchange,
            ExchangeOperationType::Transfer(_) => {
                return false;
            },
        };
        let mut i: usize = 1;
        while i < self.0.len()
            invariant
                1 <= i <= self.0@.len(),
                op_exchange(self.0@[0]) == Some(first),
                forall|j: int| 0 <= j < i ==> #[trigger] op_exchange(self.0@[j]) == Some(first),
            decreases self.0@.len() - i,
        {
            let ok = match self.0[i] {
                ExchangeOperationType::Balance(b) => b.exchange == first,
                ExchangeOperationType::Transaction(tx) => tx.exchange == first,
                ExchangeOperationType::Transfer(_) => false,
            };
            if !ok {
                assert(op_exchange(self.0@[i as int]) != op_exchange(self.0@[0]));
                return false;
            }
            i += 1;
        }
        true
    }

    /// Whether `cmp` is this walk traversed backwards (over the shorter of the two).
    pub fn is_arbitrage_path_reversed(&self, cmp: &Self) -> (r: bool)
        ensures
            r == ops_reversed(self.0@, cmp.0@),
    {
        let n = self.0.len();
        let m = cmp.0.len();
        let mut i: usize = 0;
        while i < n && i < m
            invariant
                n == self.0@.len(),
                m == cmp.0@.len(),
                i <= n,
                i <= m,
                forall|j: int| 0 <= j < i ==> #[trigger] ops_mirror(self.0@[j], cmp.0@[m - 1 - j]),
            decreases n - i,
        {
            let a = self.0[i];
            let b = cmp.0[m - 1 - i];
            let ok = match (a, b) {
                (ExchangeOperationType::Balance(x), ExchangeOperationType::Balance(y)) => x == y,
                _ => ExchangeOperationType::is_inverse(&a, &b),
            };
            if !ok {
                assert(!ops_mirror(self.0@[i as int], cmp.0@[m - 1 - i]));
                return false;
            }
            i += 1;
        }
        true
    }

    fn transaction_pairs(&self) -> (r: Vec<CurrencyIDPair>)
        ensures
            r@ == project_pairs(self.0@),
    {
        let mut v: Vec<CurrencyIDPair> = Vec::new();
        let mut i: usize = 0;
        while i < self.0.len()
            invariant
                i <= self.0@.len(),
                v@ == project_pairs(self.0@.take(i as int)),
            decreases self.0@.len() - i,
        {
            assert(self.0@.take(i + 1).drop_last() == self.0@.take(i as int));
            if let ExchangeOperationType::Transaction(tx) = self.0[i] {
                v.push(tx_to_currency_id_pairs(&tx));
            }
            i += 1;
        }
        assert(self.0@.take(i as int) == self.0@);
        v
    }

    /// Sorts the walk into one of the five buckets.
    pub fn classify(self) -> (r: ClassifiedPath)
        requires
            alternates(self.0@),
        ensures
            classified_matches(r, self.0@),
    {
        let len = self.0.len();
        let with_transfer = self.is_path_with_transfer();
        if len == 7 && with_transfer {
            let v = &self.0;
            let arr: [ExchangeOperationType; 7] = [v[0], v[1], v[2], v[3], v[4], v[5], v[6]];
            assert(arr@ =~= v@);
            return ClassifiedPath::Tr7(ArbitragePath7Nodes(arr));
        }
        if len == 11 && with_transfer {
            let v = &self.0;
            let arr: [ExchangeOperationType; 11] = [
                v[0],
                v[1],
                v[2],
                v[3],
                v[4],
                v[5],
                v[6],
                v[7],
                v[8],
                v[9],
                v[10],
            ];
            assert(arr@ =~= v@);
            return ClassifiedPath::Tr11(ArbitragePath11Nodes(arr));
        }
        if (len == 7 || len == 11) && self.is_same_exchange_path() {
            let v = self.transaction_pairs();
            proof {
                lemma_same_exchange_no_transfer(self.0@);
                lemma_project_len(self.0@, len as int);
                assert(self.0@.take(len as int) == self.0@);
            }
            if len == 7 {
                let arr: [CurrencyIDPair; 3] = [v[0], v[1], v[2]];
                assert(arr@ =~= v@);
                return ClassifiedPath::Tx3(SingleExchangeTransactionOnly3PairsPath(arr));
            } else {
                let arr: [CurrencyIDPair; 5] = [v[0], v[1], v[2], v[3], v[4]];
                assert(arr@ =~= v@);
                return ClassifiedPath::Tx5(SingleExchangeTransactionOnly5PairsPath(arr));
            }
        }
        ClassifiedPath::Unknown(self)
    }
}

struct SingleExchangeTransactionOnlyNPairsPath<const N: usize>([CurrencyIDPair; N]);

impl<const N: usize> SingleExchangeTransactionOnlyNPairsPath<N> {
    fn get_start_end_currency(arr: &[CurrencyIDPair; N]) -> (r: Option<CurrencyID>)
        ensures
            r == start_end_currency(arr@),
    {
        proof {
            vstd::array::array_len_matches_n(arr);
        }
        if N == 0 {
            return None;
        }
        let first_pair = arr[0];
        let last_pair = arr[N - 1];
        if first_pair.first == last_pair.first || first_pair.first == last_pair.second {
            Some(first_pair.first)
        } else if first_pair.second == last_pair.first || first_pair.second == last_pair.second {
            Some(first_pair.second)
        } else {
            None
        }
    }

    pub fn is_arbitrage_path_reversed(lhs: &[CurrencyIDPair; N], rhs: &[CurrencyIDPair; N]) -> (r: bool)
        ensures
            r == pairs_reversed(lhs@, rhs@),
    {
        proof {
            vstd::array::array_len_matches_n(lhs);
            vstd::array::array_len_matches_n(rhs);
        }
        let mut i: usize = 0;
        while i < N
            invariant
                lhs@.len() == N,
                rhs@.len() == N,
                i <= N,
                forall|j: int| 0 <= j < i ==> #[trigger] lhs@[j] == rhs@[N - 1 - j],
            decreases N - i,
        {
            if lhs[i] != rhs[N - 1 - i] {
                return false;
            }
            i += 1;
        }
        true
    }
}

/// A single-exchange loop stored as the pairs it trades.
pub trait SingleExchangeTransactionOnlyPath: Sized {
    spec fn spec_pairs(&self) -> Seq<CurrencyIDPair>;

    fn get_start_end_currency(&self) -> (r: Option<CurrencyID>)
        ensures
            r == start_end_currency(self.spec_pairs()),
    ;

    fn is_arbitrage_path_reversed(&self, rhs: &Self) -> (r: bool)
        ensures
            r == pairs_reversed(self.spec_pairs(), rhs.spec_pairs()),
    ;
}

impl SingleExchangeTransactionOnlyPath for SingleExchangeTransactionOnly3PairsPath {
    open spec fn spec_pairs(&self) -> Seq<CurrencyIDPair> {
        self.0@
    }

    fn get_start_end_currency(&self) -> (r: Option<CurrencyID>) {
        SingleExchangeTransactionOnlyNPairsPath::get_start_end_currency(&self.0)
    }

    fn is_arbitrage_path_reversed(&self, rhs: &Self) -> (r: bool) {
        SingleExchangeTransactionOnlyNPairsPath::is_arbitrage_path_reversed(&self.0, &rhs.0)
    }
}

impl SingleExchangeTransactionOnlyPath for SingleExchangeTransactionOnly5PairsPath {
    open spec fn spec_pairs(&self) -> Seq<CurrencyIDPair> {
        self.0@
    }

    fn get_start_end_currency(&self) -> (r: Option<CurrencyID>) {
        SingleExchangeTransactionOnlyNPairsPath::get_start_end_currency(&self.0)
    }

    fn is_arbitrage_path_reversed(&self, rhs: &Self) -> (r: bool) {
        SingleExchangeTransactionOnlyNPairsPath::is_arbitrage_path_reversed(&self.0, &rhs.0)
    }
}

/// `s` without the elements that `p` reads backwards, order kept.
pub open spec fn drop_reversed(p: Seq<CurrencyIDPair>, s: Seq<Seq<CurrencyIDPair>>) -> Seq<Seq<CurrencyIDPair>>
    decreases s.len(),
{
    if s.len() == 0 {
        s
    } else if pairs_reversed(p, s.last()) {
        drop_reversed(p, s.drop_last())
    } else {
        drop_reversed(p, s.drop_last()).push(s.last())
    }
}

proof fn lemma_drop_reversed(p: Seq<CurrencyIDPair>, s: Seq<Seq<CurrencyIDPair>>)
    ensures
        drop_reversed(p, s).len() <= s.len(),
        forall|x: Seq<CurrencyIDPair>| #[trigger]
            drop_reversed(p, s).contains(x) == (s.contains(x) && !pairs_reversed(p, x)),
    decreases s.len(),
{
    if s.len() > 0 {
        lemma_drop_reversed(p, s.drop_last());
        assert forall|x: Seq<CurrencyIDPair>| #[trigger]
            drop_reversed(p, s).contains(x) == (s.contains(x) && !pairs_reversed(p, x)) by {
            lemma_push_contains(s.drop_last(), s.last(), x);
            assert(s.drop_last().push(s.last()) == s);
            lemma_push_contains(drop_reversed(p, s.drop_last()), s.last(), x);
        }
    }
}


#[via_fn]
proof fn merged_decreases(s: Seq<Seq<CurrencyIDPair>>) {
    if s.len() > 0 {
        lemma_drop_reversed(s.last(), s.drop_last());
    }
}

/// Reversal deduplication: take the last element, drop every remaining
/// element that it reads backwards, keep it, and go on with the rest.
pub open spec fn merged(s: Seq<Seq<CurrencyIDPair>>) -> Seq<Seq<CurrencyIDPair>>
    decreases s.len(),
    via merged_decreases
{
    if s.len() == 0 {
        s
    } else {
        seq![s.last()] + merged(drop_reversed(s.last(), s.drop_last()))
    }
}

/// No two elements at distinct positions of `s` read each other backwards.
pub open spec fn no_reversed_pairs(s: Seq<Seq<CurrencyIDPair>>) -> bool {
    forall|i: int, j: int| 0 <= i < j < s.len() ==> !pairs_reversed(#[trigger] s[i], #[trigger] s[j])
}

/// `x` is in `s`, or read backwards by an element of `s`.
pub open spec fn represented(s: Seq<Seq<CurrencyIDPair>>, x: Seq<CurrencyIDPair>) -> bool {
    s.contains(x) || exists|k: int| 0 <= k < s.len() && pairs_reversed(#[trigger] s[k], x)
}

proof fn lemma_pairs_reversed_symmetric(a: Seq<CurrencyIDPair>, b: Seq<CurrencyIDPair>)
    ensures
        pairs_reversed(a, b) == pairs_reversed(b, a),
{
    if pairs_reversed(a, b) {
        assert forall|i: int| 0 <= i < b.len() implies #[trigger] b[i] == a[a.len() - 1 - i] by {
            assert(a[a.len() - 1 - i] == b[b.len() - 1 - (a.len() - 1 - i)]);
        }
    }
    if pairs_reversed(b, a) {
        assert forall|i: int| 0 <= i < a.len() implies #[trigger] a[i] == b[b.len() - 1 - i] by {
            assert(b[b.len() - 1 - i] == a[a.len() - 1 - (b.len() - 1 - i)]);
        }
    }
}

/// Every element kept by the deduplication comes from its input.
pub proof fn lemma_merged_from_input(s: Seq<Seq<CurrencyIDPair>>)
    ensures
        forall|x: Seq<CurrencyIDPair>| #[trigger] merged(s).contains(x) ==> s.contains(x),
    decreases s.len(),
{
    if s.len() > 0 {
        let d = drop_reversed(s.last(), s.drop_last());
        lemma_drop_reversed(s.last(), s.drop_last());
        lemma_merged_from_input(d);
        assert forall|x: Seq<CurrencyIDPair>| #[trigger] merged(s).contains(x) implies s.contains(x) by {
            assert(merged(s) == seq![s.last()] + merged(d));
            let k = choose|k: int| 0 <= k < merged(s).len() && merged(s)[k] == x;
            if k == 0 {
                assert(s[s.len() - 1] == x);
            } else {
                assert(merged(d)[k - 1] == x);
                assert(merged(d).contains(x));
                assert(d.contains(x));
                assert(s.drop_last().contains(x));
                let m = choose|m: int| 0 <= m < s.drop_last().len() && s.drop_last()[m] == x;
                assert(s[m] == x);
            }
        }
    }
}

/// The deduplication keeps no two elements that read each other backwards.
pub proof fn lemma_merged_no_reversed_pairs(s: Seq<Seq<CurrencyIDPair>>)
    ensures
        no_reversed_pairs(merged(s)),
    decreases s.len(),
{
    if s.len() > 0 {
        let p = s.last();
        let d = drop_reversed(p, s.drop_last());
        lemma_drop_reversed(p, s.drop_last());
        lemma_merged_no_reversed_pairs(d);
        lemma_merged_from_input(d);
        let m = merged(s);
        assert forall|i: int, j: int| 0 <= i < j < m.len() implies !pairs_reversed(#[trigger] m[i], #[trigger] m[j]) by {
            assert(m[j] == merged(d)[j - 1]);
            assert(merged(d).contains(m[j]));
            if i == 0 {
                assert(m[0] == p);
            } else {
                assert(m[i] == merged(d)[i - 1]);
            }
        }
    }
}

/// Every element of the input is kept, or read backwards by a kept element.
pub proof fn lemma_merged_covers_input(s: Seq<Seq<CurrencyIDPair>>)
    ensures
        forall|x: Seq<CurrencyIDPair>| #[trigger] s.contains(x) ==> represented(merged(s), x),
    decreases s.len(),
{
    if s.len() > 0 {
        let p = s.last();
        let d = drop_reversed(p, s.drop_last());
        lemma_drop_reversed(p, s.drop_last());
        lemma_merged_covers_input(d);
        let m = merged(s);
        assert forall|x: Seq<CurrencyIDPair>| #[trigger] s.contains(x) implies represented(m, x) by {
            assert(m[0] == p);
            if x == p {
            } else {
                lemma_push_contains(s.drop_last(), p, x);
                assert(s.drop_last().push(p) == s);
                if pairs_reversed(p, x) {
                } else {
                    assert(d.contains(x));
                    assert(represented(merged(d), x));
                    if merged(d).contains(x) {
                        let k = choose|k: int| 0 <= k < merged(d).len() && merged(d)[k] == x;
                        assert(m[k + 1] == x);
                    } else {
                        let k = choose|k: int| 0 <= k < merged(d).len() && pairs_reversed(#[trigger] merged(d)[k], x);
                        assert(m[k + 1] == merged(d)[k]);
                    }
                }
            }
        }
    }
}

/// A list with no two loops that read each other backwards loses nothing
/// to the deduplication, which gives it back in reverse order.
pub proof fn lemma_merged_of_unique(r: Seq<Seq<CurrencyIDPair>>)
    requires
        no_reversed_pairs(r),
    ensures
        merged(r) == r.reverse(),
        forall|x: Seq<CurrencyIDPair>| #[trigger] merged(r).contains(x) == r.contains(x),
    decreases r.len(),
{
    if r.len() > 0 {
        let p = r.last();
        let rest = r.drop_last();
        lemma_drop_reversed(p, rest);
        assert forall|i: int| 0 <= i < rest.len() implies !pairs_reversed(p, #[trigger] rest[i]) by {
            assert(rest[i] == r[i]);
            assert(p == r[r.len() - 1]);
            lemma_pairs_reversed_symmetric(p, r[i]);
        }
        assert(drop_reversed(p, rest) == rest) by {
            lemma_drop_all_kept(p, rest);
        }
        assert forall|i: int, j: int| 0 <= i < j < rest.len() implies !pairs_reversed(#[trigger] rest[i], #[trigger] rest[j]) by {
            assert(rest[i] == r[i] && rest[j] == r[j]);
        }
        lemma_merged_of_unique(rest);
        assert forall|x: Seq<CurrencyIDPair>| #[trigger] merged(r).contains(x) == r.contains(x) by {
            lemma_push_contains(rest, p, x);
            assert(rest.push(p) == r);
            assert(merged(r) == seq![p] + merged(rest));
            if merged(rest).contains(x) {
                let k = choose|k: int| 0 <= k < merged(rest).len() && merged(rest)[k] == x;
                assert(merged(r)[k + 1] == x);
            }
            if merged(r).contains(x) && x != p {
                let k = choose|k: int| 0 <= k < merged(r).len() && merged(r)[k] == x;
                assert(k > 0);
                assert(merged(rest)[k - 1] == x);
            }
            if x == p {
                assert(merged(r)[0] == x);
            }
        }
        assert(merged(r) == seq![p] + merged(rest));
        assert(merged(r) =~= r.reverse());
    } else {
        assert(r.reverse() =~= r);
    }
}

proof fn lemma_drop_all_kept(p: Seq<CurrencyIDPair>, s: Seq<Seq<CurrencyIDPair>>)
    requires
        forall|i: int| 0 <= i < s.len() ==> !pairs_reversed(p, #[trigger] s[i]),
    ensures
        drop_reversed(p, s) == s,
    decreases s.len(),
{
    if s.len() > 0 {
        assert forall|i: int| 0 <= i < s.drop_last().len() implies !pairs_reversed(p, #[trigger] s.drop_last()[i]) by {
            assert(s.drop_last()[i] == s[i]);
        }
        lemma_drop_all_kept(p, s.drop_last());
        assert(s[s.len() - 1] == s.last());
        assert(s.drop_last().push(s.last()) == s);
    }
}

/// Deduplicating twice drops nothing more: the second pass gives the first
/// pass's loops back in reverse order, so both hold the same loops.
pub proof fn lemma_merged_idempotent(s: Seq<Seq<CurrencyIDPair>>)
    ensures
        merged(merged(s)) == merged(s).reverse(),
        forall|x: Seq<CurrencyIDPair>| #[trigger] merged(merged(s)).contains(x) == merged(s).contains(x),
{
    lemma_merged_no_reversed_pairs(s);
    lemma_merged_of_unique(merged(s));
}

/// Inputs with the same elements give outputs that represent the same
/// reversal classes: each kept element of one is kept, or read backwards by
/// a kept element, in the other.
pub proof fn lemma_merged_same_classes(s1: Seq<Seq<CurrencyIDPair>>, s2: Seq<Seq<CurrencyIDPair>>)
    requires
        forall|x: Seq<CurrencyIDPair>| #[trigger] s1.contains(x) == s2.contains(x),
    ensures
        forall|x: Seq<CurrencyIDPair>| #[trigger] merged(s1).contains(x) ==> represented(merged(s2), x),
{
    lemma_merged_from_input(s1);
    lemma_merged_covers_input(s2);
    assert forall|x: Seq<CurrencyIDPair>| #[trigger] merged(s1).contains(x) implies represented(merged(s2), x) by {
        assert(s1.contains(x));
        assert(s2.contains(x));
    }
}

/// The traded pairs of each stored loop.
pub open spec fn loops_view<T: SingleExchangeTransactionOnlyPath>(s: Seq<T>) -> Seq<Seq<CurrencyIDPair>> {
    s.map_values(|t: T| t.spec_pairs())
}

/// Drops reversal duplicates from single-exchange loops: repeatedly takes
/// the last loop, drops every remaining loop that it reads backwards, and
/// keeps it.
pub fn merge_reversed_paths<T: SingleExchangeTransactionOnlyPath>(vs: Vec<T>) -> (r: Vec<T>)
    ensures
        loops_view(r@) == merged(loops_view(vs@)),
{
    let ghost goal = merged(loops_view(vs@));
    let mut ret_paths: Vec<T> = Vec::new();
    let mut drain: Vec<T> = vs;
    assert(loops_view(ret_paths@) + merged(loops_view(drain@)) =~= goal);
    while drain.len() > 0
        invariant
            loops_view(ret_paths@) + merged(loops_view(drain@)) == goal,
        decreases drain@.len(),
    {
        let ghost whole = loops_view(drain@);
        let poped = drain.pop().unwrap();
        let ghost pp = poped.spec_pairs();
        let ghost d0 = loops_view(drain@);
        assert(whole.last() == pp);
        assert(whole.drop_last() =~= d0);
        let mut i: usize = 0;
        let ghost mut k: int = 0;
        assert(loops_view(drain@) =~= drop_reversed(pp, d0.take(0)) + d0.skip(0));
        while i < drain.len()
            invariant
                0 <= k <= d0.len(),
                drain@.len() <= d0.len(),
                d0.len() == whole.len() - 1,
                pp == poped.spec_pairs(),
                loops_view(drain@) == drop_reversed(pp, d0.take(k)) + d0.skip(k),
                i == drop_reversed(pp, d0.take(k)).len(),
            decreases d0.len() - k,
        {
            let ghost before = loops_view(drain@);
            assert(before[i as int] == d0[k]);
            assert(d0.take(k + 1).drop_last() == d0.take(k));
            assert(d0.take(k + 1).last() == d0[k]);
            if poped.is_arbitrage_path_reversed(&drain[i]) {
                drain.remove(i);
                proof {
                    assert(loops_view(drain@) =~= before.remove(i as int));
                    assert(loops_view(drain@) =~= drop_reversed(pp, d0.take(k + 1)) + d0.skip(k + 1));
                }
            } else {
                i += 1;
                proof {
                    assert(loops_view(drain@) =~= drop_reversed(pp, d0.take(k + 1)) + d0.skip(k + 1));
                }
            }
            proof {
                k = k + 1;
            }
        }
        proof {
            assert(d0.skip(k).len() == 0);
            assert(d0.take(k) =~= d0);
            assert(loops_view(drain@) =~= drop_reversed(pp, d0));
            assert(merged(whole) == seq![pp] + merged(drop_reversed(pp, d0)));
        }
        let ghost r0 = loops_view(ret_paths@);
        ret_paths.push(poped);
        proof {
            assert(loops_view(ret_paths@) =~= r0.push(pp));
            assert(loops_view(ret_paths@) + merged(loops_view(drain@)) =~= r0 + merged(whole));
        }
    }
    assert(merged(loops_view(drain@)) =~= Seq::<Seq<CurrencyIDPair>>::empty());
    assert(loops_view(ret_paths@) =~= goal);
    ret_paths
}

proof fn lemma_drop_reversed_distinct(p: Seq<CurrencyIDPair>, s: Seq<Seq<CurrencyIDPair>>)
    requires
        s.no_duplicates(),
    ensures
        drop_reversed(p, s).no_duplicates(),
    decreases s.len(),
{
    if s.len() > 0 {
        let d = s.drop_last();
        assert forall|i: int, j: int| 0 <= i < j < d.len() implies d[i] != d[j] by {
            assert(d[i] == s[i] && d[j] == s[j]);
        }
        lemma_drop_reversed_distinct(p, d);
        lemma_drop_reversed(p, d);
        if !pairs_reversed(p, s.last()) {
            let k = drop_reversed(p, d);
            if k.contains(s.last()) {
                let m = choose|m: int| 0 <= m < d.len() && d[m] == s.last();
                assert(s[m] == s[s.len() - 1]);
            }
            assert forall|i: int, j: int| 0 <= i < j < k.push(s.last()).len() implies k.push(s.last())[i]
                != k.push(s.last())[j] by {
                if j == k.len() {
                    assert(k.push(s.last())[i] == k[i]);
                    assert(k.contains(k[i]));
                } else {
                    assert(k.push(s.last())[i] == k[i] && k.push(s.last())[j] == k[j]);
                }
            }
        }
    }
}

/// Deduplicating a list of distinct loops keeps each loop at most once, so
/// with the other laws it keeps exactly one loop of each reversal class.
pub proof fn lemma_merged_distinct(s: Seq<Seq<CurrencyIDPair>>)
    requires
        s.no_duplicates(),
    ensures
        merged(s).no_duplicates(),
    decreases s.len(),
{
    if s.len() > 0 {
        let p = s.last();
        let rest = s.drop_last();
        let d = drop_reversed(p, rest);
        assert forall|i: int, j: int| 0 <= i < j < rest.len() implies rest[i] != rest[j] by {
            assert(rest[i] == s[i] && rest[j] == s[j]);
        }
        lemma_drop_reversed_distinct(p, rest);
        lemma_drop_reversed(p, rest);
        lemma_merged_distinct(d);
        lemma_merged_from_input(d);
        let m = merged(s);
        assert(m == seq![p] + merged(d));
        assert forall|i: int, j: int| 0 <= i < j < m.len() implies m[i] != m[j] by {
            assert(m[j] == merged(d)[j - 1]);
            if i == 0 {
                assert(merged(d).contains(m[j]));
                if m[j] == p {
                    let k = choose|k: int| 0 <= k < rest.len() && rest[k] == p;
                    assert(s[k] == s[s.len() - 1]);
                }
            } else {
                assert(m[i] == merged(d)[i - 1]);
            }
        }
    }
}

/// Trading a pair in either direction: if `p` takes `x` to `y`, it takes `y` to `x`.
proof fn lemma_pair_step_back(p: CurrencyIDPair, x: CurrencyID)
    requires
        p.selects(x),
    ensures
        p.selects(p.spec_next(x).0),
        p.spec_next(p.spec_next(x).0).0 == x,
{
}

proof fn lemma_walk_step(c: CurrencyID, pairs: Seq<CurrencyIDPair>, k: int)
    requires
        walkable(c, pairs),
        0 <= k < pairs.len(),
    ensures
        pairs[k].selects(end_currency(c, pairs.take(k))),
        end_currency(c, pairs.take(k + 1)) == pairs[k].spec_next(end_currency(c, pairs.take(k))).0,
{
    lemma_walkable_prefix(c, pairs, k + 1);
    assert(pairs.take(k + 1).drop_last() == pairs.take(k));
    assert(pairs.take(k + 1).last() == pairs[k]);
}

proof fn lemma_reverse_prefix(c: CurrencyID, pairs: Seq<CurrencyIDPair>, j: int)
    requires
        walkable(c, pairs),
        end_currency(c, pairs) == c,
        0 <= j <= pairs.len(),
    ensures
        walkable(c, pairs.reverse().take(j)),
        end_currency(c, pairs.reverse().take(j)) == end_currency(c, pairs.take(pairs.len() - j)),
    decreases j,
{
    let n = pairs.len() as int;
    if j == 0 {
        assert(pairs.reverse().take(0) =~= Seq::<CurrencyIDPair>::empty());
        assert(pairs.take(n) == pairs);
    } else {
        lemma_reverse_prefix(c, pairs, j - 1);
        let r = pairs.reverse();
        assert(r.take(j).drop_last() == r.take(j - 1));
        assert(r.take(j).last() == pairs[n - j]);
        lemma_walk_step(c, pairs, n - j);
        lemma_pair_step_back(pairs[n - j], end_currency(c, pairs.take(n - j)));
    }
}

/// A loop that can be traded from `c` and returns to `c` can also be traded
/// backwards from `c`, and returns to `c` again.
pub proof fn lemma_reversed_loop_walkable(c: CurrencyID, pairs: Seq<CurrencyIDPair>)
    requires
        walkable(c, pairs),
        end_currency(c, pairs) == c,
    ensures
        walkable(c, pairs.reverse()),
        end_currency(c, pairs.reverse()) == c,
{
    lemma_reverse_prefix(c, pairs, pairs.len() as int);
    assert(pairs.reverse().take(pairs.len() as int) == pairs.reverse());
    assert(pairs.take(0) =~= Seq::<CurrencyIDPair>::empty());
}

} // verus!
