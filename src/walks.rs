use vstd::prelude::*;
use crate::id_types::{
    BalanceExchangeCurrencyInfo, CurrencyID, CurrencyIDPair, ExchangeID, ExchangeOperationType,
    TransactionExchangeCurrenciesBuySellInfo, TransferExchangeToExchangeCurrencyInfo,
};
use crate::nodes::{tr_balance, tr_op, tx_balance, tx_op};
use crate::search_stop_settings::{has_cycle_at_end, level_of, transfer_count, SearchStopSettings};
use crate::arbitrage_paths::{
    alternates, balance_op, class_of, end_currency, has_transfer, interpolated, lemma_reversed_loop_walkable, op_exchange,
    project_pairs, same_exchange, tx_pair, walkable, Target,
};
use crate::network::{lists_currency, Network};

verus! {

/// A transaction step from balance `b` to `b2` follows the derivation rule:
/// the pair it trades contains the held currency, and trading that pair from
/// `b` gives exactly this transaction and this next balance.
pub open spec fn tx_step_ok(
    b: BalanceExchangeCurrencyInfo,
    t: TransactionExchangeCurrenciesBuySellInfo,
    b2: ExchangeOperationType,
) -> bool {
    &&& tx_pair(t).selects(b.currency)
    &&& ExchangeOperationType::Transaction(t) == tx_op(b, tx_pair(t))
    &&& b2 == ExchangeOperationType::Balance(tx_balance(b, tx_pair(t)))
}

/// A transfer step moves the held currency from the balance's exchange to
/// the next balance's exchange.
pub open spec fn tr_step_ok(
    b: BalanceExchangeCurrencyInfo,
    t: TransferExchangeToExchangeCurrencyInfo,
    b2: ExchangeOperationType,
) -> bool {
    &&& t.withdraw_exchange == b.exchange
    &&& t.currency == b.currency
    &&& b2 == ExchangeOperationType::Balance(
        BalanceExchangeCurrencyInfo { exchange: t.deposit_exchange, currency: t.currency },
    )
}

/// Every (balance, operation, balance) triple of `w` is a valid step.
pub open spec fn steps_ok(w: Seq<ExchangeOperationType>) -> bool {
    forall|k: int|
        0 <= k && 2 * k + 2 < w.len() ==> match #[trigger] w[2 * k + 1] {
            ExchangeOperationType::Transaction(t) => w[2 * k] is Balance && tx_step_ok(
                w[2 * k]->Balance_0,
                t,
                w[2 * k + 2],
            ),
            ExchangeOperationType::Transfer(t) => w[2 * k] is Balance && tr_step_ok(
                w[2 * k]->Balance_0,
                t,
                w[2 * k + 2],
            ),
            ExchangeOperationType::Balance(_) => false,
        }
}

/// No two transfers stand in adjacent operation positions.
pub open spec fn no_adjacent_transfers(w: Seq<ExchangeOperationType>) -> bool {
    forall|i: int| 1 <= i && i + 2 < w.len() ==> !((#[trigger] w[i]) is Transfer && w[i + 2] is Transfer)
}

/// No element strictly between the two ends of `w` is equal or inverse to
/// another such element.
pub open spec fn no_inner_cycles(w: Seq<ExchangeOperationType>) -> bool {
    forall|i: int, j: int|
        1 <= i < j < w.len() - 1 ==> #[trigger] w[i] != #[trigger] w[j]
            && !ExchangeOperationType::spec_is_inverse(w[j], w[i])
}

/// What holds of every walk emitted for target `t` under settings `st`.
/// (Operations sit at odd positions; transfers only at positions 3 mod 4.)
pub open spec fn walk_ok(w: Seq<ExchangeOperationType>, t: Target, st: SearchStopSettings) -> bool {
    &&& alternates(w)
    &&& w.len() >= 3
    &&& steps_ok(w)
    &&& w.len() <= 2 * st.max_level + 1
    &&& w.len() <= 2 * st.max_level - 1
    &&& transfer_count(w) <= st.max_transfers
    &&& no_adjacent_transfers(w)
    &&& forall|i: int| 0 <= i < w.len() && (#[trigger] w[i]) is Transfer ==> i % 4 == 3
    &&& (st.ignore_cycles ==> no_inner_cycles(w))
    &&& w[0] == ExchangeOperationType::Balance(t)
    &&& w.last() is Balance
    &&& w.last()->Balance_0.currency == t.currency
}

/// What holds of every walk under expansion (a prefix of emitted walks).
pub open spec fn prefix_ok(chain: Seq<ExchangeOperationType>, t: Target, st: SearchStopSettings, flag: bool) -> bool {
    &&& alternates(chain)
    &&& steps_ok(chain)
    &&& chain[0] == ExchangeOperationType::Balance(t)
    &&& flag == ((chain.len() / 2) % 2 == 0)
    &&& forall|i: int| 0 <= i < chain.len() && (#[trigger] chain[i]) is Transfer ==> ((i + 1) / 2) % 2 == 0
    &&& chain.len() > 1 ==> level_of(chain) < st.max_level && transfer_count(chain) <= st.max_transfers
    &&& st.ignore_cycles ==> forall|i: int, j: int|
        1 <= i < j < chain.len() - 1 ==> #[trigger] chain[i] != #[trigger] chain[j]
            && !ExchangeOperationType::spec_is_inverse(chain[j], chain[i])
}

proof fn lemma_transfer_count_push_balance(s: Seq<ExchangeOperationType>, b: ExchangeOperationType)
    requires
        b is Balance,
    ensures
        transfer_count(s.push(b)) == transfer_count(s),
{
    assert(s.push(b).drop_last() == s);
}

proof fn lemma_extend(
    chain: Seq<ExchangeOperationType>,
    t: Target,
    st: SearchStopSettings,
    flag: bool,
    op: ExchangeOperationType,
    b2: ExchangeOperationType,
)
    requires
        prefix_ok(chain, t, st, flag),
        !st.spec_is_stop(chain),
        !st.spec_is_stop(chain.push(op)),
        !(op is Balance),
        b2 is Balance,
        op is Transfer ==> !flag,
        match op {
            ExchangeOperationType::Transaction(x) => tx_step_ok(chain.last()->Balance_0, x, b2),
            ExchangeOperationType::Transfer(x) => tr_step_ok(chain.last()->Balance_0, x, b2),
            ExchangeOperationType::Balance(_) => false,
        },
    ensures
        prefix_ok(chain.push(op).push(b2), t, st, !flag),
{
    let c1 = chain.push(op);
    let c2 = c1.push(b2);
    let n = chain.len();
    assert forall|i: int| 0 <= i < c2.len() implies ((#[trigger] c2[i]) is Balance <==> i % 2 == 0) by {
        if i < n {
            assert(c2[i] == chain[i]);
        }
    }
    assert(chain.last() == chain[n - 1]);
    assert forall|k: int| 0 <= k && 2 * k + 2 < c2.len() implies match #[trigger] c2[2 * k + 1] {
        ExchangeOperationType::Transaction(x) => c2[2 * k] is Balance && tx_step_ok(
            c2[2 * k]->Balance_0,
            x,
            c2[2 * k + 2],
        ),
        ExchangeOperationType::Transfer(x) => c2[2 * k] is Balance && tr_step_ok(
            c2[2 * k]->Balance_0,
            x,
            c2[2 * k + 2],
        ),
        ExchangeOperationType::Balance(_) => false,
    } by {
        if 2 * k + 2 < n {
            assert(c2[2 * k + 1] == chain[2 * k + 1]);
            assert(c2[2 * k] == chain[2 * k]);
            assert(c2[2 * k + 2] == chain[2 * k + 2]);
        } else {
            assert(2 * k + 1 == n);
            assert(c2[2 * k] == chain[n - 1]);
        }
    }
    assert forall|i: int| 0 <= i < c2.len() && (#[trigger] c2[i]) is Transfer implies ((i + 1) / 2) % 2 == 0 by {
        if i < n {
            assert(c2[i] == chain[i]);
        }
    }
    assert(c1.len() > 1);
    lemma_transfer_count_push_balance(c1, b2);
    if st.ignore_cycles {
        assert(!has_cycle_at_end(chain));
        assert(!has_cycle_at_end(c1));
        assert forall|i: int, j: int| 1 <= i < j < c2.len() - 1 implies #[trigger] c2[i] != #[trigger] c2[j]
            && !ExchangeOperationType::spec_is_inverse(c2[j], c2[i]) by {
            if j < n - 1 {
                assert(c2[i] == chain[i] && c2[j] == chain[j]);
            } else if j == n - 1 {
                assert(c2[i] == chain[i] && c2[j] == chain.last());
                assert(!(chain[i] == chain.last() || ExchangeOperationType::spec_is_inverse(chain.last(), chain[i])));
            } else {
                assert(c2[i] == c1[i] && c2[j] == c1.last());
                assert(!(c1[i] == c1.last() || ExchangeOperationType::spec_is_inverse(c1.last(), c1[i])));
            }
        }
    }
    assert(c2[0] == chain[0]);
}

proof fn lemma_emitted_ok(chain: Seq<ExchangeOperationType>, t: Target, st: SearchStopSettings, flag: bool)
    requires
        prefix_ok(chain, t, st, flag),
        chain.len() > 1,
        chain.last()->Balance_0.currency == t.currency,
    ensures
        walk_ok(chain, t, st),
{
    let n = chain.len();
    assert(chain.last() == chain[n - 1]);
    assert forall|i: int| 0 <= i < n && (#[trigger] chain[i]) is Transfer implies i % 4 == 3 by {
        assert(((i + 1) / 2) % 2 == 0);
        assert(i % 2 == 1);
    }
    assert forall|i: int| 1 <= i && i + 2 < n implies !((#[trigger] chain[i]) is Transfer && chain[i + 2] is Transfer) by {
        if chain[i] is Transfer && chain[i + 2] is Transfer {
            assert(((i + 1) / 2) % 2 == 0);
            assert(((i + 3) / 2) % 2 == 0);
        }
    }
}

/// Every walk emitted by the expansion of a valid prefix is a valid walk.
proof fn lemma_search_ok(net: &Network, st: SearchStopSettings, t: Target, flag: bool, chain: Seq<ExchangeOperationType>)
    requires
        net.wf(),
        prefix_ok(chain, t, st, flag),
    ensures
        forall|i: int|
            0 <= i < net.search_spec(st, t.currency, flag, chain).len() ==> walk_ok(
                #[trigger] net.search_spec(st, t.currency, flag, chain)[i],
                t,
                st,
            ),
    decreases st.max_level - level_of(chain), 2int, 0int,
{
    let b = chain.last()->Balance_0;
    let emitted = if chain.len() > 1 && b.currency == t.currency {
        seq![chain]
    } else {
        Seq::<Seq<ExchangeOperationType>>::empty()
    };
    if chain.len() > 1 && b.currency == t.currency {
        lemma_emitted_ok(chain, t, st, flag);
    }
    if !st.spec_is_stop(chain) {
        let txs = net.tx_part(st, t.currency, flag, chain, net.tx_adjacency(b).len() as int);
        let trs = if flag {
            Seq::empty()
        } else {
            net.tr_part(st, t.currency, flag, chain, net.tr_adjacency(b).len() as int)
        };
        lemma_tx_part_ok(net, st, t, flag, chain, net.tx_adjacency(b).len() as int);
        if !flag {
            lemma_tr_part_ok(net, st, t, flag, chain, net.tr_adjacency(b).len() as int);
        }
        let all = emitted + txs + trs;
        assert(net.search_spec(st, t.currency, flag, chain) == all);
        assert forall|i: int| 0 <= i < all.len() implies walk_ok(#[trigger] all[i], t, st) by {
            if i < emitted.len() {
                assert(all[i] == emitted[i]);
            } else if i < emitted.len() + txs.len() {
                assert(all[i] == txs[i - emitted.len()]);
            } else {
                assert(all[i] == trs[i - emitted.len() - txs.len()]);
            }
        }
    }
}

proof fn lemma_tx_part_ok(
    net: &Network,
    st: SearchStopSettings,
    t: Target,
    flag: bool,
    chain: Seq<ExchangeOperationType>,
    n: int,
)
    requires
        net.wf(),
        prefix_ok(chain, t, st, flag),
        !st.spec_is_stop(chain),
        n <= net.tx_adjacency(chain.last()->Balance_0).len(),
    ensures
        forall|i: int|
            0 <= i < net.tx_part(st, t.currency, flag, chain, n).len() ==> walk_ok(
                #[trigger] net.tx_part(st, t.currency, flag, chain, n)[i],
                t,
                st,
            ),
    decreases st.max_level - level_of(chain), 1int, n,
{
    if n > 0 {
        let b = chain.last()->Balance_0;
        let pair = net.tx_adjacency(b)[n - 1];
        let c1 = chain.push(tx_op(b, pair));
        let rest = net.tx_part(st, t.currency, flag, chain, n - 1);
        lemma_tx_part_ok(net, st, t, flag, chain, n - 1);
        if !st.spec_is_stop(c1) {
            net.lemma_tx_adjacency_selects(b, n - 1);
            let b2 = ExchangeOperationType::Balance(tx_balance(b, pair));
            let x = tx_op(b, pair)->Transaction_0;
            assert(tx_pair(x) == pair);
            lemma_extend(chain, t, st, flag, tx_op(b, pair), b2);
            let c2 = c1.push(b2);
            assert(level_of(c2) == level_of(chain) + 1);
            lemma_search_ok(net, st, t, !flag, c2);
            let sub = net.search_spec(st, t.currency, !flag, c2);
            let all = rest + sub;
            assert forall|i: int| 0 <= i < all.len() implies walk_ok(#[trigger] all[i], t, st) by {
                if i < rest.len() {
                    assert(all[i] == rest[i]);
                } else {
                    assert(all[i] == sub[i - rest.len()]);
                }
            }
        }
    }
}

proof fn lemma_tr_part_ok(
    net: &Network,
    st: SearchStopSettings,
    t: Target,
    flag: bool,
    chain: Seq<ExchangeOperationType>,
    n: int,
)
    requires
        net.wf(),
        prefix_ok(chain, t, st, flag),
        !st.spec_is_stop(chain),
        !flag,
        n <= net.tr_adjacency(chain.last()->Balance_0).len(),
    ensures
        forall|i: int|
            0 <= i < net.tr_part(st, t.currency, flag, chain, n).len() ==> walk_ok(
                #[trigger] net.tr_part(st, t.currency, flag, chain, n)[i],
                t,
                st,
            ),
    decreases st.max_level - level_of(chain), 1int, n,
{
    if n > 0 {
        let b = chain.last()->Balance_0;
        let to = net.tr_adjacency(b)[n - 1];
        let c1 = chain.push(tr_op(b, to));
        let rest = net.tr_part(st, t.currency, flag, chain, n - 1);
        lemma_tr_part_ok(net, st, t, flag, chain, n - 1);
        if !st.spec_is_stop(c1) {
            let b2 = ExchangeOperationType::Balance(tr_balance(b, to));
            lemma_extend(chain, t, st, flag, tr_op(b, to), b2);
            let c2 = c1.push(b2);
            assert(level_of(c2) == level_of(chain) + 1);
            lemma_search_ok(net, st, t, !flag, c2);
            let sub = net.search_spec(st, t.currency, !flag, c2);
            let all = rest + sub;
            assert forall|i: int| 0 <= i < all.len() implies walk_ok(#[trigger] all[i], t, st) by {
                if i < rest.len() {
                    assert(all[i] == rest[i]);
                } else {
                    assert(all[i] == sub[i - rest.len()]);
                }
            }
        }
    }
}

/// Every walk found for a target begins at the target's balance and ends in
/// a balance of the target's currency; balances alternate with operations;
/// every transaction follows the derivation rule and every transfer moves
/// the held currency between the exchanges of its balances; the walk has at
/// most `2 * max_level - 1` (so at most `2 * max_level + 1`) nodes and at
/// most `max_transfers` transfers, each at a position 3 mod 4, so no two of
/// them adjacent; and when cycles are ignored, no two of its inner
/// nodes (all but its two ends) are equal or inverse.
pub proof fn lemma_target_paths_valid(net: &Network, t: Target, st: SearchStopSettings)
    requires
        net.wf(),
    ensures
        forall|i: int|
            0 <= i < net.target_paths_spec(t, st).len() ==> walk_ok(#[trigger] net.target_paths_spec(t, st)[i], t, st),
{
    let root = seq![ExchangeOperationType::Balance(t)];
    assert(prefix_ok(root, t, st, true));
    lemma_search_ok(net, st, t, true, root);
}

proof fn lemma_tx_pair_of_tx_op(b: BalanceExchangeCurrencyInfo, p: CurrencyIDPair)
    requires
        p.selects(b.currency),
    ensures
        tx_op(b, p) is Transaction,
        tx_pair(tx_op(b, p)->Transaction_0) == p,
{
}

proof fn lemma_project_push_step(s: Seq<ExchangeOperationType>, a: ExchangeOperationType, b: ExchangeOperationType)
    requires
        a is Transaction,
        b is Balance,
    ensures
        project_pairs(s.push(a).push(b)) == project_pairs(s).push(tx_pair(a->Transaction_0)),
{
    assert(s.push(a).push(b).drop_last() == s.push(a));
    assert(s.push(a).drop_last() == s);
    assert(s.push(a).push(b).last() == b);
    assert(s.push(a).last() == a);
    assert(project_pairs(s.push(a).push(b)) == project_pairs(s.push(a)));
    assert(project_pairs(s.push(a)) == project_pairs(s).push(tx_pair(a->Transaction_0)));
}

/// Shape of the walk re-expanded from `pairs`.
proof fn lemma_interpolated_facts(e: ExchangeID, c: CurrencyID, pairs: Seq<CurrencyIDPair>)
    requires
        walkable(c, pairs),
    ensures
        interpolated(e, c, pairs).len() == 2 * pairs.len() + 1,
        interpolated(e, c, pairs)[0] == balance_op(e, c),
        interpolated(e, c, pairs).last() == balance_op(e, end_currency(c, pairs)),
        alternates(interpolated(e, c, pairs)),
        forall|i: int|
            0 <= i < interpolated(e, c, pairs).len() ==> #[trigger] op_exchange(interpolated(e, c, pairs)[i])
                == Some(e),
        project_pairs(interpolated(e, c, pairs)) == pairs,
    decreases pairs.len(),
{
    if pairs.len() > 0 {
        let prev = pairs.drop_last();
        lemma_interpolated_facts(e, c, prev);
        let w0 = interpolated(e, c, prev);
        let b = BalanceExchangeCurrencyInfo { exchange: e, currency: end_currency(c, prev) };
        let a = tx_op(b, pairs.last());
        let bb = ExchangeOperationType::Balance(tx_balance(b, pairs.last()));
        let w = w0.push(a).push(bb);
        assert(interpolated(e, c, pairs) == w);
        lemma_tx_pair_of_tx_op(b, pairs.last());
        lemma_project_push_step(w0, a, bb);
        assert(prev.push(pairs.last()) == pairs);
        assert(w[0] == w0[0]);
        assert forall|i: int| 0 <= i < w.len() implies ((#[trigger] w[i]) is Balance <==> i % 2 == 0) by {
            if i < w0.len() {
                assert(w[i] == w0[i]);
            }
        }
        assert forall|i: int| 0 <= i < w.len() implies #[trigger] op_exchange(w[i]) == Some(e) by {
            if i < w0.len() {
                assert(w[i] == w0[i]);
            }
        }
    } else {
        let w = seq![balance_op(e, c)];
        assert(w.drop_last() =~= Seq::<ExchangeOperationType>::empty());
        assert(project_pairs(w.drop_last()) =~= Seq::<CurrencyIDPair>::empty());
        assert(project_pairs(w) =~= Seq::<CurrencyIDPair>::empty());
        assert(pairs =~= Seq::<CurrencyIDPair>::empty());
    }
}

/// Re-expanding a stored loop of three (five) pairs gives a walk that is
/// classified as a loop of three (five) pairs again, with the same pairs.
pub proof fn lemma_reexpanded_loop_classifies(e: ExchangeID, c: CurrencyID, pairs: Seq<CurrencyIDPair>)
    requires
        walkable(c, pairs),
        pairs.len() == 3 || pairs.len() == 5,
    ensures
        class_of(interpolated(e, c, pairs)) == if pairs.len() == 3 {
            2int
        } else {
            3int
        },
        project_pairs(interpolated(e, c, pairs)) == pairs,
{
    lemma_interpolated_facts(e, c, pairs);
    let w = interpolated(e, c, pairs);
    assert(op_exchange(w[0]) == Some(e));
    assert(same_exchange(w));
    if has_transfer(w) {
        let i = choose|i: int| 0 <= i < w.len() && (#[trigger] w[i]) is Transfer;
        assert(op_exchange(w[i]) == Some(e));
    }
}

/// A valid single-exchange walk from `(e, c)` is recovered from the pairs
/// it trades: they can be traded in order from `c`, and re-expanding them
/// gives the walk back.
pub proof fn lemma_projection_recovers_walk(w: Seq<ExchangeOperationType>, e: ExchangeID, c: CurrencyID)
    requires
        alternates(w),
        steps_ok(w),
        same_exchange(w),
        w[0] == balance_op(e, c),
    ensures
        walkable(c, project_pairs(w)),
        interpolated(e, c, project_pairs(w)) == w,
{
    let n = (w.len() - 1) / 2;
    lemma_recovers_prefix(w, e, c, n);
    assert(w.take(2 * n + 1) == w);
}

proof fn lemma_recovers_prefix(w: Seq<ExchangeOperationType>, e: ExchangeID, c: CurrencyID, k: int)
    requires
        alternates(w),
        steps_ok(w),
        same_exchange(w),
        w[0] == balance_op(e, c),
        0 <= k,
        2 * k + 1 <= w.len(),
    ensures
        walkable(c, project_pairs(w.take(2 * k + 1))),
        interpolated(e, c, project_pairs(w.take(2 * k + 1))) == w.take(2 * k + 1),
    decreases k,
{
    if k == 0 {
        assert(w.take(1).drop_last() =~= Seq::<ExchangeOperationType>::empty());
        assert(w.take(1).last() == w[0]);
        assert(project_pairs(w.take(1).drop_last()) =~= Seq::<CurrencyIDPair>::empty());
        assert(project_pairs(w.take(1)) =~= Seq::<CurrencyIDPair>::empty());
        assert(w.take(1) == seq![balance_op(e, c)]);
    } else {
        lemma_recovers_prefix(w, e, c, k - 1);
        let pre = w.take(2 * k - 1);
        let pp = project_pairs(pre);
        lemma_interpolated_facts(e, c, pp);
        let a = w[2 * k - 1];
        let bb = w[2 * k];
        assert(w.take(2 * k + 1) == pre.push(a).push(bb));
        assert(op_exchange(a) == op_exchange(w[0]));
        assert(!(a is Balance));
        assert(a is Transaction);
        assert(bb is Balance);
        let x = a->Transaction_0;
        assert(w[2 * (k - 1) + 1] == a);
        assert(pre.last() == w[2 * k - 2]);
        let b = BalanceExchangeCurrencyInfo { exchange: e, currency: end_currency(c, pp) };
        assert(w[2 * k - 2] == ExchangeOperationType::Balance(b));
        lemma_project_push_step(pre, a, bb);
        let np = pp.push(tx_pair(x));
        assert(np.drop_last() == pp);
        assert(np.last() == tx_pair(x));
        assert(interpolated(e, c, np) == pre.push(tx_op(b, tx_pair(x))).push(
            ExchangeOperationType::Balance(tx_balance(b, tx_pair(x))),
        ));
    }
}

proof fn lemma_concat_distinct(a: Seq<Seq<ExchangeOperationType>>, b: Seq<Seq<ExchangeOperationType>>)
    requires
        a.no_duplicates(),
        b.no_duplicates(),
        forall|i: int, j: int| 0 <= i < a.len() && 0 <= j < b.len() ==> #[trigger] a[i] != #[trigger] b[j],
    ensures
        (a + b).no_duplicates(),
{
    let ab = a + b;
    assert forall|i: int, j: int| 0 <= i < j < ab.len() implies ab[i] != ab[j] by {
        if j < a.len() {
            assert(ab[i] == a[i] && ab[j] == a[j]);
        } else if i < a.len() {
            assert(ab[i] == a[i] && ab[j] == b[j - a.len()]);
        } else {
            assert(ab[i] == b[i - a.len()] && ab[j] == b[j - a.len()]);
        }
    }
}

/// Every walk emitted below `chain` extends it, and none is emitted twice.
proof fn lemma_search_distinct(net: &Network, st: SearchStopSettings, tc: CurrencyID, flag: bool, chain: Seq<ExchangeOperationType>)
    requires
        net.wf(),
        chain.len() >= 1,
    ensures
        forall|i: int|
            0 <= i < net.search_spec(st, tc, flag, chain).len() ==> (#[trigger] net.search_spec(st, tc, flag, chain)[i]).len()
                >= chain.len() && net.search_spec(st, tc, flag, chain)[i].take(chain.len() as int) == chain,
        net.search_spec(st, tc, flag, chain).no_duplicates(),
    decreases st.max_level - level_of(chain), 2int, 0int,
{
    let b = chain.last()->Balance_0;
    let emitted = if chain.len() > 1 && b.currency == tc {
        seq![chain]
    } else {
        Seq::<Seq<ExchangeOperationType>>::empty()
    };
    assert(chain.take(chain.len() as int) == chain);
    if !st.spec_is_stop(chain) {
        let txs = net.tx_part(st, tc, flag, chain, net.tx_adjacency(b).len() as int);
        let trs = if flag {
            Seq::empty()
        } else {
            net.tr_part(st, tc, flag, chain, net.tr_adjacency(b).len() as int)
        };
        lemma_tx_part_distinct(net, st, tc, flag, chain, net.tx_adjacency(b).len() as int);
        if !flag {
            lemma_tr_part_distinct(net, st, tc, flag, chain, net.tr_adjacency(b).len() as int);
        }
        lemma_concat_distinct(emitted, txs);
        assert forall|i: int, j: int| 0 <= i < (emitted + txs).len() && 0 <= j < trs.len() implies
            #[trigger] (emitted + txs)[i] != #[trigger] trs[j] by {
            if i >= emitted.len() {
                assert((emitted + txs)[i] == txs[i - emitted.len()]);
                assert(txs[i - emitted.len()][chain.len() as int] is Transaction);
                assert(trs[j][chain.len() as int] is Transfer);
            } else {
                assert(trs[j].len() > chain.len());
            }
        }
        lemma_concat_distinct(emitted + txs, trs);
        let all = emitted + txs + trs;
        assert(net.search_spec(st, tc, flag, chain) == all);
        assert forall|i: int| 0 <= i < all.len() implies (#[trigger] all[i]).len() >= chain.len()
            && all[i].take(chain.len() as int) == chain by {
            if i < emitted.len() {
                assert(all[i] == emitted[i]);
            } else if i < emitted.len() + txs.len() {
                assert(all[i] == txs[i - emitted.len()]);
            } else {
                assert(all[i] == trs[i - emitted.len() - txs.len()]);
            }
        }
    }
}

proof fn lemma_tx_part_distinct(
    net: &Network,
    st: SearchStopSettings,
    tc: CurrencyID,
    flag: bool,
    chain: Seq<ExchangeOperationType>,
    n: int,
)
    requires
        net.wf(),
        chain.len() >= 1,
        !st.spec_is_stop(chain),
        n <= net.tx_adjacency(chain.last()->Balance_0).len(),
    ensures
        forall|i: int|
            0 <= i < net.tx_part(st, tc, flag, chain, n).len() ==> {
                let w = #[trigger] net.tx_part(st, tc, flag, chain, n)[i];
                &&& w.len() > chain.len()
                &&& w.take(chain.len() as int) == chain
                &&& exists|k: int|
                    0 <= k < n && w[chain.len() as int] == tx_op(
                        chain.last()->Balance_0,
                        #[trigger] net.tx_adjacency(chain.last()->Balance_0)[k],
                    )
            },
        net.tx_part(st, tc, flag, chain, n).no_duplicates(),
    decreases st.max_level - level_of(chain), 1int, n,
{
    if n > 0 {
        let b = chain.last()->Balance_0;
        let adj = net.tx_adjacency(b);
        let pair = adj[n - 1];
        let t = tx_op(b, pair);
        let c1 = chain.push(t);
        let rest = net.tx_part(st, tc, flag, chain, n - 1);
        lemma_tx_part_distinct(net, st, tc, flag, chain, n - 1);
        if !st.spec_is_stop(c1) {
            let c2 = c1.push(ExchangeOperationType::Balance(tx_balance(b, pair)));
            assert(level_of(c2) == level_of(chain) + 1);
            lemma_search_distinct(net, st, tc, !flag, c2);
            let sub = net.search_spec(st, tc, !flag, c2);
            net.lemma_adjacency_distinct(b);
            net.lemma_tx_adjacency_selects(b, n - 1);
            assert forall|j: int| 0 <= j < sub.len() implies (#[trigger] sub[j])[chain.len() as int] == t
                && sub[j].take(chain.len() as int) == chain by {
                assert(sub[j].take(c2.len() as int) == c2);
                assert(sub[j][chain.len() as int] == sub[j].take(c2.len() as int)[chain.len() as int]);
                assert(sub[j].take(chain.len() as int) =~= c2.take(chain.len() as int));
                assert(c2.take(chain.len() as int) =~= chain);
            }
            assert forall|i: int, j: int| 0 <= i < rest.len() && 0 <= j < sub.len() implies #[trigger] rest[i]
                != #[trigger] sub[j] by {
                let w = rest[i];
                let k = choose|k: int| 0 <= k < n - 1 && w[chain.len() as int] == tx_op(b, #[trigger] adj[k]);
                net.lemma_tx_adjacency_selects(b, k);
                lemma_tx_pair_of_tx_op(b, adj[k]);
                lemma_tx_pair_of_tx_op(b, pair);
                assert(adj[k] != adj[n - 1]);
            }
            lemma_concat_distinct(rest, sub);
            let all = rest + sub;
            assert forall|i: int| 0 <= i < all.len() implies {
                let w = #[trigger] all[i];
                &&& w.len() > chain.len()
                &&& w.take(chain.len() as int) == chain
                &&& exists|k: int| 0 <= k < n && w[chain.len() as int] == tx_op(b, #[trigger] adj[k])
            } by {
                if i < rest.len() {
                    assert(all[i] == rest[i]);
                    let k = choose|k: int| 0 <= k < n - 1 && rest[i][chain.len() as int] == tx_op(b, #[trigger] adj[k]);
                    assert(0 <= k < n);
                } else {
                    assert(all[i] == sub[i - rest.len()]);
                    assert(sub[i - rest.len()].len() >= c2.len());
                    assert(all[i][chain.len() as int] == tx_op(b, adj[n - 1]));
                }
            }
        } else {
            assert forall|i: int| 0 <= i < rest.len() implies {
                let w = #[trigger] rest[i];
                exists|k: int| 0 <= k < n && w[chain.len() as int] == tx_op(b, #[trigger] adj[k])
            } by {
                let k = choose|k: int| 0 <= k < n - 1 && rest[i][chain.len() as int] == tx_op(b, #[trigger] adj[k]);
                assert(0 <= k < n);
            }
        }
    }
}

proof fn lemma_tr_part_distinct(
    net: &Network,
    st: SearchStopSettings,
    tc: CurrencyID,
    flag: bool,
    chain: Seq<ExchangeOperationType>,
    n: int,
)
    requires
        net.wf(),
        chain.len() >= 1,
        !st.spec_is_stop(chain),
        n <= net.tr_adjacency(chain.last()->Balance_0).len(),
    ensures
        forall|i: int|
            0 <= i < net.tr_part(st, tc, flag, chain, n).len() ==> {
                let w = #[trigger] net.tr_part(st, tc, flag, chain, n)[i];
                &&& w.len() > chain.len()
                &&& w.take(chain.len() as int) == chain
                &&& exists|k: int|
                    0 <= k < n && w[chain.len() as int] == tr_op(
                        chain.last()->Balance_0,
                        #[trigger] net.tr_adjacency(chain.last()->Balance_0)[k],
                    )
            },
        net.tr_part(st, tc, flag, chain, n).no_duplicates(),
    decreases st.max_level - level_of(chain), 1int, n,
{
    if n > 0 {
        let b = chain.last()->Balance_0;
        let adj = net.tr_adjacency(b);
        let to = adj[n - 1];
        let t = tr_op(b, to);
        let c1 = chain.push(t);
        let rest = net.tr_part(st, tc, flag, chain, n - 1);
        lemma_tr_part_distinct(net, st, tc, flag, chain, n - 1);
        if !st.spec_is_stop(c1) {
            let c2 = c1.push(ExchangeOperationType::Balance(tr_balance(b, to)));
            assert(level_of(c2) == level_of(chain) + 1);
            lemma_search_distinct(net, st, tc, !flag, c2);
            let sub = net.search_spec(st, tc, !flag, c2);
            net.lemma_adjacency_distinct(b);
            assert forall|j: int| 0 <= j < sub.len() implies (#[trigger] sub[j])[chain.len() as int] == t
                && sub[j].take(chain.len() as int) == chain by {
                assert(sub[j].take(c2.len() as int) == c2);
                assert(sub[j][chain.len() as int] == sub[j].take(c2.len() as int)[chain.len() as int]);
                assert(sub[j].take(chain.len() as int) =~= c2.take(chain.len() as int));
                assert(c2.take(chain.len() as int) =~= chain);
            }
            assert forall|i: int, j: int| 0 <= i < rest.len() && 0 <= j < sub.len() implies #[trigger] rest[i]
                != #[trigger] sub[j] by {
                let w = rest[i];
                let k = choose|k: int| 0 <= k < n - 1 && w[chain.len() as int] == tr_op(b, #[trigger] adj[k]);
                assert(adj[k] != adj[n - 1]);
            }
            lemma_concat_distinct(rest, sub);
            let all = rest + sub;
            assert forall|i: int| 0 <= i < all.len() implies {
                let w = #[trigger] all[i];
                &&& w.len() > chain.len()
                &&& w.take(chain.len() as int) == chain
                &&& exists|k: int| 0 <= k < n && w[chain.len() as int] == tr_op(b, #[trigger] adj[k])
            } by {
                if i < rest.len() {
                    assert(all[i] == rest[i]);
                    let k = choose|k: int| 0 <= k < n - 1 && rest[i][chain.len() as int] == tr_op(b, #[trigger] adj[k]);
                    assert(0 <= k < n);
                } else {
                    assert(all[i] == sub[i - rest.len()]);
                    assert(sub[i - rest.len()].len() >= c2.len());
                    assert(all[i][chain.len() as int] == tr_op(b, adj[n - 1]));
                }
            }
        } else {
            assert forall|i: int| 0 <= i < rest.len() implies {
                let w = #[trigger] rest[i];
                exists|k: int| 0 <= k < n && w[chain.len() as int] == tr_op(b, #[trigger] adj[k])
            } by {
                let k = choose|k: int| 0 <= k < n - 1 && rest[i][chain.len() as int] == tr_op(b, #[trigger] adj[k]);
                assert(0 <= k < n);
            }
        }
    }
}

/// No walk is found twice for a target: the result is a set.
pub proof fn lemma_target_paths_distinct(net: &Network, t: Target, st: SearchStopSettings)
    requires
        net.wf(),
    ensures
        net.target_paths_spec(t, st).no_duplicates(),
{
    lemma_search_distinct(net, st, t.currency, true, seq![ExchangeOperationType::Balance(t)]);
}

/// With fewer than two levels no walk is found.
pub proof fn lemma_shallow_search_empty(net: &Network, t: Target, st: SearchStopSettings)
    requires
        net.wf(),
        st.max_level <= 1,
    ensures
        net.target_paths_spec(t, st).len() == 0,
{
    lemma_target_paths_valid(net, t, st);
    if net.target_paths_spec(t, st).len() > 0 {
        assert(walk_ok(net.target_paths_spec(t, st)[0], t, st));
    }
}

/// Every operation of `w` uses the network: a transaction trades a pair that
/// its exchange lists, and a transfer moves a currency between two different
/// exchanges that both list it.
pub open spec fn ops_listed(net: &Network, w: Seq<ExchangeOperationType>) -> bool {
    forall|i: int|
        0 <= i < w.len() ==> match #[trigger] w[i] {
            ExchangeOperationType::Transaction(x) => net.pairs_of(x.exchange).contains(tx_pair(x)),
            ExchangeOperationType::Transfer(x) => {
                &&& x.withdraw_exchange != x.deposit_exchange
                &&& lists_currency(net.pairs_of(x.withdraw_exchange), x.currency)
                &&& lists_currency(net.pairs_of(x.deposit_exchange), x.currency)
            },
            ExchangeOperationType::Balance(_) => true,
        }
}

proof fn lemma_ops_listed_push(net: &Network, w: Seq<ExchangeOperationType>, op: ExchangeOperationType)
    requires
        ops_listed(net, w),
        ops_listed(net, seq![op]),
    ensures
        ops_listed(net, w.push(op)),
{
    assert forall|i: int| 0 <= i < w.push(op).len() implies match #[trigger] w.push(op)[i] {
        ExchangeOperationType::Transaction(x) => net.pairs_of(x.exchange).contains(tx_pair(x)),
        ExchangeOperationType::Transfer(x) => {
            &&& x.withdraw_exchange != x.deposit_exchange
            &&& lists_currency(net.pairs_of(x.withdraw_exchange), x.currency)
            &&& lists_currency(net.pairs_of(x.deposit_exchange), x.currency)
        },
        ExchangeOperationType::Balance(_) => true,
    } by {
        if i < w.len() {
            assert(w.push(op)[i] == w[i]);
        } else {
            assert(w.push(op)[i] == seq![op][0]);
        }
    }
}

proof fn lemma_search_listed(net: &Network, st: SearchStopSettings, tc: CurrencyID, flag: bool, chain: Seq<ExchangeOperationType>)
    requires
        net.wf(),
        net.indices_exact(),
        chain.len() >= 1,
        ops_listed(net, chain),
    ensures
        forall|i: int|
            0 <= i < net.search_spec(st, tc, flag, chain).len() ==> ops_listed(
                net,
                #[trigger] net.search_spec(st, tc, flag, chain)[i],
            ),
    decreases st.max_level - level_of(chain), 2int, 0int,
{
    let b = chain.last()->Balance_0;
    let emitted = if chain.len() > 1 && b.currency == tc {
        seq![chain]
    } else {
        Seq::<Seq<ExchangeOperationType>>::empty()
    };
    if !st.spec_is_stop(chain) {
        let txs = net.tx_part(st, tc, flag, chain, net.tx_adjacency(b).len() as int);
        let trs = if flag {
            Seq::empty()
        } else {
            net.tr_part(st, tc, flag, chain, net.tr_adjacency(b).len() as int)
        };
        lemma_tx_part_listed(net, st, tc, flag, chain, net.tx_adjacency(b).len() as int);
        if !flag {
            lemma_tr_part_listed(net, st, tc, flag, chain, net.tr_adjacency(b).len() as int);
        }
        let all = emitted + txs + trs;
        assert(net.search_spec(st, tc, flag, chain) == all);
        assert forall|i: int| 0 <= i < all.len() implies ops_listed(net, #[trigger] all[i]) by {
            if i < emitted.len() {
                assert(all[i] == emitted[i]);
            } else if i < emitted.len() + txs.len() {
                assert(all[i] == txs[i - emitted.len()]);
            } else {
                assert(all[i] == trs[i - emitted.len() - txs.len()]);
            }
        }
    }
}

proof fn lemma_tx_part_listed(
    net: &Network,
    st: SearchStopSettings,
    tc: CurrencyID,
    flag: bool,
    chain: Seq<ExchangeOperationType>,
    n: int,
)
    requires
        net.wf(),
        net.indices_exact(),
        chain.len() >= 1,
        ops_listed(net, chain),
        !st.spec_is_stop(chain),
        n <= net.tx_adjacency(chain.last()->Balance_0).len(),
    ensures
        forall|i: int|
            0 <= i < net.tx_part(st, tc, flag, chain, n).len() ==> ops_listed(
                net,
                #[trigger] net.tx_part(st, tc, flag, chain, n)[i],
            ),
    decreases st.max_level - level_of(chain), 1int, n,
{
    if n > 0 {
        let b = chain.last()->Balance_0;
        let pair = net.tx_adjacency(b)[n - 1];
        let t = tx_op(b, pair);
        let c1 = chain.push(t);
        let rest = net.tx_part(st, tc, flag, chain, n - 1);
        lemma_tx_part_listed(net, st, tc, flag, chain, n - 1);
        if !st.spec_is_stop(c1) {
            net.lemma_tx_adjacency_selects(b, n - 1);
            net.lemma_tx_adjacency_listed(b, n - 1);
            lemma_tx_pair_of_tx_op(b, pair);
            let bb = ExchangeOperationType::Balance(tx_balance(b, pair));
            assert(ops_listed(net, seq![t])) by {
                assert(seq![t][0] == t);
            }
            assert(ops_listed(net, seq![bb])) by {
                assert(seq![bb][0] == bb);
            }
            lemma_ops_listed_push(net, chain, t);
            lemma_ops_listed_push(net, c1, bb);
            let c2 = c1.push(bb);
            assert(level_of(c2) == level_of(chain) + 1);
            lemma_search_listed(net, st, tc, !flag, c2);
            let sub = net.search_spec(st, tc, !flag, c2);
            let all = rest + sub;
            assert forall|i: int| 0 <= i < all.len() implies ops_listed(net, #[trigger] all[i]) by {
                if i < rest.len() {
                    assert(all[i] == rest[i]);
                } else {
                    assert(all[i] == sub[i - rest.len()]);
                }
            }
        }
    }
}

proof fn lemma_tr_part_listed(
    net: &Network,
    st: SearchStopSettings,
    tc: CurrencyID,
    flag: bool,
    chain: Seq<ExchangeOperationType>,
    n: int,
)
    requires
        net.wf(),
        net.indices_exact(),
        chain.len() >= 1,
        ops_listed(net, chain),
        !st.spec_is_stop(chain),
        n <= net.tr_adjacency(chain.last()->Balance_0).len(),
    ensures
        forall|i: int|
            0 <= i < net.tr_part(st, tc, flag, chain, n).len() ==> ops_listed(
                net,
                #[trigger] net.tr_part(st, tc, flag, chain, n)[i],
            ),
    decreases st.max_level - level_of(chain), 1int, n,
{
    if n > 0 {
        let b = chain.last()->Balance_0;
        let to = net.tr_adjacency(b)[n - 1];
        let t = tr_op(b, to);
        let c1 = chain.push(t);
        let rest = net.tr_part(st, tc, flag, chain, n - 1);
        lemma_tr_part_listed(net, st, tc, flag, chain, n - 1);
        if !st.spec_is_stop(c1) {
            net.lemma_tr_adjacency_listed(b, n - 1);
            let bb = ExchangeOperationType::Balance(tr_balance(b, to));
            assert(ops_listed(net, seq![t])) by {
                assert(seq![t][0] == t);
            }
            assert(ops_listed(net, seq![bb])) by {
                assert(seq![bb][0] == bb);
            }
            lemma_ops_listed_push(net, chain, t);
            lemma_ops_listed_push(net, c1, bb);
            let c2 = c1.push(bb);
            assert(level_of(c2) == level_of(chain) + 1);
            lemma_search_listed(net, st, tc, !flag, c2);
            let sub = net.search_spec(st, tc, !flag, c2);
            let all = rest + sub;
            assert forall|i: int| 0 <= i < all.len() implies ops_listed(net, #[trigger] all[i]) by {
                if i < rest.len() {
                    assert(all[i] == rest[i]);
                } else {
                    assert(all[i] == sub[i - rest.len()]);
                }
            }
        }
    }
}

/// In a network whose indices have been rebuilt, every transaction of a
/// found walk trades a pair that its exchange lists (and, by the walk
/// rules, is derived from it), and every transfer goes between two
/// different exchanges that both list the transferred currency.
pub proof fn lemma_target_paths_listed(net: &Network, t: Target, st: SearchStopSettings)
    requires
        net.wf(),
        net.indices_exact(),
    ensures
        forall|i: int|
            0 <= i < net.target_paths_spec(t, st).len() ==> ops_listed(net, #[trigger] net.target_paths_spec(t, st)[i]),
{
    let root = seq![ExchangeOperationType::Balance(t)];
    assert(ops_listed(net, root)) by {
        assert(root[0] == ExchangeOperationType::Balance(t));
    }
    lemma_search_listed(net, st, t.currency, true, root);
}

/// A found single-exchange loop of three (five) transactions from `(e, c)`,
/// stored as its pairs, re-expands to itself forwards; read backwards the
/// pairs can be traded from `c` too, and re-expand to a walk of the same
/// bucket whose pairs are the stored ones reversed.
pub proof fn lemma_stored_loop_reexpands(w: Seq<ExchangeOperationType>, e: ExchangeID, c: CurrencyID)
    requires
        alternates(w),
        steps_ok(w),
        same_exchange(w),
        w.len() == 7 || w.len() == 11,
        w[0] == balance_op(e, c),
        w.last()->Balance_0.currency == c,
    ensures
        walkable(c, project_pairs(w)),
        walkable(c, project_pairs(w).reverse()),
        interpolated(e, c, project_pairs(w)) == w,
        class_of(interpolated(e, c, project_pairs(w).reverse())) == class_of(w),
        project_pairs(interpolated(e, c, project_pairs(w).reverse())) == project_pairs(w).reverse(),
{
    let q = project_pairs(w);
    lemma_projection_recovers_walk(w, e, c);
    lemma_interpolated_facts(e, c, q);
    assert(end_currency(c, q) == c);
    lemma_reversed_loop_walkable(c, q);
    lemma_reexpanded_loop_classifies(e, c, q);
    lemma_reexpanded_loop_classifies(e, c, q.reverse());
}

/// Step `k` of `w`, from balance `w[2k]`, is one that the expansion offers:
/// a transaction on a pair of the transaction index, or (at odd steps only) a
/// transfer to an exchange of the transfer index, with the balance it leads to.
pub open spec fn step_offered(net: &Network, w: Seq<ExchangeOperationType>, k: int) -> bool {
    let b = w[2 * k]->Balance_0;
    &&& w[2 * k] is Balance
    &&& match w[2 * k + 1] {
        ExchangeOperationType::Transaction(_) => exists|j: int|
            0 <= j < net.tx_adjacency(b).len() && w[2 * k + 1] == tx_op(b, #[trigger] net.tx_adjacency(b)[j])
                && w[2 * k + 2] == ExchangeOperationType::Balance(tx_balance(b, net.tx_adjacency(b)[j])),
        ExchangeOperationType::Transfer(_) => k % 2 == 1 && exists|j: int|
            0 <= j < net.tr_adjacency(b).len() && w[2 * k + 1] == tr_op(b, #[trigger] net.tr_adjacency(b)[j])
                && w[2 * k + 2] == ExchangeOperationType::Balance(tr_balance(b, net.tr_adjacency(b)[j])),
        ExchangeOperationType::Balance(_) => false,
    }
}

/// The walks the expansion of target `t` emits, described directly: they
/// start at `t`'s balance, end in a balance of `t`'s currency after at least
/// one step, take only steps the network offers, and no node before the last
/// one stops the search.
pub open spec fn expansion_walk(net: &Network, t: Target, st: SearchStopSettings, w: Seq<ExchangeOperationType>) -> bool {
    &&& alternates(w)
    &&& w.len() >= 3
    &&& w[0] == ExchangeOperationType::Balance(t)
    &&& w.last()->Balance_0.currency == t.currency
    &&& forall|k: int| 0 <= k && 2 * k + 2 < w.len() ==> #[trigger] step_offered(net, w, k)
    &&& forall|j: int| 1 <= j < w.len() ==> !st.spec_is_stop(#[trigger] w.take(j))
}

/// The expansion part of `expansion_walk`, for a walk under expansion.
pub open spec fn chain_offered(net: &Network, st: SearchStopSettings, chain: Seq<ExchangeOperationType>) -> bool {
    &&& alternates(chain)
    &&& forall|k: int| 0 <= k && 2 * k + 2 < chain.len() ==> #[trigger] step_offered(net, chain, k)
    &&& forall|j: int| 1 <= j < chain.len() ==> !st.spec_is_stop(#[trigger] chain.take(j))
}

proof fn lemma_chain_offered_extend(
    net: &Network,
    st: SearchStopSettings,
    chain: Seq<ExchangeOperationType>,
    op: ExchangeOperationType,
    bb: ExchangeOperationType,
)
    requires
        chain_offered(net, st, chain),
        !st.spec_is_stop(chain),
        !st.spec_is_stop(chain.push(op)),
        !(op is Balance),
        bb is Balance,
        step_offered(net, chain.push(op).push(bb), (chain.len() - 1) / 2),
    ensures
        chain_offered(net, st, chain.push(op).push(bb)),
{
    let c1 = chain.push(op);
    let c2 = c1.push(bb);
    let n = chain.len();
    assert forall|i: int| 0 <= i < c2.len() implies ((#[trigger] c2[i]) is Balance <==> i % 2 == 0) by {
        if i < n {
            assert(c2[i] == chain[i]);
        }
    }
    assert forall|k: int| 0 <= k && 2 * k + 2 < c2.len() implies #[trigger] step_offered(net, c2, k) by {
        if 2 * k + 2 < n {
            assert(step_offered(net, chain, k));
            assert(c2[2 * k] == chain[2 * k] && c2[2 * k + 1] == chain[2 * k + 1] && c2[2 * k + 2] == chain[2 * k + 2]);
        }
    }
    assert forall|j: int| 1 <= j < c2.len() implies !st.spec_is_stop(#[trigger] c2.take(j)) by {
        if j < n {
            assert(c2.take(j) =~= chain.take(j));
        } else if j == n {
            assert(c2.take(j) =~= chain);
        } else {
            assert(c2.take(j) =~= c1);
        }
    }
}

proof fn lemma_search_offered(net: &Network, st: SearchStopSettings, tc: CurrencyID, flag: bool, chain: Seq<ExchangeOperationType>)
    requires
        net.wf(),
        chain.len() >= 1,
        chain.len() % 2 == 1,
        flag == (((chain.len() - 1) / 2) % 2 == 0),
        chain_offered(net, st, chain),
    ensures
        forall|i: int|
            0 <= i < net.search_spec(st, tc, flag, chain).len() ==> chain_offered(
                net,
                st,
                #[trigger] net.search_spec(st, tc, flag, chain)[i],
            ),
    decreases st.max_level - level_of(chain), 2int, 0int,
{
    let b = chain.last()->Balance_0;
    let emitted = if chain.len() > 1 && b.currency == tc {
        seq![chain]
    } else {
        Seq::<Seq<ExchangeOperationType>>::empty()
    };
    if !st.spec_is_stop(chain) {
        let txs = net.tx_part(st, tc, flag, chain, net.tx_adjacency(b).len() as int);
        let trs = if flag {
            Seq::empty()
        } else {
            net.tr_part(st, tc, flag, chain, net.tr_adjacency(b).len() as int)
        };
        lemma_tx_part_offered(net, st, tc, flag, chain, net.tx_adjacency(b).len() as int);
        if !flag {
            lemma_tr_part_offered(net, st, tc, flag, chain, net.tr_adjacency(b).len() as int);
        }
        let all = emitted + txs + trs;
        assert(net.search_spec(st, tc, flag, chain) == all);
        assert forall|i: int| 0 <= i < all.len() implies chain_offered(net, st, #[trigger] all[i]) by {
            if i < emitted.len() {
                assert(all[i] == emitted[i]);
            } else if i < emitted.len() + txs.len() {
                assert(all[i] == txs[i - emitted.len()]);
            } else {
                assert(all[i] == trs[i - emitted.len() - txs.len()]);
            }
        }
    }
}

proof fn lemma_tx_part_offered(
    net: &Network,
    st: SearchStopSettings,
    tc: CurrencyID,
    flag: bool,
    chain: Seq<ExchangeOperationType>,
    n: int,
)
    requires
        net.wf(),
        chain.len() >= 1,
        chain.len() % 2 == 1,
        flag == (((chain.len() - 1) / 2) % 2 == 0),
        chain_offered(net, st, chain),
        !st.spec_is_stop(chain),
        n <= net.tx_adjacency(chain.last()->Balance_0).len(),
    ensures
        forall|i: int|
            0 <= i < net.tx_part(st, tc, flag, chain, n).len() ==> chain_offered(
                net,
                st,
                #[trigger] net.tx_part(st, tc, flag, chain, n)[i],
            ),
    decreases st.max_level - level_of(chain), 1int, n,
{
    if n > 0 {
        let b = chain.last()->Balance_0;
        let adj = net.tx_adjacency(b);
        let pair = adj[n - 1];
        let t = tx_op(b, pair);
        let c1 = chain.push(t);
        let rest = net.tx_part(st, tc, flag, chain, n - 1);
        lemma_tx_part_offered(net, st, tc, flag, chain, n - 1);
        if !st.spec_is_stop(c1) {
            let bb = ExchangeOperationType::Balance(tx_balance(b, pair));
            let c2 = c1.push(bb);
            let k = (chain.len() - 1) / 2;
            assert(2 * k + 1 == chain.len());
            assert(c2[2 * k] == chain.last());
            assert(c2[2 * k + 1] == t && c2[2 * k + 2] == bb);
            assert(step_offered(net, c2, k));
            lemma_chain_offered_extend(net, st, chain, t, bb);
            assert(level_of(c2) == level_of(chain) + 1);
            lemma_search_offered(net, st, tc, !flag, c2);
            let sub = net.search_spec(st, tc, !flag, c2);
            let all = rest + sub;
            assert forall|i: int| 0 <= i < all.len() implies chain_offered(net, st, #[trigger] all[i]) by {
                if i < rest.len() {
                    assert(all[i] == rest[i]);
                } else {
                    assert(all[i] == sub[i - rest.len()]);
                }
            }
        }
    }
}

proof fn lemma_tr_part_offered(
    net: &Network,
    st: SearchStopSettings,
    tc: CurrencyID,
    flag: bool,
    chain: Seq<ExchangeOperationType>,
    n: int,
)
    requires
        net.wf(),
        chain.len() >= 1,
        chain.len() % 2 == 1,
        flag == (((chain.len() - 1) / 2) % 2 == 0),
        !flag,
        chain_offered(net, st, chain),
        !st.spec_is_stop(chain),
        n <= net.tr_adjacency(chain.last()->Balance_0).len(),
    ensures
        forall|i: int|
            0 <= i < net.tr_part(st, tc, flag, chain, n).len() ==> chain_offered(
                net,
                st,
                #[trigger] net.tr_part(st, tc, flag, chain, n)[i],
            ),
    decreases st.max_level - level_of(chain), 1int, n,
{
    if n > 0 {
        let b = chain.last()->Balance_0;
        let adj = net.tr_adjacency(b);
        let to = adj[n - 1];
        let t = tr_op(b, to);
        let c1 = chain.push(t);
        let rest = net.tr_part(st, tc, flag, chain, n - 1);
        lemma_tr_part_offered(net, st, tc, flag, chain, n - 1);
        if !st.spec_is_stop(c1) {
            let bb = ExchangeOperationType::Balance(tr_balance(b, to));
            let c2 = c1.push(bb);
            let k = (chain.len() - 1) / 2;
            assert(2 * k + 1 == chain.len());
            assert(c2[2 * k] == chain.last());
            assert(c2[2 * k + 1] == t && c2[2 * k + 2] == bb);
            assert(step_offered(net, c2, k));
            lemma_chain_offered_extend(net, st, chain, t, bb);
            assert(level_of(c2) == level_of(chain) + 1);
            lemma_search_offered(net, st, tc, !flag, c2);
            let sub = net.search_spec(st, tc, !flag, c2);
            let all = rest + sub;
            assert forall|i: int| 0 <= i < all.len() implies chain_offered(net, st, #[trigger] all[i]) by {
                if i < rest.len() {
                    assert(all[i] == rest[i]);
                } else {
                    assert(all[i] == sub[i - rest.len()]);
                }
            }
        }
    }
}

proof fn lemma_tx_part_grows(
    net: &Network,
    st: SearchStopSettings,
    tc: CurrencyID,
    flag: bool,
    chain: Seq<ExchangeOperationType>,
    n1: int,
    n2: int,
    w: Seq<ExchangeOperationType>,
)
    requires
        0 <= n1 <= n2,
        net.tx_part(st, tc, flag, chain, n1).contains(w),
    ensures
        net.tx_part(st, tc, flag, chain, n2).contains(w),
    decreases n2 - n1,
{
    if n1 < n2 {
        lemma_tx_part_grows(net, st, tc, flag, chain, n1, n2 - 1, w);
        let rest = net.tx_part(st, tc, flag, chain, n2 - 1);
        let i = choose|i: int| 0 <= i < rest.len() && rest[i] == w;
        let whole = net.tx_part(st, tc, flag, chain, n2);
        assert(whole[i] == rest[i]);
    }
}

proof fn lemma_tr_part_grows(
    net: &Network,
    st: SearchStopSettings,
    tc: CurrencyID,
    flag: bool,
    chain: Seq<ExchangeOperationType>,
    n1: int,
    n2: int,
    w: Seq<ExchangeOperationType>,
)
    requires
        0 <= n1 <= n2,
        net.tr_part(st, tc, flag, chain, n1).contains(w),
    ensures
        net.tr_part(st, tc, flag, chain, n2).contains(w),
    decreases n2 - n1,
{
    if n1 < n2 {
        lemma_tr_part_grows(net, st, tc, flag, chain, n1, n2 - 1, w);
        let rest = net.tr_part(st, tc, flag, chain, n2 - 1);
        let i = choose|i: int| 0 <= i < rest.len() && rest[i] == w;
        let whole = net.tr_part(st, tc, flag, chain, n2);
        assert(whole[i] == rest[i]);
    }
}

/// A walk that extends `chain` by offered steps, with no stop before its
/// last node, and that ends in currency `tc`, is emitted below `chain`.
proof fn lemma_search_complete(
    net: &Network,
    st: SearchStopSettings,
    tc: CurrencyID,
    flag: bool,
    chain: Seq<ExchangeOperationType>,
    w: Seq<ExchangeOperationType>,
)
    requires
        chain.len() >= 1,
        chain.len() % 2 == 1,
        flag == (((chain.len() - 1) / 2) % 2 == 0),
        w.len() >= chain.len(),
        w.len() > 1,
        w.take(chain.len() as int) == chain,
        alternates(w),
        w.last()->Balance_0.currency == tc,
        forall|k: int| (chain.len() - 1) / 2 <= k && 2 * k + 2 < w.len() ==> #[trigger] step_offered(net, w, k),
        forall|j: int| chain.len() <= j < w.len() ==> !st.spec_is_stop(#[trigger] w.take(j)),
    ensures
        net.search_spec(st, tc, flag, chain).contains(w),
    decreases w.len() - chain.len(),
{
    let n = chain.len() as int;
    let b = chain.last()->Balance_0;
    let emitted = if chain.len() > 1 && b.currency == tc {
        seq![chain]
    } else {
        Seq::<Seq<ExchangeOperationType>>::empty()
    };
    let whole = net.search_spec(st, tc, flag, chain);
    if w.len() == n {
        assert(w == w.take(n));
        assert(chain.last() == w.last());
        assert(whole[0] == chain);
    } else {
        assert(w.len() >= n + 2);
        assert(w.take(n) == chain);
        assert(!st.spec_is_stop(chain));
        let k = (n - 1) / 2;
        assert(step_offered(net, w, k));
        assert(w[2 * k] == chain[n - 1]);
        assert(chain.last() == chain[n - 1]);
        let op = w[n];
        let bb = w[n + 1];
        let c1 = chain.push(op);
        let c2 = c1.push(bb);
        assert(w.take(n + 1) =~= c1);
        assert(w.take(n + 2) =~= c2);
        assert(!st.spec_is_stop(c1));
        assert(w.take(c2.len() as int) == c2);
        assert forall|kk: int| (c2.len() - 1) / 2 <= kk && 2 * kk + 2 < w.len() implies #[trigger] step_offered(net, w, kk) by {
            assert(step_offered(net, w, kk));
        }
        lemma_search_complete(net, st, tc, !flag, c2, w);
        let sub = net.search_spec(st, tc, !flag, c2);
        let txs = net.tx_part(st, tc, flag, chain, net.tx_adjacency(b).len() as int);
        let trs = if flag {
            Seq::empty()
        } else {
            net.tr_part(st, tc, flag, chain, net.tr_adjacency(b).len() as int)
        };
        assert(whole == emitted + txs + trs);
        let iw = choose|i: int| 0 <= i < sub.len() && sub[i] == w;
        if op is Transaction {
            let jj = choose|j: int|
                0 <= j < net.tx_adjacency(b).len() && w[2 * k + 1] == tx_op(b, #[trigger] net.tx_adjacency(b)[j])
                    && w[2 * k + 2] == ExchangeOperationType::Balance(tx_balance(b, net.tx_adjacency(b)[j]));
            let part = net.tx_part(st, tc, flag, chain, jj + 1);
            let before = net.tx_part(st, tc, flag, chain, jj);
            assert(part == before + sub);
            assert(part[before.len() + iw] == w);
            lemma_tx_part_grows(net, st, tc, flag, chain, jj + 1, net.tx_adjacency(b).len() as int, w);
            let ti = choose|i: int| 0 <= i < txs.len() && txs[i] == w;
            assert(whole[emitted.len() + ti] == w);
        } else {
            assert(op is Transfer);
            assert(!flag);
            let jj = choose|j: int|
                0 <= j < net.tr_adjacency(b).len() && w[2 * k + 1] == tr_op(b, #[trigger] net.tr_adjacency(b)[j])
                    && w[2 * k + 2] == ExchangeOperationType::Balance(tr_balance(b, net.tr_adjacency(b)[j]));
            let part = net.tr_part(st, tc, flag, chain, jj + 1);
            let before = net.tr_part(st, tc, flag, chain, jj);
            assert(part == before + sub);
            assert(part[before.len() + iw] == w);
            lemma_tr_part_grows(net, st, tc, flag, chain, jj + 1, net.tr_adjacency(b).len() as int, w);
            let ti = choose|i: int| 0 <= i < trs.len() && trs[i] == w;
            assert(whole[emitted.len() + txs.len() + ti] == w);
        }
    }
}

/// The walks found for a target are exactly the expansion walks: those that
/// start at its balance, end in a balance of its currency after at least one
/// step, take only steps the network offers (transfers at odd steps only),
/// and have no node before the last one that stops the search.
pub proof fn lemma_target_paths_characterised(net: &Network, t: Target, st: SearchStopSettings)
    requires
        net.wf(),
    ensures
        forall|w: Seq<ExchangeOperationType>| #[trigger]
            net.target_paths_spec(t, st).contains(w) == expansion_walk(net, t, st, w),
{
    let root = seq![ExchangeOperationType::Balance(t)];
    assert(chain_offered(net, st, root)) by {
        assert forall|i: int| 0 <= i < root.len() implies ((#[trigger] root[i]) is Balance <==> i % 2 == 0) by {}
    }
    lemma_search_offered(net, st, t.currency, true, root);
    lemma_target_paths_valid(net, t, st);
    let found = net.target_paths_spec(t, st);
    assert forall|w: Seq<ExchangeOperationType>| #[trigger] found.contains(w) == expansion_walk(net, t, st, w) by {
        if found.contains(w) {
            let i = choose|i: int| 0 <= i < found.len() && found[i] == w;
            assert(chain_offered(net, st, found[i]));
            assert(walk_ok(found[i], t, st));
        }
        if expansion_walk(net, t, st, w) {
            assert(w.take(1) =~= root);
            lemma_search_complete(net, st, t.currency, true, root, w);
        }
    }
}

} // verus!
