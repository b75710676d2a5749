use crypto_paths::print_path::{string_id, PrintPath};
use crypto_paths::arbitrage_paths::{
    merge_reversed_paths, ArbitragePath, ClassifiedPath, SingleExchangeTransactionOnly3PairsPath,
    SingleExchangeTransactionOnly5PairsPath, SingleExchangeTransactionOnlyPath,
};
use crypto_paths::id_types::{
    BalanceExchangeCurrencyInfo, CurrencyID, CurrencyIDPair, ExchangeID, ExchangeOperationType,
    TransactionExchangeCurrenciesBuySellInfo, TransactionSide, TransferExchangeToExchangeCurrencyInfo,
};
use crypto_paths::network::{classify_target_paths, OptimizedPreCalcedPaths};
use std::collections::HashSet;

fn pair(a: u16, b: u16) -> CurrencyIDPair {
    CurrencyIDPair::new(CurrencyID(a), CurrencyID(b))
}

fn bal(e: u8, c: u16) -> ExchangeOperationType {
    ExchangeOperationType::Balance(BalanceExchangeCurrencyInfo { exchange: ExchangeID(e), currency: CurrencyID(c) })
}

fn tx(e: u8, side: TransactionSide, from: u16, to: u16) -> ExchangeOperationType {
    ExchangeOperationType::Transaction(TransactionExchangeCurrenciesBuySellInfo {
        exchange: ExchangeID(e),
        side,
        currency_from: CurrencyID(from),
        currency_to: CurrencyID(to),
    })
}

fn tr(from: u8, to: u8, c: u16) -> ExchangeOperationType {
    ExchangeOperationType::Transfer(TransferExchangeToExchangeCurrencyInfo {
        withdraw_exchange: ExchangeID(from),
        deposit_exchange: ExchangeID(to),
        currency: CurrencyID(c),
    })
}

fn loop3() -> Vec<ExchangeOperationType> {
    vec![
        bal(0, 0),
        tx(0, TransactionSide::BUY, 0, 1),
        bal(0, 1),
        tx(0, TransactionSide::BUY, 1, 2),
        bal(0, 2),
        tx(0, TransactionSide::SELL, 2, 0),
        bal(0, 0),
    ]
}

#[test]
fn is_exchange_only_path() {
    assert!(ArbitragePath(loop3()).is_same_exchange_path());
    assert!(!ArbitragePath::new().is_same_exchange_path());
    let with_transfer = ArbitragePath(vec![bal(0, 0), tr(0, 1, 0), bal(1, 0)]);
    assert!(!with_transfer.is_same_exchange_path());
    assert!(with_transfer.is_path_with_transfer());
    assert!(!ArbitragePath(loop3()).is_path_with_transfer());
    let two_exchanges = ArbitragePath(vec![bal(0, 0), tx(1, TransactionSide::BUY, 0, 1), bal(1, 1)]);
    assert!(!two_exchanges.is_same_exchange_path());
}

#[test]
fn classify_single_exchange_loop_projects_pairs() {
    match ArbitragePath(loop3()).classify() {
        ClassifiedPath::Tx3(p) => assert_eq!(p.0, [pair(0, 1), pair(1, 2), pair(0, 2)]),
        _ => panic!("expected a loop of three pairs"),
    }
}

#[test]
fn classify_buckets() {
    let tr7 = vec![bal(0, 0), tx(0, TransactionSide::BUY, 0, 1), bal(0, 1), tr(0, 1, 1), bal(1, 1), tx(1, TransactionSide::SELL, 1, 0), bal(1, 0)];
    assert!(matches!(ArbitragePath(tr7).classify(), ClassifiedPath::Tr7(_)));
    let mut tr11 = vec![bal(0, 0)];
    for (i, op) in [tx(0, TransactionSide::BUY, 0, 1), tr(0, 1, 1), tx(1, TransactionSide::BUY, 1, 2), tr(1, 0, 2), tx(0, TransactionSide::SELL, 2, 0)].iter().enumerate() {
        tr11.push(*op);
        let next = match op {
            ExchangeOperationType::Transaction(t) => bal(t.exchange.0, t.currency_to.0),
            ExchangeOperationType::Transfer(t) => bal(t.deposit_exchange.0, t.currency.0),
            _ => unreachable!(),
        };
        let _ = i;
        tr11.push(next);
    }
    assert_eq!(tr11.len(), 11);
    assert!(matches!(ArbitragePath(tr11).classify(), ClassifiedPath::Tr11(_)));
    let mut tx11 = vec![bal(0, 0)];
    for (from, to, side) in [(0u16, 1u16, TransactionSide::BUY), (1, 2, TransactionSide::BUY), (2, 3, TransactionSide::BUY), (3, 4, TransactionSide::BUY), (4, 0, TransactionSide::SELL)] {
        tx11.push(tx(0, side, from, to));
        tx11.push(bal(0, to));
    }
    match ArbitragePath(tx11).classify() {
        ClassifiedPath::Tx5(p) => assert_eq!(p.0, [pair(0, 1), pair(1, 2), pair(2, 3), pair(3, 4), pair(0, 4)]),
        _ => panic!("expected a loop of five pairs"),
    }
    let short = vec![bal(0, 0), tx(0, TransactionSide::BUY, 0, 1), bal(0, 1)];
    assert!(matches!(ArbitragePath(short).classify(), ClassifiedPath::Unknown(_)));
}

#[test]
fn reversed_walks_mirror_each_other() {
    let w = loop3();
    let mut rev = w.clone();
    rev.reverse();
    let back: Vec<ExchangeOperationType> = rev
        .iter()
        .map(|op| match op {
            ExchangeOperationType::Transaction(t) => ExchangeOperationType::Transaction(TransactionExchangeCurrenciesBuySellInfo {
                exchange: t.exchange,
                side: if t.side == TransactionSide::BUY { TransactionSide::SELL } else { TransactionSide::BUY },
                currency_from: t.currency_to,
                currency_to: t.currency_from,
            }),
            other => *other,
        })
        .collect();
    assert!(ArbitragePath(w.clone()).is_arbitrage_path_reversed(&ArbitragePath(back)));
    assert!(!ArbitragePath(w.clone()).is_arbitrage_path_reversed(&ArbitragePath(w)));
}

#[test]
fn dedup_keeps_one_of_each_reversal_pair() {
    let a = SingleExchangeTransactionOnly3PairsPath([pair(0, 1), pair(1, 2), pair(0, 2)]);
    let a_rev = SingleExchangeTransactionOnly3PairsPath([pair(0, 2), pair(1, 2), pair(0, 1)]);
    let b = SingleExchangeTransactionOnly3PairsPath([pair(0, 3), pair(3, 4), pair(0, 4)]);
    assert!(a.is_arbitrage_path_reversed(&a_rev));
    assert!(!a.is_arbitrage_path_reversed(&b));
    assert_eq!(a.get_start_end_currency(), Some(CurrencyID(0)));
    let kept = merge_reversed_paths(vec![a, b, a_rev]);
    assert_eq!(kept, vec![a_rev, b]);
    let again = merge_reversed_paths(kept.clone());
    let s1: HashSet<_> = kept.iter().collect();
    let s2: HashSet<_> = again.iter().collect();
    assert_eq!(s1, s2);
    let other_order = merge_reversed_paths(vec![a_rev, a, b]);
    assert_eq!(other_order.len(), 2);
    assert!(merge_reversed_paths::<SingleExchangeTransactionOnly5PairsPath>(vec![]).is_empty());
}

#[test]
fn start_end_currency_of_loops() {
    let p = SingleExchangeTransactionOnly5PairsPath([pair(0, 1), pair(1, 2), pair(2, 3), pair(3, 4), pair(4, 0)]);
    assert_eq!(p.get_start_end_currency(), Some(CurrencyID(0)));
    let q = SingleExchangeTransactionOnly3PairsPath([pair(5, 1), pair(1, 2), pair(2, 3)]);
    assert_eq!(q.get_start_end_currency(), None);
    let r = SingleExchangeTransactionOnly3PairsPath([pair(1, 5), pair(1, 2), pair(2, 5)]);
    assert_eq!(r.get_start_end_currency(), Some(CurrencyID(5)));
}

#[test]
fn stats_count_each_bucket() {
    let bundle: OptimizedPreCalcedPaths = classify_target_paths(
        BalanceExchangeCurrencyInfo { exchange: ExchangeID(0), currency: CurrencyID(0) },
        vec![ArbitragePath(loop3()), ArbitragePath(vec![bal(0, 0), tx(0, TransactionSide::BUY, 0, 1), bal(0, 1)])],
    );
    let stats = bundle.stats();
    assert_eq!(stats.tx_only_3pairs_paths, 1);
    assert_eq!(stats.unknown_paths, 1);
    assert_eq!(stats.tr_7_paths, 0);
    let expected = std::mem::size_of::<BalanceExchangeCurrencyInfo>()
        + std::mem::size_of::<Option<Vec<crypto_paths::arbitrage_paths::ArbitragePath7Nodes>>>()
        + std::mem::size_of::<Option<Vec<crypto_paths::arbitrage_paths::ArbitragePath11Nodes>>>()
        + std::mem::size_of::<Option<Vec<SingleExchangeTransactionOnly3PairsPath>>>()
        + std::mem::size_of::<SingleExchangeTransactionOnly3PairsPath>()
        + std::mem::size_of::<Option<Vec<SingleExchangeTransactionOnly5PairsPath>>>()
        + std::mem::size_of::<Option<Vec<ArbitragePath>>>()
        + 3 * std::mem::size_of::<ArbitragePath>();
    assert_eq!(stats.estimated_size_in_bytes, expected);
}

#[test]
fn string_id_writes_each_operation() {
    let w = vec![bal(0, 12), tx(0, TransactionSide::SELL, 12, 7), bal(0, 7), tr(0, 10, 7), bal(10, 7)];
    assert_eq!(string_id(&w), "b(e=0,c=12)-tx(e=0,s=1,cf=12,ct=7)-b(e=0,c=7)-tr(we=0,de=10,c=7)-b(e=10,c=7)");
    let p = ArbitragePath(w);
    assert_eq!(p.path_node_count(), 5);
    assert_eq!(PrintPath::string_id(&p), string_id(&p.0));
    assert_eq!(string_id(&[]), "");
    let t7 = crypto_paths::arbitrage_paths::ArbitragePath7Nodes([bal(0, 0); 7]);
    assert_eq!(t7.path_node_count(), 7);
}

#[test]
fn second_dedup_only_reverses() {
    let a = SingleExchangeTransactionOnly3PairsPath([pair(0, 1), pair(1, 2), pair(0, 2)]);
    let b = SingleExchangeTransactionOnly3PairsPath([pair(0, 3), pair(3, 4), pair(0, 4)]);
    let c = SingleExchangeTransactionOnly3PairsPath([pair(0, 5), pair(5, 6), pair(0, 6)]);
    let once = merge_reversed_paths(vec![a, b, c]);
    assert_eq!(once, vec![c, b, a]);
    let twice = merge_reversed_paths(once.clone());
    let mut reversed = once;
    reversed.reverse();
    assert_eq!(twice, reversed);
}
