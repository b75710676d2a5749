use crypto_paths::arbitrage_paths::{interpolate_reversed_paths, pairs_walkable, ArbitragePath, ClassifiedPath};
use crypto_paths::id_types::{
    BalanceExchangeCurrencyInfo, CurrencyID, CurrencyIDPair, ExchangeID, ExchangeOperationType,
    TransactionExchangeCurrenciesBuySellInfo, TransactionSide, TransferExchangeToExchangeCurrencyInfo,
};
use crypto_paths::network::{classify_target_paths, Network};
use crypto_paths::search_stop_settings::SearchStopSettings;
use rayon::iter::{IntoParallelRefIterator, ParallelIterator};
use std::collections::HashSet;

const A: u16 = 0;
const B: u16 = 1;
const C: u16 = 2;

fn pair(a: u16, b: u16) -> CurrencyIDPair {
    CurrencyIDPair::new(CurrencyID(a), CurrencyID(b))
}

fn target(e: u8, c: u16) -> BalanceExchangeCurrencyInfo {
    BalanceExchangeCurrencyInfo { exchange: ExchangeID(e), currency: CurrencyID(c) }
}

fn bal(e: u8, c: u16) -> ExchangeOperationType {
    ExchangeOperationType::Balance(target(e, c))
}

fn tx(e: u8, side: TransactionSide, from: u16, to: u16) -> ExchangeOperationType {
    ExchangeOperationType::Transaction(TransactionExchangeCurrenciesBuySellInfo {
        exchange: ExchangeID(e),
        side,
        currency_from: CurrencyID(from),
        currency_to: CurrencyID(to),
    })
}

fn tr(from: u8, to: u8, c: u16) -> ExchangeOperationType {
    ExchangeOperationType::Transfer(TransferExchangeToExchangeCurrencyInfo {
        withdraw_exchange: ExchangeID(from),
        deposit_exchange: ExchangeID(to),
        currency: CurrencyID(c),
    })
}

fn network(exchanges: &[(u8, Vec<CurrencyIDPair>)]) -> Network {
    let mut n = Network::new();
    for (e, pairs) in exchanges {
        n.add_pairs(ExchangeID(*e), pairs);
    }
    n.update_exchange_hubs();
    n
}

fn walks(n: &Network, t: BalanceExchangeCurrencyInfo, st: &SearchStopSettings) -> Vec<Vec<ExchangeOperationType>> {
    n.search_target_start(t, st).into_iter().map(|p| p.0).collect()
}

fn is_inverse(a: &ExchangeOperationType, b: &ExchangeOperationType) -> bool {
    ExchangeOperationType::is_inverse(a, b)
}

/// Checks every property that the library states of an emitted walk.
fn check_walk(w: &[ExchangeOperationType], t: BalanceExchangeCurrencyInfo, st: &SearchStopSettings) {
    assert!(w.len() % 2 == 1 && w.len() >= 3);
    for (i, op) in w.iter().enumerate() {
        assert_eq!(matches!(op, ExchangeOperationType::Balance(_)), i % 2 == 0);
    }
    assert_eq!(w[0], ExchangeOperationType::Balance(t));
    match w[w.len() - 1] {
        ExchangeOperationType::Balance(b) => assert_eq!(b.currency, t.currency),
        _ => panic!("a walk ends at a balance"),
    }
    for k in 0..(w.len() - 1) / 2 {
        let b = match w[2 * k] {
            ExchangeOperationType::Balance(b) => b,
            _ => panic!(),
        };
        match w[2 * k + 1] {
            ExchangeOperationType::Transaction(x) => {
                assert_eq!(x.exchange, b.exchange);
                assert_eq!(x.currency_from, b.currency);
                assert_ne!(x.currency_from, x.currency_to);
                assert_eq!(w[2 * k + 2], bal(b.exchange.0, x.currency_to.0));
            }
            ExchangeOperationType::Transfer(x) => {
                assert_eq!(x.withdraw_exchange, b.exchange);
                assert_eq!(x.currency, b.currency);
                assert_eq!(w[2 * k + 2], bal(x.deposit_exchange.0, x.currency.0));
            }
            _ => panic!(),
        }
    }
    assert!(w.len() <= 2 * st.max_level as usize + 1);
    let transfers = w.iter().filter(|op| matches!(op, ExchangeOperationType::Transfer(_))).count();
    assert!(transfers as i32 <= st.max_transfers);
    for i in 1..w.len().saturating_sub(2) {
        assert!(!(matches!(w[i], ExchangeOperationType::Transfer(_)) && matches!(w[i + 2], ExchangeOperationType::Transfer(_))));
    }
    if st.ignore_cycles {
        for i in 1..w.len() - 1 {
            for j in i + 1..w.len() - 1 {
                assert_ne!(w[i], w[j]);
                assert!(!is_inverse(&w[j], &w[i]));
            }
        }
    }
}

#[test]
fn scenario_trivial_cycle_has_no_walks() {
    let n = network(&[(0, vec![pair(A, B)])]);
    let st = SearchStopSettings::new(2, true, 0);
    assert!(walks(&n, target(0, A), &st).is_empty());
}

#[test]
fn scenario_two_exchanges_single_transfer_walk() {
    let n = network(&[(0, vec![pair(A, B)]), (1, vec![pair(A, B)])]);
    let st = SearchStopSettings::new_default();
    let found = walks(&n, target(0, A), &st);
    let expected = vec![
        bal(0, A),
        tx(0, TransactionSide::BUY, A, B),
        bal(0, B),
        tr(0, 1, B),
        bal(1, B),
        tx(1, TransactionSide::SELL, B, A),
        bal(1, A),
    ];
    assert_eq!(found, vec![expected.clone()]);
    let classified = classify_target_paths(target(0, A), vec![ArbitragePath(expected)]);
    assert_eq!(classified.tr_7_paths.as_ref().map(|v| v.len()), Some(1));
    assert_eq!(classified.unknown_paths.as_ref().map(|v| v.len()), Some(0));
}

fn triangle() -> Network {
    network(&[(0, vec![pair(A, B), pair(B, C), pair(A, C)])])
}

#[test]
fn scenario_single_exchange_three_cycle() {
    let n = triangle();
    let st = SearchStopSettings::new(4, true, 0);
    let found: HashSet<Vec<ExchangeOperationType>> = walks(&n, target(0, A), &st).into_iter().collect();
    let abc = vec![
        bal(0, A),
        tx(0, TransactionSide::BUY, A, B),
        bal(0, B),
        tx(0, TransactionSide::BUY, B, C),
        bal(0, C),
        tx(0, TransactionSide::SELL, C, A),
        bal(0, A),
    ];
    let acb = vec![
        bal(0, A),
        tx(0, TransactionSide::BUY, A, C),
        bal(0, C),
        tx(0, TransactionSide::SELL, C, B),
        bal(0, B),
        tx(0, TransactionSide::SELL, B, A),
        bal(0, A),
    ];
    let expected: HashSet<Vec<ExchangeOperationType>> = vec![abc, acb].into_iter().collect();
    assert_eq!(found, expected);

    let paths: Vec<ArbitragePath> = found.into_iter().map(ArbitragePath).collect();
    let classified = classify_target_paths(target(0, A), paths);
    let loops = classified.tx_only_3pairs_paths.unwrap();
    assert_eq!(loops.len(), 1);
    assert_eq!(classified.tr_7_paths.unwrap().len(), 0);
    assert_eq!(classified.unknown_paths.unwrap().len(), 0);
    let (first, second) = interpolate_reversed_paths(ExchangeID(0), CurrencyID(A), &loops[0].0);
    let rebuilt: HashSet<Vec<ExchangeOperationType>> = vec![first.0, second.0].into_iter().collect();
    assert_eq!(rebuilt, expected);
}

#[test]
fn scenario_transfer_cap() {
    let n = network(&[(0, vec![pair(A, B)]), (1, vec![pair(A, B)]), (2, vec![pair(A, B)])]);
    let st = SearchStopSettings::new(6, true, 1);
    let found = walks(&n, target(0, A), &st);
    assert!(!found.is_empty());
    assert!(found.iter().any(|w| w.iter().any(|op| matches!(op, ExchangeOperationType::Transfer(_)))));
    for w in &found {
        let transfers = w.iter().filter(|op| matches!(op, ExchangeOperationType::Transfer(_))).count();
        assert!(transfers <= 1);
        check_walk(w, target(0, A), &st);
    }
}

#[test]
fn emitted_walks_satisfy_the_walk_rules() {
    let n = network(&[
        (0, vec![pair(A, B), pair(B, C), pair(A, C)]),
        (1, vec![pair(A, B), pair(C, B)]),
        (2, vec![pair(C, A)]),
    ]);
    for st in [
        SearchStopSettings::new(4, true, 2),
        SearchStopSettings::new(5, false, 1),
        SearchStopSettings::new(6, true, 3),
    ] {
        for t in [target(0, A), target(1, B), target(2, C)] {
            let found = walks(&n, t, &st);
            for w in &found {
                check_walk(w, t, &st);
            }
            let unique: HashSet<&Vec<ExchangeOperationType>> = found.iter().collect();
            assert_eq!(unique.len(), found.len());
        }
    }
}

#[test]
fn zero_depth_finds_nothing() {
    let n = triangle();
    assert!(walks(&n, target(0, A), &SearchStopSettings::new(0, true, 2)).is_empty());
    assert!(walks(&n, target(0, A), &SearchStopSettings::new(4, true, -1)).is_empty());
}

#[test]
fn scheduling_modes_agree_per_target() {
    let n = network(&[
        (0, vec![pair(A, B), pair(B, C), pair(A, C)]),
        (1, vec![pair(A, B), pair(C, B)]),
    ]);
    let st = SearchStopSettings::new_default();
    let targets = vec![target(0, A), target(0, B), target(0, C), target(1, A), target(1, B), target(1, C)];
    let sequential = n.search_targets_sync(targets.clone(), &st);
    let parallel: Vec<(BalanceExchangeCurrencyInfo, Vec<ArbitragePath>)> =
        targets.par_iter().map(|t| (*t, n.search_target_start(*t, &st))).collect();
    assert_eq!(sequential.len(), targets.len());
    for ((t1, found_a), (t2, found_b)) in sequential.iter().zip(parallel.iter()) {
        assert_eq!(t1, t2);
        let s1: HashSet<&ArbitragePath> = found_a.iter().collect();
        let s2: HashSet<&ArbitragePath> = found_b.iter().collect();
        assert_eq!(s1, s2);
    }
}

#[test]
fn add_pairs_reports_news_and_finalize_is_idempotent() {
    let mut n = Network::new();
    assert!(n.add_pairs(ExchangeID(0), &[pair(A, B)]));
    assert!(!n.add_pairs(ExchangeID(0), &[pair(A, B)]));
    assert!(n.add_pairs(ExchangeID(0), &[pair(A, B), pair(B, C)]));
    assert!(n.add_pairs(ExchangeID(1), &[]));
    n.update_exchange_hubs();
    let st = SearchStopSettings::new(4, true, 0);
    let before = walks(&n, target(0, B), &st);
    n.update_exchange_hubs();
    assert_eq!(walks(&n, target(0, B), &st), before);
}

#[test]
fn reexpanded_loops_classify_back() {
    let pairs = [pair(A, B), pair(B, C), pair(A, C)];
    assert!(pairs_walkable(CurrencyID(A), &pairs));
    assert!(!pairs_walkable(CurrencyID(C), &[pair(A, B)]));
    let (first, second) = interpolate_reversed_paths(ExchangeID(3), CurrencyID(A), &pairs);
    for p in [first, second] {
        match p.classify() {
            ClassifiedPath::Tx3(loop3) => assert_eq!(loop3.0.len(), 3),
            _ => panic!("a re-expanded loop of three pairs is a loop of three pairs"),
        }
    }
}
