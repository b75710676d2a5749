use crypto_paths::id_types::{
    BalanceExchangeCurrencyInfo, CurrencyID, CurrencyIDPair, ExchangeID, ExchangeOperationType,
    TransferExchangeToExchangeCurrencyInfo,
};
use crypto_paths::nodes::{
    execute_and_connect_transaction, execute_and_connect_transfer, BalanceNode, NodeTrait, TransactionNode,
    TransferNode,
};
use crypto_paths::search_stop_settings::SearchStopSettings;

fn bal(e: u8, c: u16) -> BalanceExchangeCurrencyInfo {
    BalanceExchangeCurrencyInfo { exchange: ExchangeID(e), currency: CurrencyID(c) }
}

#[test]
fn default_settings() {
    let d = SearchStopSettings::new_default();
    assert_eq!(d, SearchStopSettings::new(4, true, 2));
}

#[test]
fn stop_on_depth_cycle_and_transfers() {
    let st = SearchStopSettings::new(2, true, 0);
    let root = vec![ExchangeOperationType::Balance(bal(0, 0))];
    assert!(!st.is_skip_search_node(&root));
    let deep = vec![ExchangeOperationType::Balance(bal(0, 0)); 5];
    assert!(st.is_skip_search_node(&deep));
    let transfer = ExchangeOperationType::Transfer(TransferExchangeToExchangeCurrencyInfo {
        withdraw_exchange: ExchangeID(0),
        deposit_exchange: ExchangeID(1),
        currency: CurrencyID(0),
    });
    let with_transfer = vec![ExchangeOperationType::Balance(bal(0, 0)), transfer];
    assert!(st.is_skip_search_node(&with_transfer));
    assert!(!SearchStopSettings::new(2, true, 1).is_skip_search_node(&with_transfer));
    let repeated = vec![
        ExchangeOperationType::Balance(bal(0, 0)),
        transfer,
        ExchangeOperationType::Balance(bal(1, 0)),
        transfer,
    ];
    let wide = SearchStopSettings::new(9, true, 9);
    assert!(wide.is_skip_search_node(&repeated));
    assert!(!SearchStopSettings::new(9, false, 9).is_skip_search_node(&repeated));
}

#[test]
fn connecting_nodes_extends_the_walk() {
    let st = SearchStopSettings::new(4, true, 1);
    let b = BalanceNode::create(None, 0, bal(0, 0));
    assert_eq!(b.level(), 0);
    assert_eq!(b.from_node(), None);
    let mut chain = vec![ExchangeOperationType::Balance(bal(0, 0))];
    let next = execute_and_connect_transaction(&b, CurrencyIDPair::new(CurrencyID(0), CurrencyID(1)), &mut chain, &st).unwrap();
    assert_eq!(next.operation_data, bal(0, 1));
    assert_eq!(next.level, 1);
    assert_eq!(next.from, Some(1));
    assert_eq!(chain.len(), 2);
    chain.push(ExchangeOperationType::Balance(next.operation_data));
    let moved = execute_and_connect_transfer(&next, ExchangeID(1), &mut chain, &st).unwrap();
    assert_eq!(moved.operation_data, bal(1, 1));
    assert_eq!(moved.level, 2);
    assert_eq!(chain.len(), 4);
    let tight = SearchStopSettings::new(1, true, 1);
    let mut chain2 = vec![ExchangeOperationType::Balance(bal(0, 0))];
    assert!(execute_and_connect_transfer(&b, ExchangeID(1), &mut chain2, &tight).is_none());
    assert_eq!(chain2.len(), 1);
    let t = TransactionNode::create(Some(0), 1, crypto_paths::id_types::TransactionExchangeCurrenciesBuySellInfo {
        exchange: ExchangeID(0),
        side: crypto_paths::id_types::TransactionSide::BUY,
        currency_from: CurrencyID(0),
        currency_to: CurrencyID(1),
    });
    assert_eq!(t.from_node(), Some(0));
    let tr = TransferNode::create(Some(2), 2, TransferExchangeToExchangeCurrencyInfo {
        withdraw_exchange: ExchangeID(0),
        deposit_exchange: ExchangeID(1),
        currency: CurrencyID(1),
    });
    assert_eq!(tr.level(), 2);
}
