use crypto_paths::arbitrage_paths::{ArbitragePath, ArbitragePath11Nodes, ArbitragePath7Nodes, SingleExchangeTransactionOnly3PairsPath, SingleExchangeTransactionOnly5PairsPath, Target};
use crypto_paths::id_types::{
    BalanceExchangeCurrencyInfo, CryptoTypesError, CurrencyID, CurrencyIDPair, ExchangeID,
    ExchangeOperationType, TransactionExchangeCurrenciesBuySellInfo, TransactionSide,
    TransferExchangeToExchangeCurrencyInfo,
};

#[test]
fn it_works() {
    assert_eq!(2 + 2, 4);
}

#[test]
fn print_memory_usages_for_experimental() {
    println!("CurrencyIDPair: is {}", std::mem::size_of::<CurrencyIDPair>());
    println!("[CurrencyIDPair; 3]: is {}", std::mem::size_of::<[CurrencyIDPair; 3]>());
    println!("[CurrencyIDPair; 5]: is {}", std::mem::size_of::<[CurrencyIDPair; 5]>());
    println!(
        "SingleExchangeTransactionOnly3PairsPath: is {}",
        std::mem::size_of::<SingleExchangeTransactionOnly3PairsPath>()
    );
    println!(
        "SingleExchangeTransactionOnly5PairsPath: is {}",
        std::mem::size_of::<SingleExchangeTransactionOnly5PairsPath>()
    );
    println!("ArbitragePath7Nodes: is {}", std::mem::size_of::<ArbitragePath7Nodes>());
    println!("ArbitragePath11Nodes: is {}", std::mem::size_of::<ArbitragePath11Nodes>());
}

#[test]
fn print_memory_usages() {
    println!("ExchangeOperationType: is {}", std::mem::size_of::<ExchangeOperationType>());
    println!("BalanceExchangeCurrencyInfo: is {}", std::mem::size_of::<BalanceExchangeCurrencyInfo>());
    println!(
        "TransactionExchangeCurrenciesBuySellInfo: is {}",
        std::mem::size_of::<TransactionExchangeCurrenciesBuySellInfo>()
    );
    println!(
        "TransferExchangeToExchangeCurrencyInfo: is {}",
        std::mem::size_of::<TransferExchangeToExchangeCurrencyInfo>()
    );
    let pairs: Vec<(u16, u16)> = (0..100u16).map(|i| (i, i)).collect();
    let tuple3: Vec<(u16, u16, u16)> = (0..100u16).map(|i| (i, i, i)).collect();
    println!("Target: is {}", std::mem::size_of::<Target>());
    println!("ArbitragePath: is {}", std::mem::size_of::<ArbitragePath>());
    println!("{}", std::mem::size_of_val(&pairs[0]));
    println!("{}", std::mem::size_of_val(&tuple3[0]));
}

fn pair(a: u16, b: u16) -> CurrencyIDPair {
    CurrencyIDPair::new(CurrencyID(a), CurrencyID(b))
}

#[test]
fn next_currency_buys_from_base_and_sells_from_quote() {
    let p = pair(1, 2);
    assert_eq!(p.next_currency_and_side(CurrencyID(1)).unwrap(), (CurrencyID(2), TransactionSide::BUY));
    assert_eq!(p.next_currency_and_side(CurrencyID(2)).unwrap(), (CurrencyID(1), TransactionSide::SELL));
}

#[test]
fn next_currency_rejects_foreign_currency_and_self_pair() {
    match pair(1, 2).next_currency_and_side(CurrencyID(3)) {
        Err(CryptoTypesError::NextCurrency(c, p)) => {
            assert_eq!(c, CurrencyID(3));
            assert_eq!(p, pair(1, 2));
        }
        Ok(_) => panic!("a currency outside the pair must be refused"),
    }
    assert!(pair(4, 4).next_currency_and_side(CurrencyID(4)).is_err());
}

#[test]
fn pair_predicates() {
    assert!(pair(1, 2).cointains(&CurrencyID(2)));
    assert!(!pair(1, 2).cointains(&CurrencyID(3)));
    assert!(CurrencyIDPair::is_inverse(&pair(1, 2), &pair(2, 1)));
    assert!(!CurrencyIDPair::is_inverse(&pair(1, 2), &pair(1, 2)));
    assert!(pair(3, 3).has_same_currencies());
    assert!(!pair(3, 4).has_same_currencies());
    assert_eq!(
        ExchangeID(2).with_currency(&CurrencyID(7)),
        BalanceExchangeCurrencyInfo { exchange: ExchangeID(2), currency: CurrencyID(7) }
    );
}

#[test]
fn operation_inverses() {
    let buy = ExchangeOperationType::Transaction(TransactionExchangeCurrenciesBuySellInfo {
        exchange: ExchangeID(0),
        side: TransactionSide::BUY,
        currency_from: CurrencyID(0),
        currency_to: CurrencyID(1),
    });
    let sell = ExchangeOperationType::Transaction(TransactionExchangeCurrenciesBuySellInfo {
        exchange: ExchangeID(0),
        side: TransactionSide::SELL,
        currency_from: CurrencyID(1),
        currency_to: CurrencyID(0),
    });
    let there = ExchangeOperationType::Transfer(TransferExchangeToExchangeCurrencyInfo {
        withdraw_exchange: ExchangeID(0),
        deposit_exchange: ExchangeID(1),
        currency: CurrencyID(0),
    });
    let back = ExchangeOperationType::Transfer(TransferExchangeToExchangeCurrencyInfo {
        withdraw_exchange: ExchangeID(1),
        deposit_exchange: ExchangeID(0),
        currency: CurrencyID(0),
    });
    let bal = ExchangeOperationType::Balance(BalanceExchangeCurrencyInfo { exchange: ExchangeID(0), currency: CurrencyID(0) });
    assert!(ExchangeOperationType::is_inverse(&buy, &sell));
    assert!(ExchangeOperationType::is_inverse(&there, &back));
    assert!(!ExchangeOperationType::is_inverse(&buy, &buy));
    assert!(!ExchangeOperationType::is_inverse(&bal, &bal));
    assert!(!ExchangeOperationType::is_inverse(&buy, &there));
}
