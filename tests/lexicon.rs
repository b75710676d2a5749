use crypto_paths::crypto_serializer::{
    compress_lz4, decompress_lz4, lzzzz_bincode_from_file_err, lzzzz_bincode_to_file_err,
    lzzzz_cbor_from_file_err, lzzzz_cbor_to_file_err, CryptoSerializerError,
};
use crypto_paths::file_utils::{file_must_exist, file_must_not_exist, FileUtilsError};
use crypto_paths::id_types::{CurrencyID, CurrencyIDPair, ExchangeID};
use crypto_paths::lexicon::{CryptoExchangeLexicon, ExchangeSymbolsJson};
use crypto_paths::order_book::ExchangeMarketKey;
use crypto_paths::pair_generation::{
    exchange_domain_currency_pairs_generation_exaustive, exchange_domain_currency_pairs_generation_representative,
};
use std::collections::HashSet;

fn entry(name: &str, symbols: &[&str]) -> ExchangeSymbolsJson {
    ExchangeSymbolsJson { exchange: name.to_string(), symbols: symbols.iter().map(|s| s.to_string()).collect() }
}

fn pair(a: u16, b: u16) -> CurrencyIDPair {
    CurrencyIDPair::new(CurrencyID(a), CurrencyID(b))
}

#[test]
fn lexicon_interns_names_in_order_of_appearance() {
    let lex = CryptoExchangeLexicon::create_from_exchange_symbols(&[
        entry("kraken", &["BTC/EUR", "ETH/BTC", "bad", "A/B/C"]),
        entry("binance", &["ETH/USDT"]),
    ]);
    assert_eq!(lex.exchange_to_string(&ExchangeID(0)), "kraken");
    assert_eq!(lex.exchange_to_string(&ExchangeID(1)), "binance");
    assert_eq!(lex.exchange_to_string(&ExchangeID(9)), "N/A");
    assert_eq!(lex.currency_to_string(&CurrencyID(0)), "BTC");
    assert_eq!(lex.currency_to_string(&CurrencyID(1)), "EUR");
    assert_eq!(lex.currency_to_string(&CurrencyID(2)), "ETH");
    assert_eq!(lex.currency_to_string(&CurrencyID(3)), "USDT");
    assert_eq!(lex.currency_to_string(&CurrencyID(4)), "N/A");
    let entries = lex.exchange_currency_pairs_iter();
    assert_eq!(entries.len(), 2);
    assert_eq!(entries[0].0, ExchangeID(0));
    let kraken: HashSet<CurrencyIDPair> = entries[0].1.iter().copied().collect();
    assert_eq!(kraken, vec![pair(0, 1), pair(2, 0)].into_iter().collect());
    assert_eq!(entries[1].1, vec![pair(2, 3)]);
    assert_eq!(lex.currency_pair_to_string(&pair(2, 0)), "ETH : BTC");
    assert_eq!(lex.currency_pair_to_string(&pair(2, 9)), "ETH : N/A");
    assert_eq!(lex.get_currency_pair_strings(&pair(0, 1)), Some(("BTC", "EUR")));
    assert_eq!(lex.get_currency_pair_strings(&pair(0, 7)), None);
    assert!(lex.verify_exchange_currency_pairs());
}

#[test]
fn lexicon_keeps_last_entry_of_repeated_exchange() {
    let lex = CryptoExchangeLexicon::create_from_exchange_symbols(&[
        entry("kraken", &["BTC/EUR"]),
        entry("kraken", &["ETH/EUR"]),
    ]);
    let entries = lex.exchange_currency_pairs_iter();
    assert_eq!(entries.len(), 1);
    assert_eq!(entries[0].1, vec![pair(2, 1)]);
}

#[test]
fn lexicon_verify_rejects_self_pair() {
    let lex = CryptoExchangeLexicon::create_from_exchange_symbols(&[entry("kraken", &["BTC/BTC", "ETH/EUR"])]);
    assert!(!lex.verify_exchange_currency_pairs());
}

#[test]
fn lexicon_verify_rejects_inverse_pairs() {
    let lex = CryptoExchangeLexicon::create_from_exchange_symbols(&[entry("kraken", &["BTC/EUR", "EUR/BTC"])]);
    assert!(!lex.verify_exchange_currency_pairs());
    let inverse = CryptoExchangeLexicon::get_inverse_pairs(&vec![pair(0, 1), pair(1, 0), pair(2, 3)]);
    assert_eq!(inverse, vec![pair(0, 1), pair(1, 0)]);
}

#[test]
fn market_key_sorts_currencies() {
    let k = ExchangeMarketKey::create(ExchangeID(1), CurrencyID(9), CurrencyID(3));
    assert_eq!(k.sorted_currency_pair_less, CurrencyID(3));
    assert_eq!(k.sorted_currency_pair_greater, CurrencyID(9));
    let k2 = ExchangeMarketKey::create_from_pair(ExchangeID(1), pair(3, 9));
    assert_eq!(k, k2);
}

#[test]
fn pair_generation_covers_the_domain() {
    let all = exchange_domain_currency_pairs_generation_exaustive(4);
    assert_eq!(all.len(), 12);
    assert!(all.iter().all(|p| p.first != p.second && p.first.0 < 4 && p.second.0 < 4));
    let rep = exchange_domain_currency_pairs_generation_representative(4);
    let rep: HashSet<CurrencyIDPair> = rep.into_iter().collect();
    assert_eq!(rep, vec![pair(0, 2), pair(0, 3), pair(1, 2), pair(1, 3)].into_iter().collect());
    assert!(exchange_domain_currency_pairs_generation_exaustive(0).is_empty());
}

#[test]
fn file_checks_name_the_path() {
    assert_eq!(file_must_exist(true, "a".to_string()), Ok(()));
    assert_eq!(file_must_exist(false, "a".to_string()), Err(FileUtilsError::MissingFileThatMustExist("a".to_string())));
    assert_eq!(file_must_not_exist(false, "b".to_string()), Ok(()));
    assert_eq!(
        file_must_not_exist(true, "b".to_string()),
        Err(FileUtilsError::PresentFileThatMustNotExist("b".to_string()))
    );
}

#[test]
fn lz4_round_trip_and_errors() {
    let input: Vec<u8> = b"aaaaaaaaaaaaaaaaaaaaaaaaaaaaaaaaaaaaaaaaaaaaaaaaaaaaaaaaaaaaaaaa".to_vec();
    let packed = compress_lz4(&input);
    assert_ne!(packed, input);
    assert!(packed.len() < input.len());
    assert_eq!(decompress_lz4(&packed).unwrap(), input);
    assert!(matches!(decompress_lz4(&[0x10, b'a', 2, 0]), Err(CryptoSerializerError::Lz4DecompressError(_))));
    assert_eq!(lzzzz_cbor_from_file_err("x".to_string()), CryptoSerializerError::LzzzzDecompressionError("x".to_string()));
    assert_eq!(lzzzz_bincode_from_file_err("x".to_string()), CryptoSerializerError::LzzzzDecompressionError("x".to_string()));
    assert_eq!(lzzzz_cbor_to_file_err("y".to_string()), CryptoSerializerError::LzzzzCompressionError("y".to_string()));
    assert_eq!(lzzzz_bincode_to_file_err("y".to_string()), CryptoSerializerError::LzzzzCompressionError("y".to_string()));
}

#[test]
fn all_targets_are_sorted_and_unique() {
    let lex = CryptoExchangeLexicon::create_from_exchange_symbols(&[
        entry("kraken", &["ETH/BTC", "BTC/EUR"]),
        entry("binance", &["ETH/BTC"]),
    ]);
    let targets: Vec<(u8, u16)> = lex.all_targets().iter().map(|t| (t.exchange.0, t.currency.0)).collect();
    assert_eq!(targets, vec![(0, 0), (0, 1), (0, 2), (1, 0), (1, 1)]);
}
