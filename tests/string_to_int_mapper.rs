use crypto_paths::id_types::{CurrencyID, ExchangeID};
use crypto_paths::string_to_int_mapper::{Editing, StringToIntMapper};

#[test]
fn add_and_get_key_test() {
    let mut mapper = StringToIntMapper::<i32, Editing>::new();
    assert_eq!(Some(0), mapper.add("one"));
    assert_eq!(None, mapper.add("one"));
    assert_eq!(Some(1), mapper.add("two"));
    assert_eq!(Some(2), mapper.add("three"));
    let mapper = mapper.to_reader();
    assert_eq!(Some(&0), mapper.get_id("one"));
    assert_eq!(None, mapper.get_id("N/A"));
    assert_eq!(Some(&1), mapper.get_id("two"));
    assert_eq!(Some(&2), mapper.get_id("three"));
}

#[test]
fn keys_come_back_by_id_in_order() {
    let mut mapper = StringToIntMapper::<ExchangeID, Editing>::new_editing();
    assert_eq!(mapper.add("kraken"), Some(ExchangeID(0)));
    assert_eq!(mapper.add("binance"), Some(ExchangeID(1)));
    mapper.remove("kraken");
    mapper.remove("absent");
    let reader = mapper.to_reader();
    assert_eq!(reader.get_key(&ExchangeID(1)), Some("binance"));
    assert_eq!(reader.get_key(&ExchangeID(0)), Some("kraken"));
    assert_eq!(reader.get_key(&ExchangeID(2)), None);
    let names: Vec<&str> = reader.iter_in_order().iter().map(|s| s.as_str()).collect();
    assert_eq!(names, vec!["kraken", "binance"]);
    let mut editing = reader.to_editer();
    assert_eq!(editing.add("kraken"), None);
    assert_eq!(editing.add("coinbase"), Some(ExchangeID(2)));
}

#[test]
fn currency_ids_count_from_zero() {
    let mut mapper = StringToIntMapper::<CurrencyID, Editing>::new();
    assert_eq!(mapper.add("BTC"), Some(CurrencyID(0)));
    assert_eq!(mapper.add("ETH"), Some(CurrencyID(1)));
    let empty = StringToIntMapper::<CurrencyID, crypto_paths::string_to_int_mapper::Reading>::new_reading();
    assert_eq!(empty.get_id("BTC"), None);
}
