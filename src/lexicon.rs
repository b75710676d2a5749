use vstd::prelude::*;
use crate::seq_facts::lemma_push_contains;
use vstd::string::{StrSliceExecFns, StringExecFns};
use crate::id_types::{CurrencyID, CurrencyIDPair, ExchangeID, ExchangeIDCurrencyIDPair};
use crate::string_to_int_mapper::{Editing, Reading, StringToIntMapper};

verus! {

/// One exchange and the market symbols it lists, each `"BASE/QUOTE"`.
pub struct ExchangeSymbolsJson {
    pub exchange: String,
    pub symbols: Vec<String>,
}

/// `s[k]` is the one `'/'` of `s`.
pub open spec fn slash_at(s: Seq<char>, k: int) -> bool {
    &&& 0 <= k < s.len()
    &&& s[k] == '/'
    &&& forall|j: int| 0 <= j < s.len() && j != k ==> s[j] != '/'
}

/// A symbol names a pair when it holds exactly one `'/'`.
pub open spec fn is_pair_symbol(s: Seq<char>) -> bool {
    exists|k: int| slash_at(s, k)
}

pub open spec fn symbol_slash(s: Seq<char>) -> int {
    choose|k: int| slash_at(s, k)
}

/// The text before the `'/'`.
pub open spec fn symbol_base(s: Seq<char>) -> Seq<char> {
    s.take(symbol_slash(s))
}

/// The text after the `'/'`.
pub open spec fn symbol_quote(s: Seq<char>) -> Seq<char> {
    s.skip(symbol_slash(s) + 1)
}

/// The currency names of the pair symbols of `syms`, base then quote, in order.
pub open spec fn symbols_currencies(syms: Seq<String>) -> Seq<Seq<char>>
    decreases syms.len(),
{
    if syms.len() == 0 {
        Seq::empty()
    } else if is_pair_symbol(syms.last()@) {
        symbols_currencies(syms.drop_last()).push(symbol_base(syms.last()@)).push(
            symbol_quote(syms.last()@),
        )
    } else {
        symbols_currencies(syms.drop_last())
    }
}

/// The currency names of every exchange entry, in order.
pub open spec fn all_currencies(ex: Seq<ExchangeSymbolsJson>) -> Seq<Seq<char>>
    decreases ex.len(),
{
    if ex.len() == 0 {
        Seq::empty()
    } else {
        all_currencies(ex.drop_last()) + symbols_currencies(ex.last().symbols@)
    }
}

pub open spec fn exchange_names(ex: Seq<ExchangeSymbolsJson>) -> Seq<Seq<char>> {
    ex.map_values(|e: ExchangeSymbolsJson| e.exchange@)
}

/// The elements of `s` in order of first appearance, each once.
pub open spec fn distinct(s: Seq<Seq<char>>) -> Seq<Seq<char>>
    decreases s.len(),
{
    if s.len() == 0 {
        Seq::empty()
    } else if distinct(s.drop_last()).contains(s.last()) {
        distinct(s.drop_last())
    } else {
        distinct(s.drop_last()).push(s.last())
    }
}

/// The symbols of the last entry for exchange `name`, none if there is none.
pub open spec fn last_symbols(ex: Seq<ExchangeSymbolsJson>, name: Seq<char>) -> Seq<String>
    decreases ex.len(),
{
    if ex.len() == 0 {
        Seq::empty()
    } else if ex.last().exchange@ == name {
        ex.last().symbols@
    } else {
        last_symbols(ex.drop_last(), name)
    }
}

/// Position of `k` in `keys`.
pub open spec fn key_index(keys: Seq<Seq<char>>, k: Seq<char>) -> int {
    choose|i: int| 0 <= i < keys.len() && keys[i] == k
}

/// `p` is the pair named by symbol `sym` under the currency ids `keys`.
pub open spec fn symbol_names_pair(sym: Seq<char>, keys: Seq<Seq<char>>, p: CurrencyIDPair) -> bool {
    &&& is_pair_symbol(sym)
    &&& keys.contains(symbol_base(sym))
    &&& keys.contains(symbol_quote(sym))
    &&& p.first.0 == key_index(keys, symbol_base(sym))
    &&& p.second.0 == key_index(keys, symbol_quote(sym))
}

/// Interned exchange and currency names, and the pairs each exchange lists.
pub struct CryptoExchangeLexicon {
    pub exchanges: StringToIntMapper<ExchangeID, Reading>,
    pub currencies: StringToIntMapper<CurrencyID, Reading>,
    /// Entry `i` holds exchange `i` and its pairs, each once.
    pub exchange_currency_pairs: Vec<(ExchangeID, Vec<CurrencyIDPair>)>,
    pub fiat_currencies: Vec<CurrencyID>,
    pub stable_currencies: Vec<CurrencyID>,
}

proof fn lemma_distinct_contains(s: Seq<Seq<char>>, x: Seq<char>)
    ensures
        distinct(s).contains(x) == s.contains(x),
    decreases s.len(),
{
    if s.len() > 0 {
        lemma_distinct_contains(s.drop_last(), x);
        let d = distinct(s.drop_last());
        assert(s.drop_last().push(s.last()) == s);
        lemma_push_contains(s.drop_last(), s.last(), x);
        lemma_push_contains(d, s.last(), x);
    }
}


proof fn lemma_distinct_prefix_len(s: Seq<Seq<char>>, k: int)
    requires
        0 <= k <= s.len(),
    ensures
        distinct(s.take(k)).len() <= distinct(s).len(),
    decreases s.len() - k,
{
    if k < s.len() {
        lemma_distinct_prefix_len(s, k + 1);
        assert(s.take(k + 1).drop_last() == s.take(k));
    } else {
        assert(s.take(k) == s);
    }
}

/// Splits a pair symbol at its one `'/'`.
fn split_symbol(s: &str) -> (r: Option<(&str, &str)>)
    ensures
        r is Some == is_pair_symbol(s@),
        r is Some ==> (r->0).0@ == symbol_base(s@) && (r->0).1@ == symbol_quote(s@),
{
    let n = s.unicode_len();
    let mut count: usize = 0;
    let mut pos: usize = 0;
    let mut i: usize = 0;
    while i < n
        invariant
            n == s@.len(),
            i <= n,
            count <= 2,
            count == 0 ==> forall|j: int| 0 <= j < i ==> s@[j] != '/',
            count == 1 ==> pos < i && s@[pos as int] == '/' && forall|j: int|
                0 <= j < i && j != pos ==> s@[j] != '/',
            count == 2 ==> !is_pair_symbol(s@),
        decreases n - i,
    {
        if s.get_char(i) == '/' {
            if count == 0 {
                pos = i;
                count = 1;
            } else if count == 1 {
                proof {
                    if is_pair_symbol(s@) {
                        let k = choose|k: int| slash_at(s@, k);
                        assert(s@[pos as int] == '/' && s@[i as int] == '/');
                    }
                }
                count = 2;
            }
        }
        i += 1;
    }
    if count != 1 {
        proof {
            if count == 0 && is_pair_symbol(s@) {
                let k = choose|k: int| slash_at(s@, k);
                assert(s@[k] == '/');
            }
        }
        return None;
    }
    assert(slash_at(s@, pos as int));
    assert(symbol_slash(s@) == pos as int);
    let base = s.substring_char(0, pos);
    let quote = s.substring_char(pos + 1, n);
    assert(base@ =~= symbol_base(s@));
    assert(quote@ =~= symbol_quote(s@));
    Some((base, quote))
}

/// The currency names of the pair symbols of every entry, in order.
fn collect_currency_names(ex_symbols: &[ExchangeSymbolsJson]) -> (r: Vec<&str>)
    ensures
        r@.map_values(|s: &str| s@) == all_currencies(ex_symbols@),
{
    let mut r: Vec<&str> = Vec::new();
    let mut i: usize = 0;
    while i < ex_symbols.len()
        invariant
            i <= ex_symbols@.len(),
            r@.map_values(|s: &str| s@) == all_currencies(ex_symbols@.take(i as int)),
        decreases ex_symbols@.len() - i,
    {
        let syms = &ex_symbols[i].symbols;
        let ghost base = r@.map_values(|s: &str| s@);
        let mut j: usize = 0;
        assert(symbols_currencies(syms@.take(0)) =~= Seq::<Seq<char>>::empty());
        assert(base + symbols_currencies(syms@.take(0)) =~= base);
        while j < syms.len()
            invariant
                j <= syms@.len(),
                syms@ == ex_symbols@[i as int].symbols@,
                r@.map_values(|s: &str| s@) == base + symbols_currencies(syms@.take(j as int)),
            decreases syms@.len() - j,
        {
            assert(syms@.take(j + 1).drop_last() == syms@.take(j as int));
            assert(syms@.take(j + 1).last() == syms@[j as int]);
            let ghost before = r@;
            match split_symbol(syms[j].as_str()) {
                Some((b, q)) => {
                    r.push(b);
                    r.push(q);
                    assert(r@.map_values(|s: &str| s@) =~= before.map_values(|s: &str| s@).push(b@).push(q@));
                },
                None => {},
            }
            j += 1;
        }
        assert(syms@.take(j as int) == syms@);
        assert(ex_symbols@.take(i + 1).drop_last() == ex_symbols@.take(i as int));
        assert(ex_symbols@.take(i + 1).last() == ex_symbols@[i as int]);
        i += 1;
    }
    assert(ex_symbols@.take(i as int) == ex_symbols@);
    r
}

impl CryptoExchangeLexicon {
    /// Exchange and currency ids are handed out in order of first appearance;
    /// entry `i` of the pairs holds exchange `i` with the pairs named by the
    /// symbols of the last entry for that exchange.
    pub open spec fn built_from(&self, ex: Seq<ExchangeSymbolsJson>) -> bool {
        &&& self.exchanges.wf()
        &&& self.currencies.wf()
        &&& self.exchanges.keys() == distinct(exchange_names(ex))
        &&& self.currencies.keys() == distinct(all_currencies(ex))
        &&& self.exchange_currency_pairs@.len() == self.exchanges.keys().len()
        &&& forall|i: int|
            0 <= i < self.exchange_currency_pairs@.len() ==> {
                let entry = #[trigger] self.exchange_currency_pairs@[i];
                let syms = last_symbols(ex, self.exchanges.keys()[i]);
                &&& entry.0.0 == i
                &&& entry.1@.no_duplicates()
                &&& forall|p: CurrencyIDPair| #[trigger]
                    entry.1@.contains(p) == exists|j: int|
                        0 <= j < syms.len() && symbol_names_pair(#[trigger] syms[j]@, self.currencies.keys(), p)
            }
    }

    /// `ids` holds, once each, the ids of the currencies named in `names`.
    pub open spec fn ids_of_names(&self, ids: Seq<CurrencyID>, names: Seq<&str>) -> bool {
        &&& ids.no_duplicates()
        &&& forall|c: CurrencyID| #[trigger]
            ids.contains(c) == exists|k: int|
                0 <= k < names.len() && c.0 == key_index(self.currencies.keys(), (#[trigger] names[k])@)
    }

    /// Whether the exchange and currency names of `ex` fit the id types.
    pub open spec fn fits(ex: Seq<ExchangeSymbolsJson>) -> bool {
        &&& distinct(exchange_names(ex)).len() <= u8::MAX
        &&& distinct(all_currencies(ex)).len() <= u16::MAX
    }

    pub fn create_from_exchange_symbols(ex_symbols: &[ExchangeSymbolsJson]) -> (r: Self)
        requires
            Self::fits(ex_symbols@),
        ensures
            r.built_from(ex_symbols@),
            r.fiat_currencies@.len() == 0,
            r.stable_currencies@.len() == 0,
    {
        let fiat_currencies: Vec<&str> = Vec::new();
        let stable_currencies: Vec<&str> = Vec::new();
        let r = Self::create_from_exchange_symbols_full(ex_symbols, fiat_currencies.as_slice(), stable_currencies.as_slice());
        proof {
            if r.fiat_currencies@.len() > 0 {
                assert(r.fiat_currencies@.contains(r.fiat_currencies@[0]));
            }
            if r.stable_currencies@.len() > 0 {
                assert(r.stable_currencies@.contains(r.stable_currencies@[0]));
            }
        }
        r
    }

    /// As `create_from_exchange_symbols`, and records the ids of the named
    /// fiat and stable currencies, each of which the symbols must mention.
    pub fn create_from_exchange_symbols_full(
        ex_symbols: &[ExchangeSymbolsJson],
        fiat_currencies: &[&str],
        stable_currencies: &[&str],
    ) -> (r: Self)
        requires
            Self::fits(ex_symbols@),
            forall|k: int| 0 <= k < fiat_currencies@.len() ==> all_currencies(ex_symbols@).contains(#[trigger] fiat_currencies@[k]@),
            forall|k: int| 0 <= k < stable_currencies@.len() ==> all_currencies(ex_symbols@).contains(#[trigger] stable_currencies@[k]@),
        ensures
            r.built_from(ex_symbols@),
            r.ids_of_names(r.fiat_currencies@, fiat_currencies@),
            r.ids_of_names(r.stable_currencies@, stable_currencies@),
    {
        let ghost ex = ex_symbols@;
        let ghost names = exchange_names(ex);
        // exchanges
        let mut exchanges = StringToIntMapper::<ExchangeID, Editing>::new();
        let mut i: usize = 0;
        while i < ex_symbols.len()
            invariant
                ex == ex_symbols@,
                names == exchange_names(ex),
                Self::fits(ex),
                i <= ex.len(),
                exchanges.wf(),
                exchanges.keys() == distinct(names.take(i as int)),
                exchanges.has_room() == (exchanges.keys().len() < u8::MAX),
            decreases ex.len() - i,
        {
            proof {
                assert(names.take(i + 1).drop_last() == names.take(i as int));
                assert(names.take(i + 1).last() == ex[i as int].exchange@);
                lemma_distinct_prefix_len(names, i + 1);
            }
            exchanges.add(ex_symbols[i].exchange.as_str());
            i += 1;
        }
        assert(names.take(i as int) == names);
        // currencies
        let flat = collect_currency_names(ex_symbols);
        let ghost flat_names = flat@.map_values(|s: &str| s@);
        let mut currencies = StringToIntMapper::<CurrencyID, Editing>::new();
        let mut k: usize = 0;
        while k < flat.len()
            invariant
                flat_names == flat@.map_values(|s: &str| s@),
                flat_names == all_currencies(ex),
                Self::fits(ex),
                k <= flat@.len(),
                currencies.wf(),
                currencies.keys() == distinct(flat_names.take(k as int)),
                currencies.has_room() == (currencies.keys().len() < u16::MAX),
            decreases flat@.len() - k,
        {
            proof {
                assert(flat_names.take(k + 1).drop_last() == flat_names.take(k as int));
                assert(flat_names.take(k + 1).last() == flat@[k as int]@);
                lemma_distinct_prefix_len(flat_names, k + 1);
            }
            currencies.add(flat[k]);
            k += 1;
        }
        assert(flat_names.take(k as int) == flat_names);
        let exchanges = exchanges.to_reader();
        let currencies = currencies.to_reader();
        let ghost ekeys = exchanges.keys();
        let ghost ckeys = currencies.keys();
        // one entry per exchange, in id order
        let mut exchange_currency_pairs: Vec<(ExchangeID, Vec<CurrencyIDPair>)> = Vec::new();
        let mut e: usize = 0;
        let n_exchanges = exchanges.iter_in_order().len();
        while e < n_exchanges
            invariant
                n_exchanges == ekeys.len(),
                ekeys.len() <= u8::MAX,
                e <= n_exchanges,
                exchange_currency_pairs@.len() == e,
                forall|a: int|
                    0 <= a < e ==> (#[trigger] exchange_currency_pairs@[a]).0.0 == a
                        && exchange_currency_pairs@[a].1@.len() == 0,
            decreases n_exchanges - e,
        {
            exchange_currency_pairs.push((ExchangeID(e as u8), Vec::new()));
            e += 1;
        }
        // the pairs of the last entry of each exchange
        let mut i: usize = 0;
        while i < ex_symbols.len()
            invariant
                ex == ex_symbols@,
                ekeys == exchanges.keys(),
                ckeys == currencies.keys(),
                exchanges.wf(),
                currencies.wf(),
                ekeys == distinct(exchange_names(ex)),
                i <= ex.len(),
                exchange_currency_pairs@.len() == ekeys.len(),
                forall|a: int|
                    0 <= a < exchange_currency_pairs@.len() ==> {
                        let entry = #[trigger] exchange_currency_pairs@[a];
                        let syms = last_symbols(ex.take(i as int), ekeys[a]);
                        &&& entry.0.0 == a
                        &&& entry.1@.no_duplicates()
                        &&& forall|p: CurrencyIDPair| #[trigger]
                            entry.1@.contains(p) == exists|j: int|
                                0 <= j < syms.len() && symbol_names_pair(#[trigger] syms[j]@, ckeys, p)
                    },
            decreases ex.len() - i,
        {
            proof {
                lemma_distinct_contains(exchange_names(ex), ex[i as int].exchange@);
                assert(exchange_names(ex)[i as int] == ex[i as int].exchange@);
                assert(ex.take(i + 1).drop_last() == ex.take(i as int));
                assert(ex.take(i + 1).last() == ex[i as int]);
            }
            let id = *exchanges.get_id(ex_symbols[i].exchange.as_str()).unwrap();
            let pairs = Self::symbol_pairs(&currencies, &ex_symbols[i].symbols);
            let ghost before = exchange_currency_pairs@;
            let slot = id.0 as usize;
            exchange_currency_pairs.set(slot, (id, pairs));
            proof {
                exchanges.lemma_keys_distinct();
                assert forall|a: int| 0 <= a < exchange_currency_pairs@.len() && a != slot implies
                    ekeys[a] != ex[i as int].exchange@ by {
                    assert(ekeys[slot as int] == ex[i as int].exchange@);
                }
                assert forall|a: int| 0 <= a < exchange_currency_pairs@.len() implies
                    last_symbols(ex.take(i + 1), ekeys[a]) == if a == slot {
                        ex[i as int].symbols@
                    } else {
                        last_symbols(ex.take(i as int), ekeys[a])
                    } by {
                    assert(ekeys[slot as int] == ex[i as int].exchange@);
                }
                assert forall|a: int| 0 <= a < exchange_currency_pairs@.len() && a != slot implies
                    #[trigger] exchange_currency_pairs@[a] == before[a] by {}
            }
            i += 1;
        }
        assert(ex.take(i as int) == ex);
        let fiat = Self::currency_ids(&currencies, fiat_currencies, Ghost(all_currencies(ex)));
        let stable = Self::currency_ids(&currencies, stable_currencies, Ghost(all_currencies(ex)));
        CryptoExchangeLexicon {
            exchanges,
            currencies,
            exchange_currency_pairs,
            fiat_currencies: fiat,
            stable_currencies: stable,
        }
    }

    /// The ids of the currencies named in `names`, once each.
    fn currency_ids(currencies: &StringToIntMapper<CurrencyID, Reading>, names: &[&str], Ghost(all): Ghost<Seq<Seq<char>>>) -> (r: Vec<CurrencyID>)
        requires
            currencies.wf(),
            currencies.keys() == distinct(all),
            forall|k: int| 0 <= k < names@.len() ==> all.contains(#[trigger] names@[k]@),
        ensures
            r@.no_duplicates(),
            forall|c: CurrencyID| #[trigger]
                r@.contains(c) == exists|k: int|
                    0 <= k < names@.len() && c.0 == key_index(currencies.keys(), (#[trigger] names@[k])@),
    {
        let ghost keys = currencies.keys();
        let mut r: Vec<CurrencyID> = Vec::new();
        let mut i: usize = 0;
        while i < names.len()
            invariant
                keys == currencies.keys(),
                currencies.wf(),
                keys == distinct(all),
                forall|k: int| 0 <= k < names@.len() ==> all.contains(#[trigger] names@[k]@),
                i <= names@.len(),
                r@.no_duplicates(),
                forall|c: CurrencyID| #[trigger]
                    r@.contains(c) == exists|k: int| 0 <= k < i && c.0 == key_index(keys, (#[trigger] names@[k])@),
            decreases names@.len() - i,
        {
            proof {
                lemma_distinct_contains(all, names@[i as int]@);
                currencies.lemma_keys_distinct();
            }
            let id = *currencies.get_id(names[i]).unwrap();
            proof {
                let w = key_index(keys, names@[i as int]@);
                assert(keys[id.0 as int] == names@[i as int]@);
                assert(keys[w] == names@[i as int]@);
                assert(w == id.0 as int);
            }
            let ghost before = r@;
            if !contains_currency_id(&r, id) {
                r.push(id);
            }
            proof {
                assert forall|c: CurrencyID| #[trigger]
                    r@.contains(c) == exists|k: int| 0 <= k < i + 1 && c.0 == key_index(keys, (#[trigger] names@[k])@) by {
                    if r@ != before {
                        lemma_push_contains(before, id, c);
                    }
                    if exists|k: int| 0 <= k < i + 1 && c.0 == key_index(keys, (#[trigger] names@[k])@) {
                        let k = choose|k: int| 0 <= k < i + 1 && c.0 == key_index(keys, (#[trigger] names@[k])@);
                        if k == i {
                            assert(c == id);
                        }
                    }
                    if c == id {
                        assert(c.0 == key_index(keys, names@[i as int]@));
                    }
                }
            }
            i += 1;
        }
        r
    }

    /// The pairs named by the pair symbols of `syms`, each once.
    fn symbol_pairs(currencies: &StringToIntMapper<CurrencyID, Reading>, syms: &Vec<String>) -> (r: Vec<
        CurrencyIDPair,
    >)
        requires
            currencies.wf(),
        ensures
            r@.no_duplicates(),
            forall|p: CurrencyIDPair| #[trigger]
                r@.contains(p) == exists|j: int|
                    0 <= j < syms@.len() && symbol_names_pair(#[trigger] syms@[j]@, currencies.keys(), p),
    {
        let ghost keys = currencies.keys();
        let mut r: Vec<CurrencyIDPair> = Vec::new();
        let mut j: usize = 0;
        while j < syms.len()
            invariant
                keys == currencies.keys(),
                currencies.wf(),
                j <= syms@.len(),
                r@.no_duplicates(),
                forall|p: CurrencyIDPair| #[trigger]
                    r@.contains(p) == exists|jj: int|
                        0 <= jj < j && symbol_names_pair(#[trigger] syms@[jj]@, keys, p),
            decreases syms@.len() - j,
        {
            let ghost before = r@;
            match split_symbol(syms[j].as_str()) {
                Some((b, q)) => {
                    match (currencies.get_id(b), currencies.get_id(q)) {
                        (Some(c1), Some(c2)) => {
                            let p = CurrencyIDPair { first: *c1, second: *c2 };
                            proof {
                                currencies.lemma_keys_distinct();
                                assert(key_index(keys, b@) == c1.0 as int) by {
                                    assert(keys.contains(b@));
                                    let w = key_index(keys, b@);
                                    assert(keys[c1.0 as int] == b@);
                                    assert(keys[w] == b@);
                                }
                                assert(key_index(keys, q@) == c2.0 as int) by {
                                    assert(keys.contains(q@));
                                    let w = key_index(keys, q@);
                                    assert(keys[c2.0 as int] == q@);
                                    assert(keys[w] == q@);
                                }
                                assert(symbol_names_pair(syms@[j as int]@, keys, p));
                            }
                            if !contains_id_pair(&r, p) {
                                r.push(p);
                            }
                            proof {
                                assert forall|x: CurrencyIDPair| #[trigger]
                                    r@.contains(x) == exists|jj: int|
                                        0 <= jj < j + 1 && symbol_names_pair(#[trigger] syms@[jj]@, keys, x) by {
                                    if x == p {
                                        assert(symbol_names_pair(syms@[j as int]@, keys, x));
                                    }
                                    if r@ != before {
                                        assert(r@ == before.push(p));
                                        lemma_push_contains(before, p, x);
                                    }
                                    if exists|jj: int| 0 <= jj < j + 1 && symbol_names_pair(#[trigger] syms@[jj]@, keys, x) {
                                        let jj = choose|jj: int| 0 <= jj < j + 1 && symbol_names_pair(#[trigger] syms@[jj]@, keys, x);
                                        if jj == j {
                                            assert(x == p);
                                        }
                                    }
                                }
                            }
                        },
                        _ => {
                            proof {
                                assert forall|x: CurrencyIDPair| !symbol_names_pair(syms@[j as int]@, keys, x) by {}
                            }
                        },
                    }
                },
                None => {},
            }
            j += 1;
        }
        r
    }

    pub fn exchange_to_string(&self, e: &ExchangeID) -> (r: &str)
        requires
            self.exchanges.wf(),
        ensures
            (e.0 as int) < self.exchanges.keys().len() ==> r@ == self.exchanges.keys()[e.0 as int],
            (e.0 as int) >= self.exchanges.keys().len() ==> r@ == "N/A"@,
    {
        if let Some(name) = self.exchanges.get_key(e) {
            return name;
        }
        "N/A"
    }

    pub fn currency_to_string(&self, c: &CurrencyID) -> (r: &str)
        requires
            self.currencies.wf(),
        ensures
            (c.0 as int) < self.currencies.keys().len() ==> r@ == self.currencies.keys()[c.0 as int],
            (c.0 as int) >= self.currencies.keys().len() ==> r@ == "N/A"@,
    {
        if let Some(name) = self.currencies.get_key(c) {
            return name;
        }
        "N/A"
    }

    /// `"BASE : QUOTE"` with the currency names (or `N/A`).
    pub fn currency_pair_to_string(&self, cp: &CurrencyIDPair) -> (r: String)
        requires
            self.currencies.wf(),
        ensures
            r@ == self.currency_name(cp.first) + " : "@ + self.currency_name(cp.second),
    {
        let s = String::from_str(self.currency_to_string(&cp.first));
        let s = s.concat(" : ");
        s.concat(self.currency_to_string(&cp.second))
    }

    pub open spec fn currency_name(&self, c: CurrencyID) -> Seq<char> {
        if (c.0 as int) < self.currencies.keys().len() {
            self.currencies.keys()[c.0 as int]
        } else {
            "N/A"@
        }
    }

    /// The names of both currencies of `cp`, if both are known.
    pub fn get_currency_pair_strings(&self, cp: &CurrencyIDPair) -> (r: Option<(&str, &str)>)
        requires
            self.currencies.wf(),
        ensures
            r is Some == ((cp.first.0 as int) < self.currencies.keys().len() && (cp.second.0 as int)
                < self.currencies.keys().len()),
            r is Some ==> (r->0).0@ == self.currencies.keys()[cp.first.0 as int] && (r->0).1@
                == self.currencies.keys()[cp.second.0 as int],
    {
        match (self.currencies.get_key(&cp.first), self.currencies.get_key(&cp.second)) {
            (Some(a), Some(b)) => Some((a, b)),
            _ => None,
        }
    }

    /// The pairs of `pairs` that have an inverse among `pairs`; a pair of
    /// one currency is its own inverse.
    pub fn get_inverse_pairs(pairs: &Vec<CurrencyIDPair>) -> (r: Vec<CurrencyIDPair>)
        ensures
            forall|p: CurrencyIDPair| #[trigger]
                r@.contains(p) == (pairs@.contains(p) && exists|k: int|
                    0 <= k < pairs@.len() && CurrencyIDPair::spec_is_inverse(p, #[trigger] pairs@[k])),
    {
        let mut r: Vec<CurrencyIDPair> = Vec::new();
        let mut i: usize = 0;
        while i < pairs.len()
            invariant
                i <= pairs@.len(),
                forall|p: CurrencyIDPair| #[trigger]
                    r@.contains(p) == (pairs@.take(i as int).contains(p) && exists|k: int|
                        0 <= k < pairs@.len() && CurrencyIDPair::spec_is_inverse(p, #[trigger] pairs@[k])),
            decreases pairs@.len() - i,
        {
            let a = pairs[i];
            let mut j: usize = 0;
            let mut found = false;
            while j < pairs.len()
                invariant
                    j <= pairs@.len(),
                    !found ==> forall|k: int| 0 <= k < j ==> !CurrencyIDPair::spec_is_inverse(a, #[trigger] pairs@[k]),
                    found ==> exists|k: int| 0 <= k < pairs@.len() && CurrencyIDPair::spec_is_inverse(a, #[trigger] pairs@[k]),
                decreases pairs@.len() - j,
            {
                if !found && CurrencyIDPair::is_inverse(&a, &pairs[j]) {
                    found = true;
                    assert(CurrencyIDPair::spec_is_inverse(a, pairs@[j as int]));
                }
                j += 1;
            }
            let ghost before = r@;
            if found {
                r.push(a);
            }
            proof {
                assert(pairs@.take(i + 1) == pairs@.take(i as int).push(a));
                assert forall|p: CurrencyIDPair| #[trigger]
                    r@.contains(p) == (pairs@.take(i + 1).contains(p) && exists|k: int|
                        0 <= k < pairs@.len() && CurrencyIDPair::spec_is_inverse(p, #[trigger] pairs@[k])) by {
                    lemma_push_contains(pairs@.take(i as int), a, p);
                    if found {
                        lemma_push_contains(before, a, p);
                    }
                }
            }
            i += 1;
        }
        assert(pairs@.take(i as int) == pairs@);
        r
    }

    /// No exchange lists a pair of one currency, or a pair and its inverse.
    pub open spec fn pairs_valid(&self) -> bool {
        forall|i: int, j: int, k: int|
            0 <= i < self.exchange_currency_pairs@.len() && 0 <= j < self.exchange_currency_pairs@[i].1@.len()
                && 0 <= k < self.exchange_currency_pairs@[i].1@.len() ==> !CurrencyIDPair::spec_is_inverse(
                #[trigger] self.exchange_currency_pairs@[i].1@[j],
                #[trigger] self.exchange_currency_pairs@[i].1@[k],
            )
    }

    /// Whether the lexicon is free of pairs of one currency and of inverse
    /// pairs on one exchange.
    pub fn verify_exchange_currency_pairs(&self) -> (r: bool)
        ensures
            r == self.pairs_valid(),
    {
        let mut i: usize = 0;
        while i < self.exchange_currency_pairs.len()
            invariant
                i <= self.exchange_currency_pairs@.len(),
                forall|a: int, j: int, k: int|
                    0 <= a < i && 0 <= j < self.exchange_currency_pairs@[a].1@.len() && 0 <= k
                        < self.exchange_currency_pairs@[a].1@.len() ==> !CurrencyIDPair::spec_is_inverse(
                        #[trigger] self.exchange_currency_pairs@[a].1@[j],
                        #[trigger] self.exchange_currency_pairs@[a].1@[k],
                    ),
            decreases self.exchange_currency_pairs@.len() - i,
        {
            let pairs = &self.exchange_currency_pairs[i].1;
            let inverse = Self::get_inverse_pairs(pairs);
            if inverse.len() > 0 {
                proof {
                    let p = inverse@[0];
                    assert(inverse@.contains(p));
                    let j = choose|j: int| 0 <= j < pairs@.len() && pairs@[j] == p;
                    let k = choose|k: int| 0 <= k < pairs@.len() && CurrencyIDPair::spec_is_inverse(p, #[trigger] pairs@[k]);
                    assert(CurrencyIDPair::spec_is_inverse(self.exchange_currency_pairs@[i as int].1@[j], self.exchange_currency_pairs@[i as int].1@[k]));
                }
                return false;
            }
            proof {
                assert forall|j: int, k: int| 0 <= j < pairs@.len() && 0 <= k < pairs@.len() implies
                    !CurrencyIDPair::spec_is_inverse(#[trigger] pairs@[j], #[trigger] pairs@[k]) by {
                    if CurrencyIDPair::spec_is_inverse(pairs@[j], pairs@[k]) {
                        assert(pairs@.contains(pairs@[j]));
                        assert(inverse@.contains(pairs@[j]));
                    }
                }
            }
            i += 1;
        }
        true
    }

    /// The exchanges with their pairs, in id order.
    pub fn exchange_currency_pairs_iter(&self) -> (r: &[(ExchangeID, Vec<CurrencyIDPair>)])
        ensures
            r@ == self.exchange_currency_pairs@,
    {
        self.exchange_currency_pairs.as_slice()
    }
}

/// Number of distinct strings among `items`.
fn distinct_count(items: &Vec<&str>) -> (r: usize)
    ensures
        r == distinct(items@.map_values(|s: &str| s@)).len(),
{
    let ghost all = items@.map_values(|s: &str| s@);
    let mut seen: Vec<String> = Vec::new();
    let mut i: usize = 0;
    while i < items.len()
        invariant
            all == items@.map_values(|s: &str| s@),
            i <= items@.len(),
            seen@.map_values(|s: String| s@) == distinct(all.take(i as int)),
            seen@.len() <= i,
        decreases items@.len() - i,
    {
        let k = items[i].to_owned();
        assert(all.take(i + 1).drop_last() == all.take(i as int));
        assert(all.take(i + 1).last() == k@);
        let ghost d = distinct(all.take(i as int));
        let mut j: usize = 0;
        let mut found = false;
        while j < seen.len()
            invariant
                j <= seen@.len(),
                seen@.map_values(|s: String| s@) == d,
                found == exists|m: int| 0 <= m < j && d[m] == k@,
            decreases seen@.len() - j,
        {
            assert(d[j as int] == seen@[j as int]@);
            if seen[j] == k {
                found = true;
            }
            j += 1;
        }
        if !found {
            let ghost before = seen@;
            seen.push(k);
            assert(seen@.map_values(|s: String| s@) =~= before.map_values(|s: String| s@).push(k@));
        }
        i += 1;
    }
    assert(all.take(i as int) == all);
    seen.len()
}

impl CryptoExchangeLexicon {
    /// Whether the exchange and currency names of `ex_symbols` fit the id types.
    pub fn fits_id_space(ex_symbols: &[ExchangeSymbolsJson]) -> (r: bool)
        ensures
            r == Self::fits(ex_symbols@),
    {
        let mut names: Vec<&str> = Vec::new();
        let mut i: usize = 0;
        while i < ex_symbols.len()
            invariant
                i <= ex_symbols@.len(),
                names@.len() == i,
                forall|k: int| 0 <= k < i ==> (#[trigger] names@[k])@ == ex_symbols@[k].exchange@,
            decreases ex_symbols@.len() - i,
        {
            names.push(ex_symbols[i].exchange.as_str());
            i += 1;
        }
        assert(names@.map_values(|s: &str| s@) =~= exchange_names(ex_symbols@));
        let currencies = collect_currency_names(ex_symbols);
        distinct_count(&names) <= 255 && distinct_count(&currencies) <= 65535
    }
}

/// Orders targets by exchange id, then currency id.
pub open spec fn target_key(t: ExchangeIDCurrencyIDPair) -> int {
    t.exchange.0 as int * 65536 + t.currency.0 as int
}

/// Strictly increasing by `target_key`, hence free of repeats.
pub open spec fn targets_sorted(s: Seq<ExchangeIDCurrencyIDPair>) -> bool {
    forall|i: int, j: int| 0 <= i < j < s.len() ==> target_key(#[trigger] s[i]) < target_key(#[trigger] s[j])
}

proof fn lemma_key_injective(a: ExchangeIDCurrencyIDPair, b: ExchangeIDCurrencyIDPair)
    requires
        target_key(a) == target_key(b),
    ensures
        a == b,
{
    assert(a.exchange.0 == b.exchange.0 && a.currency.0 == b.currency.0) by (nonlinear_arith)
        requires
            a.exchange.0 as int * 65536 + a.currency.0 as int == b.exchange.0 as int * 65536 + b.currency.0 as int,
            a.currency.0 < 65536,
            b.currency.0 < 65536,
    ;
}

/// Adds `x` to the sorted `r` unless it is there.
fn insert_target(r: &mut Vec<ExchangeIDCurrencyIDPair>, x: ExchangeIDCurrencyIDPair)
    requires
        targets_sorted(old(r)@),
    ensures
        targets_sorted(final(r)@),
        forall|t: ExchangeIDCurrencyIDPair| #[trigger] final(r)@.contains(t) == (old(r)@.contains(t) || t == x),
{
    let kx = x.exchange.0 as u64 * 65536 + x.currency.0 as u64;
    let mut p: usize = 0;
    while p < r.len()
        invariant
            p <= r@.len(),
            kx == target_key(x),
            forall|i: int| 0 <= i < p ==> target_key(#[trigger] r@[i]) < target_key(x),
        ensures
            p <= r@.len(),
            forall|i: int| 0 <= i < p ==> target_key(#[trigger] r@[i]) < target_key(x),
            p < r@.len() ==> target_key(r@[p as int]) >= target_key(x),
        decreases r@.len() - p,
    {
        let y = r[p];
        let ky = y.exchange.0 as u64 * 65536 + y.currency.0 as u64;
        if ky >= kx {
            break;
        }
        p += 1;
    }
    let ghost old_r = r@;
    if p < r.len() && r[p] == x {
        return;
    }
    proof {
        if p < old_r.len() {
            if target_key(old_r[p as int]) == target_key(x) {
                lemma_key_injective(old_r[p as int], x);
            }
            assert(target_key(old_r[p as int]) > target_key(x));
        }
    }
    r.insert(p, x);
    proof {
        let nr = r@;
        assert forall|i: int, j: int| 0 <= i < j < nr.len() implies target_key(#[trigger] nr[i]) < target_key(#[trigger] nr[j]) by {
            if j < p {
                assert(nr[i] == old_r[i] && nr[j] == old_r[j]);
            } else if j == p {
                assert(nr[i] == old_r[i]);
            } else if i < p {
                assert(nr[i] == old_r[i] && nr[j] == old_r[j - 1]);
                if j - 1 > p {
                    assert(target_key(old_r[p as int]) < target_key(old_r[j - 1]));
                }
            } else if i == p {
                assert(nr[j] == old_r[j - 1]);
                if j - 1 > p {
                    assert(target_key(old_r[p as int]) < target_key(old_r[j - 1]));
                }
            } else {
                assert(nr[i] == old_r[i - 1] && nr[j] == old_r[j - 1]);
            }
        }
        assert forall|t: ExchangeIDCurrencyIDPair| #[trigger] nr.contains(t) == (old_r.contains(t) || t == x) by {
            if old_r.contains(t) {
                let k = choose|k: int| 0 <= k < old_r.len() && old_r[k] == t;
                if k < p {
                    assert(nr[k] == t);
                } else {
                    assert(nr[k + 1] == t);
                }
            }
            if t == x {
                assert(nr[p as int] == t);
            }
            if nr.contains(t) {
                let k = choose|k: int| 0 <= k < nr.len() && nr[k] == t;
                if k < p {
                    assert(old_r[k] == t);
                } else if k > p {
                    assert(old_r[k - 1] == t);
                }
            }
        }
    }
}

impl CryptoExchangeLexicon {
    /// Entry `a` of the pairs lists, in its pair `b`, the currency of `t` for `t`'s exchange.
    pub open spec fn lists_at(&self, a: int, b: int, t: ExchangeIDCurrencyIDPair) -> bool {
        &&& 0 <= a < self.exchange_currency_pairs@.len()
        &&& 0 <= b < self.exchange_currency_pairs@[a].1@.len()
        &&& self.exchange_currency_pairs@[a].0 == t.exchange
        &&& self.exchange_currency_pairs@[a].1@[b].spec_contains(t.currency)
    }

    /// Some pair of `t`'s exchange contains `t`'s currency.
    pub open spec fn lists_target(&self, t: ExchangeIDCurrencyIDPair) -> bool {
        exists|a: int, b: int| #[trigger] self.lists_at(a, b, t)
    }

    /// Every target of the lexicon (each currency that some pair of an
    /// exchange contains, with that exchange), sorted and each once.
    pub fn all_targets(&self) -> (r: Vec<ExchangeIDCurrencyIDPair>)
        ensures
            targets_sorted(r@),
            forall|t: ExchangeIDCurrencyIDPair| #[trigger] r@.contains(t) == self.lists_target(t),
    {
        let mut r: Vec<ExchangeIDCurrencyIDPair> = Vec::new();
        let mut a: usize = 0;
        while a < self.exchange_currency_pairs.len()
            invariant
                a <= self.exchange_currency_pairs@.len(),
                targets_sorted(r@),
                forall|t: ExchangeIDCurrencyIDPair| #[trigger] r@.contains(t) == exists|a2: int, b2: int|
                    a2 < a && #[trigger] self.lists_at(a2, b2, t),
            decreases self.exchange_currency_pairs@.len() - a,
        {
            let e = self.exchange_currency_pairs[a].0;
            let pairs = &self.exchange_currency_pairs[a].1;
            let mut b: usize = 0;
            while b < pairs.len()
                invariant
                    a < self.exchange_currency_pairs@.len(),
                    pairs@ == self.exchange_currency_pairs@[a as int].1@,
                    e == self.exchange_currency_pairs@[a as int].0,
                    b <= pairs@.len(),
                    targets_sorted(r@),
                    forall|t: ExchangeIDCurrencyIDPair| #[trigger] r@.contains(t) == exists|a2: int, b2: int|
                        (a2 < a || (a2 == a && b2 < b)) && #[trigger] self.lists_at(a2, b2, t),
                decreases pairs@.len() - b,
            {
                let p = pairs[b];
                let t1 = ExchangeIDCurrencyIDPair { exchange: e, currency: p.first };
                let t2 = ExchangeIDCurrencyIDPair { exchange: e, currency: p.second };
                let ghost r0 = r@;
                insert_target(&mut r, t1);
                let ghost r1 = r@;
                insert_target(&mut r, t2);
                proof {
                    assert forall|t: ExchangeIDCurrencyIDPair| #[trigger] r@.contains(t) == exists|a2: int, b2: int|
                        (a2 < a || (a2 == a && b2 < b + 1)) && #[trigger] self.lists_at(a2, b2, t) by {
                        if t == t1 || t == t2 {
                            assert(self.lists_at(a as int, b as int, t));
                        }
                        if exists|a2: int, b2: int| (a2 < a || (a2 == a && b2 < b + 1)) && #[trigger] self.lists_at(a2, b2, t) {
                            let (a2, b2) = choose|a2: int, b2: int| (a2 < a || (a2 == a && b2 < b + 1)) && #[trigger] self.lists_at(a2, b2, t);
                            if a2 == a && b2 == b {
                                assert(t == t1 || t == t2);
                            } else {
                                assert(r0.contains(t));
                            }
                        }
                    }
                }
                b += 1;
            }
            proof {
                assert forall|t: ExchangeIDCurrencyIDPair| #[trigger] r@.contains(t) == exists|a2: int, b2: int|
                    a2 < a + 1 && #[trigger] self.lists_at(a2, b2, t) by {
                    if exists|a2: int, b2: int| a2 < a + 1 && #[trigger] self.lists_at(a2, b2, t) {
                        let (a2, b2) = choose|a2: int, b2: int| a2 < a + 1 && #[trigger] self.lists_at(a2, b2, t);
                        assert((a2 < a || (a2 == a && b2 < b)) && self.lists_at(a2, b2, t));
                    }
                }
            }
            a += 1;
        }
        r
    }
}

fn contains_currency_id(v: &Vec<CurrencyID>, c: CurrencyID) -> (r: bool)
    ensures
        r == v@.contains(c),
{
    let mut i: usize = 0;
    while i < v.len()
        invariant
            i <= v@.len(),
            forall|a: int| 0 <= a < i ==> v@[a] != c,
        decreases v@.len() - i,
    {
        if v[i] == c {
            return true;
        }
        i += 1;
    }
    false
}


fn contains_id_pair(v: &Vec<CurrencyIDPair>, p: CurrencyIDPair) -> (r: bool)
    ensures
        r == v@.contains(p),
{
    let mut i: usize = 0;
    while i < v.len()
        invariant
            i <= v@.len(),
            forall|a: int| 0 <= a < i ==> v@[a] != p,
        decreases v@.len() - i,
    {
        if v[i] == p {
            return true;
        }
        i += 1;
    }
    false
}


} // verus!
