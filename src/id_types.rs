use vstd::prelude::*;

verus! {

/// Error raised when a transaction is derived from a balance whose currency
/// does not select exactly one side of a pair.
#[derive(Debug, Clone, Copy, PartialEq, Eq, Structural)]
pub enum CryptoTypesError {
    NextCurrency(CurrencyID, CurrencyIDPair),
}

/// Strongly typed exchange id, handed out by the lexicon.
#[derive(Default, Debug, PartialEq, Eq, Structural, PartialOrd, Ord, Hash, Copy, Clone)]
pub struct ExchangeID(pub u8);

/// Strongly typed currency id (crypto or fiat), handed out by the lexicon.
#[derive(Default, Debug, PartialEq, Eq, Structural, PartialOrd, Ord, Hash, Copy, Clone)]
pub struct CurrencyID(pub u16);

/// A market: an ordered pair of a base (`first`) and a quote (`second`) currency.
#[derive(Debug, PartialEq, Eq, Structural, PartialOrd, Ord, Hash, Copy, Clone)]
pub struct CurrencyIDPair {
    pub first: CurrencyID,
    pub second: CurrencyID,
}

/// A holding of one currency on one exchange; also used as a search target.
#[derive(Debug, PartialEq, Eq, Structural, PartialOrd, Ord, Hash, Copy, Clone)]
pub struct ExchangeIDCurrencyIDPair {
    pub exchange: ExchangeID,
    pub currency: CurrencyID,
}

pub type BalanceExchangeCurrencyInfo = ExchangeIDCurrencyIDPair;

#[derive(Debug, PartialEq, Eq, Structural, PartialOrd, Ord, Hash, Copy, Clone)]
pub enum TransactionSide {
    BUY,
    SELL,
}

/// An intra-exchange swap from `currency_from` to `currency_to`.
#[derive(Debug, PartialEq, Eq, Structural, PartialOrd, Ord, Hash, Copy, Clone)]
pub struct TransactionExchangeCurrenciesBuySellInfo {
    pub exchange: ExchangeID,
    pub side: TransactionSide,
    pub currency_from: CurrencyID,
    pub currency_to: CurrencyID,
}

/// A move of one currency from one exchange to another.
#[derive(Debug, PartialEq, Eq, Structural, PartialOrd, Ord, Hash, Copy, Clone)]
pub struct TransferExchangeToExchangeCurrencyInfo {
    pub withdraw_exchange: ExchangeID,
    pub deposit_exchange: ExchangeID,
    pub currency: CurrencyID,
}

/// One step of a walk: a holding state, a swap or a transfer.
#[derive(Debug, PartialEq, Eq, Structural, PartialOrd, Ord, Hash, Copy, Clone)]
pub enum ExchangeOperationType {
    Balance(BalanceExchangeCurrencyInfo),
    Transaction(TransactionExchangeCurrenciesBuySellInfo),
    Transfer(TransferExchangeToExchangeCurrencyInfo),
}

impl CurrencyIDPair {
    pub open spec fn spec_contains(self, c: CurrencyID) -> bool {
        self.first == c || self.second == c
    }

    pub open spec fn spec_is_inverse(a: CurrencyIDPair, b: CurrencyIDPair) -> bool {
        a.first == b.second && a.second == b.first
    }

    /// A pair is usable for a transaction from `c` iff it is made of two
    /// distinct currencies and contains `c`.
    pub open spec fn selects(self, c: CurrencyID) -> bool {
        self.first != self.second && self.spec_contains(c)
    }

    /// The currency reached and the side taken when trading `c` on this pair.
    pub open spec fn spec_next(self, c: CurrencyID) -> (CurrencyID, TransactionSide) {
        if self.first == c {
            (self.second, TransactionSide::BUY)
        } else {
            (self.first, TransactionSide::SELL)
        }
    }

    pub fn new(first: CurrencyID, second: CurrencyID) -> (r: Self)
        ensures
            r == (CurrencyIDPair { first, second }),
    {
        CurrencyIDPair { first, second }
    }

    pub fn cointains(&self, c: &CurrencyID) -> (r: bool)
        ensures
            r == self.spec_contains(*c),
    {
        self.first == *c || self.second == *c
    }

    pub fn is_inverse(a: &CurrencyIDPair, b: &CurrencyIDPair) -> (r: bool)
        ensures
            r == Self::spec_is_inverse(*a, *b),
    {
        a.first == b.second && a.second == b.first
    }

    pub fn has_same_currencies(&self) -> (r: bool)
        ensures
            r == (self.first == self.second),
    {
        self.first == self.second
    }

    /// Buying on the pair from its base currency reaches the quote currency;
    /// selling from the quote currency reaches the base currency.
    pub fn next_currency_and_side(&self, from_currency: CurrencyID) -> (r: Result<
        (CurrencyID, TransactionSide),
        CryptoTypesError,
    >)
        ensures
            self.selects(from_currency) ==> r == Ok::<_, CryptoTypesError>(self.spec_next(from_currency)),
            !self.selects(from_currency) ==> r == Err::<(CurrencyID, TransactionSide), _>(
                CryptoTypesError::NextCurrency(from_currency, *self),
            ),
    {
        let is_bid = self.first == from_currency;
        let is_sell = self.second == from_currency;
        if is_bid == is_sell {
            return Err(CryptoTypesError::NextCurrency(from_currency, *self));
        }
        if is_bid {
            Ok((self.second, TransactionSide::BUY))
        } else {
            Ok((self.first, TransactionSide::SELL))
        }
    }
}

impl ExchangeID {
    pub fn with_currency(&self, c: &CurrencyID) -> (r: ExchangeIDCurrencyIDPair)
        ensures
            r == (ExchangeIDCurrencyIDPair { exchange: *self, currency: *c }),
    {
        ExchangeIDCurrencyIDPair { exchange: *self, currency: *c }
    }
}

impl TransactionExchangeCurrenciesBuySellInfo {
    pub open spec fn spec_is_transaction_inverse(self, a: Self) -> bool {
        self.exchange == a.exchange && self.side != a.side && self.currency_from == a.currency_to
            && self.currency_to == a.currency_from
    }

    pub fn is_transaction_inverse(&self, a: &TransactionExchangeCurrenciesBuySellInfo) -> (r: bool)
        ensures
            r == self.spec_is_transaction_inverse(*a),
    {
        self.exchange == a.exchange && self.side != a.side && self.currency_from == a.currency_to
            && self.currency_to == a.currency_from
    }
}

impl TransferExchangeToExchangeCurrencyInfo {
    pub open spec fn spec_is_transfer_inverse(self, a: Self) -> bool {
        a.currency == self.currency && a.withdraw_exchange == self.deposit_exchange
            && a.deposit_exchange == self.withdraw_exchange
    }

    pub fn is_transfer_inverse(&self, a: &TransferExchangeToExchangeCurrencyInfo) -> (r: bool)
        ensures
            r == self.spec_is_transfer_inverse(*a),
    {
        a.currency == self.currency && a.withdraw_exchange == self.deposit_exchange
            && a.deposit_exchange == self.withdraw_exchange
    }
}

impl ExchangeOperationType {
    /// Two transactions on one exchange with opposite sides and swapped
    /// currencies, or two transfers of one currency with swapped exchanges.
    pub open spec fn spec_is_inverse(a: Self, b: Self) -> bool {
        match (a, b) {
            (Self::Transaction(x), Self::Transaction(y)) => x.spec_is_transaction_inverse(y),
            (Self::Transfer(x), Self::Transfer(y)) => x.spec_is_transfer_inverse(y),
            _ => false,
        }
    }

    pub open spec fn is_transfer_op(self) -> bool {
        self is Transfer
    }

    pub open spec fn is_balance_op(self) -> bool {
        self is Balance
    }

    pub fn is_inverse(a: &Self, b: &Self) -> (r: bool)
        ensures
            r == Self::spec_is_inverse(*a, *b),
    {
        match (a, b) {
            (Self::Transaction(a_v), Self::Transaction(b_v)) => a_v.is_transaction_inverse(b_v),
            (Self::Transfer(a_v), Self::Transfer(b_v)) => a_v.is_transfer_inverse(b_v),
            _ => false,
        }
    }
}

/// Access to the walk step that a value describes.
pub trait ExchangeOperationTypeInfo {
    spec fn spec_operation_type(&self) -> ExchangeOperationType;

    fn get_operation_type(&self) -> (r: ExchangeOperationType)
        ensures
            r == self.spec_operation_type(),
    ;
}

impl ExchangeOperationTypeInfo for ExchangeIDCurrencyIDPair {
    open spec fn spec_operation_type(&self) -> ExchangeOperationType {
        ExchangeOperationType::Balance(*self)
    }

    fn get_operation_type(&self) -> (r: ExchangeOperationType) {
        ExchangeOperationType::Balance(*self)
    }
}

impl ExchangeOperationTypeInfo for TransactionExchangeCurrenciesBuySellInfo {
    open spec fn spec_operation_type(&self) -> ExchangeOperationType {
        ExchangeOperationType::Transaction(*self)
    }

    fn get_operation_type(&self) -> (r: ExchangeOperationType) {
        ExchangeOperationType::Transaction(*self)
    }
}

impl ExchangeOperationTypeInfo for TransferExchangeToExchangeCurrencyInfo {
    open spec fn spec_operation_type(&self) -> ExchangeOperationType {
        ExchangeOperationType::Transfer(*self)
    }

    fn get_operation_type(&self) -> (r: ExchangeOperationType) {
        ExchangeOperationType::Transfer(*self)
    }
}

} // verus!
