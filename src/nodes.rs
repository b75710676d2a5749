use vstd::prelude::*;
use crate::id_types::{
    BalanceExchangeCurrencyInfo, CurrencyIDPair, ExchangeID, ExchangeOperationType,
    ExchangeOperationTypeInfo, TransactionExchangeCurrenciesBuySellInfo,
    TransferExchangeToExchangeCurrencyInfo,
};
use crate::search_stop_settings::{level_of, SearchStopSettings};

verus! {

/// Structural access to a walk node.
pub trait NodeTrait {
    spec fn spec_level(&self) -> u8;

    spec fn spec_from(&self) -> Option<usize>;

    /// Number of operations between the root and this node.
    fn level(&self) -> (r: u8)
        ensures
            r == self.spec_level(),
    ;

    /// Handle of the parent node in the walk arena, `None` for the root.
    fn from_node(&self) -> (r: Option<usize>)
        ensures
            r == self.spec_from(),
    ;
}

/// One step of a walk. Nodes of one walk live in an arena (a vector of
/// operations, root first); `from` is the handle of the parent in it.
pub struct Node<T> {
    pub level: u8,
    pub from: Option<usize>,
    pub operation_data: T,
}

impl<T> Node<T> {
    fn new(parent: Option<usize>, level: u8, operation_data: T) -> (r: Node<T>)
        ensures
            r.level == level,
            r.from == parent,
            r.operation_data == operation_data,
    {
        Node { level, from: parent, operation_data }
    }
}

impl<T> NodeTrait for Node<T> {
    open spec fn spec_level(&self) -> u8 {
        self.level
    }

    open spec fn spec_from(&self) -> Option<usize> {
        self.from
    }

    fn level(&self) -> (r: u8) {
        self.level
    }

    fn from_node(&self) -> (r: Option<usize>) {
        self.from
    }
}

impl<T: ExchangeOperationTypeInfo> ExchangeOperationTypeInfo for Node<T> {
    open spec fn spec_operation_type(&self) -> ExchangeOperationType {
        self.operation_data.spec_operation_type()
    }

    fn get_operation_type(&self) -> (r: ExchangeOperationType) {
        self.operation_data.get_operation_type()
    }
}

pub type BalanceNode = Node<BalanceExchangeCurrencyInfo>;

pub type TransferNode = Node<TransferExchangeToExchangeCurrencyInfo>;

pub type TransactionNode = Node<TransactionExchangeCurrenciesBuySellInfo>;

impl Node<BalanceExchangeCurrencyInfo> {
    pub fn create(parent: Option<usize>, level: u8, operation_data: BalanceExchangeCurrencyInfo) -> (r: BalanceNode)
        ensures
            r == (Node { level, from: parent, operation_data }),
    {
        Node::new(parent, level, operation_data)
    }
}

impl Node<TransferExchangeToExchangeCurrencyInfo> {
    pub fn create(
        parent: Option<usize>,
        level: u8,
        operation_data: TransferExchangeToExchangeCurrencyInfo,
    ) -> (r: TransferNode)
        ensures
            r == (Node { level, from: parent, operation_data }),
    {
        Node::new(parent, level, operation_data)
    }
}

impl Node<TransactionExchangeCurrenciesBuySellInfo> {
    pub fn create(
        parent: Option<usize>,
        level: u8,
        operation_data: TransactionExchangeCurrenciesBuySellInfo,
    ) -> (r: TransactionNode)
        ensures
            r == (Node { level, from: parent, operation_data }),
    {
        Node::new(parent, level, operation_data)
    }
}

/// The transaction taken from balance `b` on `pair` (derivation rule: buy
/// from the base currency, sell from the quote currency).
pub open spec fn tx_op(b: BalanceExchangeCurrencyInfo, pair: CurrencyIDPair) -> ExchangeOperationType {
    let (to, side) = pair.spec_next(b.currency);
    ExchangeOperationType::Transaction(
        TransactionExchangeCurrenciesBuySellInfo {
            exchange: b.exchange,
            side,
            currency_from: b.currency,
            currency_to: to,
        },
    )
}

/// The balance reached from `b` by a transaction on `pair`.
pub open spec fn tx_balance(b: BalanceExchangeCurrencyInfo, pair: CurrencyIDPair) -> BalanceExchangeCurrencyInfo {
    BalanceExchangeCurrencyInfo { exchange: b.exchange, currency: pair.spec_next(b.currency).0 }
}

pub open spec fn tr_op(b: BalanceExchangeCurrencyInfo, to: ExchangeID) -> ExchangeOperationType {
    ExchangeOperationType::Transfer(
        TransferExchangeToExchangeCurrencyInfo {
            withdraw_exchange: b.exchange,
            deposit_exchange: to,
            currency: b.currency,
        },
    )
}

pub open spec fn tr_balance(b: BalanceExchangeCurrencyInfo, to: ExchangeID) -> BalanceExchangeCurrencyInfo {
    BalanceExchangeCurrencyInfo { exchange: to, currency: b.currency }
}

/// Appends to the walk `chain` (which ends at `b`) the transaction on `pair`.
/// If that node stops the search, `chain` is left as it was and `None` comes
/// back; else the balance node that follows the transaction.
pub fn execute_and_connect_transaction(
    b: &BalanceNode,
    pair: CurrencyIDPair,
    chain: &mut Vec<ExchangeOperationType>,
    search_stop_settings: &SearchStopSettings,
) -> (r: Option<BalanceNode>)
    requires
        old(chain)@.len() >= 1,
        old(chain)@.last() == ExchangeOperationType::Balance(b.operation_data),
        b.level as int == level_of(old(chain)@),
        pair.selects(b.operation_data.currency),
    ensures
        ({
            let c1 = old(chain)@.push(tx_op(b.operation_data, pair));
            match r {
                None => final(chain)@ == old(chain)@ && search_stop_settings.spec_is_stop(c1),
                Some(nb) => {
                    &&& final(chain)@ == c1
                    &&& !search_stop_settings.spec_is_stop(c1)
                    &&& nb.operation_data == tx_balance(b.operation_data, pair)
                    &&& nb.level == b.level + 1
                    &&& nb.from == Some(old(chain)@.len() as usize)
                },
            }
        }),
{
    let exchange = b.operation_data.exchange;
    let c = b.operation_data.currency;
    let (new_balance_currency, side) = match pair.next_currency_and_side(c) {
        Ok(v) => v,
        Err(_) => {
            return None;
        },
    };
    if b.level == u8::MAX {
        proof {
            assert(search_stop_settings.spec_is_stop(old(chain)@.push(tx_op(b.operation_data, pair))));
        }
        return None;
    }
    let next_level_depth = b.level + 1;
    let t_info = TransactionExchangeCurrenciesBuySellInfo {
        exchange,
        side,
        currency_from: c,
        currency_to: new_balance_currency,
    };
    let parent = chain.len() - 1;
    let t = TransactionNode::create(Some(parent), next_level_depth, t_info);
    chain.push(t.get_operation_type());
    if search_stop_settings.is_skip_search_node(chain) {
        chain.pop();
        return None;
    }
    let tx_balance_info = BalanceExchangeCurrencyInfo { exchange, currency: new_balance_currency };
    Some(BalanceNode::create(Some(parent + 1), next_level_depth, tx_balance_info))
}

/// Appends to the walk `chain` (which ends at `b`) the transfer to
/// `to_exchange`, as `execute_and_connect_transaction` does for transactions.
pub fn execute_and_connect_transfer(
    b: &BalanceNode,
    to_exchange: ExchangeID,
    chain: &mut Vec<ExchangeOperationType>,
    search_stop_settings: &SearchStopSettings,
) -> (r: Option<BalanceNode>)
    requires
        old(chain)@.len() >= 1,
        old(chain)@.last() == ExchangeOperationType::Balance(b.operation_data),
        b.level as int == level_of(old(chain)@),
    ensures
        ({
            let c1 = old(chain)@.push(tr_op(b.operation_data, to_exchange));
            match r {
                None => final(chain)@ == old(chain)@ && search_stop_settings.spec_is_stop(c1),
                Some(nb) => {
                    &&& final(chain)@ == c1
                    &&& !search_stop_settings.spec_is_stop(c1)
                    &&& nb.operation_data == tr_balance(b.operation_data, to_exchange)
                    &&& nb.level == b.level + 1
                    &&& nb.from == Some(old(chain)@.len() as usize)
                },
            }
        }),
{
    let exchange = b.operation_data.exchange;
    let currency = b.operation_data.currency;
    if b.level == u8::MAX {
        proof {
            assert(search_stop_settings.spec_is_stop(old(chain)@.push(tr_op(b.operation_data, to_exchange))));
        }
        return None;
    }
    let next_level_depth = b.level + 1;
    let tr_info = TransferExchangeToExchangeCurrencyInfo {
        withdraw_exchange: exchange,
        deposit_exchange: to_exchange,
        currency,
    };
    let parent = chain.len() - 1;
    let tr = TransferNode::create(Some(parent), next_level_depth, tr_info);
    chain.push(tr.get_operation_type());
    if search_stop_settings.is_skip_search_node(chain) {
        chain.pop();
        return None;
    }
    let tr_b_info = BalanceExchangeCurrencyInfo { exchange: to_exchange, currency };
    Some(BalanceNode::create(Some(parent + 1), next_level_depth, tr_b_info))
}

} // verus!
