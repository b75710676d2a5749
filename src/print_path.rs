use vstd::prelude::*;
use vstd::string::StringExecFns;
use crate::arbitrage_paths::{ArbitragePath, ArbitragePath11Nodes, ArbitragePath7Nodes};
use crate::id_types::{ExchangeOperationType, TransactionSide};

verus! {

/// The decimal digit `d`.
pub open spec fn digit_text(d: int) -> Seq<char> {
    if d == 0 {
        "0"@
    } else if d == 1 {
        "1"@
    } else if d == 2 {
        "2"@
    } else if d == 3 {
        "3"@
    } else if d == 4 {
        "4"@
    } else if d == 5 {
        "5"@
    } else if d == 6 {
        "6"@
    } else if d == 7 {
        "7"@
    } else if d == 8 {
        "8"@
    } else {
        "9"@
    }
}

/// `n` written in decimal, without leading zeros.
pub open spec fn decimal(n: nat) -> Seq<char>
    decreases n,
{
    if n < 10 {
        digit_text(n as int)
    } else {
        decimal(n / 10) + digit_text((n % 10) as int)
    }
}

/// The short text of one operation, such as `b(e=0,c=3)`,
/// `tx(e=0,s=1,cf=3,ct=5)` (side 0 buys, 1 sells) or `tr(we=0,de=1,c=3)`.
pub open spec fn op_text(op: ExchangeOperationType) -> Seq<char> {
    match op {
        ExchangeOperationType::Balance(b) => "b(e="@ + decimal(b.exchange.0 as nat) + ",c="@ + decimal(
            b.currency.0 as nat,
        ) + ")"@,
        ExchangeOperationType::Transaction(t) => "tx(e="@ + decimal(t.exchange.0 as nat) + ",s="@ + (
        match t.side {
            TransactionSide::BUY => "0"@,
            TransactionSide::SELL => "1"@,
        }) + ",cf="@ + decimal(t.currency_from.0 as nat) + ",ct="@ + decimal(t.currency_to.0 as nat)
            + ")"@,
        ExchangeOperationType::Transfer(t) => "tr(we="@ + decimal(t.withdraw_exchange.0 as nat) + ",de="@
            + decimal(t.deposit_exchange.0 as nat) + ",c="@ + decimal(t.currency.0 as nat) + ")"@,
    }
}

/// The texts of `ops` joined by `-`.
pub open spec fn ops_text(ops: Seq<ExchangeOperationType>) -> Seq<char>
    decreases ops.len(),
{
    if ops.len() == 0 {
        Seq::empty()
    } else if ops.len() == 1 {
        op_text(ops[0])
    } else {
        ops_text(ops.drop_last()) + "-"@ + op_text(ops.last())
    }
}

fn digit_str(d: u64) -> (r: &'static str)
    requires
        d < 10,
    ensures
        r@ == digit_text(d as int),
{
    if d == 0 {
        "0"
    } else if d == 1 {
        "1"
    } else if d == 2 {
        "2"
    } else if d == 3 {
        "3"
    } else if d == 4 {
        "4"
    } else if d == 5 {
        "5"
    } else if d == 6 {
        "6"
    } else if d == 7 {
        "7"
    } else if d == 8 {
        "8"
    } else {
        "9"
    }
}

fn push_decimal(s: &mut String, n: u64)
    ensures
        final(s)@ == old(s)@ + decimal(n as nat),
    decreases n,
{
    if n >= 10 {
        push_decimal(s, n / 10);
        let ghost mid = s@;
        s.append(digit_str(n % 10));
        assert(s@ =~= old(s)@ + decimal(n as nat));
    } else {
        s.append(digit_str(n));
    }
}

fn push_op_text(s: &mut String, op: &ExchangeOperationType)
    ensures
        final(s)@ == old(s)@ + op_text(*op),
{
    match op {
        ExchangeOperationType::Balance(b) => {
            s.append("b(e=");
            push_decimal(s, b.exchange.0 as u64);
            s.append(",c=");
            push_decimal(s, b.currency.0 as u64);
            s.append(")");
        },
        ExchangeOperationType::Transaction(t) => {
            s.append("tx(e=");
            push_decimal(s, t.exchange.0 as u64);
            s.append(",s=");
            match t.side {
                TransactionSide::BUY => s.append("0"),
                TransactionSide::SELL => s.append("1"),
            }
            s.append(",cf=");
            push_decimal(s, t.currency_from.0 as u64);
            s.append(",ct=");
            push_decimal(s, t.currency_to.0 as u64);
            s.append(")");
        },
        ExchangeOperationType::Transfer(t) => {
            s.append("tr(we=");
            push_decimal(s, t.withdraw_exchange.0 as u64);
            s.append(",de=");
            push_decimal(s, t.deposit_exchange.0 as u64);
            s.append(",c=");
            push_decimal(s, t.currency.0 as u64);
            s.append(")");
        },
    }
    assert(s@ =~= old(s)@ + op_text(*op));
}

/// The texts of `ops` joined by `-`.
pub fn string_id(ops: &[ExchangeOperationType]) -> (r: String)
    ensures
        r@ == ops_text(ops@),
{
    let mut s = String::new();
    let mut i: usize = 0;
    while i < ops.len()
        invariant
            i <= ops@.len(),
            s@ == ops_text(ops@.take(i as int)),
        decreases ops@.len() - i,
    {
        let ghost before = s@;
        if i > 0 {
            s.append("-");
        }
        push_op_text(&mut s, &ops[i]);
        proof {
            assert(ops@.take(i + 1).drop_last() == ops@.take(i as int));
            assert(ops@.take(i + 1).last() == ops@[i as int]);
            if i == 0 {
                assert(ops@.take(1)[0] == ops@[0]);
                assert(before =~= Seq::<char>::empty());
            }
            assert(s@ =~= ops_text(ops@.take(i + 1)));
        }
        i += 1;
    }
    assert(ops@.take(i as int) == ops@);
    s
}

/// Textual forms of a walk.
pub trait PrintPath {
    spec fn path_ops(&self) -> Seq<ExchangeOperationType>;

    fn string_id(&self) -> (r: String)
        ensures
            r@ == ops_text(self.path_ops()),
    ;

    fn path_node_count(&self) -> (r: usize)
        ensures
            r == self.path_ops().len(),
    ;
}

impl PrintPath for ArbitragePath {
    open spec fn path_ops(&self) -> Seq<ExchangeOperationType> {
        self.0@
    }

    fn string_id(&self) -> (r: String) {
        string_id(self.0.as_slice())
    }

    fn path_node_count(&self) -> (r: usize) {
        self.0.len()
    }
}

impl PrintPath for ArbitragePath7Nodes {
    open spec fn path_ops(&self) -> Seq<ExchangeOperationType> {
        self.0@
    }

    fn string_id(&self) -> (r: String) {
        string_id(&self.0)
    }

    fn path_node_count(&self) -> (r: usize) {
        7
    }
}

impl PrintPath for ArbitragePath11Nodes {
    open spec fn path_ops(&self) -> Seq<ExchangeOperationType> {
        self.0@
    }

    fn string_id(&self) -> (r: String) {
        string_id(&self.0)
    }

    fn path_node_count(&self) -> (r: usize) {
        11
    }
}

} // verus!
