//! The records that a parsed ledger hands to the engine.
use crate::date_utils::Date;
use crate::decimal::Dec;
use vstd::prelude::*;

verus! {

/// A quantity of one commodity.
#[derive(Debug)]
pub struct Amount {
    pub quantity: Dec,
    pub commodity: String,
}

/// One leg of a transaction.
#[derive(Debug)]
pub struct Posting {
    pub account: String,
    pub amount: Amount,
}

#[derive(Debug)]
pub struct Transaction {
    pub date: Date,
    pub postings: Vec<Posting>,
}

/// "One `commodity_name` is worth `amount` on `date`."
#[derive(Debug)]
pub struct CommodityPrice {
    pub date: Date,
    pub commodity_name: String,
    pub amount: Amount,
}

#[derive(Debug)]
pub struct Ledger {
    pub transactions: Vec<Transaction>,
    pub commodity_prices: Vec<CommodityPrice>,
}

impl Posting {
    pub open spec fn wf(self) -> bool {
        self.amount.quantity.wf()
    }
}

impl Transaction {
    pub open spec fn wf(self) -> bool {
        &&& self.date.wf()
        &&& forall|i: int| 0 <= i < self.postings@.len() ==> (#[trigger] self.postings@[i]).wf()
    }
}

impl CommodityPrice {
    pub open spec fn wf(self) -> bool {
        self.date.wf() && self.amount.quantity.wf()
    }
}

pub open spec fn transactions_wf(ts: Seq<Transaction>) -> bool {
    forall|i: int| 0 <= i < ts.len() ==> (#[trigger] ts[i]).wf()
}

pub open spec fn prices_wf(ps: Seq<CommodityPrice>) -> bool {
    forall|i: int| 0 <= i < ps.len() ==> (#[trigger] ps[i]).wf()
}

impl Ledger {
    pub open spec fn wf(self) -> bool {
        transactions_wf(self.transactions@) && prices_wf(self.commodity_prices@)
    }
}

/// The transactions of the ledgers `ls`, one ledger after another.
pub open spec fn all_transactions(ls: Seq<Ledger>) -> Seq<Transaction>
    decreases ls.len(),
{
    if ls.len() == 0 {
        Seq::empty()
    } else {
        all_transactions(ls.drop_last()) + ls.last().transactions@
    }
}

/// The price directives of the ledgers `ls`, one ledger after another.
pub open spec fn all_prices(ls: Seq<Ledger>) -> Seq<CommodityPrice>
    decreases ls.len(),
{
    if ls.len() == 0 {
        Seq::empty()
    } else {
        all_prices(ls.drop_last()) + ls.last().commodity_prices@
    }
}

/// One ledger with the transactions and the price directives of `ledgers`,
/// in order.
pub fn join_ledgers(ledgers: Vec<Ledger>) -> (r: Ledger)
    ensures
        r.transactions@ == all_transactions(ledgers@),
        r.commodity_prices@ == all_prices(ledgers@),
{
    let ghost ls = ledgers@;
    let mut ledger = Ledger { transactions: Vec::new(), commodity_prices: Vec::new() };
    let mut rest = ledgers;
    let ghost k: int = 0;
    assert(ls.take(0).len() == 0);
    assert(all_transactions(ls.take(0)) =~= Seq::<Transaction>::empty());
    assert(all_prices(ls.take(0)) =~= Seq::<CommodityPrice>::empty());
    while rest.len() > 0
        invariant
            0 <= k <= ls.len(),
            rest@ == ls.skip(k),
            ledger.transactions@ == all_transactions(ls.take(k)),
            ledger.commodity_prices@ == all_prices(ls.take(k)),
        decreases rest@.len(),
    {
        let mut src_ledger = rest.remove(0);
        proof {
            assert(src_ledger == ls[k]);
            assert(ls.take(k + 1).drop_last() =~= ls.take(k));
            assert(ls.take(k + 1).last() == ls[k]);
            assert(rest@ =~= ls.skip(k + 1));
        }
        ledger.commodity_prices.append(&mut src_ledger.commodity_prices);
        ledger.transactions.append(&mut src_ledger.transactions);
        proof {
            k = k + 1;
        }
    }
    proof {
        assert(ls.take(k) =~= ls);
    }
    ledger
}

} // verus!
