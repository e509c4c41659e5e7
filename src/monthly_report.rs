//! Per-month snapshots of a ledger's balances.
use crate::balance::after_postings;
use crate::balance::postings_fit;
use crate::balance::Balance;
use crate::balance::BalanceMap;
use crate::ledger::Ledger;
use crate::ledger::Transaction;
use vstd::prelude::*;

verus! {

/// A month as (year, month, change during the month, total at its end).
pub type MonthView = (i32, u32, BalanceMap, BalanceMap);

/// `m` after every posting of the transactions `ts`, in order.
pub open spec fn after_transactions(m: BalanceMap, ts: Seq<Transaction>) -> BalanceMap
    decreases ts.len(),
{
    if ts.len() == 0 {
        m
    } else {
        after_postings(after_transactions(m, ts.drop_last()), ts.last().postings@)
    }
}

/// Whether `t` falls in the month of the last bucket of `r`.
pub open spec fn in_last_month(r: Seq<MonthView>, t: Transaction) -> bool {
    r.len() > 0 && r.last().0 == t.date.year && r.last().1 == t.date.month
}

/// The monthly report of `ts`: a bucket for each run of transactions in the
/// same calendar month, with the change during the run and the total from the
/// start through the run's end.
pub open spec fn report_of(ts: Seq<Transaction>) -> Seq<MonthView>
    decreases ts.len(),
{
    if ts.len() == 0 {
        Seq::empty()
    } else {
        let r = report_of(ts.drop_last());
        let t = ts.last();
        let total = after_transactions(BalanceMap::empty(), ts);
        if in_last_month(r, t) {
            r.update(r.len() - 1, (t.date.year, t.date.month, after_postings(r.last().2, t.postings@), total))
        } else {
            r.push((t.date.year, t.date.month, after_postings(BalanceMap::empty(), t.postings@), total))
        }
    }
}

/// Each running total of `report_of(ts)`, monthly and cumulative, is within
/// the decimal type's limits.
pub open spec fn report_fits(ts: Seq<Transaction>) -> bool
    decreases ts.len(),
{
    if ts.len() == 0 {
        true
    } else {
        let r = report_of(ts.drop_last());
        let t = ts.last();
        let month_before = if in_last_month(r, t) {
            r.last().2
        } else {
            BalanceMap::empty()
        };
        &&& report_fits(ts.drop_last())
        &&& postings_fit(after_transactions(BalanceMap::empty(), ts.drop_last()), t.postings@)
        &&& postings_fit(month_before, t.postings@)
    }
}

pub proof fn lemma_report_fits_prefix(ts: Seq<Transaction>, k: int)
    requires
        report_fits(ts),
        0 <= k <= ts.len(),
    ensures
        report_fits(ts.take(k)),
    decreases ts.len(),
{
    if k < ts.len() {
        assert(ts.drop_last().take(k) =~= ts.take(k));
        lemma_report_fits_prefix(ts.drop_last(), k);
    } else {
        assert(ts.take(k) =~= ts);
    }
}

/// The balances of one calendar month.
#[derive(Debug)]
pub struct MonthlyBalance {
    pub year: i32,
    pub month: u32,
    /// What the month's transactions changed.
    pub monthly_change: Balance,
    /// Everything from the first transaction through the month's end.
    pub total: Balance,
}

impl MonthlyBalance {
    pub open spec fn wf(self) -> bool {
        self.monthly_change.wf() && self.total.wf()
    }

    pub fn new(year: i32, month: u32) -> (r: MonthlyBalance)
        ensures
            r.wf(),
            r.year == year,
            r.month == month,
            r.monthly_change@ == BalanceMap::empty(),
            r.total@ == BalanceMap::empty(),
    {
        MonthlyBalance { year, month, monthly_change: Balance::new(), total: Balance::new() }
    }
}

/// The months of a ledger, in the order its transactions come.
#[derive(Debug)]
pub struct MonthlyReport {
    pub monthly_balances: Vec<MonthlyBalance>,
}

impl View for MonthlyReport {
    type V = Seq<MonthView>;

    open spec fn view(&self) -> Seq<MonthView> {
        self.monthly_balances@.map_values(
            |b: MonthlyBalance| (b.year, b.month, b.monthly_change@, b.total@),
        )
    }
}

impl MonthlyReport {
    pub open spec fn wf(self) -> bool {
        forall|i: int| 0 <= i < self.monthly_balances@.len() ==> (#[trigger] self.monthly_balances@[i]).wf()
    }

    pub fn new() -> (r: MonthlyReport)
        ensures
            r.wf(),
            r@ == Seq::<MonthView>::empty(),
    {
        let r = MonthlyReport { monthly_balances: Vec::new() };
        assert(r@ =~= Seq::<MonthView>::empty());
        r
    }
}

/// The balance after every transaction of `ledger`.
pub fn get_balance(ledger: &Ledger) -> (r: Balance)
    requires
        ledger.wf(),
        report_fits(ledger.transactions@),
    ensures
        r.wf(),
        r@ == after_transactions(BalanceMap::empty(), ledger.transactions@),
{
    let ghost ts = ledger.transactions@;
    let mut balance = Balance::new();
    let n = ledger.transactions.len();
    let mut i: usize = 0;
    assert(ts.take(0).len() == 0);
    while i < n
        invariant
            n == ts.len(),
            ts == ledger.transactions@,
            ledger.wf(),
            report_fits(ts),
            i <= n,
            balance.wf(),
            balance@ == after_transactions(BalanceMap::empty(), ts.take(i as int)),
        decreases n - i,
    {
        proof {
            assert(ts.take(i as int + 1).drop_last() =~= ts.take(i as int));
            lemma_report_fits_prefix(ts, i as int + 1);
            assert(ts[i as int].wf());
        }
        balance.update_with_transaction(&ledger.transactions[i]);
        i += 1;
    }
    proof {
        assert(ts.take(n as int) =~= ts);
    }
    balance
}

/// Buckets the transactions of `ledger` by calendar month. A bucket begins
/// where a transaction's month differs from the one before; transactions are
/// taken in the order given.
pub fn get_monthly_report(ledger: &Ledger) -> (r: MonthlyReport)
    requires
        ledger.wf(),
        report_fits(ledger.transactions@),
    ensures
        r.wf(),
        r@ == report_of(ledger.transactions@),
{
    let ghost ts = ledger.transactions@;
    let mut report = MonthlyReport::new();
    let mut current: Option<(i32, u32)> = None;
    let mut monthly = Balance::new();
    let mut total = Balance::new();
    let n = ledger.transactions.len();
    let mut i: usize = 0;
    assert(ts.take(0).len() == 0);
    while i < n
        invariant
            n == ts.len(),
            ts == ledger.transactions@,
            ledger.wf(),
            report_fits(ts),
            i <= n,
            report.wf(),
            monthly.wf(),
            total.wf(),
            total@ == after_transactions(BalanceMap::empty(), ts.take(i as int)),
            current is None ==> i == 0 && report@.len() == 0,
            current matches Some(ym) ==> {
                let rr = report_of(ts.take(i as int));
                &&& rr.len() == report@.len() + 1
                &&& rr.last() == (ym.0, ym.1, monthly@, total@)
                &&& rr.take(report@.len() as int) == report@
            },
        decreases n - i,
    {
        let t = &ledger.transactions[i];
        let ghost rr = report_of(ts.take(i as int));
        proof {
            assert(ts.take(i as int + 1).drop_last() =~= ts.take(i as int));
            assert(ts.take(i as int + 1).last() == ts[i as int]);
            lemma_report_fits_prefix(ts, i as int + 1);
            assert(ts[i as int].wf());
            if i == 0 {
                assert(rr.len() == 0);
            }
        }
        let new_month = match current {
            None => true,
            Some(ym) => ym.0 != t.date.year || ym.1 != t.date.month,
        };
        if new_month {
            match current {
                Some(ym) => {
                    let snapshot = total.copy();
                    let ghost old_view = report@;
                    let ghost mv = monthly@;
                    report.monthly_balances.push(
                        MonthlyBalance { year: ym.0, month: ym.1, monthly_change: monthly, total: snapshot },
                    );
                    proof {
                        assert(report@ =~= old_view.push((ym.0, ym.1, mv, total@)));
                        assert(rr =~= rr.take(rr.len() - 1).push(rr.last()));
                        assert(report@ =~= rr);
                    }
                },
                None => {},
            }
            monthly = Balance::new();
            current = Some((t.date.year, t.date.month));
        }
        let ghost before = report@;
        monthly.update_with_transaction(t);
        total.update_with_transaction(t);
        proof {
            let r2 = report_of(ts.take(i as int + 1));
            assert(r2.len() == report@.len() + 1);
            assert(r2.take(report@.len() as int) =~= report@);
        }
        i += 1;
    }
    match current {
        Some(ym) => {
            let ghost before = report@;
            let ghost mv = monthly@;
            let ghost tv = total@;
            let ghost rr = report_of(ts.take(n as int));
            report.monthly_balances.push(
                MonthlyBalance { year: ym.0, month: ym.1, monthly_change: monthly, total },
            );
            proof {
                assert(ts.take(n as int) =~= ts);
                assert(report@ =~= before.push((ym.0, ym.1, mv, tv)));
                assert(rr =~= rr.take(rr.len() - 1).push(rr.last()));
                assert(report@ =~= report_of(ts));
            }
        },
        None => {
            proof {
                assert(ts.take(n as int) =~= ts);
                assert(report@ =~= report_of(ts));
            }
        },
    }
    report
}

/// The balance that a report's summary tree shows: the total after the last
/// month of `report`, nothing where it has no months.
pub fn final_total(report: &MonthlyReport) -> (r: Balance)
    requires
        report.wf(),
    ensures
        r.wf(),
        r@ == (if report@.len() > 0 {
            report@.last().3
        } else {
            BalanceMap::empty()
        }),
{
    let n = report.monthly_balances.len();
    if n > 0 {
        assert(report.monthly_balances@[n - 1].wf());
        report.monthly_balances[n - 1].total.copy()
    } else {
        Balance::new()
    }
}

} // verus!
