//! The monthly valuation table: group values at each month's last day.
use crate::balance::lemma_rounded_value;
use crate::balance::prefixed_entries;
use crate::balance::rounded_value;
use crate::balance::prefixed_total_fits;
use crate::balance::valuation;
use crate::balance::zero_dec;
use crate::balance::Balance;
use crate::configuration::ReportParameters;
use crate::date_utils::last_day_in_month;
use crate::date_utils::Date;
use crate::date_utils::month_in_range;
use crate::decimal::checked_add;
use crate::decimal::checked_mul;
use crate::decimal::checked_sub;
use crate::decimal::dec_of;
use crate::decimal::exact_difference;
use crate::decimal::exact_sum;
use crate::decimal::fits;
use crate::decimal::decimal_difference;
use crate::decimal::decimal_product;
use crate::decimal::decimal_sum;
use crate::decimal::round_dp_half_up;
use crate::decimal::Dec;
use crate::monthly_report::MonthlyReport;
use crate::prices::Prices;
use crate::prices::PricesMap;
use vstd::prelude::*;
use vstd::string::StringExecFns;

verus! {

/// The share of high-risk assets that is set aside as tax: 0.32.
pub const TAX_MANTISSA: i64 = 32;

pub const TAX_SCALE: u32 = 2;

/// The views of a list of strings.
pub open spec fn views(v: Seq<String>) -> Seq<Seq<char>> {
    v.map_values(|s: String| s@)
}

/// The value of the accounts of `balance` under `prefixes` in the main
/// commodity on `date`: the rounded valuation of their sum, zero where a rate
/// is missing.
pub open spec fn group_value(
    balance: Balance,
    prefixes: Seq<Seq<char>>,
    params: ReportParameters,
    date: Date,
    p: PricesMap,
) -> Dec {
    rounded_value(
        valuation(prefixed_entries(balance.account_seqs(), prefixes), params.main_commodity@, date, p),
        params.main_commodity_decimal_points,
    )
}

/// Values the groups of accounts of one balance on one date.
pub struct MonthlyCalculator<'a> {
    pub balance: &'a Balance,
    pub prices: &'a Prices,
    pub last_day: Date,
    pub params: &'a ReportParameters,
}

impl<'a> MonthlyCalculator<'a> {
    pub fn new(
        balance: &'a Balance,
        prices: &'a Prices,
        last_day: Date,
        params: &'a ReportParameters,
    ) -> (r: MonthlyCalculator<'a>)
        ensures
            r.balance == balance,
            r.prices == prices,
            r.last_day == last_day,
            r.params == params,
    {
        MonthlyCalculator { balance, prices, last_day, params }
    }

    /// The rounded value of the accounts under `accounts`.
    pub fn get_value(&self, accounts: &Vec<String>) -> (r: Dec)
        requires
            self.balance.wf(),
            self.prices.wf(),
            prefixed_total_fits(self.balance.entries(), views(accounts@)),
        ensures
            r.wf(),
            r == group_value(*self.balance, views(accounts@), *self.params, self.last_day, self.prices@),
    {
        let ab = self.balance.get_account_balance(accounts);
        let r = ab.value_in_commodity_rounded(
            &self.params.main_commodity,
            self.params.main_commodity_decimal_points,
            &self.last_day,
            self.prices,
        );
        assert(views(accounts@) == accounts@.map_values(|p: String| p@));
        r
    }
}

/// The values of one month.
#[derive(Debug, Clone, Copy)]
pub struct MonthlyRow {
    pub date: Date,
    pub assets_total_net: Dec,
    pub liquid_assets: Dec,
    pub fixed_assets: Dec,
    pub high_risk_assets_net: Dec,
    pub high_risk_assets_tax: Dec,
    pub income: Dec,
    pub expenses: Dec,
}

#[derive(Debug)]
pub struct MonthlyTable {
    pub rows: Vec<MonthlyRow>,
}

/// The product `a * b` rounded to `dp` places, if the decimal type holds it.
pub open spec fn rounded_product(a: Dec, b: Dec, dp: u32) -> Option<Dec> {
    match decimal_product(a.parts(), b.parts()) {
        Some(x) => Some(rounded_value(Ok(dec_of(x)), dp)),
        None => None,
    }
}

/// The values of `balance` at the end of `year`-`month`: the groups'
/// values, the high-risk value split 68:32 into net and tax, and the assets'
/// total net of tax; `None` where a product or sum is beyond the decimal
/// type's limits.
pub open spec fn row_for(balance: Balance, year: i32, month: u32, params: ReportParameters, p: PricesMap) -> Option<
    MonthlyRow,
> {
    let dp = params.main_commodity_decimal_points;
    let date = last_day_date(year, month);
    let liquid = group_value(balance, views(params.assets_liquid@), params, date, p);
    let fixed = group_value(balance, views(params.assets_fixed@), params, date, p);
    let high_risk = group_value(balance, views(params.assets_high_risk@), params, date, p);
    let income = group_value(balance, views(params.income@), params, date, p);
    let expenses = group_value(balance, views(params.expenses@), params, date, p);
    match (
        rounded_product(high_risk, Dec { mantissa: 68, scale: 2 }, dp),
        rounded_product(high_risk, Dec { mantissa: 32, scale: 2 }, dp),
        decimal_sum(liquid.parts(), fixed.parts()),
    ) {
        (Some(net), Some(tax), Some(liquid_and_fixed)) => match decimal_sum(liquid_and_fixed, net.parts()) {
            Some(total) => Some(
                MonthlyRow {
                    date,
                    assets_total_net: dec_of(total),
                    liquid_assets: liquid,
                    fixed_assets: fixed,
                    high_risk_assets_net: net,
                    high_risk_assets_tax: tax,
                    income,
                    expenses,
                },
            ),
            None => None,
        },
        _ => None,
    }
}

/// Where both sums fit the decimal type, the row's total net is the exact sum
/// of its liquid, fixed and high-risk net values.
pub open spec fn total_net_exact(row: MonthlyRow) -> bool {
    let liquid_and_fixed = exact_sum(row.liquid_assets, row.fixed_assets);
    fits(liquid_and_fixed) && fits(exact_sum(dec_of(liquid_and_fixed), row.high_risk_assets_net))
        ==> row.assets_total_net.parts() == exact_sum(dec_of(liquid_and_fixed), row.high_risk_assets_net)
}

/// The row of the month at position `i` of `report`.
pub open spec fn row_of_month(report: MonthlyReport, i: int, params: ReportParameters, p: PricesMap) -> Option<MonthlyRow> {
    let m = report.monthly_balances@[i];
    row_for(m.total, m.year, m.month, params, p)
}

/// The last day of `year`-`month`.
pub open spec fn last_day_date(year: i32, month: u32) -> Date {
    Date { year, month, day: crate::date_utils::days_in_month(year as int, month as int) as u32 }
}

/// Every group of `params` can be summed up in every month of `report`.
pub open spec fn groups_fit(report: MonthlyReport, params: ReportParameters) -> bool {
    forall|i: int|
        0 <= i < report.monthly_balances@.len() ==> {
            let t = (#[trigger] report.monthly_balances@[i]).total.entries();
            &&& prefixed_total_fits(t, views(params.assets_liquid@))
            &&& prefixed_total_fits(t, views(params.assets_fixed@))
            &&& prefixed_total_fits(t, views(params.assets_high_risk@))
            &&& prefixed_total_fits(t, views(params.income@))
            &&& prefixed_total_fits(t, views(params.expenses@))
        }
}

/// Every month of `report` is a calendar month the calendar functions handle.
pub open spec fn months_valid(report: MonthlyReport) -> bool {
    forall|i: int|
        0 <= i < report.monthly_balances@.len() ==> month_in_range(
            (#[trigger] report.monthly_balances@[i]).year as int,
            report.monthly_balances@[i].month as int,
        )
}

/// The values of one month, or `None` where a product or sum is beyond the
/// decimal type's limits.
fn monthly_row(calc: &MonthlyCalculator, params: &ReportParameters) -> (r: Option<MonthlyRow>)
    requires
        calc.balance.wf(),
        calc.prices.wf(),
        calc.params == params,
        month_in_range(calc.last_day.year as int, calc.last_day.month as int),
        calc.last_day == last_day_date(calc.last_day.year, calc.last_day.month),
        prefixed_total_fits(calc.balance.entries(), views(params.assets_liquid@)),
        prefixed_total_fits(calc.balance.entries(), views(params.assets_fixed@)),
        prefixed_total_fits(calc.balance.entries(), views(params.assets_high_risk@)),
        prefixed_total_fits(calc.balance.entries(), views(params.income@)),
        prefixed_total_fits(calc.balance.entries(), views(params.expenses@)),
    ensures
        r == row_for(*calc.balance, calc.last_day.year, calc.last_day.month, *params, calc.prices@),
        r matches Some(row) ==> row.expenses.wf() && total_net_exact(row),
{
    let dp = params.main_commodity_decimal_points;
    let tax = Dec::new(TAX_MANTISSA, TAX_SCALE);
    proof {
        assert(crate::decimal::pow10(0) == 1);
        assert(crate::decimal::pow10(1) == 10);
        assert(crate::decimal::pow10(2) == 100);
    }
    let keep = match checked_sub(Dec::one(), tax) {
        Some(k) => k,
        None => return None,
    };
    assert(keep.mantissa == 68 && keep.scale == 2);
    proof {
        assert(keep == Dec { mantissa: 68, scale: 2 });
        assert(tax == Dec { mantissa: 32, scale: 2 });
    }
    let assets_liquid = calc.get_value(&params.assets_liquid);
    let assets_fixed = calc.get_value(&params.assets_fixed);
    let high_risk = calc.get_value(&params.assets_high_risk);
    let high_risk_net = match checked_mul(high_risk, keep) {
        Some(x) => {
            let y = round_dp_half_up(x, dp);
            proof {
                lemma_rounded_value(Ok(x), dp, y);
                assert(dec_of(x.parts()) == x);
            }
            y
        },
        None => return None,
    };
    let high_risk_tax = match checked_mul(high_risk, tax) {
        Some(x) => {
            let y = round_dp_half_up(x, dp);
            proof {
                lemma_rounded_value(Ok(x), dp, y);
                assert(dec_of(x.parts()) == x);
            }
            y
        },
        None => return None,
    };
    let income = calc.get_value(&params.income);
    let expenses = calc.get_value(&params.expenses);
    let liquid_and_fixed = match checked_add(assets_liquid, assets_fixed) {
        Some(x) => x,
        None => return None,
    };
    let total = match checked_add(liquid_and_fixed, high_risk_net) {
        Some(x) => x,
        None => return None,
    };
    let row = MonthlyRow {
        date: calc.last_day,
        assets_total_net: total,
        liquid_assets: assets_liquid,
        fixed_assets: assets_fixed,
        high_risk_assets_net: high_risk_net,
        high_risk_assets_tax: high_risk_tax,
        income,
        expenses,
    };
    proof {
        assert(keep == Dec { mantissa: 68, scale: 2 });
        assert(tax == Dec { mantissa: 32, scale: 2 });
        assert(dec_of(total.parts()) == total);
    }
    Some(row)
}

/// The values of every month of `monthly_report` at the month's last day, or
/// `None` where a product or sum is beyond the decimal type's limits.
pub fn get_monthly_table(monthly_report: &MonthlyReport, prices: &Prices, params: &ReportParameters) -> (r: Option<
    MonthlyTable,
>)
    requires
        monthly_report.wf(),
        prices.wf(),
        months_valid(*monthly_report),
        groups_fit(*monthly_report, *params),
    ensures
        r is Some <==> forall|i: int|
            0 <= i < monthly_report.monthly_balances@.len() ==> (#[trigger] row_of_month(
                *monthly_report,
                i,
                *params,
                prices@,
            )) is Some,
        r matches Some(t) ==> t.rows@.len() == monthly_report.monthly_balances@.len() && forall|i: int|
            0 <= i < t.rows@.len() ==> row_of_month(*monthly_report, i, *params, prices@) == Some(
                #[trigger] t.rows@[i],
            ) && t.rows@[i].expenses.wf() && total_net_exact(t.rows@[i]),
{
    let mut rows: Vec<MonthlyRow> = Vec::new();
    let n = monthly_report.monthly_balances.len();
    let mut i: usize = 0;
    while i < n
        invariant
            n == monthly_report.monthly_balances@.len(),
            monthly_report.wf(),
            prices.wf(),
            months_valid(*monthly_report),
            groups_fit(*monthly_report, *params),
            i <= n,
            rows@.len() == i,
            forall|j: int|
                0 <= j < i ==> row_of_month(*monthly_report, j, *params, prices@) == Some(#[trigger] rows@[j])
                    && rows@[j].expenses.wf() && total_net_exact(rows@[j]),
        decreases n - i,
    {
        let monthly_balance = &monthly_report.monthly_balances[i];
        proof {
            assert(monthly_report.monthly_balances@[i as int].wf());
        }
        let last_day = last_day_in_month(monthly_balance.year, monthly_balance.month);
        let calc = MonthlyCalculator::new(&monthly_balance.total, prices, last_day, params);
        match monthly_row(&calc, params) {
            Some(row) => rows.push(row),
            None => {
                assert(row_of_month(*monthly_report, i as int, *params, prices@) is None);
                return None;
            },
        }
        i += 1;
    }
    assert forall|j: int| 0 <= j < n implies (#[trigger] row_of_month(*monthly_report, j, *params, prices@)) is Some by {
        assert(row_of_month(*monthly_report, j, *params, prices@) == Some(rows@[j]));
    }
    Some(MonthlyTable { rows })
}

/// One cell of a report table.
#[derive(Debug)]
pub enum TableCell {
    Month { year: i32, month: u32 },
    Value(Dec),
    Text(String),
}

impl TableCell {
    pub fn to_value(&self) -> (r: Option<Dec>)
        ensures
            *self matches TableCell::Value(v) ==> r == Some(v),
            !(*self is Value) ==> r is None,
    {
        match self {
            TableCell::Value(v) => Some(*v),
            _ => None,
        }
    }
}

#[derive(Debug)]
pub struct TableRow {
    pub columns: Vec<TableCell>,
}

#[derive(Debug)]
pub struct Table {
    pub headers: Vec<String>,
    pub rows: Vec<TableRow>,
}

/// The cells of the assets table for one row of the monthly table.
pub open spec fn assets_row(row: MonthlyRow, cells: Seq<TableCell>) -> bool {
    &&& cells.len() == 8
    &&& cells[0] == TableCell::Month { year: row.date.year, month: row.date.month }
    &&& cells[1] == TableCell::Value(row.assets_total_net)
    &&& cells[2] == TableCell::Value(row.liquid_assets)
    &&& cells[3] == TableCell::Value(row.fixed_assets)
    &&& cells[4] == TableCell::Value(row.high_risk_assets_net)
    &&& cells[5] == TableCell::Value(row.high_risk_assets_tax)
    &&& cells[6] == TableCell::Value(row.income)
    &&& cells[7] == TableCell::Value(row.expenses)
}

/// The monthly table as a table of eight columns: the month, then its values.
pub fn get_assets_table(monthly_table: &MonthlyTable) -> (r: Table)
    ensures
        r.headers@.len() == 8,
        r.headers@[0]@ == "Date"@,
        r.headers@[1]@ == "Assets Total Net"@,
        r.headers@[2]@ == "Liquid Assets"@,
        r.headers@[3]@ == "Fixed Assets"@,
        r.headers@[4]@ == "High Risk Assets Net"@,
        r.headers@[5]@ == "High Risk Assets Tax"@,
        r.headers@[6]@ == "Income"@,
        r.headers@[7]@ == "Expenses"@,
        r.rows@.len() == monthly_table.rows@.len(),
        forall|i: int| 0 <= i < r.rows@.len() ==> assets_row(monthly_table.rows@[i], (#[trigger] r.rows@[i]).columns@),
{
    let headers = vec![
        String::from_str("Date"),
        String::from_str("Assets Total Net"),
        String::from_str("Liquid Assets"),
        String::from_str("Fixed Assets"),
        String::from_str("High Risk Assets Net"),
        String::from_str("High Risk Assets Tax"),
        String::from_str("Income"),
        String::from_str("Expenses"),
    ];
    let mut rows: Vec<TableRow> = Vec::new();
    let n = monthly_table.rows.len();
    let mut i: usize = 0;
    while i < n
        invariant
            n == monthly_table.rows@.len(),
            i <= n,
            rows@.len() == i,
            forall|j: int| 0 <= j < i ==> assets_row(monthly_table.rows@[j], (#[trigger] rows@[j]).columns@),
        decreases n - i,
    {
        let row = &monthly_table.rows[i];
        let columns = vec![
            TableCell::Month { year: row.date.year, month: row.date.month },
            TableCell::Value(row.assets_total_net),
            TableCell::Value(row.liquid_assets),
            TableCell::Value(row.fixed_assets),
            TableCell::Value(row.high_risk_assets_net),
            TableCell::Value(row.high_risk_assets_tax),
            TableCell::Value(row.income),
            TableCell::Value(row.expenses),
        ];
        rows.push(TableRow { columns });
        i += 1;
    }
    Table { headers, rows }
}

/// The number of months of the moving average of expenses.
pub const SMA_SIZE: usize = 12;

/// One point of the expenses series: the month's last day, the change of
/// the expenses during the month, and their change over the moving-average
/// window (to be divided by `SMA_SIZE`).
#[derive(Debug, Clone, Copy)]
pub struct ExpensePoint {
    pub date: Date,
    pub monthly_expenses: Dec,
    pub window_expenses: Dec,
}

/// The expenses of the row before row `pos`, zero for the first.
pub open spec fn previous_expenses(rows: Seq<MonthlyRow>, pos: int) -> Dec {
    if pos > 0 {
        rows[pos - 1].expenses
    } else {
        zero_dec()
    }
}

/// The expenses of the row `SMA_SIZE` back from row `pos`, zero within the
/// first `SMA_SIZE` rows and at row `SMA_SIZE` itself.
pub open spec fn window_start_expenses(rows: Seq<MonthlyRow>, pos: int) -> Dec {
    if pos > SMA_SIZE {
        rows[pos - SMA_SIZE].expenses
    } else {
        zero_dec()
    }
}

/// Both differences of row `pos` are exact within the decimal type's limits.
pub open spec fn expense_point_fits(rows: Seq<MonthlyRow>, pos: int) -> bool {
    &&& fits(exact_difference(rows[pos].expenses, previous_expenses(rows, pos)))
    &&& fits(exact_difference(rows[pos].expenses, window_start_expenses(rows, pos)))
}

/// The point of row `pos` of `rows`: the row's expenses less the previous
/// row's (none before the first), and less those of the row `SMA_SIZE` back
/// (none within the first `SMA_SIZE` rows and at row `SMA_SIZE` itself);
/// `None` where a difference is beyond the decimal type's limits.
pub open spec fn expense_point(rows: Seq<MonthlyRow>, pos: int) -> Option<ExpensePoint> {
    let previous = previous_expenses(rows, pos);
    let window_start = window_start_expenses(rows, pos);
    match (
        decimal_difference(rows[pos].expenses.parts(), previous.parts()),
        decimal_difference(rows[pos].expenses.parts(), window_start.parts()),
    ) {
        (Some(monthly), Some(window)) => Some(
            ExpensePoint { date: rows[pos].date, monthly_expenses: dec_of(monthly), window_expenses: dec_of(window) },
        ),
        _ => None,
    }
}

/// The expenses series of the monthly table, or `None` where a difference is
/// beyond the decimal type's limits.
pub fn get_expense_series(monthly_table: &MonthlyTable) -> (r: Option<Vec<ExpensePoint>>)
    requires
        forall|i: int| 0 <= i < monthly_table.rows@.len() ==> (#[trigger] monthly_table.rows@[i]).expenses.wf(),
    ensures
        r is Some <==> forall|i: int|
            0 <= i < monthly_table.rows@.len() ==> (#[trigger] expense_point(monthly_table.rows@, i)) is Some,
        r matches Some(v) ==> v@.len() == monthly_table.rows@.len() && forall|i: int|
            0 <= i < v@.len() ==> expense_point(monthly_table.rows@, i) == Some(#[trigger] v@[i]),
        (forall|i: int|
            0 <= i < monthly_table.rows@.len() ==> #[trigger] expense_point_fits(monthly_table.rows@, i))
            ==> r is Some,
        r matches Some(v) ==> forall|i: int|
            0 <= i < v@.len() && #[trigger] expense_point_fits(monthly_table.rows@, i) ==> v@[i].monthly_expenses.parts()
                == exact_difference(monthly_table.rows@[i].expenses, previous_expenses(monthly_table.rows@, i))
                && v@[i].window_expenses.parts() == exact_difference(
                monthly_table.rows@[i].expenses,
                window_start_expenses(monthly_table.rows@, i),
            ),
{
    let rows = &monthly_table.rows;
    let mut series: Vec<ExpensePoint> = Vec::new();
    let n = rows.len();
    let mut pos: usize = 0;
    while pos < n
        invariant
            n == rows@.len(),
            rows == monthly_table.rows,
            forall|i: int| 0 <= i < rows@.len() ==> (#[trigger] rows@[i]).expenses.wf(),
            pos <= n,
            series@.len() == pos,
            forall|i: int| 0 <= i < pos ==> expense_point(rows@, i) == Some(#[trigger] series@[i]),
            forall|i: int|
                0 <= i < pos && #[trigger] expense_point_fits(rows@, i) ==> series@[i].monthly_expenses.parts()
                    == exact_difference(rows@[i].expenses, previous_expenses(rows@, i))
                    && series@[i].window_expenses.parts() == exact_difference(
                    rows@[i].expenses,
                    window_start_expenses(rows@, i),
                ),
        decreases n - pos,
    {
        let row = &rows[pos];
        let previous = if pos > 0 {
            rows[pos - 1].expenses
        } else {
            Dec::zero()
        };
        let window_start = if pos > SMA_SIZE {
            rows[pos - SMA_SIZE].expenses
        } else {
            Dec::zero()
        };
        proof {
            assert(rows@[pos as int].expenses.wf());
            if pos > 0 {
                assert(rows@[pos - 1].expenses.wf());
            }
            if pos > SMA_SIZE {
                assert(rows@[pos - SMA_SIZE].expenses.wf());
            }
            assert(previous == previous_expenses(rows@, pos as int));
            assert(window_start == window_start_expenses(rows@, pos as int));
        }
        let monthly_expenses = match checked_sub(row.expenses, previous) {
            Some(x) => x,
            None => {
                assert(expense_point(rows@, pos as int) is None);
                assert(!expense_point_fits(rows@, pos as int));
                return None;
            },
        };
        let window_expenses = match checked_sub(row.expenses, window_start) {
            Some(x) => x,
            None => {
                assert(expense_point(rows@, pos as int) is None);
                assert(!expense_point_fits(rows@, pos as int));
                return None;
            },
        };
        series.push(ExpensePoint { date: row.date, monthly_expenses, window_expenses });
        proof {
            assert(dec_of(monthly_expenses.parts()) == monthly_expenses);
            assert(dec_of(window_expenses.parts()) == window_expenses);
            assert(expense_point(rows@, pos as int) == Some(series@[pos as int]));
        }
        pos += 1;
    }
    assert forall|i: int| 0 <= i < n implies (#[trigger] expense_point(rows@, i)) is Some by {
        assert(expense_point(rows@, i) == Some(series@[i]));
    }
    Some(series)
}

} // verus!
