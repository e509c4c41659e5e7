use ledger_reports::balance::AccountBalance;
use ledger_reports::balance::starts_with;
use ledger_reports::balance::Balance;
use ledger_reports::configuration::OptionDeref;
use ledger_reports::configuration::ReportParameters;
use ledger_reports::configuration::VecDeref;
use ledger_reports::date_utils::last_day_in_month;
use ledger_reports::date_utils::ndays_in_month;
use ledger_reports::date_utils::Date;
use ledger_reports::decimal::Dec;
use ledger_reports::ledger::join_ledgers;
use ledger_reports::ledger::Amount;
use ledger_reports::ledger::CommodityPrice;
use ledger_reports::ledger::Ledger;
use ledger_reports::ledger::Posting;
use ledger_reports::ledger::Transaction;
use ledger_reports::monthly_report::get_balance;
use ledger_reports::monthly_report::get_monthly_report;
use ledger_reports::monthly_table::get_assets_table;
use ledger_reports::monthly_table::get_expense_series;
use ledger_reports::monthly_table::MonthlyRow;
use ledger_reports::monthly_table::MonthlyTable;
use ledger_reports::monthly_table::get_monthly_table;
use ledger_reports::monthly_table::TableCell;
use ledger_reports::prices::Prices;
use ledger_reports::prices::PricesError;
use ledger_reports::summary_tree::convert_tree_node;
use ledger_reports::summary_tree::get_summary_tree;
use ledger_reports::summary_tree::name_is_le;
use ledger_reports::tree_balance::split_account;
use ledger_reports::tree_balance::TreeBalanceNode;
use rust_decimal::Decimal;

fn d(m: i64, s: u32) -> Dec {
    Dec::new(m, s)
}

fn value(x: Dec) -> Decimal {
    Decimal::from_i128_with_scale(x.mantissa, x.scale)
}

fn dec(m: i64, s: u32) -> Decimal {
    Decimal::new(m, s)
}

fn date(y: i32, m: u32, day: u32) -> Date {
    Date::from_ymd(y, m, day).unwrap()
}

fn posting(account: &str, q: Dec, commodity: &str) -> Posting {
    Posting {
        account: account.to_string(),
        amount: Amount { quantity: q, commodity: commodity.to_string() },
    }
}

fn tx(day: Date, postings: Vec<Posting>) -> Transaction {
    Transaction { date: day, postings }
}

fn ledger(transactions: Vec<Transaction>) -> Ledger {
    Ledger { transactions, commodity_prices: Vec::new() }
}

fn quantity(b: &Balance, account: &str, commodity: &str) -> Option<Decimal> {
    for (name, ab) in &b.account_balances {
        if name == account {
            for a in &ab.amounts {
                if a.commodity == commodity {
                    return Some(value(a.quantity));
                }
            }
        }
    }
    None
}

fn account_balance(entries: &[(&str, i64, u32)]) -> AccountBalance {
    let mut ab = AccountBalance::new();
    for (c, m, s) in entries {
        ab.add_amount(&c.to_string(), d(*m, *s), false);
    }
    ab
}

fn params(main: &str, dp: u32) -> ReportParameters {
    ReportParameters {
        main_commodity: main.to_string(),
        main_commodity_decimal_points: dp,
        assets_liquid: vec!["Assets:Cash".to_string()],
        assets_fixed: vec!["Assets:House".to_string()],
        assets_high_risk: vec!["Assets:Stocks".to_string()],
        income: vec!["Income".to_string()],
        expenses: vec!["Expenses".to_string()],
    }
}

fn s(x: &str) -> String {
    x.to_string()
}

#[test]
fn add_then_subtract_same_balance_gives_it_back() {
    let mut b = Balance::new();
    b.update_with_transaction(&tx(
        date(2021, 1, 15),
        vec![
            posting("Assets:Cash", d(10050, 2), "PLN"),
            posting("Assets:Cash", d(-3, 0), "USD"),
            posting("Income:Job", d(-10050, 2), "PLN"),
        ],
    ));
    let mut r = b.copy();
    r.add_assign(&b);
    assert_eq!(quantity(&r, "Assets:Cash", "PLN"), Some(dec(20100, 2)));
    r.sub_assign(&b);
    assert_eq!(r.account_balances.len(), b.account_balances.len());
    assert_eq!(quantity(&r, "Assets:Cash", "PLN"), Some(dec(10050, 2)));
    assert_eq!(quantity(&r, "Assets:Cash", "USD"), Some(dec(-3, 0)));
    assert_eq!(quantity(&r, "Income:Job", "PLN"), Some(dec(-10050, 2)));
}

#[test]
fn subtracting_everything_prunes_zero_entries() {
    let mut b = Balance::new();
    b.update_with_transaction(&tx(date(2021, 1, 1), vec![posting("Assets:Cash", d(5, 0), "PLN")]));
    let other = b.copy();
    b.sub_assign(&other);
    assert_eq!(b.account_balances.len(), 0);
}

#[test]
fn subtracting_from_missing_commodity_negates() {
    let mut a = account_balance(&[("PLN", 5, 0)]);
    let b = account_balance(&[("USD", 7, 0)]);
    a.sub_assign(&b);
    assert_eq!(a.amounts.len(), 2);
    assert_eq!(value(a.amounts[1].quantity), dec(-7, 0));
}

#[test]
fn postings_accumulate_per_account_and_commodity() {
    let mut b = Balance::new();
    b.update_with_transaction(&tx(
        date(2021, 3, 3),
        vec![
            posting("Assets:Cash", d(15, 1), "PLN"),
            posting("Assets:Cash", d(25, 1), "PLN"),
            posting("Assets:Cash", d(-4, 0), "PLN"),
            posting("Assets:Bank", d(1, 0), "EUR"),
        ],
    ));
    assert_eq!(quantity(&b, "Assets:Cash", "PLN"), None);
    assert_eq!(quantity(&b, "Assets:Bank", "EUR"), Some(dec(1, 0)));
    assert_eq!(b.account_balances.len(), 1);
}

#[test]
fn account_prefixes_match_raw_strings_once_each() {
    let mut b = Balance::new();
    b.update_with_transaction(&tx(
        date(2021, 3, 3),
        vec![
            posting("Assets:Cash", d(10, 0), "PLN"),
            posting("Assets:Card", d(20, 0), "PLN"),
            posting("Expenses:Food", d(5, 0), "PLN"),
        ],
    ));
    let ab = b.get_account_balance(&vec![s("Assets:C"), s("Assets")]);
    assert_eq!(ab.amounts.len(), 1);
    assert_eq!(value(ab.amounts[0].quantity), dec(30, 0));
    let none = b.get_account_balance(&vec![]);
    assert_eq!(none.amounts.len(), 0);
    let other = b.get_account_balance(&vec![s("Liabilities")]);
    assert_eq!(other.amounts.len(), 0);
}

#[test]
fn reciprocal_rate_is_inserted() {
    let mut prices = Prices::new();
    prices.add_price(&s("A"), &s("B"), d(4, 0), date(2021, 1, 1));
    let day = date(2021, 1, 1);
    assert_eq!(value(prices.convert(d(1, 0), &s("A"), &s("B"), &day).unwrap()), dec(4, 0));
    assert_eq!(value(prices.convert(d(1, 0), &s("B"), &s("A"), &day).unwrap()), dec(25, 2));
    assert_eq!(value(prices.get_rate(&s("B"), &s("A"), &day).unwrap()), dec(25, 2));
}

#[test]
fn floor_lookup_not_interpolation() {
    let mut prices = Prices::new();
    prices.add_price(&s("A"), &s("B"), d(4, 0), date(2021, 1, 1));
    prices.add_price(&s("A"), &s("B"), d(5, 0), date(2021, 3, 1));
    assert_eq!(value(prices.get_rate(&s("A"), &s("B"), &date(2021, 2, 15)).unwrap()), dec(4, 0));
    assert_eq!(value(prices.get_rate(&s("A"), &s("B"), &date(2021, 3, 1)).unwrap()), dec(5, 0));
    assert_eq!(value(prices.get_rate(&s("A"), &s("B"), &date(2022, 1, 1)).unwrap()), dec(5, 0));
    assert_eq!(
        prices.get_rate(&s("A"), &s("B"), &date(2020, 12, 31)).unwrap_err(),
        PricesError::DateTooEarly
    );
}

#[test]
fn unknown_pair_fails() {
    let mut prices = Prices::new();
    prices.add_price(&s("A"), &s("B"), d(4, 0), date(2021, 1, 1));
    assert_eq!(
        prices.get_rate(&s("A"), &s("C"), &date(2021, 1, 1)).unwrap_err(),
        PricesError::NoSuchCommoditiesPair
    );
}

#[test]
fn later_rate_for_same_date_wins() {
    let mut prices = Prices::new();
    prices.add_price(&s("A"), &s("B"), d(4, 0), date(2021, 1, 1));
    prices.add_price(&s("A"), &s("B"), d(2, 0), date(2021, 1, 1));
    assert_eq!(value(prices.get_rate(&s("A"), &s("B"), &date(2021, 1, 1)).unwrap()), dec(2, 0));
    assert_eq!(value(prices.get_rate(&s("B"), &s("A"), &date(2021, 1, 1)).unwrap()), dec(5, 1));
}

#[test]
fn zero_rate_is_not_stored() {
    let mut prices = Prices::new();
    prices.add_price(&s("A"), &s("B"), d(0, 0), date(2021, 1, 1));
    assert_eq!(
        prices.get_rate(&s("A"), &s("B"), &date(2021, 1, 1)).unwrap_err(),
        PricesError::NoSuchCommoditiesPair
    );
    assert_eq!(
        prices.get_rate(&s("B"), &s("A"), &date(2021, 1, 1)).unwrap_err(),
        PricesError::NoSuchCommoditiesPair
    );
}

#[test]
fn zero_price_directive_is_skipped_others_kept() {
    let directive = |q: Dec, dst: &str| CommodityPrice {
        date: date(2021, 1, 1),
        commodity_name: s("USD"),
        amount: Amount { quantity: q, commodity: s(dst) },
    };
    let l = Ledger {
        transactions: Vec::new(),
        commodity_prices: vec![directive(d(4, 0), "PLN"), directive(d(0, 0), "PLN"), directive(d(0, 0), "EUR")],
    };
    let prices = Prices::load(&l, None);
    assert_eq!(value(prices.get_rate(&s("USD"), &s("PLN"), &date(2021, 1, 1)).unwrap()), dec(4, 0));
    assert_eq!(
        prices.get_rate(&s("USD"), &s("EUR"), &date(2021, 1, 1)).unwrap_err(),
        PricesError::NoSuchCommoditiesPair
    );
}

#[test]
fn final_total_of_report() {
    let l = ledger(vec![
        tx(date(2021, 1, 1), vec![posting("A", d(1, 0), "PLN")]),
        tx(date(2021, 2, 1), vec![posting("A", d(2, 0), "PLN")]),
    ]);
    let total = ledger_reports::monthly_report::final_total(&get_monthly_report(&l));
    assert_eq!(quantity(&total, "A", "PLN"), Some(dec(3, 0)));
    let empty = ledger_reports::monthly_report::final_total(&get_monthly_report(&ledger(Vec::new())));
    assert_eq!(empty.account_balances.len(), 0);
}

#[test]
fn same_commodity_converts_without_rates() {
    let prices = Prices::new();
    let r = prices.convert(d(1234, 2), &s("PLN"), &s("PLN"), &date(2021, 1, 1)).unwrap();
    assert_eq!(value(r), dec(1234, 2));
}

#[test]
fn conversion_overflow_is_reported() {
    let mut prices = Prices::new();
    prices.add_price(&s("A"), &s("B"), Dec { mantissa: 1 << 90, scale: 0 }, date(2021, 1, 1));
    let r = prices.convert(Dec { mantissa: 1 << 90, scale: 0 }, &s("A"), &s("B"), &date(2021, 1, 1));
    assert_eq!(r.unwrap_err(), PricesError::Overflow);
}

#[test]
fn implied_price_from_two_commodity_transaction() {
    let l = ledger(vec![tx(
        date(2021, 5, 1),
        vec![posting("Assets:Cash", d(-10, 0), "USD"), posting("Assets:Bank", d(40, 0), "PLN")],
    )]);
    let prices = Prices::load(&l, None);
    assert_eq!(value(prices.get_rate(&s("USD"), &s("PLN"), &date(2021, 5, 1)).unwrap()), dec(4, 0));
    let r = prices.convert(d(10, 0), &s("USD"), &s("PLN"), &date(2021, 5, 2)).unwrap();
    assert_eq!(value(r), dec(40, 0));
}

#[test]
fn transactions_that_imply_no_price() {
    let l = ledger(vec![
        tx(date(2021, 5, 1), vec![posting("A", d(-10, 0), "USD"), posting("B", d(10, 0), "USD")]),
        tx(date(2021, 5, 1), vec![posting("A", d(0, 0), "USD"), posting("B", d(10, 0), "PLN")]),
        tx(
            date(2021, 5, 1),
            vec![posting("A", d(-1, 0), "USD"), posting("B", d(4, 0), "PLN"), posting("C", d(1, 0), "EUR")],
        ),
    ]);
    let prices = Prices::load(&l, None);
    assert_eq!(
        prices.get_rate(&s("USD"), &s("PLN"), &date(2021, 5, 1)).unwrap_err(),
        PricesError::NoSuchCommoditiesPair
    );
}

#[test]
fn load_order_price_file_then_ledger_then_implied() {
    let price_file = Ledger {
        transactions: Vec::new(),
        commodity_prices: vec![CommodityPrice {
            date: date(2021, 5, 1),
            commodity_name: s("USD"),
            amount: Amount { quantity: d(3, 0), commodity: s("PLN") },
        }],
    };
    let mut main = ledger(vec![tx(
        date(2021, 5, 1),
        vec![posting("Assets:Cash", d(-10, 0), "USD"), posting("Assets:Bank", d(40, 0), "PLN")],
    )]);
    main.commodity_prices.push(CommodityPrice {
        date: date(2021, 4, 1),
        commodity_name: s("USD"),
        amount: Amount { quantity: d(2, 0), commodity: s("PLN") },
    });
    let prices = Prices::load(&main, Some(&price_file));
    assert_eq!(value(prices.get_rate(&s("USD"), &s("PLN"), &date(2021, 5, 1)).unwrap()), dec(4, 0));
    assert_eq!(value(prices.get_rate(&s("USD"), &s("PLN"), &date(2021, 4, 30)).unwrap()), dec(2, 0));
    assert_eq!(value(prices.get_rate(&s("PLN"), &s("USD"), &date(2021, 4, 30)).unwrap()), dec(5, 1));
}

#[test]
fn monthly_bucketing() {
    let l = ledger(vec![
        tx(
            date(2021, 1, 15),
            vec![posting("Assets:Cash", d(100, 0), "PLN"), posting("Income:Job", d(100, 0), "PLN")],
        ),
        tx(
            date(2021, 2, 1),
            vec![posting("Expenses:Food", d(20, 0), "PLN"), posting("Assets:Cash", d(-20, 0), "PLN")],
        ),
    ]);
    let report = get_monthly_report(&l);
    assert_eq!(report.monthly_balances.len(), 2);
    let jan = &report.monthly_balances[0];
    let feb = &report.monthly_balances[1];
    assert_eq!((jan.year, jan.month), (2021, 1));
    assert_eq!((feb.year, feb.month), (2021, 2));
    assert_eq!(quantity(&jan.total, "Assets:Cash", "PLN"), Some(dec(100, 0)));
    assert_eq!(quantity(&feb.total, "Assets:Cash", "PLN"), Some(dec(80, 0)));
    assert_eq!(quantity(&feb.monthly_change, "Assets:Cash", "PLN"), Some(dec(-20, 0)));
    assert_eq!(quantity(&feb.monthly_change, "Income:Job", "PLN"), None);
    assert_eq!(quantity(&feb.total, "Income:Job", "PLN"), Some(dec(100, 0)));
}

#[test]
fn no_transactions_no_buckets() {
    let report = get_monthly_report(&ledger(Vec::new()));
    assert_eq!(report.monthly_balances.len(), 0);
}

#[test]
fn unsorted_months_give_separate_buckets() {
    let l = ledger(vec![
        tx(date(2021, 1, 1), vec![posting("A", d(1, 0), "PLN")]),
        tx(date(2021, 2, 1), vec![posting("A", d(1, 0), "PLN")]),
        tx(date(2021, 1, 2), vec![posting("A", d(1, 0), "PLN")]),
    ]);
    let report = get_monthly_report(&l);
    assert_eq!(report.monthly_balances.len(), 3);
    assert_eq!(quantity(&report.monthly_balances[2].total, "A", "PLN"), Some(dec(3, 0)));
    assert_eq!(quantity(&report.monthly_balances[2].monthly_change, "A", "PLN"), Some(dec(1, 0)));
}

#[test]
fn balance_of_whole_ledger() {
    let l = ledger(vec![
        tx(date(2021, 1, 1), vec![posting("A", d(1, 0), "PLN")]),
        tx(date(2021, 2, 1), vec![posting("A", d(2, 0), "PLN")]),
    ]);
    assert_eq!(quantity(&get_balance(&l), "A", "PLN"), Some(dec(3, 0)));
}

#[test]
fn value_in_commodity_sums_conversions() {
    let mut prices = Prices::new();
    prices.add_price(&s("USD"), &s("PLN"), d(4, 0), date(2021, 1, 1));
    let ab = account_balance(&[("PLN", 10, 0), ("USD", 25, 1)]);
    let v = ab.value_in_commodity(&s("PLN"), &date(2021, 1, 2), &prices).unwrap();
    assert_eq!(value(v), dec(20, 0));
    let e = ab.value_in_commodity(&s("PLN"), &date(2020, 1, 2), &prices);
    assert_eq!(e.unwrap_err(), PricesError::DateTooEarly);
    let e = ab.value_in_commodity(&s("EUR"), &date(2021, 1, 2), &prices);
    assert_eq!(e.unwrap_err(), PricesError::NoSuchCommoditiesPair);
}

#[test]
fn rounded_value_halves_away_from_zero_and_zero_on_failure() {
    let prices = Prices::new();
    let ab = account_balance(&[("PLN", 12345, 3)]);
    assert_eq!(value(ab.value_in_commodity_rounded(&s("PLN"), 2, &date(2021, 1, 1), &prices)), dec(1235, 2));
    let neg = account_balance(&[("PLN", -12345, 3)]);
    assert_eq!(value(neg.value_in_commodity_rounded(&s("PLN"), 2, &date(2021, 1, 1), &prices)), dec(-1235, 2));
    let foreign = account_balance(&[("USD", 1, 0)]);
    assert_eq!(value(foreign.value_in_commodity_rounded(&s("PLN"), 2, &date(2021, 1, 1), &prices)), dec(0, 0));
}

#[test]
fn tree_nodes_hold_sums_of_accounts_below() {
    let mut b = Balance::new();
    b.update_with_transaction(&tx(
        date(2021, 1, 1),
        vec![
            posting("Assets:Cash", d(10, 0), "PLN"),
            posting("Assets:Bank", d(5, 0), "PLN"),
            posting("Expenses:Food", d(3, 0), "USD"),
        ],
    ));
    let root = TreeBalanceNode::from_balance(&b);
    assert_eq!(root.children.len(), 2);
    let assets = &root.children[0];
    assert_eq!(assets.0, "Assets");
    assert_eq!(assets.1.children.len(), 2);
    assert_eq!(value(assets.1.balance.amounts[0].quantity), dec(15, 0));
    assert_eq!(root.balance.amounts.len(), 2);
    assert_eq!(value(root.balance.amounts[0].quantity), dec(15, 0));
    assert_eq!(value(root.balance.amounts[1].quantity), dec(3, 0));
}

#[test]
fn account_paths_split_on_separator() {
    let parts = split_account(&s("Assets:Liquid:Cash"));
    assert_eq!(parts, vec![s("Assets"), s("Liquid"), s("Cash")]);
    assert_eq!(split_account(&s("Assets")), vec![s("Assets")]);
    assert_eq!(split_account(&s("")), vec![s("")]);
}

#[test]
fn display_compression() {
    let mut b = Balance::new();
    b.update_with_transaction(&tx(
        date(2021, 1, 1),
        vec![
            posting("Assets:Liquid", d(100, 0), "PLN"),
            posting("Expenses:Tiny", d(1, 3), "PLN"),
            posting("Income:Zzz", d(-1, 0), "PLN"),
            posting("Income:Aaa", d(-2, 0), "PLN"),
            posting("Income:Empty", d(0, 0), "PLN"),
        ],
    ));
    let prices = Prices::new();
    let tree = get_summary_tree(&b, &prices, &params("PLN", 2), &date(2021, 2, 1));
    let names: Vec<String> = tree.children.iter().map(|c| c.name.clone()).collect();
    assert_eq!(names, vec![s("Assets:Liquid"), s("Income")]);
    let assets = &tree.children[0];
    assert_eq!(assets.children.len(), 0);
    assert_eq!(value(assets.amount_main_commodity_value), dec(100, 0));
    assert!(assets.is_positive);
    let income = &tree.children[1];
    let income_names: Vec<String> = income.children.iter().map(|c| c.name.clone()).collect();
    assert_eq!(income_names, vec![s("Aaa"), s("Zzz")]);
    assert!(!income.is_positive);
    assert_eq!(value(tree.amount_main_commodity_value), dec(97, 0));
}

#[test]
fn zero_valued_node_with_children_is_kept() {
    let mut b = Balance::new();
    b.update_with_transaction(&tx(
        date(2021, 1, 1),
        vec![posting("Equity:A", d(5, 0), "PLN"), posting("Equity:B", d(-5, 0), "PLN")],
    ));
    let root = TreeBalanceNode::from_balance(&b);
    let shown = convert_tree_node(&s("/"), &root, &Prices::new(), &params("PLN", 2), &date(2021, 2, 1));
    assert_eq!(shown.name, "/:Equity");
    let names: Vec<String> = shown.children.iter().map(|c| c.name.clone()).collect();
    assert_eq!(names, vec![s("A"), s("B")]);
}

#[test]
fn foreign_holdings_are_listed() {
    let mut b = Balance::new();
    b.update_with_transaction(&tx(
        date(2021, 1, 1),
        vec![posting("Assets:Cash", d(3, 0), "USD"), posting("Assets:Bank", d(5, 0), "PLN")],
    ));
    let mut prices = Prices::new();
    prices.add_price(&s("USD"), &s("PLN"), d(4, 0), date(2021, 1, 1));
    let tree = get_summary_tree(&b, &prices, &params("PLN", 2), &date(2021, 2, 1));
    assert_eq!(tree.amount_foreign_commodities.len(), 2);
    assert_eq!(value(tree.amount_main_commodity_value), dec(17, 0));
    assert_eq!(tree.name, "/:Assets");
    let bank = tree.children.iter().find(|c| c.name == "Bank").unwrap();
    assert_eq!(bank.amount_foreign_commodities.len(), 0);
}

#[test]
fn names_compare_by_code_point() {
    assert!(name_is_le("Aaa", "Aab"));
    assert!(name_is_le("Aa", "Aaa"));
    assert!(!name_is_le("b", "B"));
    assert!(name_is_le("", ""));
}

#[test]
fn days_in_months() {
    assert_eq!(ndays_in_month(2021, 1), 31);
    assert_eq!(ndays_in_month(2021, 2), 28);
    assert_eq!(ndays_in_month(2020, 2), 29);
    assert_eq!(ndays_in_month(1900, 2), 28);
    assert_eq!(ndays_in_month(2000, 2), 29);
    assert_eq!(ndays_in_month(2021, 4), 30);
    assert_eq!(ndays_in_month(2021, 12), 31);
    let last = last_day_in_month(2024, 2);
    assert_eq!((last.year, last.month, last.day), (2024, 2, 29));
}

#[test]
fn dates_are_checked() {
    assert!(Date::from_ymd(2021, 2, 29).is_none());
    assert!(Date::from_ymd(2021, 13, 1).is_none());
    assert!(Date::from_ymd(2021, 0, 1).is_none());
    assert!(Date::from_ymd(2020, 2, 29).is_some());
    assert!(date(2021, 1, 31).is_on_or_before(&date(2021, 2, 1)));
    assert!(!date(2021, 2, 1).is_on_or_before(&date(2021, 1, 31)));
}

#[test]
fn monthly_table_values_groups_at_month_end() {
    let l = ledger(vec![
        tx(
            date(2021, 1, 15),
            vec![
                posting("Assets:Cash", d(100, 0), "PLN"),
                posting("Assets:Stocks", d(10, 0), "USD"),
                posting("Income:Job", d(-100, 0), "PLN"),
            ],
        ),
        tx(date(2021, 2, 1), vec![posting("Expenses:Food", d(20, 0), "PLN")]),
    ]);
    let mut prices = Prices::new();
    prices.add_price(&s("USD"), &s("PLN"), d(4, 0), date(2021, 1, 31));
    let report = get_monthly_report(&l);
    let table = get_monthly_table(&report, &prices, &params("PLN", 2)).unwrap();
    assert_eq!(table.rows.len(), 2);
    let jan = &table.rows[0];
    assert_eq!((jan.date.year, jan.date.month, jan.date.day), (2021, 1, 31));
    assert_eq!(value(jan.liquid_assets), dec(100, 0));
    assert_eq!(value(jan.high_risk_assets_net), dec(2720, 2));
    assert_eq!(value(jan.high_risk_assets_tax), dec(1280, 2));
    assert_eq!(value(jan.assets_total_net), dec(12720, 2));
    assert_eq!(value(jan.income), dec(-100, 0));
    let feb = &table.rows[1];
    assert_eq!(feb.date.day, 28);
    assert_eq!(value(feb.expenses), dec(20, 0));
    let assets = get_assets_table(&table);
    assert_eq!(assets.headers.len(), 8);
    assert_eq!(assets.rows.len(), 2);
    assert!(matches!(assets.rows[0].columns[0], TableCell::Month { year: 2021, month: 1 }));
    assert_eq!(value(assets.rows[0].columns[2].to_value().unwrap()), dec(100, 0));
    assert!(assets.rows[0].columns[0].to_value().is_none());
}

#[test]
fn rate_missing_before_first_month_values_zero() {
    let l = ledger(vec![tx(date(2021, 1, 15), vec![posting("Assets:Stocks", d(10, 0), "USD")])]);
    let mut prices = Prices::new();
    prices.add_price(&s("USD"), &s("PLN"), d(4, 0), date(2021, 3, 1));
    let report = get_monthly_report(&l);
    let table = get_monthly_table(&report, &prices, &params("PLN", 2)).unwrap();
    assert_eq!(value(table.rows[0].high_risk_assets_net), dec(0, 0));
}

#[test]
fn ledgers_join_in_order() {
    let a = ledger(vec![tx(date(2021, 1, 1), vec![posting("A", d(1, 0), "PLN")])]);
    let b = ledger(vec![
        tx(date(2021, 2, 1), vec![posting("B", d(2, 0), "PLN")]),
        tx(date(2021, 3, 1), vec![posting("C", d(3, 0), "PLN")]),
    ]);
    let j = join_ledgers(vec![a, b]);
    assert_eq!(j.transactions.len(), 3);
    assert_eq!(j.transactions[0].postings[0].account, "A");
    assert_eq!(j.transactions[2].postings[0].account, "C");
}

fn expense_row(month: u32, expenses: i64) -> MonthlyRow {
    MonthlyRow {
        date: last_day_in_month(2021, month),
        assets_total_net: d(0, 0),
        liquid_assets: d(0, 0),
        fixed_assets: d(0, 0),
        high_risk_assets_net: d(0, 0),
        high_risk_assets_tax: d(0, 0),
        income: d(0, 0),
        expenses: d(expenses, 0),
    }
}

#[test]
fn expense_series_differences() {
    let mut rows = Vec::new();
    for m in 1..=12 {
        rows.push(expense_row(m, 10 * m as i64));
    }
    rows.push(MonthlyRow { date: date(2022, 1, 31), ..expense_row(1, 200) });
    rows.push(MonthlyRow { date: date(2022, 2, 28), ..expense_row(1, 260) });
    let table = MonthlyTable { rows };
    let series = get_expense_series(&table).unwrap();
    assert_eq!(series.len(), 14);
    assert_eq!(value(series[0].monthly_expenses), dec(10, 0));
    assert_eq!(value(series[0].window_expenses), dec(10, 0));
    assert_eq!(value(series[1].monthly_expenses), dec(10, 0));
    assert_eq!(value(series[12].monthly_expenses), dec(80, 0));
    assert_eq!(value(series[12].window_expenses), dec(200, 0));
    assert_eq!(value(series[13].monthly_expenses), dec(60, 0));
    assert_eq!(value(series[13].window_expenses), dec(240, 0));
    assert_eq!(series[13].date.month, 2);
}

#[test]
fn adding_brings_in_new_accounts() {
    let mut a = Balance::new();
    a.update_with_transaction(&tx(date(2021, 1, 1), vec![posting("A", d(1, 0), "PLN")]));
    let mut b = Balance::new();
    b.update_with_transaction(&tx(date(2021, 1, 1), vec![posting("B", d(2, 0), "PLN")]));
    a.add_assign(&b);
    assert_eq!(quantity(&a, "A", "PLN"), Some(dec(1, 0)));
    assert_eq!(quantity(&a, "B", "PLN"), Some(dec(2, 0)));
    a.sub_assign(&b);
    a.sub_assign(&b);
    assert_eq!(quantity(&a, "B", "PLN"), Some(dec(-2, 0)));
}

#[test]
fn root_value_is_sum_of_leaf_values() {
    let mut b = Balance::new();
    b.update_with_transaction(&tx(
        date(2021, 1, 1),
        vec![
            posting("Assets:Cash", d(10, 0), "PLN"),
            posting("Assets:Bank", d(5, 0), "USD"),
            posting("Expenses:Food", d(-3, 0), "EUR"),
        ],
    ));
    let mut prices = Prices::new();
    prices.add_price(&s("USD"), &s("PLN"), d(4, 0), date(2021, 1, 1));
    prices.add_price(&s("EUR"), &s("PLN"), d(45, 1), date(2021, 1, 1));
    let root = TreeBalanceNode::from_balance(&b);
    let day = date(2021, 1, 2);
    let root_value = value(root.balance.value_in_commodity(&s("PLN"), &day, &prices).unwrap());
    let mut leaves = Decimal::new(0, 0);
    for (_, top) in &root.children {
        for (_, leaf) in &top.children {
            assert_eq!(leaf.children.len(), 0);
            leaves += value(leaf.balance.value_in_commodity(&s("PLN"), &day, &prices).unwrap());
        }
    }
    assert_eq!(root_value, leaves);
    assert_eq!(root_value, dec(165, 1));
}

#[test]
fn deref_helpers_borrow_contents() {
    let v = vec![s("Assets"), s("Income")];
    let d: Vec<&str> = <Vec<String> as VecDeref<String>>::as_deref(&v);
    assert_eq!(d, vec!["Assets", "Income"]);
    let o = Some(s("PLN"));
    assert_eq!(<Option<String> as OptionDeref<String>>::as_deref(&o), Some("PLN"));
    let n: Option<String> = None;
    assert_eq!(<Option<String> as OptionDeref<String>>::as_deref(&n), None);
}

#[test]
fn prefix_test_on_chars() {
    assert!(starts_with("Assets:Cash", "Assets:"));
    assert!(starts_with("Assets", ""));
    assert!(!starts_with("Asset", "Assets"));
    assert!(!starts_with("Expenses", "Assets"));
}

#[test]
fn calendar_range_ends() {
    assert_eq!(ndays_in_month(-262143, 1), 31);
    assert_eq!(ndays_in_month(-262143, 2), 28);
    assert_eq!(ndays_in_month(262142, 11), 30);
    assert!(Date::from_ymd(262142, 12, 31).is_some());
    assert!(Date::from_ymd(-262143, 1, 1).is_some());
    assert!(Date::from_ymd(262143, 1, 1).is_none());
}

#[test]
fn header_labels() {
    let assets = get_assets_table(&MonthlyTable { rows: Vec::new() });
    assert_eq!(
        assets.headers,
        vec![
            s("Date"),
            s("Assets Total Net"),
            s("Liquid Assets"),
            s("Fixed Assets"),
            s("High Risk Assets Net"),
            s("High Risk Assets Tax"),
            s("Income"),
            s("Expenses")
        ]
    );
}

#[test]
fn later_price_on_same_date_replaces_reciprocal() {
    let mut prices = Prices::new();
    let day = date(2021, 1, 1);
    prices.add_price(&s("A"), &s("B"), d(4, 0), day);
    prices.add_price(&s("A"), &s("B"), d(8, 0), day);
    assert_eq!(value(prices.convert(d(1, 0), &s("B"), &s("A"), &day).unwrap()), dec(125, 3));
}

#[test]
fn single_holding_values_exactly_then_rounds() {
    let prices = Prices::new();
    let ab = account_balance(&[("PLN", 1005, 3)]);
    assert_eq!(value(ab.value_in_commodity(&s("PLN"), &date(2021, 1, 1), &prices).unwrap()), dec(1005, 3));
    assert_eq!(value(ab.value_in_commodity_rounded(&s("PLN"), 2, &date(2021, 1, 1), &prices)), dec(101, 2));
}
