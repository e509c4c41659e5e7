//! Multi-currency net-worth valuation of a double-entry ledger: balances
//! accumulated from postings, historical exchange rates with floor lookup,
//! monthly snapshots, an account tree with additive roll-ups, and the tables
//! and tree that a report shows.
pub mod decimal;
pub mod keyed;
pub mod date_utils;
pub mod ledger;
pub mod balance;
pub mod prices;
pub mod monthly_report;
pub mod tree_balance;
pub mod configuration;
pub mod summary_tree;
pub mod monthly_table;
