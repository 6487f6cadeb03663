//! Verified core of a personal finance application: money parsing and
//! formatting, CSV column detection, transaction reconciliation and
//! backup bookkeeping.

pub mod dates;
pub mod digits;
pub mod error;
pub mod forms;
pub mod insights;
pub mod auth;
pub mod backup;
pub mod csv_import;
pub mod money;
pub mod order;
pub mod planning;
pub mod portfolio;
pub mod portfolio_import;
pub mod reconcile;
pub mod requests;
pub mod server;
pub mod stats;
pub mod subset;
pub mod text;
