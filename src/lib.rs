//! Spending reports: folds transaction rows of worksheets into per-category,
//! per-period ledgers, picks a trailing window of periods, classifies the
//! categories and assembles chart requests for a renderer.

pub mod text;
pub mod period;
pub mod ledger;
pub mod sheet;
pub mod window;
pub mod series;
pub mod report;
pub mod naming;
