//! A ledger of money lent to and borrowed from people: the transactions, the questions
//! that are asked of them, and the decisions that keeping them in files takes.
//!
//! - `models`, `calendar`, `database`: the transactions and the ledger that holds them.
//! - `analytics`: balances, statistics of people, which loans count as paid back, how
//!   long returns took, how often promised dates were kept, the timeline of balances,
//!   and the order of lists.
//! - `storage`: the names of backups and attachments, which backup is read when the
//!   ledger is recovered, which backups are removed and which remain over a run of
//!   saves, and the steps of loading, saving and attaching.
//! - `sorting`, `text`: ordering and texts, on which the others rest.

pub mod analytics;
pub mod calendar;
pub mod database;
pub mod models;
pub mod sorting;
pub mod storage;
pub mod text;
