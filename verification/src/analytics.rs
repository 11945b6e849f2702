pub mod balances;
pub mod latency;
pub mod listing;
pub mod people;
pub mod promises;
pub mod reconciliation;
pub mod timeline;
pub mod totals;

pub use balances::{
    balances_by_currency, signed_amount, totals_by_direction, CurrencyBalances, DirectionTotals,
};
pub use latency::{average_return_time, calculate_avg_return_time, stamps, ReturnLatency, Stamp};
pub use listing::sorted_places;
pub use people::calculate_person_stats;
pub use promises::calculate_promise_keeping_rate;
pub use reconciliation::calculate_paid_back_transactions;
pub use timeline::{generate_balance_timeline, moments, TimelinePoint};
