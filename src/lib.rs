//! Poker hand evaluation, exhaustive equity enumeration and bankroll simulation.
pub mod bankroll;
pub mod card;
pub mod equity;
pub mod errors;
pub mod fraction;
pub mod hand;

pub use bankroll::{simple_monte_carlo_loop, simulate_core, BankruptcyMetric, Multiplier};
pub use card::{Card, CardNumber, CardShape};
pub use equity::EquityResult;
pub use errors::{BankrollParameter, PokercraftLocalError};
pub use fraction::Fraction;
pub use hand::HandRank;
