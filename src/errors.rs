//! Errors reported by the library.
use vstd::prelude::*;

verus! {

/// Which argument of a bankroll simulation was rejected.
#[derive(PartialEq, Eq, Structural, Clone, Copy, Debug)]
pub enum BankrollParameter {
    /// The initial capital was not positive.
    InitialCapital,
    /// The list of deltas was empty.
    EmptyReturns,
    /// The iteration budget was zero.
    MaxIteration,
    /// The deltas sum to a negative amount, so ruin is certain in the long run.
    NegativeReturnSum,
    /// No trial was asked for.
    SimulationCount,
    /// The profit-exit multiplier has a zero denominator.
    ExitMultiplier,
}

/// Represents all errors that can occur in this library.
#[derive(PartialEq, Eq, Clone, Debug)]
pub enum PokercraftLocalError {
    /// A card code was malformed; holds the offending part of the text.
    InvalidEncoding(String),
    /// A simulation parameter was out of its domain.
    InvalidParameter(BankrollParameter),
    /// More than five community cards were given.
    TooManyCommunityCards,
    /// A card was dealt twice among the hole cards and the board.
    DuplicateOrOverlappingCard,
    /// A player index was not below the number of players.
    PlayerIndexOutOfRange,
    /// No run-out was enumerated, so no equity exists.
    NoGamesPlayed,
    /// An equity outside `[0, 1]` was given.
    InvalidEquityBound,
    /// An outcome contradicts its equity (a win at zero equity, a loss at full equity).
    ImpossibleOutcome,
}

} // verus!
