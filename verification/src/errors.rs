use vstd::prelude::*;

verus! {

/// Every failure the engine can report. Parsing and construction errors
/// surface directly to the caller; a short blind (`InsufficientStack`) is
/// handled locally by capping the posted amount to the seat's stack, so the
/// constructor converts it to an all-in post instead of returning it.
#[derive(Clone, Copy, PartialEq, Eq, Structural, Debug)]
pub enum PokerError {
    /// A card token is not exactly a rank character followed by a suit
    /// character from the valid alphabets.
    InvalidCardFormat,
    /// A hand string's length is not a positive even number.
    InvalidHandLength,
    /// Fewer than 5 cards were supplied to the evaluator, or too few unseen
    /// cards remain to complete the board.
    InsufficientCards,
    /// The same card appears twice among the known cards of one deal.
    DuplicateCard,
    /// Fewer than two hands were supplied to a simulation.
    InvalidPlayerCount,
    /// The known community cards already exceed the 5-card board.
    BoardOverflow,
    /// A simulation was asked for zero trials.
    InvalidTrialCount,
    /// A blind-posting seat's stack is smaller than the blind. Never
    /// returned: the post is capped to the stack (an all-in blind).
    InsufficientStack,
    /// `step` was called on a game that already reached `Complete`.
    GameAlreadyComplete,
}

impl PokerError {
    /// A human-readable description of the error.
    pub fn message(&self) -> &'static str {
        match self {
            PokerError::InvalidCardFormat => "invalid card format",
            PokerError::InvalidHandLength => "hand string length must be a positive even number",
            PokerError::InsufficientCards => "not enough cards",
            PokerError::DuplicateCard => "duplicate card",
            PokerError::InvalidPlayerCount => "at least two hands are required",
            PokerError::BoardOverflow => "board already has five cards",
            PokerError::InvalidTrialCount => "trial count must be positive",
            PokerError::InsufficientStack => "stack smaller than blind",
            PokerError::GameAlreadyComplete => "game is already complete",
        }
    }
}

} // verus!
