//! Input and evaluation logic of a four-function desk calculator.
//!
//! The heart of the crate is [`state::CalculatorState`], a state machine that
//! owns the in-progress numeric entry, the accumulator and the pending
//! operator, and that is driven by digit, decimal-point, backspace,
//! sign-toggle, operator and evaluate commands.  Numbers are exact decimals
//! ([`decimal::Dec`]), kept to at most sixteen significant digits, so every
//! command's effect is pinned down by a specification-level transition
//! function.

pub mod decimal;
pub mod numeral;
pub mod state;
pub mod laws;

pub use decimal::Dec;
pub use state::{CalculatorState, Op, MAX_LEN};
