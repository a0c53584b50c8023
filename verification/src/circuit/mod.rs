//! What the circuits prove.
pub mod action_slice;
pub mod decay_bench;
pub mod decay_chip;
pub mod gate;
pub mod note_chip;
pub mod range;
pub mod sample;
pub mod value_balance;
