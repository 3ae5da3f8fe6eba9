//! Anti-hash test cases: pairs of distinct strings that collide under
//! polynomial rolling hashes.
//!
//! Three solvers make such pairs. `overflow_attack` builds the pair that
//! defeats every hash computed in 64 bits with wrap-around and an odd base.
//! `birthday_attack` searches at random for a pair under one hash with a
//! module of 32 bits. `tree_attack` runs a tournament of merges for modules
//! of up to 64 bits. The last two lift a pair for one hash to a pair for
//! several, by taking the pair found for one hash as the alphabet for the
//! next.
//!
//! The hash is defined in `hash`, alphabets and the strings spelled from them
//! in `words`, and the lifting in `lift`. The tournament is described in
//! terms of sums in `tournament`; `merge`, `frontier`, `min_heap`, `order` and
//! `lists` carry it out, and `tree_invariant` and `choice` hold what its
//! proof needs. `output` shows a result, and `validate` checks an alphabet.

pub mod birthday_attack;
pub mod choice;
pub mod frontier;
pub mod hash;
pub mod lift;
pub mod lists;
pub mod merge;
pub mod min_heap;
pub mod order;
pub mod output;
pub mod overflow_attack;
pub mod power;
mod random;
pub mod tournament;
pub mod tree_attack;
pub mod tree_invariant;
pub mod validate;
pub mod words;
