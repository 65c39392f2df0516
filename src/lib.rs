//! Knowledge store and response engine of a small chat bot: it learns
//! sentences, indexes their words, and splices learned sentences around a
//! shared word to answer.
pub mod text;
pub mod index;
pub mod dictionary;
pub mod respond;
pub mod order;
pub mod laws;
