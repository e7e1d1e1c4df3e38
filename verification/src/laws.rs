//! What holds of the whole, whatever the tables hold: what statements mean, answer and change,
//! in terms of the values in them and in the tables, without the functions that compute it.

pub mod bytes;
pub mod casts;
pub mod changes;
pub mod conditions;
pub mod dates;
pub mod grouped;
pub mod groups;
pub mod literals;
pub mod memory;
pub mod network;
pub mod order;
pub mod questions;
pub mod refusals;
pub mod rows;
pub mod shell;
pub mod syntax;
pub mod texts;
pub mod tools;
pub mod values;
pub mod vectors;
pub mod words;
