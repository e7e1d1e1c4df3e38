//! The executor. It is vectorised: each node of an expression is computed over
//! the whole selection at once.

pub mod agg;
pub mod arr;
pub mod calendar;
pub mod eval;
pub mod group;
pub mod ops;
pub mod order;
pub mod scalar;
pub mod select;

pub use crate::exec::arr::{Arr, Frame, Sel};
pub use crate::exec::eval::eval;
pub use crate::exec::scalar::render;
pub use crate::exec::select::{run_select, QueryResult};
