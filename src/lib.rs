//! Matching of time-windowed supply and demand orders against a shared
//! per-time-step capacity, posed as a binary optimization problem.
//!
//! `order` holds the order model and its capacity footprint, `problem` builds
//! the optimization problem and decodes a solver's assignment, and `model`
//! states feasibility, surplus and optimality over sequences of orders,
//! together with the laws they obey.

pub mod model;
pub mod order;
pub mod problem;

pub use order::Order;
pub use problem::{MatchError, Problem, Term};
