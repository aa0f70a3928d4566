//! A goal-oriented action planning (GOAP) library.
//!
//! An agent describes the world as a [`state::State`]: a map from variable
//! names to typed values. [`actions::Action`]s carry preconditions and
//! effects, a [`goals::Goal`] names a desired partial state, and the
//! [`planner::Planner`] searches for the cheapest action sequence that turns
//! an initial state into one satisfying the goal.
//!
//! Decimal quantities are held as integers scaled by 1000 (three decimal
//! places), so states compare and hash exactly; action costs use the same
//! fixed-point scale.

pub mod actions;
pub mod goals;
pub mod planner;
pub mod prelude;
pub mod state;
