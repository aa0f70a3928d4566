//! Convenient re-exports for common usage.

pub use crate::actions::{Action, ActionBuilder, ActionView, NumericValue};
pub use crate::goals::{Goal, GoalBuilder, GoalView};
pub use crate::planner::{Plan, Planner, PlannerError};
pub use crate::state::{
    EnumStateVar, Effects, IntoStateVar, State, StateBuilder, StateError, StateOperation,
    StateVar, TryFromStateVar, VarValue,
};
