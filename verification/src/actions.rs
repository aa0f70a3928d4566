//! Actions: named operations with a cost, preconditions and effects.

use vstd::prelude::*;

use crate::state::{
    apply_effects, map_satisfies, EffOp, Effects, IntoStateVar, State, VarValue,
};

verus! {

/// The mathematical model of an action: its name, cost, precondition
/// map and effect map.
pub struct ActionView {
    pub name: Seq<char>,
    pub cost: u64,
    pub preconditions: Map<Seq<char>, VarValue>,
    pub effects: Map<Seq<char>, EffOp>,
}

/// An action that can be performed to change the world state. It may
/// be executed only in states satisfying its preconditions, and then
/// transforms the state through its effects. The cost is a
/// non-negative fixed-point amount scaled by 1000, like decimal state
/// values, and is what the planner minimises.
#[derive(Debug)]
pub struct Action {
    /// The name of the action.
    pub name: String,
    /// The cost of executing this action, scaled by 1000.
    pub cost: u64,
    /// Conditions that must hold before this action can be executed.
    pub preconditions: State,
    /// The per-variable state changes the action performs.
    pub effects: Effects,
}

impl View for Action {
    type V = ActionView;

    open spec fn view(&self) -> ActionView {
        ActionView {
            name: self.name@,
            cost: self.cost,
            preconditions: self.preconditions@,
            effects: self.effects@,
        }
    }
}

impl Clone for Action {
    /// Cloning preserves the action's model exactly.
    fn clone(&self) -> (r: Self)
        ensures
            r@ == self@,
    {
        Action {
            name: self.name.clone(),
            cost: self.cost,
            preconditions: self.preconditions.clone(),
            effects: self.effects.clone(),
        }
    }
}

impl Action {
    /// Creates a new builder for an action with the given name.
    pub fn new(name: &str) -> (r: ActionBuilder)
        ensures
            r@ == (ActionView {
                name: name@,
                cost: 1000,
                preconditions: Map::<Seq<char>, VarValue>::empty(),
                effects: Map::<Seq<char>, EffOp>::empty(),
            }),
    {
        ActionBuilder::new(name)
    }

    /// Creates an action directly from its component parts.
    pub fn from_parts(name: &str, cost: u64, preconditions: State, effects: Effects) -> (r: Self)
        ensures
            r@ == (ActionView {
                name: name@,
                cost: cost,
                preconditions: preconditions@,
                effects: effects@,
            }),
    {
        Action { name: name.to_owned(), cost, preconditions, effects }
    }

    /// Whether this action can be executed in the given state: true
    /// exactly when the state satisfies every precondition.
    pub fn can_execute(&self, state: &State) -> (r: bool)
        ensures
            r == map_satisfies(state@, self@.preconditions),
    {
        state.satisfies(&self.preconditions)
    }

    /// Applies this action's effects to the given state, returning the
    /// new state and leaving the original untouched. It does not check
    /// the preconditions; callers apply effects only to states already
    /// known to satisfy them.
    pub fn apply_effect(&self, state: &State) -> (r: State)
        ensures
            r@ == apply_effects(state@, self@.effects),
    {
        let mut new_state = state.clone();
        new_state.apply(&self.effects);
        new_state
    }
}

/// Builder for constructing actions with a fluent interface; its model
/// is the action built so far.
#[derive(Debug)]
pub struct ActionBuilder {
    name: String,
    cost: u64,
    preconditions: State,
    effects: Effects,
}

impl View for ActionBuilder {
    type V = ActionView;

    closed spec fn view(&self) -> ActionView {
        ActionView {
            name: self.name@,
            cost: self.cost,
            preconditions: self.preconditions@,
            effects: self.effects@,
        }
    }
}

impl ActionBuilder {
    /// Creates a new builder with the given name, a default cost of
    /// 1000 (one unit) and no preconditions or effects.
    pub fn new(name: &str) -> (r: Self)
        ensures
            r@ == (ActionView {
                name: name@,
                cost: 1000,
                preconditions: Map::<Seq<char>, VarValue>::empty(),
                effects: Map::<Seq<char>, EffOp>::empty(),
            }),
    {
        ActionBuilder {
            name: name.to_owned(),
            cost: 1000,
            preconditions: State::empty(),
            effects: Effects::new(),
        }
    }

    /// Sets the cost of this action (fixed-point, scaled by 1000).
    pub fn cost(self, cost: u64) -> (r: Self)
        ensures
            r@ == (ActionView { cost: cost, ..self@ }),
    {
        let mut b = self;
        b.cost = cost;
        b
    }

    /// Adds a precondition on one variable.
    fn precondition<T: IntoStateVar>(self, key: &str, value: T) -> (r: Self)
        ensures
            r@ == (ActionView {
                preconditions: self@.preconditions.insert(key@, value.var_view()),
                ..self@
            }),
    {
        let mut b = self;
        b.preconditions.set(key, value);
        b
    }

    /// Adds an effect that sets a variable to a specific value.
    fn effect_set_to<T: IntoStateVar>(self, key: &str, value: T) -> (r: Self)
        ensures
            r@ == (ActionView {
                effects: self@.effects.insert(key@, EffOp::Assign(value.var_view())),
                ..self@
            }),
    {
        let mut b = self;
        let var = value.into_state_var();
        b.effects.insert(key, crate::state::StateOperation::Assign(var));
        b
    }

    /// Adds an effect that adds an integer amount to a variable.
    fn effect_add_int(self, key: &str, value: i64) -> (r: Self)
        ensures
            r@ == (ActionView {
                effects: self@.effects.insert(key@, EffOp::Add(value as int)),
                ..self@
            }),
    {
        let mut b = self;
        b.effects.insert(key, crate::state::StateOperation::add_i64(value));
        b
    }

    /// Adds an effect that subtracts an integer amount from a variable.
    fn effect_subtract_int(self, key: &str, value: i64) -> (r: Self)
        ensures
            r@ == (ActionView {
                effects: self@.effects.insert(key@, EffOp::Subtract(value as int)),
                ..self@
            }),
    {
        let mut b = self;
        b.effects.insert(key, crate::state::StateOperation::subtract_i64(value));
        b
    }

    /// Adds a precondition that must be satisfied before this action
    /// can be executed.
    pub fn require<T: IntoStateVar>(self, key: &str, value: T) -> (r: Self)
        ensures
            r@ == (ActionView {
                preconditions: self@.preconditions.insert(key@, value.var_view()),
                ..self@
            }),
    {
        self.precondition(key, value)
    }

    /// Adds an effect that sets a variable to a specific value.
    pub fn sets<T: IntoStateVar>(self, key: &str, value: T) -> (r: Self)
        ensures
            r@ == (ActionView {
                effects: self@.effects.insert(key@, EffOp::Assign(value.var_view())),
                ..self@
            }),
    {
        self.effect_set_to(key, value)
    }

    /// Adds an effect that adds a numeric amount to a variable.
    pub fn adds<T: NumericValue>(self, key: &str, value: T) -> (r: Self)
        ensures
            r@ == (ActionView {
                effects: self@.effects.insert(key@, EffOp::Add(value.delta_view())),
                ..self@
            }),
    {
        value.add_to_action_builder(self, key)
    }

    /// Adds an effect that subtracts a numeric amount from a variable.
    pub fn subtracts<T: NumericValue>(self, key: &str, value: T) -> (r: Self)
        ensures
            r@ == (ActionView {
                effects: self@.effects.insert(key@, EffOp::Subtract(value.delta_view())),
                ..self@
            }),
    {
        value.subtract_from_action_builder(self, key)
    }

    /// Builds the final action.
    pub fn build(self) -> (r: Action)
        ensures
            r@ == self@,
    {
        Action {
            name: self.name,
            cost: self.cost,
            preconditions: self.preconditions,
            effects: self.effects,
        }
    }
}

/// Trait for numeric amounts usable in Add and Subtract effects.
pub trait NumericValue: Sized {
    /// The integer amount this value stands for.
    spec fn delta_view(self) -> int;

    /// Adds this amount to the given variable in the builder.
    fn add_to_action_builder(self, builder: ActionBuilder, key: &str) -> (r: ActionBuilder)
        ensures
            r@ == (ActionView {
                effects: builder@.effects.insert(key@, EffOp::Add(self.delta_view())),
                ..builder@
            }),
    ;

    /// Subtracts this amount from the given variable in the builder.
    fn subtract_from_action_builder(self, builder: ActionBuilder, key: &str) -> (r: ActionBuilder)
        ensures
            r@ == (ActionView {
                effects: builder@.effects.insert(key@, EffOp::Subtract(self.delta_view())),
                ..builder@
            }),
    ;
}

impl NumericValue for i64 {
    open spec fn delta_view(self) -> int {
        self as int
    }

    fn add_to_action_builder(self, builder: ActionBuilder, key: &str) -> (r: ActionBuilder) {
        builder.effect_add_int(key, self)
    }

    fn subtract_from_action_builder(self, builder: ActionBuilder, key: &str) -> (r: ActionBuilder) {
        builder.effect_subtract_int(key, self)
    }
}

impl NumericValue for i32 {
    open spec fn delta_view(self) -> int {
        self as int
    }

    fn add_to_action_builder(self, builder: ActionBuilder, key: &str) -> (r: ActionBuilder) {
        builder.effect_add_int(key, self as i64)
    }

    fn subtract_from_action_builder(self, builder: ActionBuilder, key: &str) -> (r: ActionBuilder) {
        builder.effect_subtract_int(key, self as i64)
    }
}

} // verus!
