//! Goals: desired partial world states.

use vstd::prelude::*;

use crate::state::{map_satisfies, IntoStateVar, State, VarValue};

verus! {

/// A goal: a desired partial state of the world, with a name and a
/// priority. It constrains only the variables it mentions.
#[derive(Debug)]
pub struct Goal {
    /// The name of the goal.
    pub name: String,
    /// The desired partial state of the world.
    pub desired_state: State,
    /// The priority of this goal; higher values mean higher priority.
    pub priority: u16,
}

impl Clone for Goal {
    /// Cloning preserves the goal's name, desired state and priority.
    fn clone(&self) -> (r: Self)
        ensures
            r.name@ == self.name@,
            r.desired_state@ == self.desired_state@,
            r.priority == self.priority,
    {
        Goal {
            name: self.name.clone(),
            desired_state: self.desired_state.clone(),
            priority: self.priority,
        }
    }
}

impl Goal {
    /// Creates a new builder for a goal with the given name.
    pub fn new(name: &str) -> (r: GoalBuilder)
        ensures
            r@ == (GoalView {
                name: name@,
                desired: Map::<Seq<char>, VarValue>::empty(),
                priority: 1,
            }),
    {
        GoalBuilder::new(name)
    }

    /// Creates a goal directly from a desired state and priority.
    pub fn from_state(name: &str, desired_state: State, priority: u16) -> (r: Self)
        ensures
            r.name@ == name@,
            r.desired_state@ == desired_state@,
            r.priority == priority,
    {
        Goal { name: name.to_owned(), desired_state, priority }
    }

    /// Whether the given state satisfies this goal: true exactly when
    /// it meets every requirement of the desired state.
    pub fn is_satisfied(&self, state: &State) -> (r: bool)
        ensures
            r == map_satisfies(state@, self.desired_state@),
    {
        state.satisfies(&self.desired_state)
    }
}

/// The mathematical model of a goal under construction.
pub struct GoalView {
    pub name: Seq<char>,
    pub desired: Map<Seq<char>, VarValue>,
    pub priority: u16,
}

/// Builder for constructing goals with a fluent interface; its model
/// is the goal built so far.
#[derive(Debug)]
pub struct GoalBuilder {
    name: String,
    desired_state: State,
    priority: u16,
}

impl View for GoalBuilder {
    type V = GoalView;

    closed spec fn view(&self) -> GoalView {
        GoalView { name: self.name@, desired: self.desired_state@, priority: self.priority }
    }
}

impl GoalBuilder {
    /// Creates a new builder with the given name, an empty desired
    /// state and the default priority 1.
    pub fn new(name: &str) -> (r: Self)
        ensures
            r@ == (GoalView {
                name: name@,
                desired: Map::<Seq<char>, VarValue>::empty(),
                priority: 1,
            }),
    {
        GoalBuilder { name: name.to_owned(), desired_state: State::empty(), priority: 1 }
    }

    /// Sets the priority of this goal.
    pub fn priority(self, priority: u16) -> (r: Self)
        ensures
            r@ == (GoalView { priority: priority, ..self@ }),
    {
        let mut b = self;
        b.priority = priority;
        b
    }

    /// Adds a requirement on one variable for this goal to be
    /// considered achieved.
    pub fn require<T: IntoStateVar>(self, key: &str, value: T) -> (r: Self)
        ensures
            r@ == (GoalView { desired: self@.desired.insert(key@, value.var_view()), ..self@ }),
    {
        let mut b = self;
        b.desired_state.set(key, value);
        b
    }

    /// Builds the final goal.
    pub fn build(self) -> (r: Goal)
        ensures
            r.name@ == self@.name,
            r.desired_state@ == self@.desired,
            r.priority == self@.priority,
    {
        Goal { name: self.name, desired_state: self.desired_state, priority: self.priority }
    }
}

} // verus!
