//! World state: named, typed variables with exact-equality semantics.
//!
//! A [`State`] maps variable names to [`StateVar`] values. Decimal values are
//! fixed-point integers scaled by 1000 so that states can be compared exactly.
//! The mathematical model of a state is a `Map<Seq<char>, VarValue>`.

use vstd::prelude::*;

verus! {

/// Errors that can occur when working with state variables.
#[derive(Debug, PartialEq, Eq)]
pub enum StateError {
    /// The requested state variable was not found.
    VarNotFound(String),
    /// The state variable exists but is not of the expected type.
    InvalidVarType { var: String, expected: &'static str },
}

/// The mathematical value of a state variable: the model that contracts
/// speak about. Decimal values appear here as their scaled integers.
pub enum VarValue {
    Bool(bool),
    Int(int),
    Dec(int),
    Text(Seq<char>),
}

/// Two variable values can be compared (for distance or satisfaction)
/// only when their variants match.
pub open spec fn vars_comparable(a: VarValue, b: VarValue) -> bool {
    match (a, b) {
        (VarValue::Bool(_), VarValue::Bool(_)) => true,
        (VarValue::Int(_), VarValue::Int(_)) => true,
        (VarValue::Dec(_), VarValue::Dec(_)) => true,
        (VarValue::Text(_), VarValue::Text(_)) => true,
        _ => false,
    }
}

/// Distance between two comparable values: 0/1 for booleans and text,
/// absolute difference for numeric values.
pub open spec fn spec_distance(a: VarValue, b: VarValue) -> int
    recommends
        vars_comparable(a, b),
{
    match (a, b) {
        (VarValue::Bool(x), VarValue::Bool(y)) => if x == y { 0 } else { 1 },
        (VarValue::Int(x), VarValue::Int(y)) => if x >= y { x - y } else { y - x },
        (VarValue::Dec(x), VarValue::Dec(y)) => if x >= y { x - y } else { y - x },
        (VarValue::Text(x), VarValue::Text(y)) => if x == y { 0 } else { 1 },
        _ => 0,
    }
}

/// Threshold satisfaction of one variable: booleans and text must match
/// exactly, numeric values must meet or exceed the requirement, and a
/// variant mismatch never satisfies.
pub open spec fn var_satisfies(cur: VarValue, req: VarValue) -> bool {
    match (cur, req) {
        (VarValue::Bool(c), VarValue::Bool(r)) => c == r,
        (VarValue::Int(c), VarValue::Int(r)) => c >= r,
        (VarValue::Dec(c), VarValue::Dec(r)) => c >= r,
        (VarValue::Text(c), VarValue::Text(r)) => c == r,
        _ => false,
    }
}

/// A state satisfies a set of conditions when every variable the conditions
/// mention is present and satisfies its requirement.
pub open spec fn map_satisfies(
    state: Map<Seq<char>, VarValue>,
    cond: Map<Seq<char>, VarValue>,
) -> bool {
    forall|k: Seq<char>|
        #[trigger] cond.dom().contains(k) ==> state.dom().contains(k) && var_satisfies(
            state[k],
            cond[k],
        )
}

/// The threshold law of satisfaction: an Integer or Decimal state
/// value `V` satisfies a requirement `R` of the same variant exactly
/// when `V >= R`; Bool and Text require exact equality; and values of
/// different variants never satisfy one another.
pub proof fn lemma_threshold_satisfaction(cur: VarValue, req: VarValue)
    ensures
        match (cur, req) {
            (VarValue::Int(v), VarValue::Int(r)) => var_satisfies(cur, req) <==> v >= r,
            (VarValue::Dec(v), VarValue::Dec(r)) => var_satisfies(cur, req) <==> v >= r,
            (VarValue::Bool(v), VarValue::Bool(r)) => var_satisfies(cur, req) <==> v == r,
            (VarValue::Text(v), VarValue::Text(r)) => var_satisfies(cur, req) <==> v == r,
            _ => !var_satisfies(cur, req),
        },
{
}

/// Variables an effect map does not mention keep their values, and an
/// Add or Subtract aimed at an absent or non-numeric variable changes
/// nothing: the silent no-op law of effect application.
pub proof fn lemma_effects_silent_no_op(
    state: Map<Seq<char>, VarValue>,
    effects: Map<Seq<char>, EffOp>,
    k: Seq<char>,
)
    ensures
        !effects.dom().contains(k) ==> apply_effects(state, effects).dom().contains(k)
            == state.dom().contains(k),
        !effects.dom().contains(k) && state.dom().contains(k) ==> apply_effects(state, effects)[k]
            == state[k],
        effects.dom().contains(k) && !(effects[k] is Assign) && !state.dom().contains(k)
            ==> !apply_effects(state, effects).dom().contains(k),
        effects.dom().contains(k) && !(effects[k] is Assign) && state.dom().contains(k) && !(
        state[k] is Int) && !(state[k] is Dec) ==> apply_effects(state, effects)[k] == state[k],
{
}

/// Variable types that can be stored in the world state.
#[derive(Debug)]
pub enum StateVar {
    /// Boolean value.
    Bool(bool),
    /// 64-bit signed integer.
    I64(i64),
    /// Decimal value held as a fixed-point integer scaled by 1000
    /// (1.5 is stored as 1500). The scaling keeps equality and hashing
    /// exact, which the planner needs to treat states as search keys.
    F64(i64),
    /// Text value for names, locations, enumerations and the like.
    String(String),
}

impl View for StateVar {
    type V = VarValue;

    open spec fn view(&self) -> VarValue {
        match self {
            StateVar::Bool(b) => VarValue::Bool(*b),
            StateVar::I64(i) => VarValue::Int(*i as int),
            StateVar::F64(d) => VarValue::Dec(*d as int),
            StateVar::String(s) => VarValue::Text(s@),
        }
    }
}

impl Clone for StateVar {
    fn clone(&self) -> (r: Self)
        ensures
            r@ == self@,
    {
        match self {
            StateVar::Bool(b) => StateVar::Bool(*b),
            StateVar::I64(i) => StateVar::I64(*i),
            StateVar::F64(d) => StateVar::F64(*d),
            StateVar::String(s) => StateVar::String(s.clone()),
        }
    }
}

impl PartialEq for StateVar {
    fn eq(&self, other: &Self) -> (r: bool) {
        match (self, other) {
            (StateVar::Bool(a), StateVar::Bool(b)) => *a == *b,
            (StateVar::I64(a), StateVar::I64(b)) => *a == *b,
            (StateVar::F64(a), StateVar::F64(b)) => *a == *b,
            (StateVar::String(a), StateVar::String(b)) => *a == *b,
            _ => false,
        }
    }
}

impl vstd::std_specs::cmp::PartialEqSpecImpl for StateVar {
    open spec fn obeys_eq_spec() -> bool {
        true
    }

    open spec fn eq_spec(&self, other: &Self) -> bool {
        self@ == other@
    }
}

/// Absolute difference of two machine integers, exact in `u64`.
fn abs_diff_i64(a: i64, b: i64) -> (r: u64)
    ensures
        r == if a >= b { a - b } else { b - a },
{
    if a >= b {
        ((a as i128) - (b as i128)) as u64
    } else {
        ((b as i128) - (a as i128)) as u64
    }
}

impl StateVar {
    /// Extracts the value as an i64; `None` if this is not an `I64`.
    pub fn as_i64(&self) -> (r: Option<i64>)
        ensures
            match self@ {
                VarValue::Int(i) => r matches Some(v) && v == i,
                _ => r is None,
            },
    {
        match self {
            StateVar::I64(value) => Some(*value),
            _ => None,
        }
    }

    /// Extracts the value as an i32; `None` if this is not an `I64`
    /// or the value does not fit.
    pub fn as_i32(&self) -> (r: Option<i32>)
        ensures
            match self@ {
                VarValue::Int(i) => if i32::MIN <= i <= i32::MAX {
                    r matches Some(v) && v == i
                } else {
                    r is None
                },
                _ => r is None,
            },
    {
        match self {
            StateVar::I64(value) => if i32::MIN as i64 <= *value && *value <= i32::MAX as i64 {
                Some(*value as i32)
            } else {
                None
            },
            _ => None,
        }
    }

    /// Extracts the value as a bool; `None` if this is not a `Bool`.
    pub fn as_bool(&self) -> (r: Option<bool>)
        ensures
            match self@ {
                VarValue::Bool(b) => r matches Some(v) && v == b,
                _ => r is None,
            },
    {
        match self {
            StateVar::Bool(value) => Some(*value),
            _ => None,
        }
    }

    /// Extracts the value as a string slice; `None` if this is not text.
    pub fn as_string(&self) -> (r: Option<&str>)
        ensures
            match self@ {
                VarValue::Text(t) => r matches Some(v) && v@ == t,
                _ => r is None,
            },
    {
        match self {
            StateVar::String(value) => Some(value.as_str()),
            _ => None,
        }
    }

    /// Distance between two values of the same variant, used by the
    /// planner's heuristic: 0/1 for booleans and text, absolute
    /// difference for numeric values. A variant mismatch is reported
    /// as an error, never coerced.
    pub fn distance(&self, other: &StateVar) -> (r: Result<u64, StateError>)
        ensures
            vars_comparable(self@, other@) ==> (r matches Ok(d) && d == spec_distance(
                self@,
                other@,
            )),
            !vars_comparable(self@, other@) ==> (r matches Err(e) && e matches
                StateError::InvalidVarType { var, expected } && var@ == Seq::<char>::empty()
                && expected@ == "matching types for distance calculation"@),
    {
        match (self, other) {
            (StateVar::Bool(a), StateVar::Bool(b)) => Ok(if *a == *b { 0 } else { 1 }),
            (StateVar::I64(a), StateVar::I64(b)) => Ok(abs_diff_i64(*a, *b)),
            (StateVar::F64(a), StateVar::F64(b)) => Ok(abs_diff_i64(*a, *b)),
            (StateVar::String(a), StateVar::String(b)) => Ok(
                if *a == *b {
                    0
                } else {
                    1
                },
            ),
            _ => Err(
                StateError::InvalidVarType {
                    var: String::new(),
                    expected: "matching types for distance calculation",
                },
            ),
        }
    }
}

/// The mathematical value of an effect operation.
pub enum EffOp {
    Assign(VarValue),
    Add(int),
    Subtract(int),
}

/// Operations that action effects perform on state variables.
#[derive(Debug, PartialEq)]
pub enum StateOperation {
    /// Set a variable to a specific value.
    Assign(StateVar),
    /// Add to a numeric variable (integers and fixed-point decimals).
    Add(i64),
    /// Subtract from a numeric variable (integers and fixed-point decimals).
    Subtract(i64),
}

impl View for StateOperation {
    type V = EffOp;

    open spec fn view(&self) -> EffOp {
        match self {
            StateOperation::Assign(v) => EffOp::Assign(v@),
            StateOperation::Add(d) => EffOp::Add(*d as int),
            StateOperation::Subtract(d) => EffOp::Subtract(*d as int),
        }
    }
}

impl Clone for StateOperation {
    fn clone(&self) -> (r: Self)
        ensures
            r@ == self@,
    {
        match self {
            StateOperation::Assign(v) => StateOperation::Assign(v.clone()),
            StateOperation::Add(d) => StateOperation::Add(*d),
            StateOperation::Subtract(d) => StateOperation::Subtract(*d),
        }
    }
}

impl StateOperation {
    /// A Set operation carrying the given integer value.
    pub fn set_i64(value: i64) -> (r: Self)
        ensures
            r@ == EffOp::Assign(VarValue::Int(value as int)),
    {
        StateOperation::Assign(StateVar::I64(value))
    }

    /// An Add operation with the given integer amount.
    pub fn add_i64(value: i64) -> (r: Self)
        ensures
            r@ == EffOp::Add(value as int),
    {
        StateOperation::Add(value)
    }

    /// A Subtract operation with the given integer amount.
    pub fn subtract_i64(value: i64) -> (r: Self)
        ensures
            r@ == EffOp::Subtract(value as int),
    {
        StateOperation::Subtract(value)
    }
}

/// The keys of an association list are pairwise distinct (as character
/// sequences).
pub open spec fn keys_unique<V>(s: Seq<(String, V)>) -> bool {
    forall|i: int, j: int| 0 <= i < j < s.len() ==> s[i].0@ != s[j].0@
}

/// The finite map described by an association list; later entries win,
/// which is irrelevant once the keys are unique.
pub open spec fn entries_map<V: View>(s: Seq<(String, V)>) -> Map<Seq<char>, V::V>
    decreases s.len(),
{
    if s.len() == 0 {
        Map::empty()
    } else {
        entries_map(s.drop_last()).insert(s.last().0@, s.last().1@)
    }
}

/// A key is in the map exactly when some entry carries it.
pub proof fn lemma_entries_map_contains<V: View>(s: Seq<(String, V)>, k: Seq<char>)
    ensures
        entries_map(s).dom().contains(k) <==> exists|i: int| 0 <= i < s.len() && s[i].0@ == k,
    decreases s.len(),
{
    if s.len() > 0 {
        lemma_entries_map_contains(s.drop_last(), k);
        if entries_map(s).dom().contains(k) {
            if s.last().0@ == k {
                assert(s[s.len() - 1].0@ == k);
            } else {
                let i = choose|i: int| 0 <= i < s.drop_last().len() && s.drop_last()[i].0@ == k;
                assert(s[i].0@ == k);
            }
        }
        if exists|i: int| 0 <= i < s.len() && s[i].0@ == k {
            let i = choose|i: int| 0 <= i < s.len() && s[i].0@ == k;
            if i < s.len() - 1 {
                assert(s.drop_last()[i].0@ == k);
            }
        }
    }
}

/// With unique keys, the entry holding a key gives the map's value at it.
pub proof fn lemma_entries_map_index<V: View>(s: Seq<(String, V)>, i: int)
    requires
        keys_unique(s),
        0 <= i < s.len(),
    ensures
        entries_map(s).dom().contains(s[i].0@),
        entries_map(s)[s[i].0@] == s[i].1@,
    decreases s.len(),
{
    if i == s.len() - 1 {
    } else {
        assert(keys_unique(s.drop_last())) by {
            assert(forall|p: int, q: int|
                0 <= p < q < s.drop_last().len() ==> s.drop_last()[p].0@ == s[p].0@
                    && s.drop_last()[q].0@ == s[q].0@);
        }
        lemma_entries_map_index(s.drop_last(), i);
        assert(s[i].0@ != s.last().0@);
    }
}

/// Removing the entry at a unique key removes exactly that key from the map.
pub proof fn lemma_entries_map_remove<V: View>(s: Seq<(String, V)>, i: int)
    requires
        keys_unique(s),
        0 <= i < s.len(),
    ensures
        keys_unique(s.remove(i)),
        entries_map(s.remove(i)) =~= entries_map(s).remove(s[i].0@),
    decreases s.len(),
{
    assert(keys_unique(s.remove(i))) by {
        assert forall|p: int, q: int| 0 <= p < q < s.remove(i).len() implies s.remove(i)[p].0@
            != s.remove(i)[q].0@ by {
            let p0: int = if p < i { p } else { p + 1 };
            let q0: int = if q < i { q } else { q + 1 };
            assert(s.remove(i)[p] == s[p0]);
            assert(s.remove(i)[q] == s[q0]);
        }
    }
    if i == s.len() - 1 {
        assert(s.remove(i) =~= s.drop_last());
        lemma_entries_map_contains(s.drop_last(), s[i].0@);
        assert(!entries_map(s.drop_last()).dom().contains(s[i].0@));
    } else {
        assert(keys_unique(s.drop_last())) by {
            assert(forall|p: int, q: int|
                0 <= p < q < s.drop_last().len() ==> s.drop_last()[p].0@ == s[p].0@
                    && s.drop_last()[q].0@ == s[q].0@);
        }
        lemma_entries_map_remove(s.drop_last(), i);
        assert(s.remove(i) =~= s.drop_last().remove(i).push(s.last()));
        assert(s.remove(i).drop_last() =~= s.drop_last().remove(i));
        assert(entries_map(s.remove(i)) == entries_map(s.drop_last().remove(i)).insert(
            s.last().0@,
            s.last().1@,
        ));
        assert(s[i].0@ != s.last().0@);
    }
}

/// Appending an entry updates the map at its key.
pub proof fn lemma_entries_map_push<V: View>(s: Seq<(String, V)>, e: (String, V))
    ensures
        entries_map(s.push(e)) == entries_map(s).insert(e.0@, e.1@),
{
    assert(s.push(e).drop_last() =~= s);
    assert(s.push(e).last() == e);
}

/// A value reduced modulo the `i64` range, matching wrapping machine
/// arithmetic on sums and differences of two `i64` values.
pub open spec fn wrap_i64(x: int) -> int {
    if x > i64::MAX {
        x - 0x1_0000_0000_0000_0000
    } else if x < i64::MIN {
        x + 0x1_0000_0000_0000_0000
    } else {
        x
    }
}

/// The value an effect operation leaves at a variable that currently
/// holds `cur`: Assign replaces, Add/Subtract shift numeric values and
/// leave anything else untouched.
pub open spec fn apply_var_op(cur: VarValue, op: EffOp) -> VarValue {
    match op {
        EffOp::Assign(v) => v,
        EffOp::Add(d) => match cur {
            VarValue::Int(i) => VarValue::Int(wrap_i64(i + d)),
            VarValue::Dec(x) => VarValue::Dec(wrap_i64(x + d)),
            _ => cur,
        },
        EffOp::Subtract(d) => match cur {
            VarValue::Int(i) => VarValue::Int(wrap_i64(i - d)),
            VarValue::Dec(x) => VarValue::Dec(wrap_i64(x - d)),
            _ => cur,
        },
    }
}

/// The value an Assign operation writes; meaningful only for Assign.
pub open spec fn assigned_value(op: EffOp) -> VarValue
    recommends
        op is Assign,
{
    match op {
        EffOp::Assign(v) => v,
        _ => VarValue::Bool(false),
    }
}

/// The state that results from applying a map of effect operations:
/// Assign writes its value whether or not the variable exists; Add and
/// Subtract shift a present numeric variable and otherwise change
/// nothing, so an absent variable stays absent.
pub open spec fn apply_effects(
    state: Map<Seq<char>, VarValue>,
    effects: Map<Seq<char>, EffOp>,
) -> Map<Seq<char>, VarValue> {
    Map::new(
        |k: Seq<char>|
            state.dom().contains(k) || (effects.dom().contains(k) && effects[k] is Assign),
        |k: Seq<char>|
            if effects.dom().contains(k) {
                if state.dom().contains(k) {
                    apply_var_op(state[k], effects[k])
                } else {
                    assigned_value(effects[k])
                }
            } else {
                state[k]
            },
    )
}

/// Exact-threshold test of one variable against a requirement.
fn var_satisfies_exec(cur: &StateVar, req: &StateVar) -> (r: bool)
    ensures
        r == var_satisfies(cur@, req@),
{
    match (cur, req) {
        (StateVar::Bool(c), StateVar::Bool(r)) => *c == *r,
        (StateVar::I64(c), StateVar::I64(r)) => *c >= *r,
        (StateVar::F64(c), StateVar::F64(r)) => *c >= *r,
        (StateVar::String(c), StateVar::String(r)) => *c == *r,
        _ => false,
    }
}

/// The state of the world: a collection of named, typed variables.
/// Its mathematical model is a finite map from names to values; the
/// order in which variables were inserted is irrelevant to it.
#[derive(Debug)]
pub struct State {
    vars: Vec<(String, StateVar)>,
}

impl View for State {
    type V = Map<Seq<char>, VarValue>;

    closed spec fn view(&self) -> Map<Seq<char>, VarValue> {
        entries_map(self.vars@)
    }
}

impl State {
    #[verifier::type_invariant]
    spec fn wf(self) -> bool {
        keys_unique(self.vars@)
    }

    /// Creates a new builder for constructing a state with a fluent
    /// interface.
    pub fn new() -> (r: StateBuilder)
        ensures
            r@ == Map::<Seq<char>, VarValue>::empty(),
    {
        StateBuilder::new()
    }

    /// Creates an empty state with no variables.
    pub fn empty() -> (r: Self)
        ensures
            r@ == Map::<Seq<char>, VarValue>::empty(),
    {
        State { vars: Vec::new() }
    }

    /// The position of a key's entry, if any.
    fn find_index(&self, key: &str) -> (r: Option<usize>)
        ensures
            match r {
                Some(i) => i < self.vars@.len() && self.vars@[i as int].0@ == key@,
                None => !self@.dom().contains(key@),
            },
    {
        proof {
            use_type_invariant(self);
        }
        let wanted: String = key.to_owned();
        let mut i: usize = 0;
        while i < self.vars.len()
            invariant
                i <= self.vars@.len(),
                wanted@ == key@,
                forall|j: int| 0 <= j < i ==> self.vars@[j].0@ != key@,
            decreases self.vars@.len() - i,
        {
            if self.vars[i].0 == wanted {
                return Some(i);
            }
            i += 1;
        }
        proof {
            lemma_entries_map_contains(self.vars@, key@);
        }
        None
    }

    /// Reads the raw variable stored under a name, if any.
    pub fn get_raw(&self, key: &str) -> (r: Option<&StateVar>)
        ensures
            match r {
                Some(v) => self@.dom().contains(key@) && v@ == self@[key@],
                None => !self@.dom().contains(key@),
            },
    {
        proof {
            use_type_invariant(self);
        }
        match self.find_index(key) {
            Some(i) => {
                proof {
                    lemma_entries_map_index(self.vars@, i as int);
                }
                Some(&self.vars[i].1)
            },
            None => None,
        }
    }

    /// Type-checked read: `None` on absence or variant mismatch, never
    /// an error.
    pub fn get<T: TryFromStateVar>(&self, key: &str) -> (r: Option<T>)
        ensures
            r is Some <==> self@.dom().contains(key@) && T::can_take(self@[key@]),
            r matches Some(x) ==> T::takes(self@[key@], x),
    {
        match self.get_raw(key) {
            Some(var) => match T::try_from_state_var(var, key) {
                Ok(x) => Some(x),
                Err(_) => None,
            },
            None => None,
        }
    }
}

impl State {
    /// Inserts or overwrites a variable. Accepts any type convertible
    /// into a state variable.
    pub fn set<T: IntoStateVar>(&mut self, key: &str, value: T)
        ensures
            final(self)@ == old(self)@.insert(key@, value.var_view()),
    {
        proof {
            use_type_invariant(&*self);
        }
        let var = value.into_state_var();
        let idx = self.find_index(key);
        let mut vars: Vec<(String, StateVar)> = Vec::new();
        core::mem::swap(&mut vars, &mut self.vars);
        let ghost orig = vars@;
        match idx {
            Some(i) => {
                proof {
                    lemma_entries_map_remove(orig, i as int);
                }
                vars.remove(i);
                let entry = (key.to_owned(), var);
                proof {
                    lemma_entries_map_push(vars@, entry);
                    assert forall|p: int| 0 <= p < vars@.len() implies vars@[p].0@ != key@ by {
                        if p < i {
                            assert(vars@[p] == orig[p]);
                        } else {
                            assert(vars@[p] == orig[p + 1]);
                        }
                    }
                }
                vars.push(entry);
                proof {
                    assert(entries_map(vars@) =~= entries_map(orig).insert(key@, var@));
                }
            },
            None => {
                let entry = (key.to_owned(), var);
                proof {
                    lemma_entries_map_push(vars@, entry);
                    lemma_entries_map_contains(orig, key@);
                }
                vars.push(entry);
            },
        }
        self.vars = vars;
    }

    /// Whether this state meets every condition in `conditions`:
    /// booleans and text must match exactly, numeric variables must
    /// meet or exceed the required value, and a missing variable or a
    /// variant mismatch means the conditions are not satisfied.
    pub fn satisfies(&self, conditions: &State) -> (r: bool)
        ensures
            r == map_satisfies(self@, conditions@),
    {
        proof {
            use_type_invariant(self);
            use_type_invariant(conditions);
        }
        let mut i: usize = 0;
        while i < conditions.vars.len()
            invariant
                i <= conditions.vars@.len(),
                keys_unique(conditions.vars@),
                forall|j: int|
                    0 <= j < i ==> self@.dom().contains(#[trigger] conditions.vars@[j].0@)
                        && var_satisfies(
                        self@[conditions.vars@[j].0@],
                        conditions.vars@[j].1@,
                    ),
            decreases conditions.vars@.len() - i,
        {
            let pair = &conditions.vars[i];
            proof {
                lemma_entries_map_index(conditions.vars@, i as int);
            }
            match self.get_raw(pair.0.as_str()) {
                Some(cur) => {
                    if !var_satisfies_exec(cur, &pair.1) {
                        return false;
                    }
                },
                None => {
                    return false;
                },
            }
            i += 1;
        }
        proof {
            assert forall|k: Seq<char>| #[trigger]
                conditions@.dom().contains(k) implies self@.dom().contains(k) && var_satisfies(
                self@[k],
                conditions@[k],
            ) by {
                lemma_entries_map_contains(conditions.vars@, k);
                let j = choose|j: int| 0 <= j < conditions.vars@.len() && conditions.vars@[j].0@
                    == k;
                lemma_entries_map_index(conditions.vars@, j);
            }
        }
        true
    }

    /// Applies a map of effect operations to this state in place.
    /// Assign writes its value; Add and Subtract shift a present
    /// numeric variable (with wrapping machine arithmetic) and are a
    /// silent no-op on an absent or non-numeric target.
    pub fn apply(&mut self, changes: &Effects)
        ensures
            final(self)@ == apply_effects(old(self)@, changes@),
    {
        proof {
            use_type_invariant(changes);
        }
        let ghost orig = self@;
        let ghost eseq = changes.entries@;
        let mut i: usize = 0;
        while i < changes.entries.len()
            invariant
                i <= eseq.len(),
                eseq == changes.entries@,
                keys_unique(eseq),
                self@ == apply_effects(orig, entries_map(eseq.take(i as int))),
            decreases eseq.len() - i,
        {
            let pair = &changes.entries[i];
            let ghost pre = self@;
            let ghost k = pair.0@;
            proof {
                lemma_entries_map_contains(eseq.take(i as int), k);
                assert forall|j: int| 0 <= j < i implies eseq.take(i as int)[j].0@ != k by {
                    assert(eseq.take(i as int)[j] == eseq[j]);
                }
                assert(!entries_map(eseq.take(i as int)).dom().contains(k));
            }
            let to_set: Option<StateVar> = match &pair.1 {
                StateOperation::Assign(v) => Some(v.clone()),
                StateOperation::Add(d) => match self.get_raw(pair.0.as_str()) {
                    Some(StateVar::I64(c)) => Some(StateVar::I64(c.wrapping_add(*d))),
                    Some(StateVar::F64(c)) => Some(StateVar::F64(c.wrapping_add(*d))),
                    _ => None,
                },
                StateOperation::Subtract(d) => match self.get_raw(pair.0.as_str()) {
                    Some(StateVar::I64(c)) => Some(StateVar::I64(c.wrapping_sub(*d))),
                    Some(StateVar::F64(c)) => Some(StateVar::F64(c.wrapping_sub(*d))),
                    _ => None,
                },
            };
            match to_set {
                Some(nv) => self.set(pair.0.as_str(), nv),
                None => {},
            }
            proof {
                assert(eseq.take(i + 1 as int) =~= eseq.take(i as int).push(eseq[i as int]));
                lemma_entries_map_push(eseq.take(i as int), eseq[i as int]);
                assert(self@ =~= apply_effects(orig, entries_map(eseq.take(i + 1 as int))));
            }
            i += 1;
        }
        proof {
            assert(eseq.take(eseq.len() as int) =~= eseq);
        }
    }

    /// Merges another state into this one; on a shared name the other
    /// state's value wins.
    pub fn merge(&mut self, other: &State)
        ensures
            final(self)@ == old(self)@.union_prefer_right(other@),
    {
        proof {
            use_type_invariant(other);
        }
        let ghost orig = self@;
        let ghost oseq = other.vars@;
        let mut i: usize = 0;
        while i < other.vars.len()
            invariant
                i <= oseq.len(),
                oseq == other.vars@,
                keys_unique(oseq),
                self@ == orig.union_prefer_right(entries_map(oseq.take(i as int))),
            decreases oseq.len() - i,
        {
            let pair = &other.vars[i];
            self.set(pair.0.as_str(), pair.1.clone());
            proof {
                assert(oseq.take(i + 1 as int) =~= oseq.take(i as int).push(oseq[i as int]));
                lemma_entries_map_push(oseq.take(i as int), oseq[i as int]);
                assert(self@ =~= orig.union_prefer_right(entries_map(oseq.take(i + 1 as int))));
            }
            i += 1;
        }
        proof {
            assert(oseq.take(oseq.len() as int) =~= oseq);
        }
    }
}

impl State {
    /// The state's variables as a sequence of (name, value) models, in
    /// insertion order. The same names and values as `self@`, with an
    /// order for code that must walk them.
    pub closed spec fn entry_views(&self) -> Seq<(Seq<char>, VarValue)> {
        self.vars@.map_values(|p: (String, StateVar)| (p.0@, p.1@))
    }

    /// Read-only access to the variables in insertion order. The
    /// entries carry each name of `self@` exactly once, with its value.
    pub fn entries(&self) -> (r: &Vec<(String, StateVar)>)
        ensures
            r@.len() == self.entry_views().len(),
            forall|i: int|
                0 <= i < r@.len() ==> (#[trigger] r@[i]).0@ == self.entry_views()[i].0
                    && r@[i].1@ == self.entry_views()[i].1,
            forall|i: int|
                0 <= i < self.entry_views().len() ==> self@.dom().contains(
                    (#[trigger] self.entry_views()[i]).0,
                ) && self@[self.entry_views()[i].0] == self.entry_views()[i].1,
            forall|k: Seq<char>| #[trigger]
                self@.dom().contains(k) ==> exists|i: int|
                    0 <= i < self.entry_views().len() && self.entry_views()[i].0 == k,
            forall|i: int, j: int|
                0 <= i < j < self.entry_views().len() ==> (#[trigger] self.entry_views()[i]).0 != (
                #[trigger] self.entry_views()[j]).0,
    {
        proof {
            use_type_invariant(self);
            assert forall|i: int|
                0 <= i < self.entry_views().len() implies self@.dom().contains(
                (#[trigger] self.entry_views()[i]).0,
            ) && self@[self.entry_views()[i].0] == self.entry_views()[i].1 by {
                lemma_entries_map_index(self.vars@, i);
            }
            assert forall|k: Seq<char>| #[trigger] self@.dom().contains(k) implies exists|i: int|
                0 <= i < self.entry_views().len() && self.entry_views()[i].0 == k by {
                lemma_entries_map_contains(self.vars@, k);
                let j = choose|j: int| 0 <= j < self.vars@.len() && self.vars@[j].0@ == k;
                assert(self.entry_views()[j].0 == k);
            }
        }
        &self.vars
    }
}

impl Clone for State {
    /// Cloning preserves the state's model exactly.
    fn clone(&self) -> (r: Self)
        ensures
            r@ == self@,
    {
        proof {
            use_type_invariant(self);
        }
        let mut vars: Vec<(String, StateVar)> = Vec::new();
        let mut i: usize = 0;
        while i < self.vars.len()
            invariant
                i <= self.vars@.len(),
                vars@.len() == i,
                forall|j: int|
                    0 <= j < i ==> vars@[j].0@ == #[trigger] self.vars@[j].0@ && vars@[j].1@
                        == self.vars@[j].1@,
            decreases self.vars@.len() - i,
        {
            let pair = &self.vars[i];
            let ghost pre = vars@;
            let ck = pair.0.clone();
            let cv = pair.1.clone();
            vars.push((ck, cv));
            proof {
                assert(forall|j: int| 0 <= j < pre.len() ==> vars@[j] == pre[j]);
                assert(vars@[i as int].0@ == self.vars@[i as int].0@);
                assert(vars@[i as int].1@ == self.vars@[i as int].1@);
            }
            i += 1;
        }
        proof {
            lemma_entries_map_congruent(vars@, self.vars@);
        }
        State { vars }
    }
}

/// Two association lists whose entries have pairwise equal views
/// describe the same map.
proof fn lemma_entries_map_congruent<V: View>(a: Seq<(String, V)>, b: Seq<(String, V)>)
    requires
        a.len() == b.len(),
        forall|j: int| 0 <= j < a.len() ==> a[j].0@ == #[trigger] b[j].0@ && a[j].1@ == b[j].1@,
    ensures
        entries_map(a) == entries_map(b),
        keys_unique(b) ==> keys_unique(a),
    decreases a.len(),
{
    if a.len() > 0 {
        assert(forall|j: int|
            0 <= j < a.drop_last().len() ==> a.drop_last()[j].0@ == #[trigger] b.drop_last()[j].0@
                && a.drop_last()[j].1@ == b.drop_last()[j].1@);
        lemma_entries_map_congruent(a.drop_last(), b.drop_last());
    }
    if keys_unique(b) {
        assert forall|p: int, q: int| 0 <= p < q < a.len() implies a[p].0@ != a[q].0@ by {
            assert(a[p].0@ == b[p].0@);
            assert(a[q].0@ == b[q].0@);
        }
    }
}

impl PartialEq for State {
    /// Structural, order-independent equality: two states are equal
    /// exactly when they hold the same variables with equal values.
    fn eq(&self, other: &Self) -> (r: bool) {
        proof {
            use_type_invariant(self);
            use_type_invariant(other);
        }
        if self.vars.len() != other.vars.len() {
            proof {
                lemma_entries_map_dom_len(self.vars@);
                lemma_entries_map_dom_len(other.vars@);
                assert(self@ != other@) by {
                    if self@ == other@ {
                        assert(self@.dom().len() == other@.dom().len());
                    }
                }
            }
            return false;
        }
        let mut i: usize = 0;
        while i < self.vars.len()
            invariant
                i <= self.vars@.len(),
                keys_unique(self.vars@),
                keys_unique(other.vars@),
                self.vars@.len() == other.vars@.len(),
                forall|j: int|
                    0 <= j < i ==> other@.dom().contains(#[trigger] self.vars@[j].0@) && other@[
                        self.vars@[j].0@
                    ] == self.vars@[j].1@,
            decreases self.vars@.len() - i,
        {
            let pair = &self.vars[i];
            proof {
                lemma_entries_map_index(self.vars@, i as int);
            }
            match other.get_raw(pair.0.as_str()) {
                Some(v) => {
                    if !(*v == pair.1) {
                        proof {
                            assert(self@[pair.0@] == pair.1@);
                        }
                        return false;
                    }
                },
                None => {
                    proof {
                        assert(self@.dom().contains(pair.0@));
                    }
                    return false;
                },
            }
            i += 1;
        }
        proof {
            lemma_entries_map_dom_len(self.vars@);
            lemma_entries_map_dom_len(other.vars@);
            assert forall|k: Seq<char>| #[trigger]
                self@.dom().contains(k) implies other@.dom().contains(k) && other@[k] == self@[k] by {
                lemma_entries_map_contains(self.vars@, k);
                let j = choose|j: int| 0 <= j < self.vars@.len() && self.vars@[j].0@ == k;
                lemma_entries_map_index(self.vars@, j);
            }
            assert(self@.dom().subset_of(other@.dom()));
            vstd::set_lib::lemma_subset_equality(self@.dom(), other@.dom());
            assert(self@ =~= other@);
        }
        true
    }
}

impl vstd::std_specs::cmp::PartialEqSpecImpl for State {
    open spec fn obeys_eq_spec() -> bool {
        true
    }

    open spec fn eq_spec(&self, other: &Self) -> bool {
        self@ == other@
    }
}

/// With unique keys, an association list's map has exactly one key per
/// entry.
proof fn lemma_entries_map_dom_len<V: View>(s: Seq<(String, V)>)
    requires
        keys_unique(s),
    ensures
        entries_map(s).dom().finite(),
        entries_map(s).dom().len() == s.len(),
    decreases s.len(),
{
    if s.len() > 0 {
        assert(keys_unique(s.drop_last())) by {
            assert(forall|p: int, q: int|
                0 <= p < q < s.drop_last().len() ==> s.drop_last()[p].0@ == s[p].0@
                    && s.drop_last()[q].0@ == s[q].0@);
        }
        lemma_entries_map_dom_len(s.drop_last());
        lemma_entries_map_contains(s.drop_last(), s.last().0@);
        assert(!entries_map(s.drop_last()).dom().contains(s.last().0@));
        assert(entries_map(s).dom() =~= entries_map(s.drop_last()).dom().insert(s.last().0@));
    }
}

impl Default for State {
    /// The default state is empty.
    fn default() -> (r: Self)
        ensures
            r@ == Map::<Seq<char>, VarValue>::empty(),
    {
        State::empty()
    }
}

/// Builder for constructing states with a fluent interface; its model
/// is the map built so far.
#[derive(Debug)]
pub struct StateBuilder {
    state: State,
}

impl View for StateBuilder {
    type V = Map<Seq<char>, VarValue>;

    closed spec fn view(&self) -> Map<Seq<char>, VarValue> {
        self.state@
    }
}

impl StateBuilder {
    /// Creates a new empty builder.
    pub fn new() -> (r: Self)
        ensures
            r@ == Map::<Seq<char>, VarValue>::empty(),
    {
        StateBuilder { state: State::empty() }
    }

    /// Sets a variable; accepts any type convertible into a state
    /// variable.
    pub fn set<T: IntoStateVar>(self, key: &str, value: T) -> (r: Self)
        ensures
            r@ == self@.insert(key@, value.var_view()),
    {
        let mut b = self;
        b.state.set(key, value);
        b
    }

    /// Builds the final state.
    pub fn build(self) -> (r: State)
        ensures
            r@ == self@,
    {
        self.state
    }
}

impl Default for StateBuilder {
    /// The default builder is empty.
    fn default() -> (r: Self)
        ensures
            r@ == Map::<Seq<char>, VarValue>::empty(),
    {
        StateBuilder::new()
    }
}

/// A map of per-variable effect operations, applied by [`State::apply`].
/// Its model is a finite map from variable names to operations.
#[derive(Debug)]
pub struct Effects {
    entries: Vec<(String, StateOperation)>,
}

impl View for Effects {
    type V = Map<Seq<char>, EffOp>;

    closed spec fn view(&self) -> Map<Seq<char>, EffOp> {
        entries_map(self.entries@)
    }
}

impl Effects {
    #[verifier::type_invariant]
    spec fn wf(self) -> bool {
        keys_unique(self.entries@)
    }

    /// Creates an empty effect map.
    pub fn new() -> (r: Self)
        ensures
            r@ == Map::<Seq<char>, EffOp>::empty(),
    {
        Effects { entries: Vec::new() }
    }

    /// Inserts or overwrites the operation for a variable.
    pub fn insert(&mut self, key: &str, op: StateOperation)
        ensures
            final(self)@ == old(self)@.insert(key@, op@),
    {
        proof {
            use_type_invariant(&*self);
        }
        let idx = self.find_index(key);
        let mut entries: Vec<(String, StateOperation)> = Vec::new();
        core::mem::swap(&mut entries, &mut self.entries);
        let ghost orig = entries@;
        match idx {
            Some(i) => {
                proof {
                    lemma_entries_map_remove(orig, i as int);
                }
                entries.remove(i);
                let entry = (key.to_owned(), op);
                proof {
                    lemma_entries_map_push(entries@, entry);
                    assert forall|p: int| 0 <= p < entries@.len() implies entries@[p].0@
                        != key@ by {
                        if p < i {
                            assert(entries@[p] == orig[p]);
                        } else {
                            assert(entries@[p] == orig[p + 1]);
                        }
                    }
                }
                entries.push(entry);
                proof {
                    assert(entries_map(entries@) =~= entries_map(orig).insert(key@, op@));
                }
            },
            None => {
                let entry = (key.to_owned(), op);
                proof {
                    lemma_entries_map_push(entries@, entry);
                    lemma_entries_map_contains(orig, key@);
                }
                entries.push(entry);
            },
        }
        self.entries = entries;
    }

    /// The position of a key's entry, if any.
    fn find_index(&self, key: &str) -> (r: Option<usize>)
        ensures
            match r {
                Some(i) => i < self.entries@.len() && self.entries@[i as int].0@ == key@,
                None => !self@.dom().contains(key@),
            },
    {
        proof {
            use_type_invariant(self);
        }
        let wanted: String = key.to_owned();
        let mut i: usize = 0;
        while i < self.entries.len()
            invariant
                i <= self.entries@.len(),
                wanted@ == key@,
                forall|j: int| 0 <= j < i ==> self.entries@[j].0@ != key@,
            decreases self.entries@.len() - i,
        {
            if self.entries[i].0 == wanted {
                return Some(i);
            }
            i += 1;
        }
        proof {
            lemma_entries_map_contains(self.entries@, key@);
        }
        None
    }

    /// Reads the operation stored for a variable, if any.
    pub fn get(&self, key: &str) -> (r: Option<&StateOperation>)
        ensures
            match r {
                Some(op) => self@.dom().contains(key@) && op@ == self@[key@],
                None => !self@.dom().contains(key@),
            },
    {
        proof {
            use_type_invariant(self);
        }
        match self.find_index(key) {
            Some(i) => {
                proof {
                    lemma_entries_map_index(self.entries@, i as int);
                }
                Some(&self.entries[i].1)
            },
            None => None,
        }
    }

    /// The number of variables the effect map mentions.
    pub fn len(&self) -> (r: usize)
        ensures
            r == self@.dom().len(),
    {
        proof {
            use_type_invariant(self);
            lemma_entries_map_dom_len(self.entries@);
        }
        self.entries.len()
    }

    /// Whether the effect map mentions no variable.
    pub fn is_empty(&self) -> (r: bool)
        ensures
            r == (self@ == Map::<Seq<char>, EffOp>::empty()),
    {
        proof {
            use_type_invariant(self);
            lemma_entries_map_dom_len(self.entries@);
            if self.entries@.len() == 0 {
                assert(self@ =~= Map::<Seq<char>, EffOp>::empty());
            } else {
                assert(self@.dom().len() != 0);
                if self@ == Map::<Seq<char>, EffOp>::empty() {
                    assert(self@.dom().len() == 0);
                }
            }
        }
        self.entries.len() == 0
    }
}

impl Clone for Effects {
    /// Cloning preserves the effect map's model exactly.
    fn clone(&self) -> (r: Self)
        ensures
            r@ == self@,
    {
        proof {
            use_type_invariant(self);
        }
        let mut entries: Vec<(String, StateOperation)> = Vec::new();
        let mut i: usize = 0;
        while i < self.entries.len()
            invariant
                i <= self.entries@.len(),
                entries@.len() == i,
                forall|j: int|
                    0 <= j < i ==> entries@[j].0@ == #[trigger] self.entries@[j].0@
                        && entries@[j].1@ == self.entries@[j].1@,
            decreases self.entries@.len() - i,
        {
            let pair = &self.entries[i];
            let ghost pre = entries@;
            let ck = pair.0.clone();
            let cv = pair.1.clone();
            entries.push((ck, cv));
            proof {
                assert(forall|j: int| 0 <= j < pre.len() ==> entries@[j] == pre[j]);
                assert(entries@[i as int].0@ == self.entries@[i as int].0@);
                assert(entries@[i as int].1@ == self.entries@[i as int].1@);
            }
            i += 1;
        }
        proof {
            lemma_entries_map_congruent(entries@, self.entries@);
        }
        Effects { entries }
    }
}


/// Trait for types a state variable can be converted from.
pub trait IntoStateVar: Sized {
    /// The model of the variable this value converts into.
    spec fn var_view(self) -> VarValue;

    /// Converts this value into a state variable.
    fn into_state_var(self) -> (r: StateVar)
        ensures
            r@ == self.var_view(),
    ;
}

/// Trait for types that can be extracted from a state variable, with a
/// typed error on a variant mismatch.
pub trait TryFromStateVar: Sized {
    /// Whether a variable with this model holds a value of this type.
    spec fn can_take(v: VarValue) -> bool;

    /// Relates a variable's model to the value extracted from it.
    spec fn takes(v: VarValue, r: Self) -> bool;

    /// Attempts to extract a value of this type from a state variable.
    fn try_from_state_var(var: &StateVar, key: &str) -> (r: Result<Self, StateError>)
        ensures
            r is Ok <==> Self::can_take(var@),
            r matches Ok(x) ==> Self::takes(var@, x),
            r matches Err(e) ==> e matches StateError::InvalidVarType { var: v, expected } && v@
                == key@,
    ;
}

impl IntoStateVar for bool {
    open spec fn var_view(self) -> VarValue {
        VarValue::Bool(self)
    }

    fn into_state_var(self) -> (r: StateVar) {
        StateVar::Bool(self)
    }
}

impl IntoStateVar for i64 {
    open spec fn var_view(self) -> VarValue {
        VarValue::Int(self as int)
    }

    fn into_state_var(self) -> (r: StateVar) {
        StateVar::I64(self)
    }
}

impl IntoStateVar for i32 {
    open spec fn var_view(self) -> VarValue {
        VarValue::Int(self as int)
    }

    fn into_state_var(self) -> (r: StateVar) {
        StateVar::I64(self as i64)
    }
}

impl IntoStateVar for i16 {
    open spec fn var_view(self) -> VarValue {
        VarValue::Int(self as int)
    }

    fn into_state_var(self) -> (r: StateVar) {
        StateVar::I64(self as i64)
    }
}

impl IntoStateVar for i8 {
    open spec fn var_view(self) -> VarValue {
        VarValue::Int(self as int)
    }

    fn into_state_var(self) -> (r: StateVar) {
        StateVar::I64(self as i64)
    }
}

impl IntoStateVar for String {
    open spec fn var_view(self) -> VarValue {
        VarValue::Text(self@)
    }

    fn into_state_var(self) -> (r: StateVar) {
        StateVar::String(self)
    }
}

impl<'a> IntoStateVar for &'a str {
    open spec fn var_view(self) -> VarValue {
        VarValue::Text(self@)
    }

    fn into_state_var(self) -> (r: StateVar) {
        StateVar::String(self.to_owned())
    }
}

impl IntoStateVar for StateVar {
    open spec fn var_view(self) -> VarValue {
        self@
    }

    fn into_state_var(self) -> (r: StateVar) {
        self
    }
}

impl TryFromStateVar for i64 {
    open spec fn can_take(v: VarValue) -> bool {
        v is Int
    }

    open spec fn takes(v: VarValue, r: Self) -> bool {
        v matches VarValue::Int(i) && r == i
    }

    fn try_from_state_var(var: &StateVar, key: &str) -> (r: Result<Self, StateError>) {
        match var.as_i64() {
            Some(v) => Ok(v),
            None => Err(StateError::InvalidVarType { var: key.to_owned(), expected: "i64" }),
        }
    }
}

impl TryFromStateVar for i32 {
    open spec fn can_take(v: VarValue) -> bool {
        v matches VarValue::Int(i) && i32::MIN <= i <= i32::MAX
    }

    open spec fn takes(v: VarValue, r: Self) -> bool {
        v matches VarValue::Int(i) && r == i
    }

    fn try_from_state_var(var: &StateVar, key: &str) -> (r: Result<Self, StateError>) {
        match var.as_i32() {
            Some(v) => Ok(v),
            None => Err(StateError::InvalidVarType { var: key.to_owned(), expected: "i32" }),
        }
    }
}

impl TryFromStateVar for bool {
    open spec fn can_take(v: VarValue) -> bool {
        v is Bool
    }

    open spec fn takes(v: VarValue, r: Self) -> bool {
        v matches VarValue::Bool(b) && r == b
    }

    fn try_from_state_var(var: &StateVar, key: &str) -> (r: Result<Self, StateError>) {
        match var.as_bool() {
            Some(v) => Ok(v),
            None => Err(StateError::InvalidVarType { var: key.to_owned(), expected: "bool" }),
        }
    }
}

impl TryFromStateVar for String {
    open spec fn can_take(v: VarValue) -> bool {
        v is Text
    }

    open spec fn takes(v: VarValue, r: Self) -> bool {
        v matches VarValue::Text(t) && r@ == t
    }

    fn try_from_state_var(var: &StateVar, key: &str) -> (r: Result<Self, StateError>) {
        match var {
            StateVar::String(s) => Ok(s.clone()),
            _ => Err(StateError::InvalidVarType { var: key.to_owned(), expected: "string" }),
        }
    }
}

impl From<bool> for StateVar {
    fn from(value: bool) -> (r: Self) {
        StateVar::Bool(value)
    }
}

impl vstd::std_specs::convert::FromSpecImpl<bool> for StateVar {
    open spec fn obeys_from_spec() -> bool {
        true
    }

    open spec fn from_spec(value: bool) -> Self {
        StateVar::Bool(value)
    }
}

impl From<i64> for StateVar {
    fn from(value: i64) -> (r: Self) {
        StateVar::I64(value)
    }
}

impl vstd::std_specs::convert::FromSpecImpl<i64> for StateVar {
    open spec fn obeys_from_spec() -> bool {
        true
    }

    open spec fn from_spec(value: i64) -> Self {
        StateVar::I64(value)
    }
}

impl From<i32> for StateVar {
    fn from(value: i32) -> (r: Self) {
        StateVar::I64(value as i64)
    }
}

impl vstd::std_specs::convert::FromSpecImpl<i32> for StateVar {
    open spec fn obeys_from_spec() -> bool {
        true
    }

    open spec fn from_spec(value: i32) -> Self {
        StateVar::I64(value as i64)
    }
}

impl From<i16> for StateVar {
    fn from(value: i16) -> (r: Self) {
        StateVar::I64(value as i64)
    }
}

impl vstd::std_specs::convert::FromSpecImpl<i16> for StateVar {
    open spec fn obeys_from_spec() -> bool {
        true
    }

    open spec fn from_spec(value: i16) -> Self {
        StateVar::I64(value as i64)
    }
}

impl From<i8> for StateVar {
    fn from(value: i8) -> (r: Self) {
        StateVar::I64(value as i64)
    }
}

impl vstd::std_specs::convert::FromSpecImpl<i8> for StateVar {
    open spec fn obeys_from_spec() -> bool {
        true
    }

    open spec fn from_spec(value: i8) -> Self {
        StateVar::I64(value as i64)
    }
}

impl From<String> for StateVar {
    fn from(value: String) -> (r: Self) {
        StateVar::String(value)
    }
}

impl vstd::std_specs::convert::FromSpecImpl<String> for StateVar {
    open spec fn obeys_from_spec() -> bool {
        true
    }

    open spec fn from_spec(value: String) -> Self {
        StateVar::String(value)
    }
}

impl<'a> From<&'a str> for StateVar {
    fn from(value: &'a str) -> (r: Self)
        ensures
            r@ == VarValue::Text(value@),
    {
        StateVar::String(value.to_owned())
    }
}

impl<'a> vstd::std_specs::convert::FromSpecImpl<&'a str> for StateVar {
    open spec fn obeys_from_spec() -> bool {
        false
    }

    open spec fn from_spec(value: &'a str) -> Self {
        arbitrary()
    }
}

/// Marker trait for closed enumerations stored as text in the state.
/// An implementation names each variant; the value enters a state as
/// `StateVar::String` of that name.
pub trait EnumStateVar {
    /// The text this enumeration value is stored as.
    fn state_name(&self) -> String;
}

} // verus!
