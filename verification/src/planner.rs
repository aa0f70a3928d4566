//! The A*-based planner: searches for the cheapest action sequence
//! that turns an initial state into one satisfying a goal.
//!
//! World states are the search nodes; an action applicable in a state
//! is an edge to the state its effects produce. Every plan the search
//! returns is proved executable: each action's preconditions hold in
//! the state it runs in, the final state satisfies the goal, and the
//! reported cost is the (saturating) sum of the actions' costs.

use vstd::prelude::*;
use vstd::string::StringExecFns;

use crate::actions::Action;
use crate::goals::Goal;
use crate::state::{
    apply_effects, lemma_threshold_satisfaction, map_satisfies, spec_distance, vars_comparable,
    State, VarValue,
};

verus! {

/// Errors that can occur during planning.
#[derive(Debug, PartialEq, Eq)]
pub enum PlannerError {
    /// No valid sequence of actions could be found to achieve the goal.
    NoPlanFound,
    /// Two variables sharing a name but differing in type were compared
    /// while evaluating the heuristic; this signals a modelling error
    /// in the caller's data, not an unreachable goal.
    IncompatibleStateTypes(String),
    /// The search spent its step budget before reaching the goal or
    /// exhausting the reachable states; a larger budget may still find
    /// a plan.
    SearchLimitReached,
}

/// A plan: the sequence of actions to perform, in order, and the total
/// cost of executing them (fixed-point, scaled by 1000, like action
/// costs).
#[derive(Debug)]
pub struct Plan {
    /// The actions to perform, in order.
    pub actions: Vec<Action>,
    /// The total cost of the plan: the sum of its actions' costs.
    pub cost: u64,
}

/// Saturating sum of two cost values.
pub open spec fn sat_add(a: u64, b: u64) -> u64 {
    if a + b > u64::MAX {
        u64::MAX
    } else {
        (a + b) as u64
    }
}

/// The cost of an action sequence: the saturating sum of the costs.
pub open spec fn plan_cost(acts: Seq<Action>) -> u64
    decreases acts.len(),
{
    if acts.len() == 0 {
        0
    } else {
        sat_add(plan_cost(acts.drop_last()), acts.last()@.cost)
    }
}

/// The exact (unbounded) cost of an action sequence.
pub open spec fn exact_cost(acts: Seq<Action>) -> int
    decreases acts.len(),
{
    if acts.len() == 0 {
        0
    } else {
        exact_cost(acts.drop_last()) + acts.last()@.cost
    }
}

/// The state an action sequence produces when run from `s`.
pub open spec fn run_plan(s: Map<Seq<char>, VarValue>, acts: Seq<Action>) -> Map<
    Seq<char>,
    VarValue,
>
    decreases acts.len(),
{
    if acts.len() == 0 {
        s
    } else {
        apply_effects(run_plan(s, acts.drop_last()), acts.last()@.effects)
    }
}

/// Whether an action sequence is executable from `s`: each action's
/// preconditions hold in the state produced by the actions before it.
pub open spec fn plan_executable(s: Map<Seq<char>, VarValue>, acts: Seq<Action>) -> bool
    decreases acts.len(),
{
    acts.len() == 0 || (plan_executable(s, acts.drop_last()) && map_satisfies(
        run_plan(s, acts.drop_last()),
        acts.last()@.preconditions,
    ))
}

/// Every action of `acts` is (by model) one of `source`.
pub open spec fn actions_from(acts: Seq<Action>, source: Seq<Action>) -> bool {
    forall|i: int|
        0 <= i < acts.len() ==> exists|j: int|
            0 <= j < source.len() && (#[trigger] acts[i])@ == source[j]@
}

/// A goal-state pair has a type mismatch when some variable the goal
/// mentions is present in the state with a different variant.
pub open spec fn has_mismatch(
    state: Map<Seq<char>, VarValue>,
    goal: Map<Seq<char>, VarValue>,
) -> bool {
    exists|k: Seq<char>|
        #[trigger] goal.dom().contains(k) && state.dom().contains(k) && !vars_comparable(
            state[k],
            goal[k],
        )
}

/// The heuristic's contribution of one goal requirement: a fixed
/// penalty of 1 for a missing variable, else the distance to the
/// requirement. Meaningful only when there is no variant mismatch.
pub open spec fn item_h(state: Map<Seq<char>, VarValue>, key: Seq<char>, req: VarValue) -> u64 {
    if !state.dom().contains(key) {
        1
    } else if vars_comparable(state[key], req) {
        spec_distance(state[key], req) as u64
    } else {
        0
    }
}

/// The heuristic value of a state against a goal's requirements: the
/// saturating sum of the per-requirement contributions.
pub open spec fn h_of(state: Map<Seq<char>, VarValue>, items: Seq<(Seq<char>, VarValue)>) -> u64
    decreases items.len(),
{
    if items.len() == 0 {
        0
    } else {
        sat_add(h_of(state, items.drop_last()), item_h(state, items.last().0, items.last().1))
    }
}

/// An action sequence's exact cost is never negative.
pub proof fn lemma_exact_cost_nonneg(acts: Seq<Action>)
    ensures
        exact_cost(acts) >= 0,
    decreases acts.len(),
{
    if acts.len() > 0 {
        lemma_exact_cost_nonneg(acts.drop_last());
    }
}

/// The cost law: a plan's cost is the sum of its actions' costs.
/// [`Planner::plan`] ensures the returned cost equals `plan_cost`,
/// whose saturating additions coincide with the exact sum whenever
/// that sum fits the cost type.
pub proof fn lemma_plan_cost_exact(acts: Seq<Action>)
    requires
        exact_cost(acts) <= u64::MAX,
    ensures
        plan_cost(acts) == exact_cost(acts),
    decreases acts.len(),
{
    if acts.len() > 0 {
        lemma_exact_cost_nonneg(acts.drop_last());
        lemma_plan_cost_exact(acts.drop_last());
    }
}

/// A planner that uses A* search to find cheap sequences of actions.
/// It is stateless: each call to [`Planner::plan`] is a pure function
/// of its inputs, so a planner can be reused freely.
#[derive(Debug)]
pub struct Planner {}

impl Default for Planner {
    /// The default planner.
    fn default() -> (r: Self) {
        Planner {}
    }
}

/// The actions of a list that are applicable in a state, in the
/// list's own order.
spec fn applicable_actions(state: Map<Seq<char>, VarValue>, source: Seq<Action>) -> Seq<Action>
    decreases source.len(),
{
    if source.len() == 0 {
        Seq::empty()
    } else {
        let rest = applicable_actions(state, source.drop_last());
        if map_satisfies(state, source.last()@.preconditions) {
            rest.push(source.last())
        } else {
            rest
        }
    }
}

/// One search node's bookkeeping: the state reached, the cost of the
/// best known action sequence reaching it, and that sequence itself.
struct Record {
    state: State,
    g: u64,
    path: Vec<Action>,
}

/// A record's path really leads from the initial state to its state,
/// at its cost, using only the given actions.
spec fn valid_record(r: Record, initial: Map<Seq<char>, VarValue>, source: Seq<Action>) -> bool {
    &&& plan_executable(initial, r.path@)
    &&& run_plan(initial, r.path@) == r.state@
    &&& r.g == plan_cost(r.path@)
    &&& actions_from(r.path@, source)
}

/// The search's bookkeeping invariant: one record per state, all
/// records valid, and the initial state's record first with an empty
/// path.
spec fn records_ok(
    records: Seq<Record>,
    initial: Map<Seq<char>, VarValue>,
    source: Seq<Action>,
) -> bool {
    &&& records.len() >= 1
    &&& records[0].state@ == initial
    &&& records[0].g == 0
    &&& records[0].path@.len() == 0
    &&& forall|i: int| 0 <= i < records.len() ==> valid_record(#[trigger] records[i], initial, source)
    &&& forall|i: int, j: int|
        0 <= i < j < records.len() ==> (#[trigger] records[i]).state@ != (
        #[trigger] records[j]).state@
}

/// A heuristic value brought to the fixed-point cost scale: distances
/// count whole units while costs are scaled by 1000, so an f-score sums
/// comparable quantities.
fn scale_to_cost(h: u64) -> (r: u64)
    ensures
        r == if h * 1000 > u64::MAX { u64::MAX } else { (h * 1000) as u64 },
{
    if h > u64::MAX / 1000 {
        u64::MAX
    } else {
        h * 1000
    }
}

/// A state some search record holds.
spec fn recorded(records: Seq<Record>, s: Map<Seq<char>, VarValue>) -> bool {
    exists|i: int| 0 <= i < records.len() && records[i].state@ == s
}

/// A state some open node holds.
spec fn in_open(open: Seq<NodeWrapper>, s: Map<Seq<char>, VarValue>) -> bool {
    exists|i: int| 0 <= i < open.len() && open[i].node@ == s
}

/// Every action applicable in `s` has its successor state recorded.
spec fn expanded(records: Seq<Record>, s: Map<Seq<char>, VarValue>, source: Seq<Action>) -> bool {
    forall|j: int|
        0 <= j < source.len() && map_satisfies(s, (#[trigger] source[j])@.preconditions)
            ==> recorded(records, apply_effects(s, source[j]@.effects))
}

/// The search is closed up to the open list: every discovered state
/// either still waits in the open list, or has been expanded and does
/// not satisfy the goal.
spec fn search_closed(
    records: Seq<Record>,
    open: Seq<NodeWrapper>,
    source: Seq<Action>,
    goal_map: Map<Seq<char>, VarValue>,
) -> bool {
    forall|i: int|
        0 <= i < records.len() ==> in_open(open, (#[trigger] records[i]).state@) || (expanded(
            records,
            records[i].state@,
            source,
        ) && !map_satisfies(records[i].state@, goal_map))
}

/// Like [`search_closed`], but the state currently being expanded is
/// excused: it has left the open list and its successors are still
/// being recorded.
spec fn search_closed_except(
    records: Seq<Record>,
    open: Seq<NodeWrapper>,
    source: Seq<Action>,
    goal_map: Map<Seq<char>, VarValue>,
    except: Map<Seq<char>, VarValue>,
) -> bool {
    forall|i: int|
        0 <= i < records.len() ==> (#[trigger] records[i]).state@ == except || in_open(
            open,
            records[i].state@,
        ) || (expanded(records, records[i].state@, source) && !map_satisfies(
            records[i].state@,
            goal_map,
        ))
}

/// Every open node's state has a record.
spec fn open_recorded(records: Seq<Record>, open: Seq<NodeWrapper>) -> bool {
    forall|i: int| 0 <= i < open.len() ==> recorded(records, (#[trigger] open[i]).node@)
}

/// When every recorded state is expanded, the records are closed under
/// running executable action sequences: any sequence drawn from the
/// source list ends in a recorded state.
proof fn lemma_exhausted_reaches(
    records: Seq<Record>,
    initial: Map<Seq<char>, VarValue>,
    source: Seq<Action>,
    acts: Seq<Action>,
)
    requires
        recorded(records, initial),
        forall|i: int|
            0 <= i < records.len() ==> expanded(records, (#[trigger] records[i]).state@, source),
        plan_executable(initial, acts),
        actions_from(acts, source),
    ensures
        recorded(records, run_plan(initial, acts)),
    decreases acts.len(),
{
    if acts.len() > 0 {
        assert forall|i: int| 0 <= i < acts.drop_last().len() implies exists|j: int|
            0 <= j < source.len() && (#[trigger] acts.drop_last()[i])@ == source[j]@ by {
            assert(acts.drop_last()[i] == acts[i]);
            let j = choose|j: int| 0 <= j < source.len() && acts[i]@ == source[j]@;
            assert(acts.drop_last()[i]@ == source[j]@);
        }
        lemma_exhausted_reaches(records, initial, source, acts.drop_last());
        let prev = run_plan(initial, acts.drop_last());
        let ri = choose|i: int| 0 <= i < records.len() && records[i].state@ == prev;
        assert(acts[acts.len() - 1] == acts.last());
        let j = choose|j: int| 0 <= j < source.len() && acts[acts.len() - 1]@ == source[j]@;
        assert(map_satisfies(prev, acts.last()@.preconditions));
        assert(map_satisfies(prev, source[j]@.preconditions));
        assert(expanded(records, records[ri].state@, source));
        assert(recorded(records, apply_effects(prev, source[j]@.effects)));
        assert(run_plan(initial, acts) == apply_effects(prev, acts.last()@.effects));
    }
}

/// A state reachable from `initial` by an executable sequence of
/// actions drawn from `source`.
pub open spec fn reachable_state(
    initial: Map<Seq<char>, VarValue>,
    source: Seq<Action>,
    s: Map<Seq<char>, VarValue>,
) -> bool {
    exists|acts: Seq<Action>|
        #[trigger] plan_executable(initial, acts) && actions_from(acts, source) && run_plan(
            initial,
            acts,
        ) == s
}

/// `m` is the heuristic's error message for some variable the goal
/// mentions that is present in `state` with a mismatched variant.
pub open spec fn state_mismatch_message(
    state: Map<Seq<char>, VarValue>,
    goal_map: Map<Seq<char>, VarValue>,
    m: Seq<char>,
) -> bool {
    exists|k: Seq<char>|
        #[trigger] goal_map.dom().contains(k) && state.dom().contains(k) && !vars_comparable(
            state[k],
            goal_map[k],
        ) && m == "Cannot calculate distance for variable '"@ + k + "' due to type mismatch"@
}

/// Some reachable state has a variant mismatch with the goal, and `m`
/// is the heuristic's message naming one mismatched variable of it.
pub open spec fn mismatch_reached(
    initial: Map<Seq<char>, VarValue>,
    source: Seq<Action>,
    goal_map: Map<Seq<char>, VarValue>,
    m: Seq<char>,
) -> bool {
    exists|acts: Seq<Action>|
        #[trigger] plan_executable(initial, acts) && actions_from(acts, source)
            && state_mismatch_message(run_plan(initial, acts), goal_map, m)
}

/// The sum of the recorded best-known costs; only its strict decrease
/// matters, as part of the search's termination measure.
#[verifier::opaque]
spec fn g_total(records: Seq<Record>) -> int
    decreases records.len(),
{
    if records.len() == 0 {
        0
    } else {
        g_total(records.drop_last()) + records.last().g
    }
}

/// The recorded cost sum is never negative.
proof fn lemma_g_total_nonneg(records: Seq<Record>)
    ensures
        g_total(records) >= 0,
    decreases records.len(),
{
    reveal(g_total);
    if records.len() > 0 {
        lemma_g_total_nonneg(records.drop_last());
    }
}

/// Replacing one record changes the cost sum by exactly the change at
/// that record.
proof fn lemma_g_total_update(records: Seq<Record>, ni: int, r: Record)
    requires
        0 <= ni < records.len(),
    ensures
        g_total(records.update(ni, r)) == g_total(records) - records[ni].g + r.g,
    decreases records.len(),
{
    reveal(g_total);
    if ni == records.len() - 1 {
        assert(records.update(ni, r).drop_last() =~= records.drop_last());
        assert(records.update(ni, r).last() == r);
    } else {
        assert(records.update(ni, r).drop_last() =~= records.drop_last().update(ni, r));
        assert(records.update(ni, r).last() == records.last());
        lemma_g_total_update(records.drop_last(), ni, r);
    }
}

/// Appending a record adds its cost to the sum.
proof fn lemma_g_total_push(records: Seq<Record>, r: Record)
    ensures
        g_total(records.push(r)) == g_total(records) + r.g,
{
    reveal(g_total);
    assert(records.push(r).drop_last() =~= records);
    assert(records.push(r).last() == r);
}

/// The set of states the records hold.
spec fn record_states(records: Seq<Record>) -> Set<Map<Seq<char>, VarValue>>
    decreases records.len(),
{
    if records.len() == 0 {
        Set::empty()
    } else {
        record_states(records.drop_last()).insert(records.last().state@)
    }
}

/// A state is in the record-state set exactly when some record holds it.
proof fn lemma_record_states_contains(records: Seq<Record>, s: Map<Seq<char>, VarValue>)
    ensures
        record_states(records).contains(s) <==> recorded(records, s),
    decreases records.len(),
{
    if records.len() > 0 {
        lemma_record_states_contains(records.drop_last(), s);
        if record_states(records).contains(s) {
            if records.last().state@ == s {
                assert(records[records.len() - 1].state@ == s);
            } else {
                let i = choose|i: int|
                    0 <= i < records.drop_last().len() && records.drop_last()[i].state@ == s;
                assert(records[i].state@ == s);
            }
        }
        if recorded(records, s) {
            let i = choose|i: int| 0 <= i < records.len() && records[i].state@ == s;
            if i < records.len() - 1 {
                assert(records.drop_last()[i].state@ == s);
                assert(recorded(records.drop_last(), s));
            }
        }
    }
}

/// With pairwise distinct states, the record-state set is finite with
/// one state per record.
proof fn lemma_record_states_len(records: Seq<Record>)
    requires
        forall|i: int, j: int|
            0 <= i < j < records.len() ==> (#[trigger] records[i]).state@ != (
            #[trigger] records[j]).state@,
    ensures
        record_states(records).finite(),
        record_states(records).len() == records.len(),
    decreases records.len(),
{
    if records.len() > 0 {
        lemma_record_states_len(records.drop_last());
        lemma_record_states_contains(records.drop_last(), records.last().state@);
        assert(!recorded(records.drop_last(), records.last().state@)) by {
            if recorded(records.drop_last(), records.last().state@) {
                let i = choose|i: int|
                    0 <= i < records.drop_last().len() && records.drop_last()[i].state@
                        == records.last().state@;
                assert(records[i].state@ == records[records.len() - 1].state@);
            }
        }
        assert(!record_states(records.drop_last()).contains(records.last().state@));
    }
}

/// Removing one open node keeps all other discovered states covered:
/// the open list still records everything, and the closure only loses
/// the popped state.
proof fn lemma_pop_preserves(
    records: Seq<Record>,
    o_pre: Seq<NodeWrapper>,
    o_post: Seq<NodeWrapper>,
    pi: int,
    source: Seq<Action>,
    goal_map: Map<Seq<char>, VarValue>,
)
    requires
        0 <= pi < o_pre.len(),
        o_post == o_pre.remove(pi),
        open_recorded(records, o_pre),
        search_closed(records, o_pre, source, goal_map),
    ensures
        open_recorded(records, o_post),
        search_closed_except(records, o_post, source, goal_map, o_pre[pi].node@),
{
    assert forall|i: int| 0 <= i < o_post.len() implies recorded(
        records,
        (#[trigger] o_post[i]).node@,
    ) by {
        if i < pi {
            assert(o_post[i] == o_pre[i]);
            assert(recorded(records, o_pre[i].node@));
        } else {
            assert(o_post[i] == o_pre[i + 1]);
            assert(recorded(records, o_pre[i + 1].node@));
        }
    }
    assert forall|i: int| 0 <= i < records.len() implies ((#[trigger] records[i]).state@
        == o_pre[pi].node@ || in_open(o_post, records[i].state@) || (expanded(
        records,
        records[i].state@,
        source,
    ) && !map_satisfies(records[i].state@, goal_map))) by {
        if records[i].state@ != o_pre[pi].node@ && in_open(o_pre, records[i].state@) {
            let k = choose|k: int| 0 <= k < o_pre.len() && o_pre[k].node@ == records[i].state@;
            if k < pi {
                assert(o_post[k] == o_pre[k]);
            } else {
                assert(k != pi);
                assert(o_post[k - 1] == o_pre[k]);
            }
            assert(in_open(o_post, records[i].state@));
        }
    }
}

/// Replacing a record by one for the same state, while pushing that
/// state onto the open list, keeps every bookkeeping fact: records
/// grow (as a set of states), the open list stays recorded, and the
/// closure is preserved.
proof fn lemma_update_step(
    old_records: Seq<Record>,
    new_records: Seq<Record>,
    o_mid: Seq<NodeWrapper>,
    new_open: Seq<NodeWrapper>,
    ni: int,
    nw: NodeWrapper,
    source: Seq<Action>,
    goal_map: Map<Seq<char>, VarValue>,
    except: Map<Seq<char>, VarValue>,
)
    requires
        0 <= ni < old_records.len(),
        new_records == old_records.update(ni, new_records[ni]),
        new_records[ni].state@ == old_records[ni].state@,
        new_open == o_mid.push(nw),
        nw.node@ == old_records[ni].state@,
        open_recorded(old_records, o_mid),
        search_closed_except(old_records, o_mid, source, goal_map, except),
    ensures
        forall|s: Map<Seq<char>, VarValue>| #[trigger]
            recorded(old_records, s) ==> recorded(new_records, s),
        recorded(new_records, old_records[ni].state@),
        open_recorded(new_records, new_open),
        search_closed_except(new_records, new_open, source, goal_map, except),
{
    assert forall|s: Map<Seq<char>, VarValue>| #[trigger] recorded(old_records, s) implies recorded(
        new_records,
        s,
    ) by {
        let w = choose|w: int| 0 <= w < old_records.len() && old_records[w].state@ == s;
        assert(new_records[w].state@ == s);
    }
    assert(new_records[ni].state@ == old_records[ni].state@);
    assert(recorded(new_records, old_records[ni].state@));
    assert forall|i: int| 0 <= i < new_open.len() implies recorded(
        new_records,
        (#[trigger] new_open[i]).node@,
    ) by {
        if i < o_mid.len() {
            assert(new_open[i] == o_mid[i]);
            assert(recorded(old_records, o_mid[i].node@));
        } else {
            assert(new_open[i] == nw);
        }
    }
    assert forall|i: int| 0 <= i < new_records.len() implies ((#[trigger] new_records[i]).state@
        == except || in_open(new_open, new_records[i].state@) || (expanded(
        new_records,
        new_records[i].state@,
        source,
    ) && !map_satisfies(new_records[i].state@, goal_map))) by {
        assert(new_records[i].state@ == old_records[i].state@);
        if old_records[i].state@ == except {
        } else if in_open(o_mid, old_records[i].state@) {
            let k = choose|k: int| 0 <= k < o_mid.len() && o_mid[k].node@ == old_records[i].state@;
            assert(new_open[k] == o_mid[k]);
            assert(in_open(new_open, new_records[i].state@));
        } else {
            assert(expanded(old_records, old_records[i].state@, source));
            assert forall|j: int|
                0 <= j < source.len() && map_satisfies(
                    old_records[i].state@,
                    (#[trigger] source[j])@.preconditions,
                ) implies recorded(
                new_records,
                apply_effects(old_records[i].state@, source[j]@.effects),
            ) by {
                assert(recorded(
                    old_records,
                    apply_effects(old_records[i].state@, source[j]@.effects),
                ));
            }
        }
    }
}

/// Appending a record for a fresh state, while pushing that state onto
/// the open list, keeps every bookkeeping fact.
proof fn lemma_insert_step(
    old_records: Seq<Record>,
    new_records: Seq<Record>,
    o_mid: Seq<NodeWrapper>,
    new_open: Seq<NodeWrapper>,
    nw: NodeWrapper,
    source: Seq<Action>,
    goal_map: Map<Seq<char>, VarValue>,
    except: Map<Seq<char>, VarValue>,
)
    requires
        new_records.len() == old_records.len() + 1,
        new_records == old_records.push(new_records.last()),
        new_open == o_mid.push(nw),
        nw.node@ == new_records.last().state@,
        open_recorded(old_records, o_mid),
        search_closed_except(old_records, o_mid, source, goal_map, except),
    ensures
        forall|s: Map<Seq<char>, VarValue>| #[trigger]
            recorded(old_records, s) ==> recorded(new_records, s),
        recorded(new_records, new_records.last().state@),
        open_recorded(new_records, new_open),
        search_closed_except(new_records, new_open, source, goal_map, except),
{
    assert forall|s: Map<Seq<char>, VarValue>| #[trigger] recorded(old_records, s) implies recorded(
        new_records,
        s,
    ) by {
        let w = choose|w: int| 0 <= w < old_records.len() && old_records[w].state@ == s;
        assert(new_records[w] == old_records[w]);
    }
    assert(recorded(new_records, new_records.last().state@));
    assert forall|i: int| 0 <= i < new_open.len() implies recorded(
        new_records,
        (#[trigger] new_open[i]).node@,
    ) by {
        if i < o_mid.len() {
            assert(new_open[i] == o_mid[i]);
            assert(recorded(old_records, o_mid[i].node@));
        } else {
            assert(new_open[i] == nw);
        }
    }
    assert forall|i: int| 0 <= i < new_records.len() implies ((#[trigger] new_records[i]).state@
        == except || in_open(new_open, new_records[i].state@) || (expanded(
        new_records,
        new_records[i].state@,
        source,
    ) && !map_satisfies(new_records[i].state@, goal_map))) by {
        if i < old_records.len() {
            assert(new_records[i] == old_records[i]);
            if old_records[i].state@ == except {
            } else if in_open(o_mid, old_records[i].state@) {
                let k = choose|k: int|
                    0 <= k < o_mid.len() && o_mid[k].node@ == old_records[i].state@;
                assert(new_open[k] == o_mid[k]);
                assert(in_open(new_open, new_records[i].state@));
            } else {
                assert(expanded(old_records, old_records[i].state@, source));
                assert forall|j: int|
                    0 <= j < source.len() && map_satisfies(
                        old_records[i].state@,
                        (#[trigger] source[j])@.preconditions,
                    ) implies recorded(
                    new_records,
                    apply_effects(old_records[i].state@, source[j]@.effects),
                ) by {
                    assert(recorded(
                        old_records,
                        apply_effects(old_records[i].state@, source[j]@.effects),
                    ));
                }
            }
        } else {
            assert(new_open[new_open.len() - 1] == nw);
            assert(in_open(new_open, new_records[i].state@));
        }
    }
}

/// A heuristic mismatch at a transition's successor state is a
/// mismatch at a reachable state: the path to the expanded state plus
/// this one action reaches it.
proof fn lemma_mismatch_after_step(
    initial: Map<Seq<char>, VarValue>,
    cur: Map<Seq<char>, VarValue>,
    source: Seq<Action>,
    goal_map: Map<Seq<char>, VarValue>,
    base: Seq<Action>,
    tr: (State, u64, Action),
    m: Seq<char>,
)
    requires
        plan_executable(initial, base),
        run_plan(initial, base) == cur,
        actions_from(base, source),
        exists|j: int| 0 <= j < source.len() && (tr.2)@ == source[j]@,
        map_satisfies(cur, tr.2@.preconditions),
        tr.0@ == apply_effects(cur, tr.2@.effects),
        state_mismatch_message(tr.0@, goal_map, m),
    ensures
        mismatch_reached(initial, source, goal_map, m),
{
    let p = base.push(tr.2);
    assert(p.drop_last() =~= base);
    assert(p.last() == tr.2);
    lemma_push_step(p, initial, cur, source);
    assert(run_plan(initial, p) == tr.0@);
    assert(plan_executable(initial, p) && actions_from(p, source) && state_mismatch_message(
        run_plan(initial, p),
        goal_map,
        m,
    ));
}

/// Once every transition from the state being expanded has its
/// successor recorded, that state is expanded and the search closure
/// holds again in full.
proof fn lemma_close_current(
    records: Seq<Record>,
    open: Seq<NodeWrapper>,
    source: Seq<Action>,
    goal_map: Map<Seq<char>, VarValue>,
    current: Map<Seq<char>, VarValue>,
    transitions: Seq<(State, u64, Action)>,
)
    requires
        search_closed_except(records, open, source, goal_map, current),
        !map_satisfies(current, goal_map),
        forall|p: int| 0 <= p < transitions.len() ==> recorded(records, (#[trigger] transitions[p]).0@),
        forall|p: int|
            0 <= p < transitions.len() ==> (#[trigger] transitions[p]).0@ == apply_effects(
                current,
                transitions[p].2@.effects,
            ),
        forall|j: int|
            0 <= j < source.len() && map_satisfies(current, (#[trigger] source[j])@.preconditions)
                ==> exists|p: int| 0 <= p < transitions.len() && transitions[p].2@ == source[j]@,
    ensures
        search_closed(records, open, source, goal_map),
{
    assert(expanded(records, current, source)) by {
        assert forall|j: int|
            0 <= j < source.len() && map_satisfies(
                current,
                (#[trigger] source[j])@.preconditions,
            ) implies recorded(records, apply_effects(current, source[j]@.effects)) by {
            let p = choose|p: int| 0 <= p < transitions.len() && transitions[p].2@ == source[j]@;
            assert(recorded(records, transitions[p].0@));
            assert(transitions[p].0@ == apply_effects(current, transitions[p].2@.effects));
        }
    }
    assert forall|i: int| 0 <= i < records.len() implies (in_open(
        open,
        (#[trigger] records[i]).state@,
    ) || (expanded(records, records[i].state@, source) && !map_satisfies(
        records[i].state@,
        goal_map,
    ))) by {
        if records[i].state@ == current {
            assert(expanded(records, records[i].state@, source));
        }
    }
}

/// The most distinct states one `plan` call will discover. The search
/// state space can be unbounded (an action that keeps adding to a
/// counter), so the search runs on a budget of discovered states; a
/// search that exceeds it fails with `SearchLimitReached`.
pub const STEP_LIMIT: u64 = 1000000;

/// Cloned action sequences have the same cost, runs and sources.
proof fn lemma_clone_path_valid(
    a: Seq<Action>,
    b: Seq<Action>,
    initial: Map<Seq<char>, VarValue>,
    source: Seq<Action>,
)
    requires
        a.len() == b.len(),
        forall|i: int| 0 <= i < a.len() ==> cloned::<Action>(b[i], #[trigger] a[i]),
    ensures
        plan_cost(a) == plan_cost(b),
        run_plan(initial, a) == run_plan(initial, b),
        plan_executable(initial, a) == plan_executable(initial, b),
        actions_from(a, source) == actions_from(b, source),
{
    assert forall|i: int| 0 <= i < a.len() implies (#[trigger] a[i])@ == b[i]@ by {
        assert(cloned::<Action>(b[i], a[i]));
    }
    lemma_actions_congruent(a, b, initial, source);
}

/// Extending a valid path by one applicable action keeps it valid:
/// the new path runs to the state the action's effects produce and
/// costs the old cost plus the action's.
proof fn lemma_push_step(
    p: Seq<Action>,
    initial: Map<Seq<char>, VarValue>,
    cur: Map<Seq<char>, VarValue>,
    source: Seq<Action>,
)
    requires
        p.len() > 0,
        plan_executable(initial, p.drop_last()),
        run_plan(initial, p.drop_last()) == cur,
        map_satisfies(cur, p.last()@.preconditions),
        actions_from(p.drop_last(), source),
        exists|j: int| 0 <= j < source.len() && p.last()@ == source[j]@,
    ensures
        plan_executable(initial, p),
        run_plan(initial, p) == apply_effects(cur, p.last()@.effects),
        plan_cost(p) == sat_add(plan_cost(p.drop_last()), p.last()@.cost),
        actions_from(p, source),
{
    assert forall|i: int| 0 <= i < p.len() implies exists|j: int|
        0 <= j < source.len() && (#[trigger] p[i])@ == source[j]@ by {
        if i < p.len() - 1 {
            assert(p.drop_last()[i] == p[i]);
            assert(exists|j: int| 0 <= j < source.len() && (p.drop_last()[i])@ == source[j]@);
        } else {
            assert(p[i] == p.last());
        }
    }
}

/// An entry of the open list: a discovered state and the f-score
/// (cost so far plus heuristic) it was pushed with.
struct NodeWrapper {
    node: State,
    f_score: u64,
}

/// Removes and returns the open node with the lowest f-score; on a
/// tie, the earliest-pushed one.
fn pop_best(open: &mut Vec<NodeWrapper>) -> (r: State)
    requires
        old(open)@.len() > 0,
    ensures
        exists|i: int|
            {
                &&& 0 <= i < old(open)@.len()
                &&& r == old(open)@[i].node
                &&& final(open)@ == old(open)@.remove(i)
                &&& forall|j: int|
                    0 <= j < old(open)@.len() ==> (#[trigger] old(open)@[j]).f_score
                        >= old(open)@[i].f_score
            },
{
    let mut best: usize = 0;
    let mut i: usize = 1;
    while i < open.len()
        invariant
            open@ == old(open)@,
            open@.len() > 0,
            best < i,
            i <= open@.len(),
            forall|j: int| 0 <= j < i ==> (#[trigger] open@[j]).f_score >= open@[best as int].f_score,
        decreases open@.len() - i,
    {
        if open[i].f_score < open[best].f_score {
            best = i;
        }
        i += 1;
    }
    let ghost bi = best as int;
    let nw = open.remove(best);
    proof {
        assert(0 <= bi < old(open)@.len());
        assert(nw == old(open)@[bi]);
        assert(open@ == old(open)@.remove(bi));
        assert(forall|j: int|
            0 <= j < old(open)@.len() ==> (#[trigger] old(open)@[j]).f_score
                >= old(open)@[bi].f_score);
    }
    nw.node
}

/// The index of the record holding a state, if the state has been
/// discovered.
fn find_record(records: &Vec<Record>, state: &State) -> (r: Option<usize>)
    ensures
        match r {
            Some(i) => i < records@.len() && records@[i as int].state@ == state@,
            None => forall|i: int| 0 <= i < records@.len() ==> records@[i].state@ != state@,
        },
{
    let mut i: usize = 0;
    while i < records.len()
        invariant
            i <= records@.len(),
            forall|j: int| 0 <= j < i ==> records@[j].state@ != state@,
        decreases records@.len() - i,
    {
        if records[i].state == *state {
            return Some(i);
        }
        i += 1;
    }
    None
}

/// Sequences of pairwise model-equal actions cost the same, run to the
/// same states, and draw on the same sources.
proof fn lemma_actions_congruent(
    a: Seq<Action>,
    b: Seq<Action>,
    s: Map<Seq<char>, VarValue>,
    source: Seq<Action>,
)
    requires
        a.len() == b.len(),
        forall|i: int| 0 <= i < a.len() ==> (#[trigger] a[i])@ == b[i]@,
    ensures
        plan_cost(a) == plan_cost(b),
        exact_cost(a) == exact_cost(b),
        run_plan(s, a) == run_plan(s, b),
        plan_executable(s, a) == plan_executable(s, b),
        actions_from(a, source) == actions_from(b, source),
    decreases a.len(),
{
    if a.len() > 0 {
        assert(forall|i: int|
            0 <= i < a.drop_last().len() ==> (#[trigger] a.drop_last()[i])@ == b.drop_last()[i]@);
        lemma_actions_congruent(a.drop_last(), b.drop_last(), s, source);
        assert(a.last()@ == b.last()@);
    }
    assert forall|i: int| 0 <= i < a.len() && actions_from(a, source) implies exists|j: int|
        0 <= j < source.len() && (#[trigger] b[i])@ == source[j]@ by {
        assert(a[i]@ == b[i]@);
        let j = choose|j: int| 0 <= j < source.len() && a[i]@ == source[j]@;
        assert(b[i]@ == source[j]@);
    }
    assert forall|i: int| 0 <= i < a.len() && actions_from(b, source) implies exists|j: int|
        0 <= j < source.len() && (#[trigger] a[i])@ == source[j]@ by {
        assert(a[i]@ == b[i]@);
        let j = choose|j: int| 0 <= j < source.len() && b[i]@ == source[j]@;
        assert(a[i]@ == source[j]@);
    }
}

impl Planner {
    /// Creates a new planner instance.
    pub fn new() -> (r: Self) {
        Planner {}
    }

    /// The heuristic distance from a state to a goal state: the
    /// saturating sum, over the variables the goal mentions, of the
    /// distance to the requirement, with a fixed penalty of 1 for a
    /// variable the state lacks. A variant mismatch on a shared name
    /// is an error rather than a silent failure, since it signals a
    /// modelling bug in the caller's data.
    ///
    /// The sum can overestimate the true remaining cost (one action
    /// may close several requirements at once, or overshoot a numeric
    /// threshold), so the search it guides does not promise minimal
    /// plans for every action set.
    pub fn heuristic(&self, current: &State, goal: &State) -> (r: Result<u64, PlannerError>)
        ensures
            r is Ok <==> !has_mismatch(current@, goal@),
            r matches Ok(h) ==> h == h_of(current@, goal.entry_views()),
            r matches Err(e) ==> (e matches PlannerError::IncompatibleStateTypes(m)
                && state_mismatch_message(current@, goal@, m@)),
    {
        let items = goal.entries();
        let mut total: u64 = 0;
        let mut i: usize = 0;
        while i < items.len()
            invariant
                i <= goal.entry_views().len(),
                items@.len() == goal.entry_views().len(),
                forall|j: int|
                    0 <= j < items@.len() ==> (#[trigger] items@[j]).0@ == goal.entry_views()[j].0
                        && items@[j].1@ == goal.entry_views()[j].1,
                forall|j: int|
                    0 <= j < goal.entry_views().len() ==> goal@.dom().contains(
                        (#[trigger] goal.entry_views()[j]).0,
                    ) && goal@[goal.entry_views()[j].0] == goal.entry_views()[j].1,
                forall|k: Seq<char>| #[trigger]
                    goal@.dom().contains(k) ==> exists|j: int|
                        0 <= j < goal.entry_views().len() && goal.entry_views()[j].0 == k,
                total == h_of(current@, goal.entry_views().take(i as int)),
                forall|j: int|
                    0 <= j < i ==> current@.dom().contains(
                        (#[trigger] goal.entry_views()[j]).0,
                    ) ==> vars_comparable(
                        current@[goal.entry_views()[j].0],
                        goal.entry_views()[j].1,
                    ),
            decreases items@.len() - i,
        {
            let pair = &items[i];
            let ghost k = goal.entry_views()[i as int].0;
            let step: u64 = match current.get_raw(pair.0.as_str()) {
                Some(cur) => match cur.distance(&pair.1) {
                    Ok(d) => d,
                    Err(_) => {
                        let mut msg = String::from_str("Cannot calculate distance for variable '");
                        msg.append(pair.0.as_str());
                        msg.append("' due to type mismatch");
                        proof {
                            assert(goal@.dom().contains(k) && current@.dom().contains(k)
                                && !vars_comparable(current@[k], goal@[k]));
                            assert(msg@ == "Cannot calculate distance for variable '"@ + k
                                + "' due to type mismatch"@);
                            assert(state_mismatch_message(current@, goal@, msg@));
                        }
                        return Err(PlannerError::IncompatibleStateTypes(msg));
                    },
                },
                None => 1,
            };
            total = total.saturating_add(step);
            proof {
                assert(goal.entry_views().take(i + 1 as int).drop_last() =~= goal.entry_views().take(
                    i as int,
                ));
                assert(goal.entry_views().take(i + 1 as int).last() == goal.entry_views()[i as int]);
            }
            i += 1;
        }
        proof {
            assert(goal.entry_views().take(i as int) =~= goal.entry_views());
            assert(!has_mismatch(current@, goal@)) by {
                if has_mismatch(current@, goal@) {
                    let k = choose|k: Seq<char>|
                        #[trigger] goal@.dom().contains(k) && current@.dom().contains(k)
                            && !vars_comparable(current@[k], goal@[k]);
                    let j = choose|j: int|
                        0 <= j < goal.entry_views().len() && goal.entry_views()[j].0 == k;
                    assert(vars_comparable(current@[k], goal@[k]));
                }
            }
        }
        Ok(total)
    }

    /// All transitions available from a state: one entry per applicable
    /// action, carrying the state its effects produce and its cost.
    fn get_valid_transitions(&self, state: &State, actions: &[Action]) -> (r: Vec<
        (State, u64, Action),
    >)
        ensures
            forall|i: int|
                0 <= i < r@.len() ==> {
                    &&& exists|j: int|
                        0 <= j < actions@.len() && (#[trigger] r@[i]).2@ == actions@[j]@
                    &&& map_satisfies(state@, r@[i].2@.preconditions)
                    &&& r@[i].0@ == apply_effects(state@, r@[i].2@.effects)
                    &&& r@[i].1 == r@[i].2@.cost
                },
            forall|j: int|
                0 <= j < actions@.len() && map_satisfies(
                    state@,
                    (#[trigger] actions@[j])@.preconditions,
                ) ==> exists|i: int| 0 <= i < r@.len() && r@[i].2@ == actions@[j]@,
            r@.len() == applicable_actions(state@, actions@).len(),
            forall|p: int|
                0 <= p < r@.len() ==> (#[trigger] r@[p]).2@ == applicable_actions(
                    state@,
                    actions@,
                )[p]@,
    {
        let mut transitions: Vec<(State, u64, Action)> = Vec::new();
        let mut i: usize = 0;
        while i < actions.len()
            invariant
                i <= actions@.len(),
                transitions@.len() == applicable_actions(state@, actions@.take(i as int)).len(),
                forall|p: int|
                    0 <= p < transitions@.len() ==> (#[trigger] transitions@[p]).2@
                        == applicable_actions(state@, actions@.take(i as int))[p]@,
                forall|p: int|
                    0 <= p < transitions@.len() ==> {
                        &&& exists|j: int|
                            0 <= j < actions@.len() && (#[trigger] transitions@[p]).2@
                                == actions@[j]@
                        &&& map_satisfies(state@, transitions@[p].2@.preconditions)
                        &&& transitions@[p].0@ == apply_effects(state@, transitions@[p].2@.effects)
                        &&& transitions@[p].1 == transitions@[p].2@.cost
                    },
                forall|j: int|
                    0 <= j < i && map_satisfies(state@, (#[trigger] actions@[j])@.preconditions)
                        ==> exists|p: int|
                        0 <= p < transitions@.len() && transitions@[p].2@ == actions@[j]@,
            decreases actions@.len() - i,
        {
            let action = &actions[i];
            let ghost pre = transitions@;
            if action.can_execute(state) {
                let new_state = action.apply_effect(state);
                transitions.push((new_state, action.cost, action.clone()));
                proof {
                    assert(forall|p: int| 0 <= p < pre.len() ==> transitions@[p] == pre[p]);
                    assert((transitions@[pre.len() as int]).2@ == actions@[i as int]@);
                }
            }
            proof {
                assert forall|j: int|
                    0 <= j < i + 1 && map_satisfies(
                        state@,
                        (#[trigger] actions@[j])@.preconditions,
                    ) implies exists|p: int|
                    0 <= p < transitions@.len() && transitions@[p].2@ == actions@[j]@ by {
                    if j < i {
                        let p = choose|p: int| 0 <= p < pre.len() && pre[p].2@ == actions@[j]@;
                        assert(transitions@[p].2@ == actions@[j]@);
                    } else {
                        assert(transitions@[transitions@.len() - 1].2@ == actions@[j]@);
                    }
                }
                assert(actions@.take(i + 1 as int).drop_last() =~= actions@.take(i as int));
                assert(actions@.take(i + 1 as int).last() == actions@[i as int]);
            }
            i += 1;
        }
        proof {
            assert(actions@.take(actions@.len() as int) =~= actions@);
        }
        transitions
    }

    /// Builds the final plan from a search record: the actions of its
    /// path in order, with the total cost recomputed as their sum.
    fn reconstruct_path(&self, record: &Record) -> (r: Plan)
        ensures
            r.actions@.len() == record.path@.len(),
            forall|i: int|
                0 <= i < r.actions@.len() ==> (#[trigger] r.actions@[i])@ == record.path@[i]@,
            r.cost == plan_cost(r.actions@),
    {
        let mut actions: Vec<Action> = Vec::new();
        let mut total: u64 = 0;
        let mut i: usize = 0;
        while i < record.path.len()
            invariant
                i <= record.path@.len(),
                actions@.len() == i,
                forall|j: int|
                    0 <= j < i ==> (#[trigger] actions@[j])@ == record.path@[j]@,
                total == plan_cost(actions@),
            decreases record.path@.len() - i,
        {
            let a = record.path[i].clone();
            let ghost pre = actions@;
            total = total.saturating_add(a.cost);
            actions.push(a);
            proof {
                assert(actions@.drop_last() =~= pre);
            }
            i += 1;
        }
        Plan { actions, cost: total }
    }

    /// Finds a plan achieving the goal from the initial state, using
    /// A* over the given actions, with the default step budget.
    ///
    /// On success the returned plan is executable: every action's
    /// preconditions hold in the state produced by the actions before
    /// it, the final state satisfies the goal, the plan's cost is the
    /// sum of its actions' costs, and every action comes from the
    /// given list. If the initial state already satisfies the goal the
    /// plan is empty with cost zero.
    ///
    /// The failures are told apart: a variant mismatch between the
    /// initial state and the goal always surfaces as
    /// `IncompatibleStateTypes`; `NoPlanFound` means the search truly
    /// exhausted the reachable states, so no sequence of the given
    /// actions executable from the initial state reaches the goal; and
    /// `SearchLimitReached` means the budget ran out first, which can
    /// only happen once the search has discovered more than the
    /// budgeted number of distinct reachable states.
    ///
    /// The search minimises cost as far as its heuristic lets it, but
    /// because the heuristic can overestimate, a returned plan is not
    /// guaranteed cheapest for every action set.
    pub fn plan(&self, initial_state: State, goal: &Goal, actions: &[Action]) -> (r: Result<
        Plan,
        PlannerError,
    >)
        ensures
            r matches Ok(p) ==> plan_executable(initial_state@, p.actions@) && map_satisfies(
                run_plan(initial_state@, p.actions@),
                goal.desired_state@,
            ) && p.cost == plan_cost(p.actions@) && actions_from(p.actions@, actions@),
            map_satisfies(initial_state@, goal.desired_state@) ==> (r matches Ok(p)
                && p.actions@.len() == 0 && p.cost == 0),
            r is Err ==> !map_satisfies(initial_state@, goal.desired_state@),
            has_mismatch(initial_state@, goal.desired_state@) ==> (r matches Err(
                PlannerError::IncompatibleStateTypes(_),
            )),
            r matches Err(PlannerError::NoPlanFound) ==> !has_mismatch(
                initial_state@,
                goal.desired_state@,
            ) && (forall|acts: Seq<Action>|
                actions_from(acts, actions@) && #[trigger] plan_executable(initial_state@, acts)
                    ==> !map_satisfies(run_plan(initial_state@, acts), goal.desired_state@)),
            r matches Err(PlannerError::IncompatibleStateTypes(m)) ==> mismatch_reached(
                initial_state@,
                actions@,
                goal.desired_state@,
                m@,
            ),
            r matches Err(PlannerError::SearchLimitReached) ==> (exists|
                seen: Set<Map<Seq<char>, VarValue>>,
            |
                {
                    &&& seen.finite()
                    &&& seen.len() > STEP_LIMIT
                    &&& forall|s: Map<Seq<char>, VarValue>| #[trigger] seen.contains(s)
                        ==> reachable_state(initial_state@, actions@, s)
                }),
    {
        self.plan_with_limit(initial_state, goal, actions, STEP_LIMIT)
    }

    /// Like [`Planner::plan`], but with the budget chosen by the
    /// caller: the search gives up with `SearchLimitReached` as soon as
    /// it has discovered more than `step_limit` distinct states. The
    /// state space can be unbounded (an action that keeps adding to a
    /// counter), so a budget is what makes every call terminate; on an
    /// action set whose reachable states number at most `step_limit`,
    /// the budget provably never cuts the search short.
    #[verifier::rlimit(100)]
    #[verifier::spinoff_prover]
    pub fn plan_with_limit(
        &self,
        initial_state: State,
        goal: &Goal,
        actions: &[Action],
        step_limit: u64,
    ) -> (r: Result<Plan, PlannerError>)
        ensures
            r matches Ok(p) ==> plan_executable(initial_state@, p.actions@) && map_satisfies(
                run_plan(initial_state@, p.actions@),
                goal.desired_state@,
            ) && p.cost == plan_cost(p.actions@) && actions_from(p.actions@, actions@),
            map_satisfies(initial_state@, goal.desired_state@) ==> (r matches Ok(p)
                && p.actions@.len() == 0 && p.cost == 0),
            r is Err ==> !map_satisfies(initial_state@, goal.desired_state@),
            has_mismatch(initial_state@, goal.desired_state@) ==> (r matches Err(
                PlannerError::IncompatibleStateTypes(_),
            )),
            r matches Err(PlannerError::NoPlanFound) ==> !has_mismatch(
                initial_state@,
                goal.desired_state@,
            ) && (forall|acts: Seq<Action>|
                actions_from(acts, actions@) && #[trigger] plan_executable(initial_state@, acts)
                    ==> !map_satisfies(run_plan(initial_state@, acts), goal.desired_state@)),
            r matches Err(PlannerError::IncompatibleStateTypes(m)) ==> mismatch_reached(
                initial_state@,
                actions@,
                goal.desired_state@,
                m@,
            ),
            r matches Err(PlannerError::SearchLimitReached) ==> (exists|
                seen: Set<Map<Seq<char>, VarValue>>,
            |
                {
                    &&& seen.finite()
                    &&& seen.len() > step_limit
                    &&& forall|s: Map<Seq<char>, VarValue>| #[trigger] seen.contains(s)
                        ==> reachable_state(initial_state@, actions@, s)
                }),
    {
        if goal.is_satisfied(&initial_state) {
            proof {
                assert(!has_mismatch(initial_state@, goal.desired_state@)) by {
                    if has_mismatch(initial_state@, goal.desired_state@) {
                        let k = choose|k: Seq<char>|
                            #[trigger] goal.desired_state@.dom().contains(k)
                                && initial_state@.dom().contains(k) && !vars_comparable(
                                initial_state@[k],
                                goal.desired_state@[k],
                            );
                        lemma_threshold_satisfaction(initial_state@[k], goal.desired_state@[k]);
                    }
                }
            }
            return Ok(Plan { actions: Vec::new(), cost: 0 });
        }
        let initial_h = match self.heuristic(&initial_state, &goal.desired_state) {
            Ok(h) => scale_to_cost(h),
            Err(e) => {
                proof {
                    assert(plan_executable(initial_state@, Seq::<Action>::empty()));
                    assert(run_plan(initial_state@, Seq::<Action>::empty()) == initial_state@);
                    assert(actions_from(Seq::<Action>::empty(), actions@));
                    assert(e matches PlannerError::IncompatibleStateTypes(mm) && mismatch_reached(
                        initial_state@,
                        actions@,
                        goal.desired_state@,
                        mm@,
                    ));
                }
                return Err(e);
            },
        };
        let mut records: Vec<Record> = Vec::new();
        records.push(Record { state: initial_state.clone(), g: 0, path: Vec::new() });
        let mut open: Vec<NodeWrapper> = Vec::new();
        open.push(NodeWrapper { node: initial_state.clone(), f_score: initial_h });
        proof {
            assert(records@[0].state@ == initial_state@);
            assert(open@[0].node@ == initial_state@);
            assert(recorded(records@, open@[0].node@));
            assert(in_open(open@, records@[0].state@));
        }
        proof {
            lemma_g_total_nonneg(records@);
        }
        while open.len() > 0 && (records.len() as u64) <= step_limit
            invariant
                records_ok(records@, initial_state@, actions@),
                g_total(records@) >= 0,
                !map_satisfies(initial_state@, goal.desired_state@),
                !has_mismatch(initial_state@, goal.desired_state@),
                open_recorded(records@, open@),
                search_closed(records@, open@, actions@, goal.desired_state@),
            decreases
                    (if records@.len() > step_limit {
                        0int
                    } else {
                        step_limit + 1 - records@.len()
                    }),
                    g_total(records@),
                    open@.len(),
        {
            let ghost len0 = records@.len();
            let ghost g0 = g_total(records@);
            let ghost o_pre = open@;
            let current = pop_best(&mut open);
            proof {
                let pi = choose|i: int|
                    {
                        &&& 0 <= i < o_pre.len()
                        &&& current == o_pre[i].node
                        &&& open@ == o_pre.remove(i)
                        &&& forall|j: int|
                            0 <= j < o_pre.len() ==> (#[trigger] o_pre[j]).f_score
                                >= o_pre[i].f_score
                    };
                assert(recorded(records@, current@)) by {
                    assert(recorded(records@, o_pre[pi].node@));
                }
                lemma_pop_preserves(records@, o_pre, open@, pi, actions@, goal.desired_state@);
                assert(o_pre[pi].node@ == current@);
            }
            let ghost olen0 = open@.len();
            let ri = match find_record(&records, &current) {
                Some(ri) => ri,
                None => {
                    proof {
                        let w = choose|i: int|
                            0 <= i < records@.len() && records@[i].state@ == current@;
                        assert(false);
                    }
                    continue;
                },
            };
            if goal.is_satisfied(&current) {
                let plan = self.reconstruct_path(&records[ri]);
                proof {
                    lemma_actions_congruent(
                        plan.actions@,
                        records@[ri as int].path@,
                        initial_state@,
                        actions@,
                    );
                }
                return Ok(plan);
            }
            let current_g = records[ri].g;
            let base_path = records[ri].path.clone();
            proof {
                assert forall|j: int| 0 <= j < base_path@.len() implies (#[trigger] base_path@[j])@
                    == records@[ri as int].path@[j]@ by {
                    assert(cloned::<Action>(records@[ri as int].path@[j], base_path@[j]));
                }
                lemma_actions_congruent(
                    base_path@,
                    records@[ri as int].path@,
                    initial_state@,
                    actions@,
                );
            }
            let transitions = self.get_valid_transitions(&current, actions);
            let mut t: usize = 0;
            while t < transitions.len()
                invariant
                    records_ok(records@, initial_state@, actions@),
                    !map_satisfies(initial_state@, goal.desired_state@),
                    !has_mismatch(initial_state@, goal.desired_state@),
                    !map_satisfies(current@, goal.desired_state@),
                    recorded(records@, current@),
                    open_recorded(records@, open@),
                    search_closed_except(records@, open@, actions@, goal.desired_state@, current@),
                    records@.len() >= len0,
                    records@.len() > len0 || g_total(records@) < g0 || (g_total(records@) == g0
                        && open@.len() == olen0),
                    plan_executable(initial_state@, base_path@),
                    run_plan(initial_state@, base_path@) == current@,
                    plan_cost(base_path@) == current_g,
                    actions_from(base_path@, actions@),
                    forall|p: int|
                        0 <= p < t ==> recorded(records@, (#[trigger] transitions@[p]).0@),
                    forall|p: int|
                        0 <= p < transitions@.len() ==> {
                            &&& exists|j: int|
                                0 <= j < actions@.len() && (#[trigger] transitions@[p]).2@
                                    == actions@[j]@
                            &&& map_satisfies(current@, transitions@[p].2@.preconditions)
                            &&& transitions@[p].0@ == apply_effects(
                                current@,
                                transitions@[p].2@.effects,
                            )
                            &&& transitions@[p].1 == transitions@[p].2@.cost
                        },
                    forall|j: int|
                        0 <= j < actions@.len() && map_satisfies(
                            current@,
                            (#[trigger] actions@[j])@.preconditions,
                        ) ==> exists|p: int|
                            0 <= p < transitions@.len() && transitions@[p].2@ == actions@[j]@,
                decreases transitions@.len() - t,
            {
                let tr = &transitions[t];
                let tentative = current_g.saturating_add(tr.1);
                match self.heuristic(&tr.0, &goal.desired_state) {
                    Ok(next_h) => {
                        let next_f = tentative.saturating_add(scale_to_cost(next_h));
                        let known = find_record(&records, &tr.0);
                        match known {
                            Some(ni) => {
                                if tentative < records[ni].g {
                                    let mut new_path = base_path.clone();
                                    let ghost cl = new_path@;
                                    proof {
                                        lemma_clone_path_valid(
                                            cl,
                                            base_path@,
                                            initial_state@,
                                            actions@,
                                        );
                                    }
                                    let act = tr.2.clone();
                                    let ghost av = act@;
                                    new_path.push(act);
                                    let new_state = tr.0.clone();
                                    let ghost old_records = records@;
                                    let new_rec = Record {
                                        state: new_state,
                                        g: tentative,
                                        path: new_path,
                                    };
                                    proof {
                                        assert(new_rec.path@.drop_last() =~= cl);
                                        assert(new_rec.path@.last()@ == av);
                                        assert(av == transitions@[t as int].2@);
                                        lemma_push_step(
                                            new_rec.path@,
                                            initial_state@,
                                            current@,
                                            actions@,
                                        );
                                        assert(valid_record(new_rec, initial_state@, actions@));
                                        assert(ni != 0) by {
                                            assert(old_records[0].g == 0);
                                        }
                                    }
                                    records[ni] = new_rec;
                                    let ghost o_mid = open@;
                                    let nw_new = NodeWrapper {
                                        node: tr.0.clone(),
                                        f_score: next_f,
                                    };
                                    let ghost gnw = nw_new;
                                    open.push(nw_new);
                                    proof {
                                        assert(records@ =~= old_records.update(
                                            ni as int,
                                            records@[ni as int],
                                        ));
                                        assert(records@[ni as int].state@ == old_records[
                                            ni as int].state@);
                                        assert(gnw.node@ == old_records[ni as int].state@);
                                        lemma_update_step(
                                            old_records,
                                            records@,
                                            o_mid,
                                            open@,
                                            ni as int,
                                            gnw,
                                            actions@,
                                            goal.desired_state@,
                                            current@,
                                        );
                                        lemma_g_total_update(
                                            old_records,
                                            ni as int,
                                            records@[ni as int],
                                        );
                                        assert(g_total(records@) < g0 || records@.len() > len0);
                                        assert forall|p: int, q: int|
                                            0 <= p < q < records@.len() implies (
                                        #[trigger] records@[p]).state@ != (
                                        #[trigger] records@[q]).state@ by {
                                            assert(old_records[p].state@ != old_records[q].state@);
                                        }
                                        assert forall|p: int| 0 <= p < t + 1 implies recorded(
                                            records@,
                                            (#[trigger] transitions@[p]).0@,
                                        ) by {
                                            if p < t {
                                                assert(recorded(old_records, transitions@[p].0@));
                                            } else {
                                                assert(records@[ni as int].state@ == transitions@[
                                                    t as int].0@);
                                            }
                                        }
                                    }
                                } else {
                                    proof {
                                        assert forall|p: int| 0 <= p < t + 1 implies recorded(
                                            records@,
                                            (#[trigger] transitions@[p]).0@,
                                        ) by {
                                            if p == t {
                                                assert(records@[ni as int].state@ == transitions@[
                                                    t as int].0@);
                                            }
                                        }
                                    }
                                }
                            },
                            None => {
                                let mut new_path = base_path.clone();
                                let ghost cl = new_path@;
                                proof {
                                    lemma_clone_path_valid(cl, base_path@, initial_state@, actions@);
                                }
                                let act = tr.2.clone();
                                let ghost av = act@;
                                new_path.push(act);
                                let new_state = tr.0.clone();
                                let ghost old_records = records@;
                                let new_rec = Record {
                                    state: new_state,
                                    g: tentative,
                                    path: new_path,
                                };
                                proof {
                                    assert(new_rec.path@.drop_last() =~= cl);
                                    assert(new_rec.path@.last()@ == av);
                                    assert(av == transitions@[t as int].2@);
                                    lemma_push_step(
                                        new_rec.path@,
                                        initial_state@,
                                        current@,
                                        actions@,
                                    );
                                    assert(valid_record(new_rec, initial_state@, actions@));
                                }
                                records.push(new_rec);
                                let ghost o_mid = open@;
                                let nw_new = NodeWrapper { node: tr.0.clone(), f_score: next_f };
                                let ghost gnw = nw_new;
                                open.push(nw_new);
                                proof {
                                    assert(records@ == old_records.push(records@.last()));
                                    assert(records@.last().state@ == transitions@[t as int].0@);
                                    assert(gnw.node@ == records@.last().state@);
                                    lemma_insert_step(
                                        old_records,
                                        records@,
                                        o_mid,
                                        open@,
                                        gnw,
                                        actions@,
                                        goal.desired_state@,
                                        current@,
                                    );
                                    assert(records@.len() > len0);
                                    assert forall|p: int, q: int|
                                        0 <= p < q < records@.len() implies (
                                    #[trigger] records@[p]).state@ != (
                                    #[trigger] records@[q]).state@ by {
                                        if q < old_records.len() {
                                            assert(old_records[p].state@ != old_records[q].state@);
                                        } else {
                                            assert(records@[q].state@ == transitions@[
                                                t as int].0@);
                                            assert(old_records[p].state@ != transitions@[
                                                t as int].0@);
                                        }
                                    }
                                    assert forall|p: int| 0 <= p < t + 1 implies recorded(
                                        records@,
                                        (#[trigger] transitions@[p]).0@,
                                    ) by {
                                        if p < t {
                                            assert(recorded(old_records, transitions@[p].0@));
                                        } else {
                                            assert(recorded(records@, records@.last().state@));
                                        }
                                    }
                                }
                            },
                        }
                    },
                    Err(e) => {
                        proof {
                            match &e {
                                PlannerError::IncompatibleStateTypes(mm) => {
                                    lemma_mismatch_after_step(
                                        initial_state@,
                                        current@,
                                        actions@,
                                        goal.desired_state@,
                                        base_path@,
                                        transitions@[t as int],
                                        mm@,
                                    );
                                },
                                _ => {},
                            }
                        }
                        return Err(e);
                    },
                }
                t += 1;
            }
            proof {
                assert forall|p: int| 0 <= p < transitions@.len() implies (
                #[trigger] transitions@[p]).0@ == apply_effects(
                    current@,
                    transitions@[p].2@.effects,
                ) by {}
                lemma_close_current(
                    records@,
                    open@,
                    actions@,
                    goal.desired_state@,
                    current@,
                    transitions@,
                );
                lemma_g_total_nonneg(records@);
                if records@.len() == len0 && g_total(records@) == g0 {
                    assert(open@.len() == olen0);
                    assert(open@.len() < o_pre.len());
                }
            }
        }
        if open.is_empty() {
            proof {
                assert forall|i: int| 0 <= i < records@.len() implies expanded(
                    records@,
                    (#[trigger] records@[i]).state@,
                    actions@,
                ) && !map_satisfies(records@[i].state@, goal.desired_state@) by {
                    assert(!in_open(open@, records@[i].state@));
                }
                assert(recorded(records@, initial_state@)) by {
                    assert(records@[0].state@ == initial_state@);
                }
                assert forall|acts: Seq<Action>|
                    actions_from(acts, actions@) && #[trigger] plan_executable(
                        initial_state@,
                        acts,
                    ) implies !map_satisfies(
                    run_plan(initial_state@, acts),
                    goal.desired_state@,
                ) by {
                    lemma_exhausted_reaches(records@, initial_state@, actions@, acts);
                    let w = choose|i: int|
                        0 <= i < records@.len() && records@[i].state@ == run_plan(
                            initial_state@,
                            acts,
                        );
                    assert(!map_satisfies(records@[w].state@, goal.desired_state@));
                }
            }
            return Err(PlannerError::NoPlanFound);
        }
        proof {
            assert(records@.len() > step_limit);
            assert forall|s: Map<Seq<char>, VarValue>| #[trigger]
                record_states(records@).contains(s) implies reachable_state(
                initial_state@,
                actions@,
                s,
            ) by {
                lemma_record_states_contains(records@, s);
                let i = choose|i: int| 0 <= i < records@.len() && records@[i].state@ == s;
                assert(valid_record(records@[i], initial_state@, actions@));
                assert(plan_executable(initial_state@, records@[i].path@));
                assert(actions_from(records@[i].path@, actions@));
                assert(run_plan(initial_state@, records@[i].path@) == s);
            }
            lemma_record_states_len(records@);
            assert(record_states(records@).finite() && record_states(records@).len() > step_limit
                && (forall|s: Map<Seq<char>, VarValue>| #[trigger]
                record_states(records@).contains(s) ==> reachable_state(
                    initial_state@,
                    actions@,
                    s,
                )));
        }
        Err(PlannerError::SearchLimitReached)
    }
}

} // verus!
