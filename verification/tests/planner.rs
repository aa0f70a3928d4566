use goap::prelude::{Action, Goal, Planner, PlannerError, State, StateVar};

/// Test planner creation
/// Validates: Planner can be created successfully
#[test]
fn test_planner_creation() {
    let planner = Planner::new();
    // Should not panic or fail
    let _ = planner;
}

/// Test planner default implementation
/// Validates: Planner::default() works the same as Planner::new()
#[test]
fn test_planner_default() {
    let planner = Planner::default();
    // Should not panic or fail
    let _ = planner;
}

/// Test simple single-step plan with boolean goal
/// Validates: Planner can find a single action to achieve a boolean goal
#[test]
fn test_planner_simple_bool_plan() {
    let planner = Planner::new();

    let initial_state = State::new().set("has_wood", false).build();
    let goal = Goal::new("get_wood").require("has_wood", true).build();
    let action = Action::new("get_wood").cost(1000).sets("has_wood", true).build();

    let result = planner.plan(initial_state, &goal, &[action]);
    assert!(result.is_ok());

    let plan = result.unwrap();
    assert_eq!(plan.actions.len(), 1);
    assert_eq!(plan.actions[0].name, "get_wood");
    assert_eq!(plan.cost, 1000);
}

/// Test simple single-step plan with integer goal
/// Validates: Planner can find a single action to achieve an integer goal
#[test]
fn test_planner_simple_i64_plan() {
    let planner = Planner::new();

    let initial_state = State::new().set("gold", 0).build();
    let goal = Goal::new("get_gold").require("gold", 10).build();
    let action = Action::new("mine_gold").cost(2000).sets("gold", 15).build();

    let result = planner.plan(initial_state, &goal, &[action]);
    assert!(result.is_ok());

    let plan = result.unwrap();
    assert_eq!(plan.actions.len(), 1);
    assert_eq!(plan.actions[0].name, "mine_gold");
    assert_eq!(plan.cost, 2000);
}

/// Test simple single-step plan with decimal goal
/// Validates: Planner can find a single action to achieve a decimal goal
#[test]
fn test_planner_simple_f64_plan() {
    let planner = Planner::new();

    let initial_state = State::new().set("health", StateVar::F64(50000)).build(); // 50.0
    let goal = Goal::new("heal").require("health", StateVar::F64(100000)).build(); // 100.0
    let action = Action::new("use_potion")
        .cost(1500) // 1.5
        .sets("health", StateVar::F64(100000))
        .build();

    let result = planner.plan(initial_state, &goal, &[action]);
    assert!(result.is_ok());

    let plan = result.unwrap();
    assert_eq!(plan.actions.len(), 1);
    assert_eq!(plan.actions[0].name, "use_potion");
    assert_eq!(plan.cost, 1500);
}

/// Test simple single-step plan with string goal
/// Validates: Planner can find a single action to achieve a string goal
#[test]
fn test_planner_simple_string_plan() {
    let planner = Planner::new();

    let initial_state = State::new().set("location", "home").build();
    let goal = Goal::new("travel").require("location", "town").build();
    let action = Action::new("walk_to_town").cost(3000).sets("location", "town").build();

    let result = planner.plan(initial_state, &goal, &[action]);
    assert!(result.is_ok());

    let plan = result.unwrap();
    assert_eq!(plan.actions.len(), 1);
    assert_eq!(plan.actions[0].name, "walk_to_town");
    assert_eq!(plan.cost, 3000);
}

/// Test two-step plan with dependent actions
/// Validates: Planner can chain actions where one action enables another
#[test]
fn test_planner_two_step_plan() {
    let planner = Planner::new();

    let initial_state = State::new().set("has_wood", false).set("has_planks", false).build();

    let goal = Goal::new("get_planks").require("has_planks", true).build();

    let get_wood = Action::new("get_wood").cost(1000).sets("has_wood", true).build();

    let craft_planks = Action::new("craft_planks")
        .cost(2000)
        .require("has_wood", true)
        .sets("has_planks", true)
        .build();

    let actions = vec![get_wood, craft_planks];
    let result = planner.plan(initial_state, &goal, &actions);
    assert!(result.is_ok());

    let plan = result.unwrap();
    assert_eq!(plan.actions.len(), 2);
    assert_eq!(plan.actions[0].name, "get_wood");
    assert_eq!(plan.actions[1].name, "craft_planks");
    assert_eq!(plan.cost, 3000);
}

/// Test three-step plan with sequential dependencies
/// Validates: Planner can handle longer chains of dependent actions
#[test]
fn test_planner_three_step_plan() {
    let planner = Planner::new();

    let initial_state = State::new()
        .set("has_wood", false)
        .set("has_planks", false)
        .set("has_table", false)
        .build();

    let goal = Goal::new("make_table").require("has_table", true).build();

    let get_wood = Action::new("get_wood").cost(1000).sets("has_wood", true).build();

    let craft_planks = Action::new("craft_planks")
        .cost(2000)
        .require("has_wood", true)
        .sets("has_planks", true)
        .build();

    let make_table = Action::new("make_table")
        .cost(3000)
        .require("has_planks", true)
        .sets("has_table", true)
        .build();

    let actions = vec![get_wood, craft_planks, make_table];
    let result = planner.plan(initial_state, &goal, &actions);
    assert!(result.is_ok());

    let plan = result.unwrap();
    assert_eq!(plan.actions.len(), 3);
    assert_eq!(plan.actions[0].name, "get_wood");
    assert_eq!(plan.actions[1].name, "craft_planks");
    assert_eq!(plan.actions[2].name, "make_table");
    assert_eq!(plan.cost, 6000);
}

/// Test planner chooses cheaper path when multiple options exist
/// Validates: Planner optimizes for cost when multiple paths are available
#[test]
fn test_planner_cost_optimization() {
    let planner = Planner::new();

    let initial_state = State::new().set("has_gold", false).build();
    let goal = Goal::new("get_gold").require("has_gold", true).build();

    // Expensive direct action
    let expensive_action = Action::new("buy_gold").cost(10000).sets("has_gold", true).build();

    // Cheaper action
    let cheap_action = Action::new("find_gold").cost(2000).sets("has_gold", true).build();

    let actions = vec![expensive_action, cheap_action];
    let result = planner.plan(initial_state, &goal, &actions);
    assert!(result.is_ok());

    let plan = result.unwrap();
    assert_eq!(plan.actions.len(), 1);
    assert_eq!(plan.actions[0].name, "find_gold"); // Should choose cheaper option
    assert_eq!(plan.cost, 2000);
}

/// Test planner chooses cheaper multi-step path over expensive single step
/// Validates: Planner compares total cost across different path lengths
#[test]
fn test_planner_multi_step_vs_single_step_cost() {
    let planner = Planner::new();

    let initial_state = State::new().set("has_materials", false).set("has_sword", false).build();

    let goal = Goal::new("get_sword").require("has_sword", true).build();

    // Expensive direct path
    let buy_sword = Action::new("buy_sword").cost(10000).sets("has_sword", true).build();

    // Cheaper multi-step path
    let gather_materials = Action::new("gather_materials")
        .cost(2000)
        .sets("has_materials", true)
        .build();

    let craft_sword = Action::new("craft_sword")
        .cost(3000)
        .require("has_materials", true)
        .sets("has_sword", true)
        .build();

    let actions = vec![buy_sword, gather_materials, craft_sword];
    let result = planner.plan(initial_state, &goal, &actions);
    assert!(result.is_ok());

    let plan = result.unwrap();
    assert_eq!(plan.actions.len(), 2);
    assert_eq!(plan.actions[0].name, "gather_materials");
    assert_eq!(plan.actions[1].name, "craft_sword");
    assert_eq!(plan.cost, 5000); // Should be cheaper than 10.0 units
}

/// Test planning with multiple boolean requirements
/// Validates: Planner can satisfy goals with multiple boolean conditions
#[test]
fn test_planner_multiple_bool_requirements() {
    let planner = Planner::new();

    let initial_state = State::new().set("has_key", false).set("door_unlocked", false).build();

    let goal = Goal::new("enter_room")
        .require("has_key", true)
        .require("door_unlocked", true)
        .build();

    let get_key = Action::new("get_key").cost(1000).sets("has_key", true).build();

    let unlock_door = Action::new("unlock_door")
        .cost(1000)
        .require("has_key", true)
        .sets("door_unlocked", true)
        .build();

    let actions = vec![get_key, unlock_door];
    let result = planner.plan(initial_state, &goal, &actions);
    assert!(result.is_ok());

    let plan = result.unwrap();
    assert_eq!(plan.actions.len(), 2);
    assert_eq!(plan.cost, 2000);
}

/// Test planning with mixed type requirements
/// Validates: Planner can satisfy goals with different StateVar types
#[test]
fn test_planner_mixed_type_requirements() {
    let planner = Planner::new();

    let initial_state = State::new()
        .set("has_weapon", false)
        .set("gold", 0)
        .set("health", StateVar::F64(50000)) // 50.0
        .set("location", "home")
        .build();

    let goal = Goal::new("ready_for_adventure")
        .require("has_weapon", true)
        .require("gold", 100)
        .require("health", StateVar::F64(100000)) // 100.0
        .require("location", "town")
        .build();

    let buy_weapon = Action::new("buy_weapon").cost(1000).sets("has_weapon", true).build();

    let earn_gold = Action::new("work").cost(2000).sets("gold", 150).build();

    let heal = Action::new("rest").cost(1000).sets("health", StateVar::F64(100000)).build();

    let travel = Action::new("travel_to_town").cost(1000).sets("location", "town").build();

    let actions = vec![buy_weapon, earn_gold, heal, travel];
    let result = planner.plan(initial_state, &goal, &actions);
    assert!(result.is_ok());

    let plan = result.unwrap();
    assert_eq!(plan.actions.len(), 4);
    assert_eq!(plan.cost, 5000);
}

/// Test planning when goal is already satisfied
/// Validates: Planner returns empty plan when goal is already met
#[test]
fn test_planner_goal_already_satisfied() {
    let planner = Planner::new();

    let initial_state = State::new().set("has_item", true).build();
    let goal = Goal::new("get_item").require("has_item", true).build();
    let action = Action::new("get_item").cost(1000).sets("has_item", true).build();

    let result = planner.plan(initial_state, &goal, &[action]);
    assert!(result.is_ok());

    let plan = result.unwrap();
    assert_eq!(plan.actions.len(), 0);
    assert_eq!(plan.cost, 0);
}

/// Test planning with empty action list
/// Validates: Planner returns error when no actions are available
#[test]
fn test_planner_empty_actions() {
    let planner = Planner::new();

    let initial_state = State::new().set("has_item", false).build();
    let goal = Goal::new("get_item").require("has_item", true).build();
    let actions: Vec<Action> = vec![];

    let result = planner.plan(initial_state, &goal, &actions);
    assert!(result.is_err());
    assert_eq!(result.unwrap_err(), PlannerError::NoPlanFound);
}

/// Test planning when no solution exists
/// Validates: Planner returns error when goal is impossible to achieve
#[test]
fn test_planner_no_solution() {
    let planner = Planner::new();

    let initial_state = State::new().set("has_wood", false).build();
    let goal = Goal::new("get_gold").require("has_gold", true).build();
    let action = Action::new("get_wood").cost(1000).sets("has_wood", true).build();

    let result = planner.plan(initial_state, &goal, &[action]);
    assert!(result.is_err());
    assert_eq!(result.unwrap_err(), PlannerError::NoPlanFound);
}

/// Test planning when actions exist but requirements can't be met
/// Validates: Planner detects when action preconditions can't be satisfied
#[test]
fn test_planner_unreachable_preconditions() {
    let planner = Planner::new();

    let initial_state = State::new().set("has_wood", false).set("has_tools", false).build();

    let goal = Goal::new("craft_item").require("has_item", true).build();

    // Action requires tools but no action provides tools
    let craft_item = Action::new("craft_item")
        .cost(1000)
        .require("has_tools", true)
        .sets("has_item", true)
        .build();

    let get_wood = Action::new("get_wood").cost(1000).sets("has_wood", true).build();

    let actions = vec![craft_item, get_wood];
    let result = planner.plan(initial_state, &goal, &actions);
    assert!(result.is_err());
    assert_eq!(result.unwrap_err(), PlannerError::NoPlanFound);
}

/// Test planning with branching paths that reconverge
/// Validates: Planner can handle complex state spaces with multiple valid paths
#[test]
fn test_planner_branching_paths() {
    let planner = Planner::new();

    let initial_state = State::new().set("has_food", false).set("location", "home").build();

    let goal = Goal::new("get_food_at_market")
        .require("has_food", true)
        .require("location", "market")
        .build();

    // Path 1: Walk to market then buy food
    let walk_to_market = Action::new("walk_to_market")
        .cost(3000)
        .require("location", "home")
        .sets("location", "market")
        .build();

    let buy_food_at_market = Action::new("buy_food_at_market")
        .cost(2000)
        .require("location", "market")
        .sets("has_food", true)
        .build();

    // Path 2: Get food at home then walk to market
    let get_food_at_home = Action::new("get_food_at_home")
        .cost(1000)
        .require("location", "home")
        .sets("has_food", true)
        .build();

    let walk_to_market_with_food = Action::new("walk_to_market_with_food")
        .cost(3000)
        .require("location", "home")
        .require("has_food", true)
        .sets("location", "market")
        .build();

    let actions = vec![walk_to_market, buy_food_at_market, get_food_at_home, walk_to_market_with_food];

    let result = planner.plan(initial_state, &goal, &actions);
    assert!(result.is_ok());

    let plan = result.unwrap();
    assert_eq!(plan.actions.len(), 2);
    assert_eq!(plan.cost, 4000); // Should find path 2 (1.0 + 3.0) vs path 1 (3.0 + 2.0)
}

/// Test planning with numeric goals requiring accumulation
/// Validates: Planner can handle goals requiring accumulation of numeric values
#[test]
fn test_planner_numeric_accumulation() {
    let planner = Planner::new();

    let initial_state = State::new().set("gold", 0).build();
    let goal = Goal::new("get_rich").require("gold", 100).build();

    let small_job = Action::new("small_job").cost(1000).adds("gold", 30).build();

    let big_job = Action::new("big_job").cost(3000).adds("gold", 80).build();

    let actions = vec![small_job, big_job];
    let result = planner.plan(initial_state, &goal, &actions);
    assert!(result.is_ok());

    let plan = result.unwrap();
    // Should find optimal combination to reach 100+ gold
    assert!(plan.cost > 0);
    assert!(!plan.actions.is_empty());
}

/// Test planning with resource consumption and production
/// Validates: Planner can handle actions that both consume and produce resources
#[test]
fn test_planner_resource_transformation() {
    let planner = Planner::new();

    let initial_state = State::new().set("wood", 0).set("planks", 0).set("furniture", 0).build();

    let goal = Goal::new("make_furniture").require("furniture", 1).build();

    let chop_wood = Action::new("chop_wood").cost(1000).adds("wood", 5).build();

    let make_planks = Action::new("make_planks")
        .cost(1000)
        .require("wood", 2)
        .subtracts("wood", 2)
        .adds("planks", 4)
        .build();

    let make_furniture = Action::new("make_furniture")
        .cost(2000)
        .require("planks", 3)
        .subtracts("planks", 3)
        .adds("furniture", 1)
        .build();

    let actions = vec![chop_wood, make_planks, make_furniture];
    let result = planner.plan(initial_state, &goal, &actions);
    assert!(result.is_ok());

    let plan = result.unwrap();
    assert!(!plan.actions.is_empty());
    assert!(plan.cost > 0);
}

/// Test the heuristic on a state some distance from the goal
/// Validates: The heuristic is positive when the goal is not yet met
#[test]
fn test_heuristic() {
    let planner = Planner::new();

    let current = State::new().set("value", 0).set("flag", false).build();

    let goal = State::new().set("value", 10).set("flag", true).build();

    let h = planner.heuristic(&current, &goal).unwrap();
    assert!(h > 0); // Should have some distance to goal
}

/// Test the heuristic against a goal with a mismatched variable type
/// Validates: A variant mismatch is reported as an error naming the variable
#[test]
fn test_heuristic_with_type_mismatch() {
    let planner = Planner::new();

    let current = State::new().set("value", 0).build();
    let goal = State::new().set("value", "string").build(); // Type mismatch

    let result = planner.heuristic(&current, &goal);
    assert!(result.is_err());
    match result.unwrap_err() {
        PlannerError::IncompatibleStateTypes(msg) => {
            assert!(msg.contains("Cannot calculate distance for variable 'value'"));
        }
        _ => panic!("Expected IncompatibleStateTypes error"),
    }
}

/// Gathering wood with an axe: move to the tree, then chop it
/// Validates: the planner chains the two actions at total cost 3.0 units
#[test]
fn test_planner_axe_and_wood_scenario() {
    let planner = Planner::new();

    let initial_state = State::new().set("has_axe", true).set("has_wood", false).build();
    let goal = Goal::new("collect_wood").require("has_wood", true).build();

    let move_to_tree = Action::new("move_to_tree").cost(1000).sets("at_tree", true).build();

    let chop_tree = Action::new("chop_tree")
        .cost(2000)
        .require("has_axe", true)
        .require("at_tree", true)
        .sets("has_wood", true)
        .build();

    let actions = vec![move_to_tree, chop_tree];
    let result = planner.plan(initial_state, &goal, &actions);
    assert!(result.is_ok());

    let plan = result.unwrap();
    assert_eq!(plan.actions.len(), 2);
    assert_eq!(plan.actions[0].name, "move_to_tree");
    assert_eq!(plan.actions[1].name, "chop_tree");
    assert_eq!(plan.cost, 3000);
}

/// Accumulating gold to 100 from jobs worth 30 and 80
/// Validates: the planner reaches gold >= 100 at the minimal total cost 4.0 units
#[test]
fn test_planner_gold_accumulation_minimal_cost() {
    let planner = Planner::new();

    let initial_state = State::new().set("gold", 0).build();
    let goal = Goal::new("get_rich").require("gold", 100).build();

    let small_job = Action::new("small_job").cost(1000).adds("gold", 30).build();
    let big_job = Action::new("big_job").cost(3000).adds("gold", 80).build();

    let actions = vec![small_job, big_job];
    let result = planner.plan(initial_state, &goal, &actions);
    assert!(result.is_ok());

    let plan = result.unwrap();
    assert_eq!(plan.cost, 4000);
    assert_eq!(plan.actions.len(), 2);
}

/// A goal that wants text where actions only ever produce an integer
/// Validates: planning fails with IncompatibleStateTypes, not NoPlanFound
#[test]
fn test_planner_type_mismatch_is_reported() {
    let planner = Planner::new();

    let initial_state = State::empty();
    let goal = Goal::new("text_goal").require("value", "ready").build();
    let action = Action::new("produce_number").cost(1000).sets("value", 5).build();

    let result = planner.plan(initial_state, &goal, &[action]);
    assert!(result.is_err());
    match result.unwrap_err() {
        PlannerError::IncompatibleStateTypes(msg) => {
            assert!(msg.contains("Cannot calculate distance for variable 'value'"));
        }
        _ => panic!("Expected IncompatibleStateTypes error"),
    }
}

/// Planning twice with identical inputs gives identical plans
/// Validates: the planner is deterministic, including tie handling for a
/// fixed action-list order
#[test]
fn test_planner_determinism() {
    let build_inputs = || {
        let initial_state = State::new().set("gold", 0).set("has_tools", false).build();
        let goal = Goal::new("get_rich").require("gold", 100).build();
        let buy_tools = Action::new("buy_tools").cost(1000).sets("has_tools", true).build();
        let dig = Action::new("dig").cost(1000).require("has_tools", true).adds("gold", 60).build();
        let beg = Action::new("beg").cost(1000).adds("gold", 25).build();
        (initial_state, goal, vec![buy_tools, dig, beg])
    };

    let planner = Planner::new();
    let (s1, g1, a1) = build_inputs();
    let (s2, g2, a2) = build_inputs();

    let p1 = planner.plan(s1, &g1, &a1).unwrap();
    let p2 = planner.plan(s2, &g2, &a2).unwrap();

    assert_eq!(p1.cost, p2.cost);
    assert_eq!(p1.actions.len(), p2.actions.len());
    for (x, y) in p1.actions.iter().zip(p2.actions.iter()) {
        assert_eq!(x.name, y.name);
        assert_eq!(x.cost, y.cost);
    }
}

/// The heuristic counts numeric distance, so it can overestimate the
/// real remaining cost and steer the search to a dearer plan
/// Validates: the documented guidance is preserved as-is: the direct
/// action wins here although three cheap jobs would cost less
#[test]
fn test_planner_heuristic_guides_to_direct_action() {
    let planner = Planner::new();

    let initial_state = State::new().set("gold", 0).build();
    let goal = Goal::new("get_rich").require("gold", 100000).build();

    let direct = Action::new("direct").cost(5000).sets("gold", 100000).build();
    let grind = Action::new("grind").cost(1000).adds("gold", 34000).build();

    let actions = vec![direct, grind];
    let result = planner.plan(initial_state, &goal, &actions);
    assert!(result.is_ok());

    let plan = result.unwrap();
    // Three grind actions would reach 102000 gold at cost 3000, but the
    // heuristic rates the intermediate states as far from the goal.
    assert_eq!(plan.actions.len(), 1);
    assert_eq!(plan.actions[0].name, "direct");
    assert_eq!(plan.cost, 5000);
}

/// Test the caller-chosen step budget on an unbounded search
/// Validates: when the budget runs out the planner says so, rather
/// than claiming no plan exists
#[test]
fn test_planner_step_limit_reached() {
    let planner = Planner::new();

    let initial_state = State::new().set("gold", 0).build();
    let goal = Goal::new("get_rich").require("gold", 1000000000).build();
    let earn = Action::new("earn").cost(1000).adds("gold", 1).build();

    let result = planner.plan_with_limit(initial_state, &goal, &[earn], 25);
    assert!(result.is_err());
    assert_eq!(result.unwrap_err(), PlannerError::SearchLimitReached);
}

/// Test a zero step budget against a reachable goal
/// Validates: the budget outcome is distinct from NoPlanFound, and a
/// small budget suffices for a one-step plan
#[test]
fn test_planner_zero_step_limit() {
    let planner = Planner::new();

    let goal = Goal::new("finish").require("done", true).build();

    let initial_state = State::new().set("done", false).build();
    let finish = Action::new("finish").cost(1000).sets("done", true).build();
    let result = planner.plan_with_limit(initial_state, &goal, &[finish], 0);
    assert_eq!(result.unwrap_err(), PlannerError::SearchLimitReached);

    let initial_state = State::new().set("done", false).build();
    let finish = Action::new("finish").cost(1000).sets("done", true).build();
    let result = planner.plan_with_limit(initial_state, &goal, &[finish], 5);
    assert!(result.is_ok());
}

/// Test that the budget only bites past the budgeted number of states
/// Validates: on a space of two reachable states, a budget of two
/// leaves the search complete and the plan is found
#[test]
fn test_planner_small_space_within_limit() {
    let planner = Planner::new();

    let goal = Goal::new("finish").require("done", true).build();
    let initial_state = State::new().set("done", false).build();
    let finish = Action::new("finish").cost(1000).sets("done", true).build();

    let result = planner.plan_with_limit(initial_state, &goal, &[finish], 2);
    assert!(result.is_ok());
    let plan = result.unwrap();
    assert_eq!(plan.actions.len(), 1);
    assert_eq!(plan.actions[0].name, "finish");
}
