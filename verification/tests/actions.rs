use goap::prelude::{Action, Effects, State, StateOperation, StateVar};

fn create_test_state() -> State {
    let mut state = State::empty();
    state.set("has_wood", StateVar::F64(1000)); // 1.0
    state.set("has_tools", StateVar::F64(1000));
    state
}

fn create_test_action() -> Action {
    let mut preconditions = State::empty();
    preconditions.set("has_wood", StateVar::F64(1000));
    preconditions.set("has_tools", StateVar::F64(1000));

    let mut effects = Effects::new();
    effects.insert("has_planks", StateOperation::Assign(StateVar::F64(1000)));
    effects.insert("has_wood", StateOperation::Assign(StateVar::F64(0)));

    Action::from_parts("make_planks", 2000, preconditions, effects)
}

/// Test basic action creation using from_parts constructor
/// Validates: Action name, cost, preconditions, and effects are properly stored
#[test]
fn test_action_creation() {
    let action = create_test_action();
    assert_eq!(action.name, "make_planks");
    assert_eq!(action.cost, 2000);
    assert_eq!(action.preconditions.get_raw("has_wood"), Some(&StateVar::F64(1000)));
    assert_eq!(action.preconditions.get_raw("has_tools"), Some(&StateVar::F64(1000)));
    if let StateOperation::Assign(value) = action.effects.get("has_planks").unwrap() {
        assert_eq!(value, &StateVar::F64(1000));
    } else {
        panic!("Expected Set operation");
    }
}

/// Test action precondition checking with valid state
/// Validates: can_execute returns true when all preconditions are satisfied
#[test]
fn test_can_execute_with_valid_state() {
    let action = create_test_action();
    let valid_state = create_test_state();
    assert!(action.can_execute(&valid_state));
}

/// Test action precondition checking with invalid state
/// Validates: can_execute returns false when preconditions are not met
#[test]
fn test_can_execute_with_invalid_state() {
    let action = create_test_action();
    let mut invalid_state = State::empty();
    invalid_state.set("has_tools", StateVar::F64(1000));
    assert!(!action.can_execute(&invalid_state));
}

/// Test action effect application to state
/// Validates: Effects are properly applied and original state is preserved
#[test]
fn test_apply_effects() {
    let action = create_test_action();
    let initial_state = create_test_state();
    let result_state = action.apply_effect(&initial_state);

    assert_eq!(result_state.get_raw("has_planks"), Some(&StateVar::F64(1000)));
    assert_eq!(result_state.get_raw("has_wood"), Some(&StateVar::F64(0)));
    assert_eq!(result_state.get_raw("has_tools"), Some(&StateVar::F64(1000)));
}

/// Test ActionBuilder with boolean preconditions
/// Validates: Bool values can be used as action preconditions
#[test]
fn test_builder_bool_preconditions() {
    let action = Action::new("test_action")
        .require("has_key", true)
        .require("door_locked", false)
        .build();

    assert_eq!(action.preconditions.get::<bool>("has_key"), Some(true));
    assert_eq!(action.preconditions.get::<bool>("door_locked"), Some(false));
}

/// Test ActionBuilder with boolean effects using Assign operation
/// Validates: Bool values can be set as action effects
#[test]
fn test_builder_bool_effects() {
    let action = Action::new("unlock_door")
        .sets("door_unlocked", true)
        .sets("has_key", false)
        .build();

    if let StateOperation::Assign(value) = action.effects.get("door_unlocked").unwrap() {
        assert_eq!(value, &StateVar::Bool(true));
    } else {
        panic!("Expected Set operation for door_unlocked");
    }

    if let StateOperation::Assign(value) = action.effects.get("has_key").unwrap() {
        assert_eq!(value, &StateVar::Bool(false));
    } else {
        panic!("Expected Set operation for has_key");
    }
}

/// Test ActionBuilder with integer preconditions
/// Validates: I64 values can be used as action preconditions
#[test]
fn test_builder_i64_preconditions() {
    let action = Action::new("buy_item").require("gold", 100).require("level", 5).build();

    assert_eq!(action.preconditions.get::<i64>("gold"), Some(100));
    assert_eq!(action.preconditions.get::<i64>("level"), Some(5));
}

/// Test ActionBuilder with integer Assign effects
/// Validates: I64 values can be set as action effects
#[test]
fn test_builder_i64_set_effects() {
    let action = Action::new("set_gold").sets("gold", 200).sets("level", 10).build();

    if let StateOperation::Assign(value) = action.effects.get("gold").unwrap() {
        assert_eq!(value, &StateVar::I64(200));
    } else {
        panic!("Expected Set operation for gold");
    }

    if let StateOperation::Assign(value) = action.effects.get("level").unwrap() {
        assert_eq!(value, &StateVar::I64(10));
    } else {
        panic!("Expected Set operation for level");
    }
}

/// Test ActionBuilder with integer Add effects
/// Validates: I64 values can be added using Add operation
#[test]
fn test_builder_i64_add_effects() {
    let action = Action::new("gain_resources").adds("gold", 50).adds("experience", 100).build();

    if let StateOperation::Add(value) = action.effects.get("gold").unwrap() {
        assert_eq!(*value, 50);
    } else {
        panic!("Expected Add operation for gold");
    }

    if let StateOperation::Add(value) = action.effects.get("experience").unwrap() {
        assert_eq!(*value, 100);
    } else {
        panic!("Expected Add operation for experience");
    }
}

/// Test ActionBuilder with integer Subtract effects
/// Validates: I64 values can be subtracted using Subtract operation
#[test]
fn test_builder_i64_subtract_effects() {
    let action = Action::new("spend_resources").subtracts("gold", 25).subtracts("energy", 10).build();

    if let StateOperation::Subtract(value) = action.effects.get("gold").unwrap() {
        assert_eq!(*value, 25);
    } else {
        panic!("Expected Subtract operation for gold");
    }

    if let StateOperation::Subtract(value) = action.effects.get("energy").unwrap() {
        assert_eq!(*value, 10);
    } else {
        panic!("Expected Subtract operation for energy");
    }
}

/// Test ActionBuilder with fixed-point decimal preconditions
/// Validates: F64 values can be used as action preconditions
#[test]
fn test_builder_f64_preconditions() {
    let action = Action::new("precise_action")
        .require("health", StateVar::F64(75500)) // 75.5
        .require("speed", StateVar::F64(2250)) // 2.25
        .build();

    assert_eq!(action.preconditions.get_raw("health"), Some(&StateVar::F64(75500)));
    assert_eq!(action.preconditions.get_raw("speed"), Some(&StateVar::F64(2250)));
}

/// Test ActionBuilder with fixed-point decimal Assign effects
/// Validates: F64 values can be set as action effects
#[test]
fn test_builder_f64_set_effects() {
    let action = Action::new("restore_health")
        .sets("health", StateVar::F64(100000)) // 100.0
        .sets("mana", StateVar::F64(50750)) // 50.75
        .build();

    if let StateOperation::Assign(value) = action.effects.get("health").unwrap() {
        assert_eq!(value, &StateVar::F64(100000));
    } else {
        panic!("Expected Set operation for health");
    }

    if let StateOperation::Assign(value) = action.effects.get("mana").unwrap() {
        assert_eq!(value, &StateVar::F64(50750));
    } else {
        panic!("Expected Set operation for mana");
    }
}

/// Test ActionBuilder with fixed-point decimal Add effects
/// Validates: Decimal amounts can be added using Add operation
#[test]
fn test_builder_f64_add_effects() {
    let action = Action::new("boost_stats")
        .adds("speed", 1500) // 1.5
        .adds("strength", 2250) // 2.25
        .build();

    if let StateOperation::Add(value) = action.effects.get("speed").unwrap() {
        assert_eq!(*value, 1500);
    } else {
        panic!("Expected Add operation for speed");
    }

    if let StateOperation::Add(value) = action.effects.get("strength").unwrap() {
        assert_eq!(*value, 2250);
    } else {
        panic!("Expected Add operation for strength");
    }
}

/// Test ActionBuilder with fixed-point decimal Subtract effects
/// Validates: Decimal amounts can be subtracted using Subtract operation
#[test]
fn test_builder_f64_subtract_effects() {
    let action = Action::new("drain_stats")
        .subtracts("energy", 10500) // 10.5
        .subtracts("stamina", 5750) // 5.75
        .build();

    if let StateOperation::Subtract(value) = action.effects.get("energy").unwrap() {
        assert_eq!(*value, 10500);
    } else {
        panic!("Expected Subtract operation for energy");
    }

    if let StateOperation::Subtract(value) = action.effects.get("stamina").unwrap() {
        assert_eq!(*value, 5750);
    } else {
        panic!("Expected Subtract operation for stamina");
    }
}

/// Test ActionBuilder with string/enum preconditions
/// Validates: String values can be used as action preconditions
#[test]
fn test_builder_string_preconditions() {
    let action = Action::new("enter_area")
        .require("location", "town")
        .require("state", "peaceful")
        .build();

    assert_eq!(action.preconditions.get::<String>("location"), Some("town".to_string()));
    assert_eq!(action.preconditions.get::<String>("state"), Some("peaceful".to_string()));
}

/// Test ActionBuilder with string/enum Assign effects
/// Validates: String values can be set as action effects
#[test]
fn test_builder_string_effects() {
    let action = Action::new("travel").sets("location", "forest").sets("weather", "rainy").build();

    if let StateOperation::Assign(value) = action.effects.get("location").unwrap() {
        assert_eq!(value, &StateVar::String("forest".to_string()));
    } else {
        panic!("Expected Set operation for location");
    }

    if let StateOperation::Assign(value) = action.effects.get("weather").unwrap() {
        assert_eq!(value, &StateVar::String("rainy".to_string()));
    } else {
        panic!("Expected Set operation for weather");
    }
}

/// Test ActionBuilder cost setting
/// Validates: Action cost can be properly set via builder
#[test]
fn test_builder_cost() {
    let action = Action::new("expensive_action").cost(15500).build(); // 15.5

    assert_eq!(action.cost, 15500);
}

/// Test ActionBuilder default cost
/// Validates: Actions have default cost of one unit (1000) when not specified
#[test]
fn test_builder_default_cost() {
    let action = Action::new("default_cost_action").build();
    assert_eq!(action.cost, 1000);
}

/// Test ActionBuilder with mixed precondition types
/// Validates: Multiple different StateVar types can be used as preconditions
#[test]
fn test_builder_mixed_preconditions() {
    let action = Action::new("complex_action")
        .require("has_key", true)
        .require("gold", 100)
        .require("health", StateVar::F64(75500)) // 75.5
        .require("location", "castle")
        .build();

    assert_eq!(action.preconditions.get::<bool>("has_key"), Some(true));
    assert_eq!(action.preconditions.get::<i64>("gold"), Some(100));
    assert_eq!(action.preconditions.get_raw("health"), Some(&StateVar::F64(75500)));
    assert_eq!(action.preconditions.get::<String>("location"), Some("castle".to_string()));
}

/// Test ActionBuilder with mixed effect types
/// Validates: Multiple different StateOperation types can be used as effects
#[test]
fn test_builder_mixed_effects() {
    let action = Action::new("complex_effects")
        .sets("door_open", true)
        .sets("gold", 200)
        .adds("experience", 50)
        .subtracts("energy", 25)
        .sets("health", StateVar::F64(100000)) // 100.0
        .adds("speed", 1500) // 1.5
        .sets("location", "treasure_room")
        .build();

    // Check bool set
    if let StateOperation::Assign(value) = action.effects.get("door_open").unwrap() {
        assert_eq!(value, &StateVar::Bool(true));
    } else {
        panic!("Expected Set operation for door_open");
    }

    // Check i64 set
    if let StateOperation::Assign(value) = action.effects.get("gold").unwrap() {
        assert_eq!(value, &StateVar::I64(200));
    } else {
        panic!("Expected Set operation for gold");
    }

    // Check i64 add
    if let StateOperation::Add(value) = action.effects.get("experience").unwrap() {
        assert_eq!(*value, 50);
    } else {
        panic!("Expected Add operation for experience");
    }

    // Check i64 subtract
    if let StateOperation::Subtract(value) = action.effects.get("energy").unwrap() {
        assert_eq!(*value, 25);
    } else {
        panic!("Expected Subtract operation for energy");
    }

    // Check decimal set
    if let StateOperation::Assign(value) = action.effects.get("health").unwrap() {
        assert_eq!(value, &StateVar::F64(100000));
    } else {
        panic!("Expected Set operation for health");
    }

    // Check decimal add
    if let StateOperation::Add(value) = action.effects.get("speed").unwrap() {
        assert_eq!(*value, 1500);
    } else {
        panic!("Expected Add operation for speed");
    }

    // Check string set
    if let StateOperation::Assign(value) = action.effects.get("location").unwrap() {
        assert_eq!(value, &StateVar::String("treasure_room".to_string()));
    } else {
        panic!("Expected Set operation for location");
    }
}
