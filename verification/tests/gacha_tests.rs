use one_luck::draw::{draw_fruit, draw_fruit_with_roll, select_by_roll};
use one_luck::gacha::{AddFruitResult, DlcState, DrawError, FruitDef, Rarity};
use one_luck::inventory::PlayerInventory;
use rand::rngs::StdRng;
use rand::SeedableRng;

fn single_fruit_pool() -> Vec<FruitDef> {
    vec![FruitDef::new("Rocket", Rarity::Common, 1)]
}

fn test_rng() -> StdRng {
    StdRng::seed_from_u64(0)
}

#[test]
fn first_draw_stores_fruit() {
    let mut inventory = PlayerInventory::new();
    let mut rng = test_rng();

    let outcome =
        draw_fruit(&mut inventory, &single_fruit_pool(), DlcState::disabled(), &mut rng).unwrap();

    assert_eq!(outcome.fruit.name, "Rocket");
    assert_eq!(outcome.storage, AddFruitResult::Stored { new_total: 1 });
    assert_eq!(inventory.quantity_of("Rocket"), 1);
}

#[test]
fn duplicate_draw_fails_without_dlc() {
    let mut inventory = PlayerInventory::new();
    let mut rng = test_rng();

    draw_fruit(&mut inventory, &single_fruit_pool(), DlcState::disabled(), &mut rng).unwrap();
    let outcome =
        draw_fruit(&mut inventory, &single_fruit_pool(), DlcState::disabled(), &mut rng).unwrap();

    assert_eq!(
        outcome.storage,
        AddFruitResult::DuplicateLimitReached {
            current: 1,
            limit: 1,
        }
    );
    assert_eq!(inventory.quantity_of("Rocket"), 1);
}

#[test]
fn duplicate_draw_succeeds_until_dlc_limit() {
    let mut inventory = PlayerInventory::new();
    let mut rng = test_rng();
    let dlc = DlcState::enabled(3);

    let first = draw_fruit(&mut inventory, &single_fruit_pool(), dlc, &mut rng).unwrap();
    let second = draw_fruit(&mut inventory, &single_fruit_pool(), dlc, &mut rng).unwrap();
    let third = draw_fruit(&mut inventory, &single_fruit_pool(), dlc, &mut rng).unwrap();
    let fourth = draw_fruit(&mut inventory, &single_fruit_pool(), dlc, &mut rng).unwrap();

    assert_eq!(first.storage, AddFruitResult::Stored { new_total: 1 });
    assert_eq!(second.storage, AddFruitResult::Stored { new_total: 2 });
    assert_eq!(third.storage, AddFruitResult::Stored { new_total: 3 });
    assert_eq!(
        fourth.storage,
        AddFruitResult::DuplicateLimitReached {
            current: 3,
            limit: 3,
        }
    );
}

#[test]
fn different_fruits_are_stored_independently() {
    let rocket = FruitDef::new("Rocket", Rarity::Common, 1);
    let spin = FruitDef::new("Spin", Rarity::Common, 1);
    let mut inventory = PlayerInventory::new();
    let first = inventory.add_fruit(&rocket, DlcState::disabled());
    let second = inventory.add_fruit(&spin, DlcState::disabled());

    assert_eq!(first, AddFruitResult::Stored { new_total: 1 });
    assert_eq!(second, AddFruitResult::Stored { new_total: 1 });
    assert_eq!(inventory.quantity_of("Rocket"), 1);
    assert_eq!(inventory.quantity_of("Spin"), 1);
}

#[test]
fn empty_pool_returns_error() {
    let mut inventory = PlayerInventory::new();
    let mut rng = test_rng();

    let result = draw_fruit(&mut inventory, &[], DlcState::disabled(), &mut rng);

    assert_eq!(result, Err(DrawError::EmptyPool));
}

#[test]
fn zero_total_weight_returns_invalid_weights() {
    let pool = vec![
        FruitDef::new("Piranha", Rarity::Mythical, 0),
        FruitDef::new("Dragon", Rarity::Mythical, 0),
    ];
    let mut inventory = PlayerInventory::new();
    let mut rng = test_rng();

    let result = draw_fruit(&mut inventory, &pool, DlcState::disabled(), &mut rng);

    assert_eq!(result, Err(DrawError::InvalidWeights));
    assert!(inventory.entries().is_empty());
}

#[test]
fn zero_weight_fruit_is_never_drawn() {
    let pool = vec![
        FruitDef::new("Piranha", Rarity::Mythical, 0),
        FruitDef::new("Light", Rarity::Epic, 5),
        FruitDef::new("Dragon", Rarity::Mythical, 0),
    ];
    let mut rng = test_rng();
    for _ in 0..50 {
        let mut inventory = PlayerInventory::new();
        let outcome = draw_fruit(&mut inventory, &pool, DlcState::disabled(), &mut rng).unwrap();
        assert_eq!(outcome.fruit.name, "Light");
        assert_eq!(outcome.fruit.rarity, Rarity::Epic);
    }
}

#[test]
fn draws_stay_within_the_pool_and_the_limit() {
    let pool = vec![
        FruitDef::new("Rocket", Rarity::Common, 3),
        FruitDef::new("Spin", Rarity::Common, 2),
        FruitDef::new("Light", Rarity::Epic, 1),
    ];
    let mut inventory = PlayerInventory::new();
    let mut rng = test_rng();
    let dlc = DlcState::enabled(2);
    for _ in 0..40 {
        let outcome = draw_fruit(&mut inventory, &pool, dlc, &mut rng).unwrap();
        assert!(["Rocket", "Spin", "Light"].contains(&outcome.fruit.name));
    }
    for (name, qty) in inventory.entries() {
        assert!(qty >= 1 && qty <= 2, "{name} held {qty} times");
    }
}

#[test]
fn select_by_roll_follows_the_weight_slots() {
    let pool = vec![
        FruitDef::new("Rocket", Rarity::Common, 3),
        FruitDef::new("Piranha", Rarity::Mythical, 0),
        FruitDef::new("Spin", Rarity::Common, 2),
    ];
    assert_eq!(select_by_roll(&pool, 0), Ok(0));
    assert_eq!(select_by_roll(&pool, 2), Ok(0));
    assert_eq!(select_by_roll(&pool, 3), Ok(2));
    assert_eq!(select_by_roll(&pool, 4), Ok(2));
    assert_eq!(select_by_roll(&pool, 5), Err(DrawError::InvalidWeights));
    assert_eq!(select_by_roll(&[], 0), Err(DrawError::InvalidWeights));
}

#[test]
fn select_by_roll_counts_match_weights() {
    let pool = vec![
        FruitDef::new("Rocket", Rarity::Common, 4),
        FruitDef::new("Spin", Rarity::Rare, 1),
        FruitDef::new("Light", Rarity::Epic, 2),
    ];
    let mut counts = [0u32; 3];
    for roll in 0..7 {
        counts[select_by_roll(&pool, roll).unwrap()] += 1;
    }
    assert_eq!(counts, [4, 1, 2]);
}

#[test]
fn draw_with_roll_picks_the_slot_and_stores() {
    let pool = vec![
        FruitDef::new("Rocket", Rarity::Common, 3),
        FruitDef::new("Phoenix", Rarity::Legendary, 2),
    ];
    let mut inventory = PlayerInventory::new();
    let outcome = draw_fruit_with_roll(&mut inventory, &pool, DlcState::disabled(), 4).unwrap();
    assert_eq!(outcome.fruit.name, "Phoenix");
    assert_eq!(outcome.fruit.rarity, Rarity::Legendary);
    assert_eq!(outcome.storage, AddFruitResult::Stored { new_total: 1 });
    assert_eq!(inventory.quantity_of("Phoenix"), 1);
    assert_eq!(inventory.quantity_of("Rocket"), 0);

    let again = draw_fruit_with_roll(&mut inventory, &pool, DlcState::disabled(), 3).unwrap();
    assert_eq!(
        again.storage,
        AddFruitResult::DuplicateLimitReached { current: 1, limit: 1 }
    );

    let too_high = draw_fruit_with_roll(&mut inventory, &pool, DlcState::disabled(), 5);
    assert_eq!(too_high, Err(DrawError::InvalidWeights));
    let empty = draw_fruit_with_roll(&mut inventory, &[], DlcState::disabled(), 0);
    assert_eq!(empty, Err(DrawError::EmptyPool));
    assert_eq!(inventory.quantity_of("Phoenix"), 1);
}

#[test]
fn dlc_state_limits() {
    assert_eq!(DlcState::disabled().duplicate_limit, 1);
    assert!(!DlcState::disabled().is_enabled());
    assert_eq!(DlcState::enabled(0).duplicate_limit, 1);
    assert!(!DlcState::enabled(1).is_enabled());
    assert_eq!(DlcState::enabled(4).duplicate_limit, 4);
    assert!(DlcState::enabled(4).is_enabled());
    assert_eq!(DlcState::disabled().increase_duplicate_limit(1).duplicate_limit, 2);
    assert_eq!(
        DlcState::enabled(u32::MAX).increase_duplicate_limit(1).duplicate_limit,
        u32::MAX
    );
    assert_eq!(
        DlcState { duplicate_limit: 0 }.increase_duplicate_limit(0).duplicate_limit,
        1
    );
}

#[test]
fn zero_limit_refuses_every_fruit() {
    let rocket = FruitDef::new("Rocket", Rarity::Common, 1);
    let mut inventory = PlayerInventory::new();
    let result = inventory.add_fruit(&rocket, DlcState { duplicate_limit: 0 });
    assert_eq!(result, AddFruitResult::DuplicateLimitReached { current: 0, limit: 0 });
    assert_eq!(inventory.quantity_of("Rocket"), 0);
    assert_eq!(inventory.limit_for(&rocket, DlcState::enabled(7)), 7);
}

#[test]
fn rarity_labels() {
    assert_eq!(Rarity::Common.label(), "Common");
    assert_eq!(Rarity::Rare.label(), "Rare");
    assert_eq!(Rarity::Epic.label(), "Epic");
    assert_eq!(Rarity::Legendary.label(), "Legendary");
    assert_eq!(Rarity::Mythical.label(), "Mythical");
}

#[test]
fn entries_come_in_name_order() {
    let dlc = DlcState::enabled(5);
    let mut inventory = PlayerInventory::new();
    for name in ["Spin", "Rocket", "diamond", "Magma", "Rocket", "Spin", "Rocket"] {
        let fruit = FruitDef::new(name, Rarity::Common, 1);
        inventory.add_fruit(&fruit, dlc);
    }
    assert_eq!(
        inventory.entries(),
        vec![
            ("Magma".to_string(), 1),
            ("Rocket".to_string(), 3),
            ("Spin".to_string(), 2),
            ("diamond".to_string(), 1),
        ]
    );
}

#[test]
fn from_entries_keeps_the_last_count_of_a_name() {
    let inventory = PlayerInventory::from_entries(vec![
        ("Spin".to_string(), 2),
        ("Rocket".to_string(), 1),
        ("Spin".to_string(), 4),
    ]);
    assert_eq!(inventory.quantity_of("Spin"), 4);
    assert_eq!(inventory.quantity_of("Rocket"), 1);
    assert_eq!(inventory.quantity_of("Light"), 0);
    assert_eq!(
        inventory.entries(),
        vec![("Rocket".to_string(), 1), ("Spin".to_string(), 4)]
    );
}

#[test]
fn inventory_restored_from_its_entries_is_the_same() {
    let dlc = DlcState::enabled(3);
    let mut inventory = PlayerInventory::new();
    for name in ["Light", "Dragon", "Light"] {
        inventory.add_fruit(&FruitDef::new(name, Rarity::Epic, 1), dlc);
    }
    let restored = PlayerInventory::from_entries(inventory.entries());
    assert_eq!(restored.entries(), inventory.entries());
}

#[test]
fn counts_equal_successful_stores_and_stay_positive() {
    let mut inventory = PlayerInventory::new();
    let mut successes = std::collections::HashMap::new();
    let stores = [
        ("Rocket", 2),
        ("Spin", 1),
        ("Rocket", 2),
        ("Rocket", 2),
        ("Spin", 3),
        ("Light", 0),
        ("Rocket", 5),
    ];
    for (name, limit) in stores {
        let fruit = FruitDef::new(name, Rarity::Common, 1);
        if let AddFruitResult::Stored { .. } =
            inventory.add_fruit(&fruit, DlcState { duplicate_limit: limit })
        {
            *successes.entry(name).or_insert(0u32) += 1;
        }
    }
    for name in ["Rocket", "Spin", "Light", "Dragon"] {
        assert_eq!(inventory.quantity_of(name), *successes.get(name).unwrap_or(&0));
    }
    for (_, qty) in inventory.entries() {
        assert!(qty >= 1);
    }
    assert_eq!(inventory.quantity_of("Rocket"), 3);
    assert_eq!(inventory.quantity_of("Spin"), 2);
}

#[test]
fn failed_draw_leaves_the_generator_alone() {
    let mut inventory = PlayerInventory::new();
    let mut rng = test_rng();
    let untouched = rng.clone();
    let zero = vec![FruitDef::new("Piranha", Rarity::Mythical, 0)];
    assert!(draw_fruit(&mut inventory, &[], DlcState::disabled(), &mut rng).is_err());
    assert!(draw_fruit(&mut inventory, &zero, DlcState::disabled(), &mut rng).is_err());
    assert_eq!(rng, untouched);
}

#[test]
fn mythical_dragon_can_be_drawn_from_the_default_pool() {
    let pool = one_luck::data::default_fruit_pool();
    let mut inventory = PlayerInventory::new();
    let outcome =
        draw_fruit_with_roll(&mut inventory, &pool, DlcState::disabled(), 1_380_101).unwrap();
    assert_eq!(outcome.fruit.name, "Dragon");
    assert_eq!(outcome.fruit.rarity, Rarity::Mythical);
    assert_eq!(inventory.quantity_of("Dragon"), 1);
    assert_eq!(
        draw_fruit_with_roll(&mut inventory, &pool, DlcState::disabled(), 1_380_102),
        Err(DrawError::InvalidWeights)
    );
}
