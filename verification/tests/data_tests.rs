use one_luck::data::{
    default_fruit_pool, default_save_path, dlc_code_is_blank, dlc_code_matches, parse_save,
    save_data_from, serialize_save, SaveData, DLC_CODE_PATH, DUPLICATE_LIMIT_INCREMENT_PER_DLC_CODE,
    SAVE_FILE_NAME, SAVE_VERSION,
};
use one_luck::gacha::{DlcState, FruitDef, Rarity};
use one_luck::inventory::PlayerInventory;

#[test]
fn dlc_code_matches_any_non_empty_line() {
    let contents = "FIRST\n\nSECOND\n";

    assert!(dlc_code_matches("SECOND", contents));
    assert!(dlc_code_matches(" FIRST ", contents));
    assert!(!dlc_code_matches("MISSING", contents));
    assert!(!dlc_code_matches("", contents));
}

#[test]
fn dlc_code_lines_are_trimmed() {
    let contents = "  ALPHA  \r\n\t\nBETA";
    assert!(dlc_code_matches("ALPHA", contents));
    assert!(dlc_code_matches("BETA\n", contents));
    assert!(!dlc_code_matches("ALPH", contents));
    assert!(!dlc_code_matches("   ", contents));
    assert!(!dlc_code_matches("ALPHA", ""));
    assert!(dlc_code_is_blank(" \t "));
    assert!(dlc_code_is_blank(""));
    assert!(!dlc_code_is_blank(" x "));
}

#[test]
fn save_round_trip_preserves_inventory_and_duplicate_limit() {
    let save_data = SaveData {
        duplicate_limit: 3,
        inventory: vec![("Rocket".to_string(), 2), ("Magma".to_string(), 1)],
    };

    let text = serialize_save(&save_data);
    let loaded = parse_save(&text).unwrap();

    assert_eq!(loaded, save_data);
}

#[test]
fn serialize_writes_the_format() {
    let save_data = SaveData {
        duplicate_limit: 12,
        inventory: vec![
            ("Rocket".to_string(), 2),
            ("Spin".to_string(), 0),
            ("Magma".to_string(), 105),
        ],
    };
    assert_eq!(
        serialize_save(&save_data),
        "version=1\nduplicate_limit=12\nfruit=Rocket\t2\nfruit=Magma\t105\n"
    );
}

#[test]
fn round_trip_drops_zero_counts_and_raises_zero_limit() {
    let save_data = SaveData {
        duplicate_limit: 0,
        inventory: vec![("Spin".to_string(), 0), ("".to_string(), 4), ("Light".to_string(), 7)],
    };
    let loaded = parse_save(&serialize_save(&save_data)).unwrap();
    assert_eq!(
        loaded,
        SaveData { duplicate_limit: 1, inventory: vec![("Light".to_string(), 7)] }
    );
}

#[test]
fn parse_accepts_blank_lines_whitespace_and_plus_signs() {
    let text = "\n  version=1  \r\n\nduplicate_limit=+4\nfruit=Dragon\t+2\nfruit=Spin\t0\n   \nduplicate_limit=2\n";
    let loaded = parse_save(text).unwrap();
    assert_eq!(
        loaded,
        SaveData { duplicate_limit: 2, inventory: vec![("Dragon".to_string(), 2)] }
    );
}

#[test]
fn parse_without_limit_uses_one() {
    let loaded = parse_save("version=1").unwrap();
    assert_eq!(loaded, SaveData { duplicate_limit: 1, inventory: vec![] });
    let zero = parse_save("duplicate_limit=0\nversion=1\n").unwrap();
    assert_eq!(zero.duplicate_limit, 1);
}

#[test]
fn parse_errors_name_the_line() {
    assert_eq!(parse_save("").unwrap_err(), "save file is missing version");
    assert_eq!(
        parse_save("duplicate_limit=3\n").unwrap_err(),
        "save file is missing version"
    );
    assert_eq!(
        parse_save("version=2\n").unwrap_err(),
        "unsupported save version `2`"
    );
    assert_eq!(
        parse_save("version=1\nduplicate_limit=-1\n").unwrap_err(),
        "invalid duplicate limit on save line 2"
    );
    assert_eq!(
        parse_save("version=1\n\nduplicate_limit=4294967296\n").unwrap_err(),
        "invalid duplicate limit on save line 3"
    );
    assert_eq!(
        parse_save("version=1\nfruit=Rocket 2\n").unwrap_err(),
        "invalid fruit entry on save line 2"
    );
    assert_eq!(
        parse_save("version=1\nfruit=Rocket\tmany\n").unwrap_err(),
        "invalid fruit quantity on save line 2"
    );
    assert_eq!(
        parse_save("version=1\nfruit=Rocket\t\n").unwrap_err(),
        "invalid fruit entry on save line 2"
    );
    assert_eq!(
        parse_save("version=1\n\n\nhello\n").unwrap_err(),
        "unrecognized save line 4"
    );
    assert_eq!(
        parse_save("fruit=Rocket\tx\nversion=1\n").unwrap_err(),
        "invalid fruit quantity on save line 1"
    );
}

#[test]
fn parse_reads_limits_at_the_edges() {
    let max = parse_save("version=1\nduplicate_limit=4294967295\n").unwrap();
    assert_eq!(max.duplicate_limit, u32::MAX);
    let padded = parse_save("version=1\nduplicate_limit=007\n").unwrap();
    assert_eq!(padded.duplicate_limit, 7);
    assert!(parse_save("version=1\nduplicate_limit=+\n").is_err());
    assert!(parse_save("version=1\nduplicate_limit=\n").is_err());
}

#[test]
fn game_state_survives_save_and_load() {
    let dlc = DlcState::enabled(2);
    let mut inventory = PlayerInventory::new();
    for name in ["Spin", "Rocket", "Spin", "Portal"] {
        inventory.add_fruit(&FruitDef::new(name, Rarity::Common, 1), dlc);
    }
    let save_data = save_data_from(&inventory, dlc);
    assert_eq!(save_data.duplicate_limit, 2);
    assert_eq!(
        save_data.inventory,
        vec![
            ("Portal".to_string(), 1),
            ("Rocket".to_string(), 1),
            ("Spin".to_string(), 2),
        ]
    );
    let loaded = parse_save(&serialize_save(&save_data)).unwrap();
    assert_eq!(loaded, save_data);
    let restored = PlayerInventory::from_entries(loaded.inventory);
    assert_eq!(restored.entries(), inventory.entries());
    assert_eq!(DlcState::enabled(loaded.duplicate_limit), dlc);
}

#[test]
fn default_pool_lists_every_fruit() {
    let pool = default_fruit_pool();
    let names: Vec<&str> = pool.iter().map(|f| f.name).collect();
    assert_eq!(
        names,
        vec![
            "Rocket", "Spin", "diamond", "flame", "Light", "Magma", "Portal", "Phoenix", "Piranha",
            "Dragon"
        ]
    );
    assert_eq!(pool[0].rarity, Rarity::Common);
    assert_eq!(pool[3].rarity, Rarity::Rare);
    assert_eq!(pool[5].rarity, Rarity::Epic);
    assert_eq!(pool[6].rarity, Rarity::Legendary);
    assert_eq!(pool[9].rarity, Rarity::Mythical);
    assert_eq!(pool[0].weight, 300_000);
    assert_eq!(pool[6].weight, 1);
    assert_eq!(pool[7].weight, 100);
    assert_eq!(pool[8].weight, 0);
    let total: u64 = pool.iter().map(|f| f.weight as u64).sum();
    assert_eq!(pool[9].weight, 1);
    let weightless: Vec<&str> = pool.iter().filter(|f| f.weight == 0).map(|f| f.name).collect();
    assert_eq!(weightless, vec!["Piranha"]);
    assert_eq!(total, 1_380_102);
}

#[test]
fn default_save_path_prefers_appdata_then_home() {
    assert_eq!(
        default_save_path(Some("C:/Users/me/AppData".to_string()), Some("/home/me".to_string())),
        vec!["C:/Users/me/AppData".to_string(), "oneLuck".to_string(), "save.txt".to_string()]
    );
    assert_eq!(
        default_save_path(Some(String::new()), Some("/home/me".to_string())),
        vec!["/home/me".to_string(), ".gatcha".to_string(), "oneLuck-save.txt".to_string()]
    );
    assert_eq!(
        default_save_path(None, Some(String::new())),
        vec![".gatcha".to_string(), "oneLuck-save.txt".to_string()]
    );
    assert_eq!(
        default_save_path(None, None),
        vec![".gatcha".to_string(), "oneLuck-save.txt".to_string()]
    );
}

#[test]
fn constants_have_their_values() {
    assert_eq!(DLC_CODE_PATH, "DLC/p1fs.txt");
    assert_eq!(DUPLICATE_LIMIT_INCREMENT_PER_DLC_CODE, 1);
    assert_eq!(SAVE_FILE_NAME, "save.txt");
    assert_eq!(SAVE_VERSION, "1");
}

#[test]
fn game_state_with_zero_counts_survives_save_and_load() {
    let inventory = PlayerInventory::from_entries(vec![
        ("Spin".to_string(), 0),
        ("Rocket".to_string(), 2),
    ]);
    let dlc = DlcState::enabled(3);
    let save_data = save_data_from(&inventory, dlc);
    let loaded = parse_save(&serialize_save(&save_data)).unwrap();
    assert_eq!(loaded.inventory, vec![("Rocket".to_string(), 2)]);
    let restored = PlayerInventory::from_entries(loaded.inventory);
    assert_eq!(restored.quantity_of("Rocket"), 2);
    assert_eq!(restored.quantity_of("Spin"), 0);
    assert_eq!(restored.quantity_of("Spin"), inventory.quantity_of("Spin"));
    assert_eq!(DlcState::enabled(loaded.duplicate_limit), dlc);
}
