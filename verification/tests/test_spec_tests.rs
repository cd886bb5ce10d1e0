use flint_core::string_map::StringMap;
use flint_core::test_spec::{
    block_from_fields, default_count, default_exists, default_game_type, default_selected_hotbar, Block, BlockError,
    BlockField, GameMode, Item, PlayerSlot, TickSpec,
};

#[test]
fn redstone_lever_with_two_properties_command_string() {
    let mut block = Block::new("minecraft:lever");
    block.properties.insert("powered".to_string(), "false".to_string());
    block.properties.insert("face".to_string(), "floor".to_string());
    let result = block.to_command();
    assert!(
        result == "minecraft:lever[powered=false,face=floor]" || result == "minecraft:lever[face=floor,powered=false]",
        "Got: {}",
        result
    );
}

#[test]
fn only_id_command_string() {
    let block = Block::new("minecraft:stone");
    let result = block.to_command();
    assert_eq!(result, "minecraft:stone");
}

#[test]
fn empty_id_command_string() {
    let block = Block::new("");
    let result = block.to_command();
    assert_eq!(result, "");
}

#[test]
fn test_redstone_wire() {
    let mut block = Block::new("minecraft:redstone_wire");
    block.properties.insert("north".to_string(), "side".to_string());
    block.properties.insert("east".to_string(), "up".to_string());
    block.properties.insert("south".to_string(), "none".to_string());
    block.properties.insert("west".to_string(), "side".to_string());

    let result = block.to_command();
    assert!(result.starts_with("minecraft:redstone_wire["));
    assert!(result.ends_with("]"));
    assert!(result.contains("north=side"));
    assert!(result.contains("east=up"));
    assert!(result.contains("south=none"));
    assert!(result.contains("west=side"));
}

#[test]
fn test_is_air() {
    let air = Block::new("minecraft:air");
    assert!(air.is_air());

    let air_short = Block::new("air");
    assert!(air_short.is_air());

    let stone = Block::new("minecraft:stone");
    assert!(!stone.is_air());
}

#[test]
fn test_parse_lever() {
    let block = block_from_fields(vec![
        BlockField::Id("minecraft:lever".to_string()),
        BlockField::Property("face".to_string(), "floor".to_string()),
        BlockField::Property("powered".to_string(), "false".to_string()),
    ])
    .unwrap();
    assert_eq!(block.id, "minecraft:lever");
    assert_eq!(block.properties.get("face").map(|s| s.as_str()), Some("floor"));
    assert_eq!(block.properties.get("powered").map(|s| s.as_str()), Some("false"));
}

#[test]
fn block_without_id_is_refused() {
    let err = block_from_fields(vec![BlockField::Property("face".to_string(), "floor".to_string())]).unwrap_err();
    assert_eq!(err, BlockError::MissingId);
    assert_eq!(err.message(), "missing field `id`");
}

#[test]
fn test_nested_properties_object() {
    let block = block_from_fields(vec![
        BlockField::Id("minecraft:redstone_wire".to_string()),
        BlockField::Properties(vec![
            ("north".to_string(), "side".to_string()),
            ("power".to_string(), "15".to_string()),
        ]),
    ])
    .unwrap();
    assert_eq!(block.properties.len(), 2);
    assert_eq!(block.properties.get("power").map(|s| s.as_str()), Some("15"));
}

#[test]
fn later_property_value_replaces_earlier_one() {
    let block = block_from_fields(vec![
        BlockField::Property("face".to_string(), "wall".to_string()),
        BlockField::Id("minecraft:lever".to_string()),
        BlockField::Properties(vec![("face".to_string(), "floor".to_string())]),
    ])
    .unwrap();
    assert_eq!(block.properties.len(), 1);
    assert_eq!(block.properties.get("face").map(|s| s.as_str()), Some("floor"));
}

#[test]
fn item_new_with_empty_prefix_gives_empty_item() {
    let item = Item::new("empty");
    assert_eq!(item.id, "minecraft:air");
    assert_eq!(item.count, 0);
    let apple = Item::new("minecraft:apple");
    assert_eq!(apple.id, "minecraft:apple");
    assert_eq!(apple.count, 1);
}

#[test]
fn item_command_lists_data() {
    let mut data = StringMap::new();
    data.insert("potion".to_string(), "healing".to_string());
    let item = Item::with_data_and_count("minecraft:potion", 1, data);
    assert_eq!(item.to_command(), "minecraft:potion[potion=healing]");
}

#[test]
fn hotbar_slots_are_numbered_one_to_nine() {
    assert_eq!(PlayerSlot::hotbar(1), Some(PlayerSlot::Hotbar1));
    assert_eq!(PlayerSlot::hotbar(9), Some(PlayerSlot::Hotbar9));
    assert_eq!(PlayerSlot::hotbar(0), None);
    assert_eq!(PlayerSlot::hotbar(10), None);
    assert_eq!(PlayerSlot::OffHand.name(), "OffHand");
}

#[test]
fn defaults_match_the_format() {
    assert_eq!(default_selected_hotbar(), 1);
    assert_eq!(default_game_type(), GameMode::Creative);
    assert_eq!(default_count(), 1);
    assert!(default_exists());
}

#[test]
fn tick_spec_lists_ticks_in_order() {
    assert_eq!(TickSpec::Single(3).to_vec(), vec![3]);
    assert_eq!(TickSpec::Multiple(vec![5, 1, 5]).to_vec(), vec![5, 1, 5]);
}
