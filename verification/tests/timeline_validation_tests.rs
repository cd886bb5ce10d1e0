use flint_core::error::ValidationError;
use flint_core::test_spec::{WorldConfig, 
    ActionType, AssertType, Block, BlockCheck, BlockSpec, CleanupSpec, SetupSpec, TestSpec, TickSpec, TimelineEntry,
};
use flint_core::timeline_validation::{
    expected_slug_from_path, slug_from_stem, slugify_test_name, timeline_order_violations, validate_cleanup_region_contains_origin,
    validate_test_file, validate_test_name, validate_timeline_order,
};

fn spec_with_timeline(name: &str, timeline: Vec<TimelineEntry>) -> TestSpec {
    TestSpec {
        flint_version: None,
        name: name.to_string(),
        description: None,
        tags: vec![],
        minecraft_ids: vec![],
        dependencies: vec![],
        setup: Some(SetupSpec { cleanup: Some(CleanupSpec { region: [[-1, -1, -1], [1, 1, 1]] }), player: None, world: WorldConfig::default() }),
        timeline,
        breakpoints: vec![],
    }
}

fn place(at: u32) -> TimelineEntry {
    TimelineEntry {
        at: TickSpec::Single(at),
        action_type: ActionType::Place { pos: [0, 0, 0], block: Block::new("minecraft:stone") },
    }
}

fn assert_block(at: u32, id: &str) -> TimelineEntry {
    TimelineEntry {
        at: TickSpec::Single(at),
        action_type: ActionType::Assert {
            checks: vec![AssertType::Block(BlockCheck { pos: [0, 0, 0], is: BlockSpec::Single(Block::new(id)) })],
        },
    }
}

#[test]
fn slugify_human_readable_name() {
    assert_eq!(slugify_test_name("Fence Row Connections"), "fence_row_connections");
    assert_eq!(slugify_test_name("Create Nether Portal X 21 21 All"), "create_nether_portal_x_21_21_all");
}

#[test]
fn expected_slug_converts_hyphens_and_case() {
    assert_eq!(expected_slug_from_path("tests/wall-2-to-3-length.json").unwrap(), "wall_2_to_3_length");
    assert_eq!(
        expected_slug_from_path("tests/create_nether_portal_X_21_21_All.json").unwrap(),
        "create_nether_portal_x_21_21_all"
    );
}

#[test]
fn accepts_assert_before_place_on_same_tick() {
    let spec = spec_with_timeline("Valid Test", vec![assert_block(1, "minecraft:air"), place(1)]);
    validate_timeline_order(&spec).unwrap();
}

#[test]
fn rejects_assert_after_place_on_same_tick() {
    let spec = spec_with_timeline("Invalid Test", vec![place(1), assert_block(1, "minecraft:stone")]);
    assert!(validate_timeline_order(&spec).is_err());
    let violations = timeline_order_violations(&spec);
    assert_eq!(violations.len(), 1);
    assert_eq!(violations[0].tick, 1);
    assert_eq!(violations[0].timeline_index, 1);
}

#[test]
fn allows_post_mutation_assert_on_later_tick() {
    let spec = spec_with_timeline("Later Tick", vec![place(0), assert_block(1, "minecraft:stone")]);
    validate_timeline_order(&spec).unwrap();
}

#[test]
fn rejects_test_name_mismatch() {
    let spec = spec_with_timeline("Wrong Name", vec![]);
    let err = validate_test_name(&spec, "tests/fence_row_connections.json").unwrap_err();
    assert!(err.message().contains("fence_row_connections"));
}

#[test]
fn accepts_matching_human_name() {
    let spec = spec_with_timeline("Fence Row Connections", vec![]);
    validate_test_name(&spec, "tests/fence_row_connections.json").unwrap();
}

#[test]
fn accepts_cleanup_region_around_origin() {
    let mut spec = spec_with_timeline("At Origin", vec![]);
    spec.setup.as_mut().unwrap().cleanup.as_mut().unwrap().region = [[-10, -2, -5], [4, 8, 12]];
    validate_cleanup_region_contains_origin(&spec).unwrap();
}

#[test]
fn rejects_cleanup_region_in_the_sky() {
    let mut spec = spec_with_timeline("In The Sky", vec![]);
    spec.setup.as_mut().unwrap().cleanup.as_mut().unwrap().region = [[-2, 100, -2], [2, 104, 2]];
    let err = validate_cleanup_region_contains_origin(&spec).unwrap_err();
    assert!(err.message().contains("must contain the origin [0,0,0]"));
}

#[test]
fn rejects_cleanup_region_away_from_origin_on_horizontal_axis() {
    let mut spec = spec_with_timeline("Far Away", vec![]);
    spec.setup.as_mut().unwrap().cleanup.as_mut().unwrap().region = [[100, -2, -2], [104, 2, 2]];
    assert!(validate_cleanup_region_contains_origin(&spec).is_err());
}

#[test]
fn whole_file_check_accepts_a_valid_test() {
    let spec = spec_with_timeline("Fence Row Connections", vec![place(0), assert_block(1, "minecraft:stone")]);
    validate_test_file(&spec, "tests/fence_row_connections.json").unwrap();
}

#[test]
fn whole_file_check_rejects_position_outside_region() {
    let mut spec = spec_with_timeline("Fence Row Connections", vec![]);
    spec.timeline.push(TimelineEntry {
        at: TickSpec::Single(0),
        action_type: ActionType::Place { pos: [5, 0, 0], block: Block::new("minecraft:stone") },
    });
    assert!(validate_test_file(&spec, "tests/fence_row_connections.json").is_err());
}

#[test]
fn path_without_file_name_is_refused() {
    assert!(expected_slug_from_path("").is_err());
}

#[test]
fn whole_file_check_reports_the_first_failing_check() {
    let mut spec = spec_with_timeline("Fence Row Connections", vec![]);
    spec.setup = None;
    let err = validate_test_file(&spec, "tests/fence_row_connections.json").unwrap_err();
    assert!(matches!(err, ValidationError::MissingSetup { .. }));

    let spec = spec_with_timeline("Other Name", vec![]);
    match validate_test_file(&spec, "tests/fence_row_connections.json").unwrap_err() {
        ValidationError::NameMismatch { actual, expected, .. } => {
            assert_eq!(actual, "other_name");
            assert_eq!(expected, "fence_row_connections");
        }
        other => panic!("unexpected error {:?}", other),
    }

    let mut spec = spec_with_timeline("Fence Row Connections", vec![]);
    spec.setup.as_mut().unwrap().cleanup.as_mut().unwrap().region = [[1, 1, 1], [3, 3, 3]];
    match validate_test_file(&spec, "tests/fence_row_connections.json").unwrap_err() {
        ValidationError::RegionAwayFromOrigin { min, max, .. } => {
            assert_eq!(min, [1, 1, 1]);
            assert_eq!(max, [3, 3, 3]);
        }
        other => panic!("unexpected error {:?}", other),
    }
}

#[test]
fn slugs_hold_only_lowercase_letters_digits_and_underscores() {
    let slug = slugify_test_name("  --Redstone: Torch ON/off #2!! ");
    assert_eq!(slug, "redstone_torch_on_off_2");
    assert!(slug.chars().all(|c| c.is_ascii_lowercase() || c.is_ascii_digit() || c == '_'));
    assert!(!slug.starts_with('_') && !slug.ends_with('_'));
}

#[test]
fn order_check_passes_exactly_without_late_asserts() {
    let ok = spec_with_timeline("Order", vec![assert_block(2, "minecraft:air"), place(2), place(3), assert_block(4, "minecraft:stone")]);
    assert!(validate_timeline_order(&ok).is_ok());
    let late = spec_with_timeline("Order", vec![place(2), assert_block(2, "minecraft:air"), place(3)]);
    assert!(validate_timeline_order(&late).is_err());
    assert_eq!(timeline_order_violations(&late).len(), 1);
}

#[test]
fn slugs_are_fixed_points_without_doubled_underscores() {
    let name = "Piston -- Push__Limit (12 blocks)";
    let slug = slugify_test_name(name);
    assert_eq!(slug, "piston_push_limit_12_blocks");
    assert!(!slug.contains("__"));
    assert_eq!(slugify_test_name(&slug), slug);
    let alnums: String = name.chars().filter(|c| c.is_ascii_alphanumeric()).map(|c| c.to_ascii_lowercase()).collect();
    assert_eq!(slug.replace('_', ""), alnums);
}

#[test]
fn stem_slug_turns_hyphens_into_underscores() {
    assert_eq!(slug_from_stem("Wall-2-to-3-Length"), "wall_2_to_3_length");
    assert_eq!(slug_from_stem(""), "");
}

#[test]
fn violations_are_reported_per_tick_in_order() {
    let multi = |ticks: Vec<u32>, action_type: ActionType| TimelineEntry { at: TickSpec::Multiple(ticks), action_type };
    let assert_action = || ActionType::Assert {
        checks: vec![AssertType::Block(BlockCheck { pos: [0, 0, 0], is: BlockSpec::Single(Block::new("minecraft:air")) })],
    };
    let place_action = || ActionType::Place { pos: [0, 0, 0], block: Block::new("minecraft:stone") };
    let spec = spec_with_timeline(
        "Order",
        vec![
            multi(vec![5, 2], place_action()),
            multi(vec![2], assert_action()),
            multi(vec![5, 7], assert_action()),
            multi(vec![7], place_action()),
            multi(vec![2, 5], assert_action()),
        ],
    );
    let v = timeline_order_violations(&spec);
    let pairs: Vec<(u32, usize)> = v.iter().map(|x| (x.tick, x.timeline_index)).collect();
    assert_eq!(pairs, vec![(2, 1), (2, 4), (5, 2), (5, 4)]);
    assert!(v.iter().all(|x| x.action == "assert"));
}
