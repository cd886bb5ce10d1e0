use flint_core::error::ValidationError;
use flint_core::test_spec::{WorldConfig, 
    ActionType, AssertType, Block, BlockCheck, BlockSpec, CleanupSpec, SetupSpec, TestSpec, TickSpec, TimelineEntry,
};

fn spec(name: &str, setup: Option<SetupSpec>, timeline: Vec<TimelineEntry>) -> TestSpec {
    TestSpec {
        flint_version: None,
        name: name.to_string(),
        description: None,
        tags: vec![],
        minecraft_ids: vec![],
        dependencies: vec![],
        setup,
        timeline,
        breakpoints: vec![],
    }
}

fn with_region(name: &str, region: [[i32; 3]; 2], timeline: Vec<TimelineEntry>) -> TestSpec {
    spec(name, Some(SetupSpec { cleanup: Some(CleanupSpec { region }), player: None, world: WorldConfig::default() }), timeline)
}

#[test]
fn missing_setup_is_refused() {
    let err = spec("t", None, vec![]).validate(false).unwrap_err();
    assert!(matches!(err, ValidationError::MissingSetup { .. }));
    assert_eq!(err.message(), "Test 't' missing required 'setup' section");
}

#[test]
fn missing_cleanup_is_refused() {
    let err = spec("t", Some(SetupSpec { cleanup: None, player: None, world: WorldConfig::default() }), vec![]).validate(false).unwrap_err();
    assert_eq!(err.message(), "Test 't' missing 'cleanup' section");
}

#[test]
fn inverted_region_is_refused_when_checking_cleanup() {
    let t = with_region("t", [[2, 0, 0], [1, 0, 0]], vec![]);
    let err = t.validate(true).unwrap_err();
    assert_eq!(
        err.message(),
        "Test 't': Invalid cleanup region - min coordinates must be <= max coordinates. Got min=[2,0,0], max=[1,0,0]"
    );
}

#[test]
fn oversized_regions_are_refused() {
    let wide = with_region("w", [[0, 0, 0], [15, 0, 0]], vec![]).validate(true).unwrap_err();
    assert_eq!(wide.message(), "Test 'w': Cleanup region width 16 exceeds maximum 15");
    let tall = with_region("h", [[0, 0, 0], [0, 384, 0]], vec![]).validate(true).unwrap_err();
    assert_eq!(tall.message(), "Test 'h': Cleanup region height 385 exceeds maximum 384");
    let deep = with_region("d", [[0, 0, 0], [0, 0, 15]], vec![]).validate(true).unwrap_err();
    assert_eq!(deep.message(), "Test 'd': Cleanup region depth 16 exceeds maximum 15");
    // Sizes are not checked unless asked.
    assert!(with_region("w", [[0, 0, 0], [15, 0, 0]], vec![]).validate(false).is_ok());
}

#[test]
fn positions_outside_the_region_are_refused() {
    let t = with_region(
        "t",
        [[0, 0, 0], [3, 3, 3]],
        vec![TimelineEntry {
            at: TickSpec::Single(0),
            action_type: ActionType::Assert {
                checks: vec![AssertType::Block(BlockCheck {
                    pos: [4, 0, 0],
                    is: BlockSpec::Single(Block::new("minecraft:air")),
                })],
            },
        }],
    );
    let err = t.validate(true).unwrap_err();
    assert_eq!(err.message(), "Test 't': Position [4,0,0] is outside cleanup region [0,0,0] to [3,3,3]");
}

#[test]
fn timeline_order_message_lists_each_violation() {
    let t = with_region(
        "t",
        [[0, 0, 0], [3, 3, 3]],
        vec![
            TimelineEntry {
                at: TickSpec::Single(1),
                action_type: ActionType::Place { pos: [0, 0, 0], block: Block::new("minecraft:stone") },
            },
            TimelineEntry {
                at: TickSpec::Multiple(vec![1, 2]),
                action_type: ActionType::Assert {
                    checks: vec![AssertType::Block(BlockCheck {
                        pos: [0, 0, 0],
                        is: BlockSpec::Single(Block::new("minecraft:stone")),
                    })],
                },
            },
        ],
    );
    let err = t.validate(true).unwrap_err();
    assert_eq!(
        err.message(),
        "Test 't': timeline ordering violations (assert must come before other actions on the same tick):\n  tick 1 at timeline[1] (assert) appears after a non-assert action\nMove post-mutation asserts to a later tick, or reorder entries so asserts come first."
    );
}

#[test]
fn valid_spec_passes_and_reports_its_last_tick() {
    let t = with_region(
        "t",
        [[-1, 0, -1], [1, 2, 1]],
        vec![
            TimelineEntry {
                at: TickSpec::Multiple(vec![0, 5]),
                action_type: ActionType::Place { pos: [0, 1, 0], block: Block::new("minecraft:stone") },
            },
            TimelineEntry { at: TickSpec::Single(3), action_type: ActionType::Remove { pos: [1, 2, 1] } },
        ],
    );
    assert!(t.validate(true).is_ok());
    assert_eq!(t.max_tick(), 5);
    assert_eq!(t.cleanup_region(), [[-1, 0, -1], [1, 2, 1]]);
}
