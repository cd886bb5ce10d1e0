use flint_core::results::{
    AssertFailure, AssertPosition, AssertTimeFail, AssertionResult, InfoType, TestResult, TestSummary,
};
use flint_core::test_spec::{Block, EntityCheck, EntityPos, Item, PlayerSlot};
use flint_core::traits::EntityState;

fn make_success(tick: u32) -> AssertionResult {
    AssertionResult::Success(tick)
}

fn make_failure(tick: u32, position: [i32; 3]) -> AssertionResult {
    AssertionResult::Failure(AssertFailure::new_block(
        tick,
        vec![Block::new("minecraft:stone")],
        Block::new("minecraft:air"),
        position,
    ))
}

fn success_rate(summary: &TestSummary) -> f64 {
    let effective = summary.total_tests - summary.skipped_tests;
    if effective == 0 {
        0.0
    } else {
        (summary.passed_tests as f64 / effective as f64) * 100.0
    }
}

#[test]
fn test_assertion_result_success() {
    let result = make_success(5);
    assert!(matches!(result, AssertionResult::Success(5)));
}

#[test]
fn test_assertion_result_failure() {
    let result = make_failure(10, [5, 6, 7]);

    if let AssertionResult::Failure(f) = result {
        assert_eq!(f.tick(), 10);
        assert_eq!(f.error_message(), "Block was different");
        assert_eq!(f.position(), AssertPosition::from_array([5, 6, 7]));
    } else {
        panic!("Expected Failure variant");
    }
}

#[test]
fn time_failure_uses_typed_variant() {
    let failure: AssertFailure = AssertTimeFail::new(12, 1_000, 1_001).into_failure();

    assert!(matches!(failure, AssertFailure::Time(_)));
    assert_eq!(failure.tick(), 12);
    assert_eq!(failure.error_message(), "Time mismatch: expected 1000, got 1001");
    assert_eq!(failure.position(), AssertPosition::from_array([0, 0, 0]));
    assert_eq!(failure.expected().get_string().as_deref(), Some("1000"));
    assert_eq!(failure.actual().get_string().as_deref(), Some("1001"));
}

#[test]
fn block_failure_uses_typed_variant() {
    let failure = AssertFailure::new_block(3, vec![Block::new("minecraft:stone")], Block::new("minecraft:air"), [4, 5, 6]);

    let AssertFailure::Block(block) = failure else {
        panic!("expected block failure variant");
    };
    assert_eq!(block.tick, 3);
    assert_eq!(block.position, [4, 5, 6]);
    assert_eq!(block.expected[0].id, "minecraft:stone");
    assert_eq!(block.actual.id, "minecraft:air");
}

#[test]
fn test_test_result_all_pass() {
    let mut result = TestResult::new("test1").with_total_ticks(20).with_execution_time(5000).with_offset([0, 0, 0]);

    result.add_assertion(make_success(5));
    result.add_assertion(make_success(10));

    assert!(result.success);
    assert_eq!(result.passed_count(), 2);
    assert_eq!(result.failed_count(), 0);
    assert_eq!(result.total_assertions(), 2);
    assert!(result.failure_reason.is_none());
}

#[test]
fn test_test_result_with_failure() {
    let mut result = TestResult::new("test2");

    result.add_assertion(make_success(5));
    result.add_assertion(make_failure(10, [0, 0, 0]));
    result.add_assertion(make_success(15));

    assert!(!result.success);
    assert_eq!(result.passed_count(), 2);
    assert_eq!(result.failed_count(), 1);
    assert_eq!(result.total_assertions(), 3);
}

#[test]
fn test_test_summary() {
    let result1 = TestResult::new("test1").with_execution_time(1000);
    let mut result2 = TestResult::new("test2").with_execution_time(2000);
    result2.add_assertion(make_failure(5, [0, 0, 0]));

    let summary = TestSummary::from_results(vec![result1, result2]);

    assert_eq!(summary.total_tests, 2);
    assert_eq!(summary.passed_tests, 1);
    assert_eq!(summary.failed_tests, 1);
    assert_eq!(summary.total_execution_time_ms, 3000);
    assert_eq!(success_rate(&summary), 50.0);
    assert!(!summary.all_passed());
}

#[test]
fn test_test_summary_all_passed() {
    let result1 = TestResult::new("test1");
    let result2 = TestResult::new("test2");

    let summary = TestSummary::from_results(vec![result1, result2]);

    assert_eq!(summary.total_tests, 2);
    assert_eq!(summary.passed_tests, 2);
    assert_eq!(summary.failed_tests, 0);
    assert_eq!(success_rate(&summary), 100.0);
    assert!(summary.all_passed());
}

#[test]
fn test_test_summary_empty() {
    let summary = TestSummary::from_results(vec![]);

    assert_eq!(summary.total_tests, 0);
    assert_eq!(summary.passed_tests, 0);
    assert_eq!(summary.failed_tests, 0);
    assert_eq!(success_rate(&summary), 0.0);
    assert!(summary.all_passed());
}

#[test]
fn skipped_tests_count_neither_as_passed_nor_failed() {
    let skipped = TestResult::skipped("old", "requires flint_version 2.0.0");
    let failed = TestResult::new("red").with_failure_reason("boom");
    let passed = TestResult::new("green");
    let summary = TestSummary::from_results(vec![skipped, failed, passed]);
    assert_eq!(summary.skipped_tests, 1);
    assert_eq!(summary.failed_tests, 1);
    assert_eq!(summary.passed_tests, 1);
    assert_eq!(summary.failed_tests().len(), 1);
    assert_eq!(summary.failed_tests()[0].test_name, "red");
    assert_eq!(summary.passed_tests()[0].test_name, "green");
    assert_eq!(success_rate(&summary), 50.0);
}

#[test]
fn inventory_failure_shows_items_and_slot() {
    let failure = AssertFailure::new_item(4, &Item::new("minecraft:apple"), &Item::empty(), PlayerSlot::Hotbar2);
    assert_eq!(failure.error_message(), "Inventory slot content was different");
    assert_eq!(failure.position(), AssertPosition::from_slot(PlayerSlot::Hotbar2));
    assert_eq!(failure.position().to_text(), "Hotbar2");
    assert_eq!(failure.expected().to_text(), "minecraft:apple");
    assert_eq!(failure.actual().to_text(), "minecraft:air");
    let none = AssertFailure::new_inventory(4, None, None, PlayerSlot::OffHand);
    assert_eq!(none.expected().get_string().as_deref(), Some("empty"));
}

#[test]
fn positions_and_block_lists_display() {
    assert_eq!(AssertPosition::from_array([1, -2, 3]).to_text(), "(1,-2,3)");
    let blocks = InfoType::Blocks(vec![Block::new("minecraft:stone"), Block::new("minecraft:dirt")]);
    assert_eq!(blocks.to_text(), "minecraft:stone or minecraft:dirt");
    assert_eq!(InfoType::Slot(PlayerSlot::Boots).to_text(), "Boots");
    assert!(blocks.get_string().is_none());
}

#[test]
fn entity_values_display() {
    let check = EntityCheck {
        entity_alias: "pig1".to_string(),
        entity_type: Some("minecraft:pig".to_string()),
        exists: false,
        pos: Some(EntityPos { bits: [0, 0, 0], block: [1, -2, 3] }),
        position_tolerance: None,
        rot: None,
        rotation_tolerance: None,
        nbt: None,
        count: None,
    };
    assert_eq!(
        InfoType::EntityCheck(Box::new(check)).to_text(),
        "entity 'pig1' of type minecraft:pig absent near block [1,-2,3]"
    );
    let mut nbt = flint_core::string_map::StringMap::new();
    nbt.insert("Health".to_string(), "10f".to_string());
    let states = vec![
        EntityState { entity_type: Some("minecraft:pig".to_string()), nbt, ..EntityState::default() },
        EntityState::default(),
    ];
    assert_eq!(
        InfoType::EntityState(Box::new(states)).to_text(),
        "[minecraft:pig with nbt {Health:10f}, unknown entity]"
    );
}
