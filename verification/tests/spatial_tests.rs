use flint_core::spatial::{
    apply_offset, apply_offset_to_region, calculate_test_offsets_for_batch, calculate_test_offsets_for_batch_default,
    pair_tests_with_offsets,
};
use flint_core::test_spec::{WorldConfig, CleanupSpec, SetupSpec, TestSpec};

fn test_spec(name: &str, region: [[i32; 3]; 2]) -> TestSpec {
    TestSpec {
        flint_version: None,
        name: name.to_string(),
        description: None,
        tags: vec![],
        minecraft_ids: vec![],
        dependencies: vec![],
        setup: Some(SetupSpec { cleanup: Some(CleanupSpec { region }), player: None, world: WorldConfig::default() }),
        timeline: vec![],
        breakpoints: vec![],
    }
}

#[test]
fn batch_offsets_space_tests_by_cleanup_region() {
    let test1 = test_spec("test1", [[-5, 0, -5], [5, 0, 5]]);
    let test2 = test_spec("test2", [[-2, 0, -2], [2, 0, 2]]);

    let offsets = calculate_test_offsets_for_batch(&[test1, test2], 4);
    assert_eq!(offsets.len(), 2);
    assert_eq!(offsets[0][0], -4);
    assert_eq!(offsets[1][0], 7);
}

#[test]
fn pair_tests_with_offsets_preserves_order() {
    let tests = vec![test_spec("a", [[0, 0, 0], [1, 0, 1]]), test_spec("b", [[0, 0, 0], [1, 0, 1]])];
    let paired = pair_tests_with_offsets(tests);
    assert_eq!(paired.len(), 2);
    assert_eq!(paired[0].0.name, "a");
    assert_eq!(paired[1].0.name, "b");
}

#[test]
fn single_test_is_centered_at_origin() {
    let offsets = calculate_test_offsets_for_batch_default(&[test_spec("solo", [[-4, 0, -4], [4, 0, 4]])]);
    assert_eq!(offsets, vec![[0, 0, 0]]);
}

#[test]
fn test_apply_offset() {
    let pos = [1, 2, 3];
    let offset = [10, 20, 30];
    let result = apply_offset(pos, offset);
    assert_eq!(result, [11, 22, 33]);
}

#[test]
fn test_apply_offset_negative() {
    let pos = [10, 20, 30];
    let offset = [-5, -10, -15];
    let result = apply_offset(pos, offset);
    assert_eq!(result, [5, 10, 15]);
}

#[test]
fn test_apply_offset_to_region() {
    let region = [[0, 0, 0], [10, 10, 10]];
    let offset = [5, 0, -5];
    let result = apply_offset_to_region(region, offset);
    assert_eq!(result, [[5, 0, -5], [15, 10, 5]]);
}

#[test]
fn four_tests_form_a_two_by_two_grid_without_overlap() {
    let tests: Vec<TestSpec> = (0..4).map(|i| test_spec(&format!("t{i}"), [[-2, 0, -2], [2, 3, 2]])).collect();
    let offsets = calculate_test_offsets_for_batch(&tests, 8);
    assert_eq!(offsets.len(), 4);
    // Each footprint is 5 blocks wide; placed footprints do not overlap.
    for i in 0..4 {
        for j in (i + 1)..4 {
            let dx = (offsets[i][0] - offsets[j][0]).abs();
            let dz = (offsets[i][2] - offsets[j][2]).abs();
            assert!(dx >= 5 || dz >= 5, "tests {i} and {j} overlap: {:?} {:?}", offsets[i], offsets[j]);
        }
    }
}

#[test]
fn empty_batch_has_no_offsets() {
    let offsets = calculate_test_offsets_for_batch(&[], 8);
    assert!(offsets.is_empty());
}

#[test]
fn regions_normalize_to_min_and_max_corners() {
    assert_eq!(flint_core::spatial::normalize_region([[3, -1, 5], [0, 2, -5]]), [[0, -1, -5], [3, 2, 5]]);
}

#[test]
fn batch_grid_aligns_columns_and_rows_and_is_centered() {
    let regions = [
        [[-2, 0, -2], [2, 3, 2]],
        [[-1, 0, -4], [0, 1, 0]],
        [[-5, 0, -1], [1, 2, 3]],
        [[0, 0, 0], [3, 0, 1]],
        [[-3, 0, -3], [3, 0, 3]],
    ];
    let tests: Vec<TestSpec> = regions.iter().enumerate().map(|(i, r)| test_spec(&format!("t{i}"), *r)).collect();
    let padding = 4;
    let offsets = calculate_test_offsets_for_batch(&tests, padding);
    let cols = 3;
    assert_eq!(offsets.len(), 5);
    for i in 0..5 {
        assert_eq!(offsets[i][1], 0);
        for j in 0..5 {
            if i % cols == j % cols {
                assert_eq!(offsets[i][0], offsets[j][0]);
            }
            if i / cols == j / cols {
                assert_eq!(offsets[i][2], offsets[j][2]);
            }
            // Later columns start at least `padding` after earlier ones end.
            if i % cols < j % cols {
                assert!((regions[j][0][0] + offsets[j][0]) - (regions[i][1][0] + offsets[i][0]) >= padding);
            }
            if i / cols < j / cols {
                assert!((regions[j][0][2] + offsets[j][2]) - (regions[i][1][2] + offsets[i][2]) >= padding);
            }
        }
    }
    let lx = (0..5).map(|i| regions[i][0][0] + offsets[i][0]).min().unwrap();
    let rx = (0..5).map(|i| regions[i][1][0] + offsets[i][0]).max().unwrap();
    let lz = (0..5).map(|i| regions[i][0][2] + offsets[i][2]).min().unwrap();
    let rz = (0..5).map(|i| regions[i][1][2] + offsets[i][2]).max().unwrap();
    assert!((lx + rx).abs() <= 1);
    assert!((lz + rz).abs() <= 1);
}
