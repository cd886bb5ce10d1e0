use std::collections::HashMap;

use flint_core::nbt::EntityNbt;
use flint_core::plan::{Expect, Request};
use flint_core::results::{AssertFailure, AssertionResult, TestResult};
use flint_core::runner::{
    block_matches, check_id, entity_matches, judge, normalize_entity_nbt_value, Reply, TestRun, Verdict,
};
use flint_core::string_map::StringMap;
use flint_core::test_spec::{WorldConfig, 
    ActionType, AssertType, Block, BlockCheck, BlockSpec, CleanupSpec, EntityCheck, EntityPos, SetupSpec, TestSpec,
    TickSpec, TimelineEntry,
};
use flint_core::traits::EntityState;

/// A world kept in memory, advancing `tick_step` ticks per `DoTick`.
struct MockWorld {
    configured: Vec<WorldConfig>,
    ticks: u64,
    tick_step: u64,
    blocks: HashMap<[i32; 3], Block>,
    players_created: usize,
    interactions: usize,
    fail_player_creation: bool,
    supports_entities: bool,
}

impl MockWorld {
    fn new(tick_step: u64) -> Self {
        MockWorld {
            configured: vec![],
            ticks: 0,
            tick_step,
            blocks: HashMap::new(),
            players_created: 0,
            interactions: 0,
            fail_player_creation: false,
            supports_entities: false,
        }
    }

    fn player(&mut self) -> Result<(), String> {
        if self.fail_player_creation {
            return Err("player attachment failed".to_string());
        }
        if self.players_created == 0 {
            self.players_created = 1;
        }
        Ok(())
    }

    fn perform(&mut self, request: &Request) -> Reply {
        match request {
            Request::ReadTick => Reply::Tick(self.ticks),
            Request::ConfigureWorld { world } => {
                self.configured.push(world.clone());
                Reply::Done
            }
            Request::DoTick => {
                self.ticks += self.tick_step;
                Reply::Done
            }
            Request::SetBlock { pos, block } => {
                self.blocks.insert(*pos, block.clone());
                Reply::Done
            }
            Request::Fill { .. } => Reply::Done,
            Request::GetBlock { pos, .. } => {
                Reply::Block(self.blocks.get(pos).cloned().unwrap_or_else(|| Block::new("minecraft:air")))
            }
            Request::Summon { .. } | Request::TeleportEntity { .. } | Request::GetEntity { .. } => {
                if self.supports_entities {
                    Reply::Done
                } else {
                    Reply::Failed("this world does not support summoning entities".to_string())
                }
            }
            Request::Interact => match self.player() {
                Ok(()) => {
                    self.interactions += 1;
                    Reply::Done
                }
                Err(e) => Reply::Failed(e),
            },
            Request::GetSlot { .. } => match self.player() {
                Ok(()) => Reply::Slot(None),
                Err(e) => Reply::Failed(e),
            },
            Request::SetSlot { .. }
            | Request::SelectHotbar { .. }
            | Request::SetGameMode { .. }
            | Request::TeleportPlayer { .. } => match self.player() {
                Ok(()) => Reply::Done,
                Err(e) => Reply::Failed(e),
            },
        }
    }
}

fn run(world: &mut MockWorld, spec: &TestSpec) -> TestResult {
    let mut run = TestRun::new(spec);
    while let Some(step) = run.current() {
        let request = step.request.clone().expect("a current step makes a call");
        let reply = world.perform(&request);
        run.accept(reply);
    }
    run.into_result()
}

fn test_spec(name: &str, timeline: Vec<TimelineEntry>) -> TestSpec {
    test_spec_in(name, WorldConfig::default(), timeline)
}

fn test_spec_in(name: &str, world: WorldConfig, timeline: Vec<TimelineEntry>) -> TestSpec {
    TestSpec {
        flint_version: None,
        name: name.to_string(),
        description: None,
        tags: vec![],
        minecraft_ids: vec![],
        dependencies: vec![],
        setup: Some(SetupSpec { cleanup: Some(CleanupSpec { region: [[0, 0, 0], [1, 1, 1]] }), player: None, world }),
        timeline,
        breakpoints: vec![],
    }
}

fn place(at: u32, block: &str) -> TimelineEntry {
    TimelineEntry { at: TickSpec::Single(at), action_type: ActionType::Place { pos: [0, 0, 0], block: Block::new(block) } }
}

fn assert_block(at: u32, block: &str) -> TimelineEntry {
    TimelineEntry {
        at: TickSpec::Single(at),
        action_type: ActionType::Assert {
            checks: vec![AssertType::Block(BlockCheck { pos: [0, 0, 0], is: BlockSpec::Single(Block::new(block)) })],
        },
    }
}

fn entity_check(nbt: Option<EntityNbt>) -> EntityCheck {
    EntityCheck {
        entity_alias: "entity".to_string(),
        entity_type: None,
        exists: true,
        count: None,
        pos: None,
        position_tolerance: None,
        rot: None,
        rotation_tolerance: None,
        nbt,
    }
}

#[test]
fn nbt_values_normalize_booleans() {
    assert_eq!(normalize_entity_nbt_value("true"), normalize_entity_nbt_value("1b"));
    assert_eq!(normalize_entity_nbt_value("false"), normalize_entity_nbt_value("0b"));
    assert_eq!(normalize_entity_nbt_value("\"oak\""), "oak");
    assert_ne!(normalize_entity_nbt_value("0.5f"), normalize_entity_nbt_value("0.5"));
}

#[test]
fn entity_nbt_boolean_matches_byte_report() {
    let expected = entity_check(Some(EntityNbt::from_string_values(vec![("NoGravity".to_string(), "true".to_string())])));
    let mut nbt = StringMap::new();
    nbt.insert("NoGravity".to_string(), "1b".to_string());
    let actual = vec![EntityState { nbt, ..EntityState::default() }];
    assert!(entity_matches(&actual, &expected, &vec![true]));
}

#[test]
fn every_entity_must_match_requested_state() {
    let mut expected = entity_check(None);
    expected.entity_type = Some("minecraft:snowball".to_string());
    let matching = EntityState { entity_type: Some("minecraft:snowball".to_string()), ..EntityState::default() };
    let other = EntityState { entity_type: Some("minecraft:egg".to_string()), ..EntityState::default() };
    assert!(entity_matches(&vec![matching.clone()], &expected, &vec![true]));
    assert!(!entity_matches(&vec![matching.clone(), other], &expected, &vec![true, true]));
    // An entity whose position is out of tolerance fails the check.
    assert!(!entity_matches(&vec![matching.clone(), matching], &expected, &vec![true, false]));
}

#[test]
fn entity_count_must_match_when_requested() {
    let mut expected = entity_check(None);
    expected.entity_type = Some("minecraft:snowball".to_string());
    expected.count = Some(1);
    let matching = EntityState { entity_type: Some("minecraft:snowball".to_string()), ..EntityState::default() };
    let too_many = vec![matching.clone(), matching.clone()];
    assert!(entity_matches(&vec![matching], &expected, &vec![true]));
    assert!(!entity_matches(&too_many, &expected, &vec![true, true]));
}

#[test]
fn absent_entity_check_wants_no_entities() {
    let mut expected = entity_check(None);
    expected.exists = false;
    assert!(entity_matches(&vec![], &expected, &vec![]));
    assert!(!entity_matches(&vec![EntityState::default()], &expected, &vec![true]));
    expected.exists = true;
    assert!(!entity_matches(&vec![], &expected, &vec![]));
}

#[test]
fn ids_match_with_or_without_namespace() {
    assert!(check_id("minecraft:stone", "stone"));
    assert!(check_id("stone", "minecraft:stone"));
    assert!(check_id("minecraft:stone", "minecraft:stone"));
    assert!(!check_id("minecraft:stone", "minecraft:dirt"));
}

#[test]
fn block_match_requires_expected_properties() {
    let mut actual = Block::new("minecraft:lever");
    actual.properties.insert("face".to_string(), "floor".to_string());
    actual.properties.insert("powered".to_string(), "false".to_string());
    let mut expected = Block::new("lever");
    expected.properties.insert("face".to_string(), "floor".to_string());
    assert!(block_matches(&actual, &expected));
    expected.properties.insert("powered".to_string(), "true".to_string());
    assert!(!block_matches(&actual, &expected));
    assert!(block_matches(&actual, &actual));
}

#[test]
fn positive_fixture_configures_world_and_observes_exact_tick_one() {
    let mut world = MockWorld::new(1);
    let world_config = WorldConfig { time: "minecraft:noon".to_string(), ..WorldConfig::default() };
    let spec = test_spec_in(
        "positive",
        world_config.clone(),
        vec![place(0, "minecraft:stone"), assert_block(1, "minecraft:stone")],
    );
    let result = run(&mut world, &spec);
    assert!(result.success, "{:?}", result.failure_reason);
    assert_eq!(result.total_ticks, 1);
    assert_eq!(world.configured, vec![world_config]);
    assert_eq!(world.ticks, 1);
    assert!(matches!(result.assertions.as_slice(), [AssertionResult::Success(1)]));
}

#[test]
fn tick_zero_fixture_does_not_advance_the_world() {
    let mut world = MockWorld::new(1);
    let spec = test_spec("tick zero", vec![assert_block(0, "minecraft:air")]);
    let result = run(&mut world, &spec);
    assert!(result.success, "{:?}", result.failure_reason);
    assert_eq!(result.total_ticks, 0);
    assert_eq!(world.ticks, 0);
}

#[test]
fn deliberately_wrong_assertion_returns_a_red_result() {
    let mut world = MockWorld::new(1);
    let spec = test_spec("negative control", vec![place(0, "minecraft:stone"), assert_block(1, "minecraft:dirt")]);
    let result = run(&mut world, &spec);
    assert!(!result.success);
    assert_eq!(result.total_ticks, 1);
    assert!(matches!(result.assertions.as_slice(), [AssertionResult::Failure(AssertFailure::Block(_))]));
}

#[test]
fn runner_rejects_a_world_that_does_not_advance_exactly_one_tick() {
    let mut world = MockWorld::new(0);
    let spec = test_spec("stalled clock", vec![assert_block(1, "minecraft:air")]);
    let result = run(&mut world, &spec);
    assert!(!result.success);
    assert!(result.failure_reason.as_deref().is_some_and(|reason| reason.contains("advance exactly one tick")));
    assert_eq!(result.failure_reason.as_deref(), Some("world must advance exactly one tick: expected 1, got 0"));
}

#[test]
fn interact_creates_a_player_on_demand() {
    let mut world = MockWorld::new(1);
    let spec = test_spec(
        "interact",
        vec![TimelineEntry { at: TickSpec::Single(0), action_type: ActionType::Interact { item: None } }],
    );
    let result = run(&mut world, &spec);
    assert!(result.success, "{:?}", result.failure_reason);
    assert_eq!(world.players_created, 1);
    assert_eq!(world.interactions, 1);
}

#[test]
fn player_creation_failure_becomes_a_red_result() {
    let mut world = MockWorld::new(1);
    world.fail_player_creation = true;
    let spec = test_spec(
        "player attachment failure",
        vec![TimelineEntry { at: TickSpec::Single(0), action_type: ActionType::Interact { item: None } }],
    );
    let result = run(&mut world, &spec);
    assert!(!result.success);
    assert_eq!(result.total_ticks, 0);
    assert!(result.failure_reason.as_deref().is_some_and(|reason| reason.contains("player attachment failed")));
}

#[test]
fn unsupported_entity_action_fails_instead_of_silently_passing() {
    let mut world = MockWorld::new(1);
    let spec = test_spec(
        "unsupported entity",
        vec![TimelineEntry {
            at: TickSpec::Single(0),
            action_type: ActionType::Summon {
                entity_alias: "test".to_string(),
                entity_type: "minecraft:pig".to_string(),
                pos: EntityPos { bits: [0, 0, 0], block: [0, 0, 0] },
                nbt: None,
            },
        }],
    );
    let result = run(&mut world, &spec);
    assert!(!result.success);
    assert!(result.failure_reason.as_deref().is_some_and(|reason| reason.contains("does not support summoning entities")));
}

#[test]
fn world_not_starting_at_tick_zero_is_rejected() {
    let mut world = MockWorld::new(1);
    world.ticks = 5;
    let spec = test_spec("late start", vec![assert_block(0, "minecraft:air")]);
    let result = run(&mut world, &spec);
    assert!(!result.success);
    assert_eq!(result.failure_reason.as_deref(), Some("new test world must start at tick 0, got 5"));
    assert_eq!(result.total_ticks, 0);
}

#[test]
fn program_checks_tick_before_each_timeline_tick() {
    let spec = test_spec("plan", vec![place(0, "minecraft:stone"), assert_block(2, "minecraft:stone")]);
    let mut run = TestRun::new(&spec);
    let step = run.current().unwrap();
    assert!(matches!(step.request, Some(Request::ConfigureWorld { .. })));
    run.accept(Reply::Done);
    let step = run.current().unwrap();
    assert!(matches!(step.request, Some(Request::ReadTick)));
    assert!(matches!(step.expect, Expect::StartTick));
}

#[test]
fn judge_reports_tick_mismatch_before_a_tick() {
    let spec = test_spec("judge", vec![assert_block(0, "minecraft:air")]);
    let mut run = TestRun::new(&spec);
    run.accept(Reply::Done);
    run.accept(Reply::Tick(0));
    let step = run.current().unwrap().clone();
    assert!(matches!(step.expect, Expect::TickBefore));
    match judge(&step, Reply::Tick(3)) {
        Verdict::Error(m) => assert_eq!(m, "world tick mismatch before timeline tick 0: got 3"),
        _ => panic!("expected an error verdict"),
    }
    assert!(matches!(judge(&step, Reply::Done), Verdict::Error(_)));
}

#[test]
fn empty_assertion_passes_without_a_call() {
    let mut world = MockWorld::new(1);
    let spec = test_spec(
        "empty assert",
        vec![TimelineEntry { at: TickSpec::Single(0), action_type: ActionType::Assert { checks: vec![] } }],
    );
    let result = run(&mut world, &spec);
    assert!(result.success);
    assert!(matches!(result.assertions.as_slice(), [AssertionResult::Success(0)]));
}

#[test]
fn run_stops_at_the_first_failed_assertion() {
    let mut world = MockWorld::new(1);
    let spec = test_spec(
        "first failure",
        vec![
            place(0, "minecraft:stone"),
            assert_block(1, "minecraft:stone"),
            assert_block(2, "minecraft:dirt"),
            assert_block(3, "minecraft:stone"),
        ],
    );
    let result = run(&mut world, &spec);
    assert!(!result.success);
    assert_eq!(result.total_ticks, 2);
    assert_eq!(world.ticks, 2);
    match result.assertions.as_slice() {
        [AssertionResult::Success(1), AssertionResult::Failure(f)] => assert_eq!(f.tick(), 2),
        other => panic!("unexpected assertions {:?}", other),
    }
}

#[test]
fn passing_run_records_a_pass_for_every_assertion() {
    let mut world = MockWorld::new(1);
    let spec = test_spec(
        "all green",
        vec![
            place(0, "minecraft:stone"),
            assert_block(1, "minecraft:stone"),
            assert_block(2, "minecraft:stone"),
            assert_block(3, "minecraft:stone"),
        ],
    );
    let result = run(&mut world, &spec);
    assert!(result.success);
    assert!(result.failure_reason.is_none());
    assert_eq!(result.total_ticks, spec.max_tick());
    assert_eq!(world.ticks, 3);
    assert!(matches!(
        result.assertions.as_slice(),
        [AssertionResult::Success(1), AssertionResult::Success(2), AssertionResult::Success(3)]
    ));
}

#[test]
fn block_check_goes_on_exactly_when_it_holds() {
    let step = flint_core::plan::Step {
        tick: 5,
        request: Some(Request::GetBlock { pos: [0, 0, 0], requested_nbt: vec![] }),
        expect: Expect::Block { expected: vec![Block::new("minecraft:stone")], pos: [0, 0, 0] },
        closes_assert: true,
    };
    assert!(matches!(judge(&step, Reply::Block(Block::new("minecraft:stone"))), Verdict::Continue));
    match judge(&step, Reply::Block(Block::new("minecraft:dirt"))) {
        Verdict::Failure(f) => assert_eq!(f.tick(), 5),
        _ => panic!("a check that does not hold must record a failure"),
    }
}

#[test]
fn first_failing_check_of_an_assertion_is_reported() {
    let mut world = MockWorld::new(1);
    let check = |pos: [i32; 3], id: &str| AssertType::Block(BlockCheck { pos, is: BlockSpec::Single(Block::new(id)) });
    let spec = test_spec(
        "first failing check",
        vec![
            place(0, "minecraft:stone"),
            TimelineEntry {
                at: TickSpec::Single(1),
                action_type: ActionType::Assert {
                    checks: vec![
                        check([0, 0, 0], "minecraft:stone"),
                        check([1, 0, 0], "minecraft:dirt"),
                        check([0, 0, 0], "minecraft:dirt"),
                    ],
                },
            },
        ],
    );
    let result = run(&mut world, &spec);
    assert!(!result.success);
    match result.assertions.as_slice() {
        [AssertionResult::Failure(AssertFailure::Block(f))] => {
            assert_eq!(f.position, [1, 0, 0]);
            assert_eq!(f.tick, 1);
        }
        other => panic!("unexpected assertions {:?}", other),
    }
}
