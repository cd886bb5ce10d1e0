//! The test specification model: what a Flint test file describes.
use vstd::prelude::*;

use crate::error::ValidationError;
use crate::nbt::{EntityNbt, ValueView};
use crate::traits::{copy_opt_text, opt_text};
use crate::spatial::in_i32;
use crate::string_map::{insert_pairs, Pairs, StringMap};
use crate::text::{push_str, str_eq};
use crate::timeline_validation::{all_ticks, order_violations, ticks_upto, validate_timeline_order, violation_pairs};

verus! {

/// Lightweight header read before the full specification: used for version
/// gating and for indexing tests by tag.
#[derive(Debug, Clone)]
pub struct MinimalTestSpec {
    pub flint_version: String,
    pub name: String,
    pub description: Option<String>,
    pub tags: Vec<String>,
    pub minecraft_ids: Vec<String>,
    pub dependencies: Vec<String>,
}

/// A complete test: setup, timeline of actions and assertions, breakpoints.
#[derive(Debug, Clone)]
pub struct TestSpec {
    pub flint_version: Option<String>,
    pub name: String,
    pub description: Option<String>,
    pub tags: Vec<String>,
    pub minecraft_ids: Vec<String>,
    pub dependencies: Vec<String>,
    pub setup: Option<SetupSpec>,
    pub timeline: Vec<TimelineEntry>,
    pub breakpoints: Vec<u32>,
}

#[derive(Debug, Clone)]
pub struct SetupSpec {
    pub cleanup: Option<CleanupSpec>,
    pub player: Option<PlayerConfig>,
    /// World settings applied before the test starts.
    pub world: WorldConfig,
}

/// World settings a test asks for, applied to a new world before its first
/// tick.
#[derive(Debug, Clone, PartialEq, Eq)]
pub struct WorldConfig {
    /// The time of day to set, e.g. `minecraft:noon` (empty: leave it).
    pub time: String,
}

impl Default for WorldConfig {
    fn default() -> (r: Self)
        ensures
            r.time@.len() == 0,
    {
        WorldConfig { time: String::new() }
    }
}

/// The region a test may touch; it is cleared after the test.
#[derive(Debug, Clone, Copy, PartialEq, Eq)]
pub struct CleanupSpec {
    pub region: [[i32; 3]; 2],
}

/// Player inventory slots.
#[derive(Debug, Clone, Copy, PartialEq, Eq, Hash, Structural)]
pub enum PlayerSlot {
    Hotbar1,
    Hotbar2,
    Hotbar3,
    Hotbar4,
    Hotbar5,
    Hotbar6,
    Hotbar7,
    Hotbar8,
    Hotbar9,
    OffHand,
    Helmet,
    Chestplate,
    Leggings,
    Boots,
}

/// The hotbar slot numbered `n` (1 to 9).
pub open spec fn hotbar_slot(n: u8) -> Option<PlayerSlot> {
    if n == 1 {
        Some(PlayerSlot::Hotbar1)
    } else if n == 2 {
        Some(PlayerSlot::Hotbar2)
    } else if n == 3 {
        Some(PlayerSlot::Hotbar3)
    } else if n == 4 {
        Some(PlayerSlot::Hotbar4)
    } else if n == 5 {
        Some(PlayerSlot::Hotbar5)
    } else if n == 6 {
        Some(PlayerSlot::Hotbar6)
    } else if n == 7 {
        Some(PlayerSlot::Hotbar7)
    } else if n == 8 {
        Some(PlayerSlot::Hotbar8)
    } else if n == 9 {
        Some(PlayerSlot::Hotbar9)
    } else {
        None
    }
}

impl PlayerSlot {
    /// Convert a hotbar number (1-9) to its slot.
    pub fn hotbar(n: u8) -> (r: Option<Self>)
        ensures
            r == hotbar_slot(n),
    {
        match n {
            1 => Some(Self::Hotbar1),
            2 => Some(Self::Hotbar2),
            3 => Some(Self::Hotbar3),
            4 => Some(Self::Hotbar4),
            5 => Some(Self::Hotbar5),
            6 => Some(Self::Hotbar6),
            7 => Some(Self::Hotbar7),
            8 => Some(Self::Hotbar8),
            9 => Some(Self::Hotbar9),
            _ => None,
        }
    }
}

#[derive(Copy, Clone, Debug, PartialEq, Eq, Structural)]
pub enum GameMode {
    Survival,
    Creative,
    Adventure,
    Spectator,
}

/// Player configuration for advanced mode (initial inventory setup).
#[derive(Debug, Clone)]
pub struct PlayerConfig {
    /// Initial inventory: slot and the item it holds.
    pub inventory: Vec<(PlayerSlot, Item)>,
    /// Initially selected hotbar slot (1-9).
    pub selected_hotbar: u8,
    /// The game mode of the player.
    pub game_mode: GameMode,
}

/// The hotbar slot selected when a configuration does not name one.
pub fn default_selected_hotbar() -> (r: u8)
    ensures
        r == 1,
{
    1
}

/// The game mode used when a configuration does not name one.
pub fn default_game_type() -> (r: GameMode)
    ensures
        r == GameMode::Creative,
{
    GameMode::Creative
}

/// Stack count used when none is given.
pub fn default_count() -> (r: u8)
    ensures
        r == 1,
{
    1
}

/// Entity checks expect the entity to exist unless told otherwise.
pub fn default_exists() -> (r: bool)
    ensures
        r,
{
    true
}

/// An item that can be held or placed in a slot.
#[derive(Debug, Clone, PartialEq, Eq)]
pub struct Item {
    /// Item identifier, e.g. "minecraft:honeycomb".
    pub id: String,
    /// Stack count.
    pub count: u8,
    /// Item data components.
    pub data: StringMap,
}

/// One entry of the timeline: when, and what.
#[derive(Debug, Clone)]
pub struct TimelineEntry {
    pub at: TickSpec,
    pub action_type: ActionType,
}

/// One tick or several ticks.
#[derive(Debug, Clone)]
pub enum TickSpec {
    Single(u32),
    Multiple(Vec<u32>),
}

/// The ticks a tick specification names, in order.
pub open spec fn ticks_of(t: TickSpec) -> Seq<u32> {
    match t {
        TickSpec::Single(x) => seq![x],
        TickSpec::Multiple(v) => v@,
    }
}

impl TickSpec {
    /// The ticks, in order.
    pub fn to_vec(&self) -> (r: Vec<u32>)
        ensures
            r@ == ticks_of(*self),
    {
        match self {
            TickSpec::Single(t) => {
                let mut v = Vec::new();
                v.push(*t);
                assert(v@ =~= seq![*t]);
                v
            },
            TickSpec::Multiple(v) => {
                let mut r = Vec::new();
                let mut i: usize = 0;
                while i < v.len()
                    invariant
                        i <= v.len(),
                        r@ == v@.take(i as int),
                    decreases v.len() - i,
                {
                    r.push(v[i]);
                    i = i + 1;
                    assert(v@.take(i as int) == v@.take((i - 1) as int).push(v@[i - 1]));
                }
                assert(v@.take(v.len() as int) == v@);
                r
            },
        }
    }
}

/// A block: identifier and block-state properties.
#[derive(Debug, Clone, PartialEq, Eq)]
pub struct Block {
    /// Block identifier, e.g. "minecraft:stone".
    pub id: String,
    /// Block state properties, e.g. powered=true, facing=north.
    pub properties: StringMap,
}

/// An entity position, world coordinates: the bit patterns of the three
/// `f64` coordinates and the block each lies in (each coordinate rounded down).
#[derive(Debug, Clone, Copy, PartialEq, Eq)]
pub struct EntityPos {
    pub bits: [u64; 3],
    pub block: [i32; 3],
}

/// A rotation `[yaw, pitch]`, as the bit patterns of two `f32` values.
#[derive(Debug, Clone, Copy, PartialEq, Eq)]
pub struct Rotation {
    pub bits: [u32; 2],
}

#[derive(Debug, Clone, Copy, PartialEq, Eq, Hash, Structural)]
pub enum BlockFace {
    Top,
    Bottom,
    North,
    South,
    East,
    West,
}

/// What one timeline entry does.
#[derive(Debug, Clone)]
pub enum ActionType {
    Place { pos: [i32; 3], block: Block },
    PlaceEach { blocks: Vec<BlockPlacement> },
    Fill { region: [[i32; 3]; 2], with: Block },
    Remove { pos: [i32; 3] },
    Summon { entity_alias: String, entity_type: String, pos: EntityPos, nbt: Option<EntityNbt> },
    Assert { checks: Vec<AssertType> },
    /// Teleport an entity alias; "player" names the backing player.
    Tp { entity_alias: String, pos: EntityPos, rot: Option<Rotation> },
    /// Interact using the item in the player's active hand.
    Interact { item: Option<String> },
    /// Set an item in a player slot.
    SetSlot { slot: PlayerSlot, item: Option<String>, count: u8 },
    /// Select which hotbar slot is active (1-9).
    SelectHotbar { slot: u8 },
}

#[derive(Debug, Clone)]
pub struct BlockPlacement {
    pub pos: [i32; 3],
    pub block: Block,
}

/// One block or a list of acceptable blocks.
#[derive(Debug, Clone)]
pub enum BlockSpec {
    Single(Block),
    Multiple(Vec<Block>),
}

#[derive(Debug, Clone)]
pub struct BlockCheck {
    pub pos: [i32; 3],
    pub is: BlockSpec,
}

/// An expectation about an entity.
#[derive(Debug, Clone)]
pub struct EntityCheck {
    pub entity_alias: String,
    pub entity_type: Option<String>,
    pub exists: bool,
    /// How many entities must be reported, when given.
    pub count: Option<usize>,
    pub pos: Option<EntityPos>,
    /// Bit pattern of the `f64` position tolerance.
    pub position_tolerance: Option<u64>,
    pub rot: Option<Rotation>,
    /// Bit pattern of the `f32` rotation tolerance.
    pub rotation_tolerance: Option<u32>,
    pub nbt: Option<EntityNbt>,
}

/// Result of a two-phase test specification load.
pub enum TestSpecLoadResult {
    Loaded(TestSpec),
    Skipped { spec: MinimalTestSpec, reason: String },
}

#[derive(Debug, Clone)]
pub struct InventoryCheck {
    pub slot: PlayerSlot,
    pub is: Option<Item>,
}

#[derive(Debug, Clone)]
pub enum AssertType {
    Block(BlockCheck),
    Inventory(InventoryCheck),
    Entity(EntityCheck),
}


/// Whether `p` lies within `region` (given as minimum and maximum corners).
pub open spec fn pos_in_region(p: [i32; 3], region: [[i32; 3]; 2]) -> bool {
    &&& region[0][0] <= p[0] <= region[1][0]
    &&& region[0][1] <= p[1] <= region[1][1]
    &&& region[0][2] <= p[2] <= region[1][2]
}

/// The first of `ps` outside `region`.
pub open spec fn first_outside(ps: Seq<[i32; 3]>, region: [[i32; 3]; 2]) -> Option<[i32; 3]>
    decreases ps.len(),
{
    if ps.len() == 0 {
        None
    } else {
        let p = first_outside(ps.drop_last(), region);
        if p is Some {
            p
        } else if !pos_in_region(ps.last(), region) {
            Some(ps.last())
        } else {
            None
        }
    }
}

/// The block positions an assertion checks.
pub open spec fn check_positions(c: AssertType) -> Seq<[i32; 3]> {
    match c {
        AssertType::Block(b) => seq![b.pos],
        AssertType::Entity(e) => match e.pos {
            Some(p) => seq![p.block],
            None => Seq::empty(),
        },
        AssertType::Inventory(_) => Seq::empty(),
    }
}

pub open spec fn checks_positions(cs: Seq<AssertType>) -> Seq<[i32; 3]>
    decreases cs.len(),
{
    if cs.len() == 0 {
        Seq::empty()
    } else {
        checks_positions(cs.drop_last()) + check_positions(cs.last())
    }
}

/// The positions of block placements, in order.
pub open spec fn placement_positions(bs: Seq<BlockPlacement>) -> Seq<[i32; 3]>
    decreases bs.len(),
{
    if bs.len() == 0 {
        Seq::empty()
    } else {
        placement_positions(bs.drop_last()).push(bs.last().pos)
    }
}

/// The block positions an action touches, in order; player actions touch none.
pub open spec fn action_positions(a: ActionType) -> Seq<[i32; 3]> {
    match a {
        ActionType::Place { pos, .. } => seq![pos],
        ActionType::PlaceEach { blocks } => placement_positions(blocks@),
        ActionType::Fill { region, .. } => seq![region[0], region[1]],
        ActionType::Remove { pos } => seq![pos],
        ActionType::Summon { pos, .. } => seq![pos.block],
        ActionType::Assert { checks } => checks_positions(checks@),
        _ => Seq::empty(),
    }
}

/// The first position of the timeline, entry by entry, outside `region`.
pub open spec fn timeline_first_outside(tl: Seq<TimelineEntry>, region: [[i32; 3]; 2]) -> Option<[i32; 3]>
    decreases tl.len(),
{
    if tl.len() == 0 {
        None
    } else {
        let p = timeline_first_outside(tl.drop_last(), region);
        if p is Some {
            p
        } else {
            first_outside(action_positions(tl.last().action_type), region)
        }
    }
}

/// Largest width (x) and depth (z) of a cleanup region, and its largest height (y).
pub const MAX_WIDTH: i32 = 15;
pub const MAX_HEIGHT: i32 = 384;
pub const MAX_DEPTH: i32 = 15;

/// A kind of rejection, with the values it reports.
pub ghost enum Rejection {
    MissingSetup,
    MissingCleanup,
    InvalidCleanupRegion { min: [i32; 3], max: [i32; 3] },
    RegionTooWide { width: int },
    RegionTooTall { height: int },
    RegionTooDeep { depth: int },
    PositionOutsideRegion { pos: [i32; 3], min: [i32; 3], max: [i32; 3] },
    TimelineOrder,
    InvalidFileName,
    NameMismatch,
    RegionAwayFromOrigin { min: [i32; 3], max: [i32; 3] },
}

pub open spec fn rejection_of(e: ValidationError) -> Rejection {
    match e {
        ValidationError::MissingSetup { .. } => Rejection::MissingSetup,
        ValidationError::MissingCleanup { .. } => Rejection::MissingCleanup,
        ValidationError::InvalidCleanupRegion { min, max, .. } => Rejection::InvalidCleanupRegion { min, max },
        ValidationError::RegionTooWide { width, .. } => Rejection::RegionTooWide { width: width as int },
        ValidationError::RegionTooTall { height, .. } => Rejection::RegionTooTall { height: height as int },
        ValidationError::RegionTooDeep { depth, .. } => Rejection::RegionTooDeep { depth: depth as int },
        ValidationError::PositionOutsideRegion { pos, min, max, .. } => Rejection::PositionOutsideRegion { pos, min, max },
        ValidationError::TimelineOrder { .. } => Rejection::TimelineOrder,
        ValidationError::InvalidFileName { .. } => Rejection::InvalidFileName,
        ValidationError::NameMismatch { .. } => Rejection::NameMismatch,
        ValidationError::RegionAwayFromOrigin { min, max, .. } => Rejection::RegionAwayFromOrigin { min, max },
    }
}

/// The test name an error reports, where it reports one.
pub open spec fn rejected_name(e: ValidationError) -> Seq<char> {
    match e {
        ValidationError::MissingSetup { name } => name@,
        ValidationError::MissingCleanup { name } => name@,
        ValidationError::InvalidCleanupRegion { name, .. } => name@,
        ValidationError::RegionTooWide { name, .. } => name@,
        ValidationError::RegionTooTall { name, .. } => name@,
        ValidationError::RegionTooDeep { name, .. } => name@,
        ValidationError::PositionOutsideRegion { name, .. } => name@,
        ValidationError::TimelineOrder { name, .. } => name@,
        ValidationError::InvalidFileName { path } => path@,
        ValidationError::NameMismatch { name, .. } => name@,
        ValidationError::RegionAwayFromOrigin { name, .. } => name@,
    }
}

/// The timeline has no ordering violation.
pub open spec fn timeline_in_order(tl: Seq<TimelineEntry>) -> bool {
    order_violations(tl, Seq::empty())
}

/// Width, height and depth of a region, as `max - min + 1`.
pub open spec fn region_dims(r: [[i32; 3]; 2]) -> (int, int, int) {
    (r[1][0] - r[0][0] + 1, r[1][1] - r[0][1] + 1, r[1][2] - r[0][2] + 1)
}

/// The cleanup region of a test, where it has one.
pub open spec fn spec_cleanup_region(t: TestSpec) -> Option<[[i32; 3]; 2]> {
    match t.setup {
        Some(s) => match s.cleanup {
            Some(c) => Some(c.region),
            None => None,
        },
        None => None,
    }
}

/// The dimensions of the cleanup region fit in an `i32`.
pub open spec fn dims_fit(t: TestSpec) -> bool {
    spec_cleanup_region(t) matches Some(r) ==> {
        &&& in_i32(r[1][0] - r[0][0]) && in_i32(r[1][0] - r[0][0] + 1)
        &&& in_i32(r[1][1] - r[0][1]) && in_i32(r[1][1] - r[0][1] + 1)
        &&& in_i32(r[1][2] - r[0][2]) && in_i32(r[1][2] - r[0][2] + 1)
    }
}

/// What validation finds wrong with a test, checked in this order: setup,
/// cleanup, (when asked) the region's bounds and size, positions outside the
/// region, timeline order.
pub open spec fn validation_outcome(t: TestSpec, cleanup: bool) -> Option<Rejection> {
    match t.setup {
        None => Some(Rejection::MissingSetup),
        Some(s) => match s.cleanup {
            None => Some(Rejection::MissingCleanup),
            Some(c) => {
                let r = c.region;
                let d = region_dims(r);
                if cleanup && (r[0][0] > r[1][0] || r[0][1] > r[1][1] || r[0][2] > r[1][2]) {
                    Some(Rejection::InvalidCleanupRegion { min: r[0], max: r[1] })
                } else if cleanup && d.0 > 15 {
                    Some(Rejection::RegionTooWide { width: d.0 })
                } else if cleanup && d.1 > 384 {
                    Some(Rejection::RegionTooTall { height: d.1 })
                } else if cleanup && d.2 > 15 {
                    Some(Rejection::RegionTooDeep { depth: d.2 })
                } else {
                    timeline_outcome(t, r)
                }
            },
        },
    }
}

/// What validation finds wrong with the timeline of a test whose cleanup
/// region is `r`: a position outside `r`, or asserts out of order.
pub open spec fn timeline_outcome(t: TestSpec, r: [[i32; 3]; 2]) -> Option<Rejection> {
    if timeline_first_outside(t.timeline@, r) is Some {
        Some(Rejection::PositionOutsideRegion { pos: timeline_first_outside(t.timeline@, r)->0, min: r[0], max: r[1] })
    } else if !timeline_in_order(t.timeline@) {
        Some(Rejection::TimelineOrder)
    } else {
        None
    }
}

proof fn lemma_first_outside_concat(a: Seq<[i32; 3]>, b: Seq<[i32; 3]>, region: [[i32; 3]; 2])
    ensures
        first_outside(a + b, region) == if first_outside(a, region) is Some {
            first_outside(a, region)
        } else {
            first_outside(b, region)
        },
    decreases b.len(),
{
    if b.len() == 0 {
        assert(a + b =~= a);
    } else {
        lemma_first_outside_concat(a, b.drop_last(), region);
        assert((a + b).drop_last() =~= a + b.drop_last());
    }
}

fn in_region(p: [i32; 3], region: [[i32; 3]; 2]) -> (r: bool)
    ensures
        r == pos_in_region(p, region),
{
    region[0][0] <= p[0] && p[0] <= region[1][0] && region[0][1] <= p[1] && p[1] <= region[1][1]
        && region[0][2] <= p[2] && p[2] <= region[1][2]
}

fn check_first_outside(c: &AssertType, region: [[i32; 3]; 2]) -> (r: Option<[i32; 3]>)
    ensures
        r == first_outside(check_positions(*c), region),
{
    match c {
        AssertType::Block(b) => {
            proof { lemma_first_outside_single(b.pos, region); }
            if in_region(b.pos, region) { None } else { Some(b.pos) }
        },
        AssertType::Entity(e) => match e.pos {
            Some(p) => {
                proof { lemma_first_outside_single(p.block, region); }
                if in_region(p.block, region) { None } else { Some(p.block) }
            },
            None => None,
        },
        AssertType::Inventory(_) => None,
    }
}

fn action_first_outside(a: &ActionType, region: [[i32; 3]; 2]) -> (r: Option<[i32; 3]>)
    ensures
        r == first_outside(action_positions(*a), region),
{
    match a {
        ActionType::Place { pos, .. } => {
            proof { lemma_first_outside_single(*pos, region); }
            if in_region(*pos, region) { None } else { Some(*pos) }
        },
        ActionType::Remove { pos } => {
            proof { lemma_first_outside_single(*pos, region); }
            if in_region(*pos, region) { None } else { Some(*pos) }
        },
        ActionType::Summon { pos, .. } => {
            proof { lemma_first_outside_single(pos.block, region); }
            if in_region(pos.block, region) { None } else { Some(pos.block) }
        },
        ActionType::Fill { region: fill, .. } => {
            proof { lemma_first_outside_single(fill[0], region); }
            assert(seq![fill[0], fill[1]].drop_last() =~= seq![fill[0]]);
            if !in_region(fill[0], region) {
                Some(fill[0])
            } else if !in_region(fill[1], region) {
                Some(fill[1])
            } else {
                None
            }
        },
        ActionType::PlaceEach { blocks } => {
            let mut k: usize = 0;
            assert(placement_positions(blocks@.take(0)) =~= Seq::<[i32; 3]>::empty());
            while k < blocks.len()
                invariant
                    k <= blocks.len(),
                    action_positions(*a) == placement_positions(blocks@),
                    first_outside(placement_positions(blocks@.take(k as int)), region) is None,
                decreases blocks.len() - k,
            {
                assert(blocks@.take(k + 1).drop_last() =~= blocks@.take(k as int));
                assert(placement_positions(blocks@.take(k + 1)) == placement_positions(blocks@.take(k as int)).push(blocks@[k as int].pos));
                assert(placement_positions(blocks@.take(k + 1)).drop_last() =~= placement_positions(blocks@.take(k as int)));
                if !in_region(blocks[k].pos, region) {
                    proof {
                        lemma_placements_prefix_first_outside(blocks@, k + 1, region);
                    }
                    return Some(blocks[k].pos);
                }
                k = k + 1;
            }
            assert(blocks@.take(blocks.len() as int) == blocks@);
            None
        },
        ActionType::Assert { checks } => {
            let mut k: usize = 0;
            assert(checks_positions(checks@.take(0)) =~= Seq::<[i32; 3]>::empty());
            while k < checks.len()
                invariant
                    k <= checks.len(),
                    action_positions(*a) == checks_positions(checks@),
                    first_outside(checks_positions(checks@.take(k as int)), region) is None,
                decreases checks.len() - k,
            {
                let q = check_first_outside(&checks[k], region);
                assert(checks@.take(k + 1).drop_last() =~= checks@.take(k as int));
                proof {
                    lemma_first_outside_concat(
                        checks_positions(checks@.take(k as int)),
                        check_positions(checks@[k as int]),
                        region,
                    );
                }
                if q.is_some() {
                    assert(first_outside(checks_positions(checks@.take(k + 1)), region) == q);
                    proof {
                        lemma_checks_prefix_first_outside(checks@, k as int + 1, region);
                    }
                    return q;
                }
                k = k + 1;
            }
            assert(checks@.take(checks.len() as int) == checks@);
            None
        },
        _ => {
            assert(first_outside(Seq::<[i32; 3]>::empty(), region) is None);
            None
        },
    }
}

proof fn lemma_checks_prefix_first_outside(cs: Seq<AssertType>, k: int, region: [[i32; 3]; 2])
    requires
        0 <= k <= cs.len(),
        first_outside(checks_positions(cs.take(k)), region) is Some,
    ensures
        first_outside(checks_positions(cs), region) == first_outside(checks_positions(cs.take(k)), region),
    decreases cs.len() - k,
{
    if k < cs.len() {
        assert(cs.take(k + 1).drop_last() =~= cs.take(k));
        lemma_first_outside_concat(checks_positions(cs.take(k)), check_positions(cs[k]), region);
        lemma_checks_prefix_first_outside(cs, k + 1, region);
    } else {
        assert(cs.take(k) == cs);
    }
}

proof fn lemma_first_outside_single(p: [i32; 3], region: [[i32; 3]; 2])
    ensures
        first_outside(seq![p], region) == if pos_in_region(p, region) { None } else { Some(p) },
{
    let e = seq![p].drop_last();
    assert(e =~= Seq::<[i32; 3]>::empty());
    assert(first_outside(e, region) is None);
    assert(seq![p].last() == p);
}

proof fn lemma_placements_prefix_first_outside(bs: Seq<BlockPlacement>, k: int, region: [[i32; 3]; 2])
    requires
        0 <= k <= bs.len(),
        first_outside(placement_positions(bs.take(k)), region) is Some,
    ensures
        first_outside(placement_positions(bs), region) == first_outside(placement_positions(bs.take(k)), region),
    decreases bs.len() - k,
{
    if k < bs.len() {
        assert(bs.take(k + 1).drop_last() =~= bs.take(k));
        assert(placement_positions(bs.take(k + 1)).drop_last() =~= placement_positions(bs.take(k)));
        lemma_placements_prefix_first_outside(bs, k + 1, region);
    } else {
        assert(bs.take(k) == bs);
    }
}

proof fn lemma_timeline_prefix_first_outside(tl: Seq<TimelineEntry>, k: int, region: [[i32; 3]; 2])
    requires
        0 <= k <= tl.len(),
        timeline_first_outside(tl.take(k), region) is Some,
    ensures
        timeline_first_outside(tl, region) == timeline_first_outside(tl.take(k), region),
    decreases tl.len() - k,
{
    if k < tl.len() {
        assert(tl.take(k + 1).drop_last() =~= tl.take(k));
        lemma_timeline_prefix_first_outside(tl, k + 1, region);
    } else {
        assert(tl.take(k) == tl);
    }
}

impl TestSpec {
    /// The largest tick the timeline names, or 0 for an empty timeline.
    pub fn max_tick(&self) -> (r: u32)
        ensures
            forall|u: u32| all_ticks(self.timeline@).contains(u) ==> u <= r,
            r == 0 || all_ticks(self.timeline@).contains(r),
    {
        let mut m: u32 = 0;
        let mut i: usize = 0;
        while i < self.timeline.len()
            invariant
                i <= self.timeline.len(),
                forall|u: u32| ticks_upto(self.timeline@, i as int).contains(u) ==> u <= m,
                m == 0 || ticks_upto(self.timeline@, i as int).contains(m),
            decreases self.timeline.len() - i,
        {
            let ticks = self.timeline[i].at.to_vec();
            let ghost before = ticks_upto(self.timeline@, i as int);
            let mut k: usize = 0;
            while k < ticks.len()
                invariant
                    k <= ticks.len(),
                    forall|u: u32| before.contains(u) ==> u <= m,
                    forall|q: int| 0 <= q < k ==> ticks@[q] <= m,
                    m == 0 || before.contains(m) || ticks@.take(k as int).contains(m),
                decreases ticks.len() - k,
            {
                if ticks[k] > m {
                    m = ticks[k];
                    assert(ticks@.take(k + 1)[k as int] == m);
                } else {
                    assert(ticks@.take(k as int).contains(m) ==> ticks@.take(k + 1).contains(m)) by {
                        if ticks@.take(k as int).contains(m) {
                            let q = choose|q: int| 0 <= q < k && ticks@.take(k as int)[q] == m;
                            assert(ticks@.take(k + 1)[q] == m);
                        }
                    }
                }
                k = k + 1;
            }
            assert(ticks@.take(ticks.len() as int) == ticks@);
            assert forall|u: u32| #[trigger] ticks_upto(self.timeline@, i + 1).contains(u) implies u <= m by {
                if ticks@.to_set().contains(u) {
                    let q = choose|q: int| 0 <= q < ticks@.len() && ticks@[q] == u;
                }
            }
            i = i + 1;
        }
        m
    }

    /// The cleanup region; a test without one is refused by `requires`.
    pub fn cleanup_region(&self) -> (r: [[i32; 3]; 2])
        requires
            spec_cleanup_region(*self) is Some,
        ensures
            spec_cleanup_region(*self) == Some(r),
    {
        let setup = self.setup.as_ref().unwrap();
        setup.cleanup.as_ref().unwrap().region
    }

    /// Check that the test has a cleanup region, that (when `cleanup` is set)
    /// the region is well-formed and small enough, that every position the
    /// timeline touches lies in it, and that on each tick asserts come first.
    pub fn validate(&self, cleanup: bool) -> (r: Result<(), ValidationError>)
        requires
            cleanup ==> dims_fit(*self),
        ensures
            r is Ok <==> validation_outcome(*self, cleanup) is None,
            r matches Err(e) ==> Some(rejection_of(e)) == validation_outcome(*self, cleanup)
                && rejected_name(e) == self.name@,
            r matches Err(ValidationError::TimelineOrder { violations, .. }) ==> order_violations(
                self.timeline@,
                violation_pairs(violations@),
            ) && violations@.len() > 0,
    {
        let setup = match &self.setup {
            Some(s) => s,
            None => {
                return Err(ValidationError::MissingSetup { name: self.name.clone() });
            },
        };
        let region = match &setup.cleanup {
            Some(c) => c.region,
            None => {
                return Err(ValidationError::MissingCleanup { name: self.name.clone() });
            },
        };
        if cleanup {
            let min = region[0];
            let max = region[1];
            let width = max[0] - min[0] + 1;
            let height = max[1] - min[1] + 1;
            let depth = max[2] - min[2] + 1;
            if min[0] > max[0] || min[1] > max[1] || min[2] > max[2] {
                return Err(ValidationError::InvalidCleanupRegion { name: self.name.clone(), min, max });
            }
            if width > MAX_WIDTH {
                return Err(ValidationError::RegionTooWide { name: self.name.clone(), width });
            }
            if height > MAX_HEIGHT {
                return Err(ValidationError::RegionTooTall { name: self.name.clone(), height });
            }
            if depth > MAX_DEPTH {
                return Err(ValidationError::RegionTooDeep { name: self.name.clone(), depth });
            }
        }
        let mut i: usize = 0;
        while i < self.timeline.len()
            invariant
                i <= self.timeline.len(),
                validation_outcome(*self, cleanup) == timeline_outcome(*self, region),
                timeline_first_outside(self.timeline@.take(i as int), region) is None,
            decreases self.timeline.len() - i,
        {
            let q = action_first_outside(&self.timeline[i].action_type, region);
            assert(self.timeline@.take(i + 1).drop_last() =~= self.timeline@.take(i as int));
            assert(self.timeline@.take(i + 1).last() == self.timeline@[i as int]);
            match q {
                Some(p) => {
                    proof {
                        lemma_timeline_prefix_first_outside(self.timeline@, i + 1, region);
                    }
                    return Err(ValidationError::PositionOutsideRegion {
                        name: self.name.clone(),
                        pos: p,
                        min: region[0],
                        max: region[1],
                    });
                },
                None => {},
            }
            i = i + 1;
        }
        assert(self.timeline@.take(self.timeline.len() as int) == self.timeline@);
        validate_timeline_order(self)
    }
}


/// The block positions a timeline touches, entry by entry.
pub open spec fn timeline_positions(tl: Seq<TimelineEntry>) -> Seq<[i32; 3]>
    decreases tl.len(),
{
    if tl.len() == 0 {
        Seq::empty()
    } else {
        timeline_positions(tl.drop_last()) + action_positions(tl.last().action_type)
    }
}

proof fn lemma_first_outside_none(ps: Seq<[i32; 3]>, region: [[i32; 3]; 2])
    ensures
        first_outside(ps, region) is None <==> forall|k: int| 0 <= k < ps.len() ==> pos_in_region(#[trigger] ps[k], region),
    decreases ps.len(),
{
    if ps.len() > 0 {
        let q = ps.drop_last();
        lemma_first_outside_none(q, region);
        if first_outside(ps, region) is None {
            assert forall|k: int| 0 <= k < ps.len() implies pos_in_region(#[trigger] ps[k], region) by {
                if k < q.len() {
                    assert(q[k] == ps[k]);
                }
            }
        } else {
            if first_outside(q, region) is Some {
                let k = choose|k: int| 0 <= k < q.len() && !pos_in_region(#[trigger] q[k], region);
                assert(ps[k] == q[k]);
            } else {
                assert(!pos_in_region(ps[ps.len() - 1], region));
            }
        }
    }
}

proof fn lemma_timeline_positions(tl: Seq<TimelineEntry>, region: [[i32; 3]; 2])
    ensures
        timeline_first_outside(tl, region) == first_outside(timeline_positions(tl), region),
    decreases tl.len(),
{
    if tl.len() > 0 {
        lemma_timeline_positions(tl.drop_last(), region);
        lemma_first_outside_concat(
            timeline_positions(tl.drop_last()),
            action_positions(tl.last().action_type),
            region,
        );
    }
}

/// A test passes validation exactly when it has a setup with a cleanup
/// region; when `cleanup` is asked for, that region is well-formed and at
/// most 15 wide, 384 tall and 15 deep; every block position its timeline
/// touches lies in the region; and on every tick its asserts come first.
pub proof fn law_validation_accepts(t: TestSpec, cleanup: bool)
    ensures
        validation_outcome(t, cleanup) is None <==> {
            &&& spec_cleanup_region(t) matches Some(r)
            &&& cleanup ==> {
                &&& r[0][0] <= r[1][0] && r[0][1] <= r[1][1] && r[0][2] <= r[1][2]
                &&& region_dims(r).0 <= 15 && region_dims(r).1 <= 384 && region_dims(r).2 <= 15
            }
            &&& forall|k: int|
                0 <= k < timeline_positions(t.timeline@).len() ==> pos_in_region(
                    #[trigger] timeline_positions(t.timeline@)[k],
                    r,
                )
            &&& timeline_in_order(t.timeline@)
        },
{
    if spec_cleanup_region(t) is Some {
        let r = spec_cleanup_region(t)->0;
        lemma_timeline_positions(t.timeline@, r);
        lemma_first_outside_none(timeline_positions(t.timeline@), r);
    }
}

/// Position `j` of the positions entry `k` touches, as it stands in the
/// positions of the whole timeline.
proof fn lemma_timeline_position_index(tl: Seq<TimelineEntry>, k: int, j: int) -> (q: int)
    requires
        0 <= k < tl.len(),
        0 <= j < action_positions(tl[k].action_type).len(),
    ensures
        0 <= q < timeline_positions(tl).len(),
        timeline_positions(tl)[q] == action_positions(tl[k].action_type)[j],
    decreases tl.len(),
{
    let pre = tl.drop_last();
    let a = timeline_positions(pre);
    let b = action_positions(tl.last().action_type);
    assert(timeline_positions(tl) == a + b);
    if k == tl.len() - 1 {
        assert((a + b)[a.len() + j] == b[j]);
        a.len() + j
    } else {
        assert(pre[k] == tl[k]);
        let q = lemma_timeline_position_index(pre, k, j);
        assert((a + b)[q] == a[q]);
        q
    }
}

/// Every position the timeline touches lies in the cleanup region of a test
/// that passes validation.
proof fn lemma_validated_position_inside(t: TestSpec, cleanup: bool, k: int, j: int)
    requires
        validation_outcome(t, cleanup) is None,
        0 <= k < t.timeline@.len(),
        0 <= j < action_positions(t.timeline@[k].action_type).len(),
    ensures
        spec_cleanup_region(t) is Some,
        pos_in_region(action_positions(t.timeline@[k].action_type)[j], spec_cleanup_region(t)->0),
{
    law_validation_accepts(t, cleanup);
    let q = lemma_timeline_position_index(t.timeline@, k, j);
    assert(pos_in_region(timeline_positions(t.timeline@)[q], spec_cleanup_region(t)->0));
}

/// A test that passes validation fills only inside its cleanup region: both
/// corners of every fill lie in the region on every axis.
pub proof fn law_validated_fill_inside(t: TestSpec, cleanup: bool, k: int, fill: [[i32; 3]; 2])
    requires
        validation_outcome(t, cleanup) is None,
        0 <= k < t.timeline@.len(),
        t.timeline@[k].action_type matches ActionType::Fill { region, .. } && region == fill,
    ensures
        spec_cleanup_region(t) is Some,
        forall|c: int, a: int|
            0 <= c < 2 && 0 <= a < 3 ==> spec_cleanup_region(t)->0[0][a] <= #[trigger] fill[c][a]
                <= spec_cleanup_region(t)->0[1][a],
{
    lemma_validated_position_inside(t, cleanup, k, 0);
    lemma_validated_position_inside(t, cleanup, k, 1);
    let r = spec_cleanup_region(t)->0;
    assert(pos_in_region(fill[0], r) && pos_in_region(fill[1], r));
    assert forall|c: int, a: int| 0 <= c < 2 && 0 <= a < 3 implies r[0][a] <= #[trigger] fill[c][a] <= r[1][a] by {
        if c == 0 {
            assert(fill[c] == fill[0]);
        } else {
            assert(fill[c] == fill[1]);
        }
    }
}

/// A test that passes validation places and removes blocks only inside its
/// cleanup region, and summons entities only there.
pub proof fn law_validated_block_actions_inside(t: TestSpec, cleanup: bool, k: int, p: [i32; 3])
    requires
        validation_outcome(t, cleanup) is None,
        0 <= k < t.timeline@.len(),
        (t.timeline@[k].action_type matches ActionType::Place { pos, .. } && pos == p) || (
        t.timeline@[k].action_type matches ActionType::Remove { pos } && pos == p) || (
        t.timeline@[k].action_type matches ActionType::Summon { pos, .. } && pos.block == p),
    ensures
        spec_cleanup_region(t) is Some,
        forall|a: int| 0 <= a < 3 ==> spec_cleanup_region(t)->0[0][a] <= #[trigger] p[a] <= spec_cleanup_region(t)->0[1][a],
{
    lemma_validated_position_inside(t, cleanup, k, 0);
    let r = spec_cleanup_region(t)->0;
    assert(pos_in_region(p, r));
    assert forall|a: int| 0 <= a < 3 implies r[0][a] <= #[trigger] p[a] <= r[1][a] by {}
}

/// A block with no properties shows as its identifier alone.
pub proof fn law_bare_block_command(b: BlockView)
    requires
        b.properties.len() == 0,
    ensures
        command_text(b.id, b.properties) == b.id,
{
}

/// Properties written as `k1=v1,k2=v2`, in the map's order.
pub open spec fn pairs_text(ps: Pairs) -> Seq<char>
    decreases ps.len(),
{
    if ps.len() == 0 {
        Seq::empty()
    } else if ps.len() == 1 {
        ps[0].0 + "="@ + ps[0].1
    } else {
        pairs_text(ps.drop_last()) + ","@ + ps.last().0 + "="@ + ps.last().1
    }
}

/// A command string such as `minecraft:lever[powered=false,face=floor]`: the
/// identifier alone when there are no properties.
pub open spec fn command_text(id: Seq<char>, ps: Pairs) -> Seq<char> {
    if ps.len() == 0 {
        id
    } else {
        id + "["@ + pairs_text(ps) + "]"@
    }
}

fn command_string(id: &String, ps: &StringMap) -> (r: String)
    ensures
        r@ == command_text(id@, ps@),
{
    if ps.is_empty() {
        return id.clone();
    }
    let mut s = id.clone();
    push_str(&mut s, "[");
    let ghost head = s@;
    let mut i: usize = 0;
    while i < ps.len()
        invariant
            i <= ps@.len(),
            s@ == head + pairs_text(ps@.take(i as int)),
        decreases ps@.len() - i,
    {
        if i > 0 {
            push_str(&mut s, ",");
        }
        push_str(&mut s, ps.key_at(i).as_str());
        push_str(&mut s, "=");
        push_str(&mut s, ps.value_at(i).as_str());
        assert(ps@.take(i + 1).drop_last() =~= ps@.take(i as int));
        i = i + 1;
    }
    assert(ps@.take(ps@.len() as int) == ps@);
    push_str(&mut s, "]");
    s
}

/// A block as the specifications see it.
pub ghost struct BlockView {
    pub id: Seq<char>,
    pub properties: Pairs,
}

impl View for Block {
    type V = BlockView;

    open spec fn view(&self) -> BlockView {
        BlockView { id: self.id@, properties: self.properties@ }
    }
}

impl Block {
    /// Create a block with no properties.
    pub fn new(id: &str) -> (r: Self)
        ensures
            r.id@ == id@,
            r.properties@.len() == 0,
    {
        Block { id: id.to_string(), properties: StringMap::new() }
    }

    /// Create a block with the given properties.
    pub fn with_properties(id: &str, properties: StringMap) -> (r: Self)
        ensures
            r.id@ == id@,
            r.properties@ == properties@,
    {
        Block { id: id.to_string(), properties }
    }

    /// Whether this block is air.
    pub fn is_air(&self) -> (r: bool)
        ensures
            r == (self.id@ == "minecraft:air"@ || self.id@ == "air"@),
    {
        str_eq(self.id.as_str(), "minecraft:air") || str_eq(self.id.as_str(), "air")
    }

    /// The command string, e.g. `minecraft:lever[powered=false,face=floor]`.
    pub fn to_command(&self) -> (r: String)
        ensures
            r@ == command_text(self.id@, self.properties@),
    {
        command_string(&self.id, &self.properties)
    }

    /// A copy of this block.
    pub fn duplicate(&self) -> (r: Self)
        ensures
            r@ == self@,
    {
        Block { id: self.id.clone(), properties: self.properties.duplicate() }
    }
}

/// An item as the specifications see it.
pub ghost struct ItemView {
    pub id: Seq<char>,
    pub count: u8,
    pub data: Pairs,
}

impl View for Item {
    type V = ItemView;

    open spec fn view(&self) -> ItemView {
        ItemView { id: self.id@, count: self.count, data: self.data@ }
    }
}

/// Whether `s` starts with `p`.
pub open spec fn starts_with(s: Seq<char>, p: Seq<char>) -> bool {
    s.len() >= p.len() && s.take(p.len() as int) == p
}

pub fn has_prefix(s: &str, p: &str) -> (r: bool)
    ensures
        r == starts_with(s@, p@),
{
    let a = crate::text::chars_of(s);
    let b = crate::text::chars_of(p);
    if a.len() < b.len() {
        return false;
    }
    let mut i: usize = 0;
    while i < b.len()
        invariant
            i <= b.len() <= a.len(),
            a@ == s@,
            b@ == p@,
            forall|k: int| 0 <= k < i ==> a@[k] == b@[k],
        decreases b.len() - i,
    {
        if a[i] != b[i] {
            assert(s@.take(p@.len() as int)[i as int] != p@[i as int]);
            return false;
        }
        i = i + 1;
    }
    assert(s@.take(p@.len() as int) =~= p@);
    true
}

impl Item {
    /// An empty slot's content: air with count 0.
    pub fn empty() -> (r: Self)
        ensures
            r.id@ == "minecraft:air"@,
            r.count == 0,
            r.data@.len() == 0,
    {
        Item { id: "minecraft:air".to_string(), count: 0, data: StringMap::new() }
    }

    /// Create an item with count 1; an id starting with "empty" gives the empty item.
    pub fn new(id: &str) -> (r: Self)
        ensures
            starts_with(id@, "empty"@) ==> r.id@ == "minecraft:air"@ && r.count == 0,
            !starts_with(id@, "empty"@) ==> r.id@ == id@ && r.count == 1,
            r.data@.len() == 0,
    {
        if has_prefix(id, "empty") {
            return Item::empty();
        }
        Item { id: id.to_string(), count: 1, data: StringMap::new() }
    }

    /// Create an item with a specific count.
    pub fn with_count(id: &str, count: u8) -> (r: Self)
        ensures
            r.id@ == id@,
            r.count == count,
            r.data@.len() == 0,
    {
        Item { id: id.to_string(), count, data: StringMap::new() }
    }

    /// Create an item with a specific count and data.
    pub fn with_data_and_count(id: &str, count: u8, data: StringMap) -> (r: Self)
        ensures
            r.id@ == id@,
            r.count == count,
            r.data@ == data@,
    {
        Item { id: id.to_string(), count, data }
    }

    /// The command string, e.g. `minecraft:potion[potion=healing]`.
    pub fn to_command(&self) -> (r: String)
        ensures
            r@ == command_text(self.id@, self.data@),
    {
        command_string(&self.id, &self.data)
    }

    /// A copy of this item.
    pub fn duplicate(&self) -> (r: Self)
        ensures
            r@ == self@,
    {
        Item { id: self.id.clone(), count: self.count, data: self.data.duplicate() }
    }
}

/// The views of a sequence of blocks.
pub open spec fn block_views(s: Seq<Block>) -> Seq<BlockView> {
    s.map_values(|x: Block| x@)
}

/// The blocks a block specification accepts.
pub open spec fn accepted_blocks(b: BlockSpec) -> Seq<BlockView> {
    match b {
        BlockSpec::Single(x) => seq![x@],
        BlockSpec::Multiple(v) => block_views(v@),
    }
}

impl BlockSpec {
    /// The accepted blocks, in order.
    pub fn to_vec(&self) -> (r: Vec<Block>)
        ensures
            block_views(r@) == accepted_blocks(*self),
    {
        match self {
            BlockSpec::Single(b) => {
                let mut v = Vec::new();
                v.push(b.duplicate());
                assert(block_views(v@) =~= seq![b@]);
                v
            },
            BlockSpec::Multiple(bs) => {
                let mut v: Vec<Block> = Vec::new();
                let mut i: usize = 0;
                while i < bs.len()
                    invariant
                        i <= bs.len(),
                        v.len() == i,
                        block_views(v@) == block_views(bs@.take(i as int)),
                    decreases bs.len() - i,
                {
                    let ghost before = v@;
                    let d = bs[i].duplicate();
                    assert(d@ == bs@[i as int]@);
                    v.push(d);
                    assert(v@ == before.push(d));
                    assert(v@[i as int]@ == bs@[i as int]@);
                    assert forall|k: int| 0 <= k < i + 1 implies v@[k]@ == bs@[k]@ by {
                        if k < i {
                            assert(block_views(before)[k] == block_views(bs@.take(i as int))[k]);
                        }
                    }
                    assert(block_views(v@) =~= block_views(bs@.take(i + 1)));
                    i = i + 1;
                }
                assert(bs@.take(bs.len() as int) == bs@);
                v
            },
        }
    }
}

/// An entity check as the specifications see it.
pub ghost struct EntityCheckView {
    pub entity_alias: Seq<char>,
    pub entity_type: Option<Seq<char>>,
    pub exists: bool,
    pub count: Option<usize>,
    pub pos: Option<EntityPos>,
    pub position_tolerance: Option<u64>,
    pub rot: Option<Rotation>,
    pub rotation_tolerance: Option<u32>,
    pub nbt: Option<Seq<(Seq<char>, ValueView)>>,
}

/// The entries of optional entity NBT.
pub open spec fn opt_nbt(n: Option<EntityNbt>) -> Option<Seq<(Seq<char>, ValueView)>> {
    match n {
        Some(x) => Some(x@),
        None => None,
    }
}

impl View for EntityCheck {
    type V = EntityCheckView;

    open spec fn view(&self) -> EntityCheckView {
        EntityCheckView {
            entity_alias: self.entity_alias@,
            entity_type: opt_text(self.entity_type),
            exists: self.exists,
            count: self.count,
            pos: self.pos,
            position_tolerance: self.position_tolerance,
            rot: self.rot,
            rotation_tolerance: self.rotation_tolerance,
            nbt: opt_nbt(self.nbt),
        }
    }
}

impl EntityCheck {
    /// A copy of this check.
    pub fn duplicate(&self) -> (r: Self)
        ensures
            r@ == self@,
    {
        EntityCheck {
            entity_alias: self.entity_alias.clone(),
            entity_type: copy_opt_text(&self.entity_type),
            exists: self.exists,
            count: self.count,
            pos: self.pos,
            position_tolerance: self.position_tolerance,
            rot: self.rot,
            rotation_tolerance: self.rotation_tolerance,
            nbt: match &self.nbt {
                Some(n) => Some(n.duplicate()),
                None => None,
            },
        }
    }
}

/// The name `Debug` gives a slot (`Hotbar1`, `OffHand`, ..).
pub open spec fn slot_name(s: PlayerSlot) -> Seq<char> {
    match s {
        PlayerSlot::Hotbar1 => "Hotbar1"@,
        PlayerSlot::Hotbar2 => "Hotbar2"@,
        PlayerSlot::Hotbar3 => "Hotbar3"@,
        PlayerSlot::Hotbar4 => "Hotbar4"@,
        PlayerSlot::Hotbar5 => "Hotbar5"@,
        PlayerSlot::Hotbar6 => "Hotbar6"@,
        PlayerSlot::Hotbar7 => "Hotbar7"@,
        PlayerSlot::Hotbar8 => "Hotbar8"@,
        PlayerSlot::Hotbar9 => "Hotbar9"@,
        PlayerSlot::OffHand => "OffHand"@,
        PlayerSlot::Helmet => "Helmet"@,
        PlayerSlot::Chestplate => "Chestplate"@,
        PlayerSlot::Leggings => "Leggings"@,
        PlayerSlot::Boots => "Boots"@,
    }
}

impl PlayerSlot {
    /// The slot's display name, the name of its variant.
    pub fn name(&self) -> (r: String)
        ensures
            r@ == slot_name(*self),
    {
        let lit = match self {
            PlayerSlot::Hotbar1 => "Hotbar1",
            PlayerSlot::Hotbar2 => "Hotbar2",
            PlayerSlot::Hotbar3 => "Hotbar3",
            PlayerSlot::Hotbar4 => "Hotbar4",
            PlayerSlot::Hotbar5 => "Hotbar5",
            PlayerSlot::Hotbar6 => "Hotbar6",
            PlayerSlot::Hotbar7 => "Hotbar7",
            PlayerSlot::Hotbar8 => "Hotbar8",
            PlayerSlot::Hotbar9 => "Hotbar9",
            PlayerSlot::OffHand => "OffHand",
            PlayerSlot::Helmet => "Helmet",
            PlayerSlot::Chestplate => "Chestplate",
            PlayerSlot::Leggings => "Leggings",
            PlayerSlot::Boots => "Boots",
        };
        let mut r = String::new();
        push_str(&mut r, lit);
        assert(r@ =~= lit@);
        r
    }
}

/// One field of a block object, as a parser reads it: `id`, the nested
/// `properties` object (values as text), or any other key, taken as a
/// property (value as text).
#[derive(Debug, Clone)]
pub enum BlockField {
    Id(String),
    Properties(Vec<(String, String)>),
    Property(String, String),
}

/// Why a block object was refused.
#[derive(Debug, Clone, PartialEq, Eq, Structural)]
pub enum BlockError {
    /// The object has no `id`.
    MissingId,
}

impl BlockError {
    pub fn message(&self) -> (r: String)
        ensures
            r@ == "missing field `id`"@,
    {
        let mut r = String::new();
        push_str(&mut r, "missing field `id`");
        assert(r@ =~= "missing field `id`"@);
        r
    }
}

/// The id a list of fields gives: the last `id` field.
pub open spec fn fields_id(fs: Seq<BlockField>) -> Option<Seq<char>>
    decreases fs.len(),
{
    if fs.len() == 0 {
        None
    } else {
        match fs.last() {
            BlockField::Id(s) => Some(s@),
            _ => fields_id(fs.drop_last()),
        }
    }
}

/// Pairs inserted into a map, in order.
pub open spec fn insert_all(m: Pairs, ps: Seq<(Seq<char>, Seq<char>)>) -> Pairs
    decreases ps.len(),
{
    if ps.len() == 0 {
        m
    } else {
        insert_pairs(insert_all(m, ps.drop_last()), ps.last().0, ps.last().1)
    }
}

/// The properties a list of fields gives: nested and flat properties alike,
/// inserted in order, a later value replacing an earlier one.
pub open spec fn fields_properties(fs: Seq<BlockField>) -> Pairs
    decreases fs.len(),
{
    if fs.len() == 0 {
        Seq::empty()
    } else {
        let m = fields_properties(fs.drop_last());
        match fs.last() {
            BlockField::Id(_) => m,
            BlockField::Properties(ps) => insert_all(m, ps@.map_values(|p: (String, String)| (p.0@, p.1@))),
            BlockField::Property(k, v) => insert_pairs(m, k@, v@),
        }
    }
}

/// Builds a block from the fields of a block object: the `id` field is
/// required; every other field is a property, and the nested `properties`
/// object contributes its entries.
pub fn block_from_fields(fields: Vec<BlockField>) -> (r: Result<Block, BlockError>)
    ensures
        r is Err <==> fields_id(fields@) is None,
        r matches Ok(b) ==> Some(b.id@) == fields_id(fields@) && b.properties@ == fields_properties(fields@),
        r matches Err(e) ==> e == BlockError::MissingId,
{
    let ghost fs = fields@;
    let mut id: Option<String> = None;
    let mut props = StringMap::new();
    let mut i: usize = 0;
    while i < fields.len()
        invariant
            i <= fields.len(),
            fs == fields@,
            crate::traits::opt_text(id) == fields_id(fs.take(i as int)),
            props@ == fields_properties(fs.take(i as int)),
        decreases fields.len() - i,
    {
        assert(fs.take(i + 1).drop_last() =~= fs.take(i as int));
        assert(fs.take(i + 1).last() == fs[i as int]);
        match &fields[i] {
            BlockField::Id(s) => {
                id = Some(s.clone());
            },
            BlockField::Properties(ps) => {
                let ghost m0 = props@;
                let ghost pv = ps@.map_values(|p: (String, String)| (p.0@, p.1@));
                let mut j: usize = 0;
                while j < ps.len()
                    invariant
                        j <= ps.len(),
                        pv == ps@.map_values(|p: (String, String)| (p.0@, p.1@)),
                        props@ == insert_all(m0, pv.take(j as int)),
                    decreases ps.len() - j,
                {
                    props.insert(ps[j].0.clone(), ps[j].1.clone());
                    assert(pv.take(j + 1).drop_last() =~= pv.take(j as int));
                    j = j + 1;
                }
                assert(pv.take(j as int) =~= pv);
            },
            BlockField::Property(k, v) => {
                props.insert(k.clone(), v.clone());
            },
        }
        i = i + 1;
    }
    assert(fs.take(i as int) =~= fs);
    match id {
        Some(s) => Ok(Block { id: s, properties: props }),
        None => Err(BlockError::MissingId),
    }
}

} // verus!
