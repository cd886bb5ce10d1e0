//! The steps of a test run: every call the runner makes on a world or its
//! player, in order, with what each reply is checked against.
use vstd::prelude::*;

use crate::nbt::{EntityNbt, ValueView};
use crate::string_map::Pairs;
use crate::test_spec::{
    accepted_blocks, block_views, opt_nbt, starts_with, ActionType, AssertType, Block, BlockPlacement, BlockView, EntityCheck,
    EntityCheckView, EntityPos, GameMode, Item, ItemView, PlayerSlot, Rotation, TestSpec, TimelineEntry, ticks_of,
    WorldConfig,
};
use crate::timeline_validation::{all_ticks, is_assert, occurrences};

verus! {

/// A call the runner makes on the world or on its player.
#[derive(Debug, Clone)]
pub enum Request {
    /// Read the world's current tick.
    ReadTick,
    /// Execute exactly one game tick.
    DoTick,
    /// Apply the test's world settings.
    ConfigureWorld { world: WorldConfig },
    SetSlot { slot: PlayerSlot, item: Option<Item> },
    SelectHotbar { slot: u8 },
    SetGameMode { mode: GameMode },
    SetBlock { pos: [i32; 3], block: Block },
    Fill { region: [[i32; 3]; 2], block: Block },
    Summon { entity_alias: String, entity_type: String, pos: EntityPos, nbt: Option<EntityNbt> },
    TeleportEntity { entity_alias: String, pos: EntityPos, rot: Option<Rotation> },
    TeleportPlayer { pos: EntityPos, rot: Option<Rotation> },
    Interact,
    GetBlock { pos: [i32; 3], requested_nbt: Vec<String> },
    GetSlot { slot: PlayerSlot, requested_data: Vec<String> },
    GetEntity { entity_alias: String, requested_nbt: Vec<String> },
}

/// What a reply is checked against.
#[derive(Debug, Clone)]
pub enum Expect {
    /// The call only has to succeed.
    Nothing,
    /// A new world starts at tick 0.
    StartTick,
    /// The world's tick equals the step's tick.
    TickBefore,
    /// The world advanced to one past the step's tick.
    TickAfter,
    /// The block is one of the expected blocks.
    Block { expected: Vec<Block>, pos: [i32; 3] },
    /// The slot holds the expected item (`None`: the slot is empty).
    Inventory { slot: PlayerSlot, expected: Option<Item> },
    /// The entities satisfy the check.
    Entity { check: EntityCheck },
}

/// One step of a run.
#[derive(Debug, Clone)]
pub struct Step {
    /// The timeline tick the step belongs to.
    pub tick: u32,
    /// The call to make; `None` for an assertion without checks.
    pub request: Option<Request>,
    pub expect: Expect,
    /// Whether the step completes an assertion action, which then passes.
    pub closes_assert: bool,
}

pub ghost enum RequestView {
    ReadTick,
    DoTick,
    ConfigureWorld { time: Seq<char> },
    SetSlot { slot: PlayerSlot, item: Option<ItemView> },
    SelectHotbar { slot: u8 },
    SetGameMode { mode: GameMode },
    SetBlock { pos: [i32; 3], block: BlockView },
    Fill { region: [[i32; 3]; 2], block: BlockView },
    Summon {
        entity_alias: Seq<char>,
        entity_type: Seq<char>,
        pos: EntityPos,
        nbt: Option<Seq<(Seq<char>, ValueView)>>,
    },
    TeleportEntity { entity_alias: Seq<char>, pos: EntityPos, rot: Option<Rotation> },
    TeleportPlayer { pos: EntityPos, rot: Option<Rotation> },
    Interact,
    GetBlock { pos: [i32; 3], requested_nbt: Seq<Seq<char>> },
    GetSlot { slot: PlayerSlot, requested_data: Seq<Seq<char>> },
    GetEntity { entity_alias: Seq<char>, requested_nbt: Seq<Seq<char>> },
}

pub ghost enum ExpectView {
    Nothing,
    StartTick,
    TickBefore,
    TickAfter,
    Block { expected: Seq<BlockView>, pos: [i32; 3] },
    Inventory { slot: PlayerSlot, expected: Option<ItemView> },
    Entity { check: EntityCheckView },
}

pub ghost struct StepView {
    pub tick: u32,
    pub request: Option<RequestView>,
    pub expect: ExpectView,
    pub closes_assert: bool,
}

pub open spec fn texts(v: Seq<String>) -> Seq<Seq<char>> {
    v.map_values(|s: String| s@)
}

pub open spec fn opt_item_view(i: Option<Item>) -> Option<ItemView> {
    match i {
        Some(x) => Some(x@),
        None => None,
    }
}

impl View for Request {
    type V = RequestView;

    open spec fn view(&self) -> RequestView {
        match *self {
            Request::ReadTick => RequestView::ReadTick,
            Request::DoTick => RequestView::DoTick,
            Request::ConfigureWorld { world } => RequestView::ConfigureWorld { time: world.time@ },
            Request::SetSlot { slot, item } => RequestView::SetSlot { slot, item: opt_item_view(item) },
            Request::SelectHotbar { slot } => RequestView::SelectHotbar { slot },
            Request::SetGameMode { mode } => RequestView::SetGameMode { mode },
            Request::SetBlock { pos, block } => RequestView::SetBlock { pos, block: block@ },
            Request::Fill { region, block } => RequestView::Fill { region, block: block@ },
            Request::Summon { entity_alias, entity_type, pos, nbt } => RequestView::Summon {
                entity_alias: entity_alias@,
                entity_type: entity_type@,
                pos,
                nbt: opt_nbt(nbt),
            },
            Request::TeleportEntity { entity_alias, pos, rot } => RequestView::TeleportEntity {
                entity_alias: entity_alias@,
                pos,
                rot,
            },
            Request::TeleportPlayer { pos, rot } => RequestView::TeleportPlayer { pos, rot },
            Request::Interact => RequestView::Interact,
            Request::GetBlock { pos, requested_nbt } => RequestView::GetBlock { pos, requested_nbt: texts(requested_nbt@) },
            Request::GetSlot { slot, requested_data } => RequestView::GetSlot {
                slot,
                requested_data: texts(requested_data@),
            },
            Request::GetEntity { entity_alias, requested_nbt } => RequestView::GetEntity {
                entity_alias: entity_alias@,
                requested_nbt: texts(requested_nbt@),
            },
        }
    }
}

impl View for Expect {
    type V = ExpectView;

    open spec fn view(&self) -> ExpectView {
        match *self {
            Expect::Nothing => ExpectView::Nothing,
            Expect::StartTick => ExpectView::StartTick,
            Expect::TickBefore => ExpectView::TickBefore,
            Expect::TickAfter => ExpectView::TickAfter,
            Expect::Block { expected, pos } => ExpectView::Block { expected: block_views(expected@), pos },
            Expect::Inventory { slot, expected } => ExpectView::Inventory { slot, expected: opt_item_view(expected) },
            Expect::Entity { check } => ExpectView::Entity { check: check@ },
        }
    }
}

pub open spec fn opt_request(r: Option<Request>) -> Option<RequestView> {
    match r {
        Some(x) => Some(x@),
        None => None,
    }
}

impl View for Step {
    type V = StepView;

    open spec fn view(&self) -> StepView {
        StepView {
            tick: self.tick,
            request: opt_request(self.request),
            expect: self.expect@,
            closes_assert: self.closes_assert,
        }
    }
}

pub open spec fn step_views(s: Seq<Step>) -> Seq<StepView> {
    s.map_values(|x: Step| x@)
}

/// A step that makes a call and only needs it to succeed.
pub open spec fn plain(tick: u32, r: RequestView) -> StepView {
    StepView { tick, request: Some(r), expect: ExpectView::Nothing, closes_assert: false }
}

/// The item a slot shows when it is empty: air with count 0.
pub open spec fn empty_item_view() -> ItemView {
    ItemView { id: "minecraft:air"@, count: 0, data: Seq::empty() }
}

/// What `Item::new(id)` makes: count 1, or the empty item for an id that
/// starts with `empty`.
pub open spec fn new_item_view(id: Seq<char>) -> ItemView {
    if starts_with(id, "empty"@) {
        empty_item_view()
    } else {
        ItemView { id, count: 1, data: Seq::empty() }
    }
}

/// Air, as `remove` places it.
pub open spec fn air_view() -> BlockView {
    BlockView { id: "minecraft:air"@, properties: Seq::empty() }
}

pub open spec fn pair_keys(p: Pairs) -> Seq<Seq<char>> {
    p.map_values(|e: (Seq<char>, Seq<char>)| e.0)
}

/// The step that checks one assertion.
pub open spec fn check_step(c: AssertType, tick: u32, closes: bool) -> StepView {
    match c {
        AssertType::Block(b) => StepView {
            tick,
            request: Some(RequestView::GetBlock { pos: b.pos, requested_nbt: Seq::empty() }),
            expect: ExpectView::Block { expected: accepted_blocks(b.is), pos: b.pos },
            closes_assert: closes,
        },
        AssertType::Inventory(i) => StepView {
            tick,
            request: Some(
                RequestView::GetSlot {
                    slot: i.slot,
                    requested_data: match i.is {
                        Some(item) => pair_keys(item.data@),
                        None => Seq::empty(),
                    },
                },
            ),
            expect: ExpectView::Inventory { slot: i.slot, expected: opt_item_view(i.is) },
            closes_assert: closes,
        },
        AssertType::Entity(e) => StepView {
            tick,
            request: Some(
                RequestView::GetEntity {
                    entity_alias: e.entity_alias@,
                    requested_nbt: match e.nbt {
                        Some(n) => n@.map_values(|x: (Seq<char>, ValueView)| x.0),
                        None => Seq::empty(),
                    },
                },
            ),
            expect: ExpectView::Entity { check: e@ },
            closes_assert: closes,
        },
    }
}

/// The steps of an action performed at `tick`.
pub open spec fn action_steps(a: ActionType, tick: u32) -> Seq<StepView> {
    match a {
        ActionType::Place { pos, block } => seq![plain(tick, RequestView::SetBlock { pos, block: block@ })],
        ActionType::PlaceEach { blocks } => Seq::new(
            blocks@.len(),
            |k: int| plain(tick, RequestView::SetBlock { pos: blocks@[k].pos, block: blocks@[k].block@ }),
        ),
        ActionType::Fill { region, with } => seq![plain(tick, RequestView::Fill { region, block: with@ })],
        ActionType::Remove { pos } => seq![plain(tick, RequestView::SetBlock { pos, block: air_view() })],
        ActionType::Summon { entity_alias, entity_type, pos, nbt } => seq![
            plain(
                tick,
                RequestView::Summon { entity_alias: entity_alias@, entity_type: entity_type@, pos, nbt: opt_nbt(nbt) },
            ),
        ],
        ActionType::Assert { checks } => if checks@.len() == 0 {
            seq![StepView { tick, request: None, expect: ExpectView::Nothing, closes_assert: true }]
        } else {
            Seq::new(checks@.len(), |k: int| check_step(checks@[k], tick, k == checks@.len() - 1))
        },
        ActionType::Tp { entity_alias, pos, rot } => if entity_alias@ == "player"@ {
            seq![plain(tick, RequestView::TeleportPlayer { pos, rot })]
        } else {
            seq![plain(tick, RequestView::TeleportEntity { entity_alias: entity_alias@, pos, rot })]
        },
        ActionType::Interact { item } => match item {
            Some(id) => seq![
                plain(tick, RequestView::SetSlot { slot: PlayerSlot::Hotbar1, item: Some(new_item_view(id@)) }),
                plain(tick, RequestView::SelectHotbar { slot: 1 }),
                plain(tick, RequestView::Interact),
            ],
            None => seq![plain(tick, RequestView::Interact)],
        },
        ActionType::SetSlot { slot, item, count } => seq![
            plain(
                tick,
                RequestView::SetSlot {
                    slot,
                    item: match item {
                        Some(id) => Some(ItemView { id: id@, count, data: Seq::empty() }),
                        None => None,
                    },
                },
            ),
        ],
        ActionType::SelectHotbar { slot } => seq![plain(tick, RequestView::SelectHotbar { slot })],
    }
}

/// The steps of the actions scheduled at `tick`, for the timeline
/// occurrences `occ` (pairs of entry index and whether it asserts).
pub open spec fn occurrence_steps(tl: Seq<TimelineEntry>, occ: Seq<(int, bool)>, tick: u32) -> Seq<StepView>
    decreases occ.len(),
{
    if occ.len() == 0 {
        Seq::empty()
    } else {
        occurrence_steps(tl, occ.drop_last(), tick) + action_steps(tl[occ.last().0].action_type, tick)
    }
}

/// The steps of timeline tick `t`: check the world is at tick `t`, perform
/// the actions scheduled there in timeline order, then (unless `t` is the
/// last tick) advance the world one tick and check it did.
pub open spec fn tick_steps(tl: Seq<TimelineEntry>, t: u32, max: u32) -> Seq<StepView> {
    seq![StepView { tick: t, request: Some(RequestView::ReadTick), expect: ExpectView::TickBefore, closes_assert: false }]
        + occurrence_steps(tl, occurrences(tl, t), t) + if t < max {
        seq![
            plain(t, RequestView::DoTick),
            StepView { tick: t, request: Some(RequestView::ReadTick), expect: ExpectView::TickAfter, closes_assert: false },
        ]
    } else {
        Seq::empty()
    }
}

/// The steps of the first `n` timeline ticks.
pub open spec fn ticks_steps(tl: Seq<TimelineEntry>, max: u32, n: nat) -> Seq<StepView>
    decreases n,
{
    if n == 0 {
        Seq::empty()
    } else {
        ticks_steps(tl, max, (n - 1) as nat) + tick_steps(tl, (n - 1) as u32, max)
    }
}

/// The steps that prepare the player a test configures: its inventory slots
/// in order, the selected hotbar slot, the game mode.
pub open spec fn setup_steps(spec: TestSpec) -> Seq<StepView> {
    match spec.setup {
        Some(s) => match s.player {
            Some(p) => Seq::new(
                p.inventory@.len(),
                |k: int| plain(0, RequestView::SetSlot { slot: p.inventory@[k].0, item: Some(p.inventory@[k].1@) }),
            ) + seq![
                plain(0, RequestView::SelectHotbar { slot: p.selected_hotbar }),
                plain(0, RequestView::SetGameMode { mode: p.game_mode }),
            ],
            None => Seq::empty(),
        },
        None => Seq::empty(),
    }
}

/// Whether `m` is the last tick of the timeline (0 for a timeline without ticks).
pub open spec fn is_last_tick(tl: Seq<TimelineEntry>, m: u32) -> bool {
    &&& forall|u: u32| all_ticks(tl).contains(u) ==> u <= m
    &&& m == 0 || all_ticks(tl).contains(m)
}

/// The first steps of a run: apply the world settings of a test that has a
/// setup, then check the new world starts at tick 0.
pub open spec fn start_steps(spec: TestSpec) -> Seq<StepView> {
    let check = seq![
        StepView { tick: 0, request: Some(RequestView::ReadTick), expect: ExpectView::StartTick, closes_assert: false },
    ];
    match spec.setup {
        Some(s) => seq![plain(0, RequestView::ConfigureWorld { time: s.world.time@ })] + check,
        None => check,
    }
}

/// Every step of a run: apply the world settings, check the new world starts
/// at tick 0, prepare the player, then each timeline tick from 0 to the last
/// one.
pub open spec fn program(spec: TestSpec, max: u32) -> Seq<StepView> {
    start_steps(spec) + setup_steps(spec) + ticks_steps(spec.timeline@, max, max as nat + 1)
}

proof fn lemma_views_push(s: Seq<Step>, x: Step)
    ensures
        step_views(s.push(x)) == step_views(s).push(x@),
{
    assert(step_views(s.push(x)) =~= step_views(s).push(x@));
}

/// Appends a step that makes `r` and only needs it to succeed.
fn push_plain(out: &mut Vec<Step>, tick: u32, r: Request)
    ensures
        step_views(final(out)@) == step_views(old(out)@).push(plain(tick, r@)),
{
    let ghost before = out@;
    let s = Step { tick, request: Some(r), expect: Expect::Nothing, closes_assert: false };
    out.push(s);
    proof {
        lemma_views_push(before, s);
    }
}

pub fn copy_strings(v: &Vec<String>) -> (r: Vec<String>)
    ensures
        texts(r@) == texts(v@),
{
    let mut r: Vec<String> = Vec::new();
    let mut i: usize = 0;
    while i < v.len()
        invariant
            i <= v.len(),
            r.len() == i,
            forall|k: int| 0 <= k < i ==> (#[trigger] r@[k])@ == v@[k]@,
        decreases v.len() - i,
    {
        r.push(v[i].clone());
        i = i + 1;
    }
    assert(texts(r@) =~= texts(v@));
    r
}

/// The step that checks one assertion.
fn check_step_of(c: &AssertType, tick: u32, closes: bool) -> (r: Step)
    ensures
        r@ == check_step(*c, tick, closes),
{
    match c {
        AssertType::Block(b) => {
            let expected = b.is.to_vec();
            let requested: Vec<String> = Vec::new();
            assert(texts(requested@) =~= Seq::<Seq<char>>::empty());
            assert(block_views(expected@) =~= accepted_blocks(b.is));
            Step {
                tick,
                request: Some(Request::GetBlock { pos: b.pos, requested_nbt: requested }),
                expect: Expect::Block { expected, pos: b.pos },
                closes_assert: closes,
            }
        },
        AssertType::Inventory(i) => {
            let requested = match &i.is {
                Some(item) => {
                    let ks = item.data.keys();
                    assert(texts(ks@) =~= pair_keys(item.data@));
                    ks
                },
                None => {
                    let v: Vec<String> = Vec::new();
                    assert(texts(v@) =~= Seq::<Seq<char>>::empty());
                    v
                },
            };
            let expected = match &i.is {
                Some(item) => Some(item.duplicate()),
                None => None,
            };
            Step {
                tick,
                request: Some(Request::GetSlot { slot: i.slot, requested_data: requested }),
                expect: Expect::Inventory { slot: i.slot, expected },
                closes_assert: closes,
            }
        },
        AssertType::Entity(e) => {
            let requested = match &e.nbt {
                Some(n) => {
                    let ps = n.requested_paths();
                    assert(texts(ps@) =~= n@.map_values(|x: (Seq<char>, ValueView)| x.0));
                    ps
                },
                None => {
                    let v: Vec<String> = Vec::new();
                    assert(texts(v@) =~= Seq::<Seq<char>>::empty());
                    v
                },
            };
            Step {
                tick,
                request: Some(Request::GetEntity { entity_alias: e.entity_alias.clone(), requested_nbt: requested }),
                expect: Expect::Entity { check: e.duplicate() },
                closes_assert: closes,
            }
        },
    }
}

/// Appends the steps of an action performed at `tick`.
pub fn push_action_steps(out: &mut Vec<Step>, a: &ActionType, tick: u32)
    ensures
        step_views(final(out)@) == step_views(old(out)@) + action_steps(*a, tick),
{
    let ghost before = step_views(out@);
    match a {
        ActionType::Place { pos, block } => {
            push_plain(out, tick, Request::SetBlock { pos: *pos, block: block.duplicate() });
        },
        ActionType::PlaceEach { blocks } => {
            let mut i: usize = 0;
            while i < blocks.len()
                invariant
                    i <= blocks.len(),
                    step_views(out@) == before + action_steps(*a, tick).take(i as int),
                    *a == (ActionType::PlaceEach { blocks: *blocks }),
                decreases blocks.len() - i,
            {
                push_plain(out, tick, Request::SetBlock { pos: blocks[i].pos, block: blocks[i].block.duplicate() });
                assert(action_steps(*a, tick).take(i + 1) =~= action_steps(*a, tick).take(i as int).push(
                    action_steps(*a, tick)[i as int],
                ));
                i = i + 1;
            }
            assert(action_steps(*a, tick).take(i as int) =~= action_steps(*a, tick));
        },
        ActionType::Fill { region, with } => {
            push_plain(out, tick, Request::Fill { region: *region, block: with.duplicate() });
        },
        ActionType::Remove { pos } => {
            let air = Block::new("minecraft:air");
            assert(air@.properties =~= air_view().properties);
            push_plain(out, tick, Request::SetBlock { pos: *pos, block: air });
        },
        ActionType::Summon { entity_alias, entity_type, pos, nbt } => {
            let n = match nbt {
                Some(x) => Some(x.duplicate()),
                None => None,
            };
            push_plain(
                out,
                tick,
                Request::Summon { entity_alias: entity_alias.clone(), entity_type: entity_type.clone(), pos: *pos, nbt: n },
            );
        },
        ActionType::Assert { checks } => {
            if checks.len() == 0 {
                let ghost o = out@;
                let s = Step { tick, request: None, expect: Expect::Nothing, closes_assert: true };
                out.push(s);
                proof {
                    lemma_views_push(o, s);
                }
            } else {
                let mut i: usize = 0;
                while i < checks.len()
                    invariant
                        i <= checks.len(),
                        checks.len() > 0,
                        step_views(out@) == before + action_steps(*a, tick).take(i as int),
                        *a == (ActionType::Assert { checks: *checks }),
                    decreases checks.len() - i,
                {
                    let ghost o = out@;
                    let s = check_step_of(&checks[i], tick, i == checks.len() - 1);
                    out.push(s);
                    proof {
                        lemma_views_push(o, s);
                    }
                    assert(action_steps(*a, tick).take(i + 1) =~= action_steps(*a, tick).take(i as int).push(
                        action_steps(*a, tick)[i as int],
                    ));
                    i = i + 1;
                }
                assert(action_steps(*a, tick).take(i as int) =~= action_steps(*a, tick));
            }
        },
        ActionType::Tp { entity_alias, pos, rot } => {
            proof {
                reveal_strlit("player");
            }
            if crate::text::str_eq(entity_alias.as_str(), "player") {
                push_plain(out, tick, Request::TeleportPlayer { pos: *pos, rot: *rot });
            } else {
                push_plain(out, tick, Request::TeleportEntity { entity_alias: entity_alias.clone(), pos: *pos, rot: *rot });
            }
        },
        ActionType::Interact { item } => {
            match item {
                Some(id) => {
                    let it = Item::new(id.as_str());
                    assert(it@.data =~= new_item_view(id@).data);
                    push_plain(out, tick, Request::SetSlot { slot: PlayerSlot::Hotbar1, item: Some(it) });
                    push_plain(out, tick, Request::SelectHotbar { slot: 1 });
                    push_plain(out, tick, Request::Interact);
                },
                None => {
                    push_plain(out, tick, Request::Interact);
                },
            }
        },
        ActionType::SetSlot { slot, item, count } => {
            let it = match item {
                Some(id) => {
                    let x = Item::with_count(id.as_str(), *count);
                    assert(x@.data =~= Seq::<(Seq<char>, Seq<char>)>::empty());
                    Some(x)
                },
                None => None,
            };
            push_plain(out, tick, Request::SetSlot { slot: *slot, item: it });
        },
        ActionType::SelectHotbar { slot } => {
            push_plain(out, tick, Request::SelectHotbar { slot: *slot });
        },
    }
    assert(step_views(out@) =~= before + action_steps(*a, tick));
}

proof fn lemma_occurrence_steps_append(tl: Seq<TimelineEntry>, a: Seq<(int, bool)>, b: Seq<(int, bool)>, tick: u32)
    ensures
        occurrence_steps(tl, a + b, tick) == occurrence_steps(tl, a, tick) + occurrence_steps(tl, b, tick),
    decreases b.len(),
{
    if b.len() == 0 {
        assert(a + b =~= a);
        assert(occurrence_steps(tl, a, tick) + occurrence_steps(tl, b, tick) =~= occurrence_steps(tl, a, tick));
    } else {
        assert((a + b).drop_last() =~= a + b.drop_last());
        assert((a + b).last() == b.last());
        lemma_occurrence_steps_append(tl, a, b.drop_last(), tick);
        assert(occurrence_steps(tl, a + b, tick) =~= occurrence_steps(tl, a, tick) + occurrence_steps(tl, b, tick));
    }
}

/// Appends the steps of the actions scheduled at `tick`, in timeline order.
fn push_scheduled_steps(out: &mut Vec<Step>, tl: &Vec<TimelineEntry>, tick: u32)
    ensures
        step_views(final(out)@) == step_views(old(out)@) + occurrence_steps(tl@, occurrences(tl@, tick), tick),
{
    let ghost base = step_views(out@);
    let mut i: usize = 0;
    while i < tl.len()
        invariant
            i <= tl.len(),
            step_views(out@) == base + occurrence_steps(tl@, occurrences(tl@.take(i as int), tick), tick),
        decreases tl.len() - i,
    {
        let ticks = tl[i].at.to_vec();
        let ghost a = is_assert(tl@[i as int].action_type);
        let ghost prev = occurrences(tl@.take(i as int), tick);
        let ghost mid = step_views(out@);
        let mut j: usize = 0;
        while j < ticks.len()
            invariant
                j <= ticks.len(),
                i < tl.len(),
                ticks@ == ticks_of(tl@[i as int].at),
                mid == base + occurrence_steps(tl@, prev, tick),
                step_views(out@) == mid + occurrence_steps(
                    tl@,
                    crate::timeline_validation::entry_occurrences(ticks@.take(j as int), tick, i as int, a),
                    tick,
                ),
            decreases ticks.len() - j,
        {
            let ghost e = crate::timeline_validation::entry_occurrences(ticks@.take(j as int), tick, i as int, a);
            assert(ticks@.take(j + 1).drop_last() =~= ticks@.take(j as int));
            if ticks[j] == tick {
                push_action_steps(out, &tl[i].action_type, tick);
                assert(crate::timeline_validation::entry_occurrences(ticks@.take(j + 1), tick, i as int, a) == e.push(
                    (i as int, a),
                ));
                assert(e.push((i as int, a)).drop_last() =~= e);
                assert(step_views(out@) =~= mid + occurrence_steps(tl@, e.push((i as int, a)), tick));
            }
            j = j + 1;
        }
        assert(ticks@.take(j as int) =~= ticks@);
        proof {
            let e = crate::timeline_validation::entry_occurrences(ticks@, tick, i as int, a);
            assert(tl@.take(i + 1).drop_last() =~= tl@.take(i as int));
            assert(occurrences(tl@.take(i + 1), tick) == prev + e);
            lemma_occurrence_steps_append(tl@, prev, e, tick);
        }
        i = i + 1;
    }
    assert(tl@.take(i as int) =~= tl@);
}

/// Appends the steps of timeline tick `tick`.
fn push_tick_steps(out: &mut Vec<Step>, tl: &Vec<TimelineEntry>, tick: u32, max: u32)
    ensures
        step_views(final(out)@) == step_views(old(out)@) + tick_steps(tl@, tick, max),
{
    let ghost base = step_views(out@);
    let ghost o = out@;
    let s = Step { tick, request: Some(Request::ReadTick), expect: Expect::TickBefore, closes_assert: false };
    out.push(s);
    proof {
        lemma_views_push(o, s);
    }
    push_scheduled_steps(out, tl, tick);
    if tick < max {
        push_plain(out, tick, Request::DoTick);
        let ghost o2 = out@;
        let s2 = Step { tick, request: Some(Request::ReadTick), expect: Expect::TickAfter, closes_assert: false };
        out.push(s2);
        proof {
            lemma_views_push(o2, s2);
        }
    }
    assert(step_views(out@) =~= base + tick_steps(tl@, tick, max));
}

/// Every step of a run of `spec`, with the timeline's last tick.
pub fn build_program(spec: &TestSpec) -> (r: (Vec<Step>, u32))
    ensures
        is_last_tick(spec.timeline@, r.1),
        step_views(r.0@) == program(*spec, r.1),
{
    let max = spec.max_tick();
    let mut out: Vec<Step> = Vec::new();
    assert(step_views(out@) =~= Seq::<StepView>::empty());
    match &spec.setup {
        Some(setup) => {
            let w = WorldConfig { time: setup.world.time.clone() };
            push_plain(&mut out, 0, Request::ConfigureWorld { world: w });
        },
        None => {},
    }
    let ghost o = out@;
    let s = Step { tick: 0, request: Some(Request::ReadTick), expect: Expect::StartTick, closes_assert: false };
    out.push(s);
    proof {
        lemma_views_push(o, s);
    }
    let ghost start = step_views(out@);
    assert(start =~= start_steps(*spec));
    match &spec.setup {
        Some(setup) => match &setup.player {
            Some(p) => {
                let mut i: usize = 0;
                while i < p.inventory.len()
                    invariant
                        i <= p.inventory.len(),
                        step_views(out@) == start + setup_steps(*spec).take(i as int),
                        spec.setup == Some(*setup),
                        setup.player == Some(*p),
                    decreases p.inventory.len() - i,
                {
                    let item = p.inventory[i].1.duplicate();
                    push_plain(&mut out, 0, Request::SetSlot { slot: p.inventory[i].0, item: Some(item) });
                    assert(setup_steps(*spec).take(i + 1) =~= setup_steps(*spec).take(i as int).push(setup_steps(*spec)[i as int]));
                    i = i + 1;
                }
                push_plain(&mut out, 0, Request::SelectHotbar { slot: p.selected_hotbar });
                push_plain(&mut out, 0, Request::SetGameMode { mode: p.game_mode });
                assert(step_views(out@) =~= start + setup_steps(*spec));
            },
            None => {
                assert(step_views(out@) =~= start + setup_steps(*spec));
            },
        },
        None => {
            assert(step_views(out@) =~= start + setup_steps(*spec));
        },
    }
    let ghost prefix = step_views(out@);
    let mut t: u64 = 0;
    while t <= max as u64
        invariant
            t <= max as u64 + 1,
            step_views(out@) == prefix + ticks_steps(spec.timeline@, max, t as nat),
        decreases max as u64 + 1 - t,
    {
        let ghost before = step_views(out@);
        push_tick_steps(&mut out, &spec.timeline, t as u32, max);
        assert(ticks_steps(spec.timeline@, max, (t + 1) as nat) == ticks_steps(spec.timeline@, max, t as nat)
            + tick_steps(spec.timeline@, t as u32, max));
        assert(step_views(out@) =~= prefix + ticks_steps(spec.timeline@, max, (t + 1) as nat));
        t = t + 1;
    }
    assert(step_views(out@) =~= program(*spec, max));
    (out, max)
}

/// Number of steps that advance the world one tick.
pub open spec fn count_advances(s: Seq<StepView>) -> nat
    decreases s.len(),
{
    if s.len() == 0 {
        0
    } else {
        count_advances(s.drop_last()) + if s.last().request == Some(RequestView::DoTick) {
            1nat
        } else {
            0nat
        }
    }
}

/// Neither an advance nor a check of the tick before a timeline tick.
pub open spec fn quiet(x: StepView) -> bool {
    x.request != Some(RequestView::DoTick) && !(x.expect is TickBefore)
}

pub open spec fn all_quiet(s: Seq<StepView>) -> bool {
    forall|k: int| 0 <= k < s.len() ==> quiet(#[trigger] s[k])
}

pub(crate) proof fn lemma_count_append(a: Seq<StepView>, b: Seq<StepView>)
    ensures
        count_advances(a + b) == count_advances(a) + count_advances(b),
    decreases b.len(),
{
    if b.len() == 0 {
        assert(a + b =~= a);
    } else {
        assert((a + b).drop_last() =~= a + b.drop_last());
        lemma_count_append(a, b.drop_last());
    }
}

proof fn lemma_quiet_count(s: Seq<StepView>)
    requires
        all_quiet(s),
    ensures
        count_advances(s) == 0,
    decreases s.len(),
{
    if s.len() > 0 {
        assert(quiet(s[s.len() - 1]));
        lemma_quiet_count(s.drop_last());
    }
}

proof fn lemma_action_quiet(a: ActionType, tick: u32)
    ensures
        all_quiet(action_steps(a, tick)),
{
    let s = action_steps(a, tick);
    assert forall|k: int| 0 <= k < s.len() implies quiet(#[trigger] s[k]) by {
        match a {
            ActionType::Assert { checks } => {
                if checks@.len() > 0 {
                    let c = checks@[k];
                    match c {
                        AssertType::Block(_) => {},
                        AssertType::Inventory(_) => {},
                        AssertType::Entity(_) => {},
                    }
                }
            },
            _ => {},
        }
    }
}

proof fn lemma_occurrences_quiet(tl: Seq<TimelineEntry>, occ: Seq<(int, bool)>, tick: u32)
    ensures
        all_quiet(occurrence_steps(tl, occ, tick)),
    decreases occ.len(),
{
    if occ.len() > 0 {
        lemma_occurrences_quiet(tl, occ.drop_last(), tick);
        lemma_action_quiet(tl[occ.last().0].action_type, tick);
        let a = occurrence_steps(tl, occ.drop_last(), tick);
        let b = action_steps(tl[occ.last().0].action_type, tick);
        assert forall|k: int| 0 <= k < (a + b).len() implies quiet(#[trigger] (a + b)[k]) by {
            if k < a.len() {
                assert((a + b)[k] == a[k]);
            } else {
                assert((a + b)[k] == b[k - a.len()]);
            }
        }
    }
}

proof fn lemma_setup_quiet(spec: TestSpec)
    ensures
        all_quiet(setup_steps(spec)),
{
}

proof fn lemma_head_quiet(spec: TestSpec)
    ensures
        all_quiet(start_steps(spec) + setup_steps(spec)),
{
    let a = start_steps(spec);
    let b = setup_steps(spec);
    lemma_setup_quiet(spec);
    assert forall|k: int| 0 <= k < (a + b).len() implies quiet(#[trigger] (a + b)[k]) by {
        if k < a.len() {
            assert((a + b)[k] == a[k]);
        } else {
            assert((a + b)[k] == b[k - a.len()]);
        }
    }
}

/// The steps of one timeline tick all carry that tick; before each of them
/// but the check after the advance, none advances the world.
proof fn lemma_tick_steps_shape(tl: Seq<TimelineEntry>, t: u32, max: u32)
    ensures
        forall|k: int| 0 <= k < tick_steps(tl, t, max).len() ==> (#[trigger] tick_steps(tl, t, max)[k]).tick == t,
        forall|k: int|
            0 <= k < tick_steps(tl, t, max).len() && !(#[trigger] tick_steps(tl, t, max)[k].expect is TickAfter)
                ==> count_advances(tick_steps(tl, t, max).take(k)) == 0,
        count_advances(tick_steps(tl, t, max)) == if t < max { 1nat } else { 0nat },
        forall|k: int|
            0 <= k < tick_steps(tl, t, max).len() && (#[trigger] tick_steps(tl, t, max)[k]).request == Some(
                RequestView::DoTick,
            ) ==> tick_steps(tl, t, max)[k].expect is Nothing,
{
    let head = seq![StepView { tick: t, request: Some(RequestView::ReadTick), expect: ExpectView::TickBefore, closes_assert: false }];
    let mid = occurrence_steps(tl, occurrences(tl, t), t);
    let tail = if t < max {
        seq![
            plain(t, RequestView::DoTick),
            StepView { tick: t, request: Some(RequestView::ReadTick), expect: ExpectView::TickAfter, closes_assert: false },
        ]
    } else {
        Seq::empty()
    };
    lemma_occurrences_quiet(tl, occurrences(tl, t), t);
    lemma_occurrences_tick(tl, occurrences(tl, t), t);
    lemma_quiet_count(mid);
    lemma_count_append(head, mid);
    lemma_count_append(head + mid, tail);
    assert(count_advances(head) == 0) by {
        reveal_with_fuel(count_advances, 2);
        assert(head.drop_last() =~= Seq::<StepView>::empty());
    }
    if t < max {
        reveal_with_fuel(count_advances, 3);
        assert(tail.drop_last().drop_last() =~= Seq::<StepView>::empty());
        assert(tail.drop_last().last() == plain(t, RequestView::DoTick));
        assert(count_advances(tail) == 1);
    } else {
        assert(count_advances(tail) == 0);
    }
    let all = head + mid + tail;
    assert(tick_steps(tl, t, max) == all);
    assert forall|k: int| 0 <= k < all.len() implies (#[trigger] all[k]).tick == t && (all[k].request == Some(
        RequestView::DoTick,
    ) ==> all[k].expect is Nothing) by {
        if k == 0 {
        } else if k < 1 + mid.len() {
            assert(all[k] == mid[k - 1]);
            assert(quiet(mid[k - 1]));
        } else {
            assert(all[k] == tail[k - 1 - mid.len()]);
        }
    }
    assert forall|k: int| 0 <= k < all.len() && !(#[trigger] all[k].expect is TickAfter) implies count_advances(
        all.take(k),
    ) == 0 by {
        if k == 0 {
            assert(all.take(0) =~= Seq::<StepView>::empty());
        } else {
            let j = if k <= 1 + mid.len() { k - 1 } else { mid.len() as int };
            if k > 1 + mid.len() {
                assert(all[k] == tail[k - 1 - mid.len()]);
                assert(k == 2 + mid.len());
                assert(false);
            }
            assert(all.take(k) =~= head + mid.take(j));
            assert forall|q: int| 0 <= q < mid.take(j).len() implies quiet(#[trigger] mid.take(j)[q]) by {
                assert(mid.take(j)[q] == mid[q]);
            }
            lemma_quiet_count(mid.take(j));
            lemma_count_append(head, mid.take(j));
        }
    }
}

proof fn lemma_occurrences_tick(tl: Seq<TimelineEntry>, occ: Seq<(int, bool)>, tick: u32)
    ensures
        forall|k: int| 0 <= k < occurrence_steps(tl, occ, tick).len() ==> (#[trigger] occurrence_steps(tl, occ, tick)[k]).tick
            == tick,
    decreases occ.len(),
{
    if occ.len() > 0 {
        lemma_occurrences_tick(tl, occ.drop_last(), tick);
        let a = occurrence_steps(tl, occ.drop_last(), tick);
        let b = action_steps(tl[occ.last().0].action_type, tick);
        lemma_action_tick(tl[occ.last().0].action_type, tick);
        assert forall|k: int| 0 <= k < (a + b).len() implies (#[trigger] (a + b)[k]).tick == tick by {
            if k < a.len() {
                assert((a + b)[k] == a[k]);
            } else {
                assert((a + b)[k] == b[k - a.len()]);
            }
        }
    }
}

proof fn lemma_action_tick(a: ActionType, tick: u32)
    ensures
        forall|k: int| 0 <= k < action_steps(a, tick).len() ==> (#[trigger] action_steps(a, tick)[k]).tick == tick,
{
    let s = action_steps(a, tick);
    assert forall|k: int| 0 <= k < s.len() implies (#[trigger] s[k]).tick == tick by {
        match a {
            ActionType::Assert { checks } => {
                if checks@.len() > 0 {
                    let c = checks@[k];
                    match c {
                        AssertType::Block(_) => {},
                        AssertType::Inventory(_) => {},
                        AssertType::Entity(_) => {},
                    }
                }
            },
            _ => {},
        }
    }
}

proof fn lemma_ticks_steps(tl: Seq<TimelineEntry>, max: u32, n: nat, p: int)
    requires
        n <= max as nat + 1,
        0 <= p < ticks_steps(tl, max, n).len(),
        !(ticks_steps(tl, max, n)[p].expect is TickAfter),
    ensures
        count_advances(ticks_steps(tl, max, n).take(p)) == ticks_steps(tl, max, n)[p].tick,
    decreases n,
{
    let prev = ticks_steps(tl, max, (n - 1) as nat);
    let cur = tick_steps(tl, (n - 1) as u32, max);
    assert(ticks_steps(tl, max, n) == prev + cur);
    if p < prev.len() {
        assert((prev + cur)[p] == prev[p]);
        assert((prev + cur).take(p) =~= prev.take(p));
        lemma_ticks_steps(tl, max, (n - 1) as nat, p);
    } else {
        lemma_tick_steps_shape(tl, (n - 1) as u32, max);
        let k = p - prev.len();
        assert((prev + cur)[p] == cur[k]);
        assert((prev + cur).take(p) =~= prev + cur.take(k));
        lemma_count_append(prev, cur.take(k));
        lemma_ticks_count(tl, max, (n - 1) as nat);
    }
}

proof fn lemma_ticks_count(tl: Seq<TimelineEntry>, max: u32, n: nat)
    requires
        n <= max as nat + 1,
    ensures
        count_advances(ticks_steps(tl, max, n)) == if n <= max { n } else { max as nat },
    decreases n,
{
    if n > 0 {
        lemma_ticks_count(tl, max, (n - 1) as nat);
        lemma_tick_steps_shape(tl, (n - 1) as u32, max);
        lemma_count_append(ticks_steps(tl, max, (n - 1) as nat), tick_steps(tl, (n - 1) as u32, max));
    }
}

proof fn lemma_ticks_advance_plain(tl: Seq<TimelineEntry>, max: u32, n: nat, p: int)
    requires
        0 <= p < ticks_steps(tl, max, n).len(),
        ticks_steps(tl, max, n)[p].request == Some(RequestView::DoTick),
    ensures
        ticks_steps(tl, max, n)[p].expect is Nothing,
    decreases n,
{
    let prev = ticks_steps(tl, max, (n - 1) as nat);
    let cur = tick_steps(tl, (n - 1) as u32, max);
    assert(ticks_steps(tl, max, n) == prev + cur);
    if p < prev.len() {
        assert((prev + cur)[p] == prev[p]);
        lemma_ticks_advance_plain(tl, max, (n - 1) as nat, p);
    } else {
        lemma_tick_steps_shape(tl, (n - 1) as u32, max);
        assert((prev + cur)[p] == cur[p - prev.len()]);
    }
}

/// Only steps that need nothing but success advance the world: a step that
/// checks a tick, a block, a slot or entities never asks for an advance.
pub proof fn law_only_plain_steps_advance(spec: TestSpec, max: u32, p: int)
    requires
        0 <= p < program(spec, max).len(),
        program(spec, max)[p].request == Some(RequestView::DoTick),
    ensures
        program(spec, max)[p].expect is Nothing,
{
    let head = start_steps(spec) + setup_steps(spec);
    let body = ticks_steps(spec.timeline@, max, max as nat + 1);
    assert(program(spec, max) == head + body);
    lemma_head_quiet(spec);
    if p < head.len() {
        assert((head + body)[p] == head[p]);
        assert(quiet(head[p]));
    } else {
        assert((head + body)[p] == body[p - head.len()]);
        lemma_ticks_advance_plain(spec.timeline@, max, max as nat + 1, p - head.len());
    }
}

/// Setting a slot makes one call, which puts into the named slot exactly the
/// named item with exactly the named count (or empties the slot).
pub proof fn law_set_slot_request(slot: PlayerSlot, item: Option<String>, count: u8, tick: u32)
    ensures
        action_steps(ActionType::SetSlot { slot, item, count }, tick).len() == 1,
        action_steps(ActionType::SetSlot { slot, item, count }, tick)[0].tick == tick,
        action_steps(ActionType::SetSlot { slot, item, count }, tick)[0].request matches Some(
            RequestView::SetSlot { slot: s, item: it },
        ) && s == slot && match item {
            Some(id) => it matches Some(x) && x.id == id@ && x.count == count && x.data.len() == 0,
            None => it is None,
        },
{
}

/// Every step of a run, except the check after an advance, sees exactly as
/// many advances of the world before it as its timeline tick: in particular
/// the check of timeline tick `t`, and each action and assertion at `t`,
/// come after exactly `t` completed game ticks.
pub proof fn law_step_follows_advances(spec: TestSpec, max: u32, p: int)
    requires
        0 <= p < program(spec, max).len(),
        !(program(spec, max)[p].expect is TickAfter),
    ensures
        count_advances(program(spec, max).take(p)) == program(spec, max)[p].tick,
{
    let head = start_steps(spec) + setup_steps(spec);
    let body = ticks_steps(spec.timeline@, max, max as nat + 1);
    assert(program(spec, max) == head + body);
    lemma_head_quiet(spec);
    if p < head.len() {
        assert((head + body)[p] == head[p]);
        assert((head + body).take(p) =~= head.take(p));
        assert forall|q: int| 0 <= q < head.take(p).len() implies quiet(#[trigger] head.take(p)[q]) by {
            assert(head.take(p)[q] == head[q]);
        }
        lemma_quiet_count(head.take(p));
        assert(head[p].tick == 0) by {
            let a = start_steps(spec);
            if p < a.len() {
                assert(head[p] == a[p]);
            } else {
                assert(head[p] == setup_steps(spec)[p - a.len()]);
            }
        }
    } else {
        assert((head + body)[p] == body[p - head.len()]);
        lemma_ticks_steps(spec.timeline@, max, max as nat + 1, p - head.len());
        assert((head + body).take(p) =~= head + body.take(p - head.len()));
        lemma_count_append(head, body.take(p - head.len()));
        lemma_quiet_count(head);
    }
}

/// The world is advanced exactly as many times as the last timeline tick:
/// never after the final tick's actions.
pub proof fn law_run_advances_to_last_tick(spec: TestSpec, max: u32)
    ensures
        count_advances(program(spec, max)) == max,
{
    let head = start_steps(spec) + setup_steps(spec);
    let body = ticks_steps(spec.timeline@, max, max as nat + 1);
    assert(program(spec, max) == head + body);
    lemma_head_quiet(spec);
    lemma_quiet_count(head);
    lemma_ticks_count(spec.timeline@, max, max as nat + 1);
    lemma_count_append(head, body);
}

} // verus!
