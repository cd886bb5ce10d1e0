//! Results of running tests: assertion outcomes, failures and summaries.
use vstd::prelude::*;

use crate::error::{push_triple, triple_text};
use crate::nbt::entity_snbt;
use crate::string_map::Pairs;
use crate::test_spec::{
    block_views, command_text, slot_name, Block, BlockView, EntityCheck, EntityCheckView, Item, ItemView,
    PlayerSlot,
};
use crate::text::{int_decimal, nat_decimal, push_int, push_str, push_u64, u64_decimal};
use crate::traits::{copy_states, opt_text, state_views, EntityState, EntityStateView};

verus! {

/// Outcome of executing a single action.
pub enum ActionOutcome {
    /// A non-assertion action completed (place, fill, remove, ..).
    Action,
    /// An assertion passed.
    AssertPassed,
    /// An assertion failed, with details.
    AssertFailed(AssertFailure),
}

/// A value shown in a failure report.
#[derive(Debug, Clone)]
pub enum InfoType {
    String(String),
    Block(Block),
    Blocks(Vec<Block>),
    Item(Item),
    Slot(PlayerSlot),
    EntityCheck(Box<EntityCheck>),
    EntityState(Box<Vec<EntityState>>),
}

/// Result of executing a single assertion.
#[derive(Debug, Clone)]
pub enum AssertionResult {
    Success(u32),
    Failure(AssertFailure),
}

#[derive(Debug, Clone)]
pub enum AssertFailure {
    Block(AssertBlockFail),
    Inventory(AssertInventoryFail),
    Time(AssertTimeFail),
    Entity(Box<AssertEntityFail>),
}

#[derive(Debug, Clone)]
pub struct AssertBlockFail {
    pub tick: u32,
    pub expected: Vec<Block>,
    pub actual: Block,
    pub position: [i32; 3],
}

#[derive(Debug, Clone)]
pub struct AssertInventoryFail {
    pub tick: u32,
    pub expected: Option<Item>,
    pub actual: Option<Item>,
    pub slot: PlayerSlot,
}

#[derive(Debug, Clone)]
pub struct AssertEntityFail {
    pub tick: u32,
    pub expected: EntityCheck,
    pub actual: Vec<EntityState>,
}

#[derive(Debug, Clone, Copy)]
pub struct AssertTimeFail {
    pub tick: u32,
    pub expected: u64,
    pub actual: u64,
}

/// Where a failed assertion looked: a block position or a player slot.
#[derive(Debug, Clone, PartialEq, Eq, Structural)]
pub enum AssertPosition {
    Coordinate { x: i32, y: i32, z: i32 },
    Slot { slot: PlayerSlot },
}

/// The views of an optional item.
pub open spec fn opt_item(i: Option<Item>) -> Option<ItemView> {
    match i {
        Some(x) => Some(x@),
        None => None,
    }
}

pub fn copy_blocks(bs: &Vec<Block>) -> (r: Vec<Block>)
    ensures
        block_views(r@) == block_views(bs@),
{
    let mut v: Vec<Block> = Vec::new();
    let mut i: usize = 0;
    while i < bs.len()
        invariant
            i <= bs.len(),
            v.len() == i,
            forall|k: int| 0 <= k < i ==> (#[trigger] v@[k])@ == bs@[k]@,
        decreases bs.len() - i,
    {
        v.push(bs[i].duplicate());
        i = i + 1;
    }
    assert(block_views(v@) =~= block_views(bs@));
    v
}

impl AssertEntityFail {
    pub fn new(tick: u32, expected: &EntityCheck, actual: &Vec<EntityState>) -> (r: Self)
        ensures
            r.tick == tick,
            r.expected@ == expected@,
            state_views(r.actual@) == state_views(actual@),
    {
        AssertEntityFail { tick, expected: expected.duplicate(), actual: copy_states(actual) }
    }
}

impl AssertTimeFail {
    pub fn new(tick: u32, expected: u64, actual: u64) -> (r: Self)
        ensures
            r.tick == tick,
            r.expected == expected,
            r.actual == actual,
    {
        AssertTimeFail { tick, expected, actual }
    }

    /// This failure as an assertion failure.
    pub fn into_failure(self) -> (r: AssertFailure)
        ensures
            r == AssertFailure::Time(self),
    {
        AssertFailure::Time(self)
    }
}

impl AssertEntityFail {
    /// This failure as an assertion failure.
    pub fn into_failure(self) -> (r: AssertFailure)
        ensures
            r is Entity,
            *r->Entity_0 == self,
    {
        AssertFailure::Entity(Box::new(self))
    }
}

/// How a position is displayed: `(x,y,z)` or the slot's name.
pub open spec fn position_text(p: AssertPosition) -> Seq<char> {
    match p {
        AssertPosition::Coordinate { x, y, z } => seq!['('] + int_decimal(x as int) + seq![','] + int_decimal(y as int)
            + seq![','] + int_decimal(z as int) + seq![')'],
        AssertPosition::Slot { slot } => slot_name(slot),
    }
}

impl AssertPosition {
    pub fn from_array(array: [i32; 3]) -> (r: Self)
        ensures
            r == (AssertPosition::Coordinate { x: array[0], y: array[1], z: array[2] }),
    {
        AssertPosition::Coordinate { x: array[0], y: array[1], z: array[2] }
    }

    pub fn from_slot(slot: PlayerSlot) -> (r: Self)
        ensures
            r == (AssertPosition::Slot { slot }),
    {
        AssertPosition::Slot { slot }
    }

    /// The displayed text of the position.
    pub fn to_text(&self) -> (r: String)
        ensures
            r@ == position_text(*self),
    {
        match self {
            AssertPosition::Coordinate { x, y, z } => {
                let mut r = String::new();
                r.push('(');
                push_int(&mut r, *x as i64);
                r.push(',');
                push_int(&mut r, *y as i64);
                r.push(',');
                push_int(&mut r, *z as i64);
                r.push(')');
                r
            },
            AssertPosition::Slot { slot } => slot.name(),
        }
    }
}

/// The tick at which a failure was observed.
pub open spec fn failure_tick(f: AssertFailure) -> u32 {
    match f {
        AssertFailure::Block(b) => b.tick,
        AssertFailure::Inventory(i) => i.tick,
        AssertFailure::Time(t) => t.tick,
        AssertFailure::Entity(e) => e.tick,
    }
}

/// Where a failure is reported: the block position, the slot, the block an
/// expected entity position lies in, or the origin.
pub open spec fn failure_position(f: AssertFailure) -> AssertPosition {
    match f {
        AssertFailure::Block(b) => AssertPosition::Coordinate { x: b.position[0], y: b.position[1], z: b.position[2] },
        AssertFailure::Inventory(i) => AssertPosition::Slot { slot: i.slot },
        AssertFailure::Time(_) => AssertPosition::Coordinate { x: 0, y: 0, z: 0 },
        AssertFailure::Entity(e) => match e.expected.pos {
            Some(p) => AssertPosition::Coordinate { x: p.block[0], y: p.block[1], z: p.block[2] },
            None => AssertPosition::Coordinate { x: 0, y: 0, z: 0 },
        },
    }
}

/// The message of a failure.
pub open spec fn failure_message(f: AssertFailure) -> Seq<char> {
    match f {
        AssertFailure::Block(_) => "Block was different"@,
        AssertFailure::Inventory(_) => "Inventory slot content was different"@,
        AssertFailure::Time(t) => "Time mismatch: expected "@ + nat_decimal(t.expected as nat) + ", got "@ + nat_decimal(
            t.actual as nat,
        ),
        AssertFailure::Entity(e) => "Entity mismatch for "@ + e.expected.entity_alias@,
    }
}

/// Whether `r` shows an optional item: the item itself, or `empty`.
pub open spec fn shows_item(r: InfoType, i: Option<Item>) -> bool {
    match i {
        Some(x) => r matches InfoType::Item(y) && y@ == x@,
        None => r matches InfoType::String(s) && s@ == "empty"@,
    }
}

fn show_item(i: &Option<Item>) -> (r: InfoType)
    ensures
        shows_item(r, *i),
{
    match i {
        Some(x) => InfoType::Item(x.duplicate()),
        None => {
            let mut s = String::new();
            push_str(&mut s, "empty");
            assert(s@ =~= "empty"@);
            InfoType::String(s)
        },
    }
}

impl AssertFailure {
    pub fn new_item(tick: u32, expected: &Item, actual: &Item, slot: PlayerSlot) -> (r: AssertFailure)
        ensures
            r matches AssertFailure::Inventory(f) && f.tick == tick && f.slot == slot && opt_item(f.expected) == Some(
                expected@,
            ) && opt_item(f.actual) == Some(actual@),
    {
        AssertFailure::Inventory(
            AssertInventoryFail { tick, expected: Some(expected.duplicate()), actual: Some(actual.duplicate()), slot },
        )
    }

    pub fn new_block(tick: u32, expected: Vec<Block>, actual: Block, position: [i32; 3]) -> (r: Self)
        ensures
            r == AssertFailure::Block(AssertBlockFail { tick, expected, actual, position }),
    {
        AssertFailure::Block(AssertBlockFail { tick, expected, actual, position })
    }

    pub fn new_inventory(tick: u32, expected: Option<Item>, actual: Option<Item>, slot: PlayerSlot) -> (r: Self)
        ensures
            r == AssertFailure::Inventory(AssertInventoryFail { tick, expected, actual, slot }),
    {
        AssertFailure::Inventory(AssertInventoryFail { tick, expected, actual, slot })
    }

    pub fn tick(&self) -> (r: u32)
        ensures
            r == failure_tick(*self),
    {
        match self {
            AssertFailure::Block(f) => f.tick,
            AssertFailure::Inventory(f) => f.tick,
            AssertFailure::Time(f) => f.tick,
            AssertFailure::Entity(f) => f.tick,
        }
    }

    /// What the assertion expected.
    pub fn expected(&self) -> (r: InfoType)
        ensures
            match *self {
                AssertFailure::Block(f) => r matches InfoType::Blocks(bs) && block_views(bs@) == block_views(f.expected@),
                AssertFailure::Inventory(f) => shows_item(r, f.expected),
                AssertFailure::Time(f) => r matches InfoType::String(s) && s@ == nat_decimal(f.expected as nat),
                AssertFailure::Entity(f) => r matches InfoType::EntityCheck(c) && c@ == f.expected@,
            },
    {
        match self {
            AssertFailure::Block(f) => InfoType::Blocks(copy_blocks(&f.expected)),
            AssertFailure::Inventory(f) => show_item(&f.expected),
            AssertFailure::Time(f) => InfoType::String(u64_decimal(f.expected)),
            AssertFailure::Entity(f) => InfoType::EntityCheck(Box::new(f.expected.duplicate())),
        }
    }

    /// What was found instead.
    pub fn actual(&self) -> (r: InfoType)
        ensures
            match *self {
                AssertFailure::Block(f) => r matches InfoType::Block(b) && b@ == f.actual@,
                AssertFailure::Inventory(f) => shows_item(r, f.actual),
                AssertFailure::Time(f) => r matches InfoType::String(s) && s@ == nat_decimal(f.actual as nat),
                AssertFailure::Entity(f) => r matches InfoType::EntityState(v) && state_views(v@) == state_views(
                    f.actual@,
                ),
            },
    {
        match self {
            AssertFailure::Block(f) => InfoType::Block(f.actual.duplicate()),
            AssertFailure::Inventory(f) => show_item(&f.actual),
            AssertFailure::Time(f) => InfoType::String(u64_decimal(f.actual)),
            AssertFailure::Entity(f) => InfoType::EntityState(Box::new(copy_states(&f.actual))),
        }
    }

    pub fn position(&self) -> (r: AssertPosition)
        ensures
            r == failure_position(*self),
    {
        match self {
            AssertFailure::Block(f) => AssertPosition::from_array(f.position),
            AssertFailure::Inventory(f) => AssertPosition::from_slot(f.slot),
            AssertFailure::Time(_) => AssertPosition::from_array([0, 0, 0]),
            AssertFailure::Entity(f) => match f.expected.pos {
                Some(p) => AssertPosition::from_array(p.block),
                None => AssertPosition::from_array([0, 0, 0]),
            },
        }
    }

    pub fn error_message(&self) -> (r: String)
        ensures
            r@ == failure_message(*self),
    {
        let mut r = String::new();
        match self {
            AssertFailure::Block(_) => {
                push_str(&mut r, "Block was different");
            },
            AssertFailure::Inventory(_) => {
                push_str(&mut r, "Inventory slot content was different");
            },
            AssertFailure::Time(f) => {
                push_str(&mut r, "Time mismatch: expected ");
                push_u64(&mut r, f.expected);
                push_str(&mut r, ", got ");
                push_u64(&mut r, f.actual);
            },
            AssertFailure::Entity(f) => {
                push_str(&mut r, "Entity mismatch for ");
                push_str(&mut r, f.expected.entity_alias.as_str());
            },
        }
        assert(r@ =~= failure_message(*self));
        r
    }
}

/// How an entity check is shown: `entity '<alias>'`, then ` of type <t>`
/// when it names a type, ` absent` when it expects no entity, ` near block
/// [x,y,z]` when it gives a position (the block the position lies in), and
/// ` with nbt {..}` (the SNBT compound) when it gives NBT.
pub open spec fn check_text(c: EntityCheckView) -> Seq<char> {
    let kind = match c.entity_type {
        Some(t) => " of type "@ + t,
        None => Seq::empty(),
    };
    let absent = if c.exists {
        Seq::empty()
    } else {
        " absent"@
    };
    let near = match c.pos {
        Some(p) => " near block ["@ + triple_text(p.block) + "]"@,
        None => Seq::empty(),
    };
    let nbt = match c.nbt {
        Some(n) => " with nbt "@ + entity_snbt(n),
        None => Seq::empty(),
    };
    "entity '"@ + c.entity_alias + "'"@ + kind + absent + near + nbt
}

/// The first `n` pairs written `key:value`, comma-separated.
pub open spec fn pairs_joined(p: Pairs, n: nat) -> Seq<char>
    decreases n,
{
    if n == 0 || n > p.len() {
        Seq::empty()
    } else {
        let item = p[n - 1].0 + ":"@ + p[n - 1].1;
        if n == 1 {
            item
        } else {
            pairs_joined(p, (n - 1) as nat) + ","@ + item
        }
    }
}

/// How one reported entity is shown: its type (`unknown entity` when none is
/// reported), then ` with nbt {key:value,..}` when NBT was reported.
pub open spec fn state_text(s: EntityStateView) -> Seq<char> {
    let kind = match s.entity_type {
        Some(t) => t,
        None => "unknown entity"@,
    };
    let nbt = if s.nbt.len() > 0 {
        " with nbt {"@ + pairs_joined(s.nbt, s.nbt.len()) + "}"@
    } else {
        Seq::empty()
    };
    kind + nbt
}

/// The first `n` reported entities, separated by `, `.
pub open spec fn states_joined(ss: Seq<EntityStateView>, n: nat) -> Seq<char>
    decreases n,
{
    if n == 0 || n > ss.len() {
        Seq::empty()
    } else {
        let item = state_text(ss[n - 1]);
        if n == 1 {
            item
        } else {
            states_joined(ss, (n - 1) as nat) + ", "@ + item
        }
    }
}

/// How the reported entities are shown: `[` their texts `]`.
pub open spec fn states_text(ss: Seq<EntityStateView>) -> Seq<char> {
    "["@ + states_joined(ss, ss.len()) + "]"@
}

fn text_lit(lit: &str) -> (r: String)
    ensures
        r@ == lit@,
{
    let mut r = String::new();
    push_str(&mut r, lit);
    assert(r@ =~= lit@);
    r
}

/// The text of an entity check (see `check_text`).
pub fn entity_check_text(c: &EntityCheck) -> (r: String)
    ensures
        r@ == check_text(c@),
{
    let ghost v = c@;
    let mut r = text_lit("entity '");
    push_str(&mut r, c.entity_alias.as_str());
    push_str(&mut r, "'");
    let ghost p0 = r@;
    assert(p0 == "entity '"@ + v.entity_alias + "'"@);
    let kind = match &c.entity_type {
        Some(t) => {
            let mut k = text_lit(" of type ");
            push_str(&mut k, t.as_str());
            k
        },
        None => String::new(),
    };
    let absent = if c.exists { String::new() } else { text_lit(" absent") };
    let near = match &c.pos {
        Some(p) => {
            let mut n = text_lit(" near block [");
            push_triple(&mut n, p.block);
            push_str(&mut n, "]");
            n
        },
        None => String::new(),
    };
    let nbt = match &c.nbt {
        Some(n) => {
            let mut t = text_lit(" with nbt ");
            let x = n.to_snbt();
            push_str(&mut t, x.as_str());
            t
        },
        None => String::new(),
    };
    assert(kind@ =~= match v.entity_type {
        Some(t) => " of type "@ + t,
        None => Seq::<char>::empty(),
    });
    assert(absent@ =~= if v.exists { Seq::<char>::empty() } else { " absent"@ });
    assert(near@ =~= match v.pos {
        Some(p) => " near block ["@ + triple_text(p.block) + "]"@,
        None => Seq::<char>::empty(),
    });
    assert(nbt@ =~= match v.nbt {
        Some(n) => " with nbt "@ + entity_snbt(n),
        None => Seq::<char>::empty(),
    });
    push_str(&mut r, kind.as_str());
    push_str(&mut r, absent.as_str());
    push_str(&mut r, near.as_str());
    push_str(&mut r, nbt.as_str());
    assert(r@ =~= check_text(v));
    r
}

fn state_text_of(s: &EntityState) -> (r: String)
    ensures
        r@ == state_text(s@),
{
    let mut r = match &s.entity_type {
        Some(t) => t.clone(),
        None => text_lit("unknown entity"),
    };
    let n = s.nbt.len();
    if n > 0 {
        push_str(&mut r, " with nbt {");
        let ghost p = s.nbt@;
        let ghost base = r@;
        let mut i: usize = 0;
        while i < n
            invariant
                i <= n,
                n == p.len(),
                p == s.nbt@,
                r@ == base + pairs_joined(p, i as nat),
            decreases n - i,
        {
            if i > 0 {
                push_str(&mut r, ",");
            }
            push_str(&mut r, s.nbt.key_at(i).as_str());
            push_str(&mut r, ":");
            push_str(&mut r, s.nbt.value_at(i).as_str());
            i = i + 1;
            assert(r@ =~= base + pairs_joined(p, i as nat));
        }
        push_str(&mut r, "}");
    }
    assert(r@ =~= state_text(s@));
    r
}

/// The text of reported entities (see `states_text`).
pub fn entity_states_text(ss: &Vec<EntityState>) -> (r: String)
    ensures
        r@ == states_text(state_views(ss@)),
{
    let ghost v = state_views(ss@);
    let mut r = text_lit("[");
    let mut i: usize = 0;
    while i < ss.len()
        invariant
            i <= ss.len(),
            v == state_views(ss@),
            r@ == "["@ + states_joined(v, i as nat),
        decreases ss.len() - i,
    {
        if i > 0 {
            push_str(&mut r, ", ");
        }
        let t = state_text_of(&ss[i]);
        assert(v[i as int] == ss@[i as int]@);
        push_str(&mut r, t.as_str());
        i = i + 1;
        assert(r@ =~= "["@ + states_joined(v, i as nat));
    }
    push_str(&mut r, "]");
    assert(r@ =~= states_text(v));
    r
}

/// The commands of the first `n` blocks, joined by ` or `.
pub open spec fn blocks_text(bs: Seq<BlockView>, n: nat) -> Seq<char>
    decreases n,
{
    if n == 0 || n > bs.len() {
        Seq::empty()
    } else {
        let c = command_text(bs[n - 1].id, bs[n - 1].properties);
        if n == 1 {
            c
        } else {
            blocks_text(bs, (n - 1) as nat) + " or "@ + c
        }
    }
}

/// The text of a shown value.
pub open spec fn info_text(v: InfoType, t: Seq<char>) -> bool {
    match v {
        InfoType::String(s) => t == s@,
        InfoType::Block(b) => t == command_text(b.id@, b.properties@),
        InfoType::Blocks(bs) => t == blocks_text(block_views(bs@), bs@.len()),
        InfoType::Item(i) => t == command_text(i.id@, i.data@),
        InfoType::Slot(s) => t == slot_name(s),
        InfoType::EntityCheck(c) => t == check_text(c@),
        InfoType::EntityState(v) => t == states_text(state_views(v@)),
    }
}

impl InfoType {
    /// The string, when this is a plain string.
    pub fn get_string(&self) -> (r: Option<String>)
        ensures
            opt_text(r) == match *self {
                InfoType::String(s) => Some(s@),
                _ => None::<Seq<char>>,
            },
    {
        match self {
            InfoType::String(s) => Some(s.clone()),
            _ => None,
        }
    }

    /// The text a report shows for this value.
    pub fn to_text(&self) -> (r: String)
        ensures
            info_text(*self, r@),
    {
        match self {
            InfoType::String(s) => s.clone(),
            InfoType::Block(b) => b.to_command(),
            InfoType::Blocks(bs) => {
                let ghost v = block_views(bs@);
                let mut r = String::new();
                let mut i: usize = 0;
                while i < bs.len()
                    invariant
                        i <= bs.len(),
                        v == block_views(bs@),
                        r@ == blocks_text(v, i as nat),
                    decreases bs.len() - i,
                {
                    if i > 0 {
                        push_str(&mut r, " or ");
                    }
                    let c = bs[i].to_command();
                    push_str(&mut r, c.as_str());
                    assert(v[i as int] == bs@[i as int]@);
                    i = i + 1;
                    assert(r@ =~= blocks_text(v, i as nat));
                }
                r
            },
            InfoType::Item(i) => i.to_command(),
            InfoType::Slot(s) => s.name(),
            InfoType::EntityCheck(c) => entity_check_text(c),
            InfoType::EntityState(s) => entity_states_text(s),
        }
    }
}

/// Result of executing a complete test.
#[derive(Debug, Clone)]
pub struct TestResult {
    /// Name of the test.
    pub test_name: String,
    /// Minecraft ids of the blocks and items the test targets.
    pub minecraft_ids: Vec<String>,
    /// Overall success (true while every assertion passed).
    pub success: bool,
    /// Whether the test was skipped (e.g. for a version mismatch).
    pub skipped: bool,
    /// Why the test was skipped.
    pub skip_reason: Option<String>,
    /// Individual assertion results.
    pub assertions: Vec<AssertionResult>,
    /// Number of ticks executed.
    pub total_ticks: u32,
    /// Execution time in milliseconds.
    pub execution_time_ms: u64,
    /// Why the test failed, when it did.
    pub failure_reason: Option<String>,
    /// Offset used to place the test in the world.
    pub test_offset: Option<[i32; 3]>,
}

/// Number of passed assertions in `s`.
pub open spec fn count_passed(s: Seq<AssertionResult>) -> nat
    decreases s.len(),
{
    if s.len() == 0 {
        0
    } else {
        count_passed(s.drop_last()) + if s.last() is Success {
            1nat
        } else {
            0nat
        }
    }
}

/// Number of failed assertions in `s`.
pub open spec fn count_failed(s: Seq<AssertionResult>) -> nat
    decreases s.len(),
{
    if s.len() == 0 {
        0
    } else {
        count_failed(s.drop_last()) + if s.last() is Success {
            0nat
        } else {
            1nat
        }
    }
}

/// Every assertion is either passed or failed: the two counts add up to the
/// number of assertions.
pub proof fn law_passed_and_failed_partition(s: Seq<AssertionResult>)
    ensures
        count_passed(s) + count_failed(s) == s.len(),
    decreases s.len(),
{
    if s.len() > 0 {
        law_passed_and_failed_partition(s.drop_last());
    }
}

/// The fields that only the builders and `add_assertion` change.
pub open spec fn same_identity(a: TestResult, b: TestResult) -> bool {
    &&& a.test_name@ == b.test_name@
    &&& a.minecraft_ids@ == b.minecraft_ids@
    &&& a.skipped == b.skipped
    &&& opt_text(a.skip_reason) == opt_text(b.skip_reason)
}

impl TestResult {
    /// A fresh, successful result with no assertions.
    pub fn new(test_name: &str) -> (r: Self)
        ensures
            r.test_name@ == test_name@,
            r.success,
            !r.skipped,
            r.skip_reason is None,
            r.assertions@.len() == 0,
            r.total_ticks == 0,
            r.execution_time_ms == 0,
            r.failure_reason is None,
            r.test_offset is None,
            r.minecraft_ids@.len() == 0,
    {
        let mut name = String::new();
        push_str(&mut name, test_name);
        TestResult {
            test_name: name,
            minecraft_ids: Vec::new(),
            success: true,
            skipped: false,
            skip_reason: None,
            assertions: Vec::new(),
            total_ticks: 0,
            execution_time_ms: 0,
            failure_reason: None,
            test_offset: None,
        }
    }

    /// The result of a test that was not run.
    pub fn skipped(test_name: &str, reason: &str) -> (r: Self)
        ensures
            r.test_name@ == test_name@,
            r.success,
            r.skipped,
            opt_text(r.skip_reason) == Some(reason@),
            r.assertions@.len() == 0,
            r.total_ticks == 0,
            r.execution_time_ms == 0,
            r.failure_reason is None,
            r.test_offset is None,
            r.minecraft_ids@.len() == 0,
    {
        let mut name = String::new();
        push_str(&mut name, test_name);
        let mut why = String::new();
        push_str(&mut why, reason);
        TestResult {
            test_name: name,
            minecraft_ids: Vec::new(),
            success: true,
            skipped: true,
            skip_reason: Some(why),
            assertions: Vec::new(),
            total_ticks: 0,
            execution_time_ms: 0,
            failure_reason: None,
            test_offset: None,
        }
    }

    /// Records an assertion result; a failure makes the test fail.
    pub fn add_assertion(&mut self, assertion: AssertionResult)
        ensures
            final(self).assertions@ == old(self).assertions@.push(assertion),
            final(self).success == (old(self).success && assertion is Success),
            same_identity(*final(self), *old(self)),
            final(self).total_ticks == old(self).total_ticks,
            final(self).execution_time_ms == old(self).execution_time_ms,
            opt_text(final(self).failure_reason) == opt_text(old(self).failure_reason),
            final(self).test_offset == old(self).test_offset,
    {
        if let AssertionResult::Failure(_) = assertion {
            self.success = false;
        }
        self.assertions.push(assertion);
    }

    /// Sets the number of ticks executed.
    pub fn with_total_ticks(self, ticks: u32) -> (r: Self)
        ensures
            r == (TestResult { total_ticks: ticks, ..self }),
    {
        let mut r = self;
        r.total_ticks = ticks;
        r
    }

    /// Sets the execution time.
    pub fn with_execution_time(self, ms: u64) -> (r: Self)
        ensures
            r == (TestResult { execution_time_ms: ms, ..self }),
    {
        let mut r = self;
        r.execution_time_ms = ms;
        r
    }

    /// Sets the placement offset.
    pub fn with_offset(self, offset: [i32; 3]) -> (r: Self)
        ensures
            r == (TestResult { test_offset: Some(offset), ..self }),
    {
        let mut r = self;
        r.test_offset = Some(offset);
        r
    }

    /// Marks the test failed with a reason.
    pub fn with_failure_reason(self, reason: &str) -> (r: Self)
        ensures
            !r.success,
            opt_text(r.failure_reason) == Some(reason@),
            same_identity(r, self),
            r.assertions == self.assertions,
            r.total_ticks == self.total_ticks,
            r.execution_time_ms == self.execution_time_ms,
            r.test_offset == self.test_offset,
    {
        let mut why = String::new();
        push_str(&mut why, reason);
        let mut r = self;
        r.success = false;
        r.failure_reason = Some(why);
        r
    }

    /// Number of passed assertions.
    pub fn passed_count(&self) -> (r: usize)
        ensures
            r == count_passed(self.assertions@),
    {
        let mut n: usize = 0;
        let mut i: usize = 0;
        while i < self.assertions.len()
            invariant
                i <= self.assertions.len(),
                n == count_passed(self.assertions@.take(i as int)),
                n <= i,
            decreases self.assertions.len() - i,
        {
            assert(self.assertions@.take(i + 1).drop_last() =~= self.assertions@.take(i as int));
            if let AssertionResult::Success(_) = &self.assertions[i] {
                n = n + 1;
            }
            i = i + 1;
        }
        assert(self.assertions@.take(i as int) =~= self.assertions@);
        n
    }

    /// Number of failed assertions.
    pub fn failed_count(&self) -> (r: usize)
        ensures
            r == count_failed(self.assertions@),
    {
        let mut n: usize = 0;
        let mut i: usize = 0;
        while i < self.assertions.len()
            invariant
                i <= self.assertions.len(),
                n == count_failed(self.assertions@.take(i as int)),
                n <= i,
            decreases self.assertions.len() - i,
        {
            assert(self.assertions@.take(i + 1).drop_last() =~= self.assertions@.take(i as int));
            if let AssertionResult::Success(_) = &self.assertions[i] {
            } else {
                n = n + 1;
            }
            i = i + 1;
        }
        assert(self.assertions@.take(i as int) =~= self.assertions@);
        n
    }

    /// Number of assertions.
    pub fn total_assertions(&self) -> (r: usize)
        ensures
            r == self.assertions@.len(),
    {
        self.assertions.len()
    }
}

/// Summary of several test results.
#[derive(Debug, Clone)]
pub struct TestSummary {
    /// All test results.
    pub results: Vec<TestResult>,
    /// Number of tests.
    pub total_tests: usize,
    /// Number of tests that passed (skipped ones excluded).
    pub passed_tests: usize,
    /// Number of tests that failed.
    pub failed_tests: usize,
    /// Number of tests that were skipped.
    pub skipped_tests: usize,
    /// Execution time of all tests, in milliseconds.
    pub total_execution_time_ms: u64,
}

/// Whether a test counts as failed: not successful and not skipped.
pub open spec fn is_failed_test(r: TestResult) -> bool {
    !r.success && !r.skipped
}

/// Whether a test counts as passed: successful and not skipped.
pub open spec fn is_passed_test(r: TestResult) -> bool {
    r.success && !r.skipped
}

pub open spec fn count_skipped(s: Seq<TestResult>) -> nat
    decreases s.len(),
{
    if s.len() == 0 {
        0
    } else {
        count_skipped(s.drop_last()) + if s.last().skipped {
            1nat
        } else {
            0nat
        }
    }
}

pub open spec fn count_failed_tests(s: Seq<TestResult>) -> nat
    decreases s.len(),
{
    if s.len() == 0 {
        0
    } else {
        count_failed_tests(s.drop_last()) + if is_failed_test(s.last()) {
            1nat
        } else {
            0nat
        }
    }
}

pub open spec fn count_passed_tests(s: Seq<TestResult>) -> nat
    decreases s.len(),
{
    if s.len() == 0 {
        0
    } else {
        count_passed_tests(s.drop_last()) + if is_passed_test(s.last()) {
            1nat
        } else {
            0nat
        }
    }
}

/// Sum of the execution times.
pub open spec fn total_time(s: Seq<TestResult>) -> nat
    decreases s.len(),
{
    if s.len() == 0 {
        0
    } else {
        total_time(s.drop_last()) + (s.last().execution_time_ms as nat)
    }
}

/// The tests that satisfy `keep`, in order.
pub open spec fn tests_where(s: Seq<TestResult>, keep: spec_fn(TestResult) -> bool) -> Seq<TestResult>
    decreases s.len(),
{
    if s.len() == 0 {
        Seq::empty()
    } else if keep(s.last()) {
        tests_where(s.drop_last(), keep).push(s.last())
    } else {
        tests_where(s.drop_last(), keep)
    }
}

/// Every test is exactly one of skipped, failed or passed.
pub proof fn law_tests_partition(s: Seq<TestResult>)
    ensures
        count_skipped(s) + count_failed_tests(s) + count_passed_tests(s) == s.len(),
    decreases s.len(),
{
    if s.len() > 0 {
        law_tests_partition(s.drop_last());
    }
}

proof fn lemma_counts_bounded(s: Seq<TestResult>)
    ensures
        count_skipped(s) <= s.len(),
        count_failed_tests(s) <= s.len(),
        count_skipped(s) + count_failed_tests(s) <= s.len(),
    decreases s.len(),
{
    if s.len() > 0 {
        lemma_counts_bounded(s.drop_last());
    }
}

proof fn lemma_total_time_prefix(s: Seq<TestResult>, i: int)
    requires
        0 <= i <= s.len(),
    ensures
        total_time(s.take(i)) <= total_time(s),
    decreases s.len() - i,
{
    if i < s.len() {
        lemma_total_time_prefix(s, i + 1);
        assert(s.take(i + 1).drop_last() =~= s.take(i));
    } else {
        assert(s.take(i) =~= s);
    }
}

fn select_tests<'a>(results: &'a Vec<TestResult>, want_success: bool) -> (r: Vec<&'a TestResult>)
    ensures
        r@.map_values(|t: &TestResult| *t) == tests_where(
            results@,
            |t: TestResult| t.success == want_success && !t.skipped,
        ),
{
    let ghost keep = |t: TestResult| t.success == want_success && !t.skipped;
    let mut r: Vec<&TestResult> = Vec::new();
    let mut i: usize = 0;
    while i < results.len()
        invariant
            i <= results.len(),
            r@.map_values(|t: &TestResult| *t) == tests_where(results@.take(i as int), keep),
            keep == (|t: TestResult| t.success == want_success && !t.skipped),
        decreases results.len() - i,
    {
        let ghost before = r@;
        assert(results@.take(i + 1).drop_last() =~= results@.take(i as int));
        assert(results@.take(i + 1).last() == results@[i as int]);
        let ghost x = results@[i as int];
        if results[i].success == want_success && !results[i].skipped {
            assert(keep(x));
            assert(tests_where(results@.take(i + 1), keep) == tests_where(results@.take(i as int), keep).push(x));
            r.push(&results[i]);
            assert(r@.map_values(|t: &TestResult| *t) =~= before.map_values(|t: &TestResult| *t).push(x));
        } else {
            assert(!keep(x));
            assert(tests_where(results@.take(i + 1), keep) == tests_where(results@.take(i as int), keep));
        }
        i = i + 1;
    }
    assert(results@.take(i as int) =~= results@);
    r
}

impl TestSummary {
    /// Counts the results: skipped tests, failed tests (neither successful
    /// nor skipped), passed tests (the rest), and the total time.
    pub fn from_results(results: Vec<TestResult>) -> (r: Self)
        requires
            total_time(results@) <= u64::MAX,
        ensures
            r.results == results,
            r.total_tests == results@.len(),
            r.skipped_tests == count_skipped(results@),
            r.failed_tests == count_failed_tests(results@),
            r.passed_tests == results@.len() - count_skipped(results@) - count_failed_tests(results@),
            r.total_execution_time_ms == total_time(results@),
    {
        let ghost s = results@;
        let mut skipped: usize = 0;
        let mut failed: usize = 0;
        let mut time: u64 = 0;
        let mut i: usize = 0;
        while i < results.len()
            invariant
                i <= results.len(),
                s == results@,
                total_time(s) <= u64::MAX,
                skipped == count_skipped(s.take(i as int)),
                failed == count_failed_tests(s.take(i as int)),
                time == total_time(s.take(i as int)),
                skipped + failed <= i,
            decreases results.len() - i,
        {
            let ghost t = s.take(i + 1);
            assert(t.drop_last() =~= s.take(i as int));
            proof {
                lemma_counts_bounded(s.take(i as int));
                lemma_total_time_prefix(s, i + 1);
            }
            if results[i].skipped {
                skipped = skipped + 1;
            }
            if !results[i].success && !results[i].skipped {
                failed = failed + 1;
            }
            time = time + results[i].execution_time_ms;
            i = i + 1;
        }
        assert(s.take(i as int) =~= s);
        let total = results.len();
        TestSummary {
            results,
            total_tests: total,
            passed_tests: total - skipped - failed,
            failed_tests: failed,
            skipped_tests: skipped,
            total_execution_time_ms: time,
        }
    }

    /// The failed tests, in order.
    pub fn failed_tests(&self) -> (r: Vec<&TestResult>)
        ensures
            r@.map_values(|t: &TestResult| *t) == tests_where(self.results@, |t: TestResult| is_failed_test(t)),
    {
        let r = select_tests(&self.results, false);
        assert(tests_where(self.results@, |t: TestResult| t.success == false && !t.skipped) =~= tests_where(
            self.results@,
            |t: TestResult| is_failed_test(t),
        )) by {
            lemma_tests_where_same(self.results@, |t: TestResult| t.success == false && !t.skipped, |t: TestResult| is_failed_test(t));
        }
        r
    }

    /// The passed tests, in order.
    pub fn passed_tests(&self) -> (r: Vec<&TestResult>)
        ensures
            r@.map_values(|t: &TestResult| *t) == tests_where(self.results@, |t: TestResult| is_passed_test(t)),
    {
        let r = select_tests(&self.results, true);
        assert(tests_where(self.results@, |t: TestResult| t.success == true && !t.skipped) =~= tests_where(
            self.results@,
            |t: TestResult| is_passed_test(t),
        )) by {
            lemma_tests_where_same(self.results@, |t: TestResult| t.success == true && !t.skipped, |t: TestResult| is_passed_test(t));
        }
        r
    }

    /// Whether no test failed (skipped tests are no failures).
    pub fn all_passed(&self) -> (r: bool)
        ensures
            r == (self.failed_tests == 0),
    {
        self.failed_tests == 0
    }
}

proof fn lemma_tests_where_same(s: Seq<TestResult>, f: spec_fn(TestResult) -> bool, g: spec_fn(TestResult) -> bool)
    requires
        forall|t: TestResult| #[trigger] f(t) == g(t),
    ensures
        tests_where(s, f) == tests_where(s, g),
    decreases s.len(),
{
    if s.len() > 0 {
        lemma_tests_where_same(s.drop_last(), f, g);
    }
}

/// What `success` becomes after recording the assertions `s` in order,
/// starting from `start`.
pub open spec fn success_after(start: bool, s: Seq<AssertionResult>) -> bool
    decreases s.len(),
{
    if s.len() == 0 {
        start
    } else {
        success_after(start, s.drop_last()) && s.last() is Success
    }
}

/// A result that starts successful stays successful exactly as long as no
/// failed assertion is recorded.
pub proof fn law_success_means_no_failed_assertion(s: Seq<AssertionResult>)
    ensures
        success_after(true, s) == (count_failed(s) == 0),
    decreases s.len(),
{
    if s.len() > 0 {
        law_success_means_no_failed_assertion(s.drop_last());
    }
}

} // verus!
