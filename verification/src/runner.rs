//! How the runner judges what a server reports.
use vstd::prelude::*;

use crate::nbt::{expected_pairs, ValueView};
use crate::string_map::{first_index, keys_unique, lemma_first_index, lookup, Pairs};
use crate::test_spec::{has_prefix, starts_with, Block, BlockView, EntityCheck, EntityCheckView, Item, ItemView};
use crate::text::{
    chars_of, eq_ignore_ascii_case, lower_seq, push_str, str_eq, string_from_chars, sub_chars, trim_char,
    trim_matches_char, trim_whitespace, trim_ws,
};
use crate::plan::{
    build_program, check_step, copy_strings, count_advances, empty_item_view, is_last_tick, law_only_plain_steps_advance,
    law_run_advances_to_last_tick, law_step_follows_advances, lemma_count_append, opt_item_view, program, step_views, texts,
    Expect, ExpectView, RequestView, Step,
};
use crate::results::{failure_tick, opt_item, same_identity, AssertEntityFail, AssertFailure, AssertionResult, TestResult};
use crate::test_spec::{accepted_blocks, AssertType, TestSpec};
use crate::traits::opt_text;
use crate::test_spec::block_views;
use crate::text::{nat_decimal, push_u64};
use crate::traits::{state_views, EntityState, EntityStateView};

verus! {

/// Configuration for test execution.
#[derive(Debug, Clone)]
pub struct TestRunConfig {
    /// Enable debug mode with breakpoints.
    pub debug_enabled: bool,
    /// Run tests in parallel.
    pub parallel: bool,
    /// Maximum number of parallel test worlds.
    pub max_parallel_worlds: usize,
}

impl Default for TestRunConfig {
    fn default() -> (r: Self)
        ensures
            !r.debug_enabled,
            !r.parallel,
            r.max_parallel_worlds == 4,
    {
        TestRunConfig { debug_enabled: false, parallel: false, max_parallel_worlds: 4 }
    }
}

/// An id without its `minecraft:` namespace, when it has one.
pub open spec fn strip_namespace(id: Seq<char>) -> Seq<char> {
    if starts_with(id, "minecraft:"@) {
        id.skip(10)
    } else {
        id
    }
}

/// Whether two ids name the same thing, with or without the `minecraft:`
/// namespace.
pub open spec fn ids_match(actual: Seq<char>, expected: Seq<char>) -> bool {
    actual == expected || strip_namespace(actual) == strip_namespace(expected)
}

fn without_namespace(id: &str) -> (r: Vec<char>)
    ensures
        r@ == strip_namespace(id@),
{
    proof {
        reveal_strlit("minecraft:");
    }
    let cs = chars_of(id);
    if has_prefix(id, "minecraft:") {
        let r = sub_chars(&cs, 10, cs.len());
        assert(r@ =~= id@.skip(10));
        r
    } else {
        cs
    }
}

fn chars_eq(a: &Vec<char>, b: &Vec<char>) -> (r: bool)
    ensures
        r == (a@ == b@),
{
    if a.len() != b.len() {
        return false;
    }
    let mut i: usize = 0;
    while i < a.len()
        invariant
            i <= a.len(),
            a.len() == b.len(),
            forall|k: int| 0 <= k < i ==> a@[k] == b@[k],
        decreases a.len() - i,
    {
        if a[i] != b[i] {
            return false;
        }
        i = i + 1;
    }
    assert(a@ =~= b@);
    true
}

/// Whether the ids match, with or without the `minecraft:` namespace.
pub fn check_id(actual: &str, expected: &str) -> (r: bool)
    ensures
        r == ids_match(actual@, expected@),
{
    if str_eq(actual, expected) {
        return true;
    }
    let a = without_namespace(actual);
    let e = without_namespace(expected);
    chars_eq(&a, &e)
}

/// Whether every expected key is present in `actual` with the same value.
pub open spec fn props_match(actual: Pairs, expected: Pairs) -> bool {
    forall|k: int| 0 <= k < expected.len() ==> lookup(actual, #[trigger] expected[k].0) == Some(expected[k].1)
}

fn pairs_present(actual: &crate::string_map::StringMap, expected: &crate::string_map::StringMap) -> (r: bool)
    ensures
        r == props_match(actual@, expected@),
{
    let mut i: usize = 0;
    while i < expected.len()
        invariant
            i <= expected@.len(),
            forall|k: int| 0 <= k < i ==> lookup(actual@, #[trigger] expected@[k].0) == Some(expected@[k].1),
        decreases expected@.len() - i,
    {
        let key = expected.key_at(i);
        let value = expected.value_at(i);
        match actual.get(key.as_str()) {
            Some(a) => {
                if !str_eq(a.as_str(), value.as_str()) {
                    return false;
                }
            },
            None => {
                return false;
            },
        }
        i = i + 1;
    }
    true
}

/// Whether an actual block matches an expected one: the same id (with or
/// without namespace) and every expected property with the same value.
pub open spec fn block_matches_spec(actual: BlockView, expected: BlockView) -> bool {
    ids_match(actual.id, expected.id) && props_match(actual.properties, expected.properties)
}

/// Whether an actual item matches an expected one: the same id (with or
/// without namespace), the same count, and every expected data entry.
pub open spec fn item_matches_spec(actual: ItemView, expected: ItemView) -> bool {
    ids_match(actual.id, expected.id) && actual.count == expected.count && props_match(actual.data, expected.data)
}

/// Check if the actual block matches the expected one.
pub fn block_matches(actual: &Block, expected: &Block) -> (r: bool)
    ensures
        r == block_matches_spec(actual@, expected@),
{
    if !check_id(actual.id.as_str(), expected.id.as_str()) {
        return false;
    }
    pairs_present(&actual.properties, &expected.properties)
}

/// Check if the actual item matches the expected one.
pub fn item_matches(actual: &Item, expected: &Item) -> (r: bool)
    ensures
        r == item_matches_spec(actual@, expected@),
        r ==> actual@.count == expected@.count,
{
    if !check_id(actual.id.as_str(), expected.id.as_str()) {
        return false;
    }
    if actual.count != expected.count {
        return false;
    }
    pairs_present(&actual.data, &expected.data)
}

/// An NBT value prepared for comparison: white space and surrounding quotes
/// trimmed, and the keywords `true`/`false` (in any case) mapped to the bytes
/// `1b`/`0b`, the form servers report them in.
pub open spec fn normalized_nbt(value: Seq<char>) -> Seq<char> {
    let v = trim_ws(trim_char(trim_ws(value), '"'));
    if lower_seq(v) == "true"@ {
        "1b"@
    } else if lower_seq(v) == "false"@ {
        "0b"@
    } else {
        v
    }
}

/// Canonicalises an NBT value string for comparison.
pub fn normalize_entity_nbt_value(value: &str) -> (r: String)
    ensures
        r@ == normalized_nbt(value@),
{
    let cs = chars_of(value);
    let a = trim_whitespace(&cs);
    let b = trim_matches_char(&a, '"');
    let v = trim_whitespace(&b);
    proof {
        reveal_strlit("true");
        reveal_strlit("false");
        assert(lower_seq("true"@) =~= "true"@);
        assert(lower_seq("false"@) =~= "false"@);
    }
    if eq_ignore_ascii_case(&v, "true") {
        let mut r = String::new();
        push_str(&mut r, "1b");
        assert(r@ =~= "1b"@);
        return r;
    }
    if eq_ignore_ascii_case(&v, "false") {
        let mut r = String::new();
        push_str(&mut r, "0b");
        assert(r@ =~= "0b"@);
        return r;
    }
    string_from_chars(&v)
}

/// Whether `key` is reported with a value equal to `want` after normalising
/// both.
pub open spec fn value_matches(actual: Pairs, key: Seq<char>, want: Seq<char>) -> bool {
    match lookup(actual, key) {
        Some(a) => normalized_nbt(a) == normalized_nbt(want),
        None => false,
    }
}

/// Whether the reported NBT holds every expected path, with a value that
/// compares equal after normalising both sides.
pub open spec fn nbt_matches(actual: Pairs, expected: Option<Seq<(Seq<char>, ValueView)>>) -> bool {
    match expected {
        None => true,
        Some(e) => all_values_match(actual, expected_pairs(e)),
    }
}

/// Whether every `(key, value)` of `want` is reported with an equal value.
pub open spec fn all_values_match(actual: Pairs, want: Pairs) -> bool {
    forall|k: int| 0 <= k < want.len() ==> #[trigger] value_matches(actual, want[k].0, want[k].1)
}

/// Whether one reported entity satisfies the check, `geometry_ok` being the
/// verdict on its position and rotation.
pub open spec fn entity_state_matches(s: EntityStateView, c: EntityCheckView, geometry_ok: bool) -> bool {
    &&& (c.entity_type matches Some(t) ==> s.entity_type == Some(t))
    &&& geometry_ok
    &&& nbt_matches(s.nbt, c.nbt)
}

/// Whether the reported entities satisfy the check: none at all when the
/// check expects absence; otherwise as many as a given count asks for, at
/// least one, each of them matching.
pub open spec fn entities_match(states: Seq<EntityStateView>, c: EntityCheckView, geometry: Seq<bool>) -> bool {
    if !c.exists {
        states.len() == 0
    } else {
        (c.count matches Some(n) ==> states.len() == n) && states.len() > 0 && forall|i: int| 0 <= i < states.len() ==> entity_state_matches(#[trigger] states[i], c, geometry[i])
    }
}

fn nbt_values_match(actual: &crate::string_map::StringMap, expected: &EntityCheck) -> (r: bool)
    ensures
        r == nbt_matches(actual@, expected@.nbt),
{
    match &expected.nbt {
        None => true,
        Some(n) => {
            let want = n.expected_values();
            let mut i: usize = 0;
            while i < want.len()
                invariant
                    i <= want@.len(),
                    want@ == expected_pairs(n@),
                    expected@.nbt == Some(n@),
                    forall|k: int|
                        0 <= k < i ==> #[trigger] value_matches(actual@, want@[k].0, want@[k].1),
                decreases want@.len() - i,
            {
                let key = want.key_at(i);
                match actual.get(key.as_str()) {
                    None => {
                        assert(!value_matches(actual@, want@[i as int].0, want@[i as int].1));
                        return false;
                    },
                    Some(a) => {
                        let x = normalize_entity_nbt_value(a.as_str());
                        let y = normalize_entity_nbt_value(want.value_at(i).as_str());
                        if !str_eq(x.as_str(), y.as_str()) {
                            assert(!value_matches(actual@, want@[i as int].0, want@[i as int].1));
                            return false;
                        }
                    },
                }
                i = i + 1;
            }
            true
        },
    }
}

/// Whether the reported entities satisfy an entity check. The position and
/// rotation of each entity are judged by the caller (they are floating-point
/// values): `geometry_ok[i]` says whether entity `i` lies within the
/// position tolerance of the expected position and within the rotation
/// tolerance of the expected rotation, where the check gives them.
pub fn entity_matches(actual: &Vec<EntityState>, expected: &EntityCheck, geometry_ok: &Vec<bool>) -> (r: bool)
    requires
        geometry_ok.len() == actual.len(),
    ensures
        r == entities_match(state_views(actual@), expected@, geometry_ok@),
{
    let ghost states = state_views(actual@);
    if !expected.exists {
        return actual.len() == 0;
    }
    if let Some(n) = expected.count {
        if actual.len() != n {
            return false;
        }
    }
    if actual.len() == 0 {
        return false;
    }
    let mut i: usize = 0;
    while i < actual.len()
        invariant
            i <= actual.len(),
            geometry_ok.len() == actual.len(),
            states == state_views(actual@),
            expected.exists,
            forall|k: int| 0 <= k < i ==> entity_state_matches(#[trigger] states[k], expected@, geometry_ok@[k]),
        decreases actual.len() - i,
    {
        let s = &actual[i];
        assert(states[i as int] == s@);
        match &expected.entity_type {
            Some(t) => match &s.entity_type {
                Some(a) => {
                    if !str_eq(a.as_str(), t.as_str()) {
                        return false;
                    }
                },
                None => {
                    return false;
                },
            },
            None => {},
        }
        if !geometry_ok[i] {
            return false;
        }
        if !nbt_values_match(&s.nbt, expected) {
            return false;
        }
        i = i + 1;
    }
    true
}

/// What a server answered to a request.
#[derive(Debug, Clone)]
pub enum Reply {
    /// The call succeeded and reports nothing.
    Done,
    /// The call failed with this error text.
    Failed(String),
    /// The world's current tick.
    Tick(u64),
    /// The block at the requested position.
    Block(Block),
    /// The item in the requested slot (`None`: the slot is empty).
    Slot(Option<Item>),
    /// The entities found, with the caller's verdict on the position and
    /// rotation of each (see `entity_matches`).
    Entities { states: Vec<EntityState>, geometry_ok: Vec<bool> },
}

/// How the runner judges a reply.
#[derive(Debug, Clone)]
pub enum Verdict {
    /// The step succeeded; the run goes on.
    Continue,
    /// The step failed; the run ends with this reason.
    Error(String),
    /// An assertion failed; the run ends with this failure recorded.
    Failure(AssertFailure),
}

/// The error text for a reply that does not fit the request.
pub open spec fn unexpected_reply_text() -> Seq<char> {
    "unexpected reply from the server"@
}

/// The error, if any, for a world that reports tick `v` at a tick check.
pub open spec fn tick_error(e: ExpectView, tick: u32, v: u64) -> Option<Seq<char>> {
    match e {
        ExpectView::StartTick => if v == 0 {
            None
        } else {
            Some("new test world must start at tick 0, got "@ + nat_decimal(v as nat))
        },
        ExpectView::TickBefore => if v == tick {
            None
        } else {
            Some("world tick mismatch before timeline tick "@ + nat_decimal(tick as nat) + ": got "@ + nat_decimal(v as nat))
        },
        ExpectView::TickAfter => if v == tick + 1 {
            None
        } else {
            Some(
                "world must advance exactly one tick: expected "@ + nat_decimal((tick + 1) as nat) + ", got "@ + nat_decimal(
                    v as nat,
                ),
            )
        },
        _ => Some(unexpected_reply_text()),
    }
}

/// The item a slot shows: its item, or the empty item.
pub open spec fn item_or_empty(i: Option<ItemView>) -> ItemView {
    match i {
        Some(x) => x,
        None => empty_item_view(),
    }
}

pub open spec fn is_error(v: Verdict, m: Seq<char>) -> bool {
    v matches Verdict::Error(x) && x@ == m
}

/// The verdict on `reply` to `step`: a failed call ends the run with its
/// error; a tick check fails when the world is not at the expected tick; a
/// block, slot or entity check records a failure when what was found does
/// not match; anything else goes on.
pub open spec fn judged(step: Step, reply: Reply, v: Verdict) -> bool {
    match reply {
        Reply::Failed(e) => is_error(v, e@),
        _ => match step.expect@ {
            ExpectView::Nothing => if reply is Done {
                v is Continue
            } else {
                is_error(v, unexpected_reply_text())
            },
            ExpectView::Block { expected, pos } => match reply {
                Reply::Block(b) => if exists|k: int| 0 <= k < expected.len() && block_matches_spec(b@, #[trigger] expected[k]) {
                    v is Continue
                } else {
                    (v matches Verdict::Failure(AssertFailure::Block(f)) && f.tick == step.tick && block_views(f.expected@)
                        == expected && f.actual@ == b@ && f.position == pos)
                },
                _ => is_error(v, unexpected_reply_text()),
            },
            ExpectView::Inventory { slot, expected } => match reply {
                Reply::Slot(a) => if item_matches_spec(item_or_empty(opt_item(a)), item_or_empty(expected)) {
                    v is Continue
                } else {
                    (v matches Verdict::Failure(AssertFailure::Inventory(f)) && f.tick == step.tick && f.slot == slot
                        && opt_item(f.expected) == Some(item_or_empty(expected)) && opt_item(f.actual) == Some(
                        item_or_empty(opt_item(a)),
                    ))
                },
                _ => is_error(v, unexpected_reply_text()),
            },
            ExpectView::Entity { check } => match reply {
                Reply::Entities { states, geometry_ok } => if geometry_ok.len() != states.len() {
                    is_error(v, unexpected_reply_text())
                } else if entities_match(state_views(states@), check, geometry_ok@) {
                    v is Continue
                } else {
                    (v matches Verdict::Failure(AssertFailure::Entity(f)) && f.tick == step.tick && f.expected@ == check
                        && state_views(f.actual@) == state_views(states@))
                },
                _ => is_error(v, unexpected_reply_text()),
            },
            _ => match reply {
                Reply::Tick(t) => match tick_error(step.expect@, step.tick, t) {
                    None => v is Continue,
                    Some(m) => is_error(v, m),
                },
                _ => is_error(v, unexpected_reply_text()),
            },
        },
    }
}

fn error_of(lit: &str) -> (r: Verdict)
    ensures
        is_error(r, lit@),
{
    let mut m = String::new();
    push_str(&mut m, lit);
    assert(m@ =~= lit@);
    Verdict::Error(m)
}

fn unexpected() -> (r: Verdict)
    ensures
        is_error(r, unexpected_reply_text()),
{
    error_of("unexpected reply from the server")
}

/// Judges the reply to a step.
pub fn judge(step: &Step, reply: Reply) -> (r: Verdict)
    ensures
        judged(*step, reply, r),
{
    let ghost reply0 = reply;
    match reply {
        Reply::Failed(e) => Verdict::Error(e),
        Reply::Done => match &step.expect {
            Expect::Nothing => Verdict::Continue,
            _ => unexpected(),
        },
        Reply::Tick(t) => {
            let tick = step.tick;
            match &step.expect {
                Expect::StartTick => {
                    if t == 0 {
                        Verdict::Continue
                    } else {
                        let mut m = String::new();
                        push_str(&mut m, "new test world must start at tick 0, got ");
                        push_u64(&mut m, t);
                        Verdict::Error(m)
                    }
                },
                Expect::TickBefore => {
                    if t == tick as u64 {
                        Verdict::Continue
                    } else {
                        let mut m = String::new();
                        push_str(&mut m, "world tick mismatch before timeline tick ");
                        push_u64(&mut m, tick as u64);
                        push_str(&mut m, ": got ");
                        push_u64(&mut m, t);
                        Verdict::Error(m)
                    }
                },
                Expect::TickAfter => {
                    if t == tick as u64 + 1 {
                        Verdict::Continue
                    } else {
                        let mut m = String::new();
                        push_str(&mut m, "world must advance exactly one tick: expected ");
                        push_u64(&mut m, tick as u64 + 1);
                        push_str(&mut m, ", got ");
                        push_u64(&mut m, t);
                        Verdict::Error(m)
                    }
                },
                _ => unexpected(),
            }
        },
        Reply::Block(b) => match &step.expect {
            Expect::Block { expected, pos } => {
                let ghost ev = block_views(expected@);
                let mut found = false;
                let mut i: usize = 0;
                while i < expected.len() && !found
                    invariant
                        i <= expected.len(),
                        ev == block_views(expected@),
                        found ==> exists|k: int| 0 <= k < ev.len() && block_matches_spec(b@, #[trigger] ev[k]),
                        !found ==> forall|k: int| 0 <= k < i ==> !block_matches_spec(b@, #[trigger] ev[k]),
                    decreases expected.len() - i,
                {
                    if block_matches(&b, &expected[i]) {
                        assert(block_matches_spec(b@, ev[i as int]));
                        found = true;
                    }
                    i = i + 1;
                }
                if found {
                    assert(reply0 == Reply::Block(b));
                    assert(step.expect@ == (ExpectView::Block { expected: ev, pos: *pos }));
                    assert(judged(*step, reply0, Verdict::Continue));
                    return Verdict::Continue;
                }
                let copies = crate::results::copy_blocks(expected);
                assert(block_views(copies@) =~= ev);
                Verdict::Failure(AssertFailure::new_block(step.tick, copies, b, *pos))
            },
            _ => unexpected(),
        },
        Reply::Slot(a) => match &step.expect {
            Expect::Inventory { slot, expected } => {
                let actual = match a {
                    Some(x) => x,
                    None => {
                        let e = Item::empty();
                        assert(e@.data =~= empty_item_view().data);
                        e
                    },
                };
                assert(actual@ == item_or_empty(opt_item(a)));
                let want = match expected {
                    Some(x) => x.duplicate(),
                    None => {
                        let e = Item::empty();
                        assert(e@.data =~= empty_item_view().data);
                        e
                    },
                };
                assert(want@ == item_or_empty(opt_item(*expected)));
                if item_matches(&actual, &want) {
                    Verdict::Continue
                } else {
                    Verdict::Failure(AssertFailure::new_item(step.tick, &want, &actual, *slot))
                }
            },
            _ => unexpected(),
        },
        Reply::Entities { states, geometry_ok } => match &step.expect {
            Expect::Entity { check } => {
                if geometry_ok.len() != states.len() {
                    unexpected()
                } else if entity_matches(&states, check, &geometry_ok) {
                    Verdict::Continue
                } else {
                    Verdict::Failure(AssertEntityFail::new(step.tick, check, &states).into_failure())
                }
            },
            _ => unexpected(),
        },
    }
}

/// The first step at or after `p` that makes a call (or the end).
pub open spec fn settled(steps: Seq<Step>, p: int) -> int
    decreases steps.len() - p,
{
    if p >= steps.len() {
        steps.len() as int
    } else if steps[p].request is None {
        settled(steps, p + 1)
    } else {
        p
    }
}

/// The passes recorded for steps `from..to`: one per step that completes an
/// assertion.
pub open spec fn passes(steps: Seq<Step>, from: int, to: int) -> Seq<AssertionResult>
    decreases to - from,
{
    if to <= from {
        Seq::empty()
    } else {
        passes(steps, from, to - 1) + if steps[to - 1].closes_assert {
            seq![AssertionResult::Success(steps[to - 1].tick)]
        } else {
            Seq::empty()
        }
    }
}

/// The result fields that a step does not touch.
pub open spec fn same_result_identity(a: TestResult, b: TestResult) -> bool {
    &&& same_identity(a, b)
    &&& a.execution_time_ms == b.execution_time_ms
    &&& a.test_offset == b.test_offset
}

/// A test run: the steps of the test, how far the run got, and its result
/// so far. A caller asks for the current step, performs its request on the
/// world or player, and hands the reply to `accept`, until the run is
/// finished.
pub struct TestRun {
    steps: Vec<Step>,
    pos: usize,
    max_tick: u32,
    result: TestResult,
    finished: bool,
}

impl TestRun {
    pub closed spec fn steps(&self) -> Seq<Step> {
        self.steps@
    }

    pub closed spec fn pos(&self) -> int {
        self.pos as int
    }

    pub closed spec fn last_tick(&self) -> u32 {
        self.max_tick
    }

    pub closed spec fn result_of(&self) -> TestResult {
        self.result
    }

    pub closed spec fn is_finished(&self) -> bool {
        self.finished
    }

    /// The run's invariant: an unfinished run stands at a step that makes a
    /// call.
    pub closed spec fn wf(&self) -> bool {
        &&& self.pos <= self.steps@.len()
        &&& !self.finished ==> self.pos < self.steps@.len() && self.steps@[self.pos as int].request is Some
    }

    /// A run of `spec` that has not started.
    pub fn new(spec: &TestSpec) -> (r: Self)
        ensures
            r.wf(),
            is_last_tick(spec.timeline@, r.last_tick()),
            step_views(r.steps()) == program(*spec, r.last_tick()),
            r.pos() == 0,
            !r.is_finished(),
            r.result_of().test_name@ == spec.name@,
            texts(r.result_of().minecraft_ids@) == texts(spec.minecraft_ids@),
            r.result_of().success,
            !r.result_of().skipped,
            r.result_of().skip_reason is None,
            r.result_of().assertions@.len() == 0,
            r.result_of().total_ticks == 0,
            r.result_of().execution_time_ms == 0,
            r.result_of().failure_reason is None,
            r.result_of().test_offset is None,
    {
        let (steps, max_tick) = build_program(spec);
        let mut result = TestResult::new(spec.name.as_str());
        result.minecraft_ids = copy_strings(&spec.minecraft_ids);
        assert(program(*spec, max_tick)[0].request is Some);
        assert(steps@.len() == step_views(steps@).len());
        assert(step_views(steps@)[0] == steps@[0]@);
        assert(steps@[0].request is Some);
        TestRun { steps, pos: 0, max_tick, result, finished: false }
    }

    /// The step whose request is to be performed next; `None` once the run
    /// is finished.
    pub fn current(&self) -> (r: Option<&Step>)
        requires
            self.wf(),
        ensures
            r is None <==> self.is_finished(),
            r matches Some(s) ==> *s == self.steps()[self.pos()] && s.request is Some,
    {
        if self.finished {
            None
        } else {
            Some(&self.steps[self.pos])
        }
    }

    /// Whether the run is over.
    pub fn finished(&self) -> (r: bool)
        ensures
            r == self.is_finished(),
    {
        self.finished
    }

    /// The result so far.
    pub fn result(&self) -> (r: &TestResult)
        ensures
            *r == self.result_of(),
    {
        &self.result
    }

    /// The result, ending the run.
    pub fn into_result(self) -> (r: TestResult)
        ensures
            r == self.result_of(),
    {
        self.result
    }

    /// Takes the reply to the current step. On success the run moves to the
    /// next step that makes a call, recording a pass for each assertion
    /// completed on the way, and on reaching the end reports the last tick
    /// as the ticks executed. On an error the run ends failed with that
    /// reason at the step's tick; on a failed assertion it ends with the
    /// failure recorded at the step's tick.
    pub fn accept(&mut self, reply: Reply)
        requires
            old(self).wf(),
            !old(self).is_finished(),
        ensures
            final(self).wf(),
            final(self).steps() == old(self).steps(),
            final(self).last_tick() == old(self).last_tick(),
            same_result_identity(final(self).result_of(), old(self).result_of()),
            exists|v: Verdict|
                judged(old(self).steps()[old(self).pos()], reply, v) && #[trigger] Self::next_state(*old(self), v, *final(self)),
    {
        assert(self.pos < self.steps.len());
        let step = &self.steps[self.pos];
        let tick = step.tick;
        let v = judge(step, reply);
        let ghost v0 = v;
        let ghost old_run = *self;
        match v {
            Verdict::Continue => {
                assert(passes(self.steps@, old_run.pos as int, old_run.pos as int) =~= Seq::<AssertionResult>::empty());
                if self.steps[self.pos].closes_assert {
                    self.result.add_assertion(AssertionResult::Success(tick));
                }
                self.pos = self.pos + 1;
                assert(self.result.assertions@ =~= old_run.result.assertions@ + passes(self.steps@, old_run.pos as int, self.pos as int));
                while self.pos < self.steps.len() && self.steps[self.pos].request.is_none()
                    invariant
                        old_run.pos < self.pos <= self.steps.len(),
                        self.steps@ == old_run.steps@,
                        settled(self.steps@, old_run.pos + 1) == settled(self.steps@, self.pos as int),
                        self.result.assertions@ == old_run.result.assertions@ + passes(self.steps@, old_run.pos as int, self.pos as int),
                        self.result.success == old_run.result.success,
                        same_result_identity(self.result, old_run.result),
                        self.result.total_ticks == old_run.result.total_ticks,
                        opt_text(self.result.failure_reason) == opt_text(old_run.result.failure_reason),
                        self.max_tick == old_run.max_tick,
                        !self.finished,
                    decreases self.steps.len() - self.pos,
                {
                    let t = self.steps[self.pos].tick;
                    if self.steps[self.pos].closes_assert {
                        self.result.add_assertion(AssertionResult::Success(t));
                    }
                    self.pos = self.pos + 1;
                    assert(self.result.assertions@ =~= old_run.result.assertions@ + passes(self.steps@, old_run.pos as int, self.pos as int));
                }
                if self.pos == self.steps.len() {
                    self.result.total_ticks = self.max_tick;
                    self.finished = true;
                }
                assert(Self::next_state(old_run, v0, *self));
            },
            Verdict::Error(m) => {
                self.result.success = false;
                self.result.failure_reason = Some(m);
                self.result.total_ticks = tick;
                self.finished = true;
                assert(Self::next_state(old_run, v0, *self));
            },
            Verdict::Failure(f) => {
                self.result.add_assertion(AssertionResult::Failure(f));
                self.result.total_ticks = tick;
                self.finished = true;
                assert(Self::next_state(old_run, v0, *self));
            },
        }
    }

    /// How the run moves on a verdict (see `accept`).
    pub open spec fn next_state(old: TestRun, v: Verdict, new: TestRun) -> bool {
        let step = old.steps()[old.pos()];
        match v {
            Verdict::Continue => {
                &&& new.pos() == settled(old.steps(), old.pos() + 1)
                &&& new.result_of().assertions@ == old.result_of().assertions@ + passes(old.steps(), old.pos(), new.pos())
                &&& new.result_of().success == old.result_of().success
                &&& opt_text(new.result_of().failure_reason) == opt_text(old.result_of().failure_reason)
                &&& new.is_finished() == (new.pos() == old.steps().len())
                &&& new.result_of().total_ticks == if new.is_finished() {
                    old.last_tick()
                } else {
                    old.result_of().total_ticks
                }
            },
            Verdict::Error(m) => {
                &&& new.is_finished()
                &&& new.pos() == old.pos()
                &&& !new.result_of().success
                &&& opt_text(new.result_of().failure_reason) == Some(m@)
                &&& new.result_of().total_ticks == step.tick
                &&& new.result_of().assertions@ == old.result_of().assertions@
            },
            Verdict::Failure(f) => {
                &&& new.is_finished()
                &&& new.pos() == old.pos()
                &&& !new.result_of().success
                &&& opt_text(new.result_of().failure_reason) == opt_text(old.result_of().failure_reason)
                &&& new.result_of().total_ticks == step.tick
                &&& new.result_of().assertions@ == old.result_of().assertions@.push(AssertionResult::Failure(f))
            },
        }
    }
}

/// A world that does not advance exactly one tick on `do_tick` is rejected
/// with an error naming the expected and the reported tick.
pub proof fn law_stalled_world_is_rejected(step: Step, t: u64, v: Verdict)
    requires
        step.expect is TickAfter,
        t != step.tick + 1,
        judged(step, Reply::Tick(t), v),
    ensures
        is_error(
            v,
            "world must advance exactly one tick: expected "@ + nat_decimal((step.tick + 1) as nat) + ", got "@
                + nat_decimal(t as nat),
        ),
{
}

/// An error or a failed assertion ends the run, and the run is red.
pub proof fn law_failure_ends_run_red(old: TestRun, v: Verdict, new: TestRun)
    requires
        !(v is Continue),
        TestRun::next_state(old, v, new),
    ensures
        new.is_finished(),
        !new.result_of().success,
{
}

/// Whether what the server reported satisfies one check of an assertion.
pub open spec fn check_holds(c: AssertType, reply: Reply) -> bool {
    match c {
        AssertType::Block(b) => reply matches Reply::Block(x) && exists|k: int|
            0 <= k < accepted_blocks(b.is).len() && block_matches_spec(x@, #[trigger] accepted_blocks(b.is)[k]),
        AssertType::Inventory(i) => reply matches Reply::Slot(a) && item_matches_spec(
            item_or_empty(opt_item(a)),
            item_or_empty(opt_item_view(i.is)),
        ),
        AssertType::Entity(e) => reply matches Reply::Entities { states, geometry_ok } && geometry_ok.len()
            == states.len() && entities_match(state_views(states@), e@, geometry_ok@),
    }
}

/// Whether a verdict records a failed assertion at `tick`.
pub open spec fn fails_at(v: Verdict, tick: u32) -> bool {
    v matches Verdict::Failure(f) && failure_tick(f) == tick
}

/// Whether a reply is of the kind a check asks for (and, for entities, has a
/// geometry verdict for each entity).
pub open spec fn reply_fits(c: AssertType, reply: Reply) -> bool {
    match c {
        AssertType::Block(_) => reply is Block,
        AssertType::Inventory(_) => reply is Slot,
        AssertType::Entity(_) => reply matches Reply::Entities { states, geometry_ok } && geometry_ok.len()
            == states.len(),
    }
}

/// An assertion passes exactly when each of its checks holds: the run goes
/// on after a check's reply exactly when the check holds, and a reply of the
/// right kind on which it does not hold records a failure at the
/// assertion's tick. The first check that does not hold is the one that
/// stops the assertion: every check before it goes on, and it does not (a
/// verdict that does not go on ends the run, so no later check is made). (`steps` are the steps of an assert action with checks
/// `checks` at `tick`, `replies` the server's replies, `vs` the verdicts.)
pub proof fn law_assert_passes_iff_checks_hold(
    checks: Seq<AssertType>,
    tick: u32,
    steps: Seq<Step>,
    replies: Seq<Reply>,
    vs: Seq<Verdict>,
)
    requires
        steps.len() == checks.len(),
        replies.len() == checks.len(),
        vs.len() == checks.len(),
        forall|k: int|
            0 <= k < checks.len() ==> (#[trigger] steps[k])@ == check_step(checks[k], tick, k == checks.len() - 1)
                && judged(steps[k], replies[k], vs[k]),
    ensures
        (forall|k: int| 0 <= k < checks.len() ==> (#[trigger] vs[k]) is Continue) <==> (forall|k: int|
            0 <= k < checks.len() ==> check_holds(#[trigger] checks[k], replies[k])),
        forall|k: int|
            0 <= k < checks.len() && reply_fits(checks[k], replies[k]) && !check_holds(#[trigger] checks[k], replies[k])
                ==> fails_at(vs[k], tick),
        forall|k: int|
            0 <= k < checks.len() && !check_holds(#[trigger] checks[k], replies[k]) && (forall|j: int|
                0 <= j < k ==> check_holds(#[trigger] checks[j], replies[j])) ==> (forall|j: int|
                0 <= j < k ==> (#[trigger] vs[j]) is Continue) && !(vs[k] is Continue) && (reply_fits(checks[k], replies[k])
                ==> fails_at(vs[k], tick)),
{
    assert forall|k: int| 0 <= k < checks.len() implies ((#[trigger] vs[k]) is Continue <==> check_holds(checks[k], replies[k]))
        && (reply_fits(checks[k], replies[k]) && !check_holds(checks[k], replies[k]) ==> fails_at(vs[k], tick)) by {
        let s = steps[k];
        assert(s@ == check_step(checks[k], tick, k == checks.len() - 1));
        assert(judged(s, replies[k], vs[k]));
    }
    assert forall|k: int|
        0 <= k < checks.len() && !check_holds(#[trigger] checks[k], replies[k]) && (forall|j: int|
            0 <= j < k ==> check_holds(#[trigger] checks[j], replies[j])) implies (forall|j: int|
        0 <= j < k ==> (#[trigger] vs[j]) is Continue) && !(vs[k] is Continue) && (reply_fits(checks[k], replies[k])
        ==> fails_at(vs[k], tick)) by {
        assert forall|j: int| 0 <= j < k implies (#[trigger] vs[j]) is Continue by {
            assert(check_holds(checks[j], replies[j]));
        }
    }
    if forall|k: int| 0 <= k < checks.len() ==> (#[trigger] vs[k]) is Continue {
        assert forall|k: int| 0 <= k < checks.len() implies check_holds(#[trigger] checks[k], replies[k]) by {
            assert(vs[k] is Continue);
        }
    }
    if forall|k: int| 0 <= k < checks.len() ==> check_holds(#[trigger] checks[k], replies[k]) {
        assert forall|k: int| 0 <= k < checks.len() implies (#[trigger] vs[k]) is Continue by {
            assert(check_holds(checks[k], replies[k]));
        }
    }
}

/// An item matches only an item of the same count: an inventory check
/// fails whenever the slot holds a different number of items than expected.
pub proof fn law_item_match_needs_same_count(actual: ItemView, expected: ItemView)
    ensures
        actual.count != expected.count ==> !item_matches_spec(actual, expected),
{
}

/// A block matches itself (its properties having distinct keys).
pub proof fn law_block_matches_itself(b: BlockView)
    requires
        keys_unique(b.properties),
    ensures
        block_matches_spec(b, b),
{
    let p = b.properties;
    assert forall|k: int| 0 <= k < p.len() implies lookup(p, #[trigger] p[k].0) == Some(p[k].1) by {
        lemma_first_index(p, p[k].0);
        let j = first_index(p, p[k].0);
        assert(j >= 0);
        assert(j == k);
    }
}

proof fn lemma_passes_concat(steps: Seq<Step>, a: int, b: int, c: int)
    requires
        a <= b <= c,
    ensures
        passes(steps, a, c) == passes(steps, a, b) + passes(steps, b, c),
    decreases c - b,
{
    if c == b {
        assert(passes(steps, a, b) + passes(steps, b, c) =~= passes(steps, a, b));
    } else {
        lemma_passes_concat(steps, a, b, c - 1);
        assert(passes(steps, a, c) =~= passes(steps, a, b) + passes(steps, b, c));
    }
}

/// A run in which every reply passes stays green: it records one pass for
/// each assertion it completes, and when it finishes it reports the last
/// timeline tick as the ticks executed. (`runs` are the states of the run
/// after each accepted reply, `vs` the verdicts on the replies.)
pub proof fn law_green_run(runs: Seq<TestRun>, vs: Seq<Verdict>)
    requires
        runs.len() == vs.len() + 1,
        forall|i: int|
            0 <= i < vs.len() ==> (#[trigger] vs[i]) is Continue && TestRun::next_state(runs[i], vs[i], runs[i + 1])
                && runs[i + 1].steps() == runs[i].steps() && runs[i + 1].last_tick() == runs[i].last_tick()
                && runs[i].pos() < runs[i].steps().len(),
    ensures
        runs.last().result_of().success == runs[0].result_of().success,
        runs.last().result_of().assertions@ == runs[0].result_of().assertions@ + passes(
            runs[0].steps(),
            runs[0].pos(),
            runs.last().pos(),
        ),
        runs.last().steps() == runs[0].steps(),
        opt_text(runs.last().result_of().failure_reason) == opt_text(runs[0].result_of().failure_reason),
        vs.len() > 0 && runs.last().is_finished() ==> runs.last().result_of().total_ticks == runs[0].last_tick(),
        runs.last().last_tick() == runs[0].last_tick(),
        vs.len() > 0 && runs.last().is_finished() ==> runs.last().pos() == runs[0].steps().len(),
    decreases vs.len(),
{
    if vs.len() > 0 {
        let n = vs.len() - 1;
        assert forall|i: int| 0 <= i < vs.drop_last().len() implies (#[trigger] vs.drop_last()[i]) is Continue
            && TestRun::next_state(runs.drop_last()[i], vs.drop_last()[i], runs.drop_last()[i + 1])
            && runs.drop_last()[i + 1].steps() == runs.drop_last()[i].steps() && runs.drop_last()[i + 1].last_tick()
            == runs.drop_last()[i].last_tick() && runs.drop_last()[i].pos() < runs.drop_last()[i].steps().len() by {
            assert(vs.drop_last()[i] == vs[i]);
            assert(runs.drop_last()[i] == runs[i]);
            assert(runs.drop_last()[i + 1] == runs[i + 1]);
        }
        law_green_run(runs.drop_last(), vs.drop_last());
        assert(vs[n] is Continue);
        assert(runs.drop_last().last() == runs[n]);
        let prev = runs[n];
        let next = runs[n + 1];
        assert(TestRun::next_state(prev, vs[n], next));
        lemma_settled_at_least(prev.steps(), prev.pos() + 1);
        if n > 0 {
            lemma_green_positions(runs, vs, n);
        }
        lemma_passes_concat(runs[0].steps(), runs[0].pos(), prev.pos(), next.pos());
        assert(runs.last() == next);
        assert(runs.last().result_of().assertions@ =~= runs[0].result_of().assertions@ + passes(
            runs[0].steps(),
            runs[0].pos(),
            runs.last().pos(),
        ));
        assert(prev.last_tick() == runs[0].last_tick()) by {
            lemma_green_last_tick(runs, vs, n);
        }
        assert(prev.steps() == runs[0].steps());
    }
}

proof fn lemma_passes_all_success(steps: Seq<Step>, a: int, b: int)
    ensures
        forall|k: int| 0 <= k < passes(steps, a, b).len() ==> (#[trigger] passes(steps, a, b)[k]) is Success,
    decreases b - a,
{
    if b > a {
        lemma_passes_all_success(steps, a, b - 1);
        let p = passes(steps, a, b - 1);
        assert forall|k: int| 0 <= k < passes(steps, a, b).len() implies (#[trigger] passes(steps, a, b)[k]) is Success by {
            if k < p.len() {
                assert(passes(steps, a, b)[k] == p[k]);
            }
        }
    }
}

/// A fresh run in which every reply passes ends green: it succeeds with no
/// failure reason, it reports the last timeline tick as the ticks executed,
/// and its assertions are one pass for each assertion of the program.
pub proof fn law_passing_run_succeeds(runs: Seq<TestRun>, vs: Seq<Verdict>)
    requires
        runs.len() == vs.len() + 1,
        vs.len() > 0,
        runs[0].pos() == 0,
        runs[0].result_of().success,
        runs[0].result_of().failure_reason is None,
        runs[0].result_of().assertions@.len() == 0,
        runs.last().is_finished(),
        forall|i: int|
            0 <= i < vs.len() ==> (#[trigger] vs[i]) is Continue && TestRun::next_state(runs[i], vs[i], runs[i + 1])
                && runs[i + 1].steps() == runs[i].steps() && runs[i + 1].last_tick() == runs[i].last_tick()
                && runs[i].pos() < runs[i].steps().len(),
    ensures
        runs.last().result_of().success,
        runs.last().result_of().failure_reason is None,
        runs.last().result_of().total_ticks == runs[0].last_tick(),
        runs.last().result_of().assertions@ == passes(runs[0].steps(), 0, runs[0].steps().len() as int),
        forall|k: int|
            0 <= k < runs.last().result_of().assertions@.len() ==> (#[trigger] runs.last().result_of().assertions@[k]) is Success,
{
    law_green_run(runs, vs);
    assert(runs[0].result_of().assertions@ + passes(runs[0].steps(), 0, runs[0].steps().len() as int) =~= passes(
        runs[0].steps(),
        0,
        runs[0].steps().len() as int,
    ));
    lemma_passes_all_success(runs[0].steps(), 0, runs[0].steps().len() as int);
}

/// A run whose replies pass until one assertion fails ends there, red: it is
/// finished, reports the failing step's tick as the ticks executed, and
/// records a pass for each assertion completed before, then the failure,
/// last, at that tick. (`runs` are the states of the run, `vs` the verdicts,
/// `reply` the reply to the failing step.)
pub proof fn law_first_failure_ends_run(runs: Seq<TestRun>, vs: Seq<Verdict>, reply: Reply, f: AssertFailure)
    requires
        runs.len() == vs.len() + 1,
        vs.len() > 0,
        vs.last() == Verdict::Failure(f),
        forall|i: int| 0 <= i < vs.len() - 1 ==> (#[trigger] vs[i]) is Continue,
        forall|i: int|
            0 <= i < vs.len() ==> TestRun::next_state(runs[i], #[trigger] vs[i], runs[i + 1]) && runs[i + 1].steps()
                == runs[i].steps() && runs[i + 1].last_tick() == runs[i].last_tick() && runs[i].pos()
                < runs[i].steps().len(),
        judged(runs[vs.len() - 1].steps()[runs[vs.len() - 1].pos()], reply, vs.last()),
    ensures
        runs.last().is_finished(),
        !runs.last().result_of().success,
        runs.last().result_of().total_ticks == runs[vs.len() - 1].steps()[runs[vs.len() - 1].pos()].tick,
        failure_tick(f) == runs.last().result_of().total_ticks,
        runs.last().result_of().assertions@ == runs[0].result_of().assertions@ + passes(
            runs[0].steps(),
            runs[0].pos(),
            runs[vs.len() - 1].pos(),
        ).push(AssertionResult::Failure(f)),
        runs[0].result_of().assertions@.len() == 0 ==> forall|k: int|
            0 <= k < runs.last().result_of().assertions@.len() - 1 ==> (
            #[trigger] runs.last().result_of().assertions@[k]) is Success,
{
    let n = vs.len() - 1;
    let pre = runs.take(n + 1);
    let pvs = vs.take(n);
    assert forall|i: int| 0 <= i < pvs.len() implies (#[trigger] pvs[i]) is Continue && TestRun::next_state(
        pre[i],
        pvs[i],
        pre[i + 1],
    ) && pre[i + 1].steps() == pre[i].steps() && pre[i + 1].last_tick() == pre[i].last_tick() && pre[i].pos()
        < pre[i].steps().len() by {
        assert(pvs[i] == vs[i]);
        assert(pre[i] == runs[i]);
        assert(pre[i + 1] == runs[i + 1]);
    }
    law_green_run(pre, pvs);
    assert(pre.last() == runs[n]);
    assert(pre[0] == runs[0]);
    assert(TestRun::next_state(runs[n], vs[n], runs[n + 1]));
    assert(runs.last() == runs[n + 1]);
    let step = runs[n].steps()[runs[n].pos()];
    assert(judged(step, reply, vs[n]));
    if runs[0].result_of().assertions@.len() == 0 {
        lemma_passes_all_success(runs[0].steps(), runs[0].pos(), runs[n].pos());
        let p = passes(runs[0].steps(), runs[0].pos(), runs[n].pos());
        assert(runs[0].result_of().assertions@ + p =~= p);
        assert forall|k: int| 0 <= k < runs.last().result_of().assertions@.len() - 1 implies (
            #[trigger] runs.last().result_of().assertions@[k]) is Success by {
            assert(runs.last().result_of().assertions@[k] == p[k]);
        }
    }
}

proof fn lemma_settled_at_least(steps: Seq<Step>, p: int)
    ensures
        p <= steps.len() ==> p <= settled(steps, p) <= steps.len(),
    decreases steps.len() - p,
{
    if p < steps.len() {
        lemma_settled_at_least(steps, p + 1);
    }
}

proof fn lemma_green_positions(runs: Seq<TestRun>, vs: Seq<Verdict>, k: int)
    requires
        runs.len() == vs.len() + 1,
        0 <= k <= vs.len(),
        forall|i: int|
            0 <= i < vs.len() ==> (#[trigger] vs[i]) is Continue && TestRun::next_state(runs[i], vs[i], runs[i + 1])
                && runs[i + 1].steps() == runs[i].steps() && runs[i + 1].last_tick() == runs[i].last_tick()
                && runs[i].pos() < runs[i].steps().len(),
    ensures
        runs[0].pos() <= runs[k].pos(),
        runs[k].steps() == runs[0].steps(),
    decreases k,
{
    if k > 0 {
        lemma_green_positions(runs, vs, k - 1);
        assert(vs[k - 1] is Continue);
        lemma_settled_at_least(runs[k - 1].steps(), runs[k - 1].pos() + 1);
    }
}

proof fn lemma_green_last_tick(runs: Seq<TestRun>, vs: Seq<Verdict>, k: int)
    requires
        runs.len() == vs.len() + 1,
        0 <= k <= vs.len(),
        forall|i: int|
            0 <= i < vs.len() ==> (#[trigger] vs[i]) is Continue && TestRun::next_state(runs[i], vs[i], runs[i + 1])
                && runs[i + 1].steps() == runs[i].steps() && runs[i + 1].last_tick() == runs[i].last_tick()
                && runs[i].pos() < runs[i].steps().len(),
    ensures
        runs[k].last_tick() == runs[0].last_tick(),
    decreases k,
{
    if k > 0 {
        lemma_green_last_tick(runs, vs, k - 1);
        assert(vs[k - 1] is Continue);
    }
}

/// The steps of `steps[from..to]` that make a call, in order.
pub open spec fn calls(steps: Seq<Step>, from: int, to: int) -> Seq<Step>
    decreases to - from,
{
    if to <= from {
        Seq::empty()
    } else {
        calls(steps, from, to - 1) + if steps[to - 1].request is Some {
            seq![steps[to - 1]]
        } else {
            Seq::empty()
        }
    }
}

/// The requests a run has carried out, as steps: the current step of each of
/// its first `n` states, in order.
pub open spec fn performed(runs: Seq<TestRun>, n: int) -> Seq<Step> {
    Seq::new(n as nat, |i: int| runs[i].steps()[runs[i].pos()])
}

/// How many of `steps` advance the world.
pub open spec fn advances(steps: Seq<Step>) -> nat {
    count_advances(step_views(steps))
}

/// The states `runs` of one run, linked by the verdicts `vs` as `accept`
/// links them.
pub open spec fn run_chain(runs: Seq<TestRun>, vs: Seq<Verdict>) -> bool {
    &&& runs.len() == vs.len() + 1
    &&& forall|i: int|
        0 <= i < vs.len() ==> TestRun::next_state(runs[i], #[trigger] vs[i], runs[i + 1]) && runs[i + 1].steps()
            == runs[i].steps() && runs[i + 1].last_tick() == runs[i].last_tick() && runs[i].wf()
            && !runs[i].is_finished() && same_result_identity(runs[i + 1].result_of(), runs[i].result_of())
}

/// A run of `spec` that has not started, as `TestRun::new` makes it.
pub open spec fn fresh_run(spec: TestSpec, r: TestRun) -> bool {
    &&& r.wf()
    &&& is_last_tick(spec.timeline@, r.last_tick())
    &&& step_views(r.steps()) == program(spec, r.last_tick())
    &&& r.pos() == 0
    &&& !r.is_finished()
    &&& r.result_of().test_name@ == spec.name@
    &&& texts(r.result_of().minecraft_ids@) == texts(spec.minecraft_ids@)
    &&& r.result_of().success
    &&& r.result_of().failure_reason is None
    &&& r.result_of().assertions@.len() == 0
}

proof fn lemma_calls_settled(steps: Seq<Step>, p: int)
    requires
        0 <= p <= steps.len(),
    ensures
        calls(steps, 0, settled(steps, p)) == calls(steps, 0, p),
    decreases steps.len() - p,
{
    if p < steps.len() && steps[p].request is None {
        lemma_calls_settled(steps, p + 1);
        assert(calls(steps, 0, p + 1) =~= calls(steps, 0, p));
    }
}

proof fn lemma_calls_advances(steps: Seq<Step>, q: int)
    requires
        0 <= q <= steps.len(),
    ensures
        advances(calls(steps, 0, q)) == count_advances(step_views(steps).take(q)),
    decreases q,
{
    if q > 0 {
        lemma_calls_advances(steps, q - 1);
        let c = calls(steps, 0, q - 1);
        let last: Seq<Step> = if steps[q - 1].request is Some { seq![steps[q - 1]] } else { Seq::empty() };
        assert(step_views(c + last) =~= step_views(c) + step_views(last));
        lemma_count_append(step_views(c), step_views(last));
        let lv: Seq<crate::plan::StepView> = seq![steps[q - 1]@];
        assert(step_views(steps).take(q) =~= step_views(steps).take(q - 1) + lv);
        lemma_count_append(step_views(steps).take(q - 1), lv);
        assert(lv.drop_last() =~= Seq::<crate::plan::StepView>::empty());
        if steps[q - 1].request is Some {
            assert(step_views(last) =~= lv);
        } else {
            assert(step_views(last) =~= Seq::<crate::plan::StepView>::empty());
        }
    }
}

/// Along a chain whose first `k` verdicts go on, the requests performed are
/// exactly the calls of the steps before the current one.
proof fn lemma_performed_calls(runs: Seq<TestRun>, vs: Seq<Verdict>, k: int)
    requires
        run_chain(runs, vs),
        runs[0].pos() == 0,
        runs[0].wf(),
        0 <= k <= vs.len(),
        forall|i: int| 0 <= i < k ==> (#[trigger] vs[i]) is Continue,
    ensures
        performed(runs, k) == calls(runs[0].steps(), 0, runs[k].pos()),
        runs[k].steps() == runs[0].steps(),
        runs[k].pos() <= runs[0].steps().len(),
    decreases k,
{
    if k == 0 {
        assert(performed(runs, 0) =~= Seq::<Step>::empty());
        assert(runs[0].wf());
    } else {
        lemma_performed_calls(runs, vs, k - 1);
        let prev = runs[k - 1];
        let v = vs[k - 1];
        assert(v is Continue);
        assert(TestRun::next_state(prev, vs[k - 1], runs[k]));
        let steps = runs[0].steps();
        let p = prev.pos();
        assert(prev.wf() && !prev.is_finished());
        assert(p < steps.len() && steps[p].request is Some);
        assert(calls(steps, 0, p + 1) =~= calls(steps, 0, p).push(steps[p]));
        lemma_calls_settled(steps, p + 1);
        lemma_settled_at_least(steps, p + 1);
        assert(performed(runs, k) =~= performed(runs, k - 1).push(steps[p]));
    }
}

/// A whole run of `spec` in which every reply passes: it ends green, with
/// no failure reason, the test's name and Minecraft ids, a pass for every
/// assertion, the last timeline tick as the ticks executed, and it asked the
/// world to advance exactly that many times.
pub proof fn law_whole_run_green(spec: TestSpec, runs: Seq<TestRun>, vs: Seq<Verdict>)
    requires
        run_chain(runs, vs),
        vs.len() > 0,
        fresh_run(spec, runs[0]),
        runs.last().is_finished(),
        forall|i: int| 0 <= i < vs.len() ==> (#[trigger] vs[i]) is Continue,
    ensures
        runs.last().result_of().success,
        runs.last().result_of().failure_reason is None,
        runs.last().result_of().test_name@ == spec.name@,
        texts(runs.last().result_of().minecraft_ids@) == texts(spec.minecraft_ids@),
        is_last_tick(spec.timeline@, runs.last().result_of().total_ticks),
        forall|k: int|
            0 <= k < runs.last().result_of().assertions@.len() ==> (#[trigger] runs.last().result_of().assertions@[k]) is Success,
        advances(performed(runs, vs.len() as int)) == runs.last().result_of().total_ticks,
        runs.last().result_of().total_ticks == runs[0].last_tick(),
{
    assert forall|i: int|
        0 <= i < vs.len() implies (#[trigger] vs[i]) is Continue && TestRun::next_state(runs[i], vs[i], runs[i + 1])
        && runs[i + 1].steps() == runs[i].steps() && runs[i + 1].last_tick() == runs[i].last_tick() && runs[i].pos()
        < runs[i].steps().len() by {
        assert(runs[i].wf() && !runs[i].is_finished());
    }
    law_passing_run_succeeds(runs, vs);
    law_green_run(runs, vs);
    lemma_identity_kept(runs, vs, vs.len() as int);
    let n = vs.len() as int;
    lemma_performed_calls(runs, vs, n);
    assert(runs[n].pos() == runs[0].steps().len());
    assert(runs.last() == runs[n]);
    let steps = runs[0].steps();
    lemma_calls_advances(steps, steps.len() as int);
    assert(step_views(steps).take(steps.len() as int) =~= step_views(steps));
    law_run_advances_to_last_tick(spec, runs[0].last_tick());
}

proof fn lemma_identity_kept(runs: Seq<TestRun>, vs: Seq<Verdict>, k: int)
    requires
        run_chain(runs, vs),
        0 <= k <= vs.len(),
    ensures
        same_identity(runs[k].result_of(), runs[0].result_of()),
    decreases k,
{
    if k > 0 {
        lemma_identity_kept(runs, vs, k - 1);
        let v = vs[k - 1];
        assert(same_result_identity(runs[k].result_of(), runs[k - 1].result_of()));
    }
}

/// A whole run of `spec` whose replies pass until one assertion fails, at
/// timeline tick `t`: the run ends there, red, with `t` as the ticks
/// executed and as the failure's tick; its assertions are passes, then the
/// failure, last; nothing after the failing check is performed; and it asked
/// the world to advance exactly `t` times.
pub proof fn law_whole_run_first_failure(
    spec: TestSpec,
    runs: Seq<TestRun>,
    vs: Seq<Verdict>,
    reply: Reply,
    f: AssertFailure,
)
    requires
        run_chain(runs, vs),
        vs.len() > 0,
        fresh_run(spec, runs[0]),
        vs.last() == Verdict::Failure(f),
        forall|i: int| 0 <= i < vs.len() - 1 ==> (#[trigger] vs[i]) is Continue,
        judged(runs[vs.len() - 1].steps()[runs[vs.len() - 1].pos()], reply, vs.last()),
    ensures
        runs.last().is_finished(),
        !runs.last().result_of().success,
        runs.last().result_of().test_name@ == spec.name@,
        failure_tick(f) == runs.last().result_of().total_ticks,
        runs.last().result_of().assertions@.len() > 0,
        runs.last().result_of().assertions@.last() == AssertionResult::Failure(f),
        forall|k: int|
            0 <= k < runs.last().result_of().assertions@.len() - 1 ==> (
            #[trigger] runs.last().result_of().assertions@[k]) is Success,
        advances(performed(runs, vs.len() as int)) == runs.last().result_of().total_ticks,
{
    let n = vs.len() - 1;
    assert forall|i: int|
        0 <= i < vs.len() implies TestRun::next_state(runs[i], #[trigger] vs[i], runs[i + 1]) && runs[i + 1].steps()
        == runs[i].steps() && runs[i + 1].last_tick() == runs[i].last_tick() && runs[i].pos() < runs[i].steps().len() by {
        let v = vs[i];
        assert(runs[i].wf() && !runs[i].is_finished());
    }
    law_first_failure_ends_run(runs, vs, reply, f);
    lemma_identity_kept(runs, vs, vs.len() as int);
    lemma_performed_calls(runs, vs, n);
    let steps = runs[0].steps();
    let p = runs[n].pos();
    let vn = vs[n];
    assert(vn == Verdict::Failure(f));
    assert(runs[n].wf() && !runs[n].is_finished());
    assert(runs.last() == runs[n + 1]);
    assert(runs[n].steps() == steps);
    let step = steps[p];
    assert(judged(step, reply, vn));
    assert(step.expect is Block || step.expect is Inventory || step.expect is Entity);
    assert(performed(runs, n + 1) =~= performed(runs, n).push(steps[p]));
    assert(calls(steps, 0, p + 1) =~= calls(steps, 0, p).push(steps[p]));
    lemma_calls_advances(steps, p + 1);
    let max = runs[0].last_tick();
    assert(step_views(steps)[p] == steps[p]@);
    assert(!(steps[p]@.expect is TickAfter));
    law_step_follows_advances(spec, max, p);
    let vv = step_views(steps);
    assert(vv.take(p + 1) =~= vv.take(p) + seq![vv[p]]);
    lemma_count_append(vv.take(p), seq![vv[p]]);
    assert(seq![vv[p]].drop_last() =~= Seq::<crate::plan::StepView>::empty());
    if vv[p].request == Some(RequestView::DoTick) {
        law_only_plain_steps_advance(spec, max, p);
    }
    assert(vv[p].request != Some(RequestView::DoTick));
    assert(count_advances(seq![vv[p]]) == 0) by {
        reveal_with_fuel(count_advances, 2);
    }
    assert(count_advances(vv.take(p)) == step.tick);
    assert(performed(runs, n + 1) == calls(steps, 0, p + 1));
    assert(advances(calls(steps, 0, p + 1)) == step.tick);
    assert(runs.last().result_of().total_ticks == step.tick);
}

} // verus!
