//! Checks on a whole test file: timeline ordering, naming, and where its
//! cleanup region sits.
use vstd::prelude::*;

use crate::error::ValidationError;
use crate::text::{
    ascii_lower, chars_of, is_ascii_alnum, is_ascii_alphanumeric, string_from_chars, strip_leading, strip_trailing, to_ascii_lower,
    trim_char, trim_matches_char,
};
use crate::test_spec::{ActionType, TestSpec, TimelineEntry, rejected_name, rejection_of, spec_cleanup_region, ticks_of, validation_outcome};

verus! {

/// A timeline ordering violation on a single tick: an assertion that comes
/// after a non-assert action scheduled on the same tick.
#[derive(Debug, Clone, PartialEq, Eq)]
pub struct TimelineOrderViolation {
    pub tick: u32,
    pub timeline_index: usize,
    pub action: &'static str,
}

/// Whether an action is an assertion.
pub open spec fn is_assert(a: ActionType) -> bool {
    a is Assert
}

/// The entries scheduled on tick `t`, in timeline order, as (index, is-assert)
/// pairs; an entry naming the tick twice occurs twice.
pub open spec fn entry_occurrences(ticks: Seq<u32>, t: u32, idx: int, a: bool) -> Seq<(int, bool)>
    decreases ticks.len(),
{
    if ticks.len() == 0 {
        Seq::empty()
    } else {
        let p = entry_occurrences(ticks.drop_last(), t, idx, a);
        if ticks.last() == t { p.push((idx, a)) } else { p }
    }
}

pub open spec fn occurrences(tl: Seq<TimelineEntry>, t: u32) -> Seq<(int, bool)>
    decreases tl.len(),
{
    if tl.len() == 0 {
        Seq::empty()
    } else {
        let n = tl.len() - 1;
        occurrences(tl.drop_last(), t) + entry_occurrences(
            ticks_of(tl.last().at),
            t,
            n,
            is_assert(tl.last().action_type),
        )
    }
}

/// Whether a non-assert action occurs in `occ`.
pub open spec fn has_non_assert(occ: Seq<(int, bool)>) -> bool {
    exists|k: int| 0 <= k < occ.len() && !(#[trigger] occ[k]).1
}

/// Indices of the assertions in `occ` that come after a non-assert action.
pub open spec fn late_asserts(occ: Seq<(int, bool)>) -> Seq<int>
    decreases occ.len(),
{
    if occ.len() == 0 {
        Seq::empty()
    } else {
        let p = late_asserts(occ.drop_last());
        if occ.last().1 && has_non_assert(occ.drop_last()) {
            p.push(occ.last().0)
        } else {
            p
        }
    }
}

/// Whether, in `occ`, an assertion comes after a non-assert action.
pub open spec fn assert_after_action(occ: Seq<(int, bool)>) -> bool {
    exists|i: int, j: int| 0 <= i < j < occ.len() && !(#[trigger] occ[i]).1 && (#[trigger] occ[j]).1
}

/// Violations, as (tick, timeline index) pairs, for the ticks of `ts` in that order.
pub open spec fn violations_over(tl: Seq<TimelineEntry>, ts: Seq<u32>) -> Seq<(u32, int)>
    decreases ts.len(),
{
    if ts.len() == 0 {
        Seq::empty()
    } else {
        let t = ts.last();
        violations_over(tl, ts.drop_last()) + late_asserts(occurrences(tl, t)).map_values(|i: int| (t, i))
    }
}

/// Every tick some entry of the first `n` entries names.
pub open spec fn ticks_upto(tl: Seq<TimelineEntry>, n: int) -> Set<u32>
    decreases n,
{
    if n <= 0 {
        Set::empty()
    } else {
        ticks_upto(tl, n - 1).union(ticks_of(tl[n - 1].at).to_set())
    }
}

pub open spec fn all_ticks(tl: Seq<TimelineEntry>) -> Set<u32> {
    ticks_upto(tl, tl.len() as int)
}

pub open spec fn strictly_increasing(s: Seq<u32>) -> bool {
    forall|i: int, j: int| 0 <= i < j < s.len() ==> s[i] < s[j]
}

/// The ordering violations of a timeline, tick by tick in ascending order.
pub open spec fn order_violations(tl: Seq<TimelineEntry>, vs: Seq<(u32, int)>) -> bool {
    exists|ts: Seq<u32>|
        strictly_increasing(ts) && ts.to_set() == all_ticks(tl) && #[trigger] violations_over(tl, ts) == vs
}

/// The (tick, index) pairs of violations.
pub open spec fn violation_pairs(v: Seq<TimelineOrderViolation>) -> Seq<(u32, int)> {
    v.map_values(|x: TimelineOrderViolation| (x.tick, x.timeline_index as int))
}

fn insert_sorted(v: &mut Vec<u32>, u: u32)
    requires
        strictly_increasing(old(v)@),
    ensures
        strictly_increasing(final(v)@),
        final(v)@.to_set() == old(v)@.to_set().insert(u),
{
    let ghost s0 = v@;
    let mut i: usize = 0;
    while i < v.len() && v[i] < u
        invariant
            v@ == s0,
            i <= v.len(),
            forall|k: int| 0 <= k < i ==> v[k] < u,
        decreases v.len() - i,
    {
        i = i + 1;
    }
    if i < v.len() && v[i] == u {
        assert(s0.to_set() =~= s0.to_set().insert(u));
        return;
    }
    v.insert(i, u);
    assert(v@ == s0.insert(i as int, u));
    assert forall|a: int, b: int| 0 <= a < b < v@.len() implies v@[a] < v@[b] by {
        if b < i {
        } else if a > i {
        } else if a == i {
            assert(v@[b] == s0[b - 1]);
        } else {
            if b == i {
            } else {
                assert(v@[b] == s0[b - 1]);
            }
        }
    }
    assert forall|x: u32| v@.to_set().contains(x) <==> s0.to_set().insert(u).contains(x) by {
        if s0.contains(x) {
            let k = choose|k: int| 0 <= k < s0.len() && s0[k] == x;
            if k < i {
                assert(v@[k] == x);
            } else {
                assert(v@[k + 1] == x);
            }
        }
        if v@.contains(x) {
            let k = choose|k: int| 0 <= k < v@.len() && v@[k] == x;
            if k < i {
                assert(s0[k] == x);
            } else if k > i {
                assert(s0[k - 1] == x);
            }
        }
        assert(v@[i as int] == u);
    }
    assert(v@.to_set() =~= s0.to_set().insert(u));
}

/// All ticks of a timeline, ascending, each once.
fn sorted_ticks(tl: &Vec<TimelineEntry>) -> (r: Vec<u32>)
    ensures
        strictly_increasing(r@),
        r@.to_set() == all_ticks(tl@),
{
    let mut r: Vec<u32> = Vec::new();
    let mut i: usize = 0;
    assert(r@.to_set() =~= Set::<u32>::empty());
    while i < tl.len()
        invariant
            i <= tl.len(),
            strictly_increasing(r@),
            r@.to_set() == ticks_upto(tl@, i as int),
        decreases tl.len() - i,
    {
        let ticks = tl[i].at.to_vec();
        let ghost before = r@.to_set();
        let mut k: usize = 0;
        while k < ticks.len()
            invariant
                k <= ticks.len(),
                strictly_increasing(r@),
                r@.to_set() == before.union(ticks@.take(k as int).to_set()),
            decreases ticks.len() - k,
        {
            insert_sorted(&mut r, ticks[k]);
            assert(ticks@.take(k + 1) == ticks@.take(k as int).push(ticks@[k as int]));
            proof {
                ticks@.take(k as int).lemma_push_to_set_commute(ticks@[k as int]);
            }
            assert(r@.to_set() =~= before.union(ticks@.take(k + 1).to_set()));
            k = k + 1;
        }
        assert(ticks@.take(ticks.len() as int) == ticks@);
        i = i + 1;
    }
    r
}


/// Every violation is reported as an assert.
pub open spec fn all_asserts(v: Seq<TimelineOrderViolation>) -> bool {
    forall|k: int| 0 <= k < v.len() ==> (#[trigger] v[k]).action@ == "assert"@
}

proof fn lemma_push_occurrence(q: Seq<(int, bool)>, p: (int, bool))
    ensures
        late_asserts(q.push(p)) == if p.1 && has_non_assert(q) { late_asserts(q).push(p.0) } else { late_asserts(q) },
        has_non_assert(q.push(p)) == (has_non_assert(q) || !p.1),
{
    assert(q.push(p).drop_last() =~= q);
    if has_non_assert(q) {
        let k = choose|k: int| 0 <= k < q.len() && !(#[trigger] q[k]).1;
        assert(!q.push(p)[k].1);
    }
    if !p.1 {
        assert(!q.push(p)[q.len() as int].1);
    }
    if has_non_assert(q.push(p)) {
        let k = choose|k: int| 0 <= k < q.push(p).len() && !(#[trigger] q.push(p)[k]).1;
        if k < q.len() {
            assert(!q[k].1);
        }
    }
}

proof fn lemma_late_asserts_empty(occ: Seq<(int, bool)>)
    ensures
        late_asserts(occ).len() == 0 <==> !assert_after_action(occ),
    decreases occ.len(),
{
    if occ.len() > 0 {
        let q = occ.drop_last();
        let p = occ.last();
        lemma_late_asserts_empty(q);
        assert(occ =~= q.push(p));
        lemma_push_occurrence(q, p);
        if assert_after_action(q) {
            let (i, j) = choose|i: int, j: int| 0 <= i < j < q.len() && !(#[trigger] q[i]).1 && (#[trigger] q[j]).1;
            assert(!occ[i].1 && occ[j].1);
        }
        if p.1 && has_non_assert(q) {
            let k = choose|k: int| 0 <= k < q.len() && !(#[trigger] q[k]).1;
            assert(!occ[k].1 && occ[occ.len() - 1].1);
        }
        if assert_after_action(occ) {
            let (i, j) = choose|i: int, j: int| 0 <= i < j < occ.len() && !(#[trigger] occ[i]).1 && (#[trigger] occ[j]).1;
            if j < occ.len() - 1 {
                assert(!q[i].1 && q[j].1);
            } else {
                assert(!q[i].1);
            }
        }
    }
}

/// Whether entry `i` of the timeline is an assertion scheduled on tick `t`
/// after some earlier entry that is not an assertion and is scheduled on `t`.
pub open spec fn late_at(tl: Seq<TimelineEntry>, t: u32, i: int) -> bool {
    &&& 0 <= i < tl.len()
    &&& is_assert(tl[i].action_type)
    &&& ticks_of(tl[i].at).contains(t)
    &&& exists|j: int| 0 <= j < i && !is_assert(tl[j].action_type) && #[trigger] ticks_of(tl[j].at).contains(t)
}

/// Whether violation `a` comes no later than `b`: by tick, then by timeline index.
pub open spec fn violation_no_later(a: TimelineOrderViolation, b: TimelineOrderViolation) -> bool {
    a.tick < b.tick || (a.tick == b.tick && a.timeline_index <= b.timeline_index)
}

/// Some violation in `v[from..]` reports entry `i` on tick `t`.
pub open spec fn reports(v: Seq<TimelineOrderViolation>, from: int, t: u32, i: int) -> bool {
    exists|q: int| from <= q < v.len() && (#[trigger] v[q]).tick == t && v[q].timeline_index == i
}

proof fn lemma_reports_push(v: Seq<TimelineOrderViolation>, from: int, x: TimelineOrderViolation, t: u32, i: int)
    requires
        0 <= from <= v.len(),
    ensures
        reports(v.push(x), from, t, i) <==> reports(v, from, t, i) || (x.tick == t && x.timeline_index == i),
{
    let w2 = v.push(x);
    if reports(v, from, t, i) {
        let q = choose|q: int| from <= q < v.len() && (#[trigger] v[q]).tick == t && v[q].timeline_index == i;
        assert(w2[q] == v[q]);
    }
    if x.tick == t && x.timeline_index == i {
        assert(w2[v.len() as int] == x);
    }
    if reports(w2, from, t, i) {
        let q = choose|q: int| from <= q < w2.len() && (#[trigger] w2[q]).tick == t && w2[q].timeline_index == i;
        if q < v.len() {
            assert(w2[q] == v[q]);
        }
    }
}

/// Appends the violations on tick `t` to `out`.
fn push_violations_at(tl: &Vec<TimelineEntry>, t: u32, out: &mut Vec<TimelineOrderViolation>)
    requires
        all_asserts(old(out)@),
    ensures
        all_asserts(final(out)@),
        violation_pairs(final(out)@) == violation_pairs(old(out)@) + late_asserts(occurrences(tl@, t)).map_values(|i: int| (t, i)),
        final(out)@.take(old(out)@.len() as int) == old(out)@,
        final(out)@.len() >= old(out)@.len(),
        forall|q: int| old(out)@.len() <= q < final(out)@.len() ==> (#[trigger] final(out)@[q]).tick == t,
        forall|q1: int, q2: int|
            old(out)@.len() <= q1 < q2 < final(out)@.len() ==> (#[trigger] final(out)@[q1]).timeline_index
                <= (#[trigger] final(out)@[q2]).timeline_index,
        forall|i: int| late_at(tl@, t, i) <==> #[trigger] reports(final(out)@, old(out)@.len() as int, t, i),
{
    let ghost o0 = out@;
    let ghost n0 = o0.len() as int;
    let mut seen = false;
    let mut i: usize = 0;
    assert(occurrences(tl@.take(0), t) =~= Seq::<(int, bool)>::empty());
    assert(violation_pairs(out@) =~= violation_pairs(o0) + late_asserts(occurrences(tl@.take(0), t)).map_values(|i: int| (t, i)));
    assert(out@.take(n0) =~= o0);
    while i < tl.len()
        invariant
            i <= tl.len(),
            all_asserts(out@),
            seen == has_non_assert(occurrences(tl@.take(i as int), t)),
            violation_pairs(out@) == violation_pairs(o0) + late_asserts(occurrences(tl@.take(i as int), t)).map_values(|i: int| (t, i)),
            n0 == o0.len(),
            out@.len() >= n0,
            out@.take(n0) == o0,
            seen == exists|j: int| 0 <= j < i && !is_assert(tl@[j].action_type) && #[trigger] ticks_of(tl@[j].at).contains(t),
            forall|q: int| n0 <= q < out@.len() ==> (#[trigger] out@[q]).tick == t && out@[q].timeline_index < i,
            forall|q1: int, q2: int|
                n0 <= q1 < q2 < out@.len() ==> (#[trigger] out@[q1]).timeline_index <= (#[trigger] out@[q2]).timeline_index,
            forall|i2: int| (0 <= i2 < i && late_at(tl@, t, i2)) <==> #[trigger] reports(out@, n0, t, i2),
        decreases tl.len() - i,
    {
        let a = match &tl[i].action_type {
            ActionType::Assert { .. } => true,
            _ => false,
        };
        let ticks = tl[i].at.to_vec();
        let ghost base = occurrences(tl@.take(i as int), t);
        let ghost seen0 = seen;
        let ghost m0 = out@.len() as int;
        let mut k: usize = 0;
        assert(entry_occurrences(ticks@.take(0), t, i as int, a) =~= Seq::<(int, bool)>::empty());
        assert(base + entry_occurrences(ticks@.take(0), t, i as int, a) =~= base);
        while k < ticks.len()
            invariant
                k <= ticks.len(),
                all_asserts(out@),
                seen == has_non_assert(base + entry_occurrences(ticks@.take(k as int), t, i as int, a)),
                violation_pairs(out@) == violation_pairs(o0) + late_asserts(base + entry_occurrences(ticks@.take(k as int), t, i as int, a)).map_values(|i: int| (t, i)),
                n0 == o0.len(),
                out@.len() >= m0,
                m0 >= n0,
                out@.take(n0) == o0,
                seen == (seen0 || (!a && ticks@.take(k as int).contains(t))),
                forall|q: int| n0 <= q < out@.len() ==> (#[trigger] out@[q]).tick == t && out@[q].timeline_index <= i,
                forall|q: int| m0 <= q < out@.len() ==> (#[trigger] out@[q]).timeline_index == i,
                forall|q1: int, q2: int|
                    n0 <= q1 < q2 < out@.len() ==> (#[trigger] out@[q1]).timeline_index <= (#[trigger] out@[q2]).timeline_index,
                forall|i2: int| (0 <= i2 < i && late_at(tl@, t, i2)) <==> #[trigger] reports(out@, n0, t, i2) && i2 != i,
                reports(out@, n0, t, i as int) <==> (a && seen0 && ticks@.take(k as int).contains(t)),
            decreases ticks.len() - k,
        {
            let ghost q = base + entry_occurrences(ticks@.take(k as int), t, i as int, a);
            assert(ticks@.take(k + 1).drop_last() =~= ticks@.take(k as int));
            assert(ticks@.take(k + 1) =~= ticks@.take(k as int).push(ticks@[k as int]));
            if ticks[k] == t {
                assert(base + entry_occurrences(ticks@.take(k + 1), t, i as int, a) =~= q.push((i as int, a)));
                proof {
                    lemma_push_occurrence(q, (i as int, a));
                }
                if a {
                    if seen {
                        let ghost before = out@;
                        let viol = TimelineOrderViolation { tick: t, timeline_index: i, action: "assert" };
                        out.push(viol);
                        assert(out@ == before.push(viol));
                        assert(violation_pairs(out@) =~= violation_pairs(before).push((t, i as int)));
                        assert(late_asserts(q).push(i as int).map_values(|i: int| (t, i)) =~= late_asserts(q).map_values(|i: int| (t, i)).push((t, i as int)));
                        assert(out@[out@.len() - 1].tick == t && out@[out@.len() - 1].timeline_index == i);
                        assert(out@.len() == before.len() + 1);
                        assert forall|w: int| 0 <= w < before.len() implies out@[w] == before[w] by {}
                        assert forall|i2: int| #[trigger] reports(out@, n0, t, i2) <==> reports(before, n0, t, i2) || i2 == i by {
                            lemma_reports_push(before, n0, viol, t, i2);
                        }
                        assert(out@.take(n0) =~= before.take(n0));
                    }
                } else {
                    seen = true;
                }
            } else {
                assert(base + entry_occurrences(ticks@.take(k + 1), t, i as int, a) =~= q);
            }
            k = k + 1;
        }
        assert(ticks@.take(ticks.len() as int) == ticks@);
        assert(tl@.take(i + 1).drop_last() =~= tl@.take(i as int));
        assert(is_assert(tl@[i as int].action_type) == a);
        assert(occurrences(tl@.take(i + 1), t) == base + entry_occurrences(ticks_of(tl@[i as int].at), t, i as int, a));
        assert(seen == exists|j: int| 0 <= j < i + 1 && !is_assert(tl@[j].action_type) && #[trigger] ticks_of(tl@[j].at).contains(t)) by {
            if !a && ticks@.contains(t) {
                assert(!is_assert(tl@[i as int].action_type) && ticks_of(tl@[i as int].at).contains(t));
            }
            if exists|j: int| 0 <= j < i + 1 && !is_assert(tl@[j].action_type) && #[trigger] ticks_of(tl@[j].at).contains(t) {
                let j = choose|j: int| 0 <= j < i + 1 && !is_assert(tl@[j].action_type) && #[trigger] ticks_of(tl@[j].at).contains(t);
                if j < i {
                    assert(seen0);
                }
            }
        }
        assert(late_at(tl@, t, i as int) <==> (a && seen0 && ticks@.contains(t)));
        i = i + 1;
    }
    assert(tl@.take(tl.len() as int) == tl@);
    assert forall|i2: int| late_at(tl@, t, i2) <==> #[trigger] reports(out@, n0, t, i2) by {
        if reports(out@, n0, t, i2) {
            let w = choose|w: int| n0 <= w < out@.len() && (#[trigger] out@[w]).tick == t && out@[w].timeline_index == i2;
        }
    }
}

/// The ordering violations of a test's timeline: on each tick that two or more
/// entries share, every assert that comes after a non-assert action. Ticks are
/// visited in ascending order, entries in timeline order.
pub fn timeline_order_violations(spec: &TestSpec) -> (r: Vec<TimelineOrderViolation>)
    ensures
        order_violations(spec.timeline@, violation_pairs(r@)),
        all_asserts(r@),
        r@.len() == 0 <==> forall|t: u32|
            #[trigger] all_ticks(spec.timeline@).contains(t) ==> !assert_after_action(occurrences(spec.timeline@, t)),
        forall|t: u32, i: int| late_at(spec.timeline@, t, i) <==> #[trigger] reports(r@, 0, t, i),
        forall|q1: int, q2: int| 0 <= q1 < q2 < r@.len() ==> violation_no_later(#[trigger] r@[q1], #[trigger] r@[q2]),
{
    let ghost tl = spec.timeline@;
    let ts = sorted_ticks(&spec.timeline);
    let mut out: Vec<TimelineOrderViolation> = Vec::new();
    let mut j: usize = 0;
    assert(violation_pairs(out@) =~= violations_over(spec.timeline@, ts@.take(0)));
    while j < ts.len()
        invariant
            j <= ts.len(),
            tl == spec.timeline@,
            strictly_increasing(ts@),
            all_asserts(out@),
            violation_pairs(out@) == violations_over(spec.timeline@, ts@.take(j as int)),
            out@.len() == 0 <==> forall|k: int| 0 <= k < j ==> late_asserts(occurrences(tl, #[trigger] ts@[k])).len() == 0,
            j == 0 ==> out@.len() == 0,
            j > 0 ==> forall|q: int| 0 <= q < out@.len() ==> (#[trigger] out@[q]).tick <= ts@[j - 1],
            forall|q1: int, q2: int| 0 <= q1 < q2 < out@.len() ==> violation_no_later(#[trigger] out@[q1], #[trigger] out@[q2]),
            forall|t: u32, i: int| (late_at(tl, t, i) && ts@.take(j as int).contains(t)) <==> #[trigger] reports(out@, 0, t, i),
        decreases ts.len() - j,
    {
        let ghost before = out@;
        let t = ts[j];
        push_violations_at(&spec.timeline, t, &mut out);
        assert(violation_pairs(out@).len() == out@.len());
        assert(violation_pairs(before).len() == before.len());
        assert(ts@.take(j + 1).drop_last() =~= ts@.take(j as int));
        assert(ts@.take(j + 1) =~= ts@.take(j as int).push(t));
        assert forall|q: int| 0 <= q < before.len() implies out@[q] == before[q] by {
            assert(out@.take(before.len() as int)[q] == out@[q]);
        }
        assert forall|q: int| 0 <= q < out@.len() implies (#[trigger] out@[q]).tick <= t by {
            if q < before.len() {
                assert(out@[q] == before[q]);
                assert(ts@[j - 1] < t);
            }
        }
        assert forall|q1: int, q2: int| 0 <= q1 < q2 < out@.len() implies violation_no_later(#[trigger] out@[q1], #[trigger] out@[q2]) by {
            if q2 < before.len() {
                assert(out@[q1] == before[q1] && out@[q2] == before[q2]);
            } else if q1 < before.len() {
                assert(out@[q1] == before[q1]);
                assert(ts@[j - 1] < t);
            }
        }
        assert forall|t2: u32, i: int| (late_at(tl, t2, i) && ts@.take(j + 1).contains(t2)) <==> #[trigger] reports(out@, 0, t2, i) by {
            lemma_reports_split(before, out@, t2, i);
            if ts@.take(j as int).contains(t2) {
                let tk = ts@.take(j as int);
                let m = choose|m: int| 0 <= m < tk.len() && #[trigger] tk[m] == t2;
                assert(ts@[m] < t);
            }
            if ts@.take(j + 1).contains(t2) && t2 != t {
                let tj = ts@.take(j + 1);
                let m = choose|m: int| 0 <= m < tj.len() && #[trigger] tj[m] == t2;
                assert(ts@.take(j as int)[m] == t2);
            }
            if t2 == t {
                assert(ts@.take(j + 1)[j as int] == t);
                if reports(before, 0, t2, i) {
                    let q = choose|q: int| 0 <= q < before.len() && (#[trigger] before[q]).tick == t2 && before[q].timeline_index == i;
                    assert(out@[q] == before[q]);
                }
            }
            if reports(out@, before.len() as int, t2, i) {
                let q = choose|q: int| before.len() <= q < out@.len() && (#[trigger] out@[q]).tick == t2 && out@[q].timeline_index == i;
            }
        }
        j = j + 1;
    }
    assert(ts@.take(ts.len() as int) == ts@);
    assert forall|t: u32, i: int| late_at(tl, t, i) implies ts@.contains(t) by {
        lemma_ticks_upto_contains(tl, tl.len() as int, i, t);
        assert(ts@.to_set().contains(t));
    }
    assert(out@.len() == 0 <==> forall|t: u32|
        #[trigger] all_ticks(tl).contains(t) ==> !assert_after_action(occurrences(tl, t))) by {
        if out@.len() == 0 {
            assert forall|t: u32| #[trigger] all_ticks(tl).contains(t) implies !assert_after_action(occurrences(tl, t)) by {
                assert(ts@.to_set().contains(t));
                let k = choose|k: int| 0 <= k < ts@.len() && ts@[k] == t;
                lemma_late_asserts_empty(occurrences(tl, ts@[k]));
            }
        } else {
            let k = choose|k: int| 0 <= k < ts@.len() && late_asserts(occurrences(tl, #[trigger] ts@[k])).len() != 0;
            assert(ts@.to_set().contains(ts@[k]));
            lemma_late_asserts_empty(occurrences(tl, ts@[k]));
        }
    }
    out
}

proof fn lemma_reports_split(before: Seq<TimelineOrderViolation>, after: Seq<TimelineOrderViolation>, t: u32, i: int)
    requires
        after.len() >= before.len(),
        after.take(before.len() as int) == before,
    ensures
        reports(after, 0, t, i) <==> reports(before, 0, t, i) || reports(after, before.len() as int, t, i),
{
    if reports(before, 0, t, i) {
        let q = choose|q: int| 0 <= q < before.len() && (#[trigger] before[q]).tick == t && before[q].timeline_index == i;
        assert(after.take(before.len() as int)[q] == after[q]);
    }
    if reports(after, 0, t, i) {
        let q = choose|q: int| 0 <= q < after.len() && (#[trigger] after[q]).tick == t && after[q].timeline_index == i;
        if q < before.len() {
            assert(after.take(before.len() as int)[q] == after[q]);
        }
    }
}

proof fn lemma_ticks_upto_contains(tl: Seq<TimelineEntry>, n: int, i: int, t: u32)
    requires
        0 <= i < n <= tl.len(),
        ticks_of(tl[i].at).contains(t),
    ensures
        ticks_upto(tl, n).contains(t),
    decreases n,
{
    if i < n - 1 {
        lemma_ticks_upto_contains(tl, n - 1, i, t);
    } else {
        assert(ticks_of(tl[i].at).to_set().contains(t));
    }
}

proof fn lemma_sorted_enumeration_unique(a: Seq<u32>, b: Seq<u32>)
    requires
        strictly_increasing(a),
        strictly_increasing(b),
        a.to_set() == b.to_set(),
    ensures
        a == b,
    decreases a.len(),
{
    if a.len() == 0 {
        if b.len() > 0 {
            assert(b.to_set().contains(b[0]));
        }
        assert(a =~= b);
    } else {
        assert(a.to_set().contains(a.last()));
        assert(b.len() > 0);
        assert(b.to_set().contains(b.last()));
        let ka = choose|k: int| 0 <= k < a.len() && a[k] == b.last();
        let kb = choose|k: int| 0 <= k < b.len() && b[k] == a.last();
        assert(a.last() == b.last()) by {
            if ka < a.len() - 1 {
                assert(a[ka] < a.last());
            }
            if kb < b.len() - 1 {
                assert(b[kb] < b.last());
            }
        }
        let a1 = a.drop_last();
        let b1 = b.drop_last();
        assert forall|x: u32| a1.to_set().contains(x) <==> b1.to_set().contains(x) by {
            if a1.contains(x) {
                let k = choose|k: int| 0 <= k < a1.len() && a1[k] == x;
                assert(a.to_set().contains(x));
                let j = choose|j: int| 0 <= j < b.len() && b[j] == x;
                assert(a[k] < a.last());
                if j == b.len() - 1 {
                    assert(false);
                }
                assert(b1[j] == x);
            }
            if b1.contains(x) {
                let k = choose|k: int| 0 <= k < b1.len() && b1[k] == x;
                assert(b.to_set().contains(x));
                let j = choose|j: int| 0 <= j < a.len() && a[j] == x;
                assert(b[k] < b.last());
                if j == a.len() - 1 {
                    assert(false);
                }
                assert(a1[j] == x);
            }
        }
        assert(a1.to_set() =~= b1.to_set());
        lemma_sorted_enumeration_unique(a1, b1);
        assert(a =~= a1.push(a.last()));
        assert(b =~= b1.push(b.last()));
    }
}

/// A timeline has exactly one list of ordering violations.
pub proof fn lemma_order_violations_unique(tl: Seq<TimelineEntry>, v1: Seq<(u32, int)>, v2: Seq<(u32, int)>)
    requires
        order_violations(tl, v1),
        order_violations(tl, v2),
    ensures
        v1 == v2,
{
    let t1 = choose|ts: Seq<u32>| strictly_increasing(ts) && ts.to_set() == all_ticks(tl) && #[trigger] violations_over(tl, ts) == v1;
    let t2 = choose|ts: Seq<u32>| strictly_increasing(ts) && ts.to_set() == all_ticks(tl) && #[trigger] violations_over(tl, ts) == v2;
    lemma_sorted_enumeration_unique(t1, t2);
}


/// Check that on every tick, assert actions come before all other actions:
/// the check passes exactly when no tick of the timeline has an assertion
/// scheduled after a non-assert action.
pub fn validate_timeline_order(spec: &TestSpec) -> (r: Result<(), ValidationError>)
    ensures
        r is Ok <==> order_violations(spec.timeline@, Seq::empty()),
        r is Ok <==> forall|t: u32|
            #[trigger] all_ticks(spec.timeline@).contains(t) ==> !assert_after_action(occurrences(spec.timeline@, t)),
        r matches Err(e) ==> e matches ValidationError::TimelineOrder { name, violations }
            && name@ == spec.name@ && violations@.len() > 0
            && order_violations(spec.timeline@, violation_pairs(violations@)),
        r matches Err(ValidationError::TimelineOrder { violations, .. }) ==> all_asserts(violations@) && (forall|t: u32, i: int|
            late_at(spec.timeline@, t, i) <==> #[trigger] reports(violations@, 0, t, i)) && (forall|q1: int, q2: int|
            0 <= q1 < q2 < violations@.len() ==> violation_no_later(#[trigger] violations@[q1], #[trigger] violations@[q2])),
{
    let violations = timeline_order_violations(spec);
    if violations.len() == 0 {
        assert(violation_pairs(violations@) =~= Seq::<(u32, int)>::empty());
        return Ok(());
    }
    assert(!order_violations(spec.timeline@, Seq::empty())) by {
        if order_violations(spec.timeline@, Seq::empty()) {
            lemma_order_violations_unique(spec.timeline@, Seq::empty(), violation_pairs(violations@));
            assert(violation_pairs(violations@).len() == violations@.len());
        }
    }
    Err(ValidationError::TimelineOrder { name: spec.name.clone(), violations })
}


/// The slug before trimming, and whether it ends in an underscore that a run of
/// separators produced: ASCII letters and digits are kept (lowercased), each
/// run of other characters becomes one underscore.
pub open spec fn slug_raw(cs: Seq<char>) -> (Seq<char>, bool)
    decreases cs.len(),
{
    if cs.len() == 0 {
        (Seq::empty(), false)
    } else {
        let (s, prev) = slug_raw(cs.drop_last());
        let c = cs.last();
        if is_ascii_alnum(c) {
            (s.push(ascii_lower(c)), false)
        } else if !prev {
            (s.push('_'), true)
        } else {
            (s, prev)
        }
    }
}

/// The snake_case slug of a human-readable test name.
pub open spec fn slug(name: Seq<char>) -> Seq<char> {
    trim_char(slug_raw(name).0, '_')
}

/// Convert a human-readable test name to a snake_case slug for file matching.
pub fn slugify_test_name(name: &str) -> (r: String)
    ensures
        r@ == slug(name@),
{
    let cs = chars_of(name);
    let mut out: Vec<char> = Vec::new();
    let mut prev_underscore = false;
    let mut i: usize = 0;
    while i < cs.len()
        invariant
            i <= cs.len(),
            cs@ == name@,
            (out@, prev_underscore) == slug_raw(cs@.take(i as int)),
        decreases cs.len() - i,
    {
        let ch = cs[i];
        assert(cs@.take(i + 1).drop_last() =~= cs@.take(i as int));
        if is_ascii_alphanumeric(ch) {
            out.push(to_ascii_lower(ch));
            prev_underscore = false;
        } else if !prev_underscore {
            out.push('_');
            prev_underscore = true;
        }
        i = i + 1;
    }
    assert(cs@.take(cs.len() as int) == cs@);
    let trimmed = trim_matches_char(&out, '_');
    string_from_chars(&trimmed)
}

/// A character a slug may hold: an ASCII lowercase letter, a digit, or `_`.
pub open spec fn slug_char(c: char) -> bool {
    ('a' <= c && c <= 'z') || ('0' <= c && c <= '9') || c == '_'
}

proof fn lemma_slug_raw_chars(cs: Seq<char>)
    ensures
        forall|k: int| 0 <= k < slug_raw(cs).0.len() ==> slug_char(#[trigger] slug_raw(cs).0[k]),
    decreases cs.len(),
{
    if cs.len() > 0 {
        lemma_slug_raw_chars(cs.drop_last());
        let c = cs.last();
        let prev = slug_raw(cs.drop_last()).0;
        let x = if is_ascii_alnum(c) { ascii_lower(c) } else { '_' };
        if is_ascii_alnum(c) && 'A' <= c && c <= 'Z' {
            assert('a' <= ascii_lower(c) && ascii_lower(c) <= 'z');
        }
        assert(slug_char(x));
        assert forall|k: int| 0 <= k < slug_raw(cs).0.len() implies slug_char(#[trigger] slug_raw(cs).0[k]) by {
            if k < prev.len() {
                assert(slug_raw(cs).0[k] == prev[k]);
            } else {
                assert(slug_raw(cs).0[k] == x);
            }
        }
    }
}

proof fn lemma_strip_leading_keeps(s: Seq<char>, c: char)
    requires
        forall|k: int| 0 <= k < s.len() ==> slug_char(#[trigger] s[k]),
    ensures
        forall|k: int| 0 <= k < strip_leading(s, c).len() ==> slug_char(#[trigger] strip_leading(s, c)[k]),
        strip_leading(s, c).len() > 0 ==> strip_leading(s, c)[0] != c,
    decreases s.len(),
{
    if s.len() > 0 && s[0] == c {
        assert forall|k: int| 0 <= k < s.drop_first().len() implies slug_char(#[trigger] s.drop_first()[k]) by {
            assert(s.drop_first()[k] == s[k + 1]);
        }
        lemma_strip_leading_keeps(s.drop_first(), c);
    }
}

proof fn lemma_strip_trailing_prefix(s: Seq<char>, c: char)
    ensures
        strip_trailing(s, c) =~= s.subrange(0, strip_trailing(s, c).len() as int),
        strip_trailing(s, c).len() <= s.len(),
        strip_trailing(s, c).len() > 0 ==> strip_trailing(s, c).last() != c,
    decreases s.len(),
{
    if s.len() > 0 && s.last() == c {
        lemma_strip_trailing_prefix(s.drop_last(), c);
    }
}

/// Every character of a slug is an ASCII lowercase letter, a digit or `_`,
/// and a slug neither starts nor ends with `_`.
pub proof fn law_slug_characters(name: Seq<char>)
    ensures
        forall|k: int| 0 <= k < slug(name).len() ==> slug_char(#[trigger] slug(name)[k]),
        slug(name).len() > 0 ==> slug(name)[0] != '_' && slug(name).last() != '_',
{
    let raw = slug_raw(name).0;
    lemma_slug_raw_chars(name);
    lemma_strip_leading_keeps(raw, '_');
    let t = strip_leading(raw, '_');
    lemma_strip_trailing_prefix(t, '_');
    let u = strip_trailing(t, '_');
    assert forall|k: int| 0 <= k < u.len() implies slug_char(#[trigger] u[k]) by {
        assert(u[k] == t[k]);
    }
    if u.len() > 0 {
        assert(u[0] == t[0]);
    }
}

/// No two `_` stand next to each other in `s`.
pub open spec fn no_double_underscore(s: Seq<char>) -> bool {
    forall|k: int| 0 <= k < s.len() - 1 ==> !(#[trigger] s[k] == '_' && s[k + 1] == '_')
}

/// The ASCII letters and digits of `cs`, lowercased, in order.
pub open spec fn lower_alnums(cs: Seq<char>) -> Seq<char>
    decreases cs.len(),
{
    if cs.len() == 0 {
        Seq::empty()
    } else if is_ascii_alnum(cs.last()) {
        lower_alnums(cs.drop_last()).push(ascii_lower(cs.last()))
    } else {
        lower_alnums(cs.drop_last())
    }
}

/// `s` with every `_` left out.
pub open spec fn without_underscores(s: Seq<char>) -> Seq<char>
    decreases s.len(),
{
    if s.len() == 0 {
        Seq::empty()
    } else if s.last() == '_' {
        without_underscores(s.drop_last())
    } else {
        without_underscores(s.drop_last()).push(s.last())
    }
}

proof fn lemma_without_underscores_concat(a: Seq<char>, b: Seq<char>)
    ensures
        without_underscores(a + b) == without_underscores(a) + without_underscores(b),
    decreases b.len(),
{
    if b.len() == 0 {
        assert(a + b =~= a);
        assert(without_underscores(a) + Seq::<char>::empty() =~= without_underscores(a));
    } else {
        lemma_without_underscores_concat(a, b.drop_last());
        assert((a + b).drop_last() =~= a + b.drop_last());
        if b.last() != '_' {
            assert(without_underscores(a) + without_underscores(b.drop_last()).push(b.last()) =~= (without_underscores(a)
                + without_underscores(b.drop_last())).push(b.last()));
        }
    }
}

/// What building the raw slug keeps: the underscore flag says whether it ends
/// in `_`, no two `_` are adjacent, and without its `_` it is the lowercased
/// letters and digits of the input.
proof fn lemma_slug_raw_shape(cs: Seq<char>)
    ensures
        slug_raw(cs).1 == (slug_raw(cs).0.len() > 0 && slug_raw(cs).0.last() == '_'),
        no_double_underscore(slug_raw(cs).0),
        without_underscores(slug_raw(cs).0) == lower_alnums(cs),
    decreases cs.len(),
{
    if cs.len() > 0 {
        lemma_slug_raw_shape(cs.drop_last());
        let (p, prev) = slug_raw(cs.drop_last());
        let c = cs.last();
        if is_ascii_alnum(c) {
            let x = ascii_lower(c);
            if 'A' <= c && c <= 'Z' {
                assert('a' <= x && x <= 'z');
            }
            assert(x != '_');
            assert(p.push(x).drop_last() =~= p);
            assert forall|k: int| 0 <= k < p.push(x).len() - 1 implies !(#[trigger] p.push(x)[k] == '_' && p.push(x)[k + 1] == '_') by {
                if k < p.len() - 1 {
                    assert(p.push(x)[k] == p[k] && p.push(x)[k + 1] == p[k + 1]);
                }
            }
        } else if !prev {
            assert(p.push('_').drop_last() =~= p);
            assert forall|k: int| 0 <= k < p.push('_').len() - 1 implies !(#[trigger] p.push('_')[k] == '_' && p.push('_')[k + 1] == '_') by {
                if k < p.len() - 1 {
                    assert(p.push('_')[k] == p[k] && p.push('_')[k + 1] == p[k + 1]);
                } else {
                    assert(p.push('_')[k] == p.last());
                }
            }
        }
    }
}

proof fn lemma_strip_leading_shape(s: Seq<char>)
    requires
        no_double_underscore(s),
    ensures
        no_double_underscore(strip_leading(s, '_')),
        without_underscores(strip_leading(s, '_')) == without_underscores(s),
    decreases s.len(),
{
    if s.len() > 0 && s[0] == '_' {
        let d = s.drop_first();
        assert forall|k: int| 0 <= k < d.len() - 1 implies !(#[trigger] d[k] == '_' && d[k + 1] == '_') by {
            assert(d[k] == s[k + 1] && d[k + 1] == s[k + 2]);
        }
        lemma_strip_leading_shape(d);
        assert(s =~= seq!['_'] + d);
        lemma_without_underscores_concat(seq!['_'], d);
        assert(seq!['_'].drop_last() =~= Seq::<char>::empty());
        assert(without_underscores(seq!['_']) =~= Seq::<char>::empty()) by {
            reveal_with_fuel(without_underscores, 2);
        }
        assert(Seq::<char>::empty() + without_underscores(d) =~= without_underscores(d));
    }
}

proof fn lemma_strip_trailing_shape(s: Seq<char>)
    requires
        no_double_underscore(s),
    ensures
        no_double_underscore(strip_trailing(s, '_')),
        without_underscores(strip_trailing(s, '_')) == without_underscores(s),
    decreases s.len(),
{
    if s.len() > 0 && s.last() == '_' {
        let d = s.drop_last();
        assert forall|k: int| 0 <= k < d.len() - 1 implies !(#[trigger] d[k] == '_' && d[k + 1] == '_') by {
            assert(d[k] == s[k] && d[k + 1] == s[k + 1]);
        }
        lemma_strip_trailing_shape(d);
    }
}

/// Slugifying a slug changes nothing; no two `_` are adjacent in a slug; and
/// with its `_` left out a slug is the name's ASCII letters and digits,
/// lowercased, in order.
pub proof fn law_slug_shape(name: Seq<char>)
    ensures
        no_double_underscore(slug(name)),
        without_underscores(slug(name)) == lower_alnums(name),
        slug(slug(name)) == slug(name),
{
    let raw = slug_raw(name).0;
    lemma_slug_raw_shape(name);
    lemma_strip_leading_shape(raw);
    lemma_strip_trailing_shape(strip_leading(raw, '_'));
    let x = slug(name);
    law_slug_characters(name);
    lemma_slug_fixed(x, x.len() as int);
    assert(x.take(x.len() as int) =~= x);
}

/// A slug is its own raw slug, prefix by prefix.
proof fn lemma_slug_fixed(x: Seq<char>, k: int)
    requires
        0 <= k <= x.len(),
        forall|q: int| 0 <= q < x.len() ==> slug_char(#[trigger] x[q]),
        no_double_underscore(x),
    ensures
        slug_raw(x.take(k)).0 == x.take(k),
    decreases k,
{
    if k > 0 {
        lemma_slug_fixed(x, k - 1);
        lemma_slug_raw_shape(x.take(k - 1));
        let c = x[k - 1];
        assert(x.take(k).drop_last() =~= x.take(k - 1));
        assert(x.take(k).last() == c);
        assert(slug_char(c));
        if c == '_' {
            if k >= 2 {
                assert(x.take(k - 1).last() == x[k - 2]);
                assert(!(x[k - 2] == '_' && x[k - 1] == '_'));
            }
        }
        assert(x.take(k - 1).push(c) =~= x.take(k));
    } else {
        assert(x.take(0) =~= Seq::<char>::empty());
    }
}

/// The stem of the last component of a path, as `Path::file_stem` gives it.
pub uninterp spec fn path_stem(path: Seq<char>) -> Option<Seq<char>>;

/// `Path::file_stem` of the path written as `path`, as a string. Nothing is
/// stated of which part of the path the stem is: the result is named
/// `path_stem(path)`.
#[verifier::external_body]
fn file_stem_of(path: &str) -> (r: Option<String>)
    ensures
        r is Some <==> path_stem(path@) is Some,
        r matches Some(s) ==> path_stem(path@) == Some(s@),
{
    std::path::Path::new(path).file_stem().and_then(|s| s.to_str()).map(|s| s.to_string())
}

/// `s` with `-` replaced by `_` and ASCII letters lowercased.
pub open spec fn slug_of_stem(s: Seq<char>) -> Seq<char> {
    s.map_values(|c: char| if c == '-' { '_' } else { ascii_lower(c) })
}

/// The slug a test file's name asks for: its stem, with `-` turned into `_`,
/// in lowercase.
pub open spec fn expected_slug(path: Seq<char>) -> Option<Seq<char>> {
    match path_stem(path) {
        Some(stem) => Some(slug_of_stem(stem)),
        None => None,
    }
}

/// The slug a file stem asks for: `-` turned into `_`, ASCII letters
/// lowercased.
pub fn slug_from_stem(stem: &str) -> (r: String)
    ensures
        r@ == slug_of_stem(stem@),
{
    let cs = chars_of(stem);
    let mut out: Vec<char> = Vec::new();
    let mut i: usize = 0;
    while i < cs.len()
        invariant
            i <= cs.len(),
            out@ == slug_of_stem(cs@.take(i as int)),
        decreases cs.len() - i,
    {
        let c = cs[i];
        let d = if c == '-' { '_' } else { to_ascii_lower(c) };
        out.push(d);
        i = i + 1;
        assert(slug_of_stem(cs@.take(i as int)) =~= slug_of_stem(cs@.take((i - 1) as int)).push(d));
    }
    assert(cs@.take(cs.len() as int) == cs@);
    string_from_chars(&out)
}

/// Expected slug derived from a JSON file path (stem, `-` to `_`, lowercase).
pub fn expected_slug_from_path(path: &str) -> (r: Result<String, ValidationError>)
    ensures
        r is Ok <==> expected_slug(path@) is Some,
        r matches Ok(s) ==> expected_slug(path@) == Some(s@),
        r matches Err(e) ==> e matches ValidationError::InvalidFileName { path: p } && p@ == path@,
{
    match file_stem_of(path) {
        Some(stem) => Ok(slug_from_stem(stem.as_str())),
        None => Err(ValidationError::InvalidFileName { path: path.to_string() }),
    }
}

/// Check that `spec.name` slugifies to the slug of the file name.
pub fn validate_test_name(spec: &TestSpec, path: &str) -> (r: Result<(), ValidationError>)
    ensures
        r is Ok <==> expected_slug(path@) == Some(slug(spec.name@)),
        r matches Err(e) ==> match expected_slug(path@) {
            None => e matches ValidationError::InvalidFileName { path: p } && p@ == path@,
            Some(exp) => e matches ValidationError::NameMismatch { path: p, name, actual, expected }
                && p@ == path@ && name@ == spec.name@ && actual@ == slug(spec.name@) && expected@ == exp,
        },
{
    let expected = expected_slug_from_path(path)?;
    let actual = slugify_test_name(spec.name.as_str());
    if actual == expected {
        return Ok(());
    }
    Err(ValidationError::NameMismatch {
        path: path.to_string(),
        name: spec.name.clone(),
        actual,
        expected,
    })
}

/// Whether a region contains the origin on every axis.
pub open spec fn region_contains_origin(r: [[i32; 3]; 2]) -> bool {
    &&& r[0][0] <= 0 && r[1][0] >= 0
    &&& r[0][1] <= 0 && r[1][1] >= 0
    &&& r[0][2] <= 0 && r[1][2] >= 0
}

/// A region contains the origin exactly when, on each of the three axes, its
/// least coordinate is at most 0 and its greatest at least 0.
pub proof fn law_origin_on_every_axis(r: [[i32; 3]; 2])
    ensures
        region_contains_origin(r) <==> forall|a: int| 0 <= a < 3 ==> r[0][a] <= 0 && 0 <= #[trigger] r[1][a],
{
    if forall|a: int| 0 <= a < 3 ==> r[0][a] <= 0 && 0 <= #[trigger] r[1][a] {
        assert(r[1][0] >= 0 && r[1][1] >= 0 && r[1][2] >= 0);
    }
}

/// Check that the cleanup region is anchored around the world origin. A test
/// without a cleanup region is refused by `requires`.
pub fn validate_cleanup_region_contains_origin(spec: &TestSpec) -> (r: Result<(), ValidationError>)
    requires
        spec_cleanup_region(*spec) is Some,
    ensures
        r is Ok <==> region_contains_origin(spec_cleanup_region(*spec)->0),
        r is Ok <==> forall|a: int|
            0 <= a < 3 ==> spec_cleanup_region(*spec)->0[0][a] <= 0 && 0 <= #[trigger] spec_cleanup_region(*spec)->0[1][a],
        r matches Err(e) ==> e matches ValidationError::RegionAwayFromOrigin { name, min, max }
            && name@ == spec.name@ && min == spec_cleanup_region(*spec)->0[0] && max == spec_cleanup_region(*spec)->0[1],
{
    let region = spec.cleanup_region();
    let min = region[0];
    let max = region[1];
    proof {
        law_origin_on_every_axis(region);
    }
    if min[0] <= 0 && max[0] >= 0 && min[1] <= 0 && max[1] >= 0 && min[2] <= 0 && max[2] >= 0 {
        return Ok(());
    }
    Err(ValidationError::RegionAwayFromOrigin { name: spec.name.clone(), min, max })
}

/// Everything checked of a loaded test file, in order: the specification
/// itself (without the region size limits), the test name against the file
/// name, the cleanup region around the origin, and timeline order.
pub open spec fn file_accepted(spec: TestSpec, path: Seq<char>) -> bool {
    &&& validation_outcome(spec, false) is None
    &&& expected_slug(path) == Some(slug(spec.name@))
    &&& region_contains_origin(spec_cleanup_region(spec)->0)
    &&& order_violations(spec.timeline@, Seq::empty())
}

/// Validate a test file that has been read and parsed: the specification, its
/// name against the file name at `path`, its cleanup region, its timeline order.
/// The first check that fails gives the error.
pub fn validate_test_file(spec: &TestSpec, path: &str) -> (r: Result<(), ValidationError>)
    ensures
        r is Ok <==> file_accepted(*spec, path@),
        r matches Err(e) ==> if validation_outcome(*spec, false) is Some {
            Some(rejection_of(e)) == validation_outcome(*spec, false) && rejected_name(e) == spec.name@
        } else if expected_slug(path@) != Some(slug(spec.name@)) {
            match expected_slug(path@) {
                None => e matches ValidationError::InvalidFileName { path: p } && p@ == path@,
                Some(exp) => e matches ValidationError::NameMismatch { path: p, name, actual, expected }
                    && p@ == path@ && name@ == spec.name@ && actual@ == slug(spec.name@) && expected@ == exp,
            }
        } else {
            e matches ValidationError::RegionAwayFromOrigin { name, min, max } && name@ == spec.name@
                && min == spec_cleanup_region(*spec)->0[0] && max == spec_cleanup_region(*spec)->0[1]
        },
{
    match spec.validate(false) {
        Ok(()) => {},
        Err(e) => {
            return Err(e);
        },
    }
    match validate_test_name(spec, path) {
        Ok(()) => {},
        Err(e) => {
            return Err(e);
        },
    }
    match validate_cleanup_region_contains_origin(spec) {
        Ok(()) => {},
        Err(e) => {
            return Err(e);
        },
    }
    validate_timeline_order(spec)
}

} // verus!
