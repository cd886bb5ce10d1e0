//! Why a test specification was rejected, and the message that says so.
use vstd::prelude::*;

use crate::text::{int_decimal, push_int, push_str, push_u64};
use crate::timeline_validation::TimelineOrderViolation;

verus! {

/// A reason a test specification or test file is rejected.
#[derive(Debug, Clone)]
pub enum ValidationError {
    /// The test has no `setup` section.
    MissingSetup { name: String },
    /// The setup has no `cleanup` section.
    MissingCleanup { name: String },
    /// Some minimum coordinate of the cleanup region exceeds its maximum.
    InvalidCleanupRegion { name: String, min: [i32; 3], max: [i32; 3] },
    /// The cleanup region is wider than allowed.
    RegionTooWide { name: String, width: i32 },
    /// The cleanup region is taller than allowed.
    RegionTooTall { name: String, height: i32 },
    /// The cleanup region is deeper than allowed.
    RegionTooDeep { name: String, depth: i32 },
    /// A position the timeline touches lies outside the cleanup region.
    PositionOutsideRegion { name: String, pos: [i32; 3], min: [i32; 3], max: [i32; 3] },
    /// Asserts come after other actions on the same tick.
    TimelineOrder { name: String, violations: Vec<TimelineOrderViolation> },
    /// The test file path has no usable file name.
    InvalidFileName { path: String },
    /// The test name does not match its file name.
    NameMismatch { path: String, name: String, actual: String, expected: String },
    /// The cleanup region does not contain the world origin.
    RegionAwayFromOrigin { name: String, min: [i32; 3], max: [i32; 3] },
}

/// `[x,y,z]` written as `x,y,z`.
pub open spec fn triple_text(p: [i32; 3]) -> Seq<char> {
    int_decimal(p[0] as int) + ","@ + int_decimal(p[1] as int) + ","@ + int_decimal(p[2] as int)
}

/// One line of the timeline ordering report.
pub open spec fn violation_line(v: TimelineOrderViolation) -> Seq<char> {
    "  tick "@ + int_decimal(v.tick as int) + " at timeline["@ + int_decimal(v.timeline_index as int) + "] ("@
        + v.action@ + ") appears after a non-assert action\n"@
}

pub open spec fn violation_lines(vs: Seq<TimelineOrderViolation>) -> Seq<char>
    decreases vs.len(),
{
    if vs.len() == 0 {
        Seq::empty()
    } else {
        violation_lines(vs.drop_last()) + violation_line(vs.last())
    }
}

/// The message of an error, as a user reads it.
pub open spec fn error_message(e: ValidationError) -> Seq<char> {
    match e {
        ValidationError::MissingSetup { name } => "Test '"@ + name@ + "' missing required 'setup' section"@,
        ValidationError::MissingCleanup { name } => "Test '"@ + name@ + "' missing 'cleanup' section"@,
        ValidationError::InvalidCleanupRegion { name, min, max } => "Test '"@ + name@
            + "': Invalid cleanup region - min coordinates must be <= max coordinates. Got min=["@
            + triple_text(min) + "], max=["@ + triple_text(max) + "]"@,
        ValidationError::RegionTooWide { name, width } => "Test '"@ + name@ + "': Cleanup region width "@
            + int_decimal(width as int) + " exceeds maximum 15"@,
        ValidationError::RegionTooTall { name, height } => "Test '"@ + name@ + "': Cleanup region height "@
            + int_decimal(height as int) + " exceeds maximum 384"@,
        ValidationError::RegionTooDeep { name, depth } => "Test '"@ + name@ + "': Cleanup region depth "@
            + int_decimal(depth as int) + " exceeds maximum 15"@,
        ValidationError::PositionOutsideRegion { name, pos, min, max } => "Test '"@ + name@ + "': Position ["@
            + triple_text(pos) + "] is outside cleanup region ["@ + triple_text(min) + "] to ["@ + triple_text(max)
            + "]"@,
        ValidationError::TimelineOrder { name, violations } => "Test '"@ + name@
            + "': timeline ordering violations (assert must come before other actions on the same tick):\n"@
            + violation_lines(violations@)
            + "Move post-mutation asserts to a later tick, or reorder entries so asserts come first."@,
        ValidationError::InvalidFileName { path } => "invalid test file name: "@ + path@,
        ValidationError::NameMismatch { path, name, actual, expected } => "Test name mismatch in "@ + path@
            + ": name '"@ + name@ + "' slugs to '"@ + actual@ + "', expected '"@ + expected@ + "' from file name"@,
        ValidationError::RegionAwayFromOrigin { name, min, max } => "Test '"@ + name@ + "': cleanup region ["@
            + triple_text(min) + "] to ["@ + triple_text(max) + "] must contain the origin [0,0,0]"@,
    }
}

pub fn push_triple(s: &mut String, p: [i32; 3])
    ensures
        final(s)@ == old(s)@ + triple_text(p),
{
    push_int(s, p[0] as i64);
    push_str(s, ",");
    push_int(s, p[1] as i64);
    push_str(s, ",");
    push_int(s, p[2] as i64);
}

impl ValidationError {
    /// The message of this error.
    pub fn message(&self) -> (r: String)
        ensures
            r@ == error_message(*self),
    {
        let mut s = String::new();
        match self {
            ValidationError::MissingSetup { name } => {
                push_str(&mut s, "Test '");
                push_str(&mut s, name.as_str());
                push_str(&mut s, "' missing required 'setup' section");
            },
            ValidationError::MissingCleanup { name } => {
                push_str(&mut s, "Test '");
                push_str(&mut s, name.as_str());
                push_str(&mut s, "' missing 'cleanup' section");
            },
            ValidationError::InvalidCleanupRegion { name, min, max } => {
                push_str(&mut s, "Test '");
                push_str(&mut s, name.as_str());
                push_str(&mut s, "': Invalid cleanup region - min coordinates must be <= max coordinates. Got min=[");
                push_triple(&mut s, *min);
                push_str(&mut s, "], max=[");
                push_triple(&mut s, *max);
                push_str(&mut s, "]");
            },
            ValidationError::RegionTooWide { name, width } => {
                push_str(&mut s, "Test '");
                push_str(&mut s, name.as_str());
                push_str(&mut s, "': Cleanup region width ");
                push_int(&mut s, *width as i64);
                push_str(&mut s, " exceeds maximum 15");
            },
            ValidationError::RegionTooTall { name, height } => {
                push_str(&mut s, "Test '");
                push_str(&mut s, name.as_str());
                push_str(&mut s, "': Cleanup region height ");
                push_int(&mut s, *height as i64);
                push_str(&mut s, " exceeds maximum 384");
            },
            ValidationError::RegionTooDeep { name, depth } => {
                push_str(&mut s, "Test '");
                push_str(&mut s, name.as_str());
                push_str(&mut s, "': Cleanup region depth ");
                push_int(&mut s, *depth as i64);
                push_str(&mut s, " exceeds maximum 15");
            },
            ValidationError::PositionOutsideRegion { name, pos, min, max } => {
                push_str(&mut s, "Test '");
                push_str(&mut s, name.as_str());
                push_str(&mut s, "': Position [");
                push_triple(&mut s, *pos);
                push_str(&mut s, "] is outside cleanup region [");
                push_triple(&mut s, *min);
                push_str(&mut s, "] to [");
                push_triple(&mut s, *max);
                push_str(&mut s, "]");
            },
            ValidationError::TimelineOrder { name, violations } => {
                push_str(&mut s, "Test '");
                push_str(&mut s, name.as_str());
                push_str(
                    &mut s,
                    "': timeline ordering violations (assert must come before other actions on the same tick):\n",
                );
                let ghost head = s@;
                let mut i: usize = 0;
                while i < violations.len()
                    invariant
                        i <= violations.len(),
                        s@ == head + violation_lines(violations@.take(i as int)),
                    decreases violations.len() - i,
                {
                    let v = &violations[i];
                    push_str(&mut s, "  tick ");
                    push_u64(&mut s, v.tick as u64);
                    push_str(&mut s, " at timeline[");
                    push_u64(&mut s, v.timeline_index as u64);
                    push_str(&mut s, "] (");
                    push_str(&mut s, v.action);
                    push_str(&mut s, ") appears after a non-assert action\n");
                    assert(violations@.take(i + 1).drop_last() =~= violations@.take(i as int));
                    i = i + 1;
                }
                assert(violations@.take(violations.len() as int) == violations@);
                push_str(
                    &mut s,
                    "Move post-mutation asserts to a later tick, or reorder entries so asserts come first.",
                );
            },
            ValidationError::InvalidFileName { path } => {
                push_str(&mut s, "invalid test file name: ");
                push_str(&mut s, path.as_str());
            },
            ValidationError::NameMismatch { path, name, actual, expected } => {
                push_str(&mut s, "Test name mismatch in ");
                push_str(&mut s, path.as_str());
                push_str(&mut s, ": name '");
                push_str(&mut s, name.as_str());
                push_str(&mut s, "' slugs to '");
                push_str(&mut s, actual.as_str());
                push_str(&mut s, "', expected '");
                push_str(&mut s, expected.as_str());
                push_str(&mut s, "' from file name");
            },
            ValidationError::RegionAwayFromOrigin { name, min, max } => {
                push_str(&mut s, "Test '");
                push_str(&mut s, name.as_str());
                push_str(&mut s, "': cleanup region [");
                push_triple(&mut s, *min);
                push_str(&mut s, "] to [");
                push_triple(&mut s, *max);
                push_str(&mut s, "] must contain the origin [0,0,0]");
            },
        }
        s
    }
}

} // verus!
