//! The data the tool works over: snapshot records, scored candidates,
//! sort directives, and the display label of a record.
use crate::text::{i32_to_string, spec_dec_i32};
use vstd::prelude::*;

verus! {

/// Scores are held as integers scaled by this factor: a similarity of
/// one maps to `SCORE_SCALE`, so the unit interval is carried in
/// millionths.
pub const SCORE_SCALE: u32 = 1000000;

/// A candidate enters ranked output only with a score strictly above
/// this bound (seven tenths, scaled).
pub const SCORE_THRESHOLD: u32 = 700000;

/// One process captured in the snapshot: identifier, executable name,
/// and resident memory in bytes at capture time.
pub struct ProcessRecord {
    pub pid: i32,
    pub name: String,
    pub memory_bytes: u64,
}

/// A record together with the score a query gave it.
pub struct ScoredCandidate {
    pub score: u32,
    pub pid: i32,
    pub name: String,
    pub memory_bytes: u64,
}

/// How a query asks its results to be ordered.
#[derive(Clone, Copy, PartialEq, Eq, Structural, Debug)]
pub enum SortDirective {
    ByScore,
    ByMemory,
    ByCpuTime,
}

/// The display label of a record: its pid in decimal, a separating
/// dash, and its name.
pub open spec fn spec_entry_label(pid: int, name: Seq<char>) -> Seq<char> {
    spec_dec_i32(pid) + " - "@ + name
}

/// Builds the display label `<pid> - <name>`.
pub fn entry_label(pid: i32, name: &str) -> (r: String)
    ensures
        r@ == spec_entry_label(pid as int, name@),
{
    let mut s = i32_to_string(pid);
    s.append(" - ");
    s.append(name);
    proof {
        assert(s@ =~= spec_entry_label(pid as int, name@));
    }
    s
}

/// The CPU time a candidate is ranked by: the looked-up duration, or
/// zero when the lookup failed, so a failed lookup never drops the
/// candidate.
pub fn cpu_time_value(lookup: Option<u64>) -> (r: u64)
    ensures
        r == (match lookup {
            Some(t) => t,
            None => 0u64,
        }),
{
    match lookup {
        Some(t) => t,
        None => 0,
    }
}

} // verus!
