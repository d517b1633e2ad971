//! Rule engine vocabulary: the context a rule sees, what a rule did,
//! and the trace of one engine run.

use vstd::prelude::*;

pub mod commit;
pub mod prediction;
pub mod repeated_letter;

verus! {

/// Which engines a session drives.
#[derive(Copy, Clone, Debug, PartialEq, Eq, Structural)]
pub enum Mode {
    WubiOnly,
    PinyinOnly,
    Mixed,
    JapaneseOnly,
}

/// Flags derived once from the buffer and engine state.
#[derive(Clone, Copy, Debug)]
pub struct ContextFlags {
    /// The buffer holds one of a/e/i/o/u/v.
    pub has_vowel: bool,
    /// The pinyin engine matches the buffer without guessing.
    pub has_non_speculative_pinyin: bool,
    /// Short buffer, a vowel, and a non-speculative pinyin match.
    pub pinyin_intent: bool,
    /// The buffer starts with 'z'.
    pub starts_with_z: bool,
    /// Length of the buffer in bytes.
    pub buffer_len: usize,
}

impl Default for ContextFlags {
    fn default() -> (r: Self)
        ensures
            !r.has_vowel && !r.has_non_speculative_pinyin && !r.pinyin_intent && !r.starts_with_z
                && r.buffer_len == 0,
    {
        ContextFlags {
            has_vowel: false,
            has_non_speculative_pinyin: false,
            pinyin_intent: false,
            starts_with_z: false,
            buffer_len: 0,
        }
    }
}

/// What a rule sees: mode, buffer, the last two committed words, flags.
#[derive(Clone, Debug)]
pub struct Context {
    pub mode: Mode,
    pub buffer: String,
    pub prev_committed: Option<String>,
    pub second_prev_committed: Option<String>,
    pub flags: ContextFlags,
}

/// What a rule did when it ran.
#[derive(Clone, Debug)]
pub enum RuleEffect {
    NoOp,
    Added(usize),
    Removed(usize),
    Filtered { kept: usize, dropped: usize },
    Reranked,
    PromotedToFront(String),
    AutoCommitted { word: String, reason: &'static str },
    Failed(String),
}

/// One rule's row in a trace.
#[derive(Clone, Debug)]
pub struct TraceEntry {
    pub rule_name: &'static str,
    pub priority: i32,
    pub effect: RuleEffect,
    pub elapsed: core::time::Duration,
}

/// The rules of one engine run that fired and that were skipped.
#[derive(Clone, Debug)]
pub struct ExecutionTrace {
    pub fired: Vec<TraceEntry>,
    pub skipped: Vec<TraceEntry>,
    pub total_elapsed: core::time::Duration,
}

/// `Duration` is `Copy`: its `clone` returns the same duration.
pub assume_specification[<core::time::Duration as Clone>::clone](d: &core::time::Duration) -> (r: core::time::Duration)
    ensures
        r == *d,
;

/// `Duration::ZERO`.
#[verifier::external_body]
fn zero_duration() -> core::time::Duration {
    core::time::Duration::ZERO
}

/// Whether some entry of `s` is named `name`.
pub open spec fn names_rule(s: Seq<TraceEntry>, name: Seq<char>) -> bool {
    exists|i: int| 0 <= i < s.len() && (#[trigger] s[i]).rule_name@ == name
}

fn any_named(s: &Vec<TraceEntry>, name: &str) -> (r: bool)
    ensures
        r == names_rule(s@, name@),
{
    let mut i: usize = 0;
    while i < s.len()
        invariant
            i <= s@.len(),
            forall|j: int| 0 <= j < i ==> (#[trigger] s@[j]).rule_name@ != name@,
        decreases s@.len() - i,
    {
        if crate::text::str_eq(s[i].rule_name, name) {
            return true;
        }
        i = i + 1;
    }
    false
}

impl Default for ExecutionTrace {
    fn default() -> (r: Self)
        ensures
            r.fired@.len() == 0,
            r.skipped@.len() == 0,
    {
        ExecutionTrace { fired: Vec::new(), skipped: Vec::new(), total_elapsed: zero_duration() }
    }
}

impl ExecutionTrace {
    /// An empty trace.
    pub fn new() -> (r: Self)
        ensures
            r.fired@.len() == 0,
            r.skipped@.len() == 0,
    {
        ExecutionTrace::default()
    }

    /// Whether a rule named `name` fired.
    pub fn rule_fired(&self, name: &str) -> (r: bool)
        ensures
            r == names_rule(self.fired@, name@),
    {
        any_named(&self.fired, name)
    }

    /// Whether a rule named `name` was considered and skipped.
    pub fn rule_skipped(&self, name: &str) -> (r: bool)
        ensures
            r == names_rule(self.skipped@, name@),
    {
        any_named(&self.skipped, name)
    }
}

/// What every rule has: a stable name and a priority (lower runs
/// earlier).
pub trait Rule: Send + Sync {
    /// The priority the rule reports.
    spec fn priority_spec(&self) -> i32;

    fn name(&self) -> &'static str;

    fn priority(&self) -> (r: i32)
        ensures
            r == self.priority_spec(),
    ;
}

} // verus!
