//! Evaluation traces: what each rule and each condition did.
use vstd::prelude::*;
use crate::json::{Value, JValue};
use crate::schema::Strategy;

verus! {

/// The trace of one evaluation.
#[derive(Debug, Clone)]
pub struct EvaluationTrace {
    pub rules_evaluated: usize,
    pub rules_matched: usize,
    pub strategy: Strategy,
    pub total_duration_us: u64,
    pub timed_out: bool,
    pub rules: Vec<RuleTrace>,
}

/// The trace of one rule.
#[derive(Debug, Clone)]
pub struct RuleTrace {
    pub rule_id: String,
    pub matched: bool,
    pub conditions: Vec<ConditionTrace>,
    pub short_circuited: bool,
    pub actions_executed: Vec<String>,
    pub duration_us: u64,
}

/// The trace of one leaf condition.
#[derive(Debug, Clone)]
pub struct ConditionTrace {
    pub field: String,
    pub operator: String,
    pub value: Value,
    pub actual_value: Value,
    pub passed: bool,
    pub duration_us: u64,
}

/// View of a condition trace. A leaf condition is not timed on its own:
/// its duration is 0.
pub struct ConditionTraceView {
    pub field: Seq<char>,
    pub operator: Seq<char>,
    pub value: JValue,
    pub actual_value: JValue,
    pub passed: bool,
    pub duration_us: u64,
}

/// View of a rule trace.
pub struct RuleTraceView {
    pub rule_id: Seq<char>,
    pub matched: bool,
    pub conditions: Seq<ConditionTraceView>,
    pub short_circuited: bool,
    pub actions_executed: Seq<Seq<char>>,
}

impl View for ConditionTrace {
    type V = ConditionTraceView;

    open spec fn view(&self) -> ConditionTraceView {
        ConditionTraceView {
            field: self.field@,
            operator: self.operator@,
            value: self.value@,
            actual_value: self.actual_value@,
            passed: self.passed,
            duration_us: self.duration_us,
        }
    }
}

/// Views of a list of strings.
pub open spec fn string_views(s: Seq<String>) -> Seq<Seq<char>> {
    s.map_values(|x: String| x@)
}

/// Views of a list of condition traces.
pub open spec fn condition_views(s: Seq<ConditionTrace>) -> Seq<ConditionTraceView> {
    s.map_values(|x: ConditionTrace| x@)
}

impl View for RuleTrace {
    type V = RuleTraceView;

    open spec fn view(&self) -> RuleTraceView {
        RuleTraceView {
            rule_id: self.rule_id@,
            matched: self.matched,
            conditions: condition_views(self.conditions@),
            short_circuited: self.short_circuited,
            actions_executed: string_views(self.actions_executed@),
        }
    }
}

/// Views of a list of rule traces.
pub open spec fn rule_trace_views(s: Seq<RuleTrace>) -> Seq<RuleTraceView> {
    s.map_values(|x: RuleTrace| x@)
}

/// Collects the trace of one rule while it is evaluated.
pub struct RuleTraceBuilder {
    pub rule_id: String,
    pub start_us: u64,
    pub conditions: Vec<ConditionTrace>,
    pub actions_executed: Vec<String>,
    pub short_circuited: bool,
}

impl RuleTraceBuilder {
    /// An empty trace of rule `rule_id` started at `start_us`.
    pub fn new(rule_id: &str, start_us: u64) -> (r: RuleTraceBuilder)
        ensures
            r.rule_id@ == rule_id@,
            r.start_us == start_us,
            r.conditions@.len() == 0,
            r.actions_executed@.len() == 0,
            !r.short_circuited,
    {
        RuleTraceBuilder {
            rule_id: crate::text::owned(rule_id),
            start_us,
            conditions: Vec::new(),
            actions_executed: Vec::new(),
            short_circuited: false,
        }
    }

    /// The finished trace; its duration is `end_us - start_us`, or 0 if the
    /// clock went back.
    pub fn finish(self, matched: bool, end_us: u64) -> (r: RuleTrace)
        ensures
            r.rule_id@ == self.rule_id@,
            r.matched == matched,
            r.conditions@ == self.conditions@,
            r.short_circuited == self.short_circuited,
            r.actions_executed@ == self.actions_executed@,
            r.duration_us == (if end_us >= self.start_us {
                end_us - self.start_us
            } else {
                0
            }),
    {
        RuleTrace {
            rule_id: self.rule_id,
            matched,
            conditions: self.conditions,
            short_circuited: self.short_circuited,
            actions_executed: self.actions_executed,
            duration_us: end_us.saturating_sub(self.start_us),
        }
    }
}

} // verus!
