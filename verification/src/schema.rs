//! The rule schema: rules, condition trees, actions, rulesets and
//! evaluation requests.
use vstd::prelude::*;
use crate::json::Value;
use crate::text::{chars_of, char_is_white_space, is_white_space, leading_ws, lemma_leading_ws};

verus! {

/// The rule schema version this engine accepts.
pub const ARS_VERSION: u32 = 1;

/// A rule document.
#[derive(Debug)]
pub struct Rule {
    pub ars_version: u32,
    pub id: String,
    pub name: String,
    pub description: Option<String>,
    pub version: u32,
    pub priority: i32,
    pub enabled: bool,
    pub tags: Vec<String>,
    pub extends: Option<String>,
    pub conditions: ConditionGroup,
    pub actions: Vec<Action>,
    /// Free-form metadata, as the members of a JSON object.
    pub metadata: Option<Vec<(String, Value)>>,
}

/// The rules a list of references refers to.
pub open spec fn deref_rules(s: Seq<&Rule>) -> Seq<Rule> {
    s.map_values(|r: &Rule| *r)
}

/// References to every rule of a slice, in order.
pub fn rule_refs(rules: &[Rule]) -> (r: Vec<&Rule>)
    ensures
        deref_rules(r@) == rules@,
{
    let mut refs: Vec<&Rule> = Vec::new();
    let mut i: usize = 0;
    while i < rules.len()
        invariant
            i <= rules@.len(),
            refs@.len() == i,
            deref_rules(refs@) == rules@.take(i as int),
        decreases rules@.len() - i,
    {
        let ghost before = refs@;
        refs.push(&rules[i]);
        proof {
            assert forall|j: int| 0 <= j < i + 1 implies deref_rules(refs@)[j] == rules@.take(i + 1)[j] by {
                if j < i {
                    assert(refs@[j] == before[j]);
                    assert(deref_rules(before)[j] == rules@.take(i as int)[j]);
                } else {
                    assert(*refs@[j] == rules@[i as int]);
                }
            }
            assert(deref_rules(refs@) =~= rules@.take(i + 1));
        }
        i = i + 1;
    }
    assert(rules@.take(i as int) =~= rules@);
    refs
}

/// A rule is enabled unless it says otherwise.
pub fn default_enabled() -> (r: bool)
    ensures
        r,
{
    true
}

/// A condition group: exactly one logical operator over child nodes.
#[derive(Debug)]
pub enum ConditionGroup {
    All(AllGroup),
    Any(AnyGroup),
    NoneOf(NoneGroup),
    Not(NotGroup),
}

#[derive(Debug)]
pub struct AllGroup {
    pub all: Vec<ConditionNode>,
}

#[derive(Debug)]
pub struct AnyGroup {
    pub any: Vec<ConditionNode>,
}

#[derive(Debug)]
pub struct NoneGroup {
    pub none: Vec<ConditionNode>,
}

#[derive(Debug)]
pub struct NotGroup {
    pub not: Box<ConditionNode>,
}

/// A condition node: a nested group or a leaf comparison.
#[derive(Debug)]
pub enum ConditionNode {
    Group(ConditionGroup),
    Leaf(LeafCondition),
}

/// A leaf comparison of a context field.
#[derive(Debug, Clone)]
pub struct LeafCondition {
    pub field: String,
    pub operator: Operator,
    /// Static value for most operators.
    pub value: Option<Value>,
    /// Cross-field comparison: compare `field` with the context at `field2`.
    pub field2: Option<String>,
}

/// Condition operators.
#[derive(Debug, Clone, Copy, PartialEq, Eq, Structural)]
pub enum Operator {
    Eq,
    Neq,
    Gt,
    Gte,
    Lt,
    Lte,
    Contains,
    StartsWith,
    EndsWith,
    Matches,
    In,
    NotIn,
    Between,
    Outside,
    DivisibleBy,
    IsNull,
    IsNotNull,
    IsEmpty,
    IsNotEmpty,
    Before,
    After,
    WithinDays,
    IsWeekday,
    IsWeekend,
    ContainsAny,
    ContainsAll,
    LengthEq,
    LengthGt,
    LengthLt,
    IsType,
    FieldGtField,
    FieldEqField,
}

/// An action of a rule.
#[derive(Debug, Clone)]
pub enum Action {
    SetField { field: String, value: ActionValue },
    Increment { field: String, value: Option<Value> },
    Append { field: String, value: ActionValue },
    Tag { value: String },
    Trigger { event: String },
    CallRule { rule_id: String },
    Return { value: Option<ActionValue> },
    Log { level: LogLevel, message: String },
}

/// An action value: a template expression (`{{ ... }}`) or a JSON literal.
#[derive(Debug, Clone)]
pub enum ActionValue {
    Template(String),
    Literal(Value),
}

/// `s.trim_start().starts_with("{{")`.
pub open spec fn starts_template(s: Seq<char>) -> bool {
    let i = leading_ws(s) as int;
    i + 1 < s.len() && s[i] == '{' && s[i + 1] == '{'
}

impl ActionValue {
    /// A template value is text whose first non-blank characters are `{{`.
    pub fn is_template(&self) -> (r: bool)
        ensures
            r == (match self {
                ActionValue::Template(s) => starts_template(s@),
                _ => false,
            }),
    {
        match self {
            ActionValue::Template(s) => {
                let cs = chars_of(s.as_str());
                let n = cs.len();
                let mut i: usize = 0;
                while i < n && char_is_white_space(cs[i])
                    invariant
                        n == cs@.len(),
                        cs@ == s@,
                        i <= n,
                        forall|k: int| 0 <= k < i ==> is_white_space(#[trigger] cs@[k]),
                    decreases n - i,
                {
                    i = i + 1;
                }
                proof {
                    lemma_leading_ws(s@, i as int);
                }
                i < n && n - i > 1 && cs[i] == '{' && cs[i + 1] == '{'
            },
            _ => false,
        }
    }
}

/// Log levels of the `log` action.
#[derive(Debug, Clone, Copy, PartialEq, Eq, Structural)]
pub enum LogLevel {
    Debug,
    Info,
    Warn,
}

/// A named group of rules.
#[derive(Debug, Clone)]
pub struct Ruleset {
    pub name: String,
    pub rule_ids: Vec<String>,
    pub description: Option<String>,
}

/// Evaluation strategies.
#[derive(Debug, Clone, Copy, PartialEq, Eq, Structural)]
pub enum Strategy {
    /// Stop at the first matching rule.
    FirstMatch,
    /// Evaluate every rule and collect all matches.
    AllMatch,
    /// Score every rule by the share of its top-level condition nodes that
    /// hold; keep rules with a positive score, best first.
    Scored,
}

impl Default for Strategy {
    fn default() -> (r: Strategy)
        ensures
            r == Strategy::FirstMatch,
    {
        Strategy::FirstMatch
    }
}

/// An evaluation request.
#[derive(Debug, Clone)]
pub struct EvaluationRequest {
    pub rule_id: Option<String>,
    pub ruleset: Option<String>,
    pub strategy: Strategy,
    pub dry_run: bool,
    pub timeout_ms: Option<u64>,
    pub context: Value,
}

impl EvaluationRequest {
    /// A request with every field at its default: all enabled rules,
    /// first-match, no dry run, no time budget, `null` context.
    pub fn new() -> (r: EvaluationRequest)
        ensures
            r.rule_id is None,
            r.ruleset is None,
            r.strategy == Strategy::FirstMatch,
            !r.dry_run,
            r.timeout_ms is None,
            r.context is Null,
    {
        EvaluationRequest {
            rule_id: None,
            ruleset: None,
            strategy: Strategy::FirstMatch,
            dry_run: false,
            timeout_ms: None,
            context: Value::Null,
        }
    }
}

/// The response to an evaluation request.
#[derive(Debug, Clone)]
pub struct EvaluationResponse {
    pub matched: bool,
    pub matched_rules: Vec<String>,
    pub tags: Vec<String>,
    pub output_context: Value,
    pub duration_us: u64,
    pub trace: crate::trace::EvaluationTrace,
}

} // verus!
