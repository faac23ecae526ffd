//! Errors of parsing, the registry and evaluation.
use vstd::prelude::*;
use crate::text::{push_str, push_nat, nat_text};

verus! {

/// Errors of reading a rule document.
#[derive(Debug, Clone)]
pub enum ParseError {
    /// The YAML text could not be read; the reader's message.
    Yaml(String),
    /// The JSON text could not be read; the reader's message.
    Json(String),
    /// A field breaks a schema rule.
    Schema { field: String, message: String },
    /// The document declares another schema version.
    ArsVersion { got: u32, expected: u32 },
    /// A `not` group was given a list of children.
    NotGroupArray,
}

/// Errors of the rule registry.
#[derive(Debug, Clone)]
pub enum RegistryError {
    NotFound(String),
    RulesetNotFound(String),
    CyclicRuleDependency { cycle: String },
    UnresolvedRuleReference(String),
    /// A chain of more `call_rule` calls than the depth limit starts at
    /// this rule.
    CallChainTooDeep { rule_id: String, limit: usize },
}

/// Errors of evaluation.
#[derive(Debug, Clone)]
pub enum EvaluationError {
    Registry(RegistryError),
    Resolver { path: String, message: String },
    Expression(String),
    Overflow,
    CallDepthExceeded { limit: usize },
    Timeout { budget_ms: u64 },
    Action(String),
}

/// View of a registry error.
pub enum RegistryErrorView {
    NotFound(Seq<char>),
    RulesetNotFound(Seq<char>),
    CyclicRuleDependency(Seq<char>),
    UnresolvedRuleReference(Seq<char>),
    CallChainTooDeep(Seq<char>, nat),
}

/// View of an evaluation error.
pub enum EvalErrorView {
    Registry(RegistryErrorView),
    Resolver(Seq<char>, Seq<char>),
    Expression(Seq<char>),
    Overflow,
    CallDepthExceeded(nat),
    Timeout(nat),
    Action(Seq<char>),
}

impl View for RegistryError {
    type V = RegistryErrorView;

    open spec fn view(&self) -> RegistryErrorView {
        match self {
            RegistryError::NotFound(s) => RegistryErrorView::NotFound(s@),
            RegistryError::RulesetNotFound(s) => RegistryErrorView::RulesetNotFound(s@),
            RegistryError::CyclicRuleDependency { cycle } => RegistryErrorView::CyclicRuleDependency(
                cycle@,
            ),
            RegistryError::UnresolvedRuleReference(s) => RegistryErrorView::UnresolvedRuleReference(
                s@,
            ),
            RegistryError::CallChainTooDeep { rule_id, limit } => RegistryErrorView::CallChainTooDeep(
                rule_id@,
                *limit as nat,
            ),
        }
    }
}

impl View for EvaluationError {
    type V = EvalErrorView;

    open spec fn view(&self) -> EvalErrorView {
        match self {
            EvaluationError::Registry(e) => EvalErrorView::Registry(e@),
            EvaluationError::Resolver { path, message } => EvalErrorView::Resolver(path@, message@),
            EvaluationError::Expression(s) => EvalErrorView::Expression(s@),
            EvaluationError::Overflow => EvalErrorView::Overflow,
            EvaluationError::CallDepthExceeded { limit } => EvalErrorView::CallDepthExceeded(
                *limit as nat,
            ),
            EvaluationError::Timeout { budget_ms } => EvalErrorView::Timeout(*budget_ms as nat),
            EvaluationError::Action(s) => EvalErrorView::Action(s@),
        }
    }
}

/// Human-readable text of a registry error.
pub open spec fn registry_error_text(e: RegistryErrorView) -> Seq<char> {
    match e {
        RegistryErrorView::NotFound(s) => "Rule not found: "@ + s,
        RegistryErrorView::RulesetNotFound(s) => "Ruleset not found: "@ + s,
        RegistryErrorView::CyclicRuleDependency(c) => "Cyclic rule dependency detected: "@ + c,
        RegistryErrorView::UnresolvedRuleReference(s) => "Unresolved rule reference in call_rule: '"@
            + s + "'"@,
        RegistryErrorView::CallChainTooDeep(id, l) => "call_rule chain from '"@ + id
            + "' exceeds the depth limit ("@ + nat_text(l) + ")"@,
    }
}

impl RegistryError {
    /// The error's message.
    pub fn message(&self) -> (r: String)
        ensures
            r@ == registry_error_text(self@),
    {
        let mut out = String::new();
        match self {
            RegistryError::NotFound(s) => {
                push_str(&mut out, "Rule not found: ");
                push_str(&mut out, s.as_str());
            },
            RegistryError::RulesetNotFound(s) => {
                push_str(&mut out, "Ruleset not found: ");
                push_str(&mut out, s.as_str());
            },
            RegistryError::CyclicRuleDependency { cycle } => {
                push_str(&mut out, "Cyclic rule dependency detected: ");
                push_str(&mut out, cycle.as_str());
            },
            RegistryError::UnresolvedRuleReference(s) => {
                push_str(&mut out, "Unresolved rule reference in call_rule: '");
                push_str(&mut out, s.as_str());
                push_str(&mut out, "'");
            },
            RegistryError::CallChainTooDeep { rule_id, limit } => {
                push_str(&mut out, "call_rule chain from '");
                push_str(&mut out, rule_id.as_str());
                push_str(&mut out, "' exceeds the depth limit (");
                push_nat(&mut out, *limit as u128);
                push_str(&mut out, ")");
            },
        }
        assert(out@ =~= registry_error_text(self@));
        out
    }
}

/// Human-readable text of an evaluation error.
pub open spec fn eval_error_text(e: EvalErrorView) -> Seq<char> {
    match e {
        EvalErrorView::Registry(r) => "Registry error: "@ + registry_error_text(r),
        EvalErrorView::Resolver(p, m) => "Resolver error at path '"@ + p + "': "@ + m,
        EvalErrorView::Expression(s) => "Expression error: "@ + s,
        EvalErrorView::Overflow => "Arithmetic overflow in expression"@,
        EvalErrorView::CallDepthExceeded(l) => "call_rule depth limit ("@ + nat_text(l)
            + ") exceeded"@,
        EvalErrorView::Timeout(b) => "Evaluation timed out after "@ + nat_text(b) + " ms"@,
        EvalErrorView::Action(s) => "Action error: "@ + s,
    }
}

impl EvaluationError {
    /// The error's message.
    pub fn message(&self) -> (r: String)
        ensures
            r@ == eval_error_text(self@),
    {
        let mut out = String::new();
        match self {
            EvaluationError::Registry(e) => {
                push_str(&mut out, "Registry error: ");
                let m = e.message();
                push_str(&mut out, m.as_str());
            },
            EvaluationError::Resolver { path, message } => {
                push_str(&mut out, "Resolver error at path '");
                push_str(&mut out, path.as_str());
                push_str(&mut out, "': ");
                push_str(&mut out, message.as_str());
            },
            EvaluationError::Expression(s) => {
                push_str(&mut out, "Expression error: ");
                push_str(&mut out, s.as_str());
            },
            EvaluationError::Overflow => {
                push_str(&mut out, "Arithmetic overflow in expression");
            },
            EvaluationError::CallDepthExceeded { limit } => {
                push_str(&mut out, "call_rule depth limit (");
                push_nat(&mut out, *limit as u128);
                push_str(&mut out, ") exceeded");
            },
            EvaluationError::Timeout { budget_ms } => {
                push_str(&mut out, "Evaluation timed out after ");
                push_nat(&mut out, *budget_ms as u128);
                push_str(&mut out, " ms");
            },
            EvaluationError::Action(s) => {
                push_str(&mut out, "Action error: ");
                push_str(&mut out, s.as_str());
            },
        }
        assert(out@ =~= eval_error_text(self@));
        out
    }
}

/// View of a parse error.
pub enum ParseErrorView {
    Yaml(Seq<char>),
    Json(Seq<char>),
    Schema(Seq<char>, Seq<char>),
    ArsVersion(u32, u32),
    NotGroupArray,
}

impl View for ParseError {
    type V = ParseErrorView;

    open spec fn view(&self) -> ParseErrorView {
        match self {
            ParseError::Yaml(s) => ParseErrorView::Yaml(s@),
            ParseError::Json(s) => ParseErrorView::Json(s@),
            ParseError::Schema { field, message } => ParseErrorView::Schema(field@, message@),
            ParseError::ArsVersion { got, expected } => ParseErrorView::ArsVersion(*got, *expected),
            ParseError::NotGroupArray => ParseErrorView::NotGroupArray,
        }
    }
}

/// Human-readable text of a parse error.
pub open spec fn parse_error_text(e: ParseErrorView) -> Seq<char> {
    match e {
        ParseErrorView::Yaml(s) => "YAML parse error: "@ + s,
        ParseErrorView::Json(s) => "JSON parse error: "@ + s,
        ParseErrorView::Schema(f, m) => "Schema validation error at '"@ + f + "': "@ + m,
        ParseErrorView::ArsVersion(g, x) => "Unsupported ARS version "@ + nat_text(g as nat)
            + ", expected "@ + nat_text(x as nat),
        ParseErrorView::NotGroupArray =>
            "'not' group must have exactly one child; use 'none' for multi-child NOR"@,
    }
}

impl ParseError {
    /// The error's message.
    pub fn message(&self) -> (r: String)
        ensures
            r@ == parse_error_text(self@),
    {
        let mut out = String::new();
        match self {
            ParseError::Yaml(s) => {
                push_str(&mut out, "YAML parse error: ");
                push_str(&mut out, s.as_str());
            },
            ParseError::Json(s) => {
                push_str(&mut out, "JSON parse error: ");
                push_str(&mut out, s.as_str());
            },
            ParseError::Schema { field, message } => {
                push_str(&mut out, "Schema validation error at '");
                push_str(&mut out, field.as_str());
                push_str(&mut out, "': ");
                push_str(&mut out, message.as_str());
            },
            ParseError::ArsVersion { got, expected } => {
                push_str(&mut out, "Unsupported ARS version ");
                push_nat(&mut out, *got as u128);
                push_str(&mut out, ", expected ");
                push_nat(&mut out, *expected as u128);
            },
            ParseError::NotGroupArray => {
                push_str(&mut out, "'not' group must have exactly one child; use 'none' for multi-child NOR");
            },
        }
        assert(out@ =~= parse_error_text(self@));
        out
    }
}

} // verus!
