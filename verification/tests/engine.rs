use axiom_core::call_rule_guard::{check_depth, validate_ruleset};
use axiom_core::error::{EvaluationError, RegistryError};
use axiom_core::evaluator::{evaluate, get_path, merge_output, set_path, EvalConfig};
use axiom_core::expression::{eval_template, extract_template};
use axiom_core::json::{apply_patch, values_equal, Value};
use axiom_core::number::Number;
use axiom_core::operators::{apply, apply_at};
use axiom_core::registry::{Registry, RuleFilter};
use axiom_core::resolver::resolve_path;
use axiom_core::schema::{
    Action, ActionValue, AllGroup, AnyGroup, ConditionGroup, ConditionNode, EvaluationRequest,
    LeafCondition, NotGroup, Operator, Rule, Ruleset, Strategy,
};

// ---------------------------------------------------------------------------
// Value builders
// ---------------------------------------------------------------------------

fn num(n: i64) -> Value {
    Value::Number(Number::from_i64(n))
}

fn float(num: i64, den: u64) -> Value {
    Value::Number(Number::from_ratio(num, den, true).unwrap())
}

fn text(s: &str) -> Value {
    Value::String(s.to_string())
}

/// An object; members are given in key order.
fn obj(members: Vec<(&str, Value)>) -> Value {
    Value::Object(members.into_iter().map(|(k, v)| (k.to_string(), v)).collect())
}

fn arr(items: Vec<Value>) -> Value {
    Value::Array(items)
}

fn same(a: &Value, b: &Value) -> bool {
    values_equal(a, b)
}

fn leaf(field: &str, op: Operator, value: Option<Value>) -> ConditionNode {
    ConditionNode::Leaf(LeafCondition { field: field.to_string(), operator: op, value, field2: None })
}

fn make_rule(id: &str, priority: i32, conditions: ConditionGroup, actions: Vec<Action>) -> Rule {
    Rule {
        ars_version: 1,
        id: id.to_string(),
        name: id.to_string(),
        description: None,
        version: 1,
        priority,
        enabled: true,
        tags: vec![],
        extends: None,
        conditions,
        actions,
        metadata: None,
    }
}

fn all(nodes: Vec<ConditionNode>) -> ConditionGroup {
    ConditionGroup::All(AllGroup { all: nodes })
}

fn run(rules: &[Rule], context: &Value, strategy: Strategy) -> (Vec<String>, Vec<String>) {
    let lookup: Vec<&Rule> = Vec::new();
    let cfg = EvalConfig {
        strategy: &strategy,
        dry_run: false,
        timeout_ms: None,
        max_call_depth: 8,
        rule_lookup: &lookup,
        now: (0, 0),
    };
    let (_, _, matched, tags, _) = evaluate(rules, context, &cfg).unwrap();
    (matched, tags)
}

fn dummy_rule(id: &str, calls: &[&str]) -> Rule {
    let actions = calls.iter().map(|c| Action::CallRule { rule_id: c.to_string() }).collect();
    make_rule(id, 0, all(vec![]), actions)
}

fn simple_rule(id: &str, priority: i32) -> Rule {
    make_rule(id, priority, all(vec![]), vec![Action::Tag { value: id.to_string() }])
}

// ---------------------------------------------------------------------------
// call_rule safety
// ---------------------------------------------------------------------------

#[test]
fn no_deps_ok() {
    let rules = vec![dummy_rule("a", &[])];
    assert!(validate_ruleset(&rules).is_ok());
}

#[test]
fn valid_chain_ok() {
    let rules = vec![dummy_rule("a", &["b"]), dummy_rule("b", &[])];
    assert!(validate_ruleset(&rules).is_ok());
}

#[test]
fn cycle_detected() {
    let rules = vec![dummy_rule("a", &["b"]), dummy_rule("b", &["a"])];
    assert!(matches!(validate_ruleset(&rules), Err(RegistryError::CyclicRuleDependency { .. })));
}

#[test]
fn missing_rule_detected() {
    let rules = vec![dummy_rule("a", &["ghost"])];
    assert!(matches!(validate_ruleset(&rules), Err(RegistryError::UnresolvedRuleReference(_))));
}

#[test]
fn self_call_is_a_cycle() {
    let rules = vec![dummy_rule("a", &["a"])];
    assert!(matches!(validate_ruleset(&rules), Err(RegistryError::CyclicRuleDependency { .. })));
}

#[test]
fn missing_reference_names_the_target() {
    let rules = vec![dummy_rule("a", &["ghost"])];
    match validate_ruleset(&rules) {
        Err(RegistryError::UnresolvedRuleReference(id)) => assert_eq!(id, "ghost"),
        other => panic!("unexpected {:?}", other),
    }
}

#[test]
fn depth_check_limits() {
    assert!(check_depth(7, 8).is_ok());
    assert!(matches!(check_depth(8, 8), Err(EvaluationError::CallDepthExceeded { limit: 8 })));
}

// ---------------------------------------------------------------------------
// Evaluation
// ---------------------------------------------------------------------------

#[test]
fn first_match() {
    let rule = make_rule(
        "r1",
        10,
        all(vec![leaf("x", Operator::Eq, Some(num(1)))]),
        vec![Action::Tag { value: "hit".into() }],
    );
    let (matched, tags) = run(&[rule], &obj(vec![("x", num(1))]), Strategy::FirstMatch);
    assert_eq!(matched, vec!["r1"]);
    assert_eq!(tags, vec!["hit"]);
}

#[test]
fn no_match() {
    let rule = make_rule("r1", 0, all(vec![leaf("x", Operator::Eq, Some(num(99)))]), vec![]);
    let (matched, _) = run(&[rule], &obj(vec![("x", num(1))]), Strategy::FirstMatch);
    assert!(matched.is_empty());
}

#[test]
fn dry_run_evaluates_all_conditions() {
    let rule = make_rule(
        "r1",
        0,
        all(vec![
            leaf("a", Operator::Eq, Some(num(1))),
            leaf("b", Operator::Eq, Some(num(99))),
        ]),
        vec![Action::Tag { value: "dry".into() }],
    );
    let lookup: Vec<&Rule> = Vec::new();
    let cfg = EvalConfig {
        strategy: &Strategy::AllMatch,
        dry_run: true,
        timeout_ms: None,
        max_call_depth: 8,
        rule_lookup: &lookup,
        now: (0, 0),
    };
    let (trace, _, _, _, _) =
        evaluate(&[rule], &obj(vec![("a", num(1)), ("b", num(1))]), &cfg).unwrap();
    assert_eq!(trace.rules[0].conditions.len(), 2);
}

#[test]
fn trigger_skipped_in_dry_run() {
    let rule = make_rule(
        "r1",
        0,
        all(vec![leaf("x", Operator::Eq, Some(num(1)))]),
        vec![Action::Trigger { event: "payment-flagged".into() }],
    );
    let lookup: Vec<&Rule> = Vec::new();
    let cfg = EvalConfig {
        strategy: &Strategy::FirstMatch,
        dry_run: true,
        timeout_ms: None,
        max_call_depth: 8,
        rule_lookup: &lookup,
        now: (0, 0),
    };
    let (_, _, _, _, triggered) = evaluate(&[rule], &obj(vec![("x", num(1))]), &cfg).unwrap();
    assert!(triggered.is_empty(), "trigger must not fire in dry-run");
}

#[test]
fn trigger_fires_in_normal_mode() {
    let rule = make_rule(
        "r1",
        0,
        all(vec![leaf("x", Operator::Eq, Some(num(1)))]),
        vec![Action::Trigger { event: "order-placed".into() }],
    );
    let lookup: Vec<&Rule> = Vec::new();
    let cfg = EvalConfig {
        strategy: &Strategy::FirstMatch,
        dry_run: false,
        timeout_ms: None,
        max_call_depth: 8,
        rule_lookup: &lookup,
        now: (0, 0),
    };
    let (_, _, _, _, triggered) = evaluate(&[rule], &obj(vec![("x", num(1))]), &cfg).unwrap();
    assert_eq!(triggered, vec!["order-placed"]);
}

#[test]
fn first_match_stops_after_one_rule() {
    let a = make_rule("a", 10, all(vec![]), vec![Action::Tag { value: "a".into() }]);
    let b = make_rule("b", 5, all(vec![]), vec![Action::Tag { value: "b".into() }]);
    let (matched, tags) = run(&[a, b], &obj(vec![]), Strategy::FirstMatch);
    assert_eq!(matched, vec!["a"]);
    assert_eq!(tags, vec!["a"]);
}

#[test]
fn all_match_reports_every_match() {
    let a = make_rule("a", 10, all(vec![]), vec![Action::Tag { value: "t".into() }]);
    let b = make_rule("b", 5, all(vec![leaf("x", Operator::Eq, Some(num(2)))]), vec![]);
    let c = make_rule("c", 1, all(vec![]), vec![Action::Tag { value: "t".into() }]);
    let (matched, tags) = run(&[a, b, c], &obj(vec![("x", num(1))]), Strategy::AllMatch);
    assert_eq!(matched, vec!["a", "c"]);
    // consecutive repeats of a tag are reported once
    assert_eq!(tags, vec!["t"]);
}

#[test]
fn set_action_writes_output() {
    let rule = make_rule(
        "r",
        0,
        all(vec![]),
        vec![Action::SetField { field: "decision.status".into(), value: ActionValue::Literal(text("ok")) }],
    );
    let lookup: Vec<&Rule> = Vec::new();
    let cfg = EvalConfig {
        strategy: &Strategy::AllMatch,
        dry_run: false,
        timeout_ms: None,
        max_call_depth: 8,
        rule_lookup: &lookup,
        now: (0, 0),
    };
    let (_, output, _, _, _) = evaluate(&[rule], &obj(vec![]), &cfg).unwrap();
    assert!(same(&output, &obj(vec![("decision", obj(vec![("status", text("ok"))]))])));
}

#[test]
fn scored_ranks_by_share_of_conditions() {
    // a: 1 of 2 top-level conditions hold; b: 2 of 2; c: none hold.
    let a = make_rule(
        "a",
        0,
        all(vec![leaf("x", Operator::Eq, Some(num(1))), leaf("y", Operator::Eq, Some(num(9)))]),
        vec![Action::Tag { value: "a".into() }],
    );
    let b = make_rule(
        "b",
        0,
        all(vec![leaf("x", Operator::Eq, Some(num(1))), leaf("y", Operator::Eq, Some(num(2)))]),
        vec![Action::Tag { value: "b".into() }],
    );
    let c = make_rule(
        "c",
        0,
        all(vec![leaf("x", Operator::Eq, Some(num(5)))]),
        vec![Action::Tag { value: "c".into() }],
    );
    let (matched, _) = run(&[a, b, c], &obj(vec![("x", num(1)), ("y", num(2))]), Strategy::Scored);
    assert_eq!(matched, vec!["b", "a"]);
}

#[test]
fn not_group_inverts() {
    let rule = make_rule(
        "r",
        0,
        ConditionGroup::Not(NotGroup { not: Box::new(leaf("x", Operator::Eq, Some(num(5)))) }),
        vec![Action::Tag { value: "t".into() }],
    );
    let (matched, _) = run(&[rule], &obj(vec![("x", num(1))]), Strategy::FirstMatch);
    assert_eq!(matched, vec!["r"]);
}

#[test]
fn any_group_needs_one() {
    let rule = make_rule(
        "r",
        0,
        ConditionGroup::Any(AnyGroup {
            any: vec![leaf("x", Operator::Eq, Some(num(5))), leaf("x", Operator::Eq, Some(num(1)))],
        }),
        vec![Action::Tag { value: "t".into() }],
    );
    let (matched, _) = run(&[rule], &obj(vec![("x", num(1))]), Strategy::FirstMatch);
    assert_eq!(matched, vec!["r"]);
}

#[test]
fn call_rule_runs_callee_actions() {
    let callee = make_rule("b", 0, all(vec![]), vec![Action::Tag { value: "from-b".into() }]);
    let caller = make_rule("a", 0, all(vec![]), vec![Action::CallRule { rule_id: "b".into() }]);
    let lookup: Vec<&Rule> = vec![&callee];
    let cfg = EvalConfig {
        strategy: &Strategy::FirstMatch,
        dry_run: false,
        timeout_ms: None,
        max_call_depth: 8,
        rule_lookup: &lookup,
        now: (0, 0),
    };
    let (_, _, matched, tags, _) = evaluate(&[caller], &obj(vec![]), &cfg).unwrap();
    assert_eq!(matched, vec!["a"]);
    assert_eq!(tags, vec!["from-b"]);
}

#[test]
fn call_rule_beyond_depth_fails() {
    let caller = make_rule("a", 0, all(vec![]), vec![Action::CallRule { rule_id: "a".into() }]);
    let lookup: Vec<&Rule> = vec![&caller];
    let cfg = EvalConfig {
        strategy: &Strategy::FirstMatch,
        dry_run: false,
        timeout_ms: None,
        max_call_depth: 2,
        rule_lookup: &lookup,
        now: (0, 0),
    };
    let r = evaluate(&[make_rule("a", 0, all(vec![]), vec![Action::CallRule { rule_id: "a".into() }])], &obj(vec![]), &cfg);
    assert!(matches!(r, Err(EvaluationError::CallDepthExceeded { limit: 2 })));
}

// ---------------------------------------------------------------------------
// Expressions
// ---------------------------------------------------------------------------

#[test]
fn simple_multiply() {
    let ctx = obj(vec![("income", num(60000))]);
    let result = eval_template("{{ income * 3 }}", &ctx).unwrap();
    assert!(same(&result, &float(180000, 1)));
}

#[test]
fn string_concat() {
    let ctx = obj(vec![("first", text("Hello")), ("last", text("World"))]);
    let result = eval_template("{{ first + ' ' + last }}", &ctx).unwrap();
    assert!(same(&result, &text("Hello World")));
}

#[test]
fn boolean_logic() {
    let ctx = obj(vec![]);
    let result = eval_template("{{ true && false }}", &ctx).unwrap();
    assert!(same(&result, &Value::Bool(false)));
}

#[test]
fn depth_limit() {
    let ctx = obj(vec![]);
    let expr = "{{ ((((((((((((((((1 + 1) + 1) + 1) + 1) + 1) + 1) + 1) + 1) + 1) + 1) + 1) + 1) + 1) + 1) + 1) + 1) }}";
    let result = eval_template(expr, &ctx);
    assert!(result.is_err(), "should hit depth limit");
}

#[test]
fn long_left_nested_chain_hits_the_depth_limit() {
    let ctx = obj(vec![]);
    let terms = vec!["1"; 20].join("+");
    assert!(eval_template(&format!("{{{{ {} }}}}", terms), &ctx).is_err());
}

#[test]
fn chain_of_sixteen_terms_is_accepted() {
    let ctx = obj(vec![]);
    let terms = vec!["1"; 16].join("+");
    let v = eval_template(&format!("{{{{ {} }}}}", terms), &ctx).unwrap();
    assert!(same(&v, &float(16, 1)));
}

#[test]
fn arithmetic_beyond_range_overflows() {
    let ctx = obj(vec![]);
    let huge = format!("1{}", "0".repeat(308));
    match eval_template(&format!("{{{{ {} * 10 }}}}", huge), &ctx) {
        Err(EvaluationError::Overflow) => {},
        other => panic!("unexpected {:?}", other),
    }
    match eval_template("{{ 9223372036854775807 * 10 }}", &ctx) {
        Err(EvaluationError::Overflow) => {},
        other => panic!("unexpected {:?}", other),
    }
    match eval_template("{{ 1 / 0 }}", &ctx) {
        Err(EvaluationError::Expression(m)) => assert_eq!(m, "division by zero"),
        other => panic!("unexpected {:?}", other),
    }
}

#[test]
fn shallow_nesting_is_accepted() {
    let ctx = obj(vec![]);
    let result = eval_template("{{ ((1 + 1) + 1) }}", &ctx).unwrap();
    assert!(same(&result, &float(3, 1)));
}

#[test]
fn division_is_exact() {
    let ctx = obj(vec![("a", num(1))]);
    let result = eval_template("{{ a / 4 }}", &ctx).unwrap();
    assert!(same(&result, &float(1, 4)));
}

#[test]
fn template_body_is_extracted() {
    assert_eq!(extract_template("  {{ a + b }} "), Some("a + b".to_string()));
    assert_eq!(extract_template("plain"), None);
}

// ---------------------------------------------------------------------------
// Operators
// ---------------------------------------------------------------------------

#[test]
fn eq_numbers() {
    assert!(apply(&Operator::Eq, &num(42), Some(&num(42)), None));
    assert!(!apply(&Operator::Eq, &num(42), Some(&num(43)), None));
}

#[test]
fn gte() {
    assert!(apply(&Operator::Gte, &num(10), Some(&num(10)), None));
    assert!(apply(&Operator::Gte, &num(11), Some(&num(10)), None));
    assert!(!apply(&Operator::Gte, &num(9), Some(&num(10)), None));
}

#[test]
fn between_inclusive() {
    let range = arr(vec![num(1), num(10)]);
    assert!(apply(&Operator::Between, &num(5), Some(&range), None));
    assert!(apply(&Operator::Between, &num(1), Some(&range), None));
    assert!(apply(&Operator::Between, &num(10), Some(&range), None));
    assert!(!apply(&Operator::Between, &num(0), Some(&range), None));
}

#[test]
fn is_empty_variants() {
    assert!(apply(&Operator::IsEmpty, &Value::Null, None, None));
    assert!(apply(&Operator::IsEmpty, &text(""), None, None));
    assert!(apply(&Operator::IsEmpty, &arr(vec![]), None, None));
    assert!(!apply(&Operator::IsEmpty, &arr(vec![num(1)]), None, None));
}

#[test]
fn in_list() {
    let roles = arr(vec![text("admin"), text("editor")]);
    assert!(apply(&Operator::In, &text("admin"), Some(&roles), None));
    assert!(!apply(&Operator::In, &text("viewer"), Some(&roles), None));
}

#[test]
fn string_operators() {
    assert!(apply(&Operator::Contains, &text("hello world"), Some(&text("lo w")), None));
    assert!(apply(&Operator::StartsWith, &text("hello"), Some(&text("he")), None));
    assert!(apply(&Operator::EndsWith, &text("hello"), Some(&text("llo")), None));
    assert!(!apply(&Operator::EndsWith, &text("hello"), Some(&text("he")), None));
}

#[test]
fn regex_operator() {
    assert!(apply(&Operator::Matches, &text("abc123"), Some(&text("^[a-z]+[0-9]+$")), None));
    assert!(!apply(&Operator::Matches, &text("abc"), Some(&text("^[0-9]+$")), None));
    // an invalid pattern matches nothing
    assert!(!apply(&Operator::Matches, &text("abc"), Some(&text("(")), None));
}

#[test]
fn divisible_and_types() {
    assert!(apply(&Operator::DivisibleBy, &num(12), Some(&num(4)), None));
    assert!(!apply(&Operator::DivisibleBy, &num(12), Some(&num(5)), None));
    assert!(apply(&Operator::IsType, &text("x"), Some(&text("string")), None));
    assert!(apply(&Operator::IsType, &arr(vec![]), Some(&text("array")), None));
}

#[test]
fn date_operators() {
    assert!(apply(&Operator::Before, &text("2024-01-01T00:00:00Z"), Some(&text("2024-06-01T00:00:00Z")), None));
    // calendar dates compare too, taken at midnight UTC
    assert!(apply(&Operator::Before, &text("2024-01-01"), Some(&text("2024-06-01")), None));
    assert!(!apply(&Operator::After, &text("2024-01-01"), Some(&text("2024-06-01")), None));
    assert!(apply(&Operator::Before, &text("2024-01-01"), Some(&text("2024-01-01T00:00:01Z")), None));
    assert!(!apply(&Operator::Before, &text("2024-01-01"), Some(&text("2024-01-01T00:00:00Z")), None));
    assert!(!apply(&Operator::Before, &text("not a date"), Some(&text("2024-06-01")), None));
    assert!(apply(&Operator::After, &text("2024-06-01T00:00:00Z"), Some(&text("2024-01-01T00:00:00Z")), None));
    // 2024-06-01 was a Saturday
    assert!(apply(&Operator::IsWeekend, &text("2024-06-01"), None, None));
    assert!(!apply(&Operator::IsWeekday, &text("2024-06-01"), None, None));
}

#[test]
fn within_days_uses_the_given_instant() {
    // 2024-06-01T00:00:00Z is 1717200000 seconds after the epoch.
    let now = (1717200000i64, 0u32);
    assert!(apply_at(&Operator::WithinDays, &text("2024-05-30T00:00:00Z"), Some(&num(3)), None, now));
    assert!(!apply_at(&Operator::WithinDays, &text("2024-05-01T00:00:00Z"), Some(&num(3)), None, now));
}

#[test]
fn list_operators() {
    let v = arr(vec![text("a"), text("b"), text("c")]);
    assert!(apply(&Operator::ContainsAny, &v, Some(&arr(vec![text("x"), text("b")])), None));
    assert!(apply(&Operator::ContainsAll, &v, Some(&arr(vec![text("a"), text("c")])), None));
    assert!(!apply(&Operator::ContainsAll, &v, Some(&arr(vec![text("a"), text("z")])), None));
    assert!(apply(&Operator::LengthEq, &v, Some(&num(3)), None));
    assert!(apply(&Operator::LengthGt, &v, Some(&num(2)), None));
    assert!(apply(&Operator::LengthLt, &v, Some(&num(4)), None));
}

#[test]
fn cross_field_comparison() {
    assert!(apply(&Operator::FieldGtField, &num(5), None, Some(&num(3))));
    assert!(apply(&Operator::FieldEqField, &text("a"), None, Some(&text("a"))));
}

// ---------------------------------------------------------------------------
// Registry
// ---------------------------------------------------------------------------

#[test]
fn upsert_and_get() {
    let mut reg = Registry::new();
    reg.upsert_rule(simple_rule("a", 10)).unwrap();
    assert!(reg.get_rule("a").is_some());
}

#[test]
fn evaluate_all_match() {
    let mut reg = Registry::new();
    reg.upsert_rule(simple_rule("a", 10)).unwrap();
    reg.upsert_rule(simple_rule("b", 5)).unwrap();
    let mut req = EvaluationRequest::new();
    req.strategy = Strategy::AllMatch;
    req.context = obj(vec![]);
    let resp = reg.evaluate(&req).unwrap();
    assert_eq!(resp.matched_rules.len(), 2);
}

#[test]
fn dry_run_returns_full_trace() {
    let mut reg = Registry::new();
    reg.upsert_rule(simple_rule("a", 0)).unwrap();
    let mut req = EvaluationRequest::new();
    req.dry_run = true;
    req.context = obj(vec![]);
    let resp = reg.evaluate(&req).unwrap();
    assert_eq!(resp.trace.rules_evaluated, 1);
}

#[test]
fn highest_version_is_active() {
    let mut reg = Registry::new();
    let mut v2 = simple_rule("a", 1);
    v2.version = 2;
    reg.upsert_rule(v2).unwrap();
    let mut v1 = simple_rule("a", 7);
    v1.version = 1;
    reg.upsert_rule(v1).unwrap();
    assert_eq!(reg.active_version("a"), Some(2));
    assert_eq!(reg.get_rule("a").unwrap().priority, 1);
    assert_eq!(reg.list_versions("a"), vec![1, 2]);
}

#[test]
fn disabled_rule_stays_readable() {
    let mut reg = Registry::new();
    reg.upsert_rule(simple_rule("a", 0)).unwrap();
    reg.disable_rule("a");
    assert!(!reg.get_rule("a").unwrap().enabled);
    let resp = reg.evaluate(&EvaluationRequest::new()).unwrap();
    assert_eq!(resp.trace.rules_evaluated, 0);
}

#[test]
fn upsert_drops_rule_when_reference_is_missing() {
    let mut reg = Registry::new();
    let r = reg.upsert_rule(dummy_rule("a", &["ghost"]));
    match r {
        Err(RegistryError::UnresolvedRuleReference(id)) => assert_eq!(id, "ghost"),
        other => panic!("unexpected {:?}", other),
    }
    assert!(reg.get_rule("a").is_none());
    assert!(reg.list_versions("a").is_empty());
}

#[test]
fn refused_upsert_keeps_the_earlier_version() {
    let mut reg = Registry::new();
    reg.upsert_rule(simple_rule("a", 1)).unwrap();
    let mut v2 = dummy_rule("a", &["ghost"]);
    v2.version = 2;
    assert!(reg.upsert_rule(v2).is_err());
    assert_eq!(reg.active_version("a"), Some(1));
    assert_eq!(reg.list_versions("a"), vec![1]);
    assert_eq!(reg.get_rule("a").unwrap().actions.len(), 1);
    assert!(matches!(reg.get_rule("a").unwrap().actions[0], Action::Tag { .. }));
}

#[test]
fn load_of_a_call_cycle_keeps_nothing() {
    let mut reg = Registry::new();
    reg.upsert_rule(simple_rule("z", 1)).unwrap();
    let r = reg.load_rules(vec![dummy_rule("a", &["b"]), dummy_rule("b", &["a"])]);
    assert!(matches!(r, Err(RegistryError::CyclicRuleDependency { .. })));
    assert!(reg.get_rule("a").is_none());
    assert!(reg.get_rule("b").is_none());
    assert!(reg.get_rule("z").is_some());
    assert_eq!(reg.list_rules(&RuleFilter::default()).len(), 1);
}

#[test]
fn load_of_a_valid_bundle_keeps_all() {
    let mut reg = Registry::new();
    reg.load_rules(vec![dummy_rule("a", &["b"]), dummy_rule("b", &[])]).unwrap();
    assert!(reg.get_rule("a").is_some());
    assert!(reg.get_rule("b").is_some());
}

fn chain(n: usize) -> Vec<Rule> {
    // r0 calls r1, ..., r(n-1) calls rn: a chain of n calls.
    let mut rules = Vec::new();
    for i in 0..n {
        let next = format!("r{}", i + 1);
        rules.push(dummy_rule(&format!("r{}", i), &[next.as_str()]));
    }
    rules.push(dummy_rule(&format!("r{}", n), &[]));
    rules
}

#[test]
fn chain_longer_than_the_depth_limit_is_refused() {
    match validate_ruleset(&chain(9)) {
        Err(RegistryError::CallChainTooDeep { rule_id, limit }) => {
            assert_eq!(rule_id, "r0");
            assert_eq!(limit, 8);
        },
        other => panic!("unexpected {:?}", other),
    }
}

#[test]
fn chain_at_the_depth_limit_is_accepted() {
    assert!(validate_ruleset(&chain(8)).is_ok());
}

#[test]
fn registry_refuses_a_chain_beyond_its_depth_limit() {
    let mut reg = Registry::new();
    reg.max_call_depth = 2;
    let r = reg.load_rules(chain(3));
    assert!(matches!(r, Err(RegistryError::CallChainTooDeep { limit: 2, .. })));
    assert!(reg.get_rule("r0").is_none());
    assert!(reg.load_rules(chain(2)).is_ok());
}

#[test]
fn unknown_rule_is_an_error() {
    let reg = Registry::new();
    let mut req = EvaluationRequest::new();
    req.rule_id = Some("nope".into());
    match reg.evaluate(&req) {
        Err(EvaluationError::Registry(RegistryError::NotFound(id))) => assert_eq!(id, "nope"),
        other => panic!("unexpected {:?}", other),
    }
}

#[test]
fn ruleset_selects_its_rules() {
    let mut reg = Registry::new();
    reg.upsert_rule(simple_rule("a", 1)).unwrap();
    reg.upsert_rule(simple_rule("b", 9)).unwrap();
    reg.upsert_rule(simple_rule("c", 5)).unwrap();
    reg.upsert_ruleset(Ruleset {
        name: "set".into(),
        rule_ids: vec!["a".into(), "b".into()],
        description: None,
    });
    let mut req = EvaluationRequest::new();
    req.ruleset = Some("set".into());
    req.strategy = Strategy::AllMatch;
    let resp = reg.evaluate(&req).unwrap();
    assert_eq!(resp.matched_rules, vec!["b", "a"]);
    assert!(reg.get_ruleset("set").is_some());
    let mut missing = EvaluationRequest::new();
    missing.ruleset = Some("other".into());
    assert!(matches!(
        reg.evaluate(&missing),
        Err(EvaluationError::Registry(RegistryError::RulesetNotFound(_)))
    ));
}

#[test]
fn listing_filters_and_orders() {
    let mut reg = Registry::new();
    let mut a = simple_rule("a", 1);
    a.tags = vec!["x".into()];
    reg.upsert_rule(a).unwrap();
    reg.upsert_rule(simple_rule("b", 9)).unwrap();
    let mut c = simple_rule("c", 9);
    c.tags = vec!["x".into()];
    reg.upsert_rule(c).unwrap();
    let all_ids: Vec<String> = reg.list_rules(&RuleFilter::default()).iter().map(|r| r.id.clone()).collect();
    assert_eq!(all_ids, vec!["b", "c", "a"]);
    let tagged = RuleFilter { tag: Some("x".into()), enabled: None };
    let ids: Vec<String> = reg.list_rules(&tagged).iter().map(|r| r.id.clone()).collect();
    assert_eq!(ids, vec!["c", "a"]);
}

// ---------------------------------------------------------------------------
// Paths
// ---------------------------------------------------------------------------

#[test]
fn simple_nested_path() {
    let ctx = obj(vec![("applicant", obj(vec![("credit_score", num(720))]))]);
    assert!(same(resolve_path(&ctx, "applicant.credit_score"), &num(720)));
}

#[test]
fn array_index() {
    let ctx = obj(vec![("order", obj(vec![("items", arr(vec![obj(vec![("price", float(999, 100))])]))]))]);
    assert!(same(resolve_path(&ctx, "order.items[0].price"), &float(999, 100)));
}

#[test]
fn missing_path_returns_null() {
    let ctx = obj(vec![("a", num(1))]);
    assert!(same(resolve_path(&ctx, "b.c"), &Value::Null));
}

#[test]
fn top_level_key() {
    let ctx = obj(vec![("score", num(42))]);
    assert!(same(resolve_path(&ctx, "score"), &num(42)));
}

#[test]
fn set_then_get_path() {
    let mut out = obj(vec![]);
    set_path(&mut out, "a.b.c", num(5));
    assert!(same(get_path(&out, "a.b.c").unwrap(), &num(5)));
    // a non-object on the way leaves the target unchanged
    let mut blocked = obj(vec![("a", num(1))]);
    set_path(&mut blocked, "a.b", num(5));
    assert!(same(&blocked, &obj(vec![("a", num(1))])));
}

#[test]
fn set_path_keeps_other_paths() {
    let mut out = obj(vec![("a", obj(vec![("x", num(1))])), ("b", num(2))]);
    set_path(&mut out, "a.y", num(3));
    assert!(same(get_path(&out, "a.x").unwrap(), &num(1)));
    assert!(same(get_path(&out, "b").unwrap(), &num(2)));
    assert!(same(get_path(&out, "a.y").unwrap(), &num(3)));
    // a deeper blocked write changes nothing
    let before = obj(vec![("a", obj(vec![("x", num(1))]))]);
    let mut blocked = obj(vec![("a", obj(vec![("x", num(1))]))]);
    set_path(&mut blocked, "a.x.z", num(9));
    assert!(same(&blocked, &before));
}

#[test]
fn patch_replaces_and_adds_members() {
    let members = |v: Value| match v {
        Value::Object(m) => m,
        _ => panic!("not an object"),
    };
    let base = members(obj(vec![("id", text("r1")), ("priority", num(1)), ("enabled", Value::Bool(true))]));
    let patch = members(obj(vec![("priority", num(9)), ("description", text("new"))]));
    let merged = Value::Object(apply_patch(&base, &patch));
    let want = obj(vec![
        ("description", text("new")),
        ("enabled", Value::Bool(true)),
        ("id", text("r1")),
        ("priority", num(9)),
    ]);
    assert!(same(get_path(&merged, "priority").unwrap(), &num(9)));
    assert!(same(get_path(&merged, "id").unwrap(), &text("r1")));
    assert!(same(get_path(&merged, "description").unwrap(), &text("new")));
    assert!(same(get_path(&merged, "enabled").unwrap(), &Value::Bool(true)));
    if let (Value::Object(a), Value::Object(b)) = (&merged, &want) {
        assert_eq!(a.len(), b.len());
    }
    // an empty patch keeps the base
    let kept = Value::Object(apply_patch(&base, &Vec::new()));
    assert!(same(&kept, &obj(vec![("id", text("r1")), ("priority", num(1)), ("enabled", Value::Bool(true))])));
}

#[test]
fn set_then_resolve_path() {
    let mut out = obj(vec![("a", obj(vec![("x", num(1))]))]);
    set_path(&mut out, "a.b.c", num(5));
    assert!(same(resolve_path(&out, "a.b.c"), &num(5)));
    assert!(same(resolve_path(&out, "a.x"), &num(1)));
}

#[test]
fn check_rules_keeps_nothing() {
    let mut reg = Registry::new();
    assert!(reg.check_rules(vec![dummy_rule("a", &["b"]), dummy_rule("b", &[])]).is_ok());
    assert!(reg.get_rule("a").is_none());
    assert!(matches!(
        reg.check_rules(vec![dummy_rule("a", &["b"]), dummy_rule("b", &["a"])]),
        Err(RegistryError::CyclicRuleDependency { .. })
    ));
    assert!(reg.list_rules(&RuleFilter::default()).is_empty());
}

#[test]
fn zero_budget_starts_no_rule() {
    let rules = vec![simple_rule("a", 1), simple_rule("b", 2)];
    let strategy = Strategy::AllMatch;
    let lookup: Vec<&Rule> = Vec::new();
    let cfg = EvalConfig {
        strategy: &strategy,
        dry_run: false,
        timeout_ms: Some(0),
        max_call_depth: 8,
        rule_lookup: &lookup,
        now: (0, 0),
    };
    let (trace, _, matched, _, _) = evaluate(&rules, &obj(vec![]), &cfg).unwrap();
    assert!(trace.timed_out);
    assert_eq!(trace.rules_evaluated, 0);
    assert!(trace.rules.is_empty());
    assert!(matched.is_empty());
}

#[test]
fn matched_rules_are_those_that_hold() {
    let yes = || all(vec![leaf("n", Operator::Gt, Some(num(1)))]);
    let no = || all(vec![leaf("n", Operator::Lt, Some(num(1)))]);
    let rules = vec![
        make_rule("a", 0, yes(), vec![]),
        make_rule("b", 0, no(), vec![]),
        make_rule("c", 0, yes(), vec![]),
    ];
    let (matched, _) = run(&rules, &obj(vec![("n", num(5))]), Strategy::AllMatch);
    assert_eq!(matched, vec!["a".to_string(), "c".to_string()]);
    let (first, _) = run(&rules, &obj(vec![("n", num(5))]), Strategy::FirstMatch);
    assert_eq!(first, vec!["a".to_string()]);
}

#[test]
fn merge_is_deep() {
    let mut target = obj(vec![("a", obj(vec![("x", num(1))])), ("b", num(2))]);
    let patch = obj(vec![("a", obj(vec![("y", num(3))])), ("c", num(4))]);
    merge_output(&mut target, &patch);
    let want = obj(vec![
        ("a", obj(vec![("x", num(1)), ("y", num(3))])),
        ("b", num(2)),
        ("c", num(4)),
    ]);
    assert!(same(&target, &want));
}

#[test]
fn load_keeps_highest_version() {
    let mut reg = Registry::new();
    let mut rules = Vec::new();
    for v in [2u32, 1, 3] {
        let mut r = simple_rule("a", v as i32);
        r.version = v;
        rules.push(r);
    }
    reg.load_rules(rules).unwrap();
    assert_eq!(reg.active_version("a"), Some(3));
    assert_eq!(reg.get_rule("a").unwrap().priority, 3);
}

#[test]
fn ruleset_replaced_by_name() {
    let mut reg = Registry::new();
    reg.upsert_ruleset(Ruleset { name: "s".into(), rule_ids: vec!["a".into()], description: None });
    reg.upsert_ruleset(Ruleset { name: "s".into(), rule_ids: vec!["b".into()], description: None });
    assert_eq!(reg.get_ruleset("s").unwrap().rule_ids, vec!["b"]);
    assert_eq!(reg.list_rulesets().len(), 1);
}

#[test]
fn counts_and_traces_agree() {
    let lookup: Vec<&Rule> = Vec::new();
    for strategy in [Strategy::FirstMatch, Strategy::AllMatch, Strategy::Scored] {
        for dry_run in [false, true] {
            let cfg = EvalConfig {
                strategy: &strategy,
                dry_run,
                timeout_ms: None,
                max_call_depth: 8,
                rule_lookup: &lookup,
                now: (0, 0),
            };
            let rules = [
                make_rule("a", 3, all(vec![]), vec![Action::Trigger { event: "e".into() }]),
                make_rule("b", 2, all(vec![leaf("x", Operator::Eq, Some(num(2))), leaf("y", Operator::Eq, Some(num(1)))]), vec![]),
                make_rule("c", 1, all(vec![]), vec![Action::Tag { value: "c".into() }]),
            ];
            let (trace, _, matched, _, triggered) = evaluate(&rules, &obj(vec![("x", num(1)), ("y", num(1))]), &cfg).unwrap();
            assert_eq!(trace.rules.len(), trace.rules_evaluated);
            if strategy != Strategy::Scored {
                assert_eq!(trace.rules_matched, matched.len());
            }
            if strategy == Strategy::FirstMatch {
                assert!(matched.len() <= 1);
            }
            if dry_run {
                assert!(triggered.is_empty());
                assert!(trace.rules.iter().all(|r| !r.short_circuited));
            }
        }
    }
}
