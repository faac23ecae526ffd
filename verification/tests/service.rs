use axiom_core::auth::{hash_key, hmac_sign, require_admin, require_write, verify_key, Identity, Role};
use axiom_core::config::{ConfigKey, ServerConfig, StorageBackend};
use axiom_core::error::{EvaluationError, ParseError, RegistryError};
use axiom_core::json::Value;
use axiom_core::number::Number;
use axiom_core::parser::{accept_bundle, accept_rule, validate_rule};
use axiom_core::rate_limit::{Bucket, RateLimiter};
use axiom_core::schema::{
    Action, AllGroup, ConditionGroup, ConditionNode, EvaluationResponse, LeafCondition, Operator,
    Rule, Ruleset, Strategy,
};
use axiom_core::server::{
    authenticate, authenticate_with_store, batch_size_ok, guard_last_admin, guard_self_revocation, is_config_key, is_public_path, is_yaml_extension,
    key_id_for, next_version, ruleset_label, sorted_unique_paths, stored_hash_for, strategy_label, CreateKeyRequest,
    RuleListQuery, StoreFilter, StoredKey,
};
use axiom_core::suite::{
    bundle_summary, check_expectations, is_ars_extension, is_bundle_keys, is_test_file_name, junit_xml, test_request,
    Expectation, ReportCase,
};
use axiom_core::timeout::{budget_exceeded, remaining_after, Deadline};
use axiom_core::trace::EvaluationTrace;
use axiom_core::webhook::{
    dead_letter_dir, dead_letter_file_name, default_retries, find_hook, is_success_status,
    next_after_attempt, signature_header, RetryAction, WebhookConfig,
};

const SHA_ABC: &str = "ba7816bf8f01cfea414140de5dae2223b00361a396177a9cb410ff61f20015ad";

fn test_rule(ars: u32, id: &str) -> Rule {
    Rule {
        ars_version: ars,
        id: id.to_string(),
        name: "Test Rule".to_string(),
        description: None,
        version: 1,
        priority: 10,
        enabled: true,
        tags: vec![],
        extends: None,
        conditions: ConditionGroup::All(AllGroup {
            all: vec![ConditionNode::Leaf(LeafCondition {
                field: "score".into(),
                operator: Operator::Gte,
                value: Some(Value::Number(Number::from_i64(100))),
                field2: None,
            })],
        }),
        actions: vec![Action::Tag { value: "passed".into() }],
        metadata: None,
    }
}

// ---------------------------------------------------------------------------
// Rule documents
// ---------------------------------------------------------------------------

#[test]
fn parses_valid_yaml() {
    let rule = accept_rule(test_rule(1, "test-rule")).unwrap();
    assert_eq!(rule.id, "test-rule");
    assert_eq!(rule.priority, 10);
}

#[test]
fn rejects_wrong_ars_version() {
    assert!(accept_rule(test_rule(99, "test-rule")).is_err());
}

#[test]
fn rejects_empty_id() {
    assert!(accept_rule(test_rule(1, "")).is_err());
}

#[test]
fn validation_errors_name_the_field() {
    match validate_rule(&test_rule(2, "x")) {
        Err(ParseError::ArsVersion { got: 2, expected: 1 }) => {},
        other => panic!("unexpected {:?}", other),
    }
    match validate_rule(&test_rule(1, "  \t")) {
        Err(ParseError::Schema { field, .. }) => assert_eq!(field, "id"),
        other => panic!("unexpected {:?}", other),
    }
    let mut nameless = test_rule(1, "x");
    nameless.name = " ".into();
    match validate_rule(&nameless) {
        Err(ParseError::Schema { field, .. }) => assert_eq!(field, "name"),
        other => panic!("unexpected {:?}", other),
    }
    let mut idle = test_rule(1, "x");
    idle.actions = vec![];
    match validate_rule(&idle) {
        Err(ParseError::Schema { field, message }) => {
            assert_eq!(field, "actions");
            assert_eq!(message, "rule must have at least one action");
        },
        other => panic!("unexpected {:?}", other),
    }
}

#[test]
fn bundle_reports_first_bad_rule() {
    let rules = vec![test_rule(1, "a"), test_rule(1, ""), test_rule(7, "c")];
    match accept_bundle(rules, vec![]) {
        Err(ParseError::Schema { field, .. }) => assert_eq!(field, "id"),
        other => panic!("unexpected {:?}", other),
    }
    let ok = accept_bundle(
        vec![test_rule(1, "a")],
        vec![Ruleset { name: "s".into(), rule_ids: vec!["a".into()], description: None }],
    )
    .unwrap();
    assert_eq!(ok.0.len(), 1);
    assert_eq!(ok.1.len(), 1);
}

#[test]
fn error_messages() {
    assert_eq!(
        ParseError::ArsVersion { got: 99, expected: 1 }.message(),
        "Unsupported ARS version 99, expected 1"
    );
    assert_eq!(RegistryError::NotFound("a".into()).message(), "Rule not found: a");
    assert_eq!(
        EvaluationError::CallDepthExceeded { limit: 8 }.message(),
        "call_rule depth limit (8) exceeded"
    );
    assert_eq!(
        EvaluationError::Registry(RegistryError::UnresolvedRuleReference("g".into())).message(),
        "Registry error: Unresolved rule reference in call_rule: 'g'"
    );
}

// ---------------------------------------------------------------------------
// Keys and roles
// ---------------------------------------------------------------------------

#[test]
fn hash_is_sha256_hex() {
    assert_eq!(hash_key("abc"), SHA_ABC);
    assert_eq!(hash_key("").len(), 64);
}

#[test]
fn verify_key_needs_prefix() {
    let stored = format!("sha256:{SHA_ABC}");
    assert!(verify_key("abc", &stored));
    assert!(!verify_key("abd", &stored));
    assert!(!verify_key("abc", SHA_ABC));
    assert!(!verify_key("abc", "sha256:"));
}

#[test]
fn hmac_signature() {
    // RFC 4231 test case 2
    assert_eq!(
        hmac_sign("Jefe", "what do ya want for nothing?"),
        "5bdcc146bf60754e6a042426089575c75a003f089d2739839dec58b964ec3843"
    );
    assert_eq!(
        signature_header("Jefe", "what do ya want for nothing?"),
        "sha256=5bdcc146bf60754e6a042426089575c75a003f089d2739839dec58b964ec3843"
    );
}

#[test]
fn roles() {
    assert_eq!(Role::from_str("admin"), Some(Role::Admin));
    assert_eq!(Role::from_str("editor"), Some(Role::Editor));
    assert_eq!(Role::from_str("viewer"), Some(Role::Viewer));
    assert_eq!(Role::from_str("root"), None);
    assert_eq!(Role::Editor.as_str(), "editor");
    assert!(Role::Admin.can_write() && Role::Editor.can_write() && !Role::Viewer.can_write());
    assert!(Role::Admin.can_admin() && !Role::Editor.can_admin());
    let viewer = Identity { key_id: "k".into(), role: Role::Viewer };
    assert_eq!(require_write(&viewer), Err(403));
    let editor = Identity { key_id: "k".into(), role: Role::Editor };
    assert_eq!(require_write(&editor), Ok(()));
    assert_eq!(require_admin(&editor), Err(403));
}

fn key(id: &str, role: &str, hash: String) -> ConfigKey {
    ConfigKey { id: id.into(), role: role.into(), hash, description: None }
}

#[test]
fn authenticate_uses_first_matching_key() {
    let keys = vec![
        key("other", "admin", stored_hash_for("zzz")),
        key("k1", "editor", stored_hash_for("abc")),
        key("k2", "admin", stored_hash_for("abc")),
    ];
    let id = authenticate(&keys, "abc").unwrap();
    assert_eq!(id.key_id, "k1");
    assert_eq!(id.role, Role::Editor);
    assert!(authenticate(&keys, "nope").is_none());
    let bad_role = vec![key("k", "root", stored_hash_for("abc")), key("k2", "admin", stored_hash_for("abc"))];
    assert!(authenticate(&bad_role, "abc").is_none());
}

#[test]
fn api_created_keys_authenticate_after_configured_ones() {
    let keys = vec![key("cfg", "admin", stored_hash_for("abc"))];
    let stored = Some(("key-0123abcd".to_string(), "editor".to_string()));
    let id = authenticate_with_store(&keys, "xyz", stored.clone()).unwrap();
    assert_eq!(id.key_id, "key-0123abcd");
    assert_eq!(id.role, Role::Editor);
    // a configured key decides before the store
    let id = authenticate_with_store(&keys, "abc", stored).unwrap();
    assert_eq!(id.key_id, "cfg");
    assert_eq!(id.role, Role::Admin);
    assert!(authenticate_with_store(&keys, "xyz", None).is_none());
    assert!(authenticate_with_store(&keys, "xyz", Some(("k".to_string(), "root".to_string()))).is_none());
}

#[test]
fn key_ids_and_hashes() {
    assert_eq!(key_id_for("0123456789abcdef"), "key-01234567");
    assert_eq!(stored_hash_for("abc"), format!("sha256:{SHA_ABC}"));
    assert!(CreateKeyRequest { role: "viewer".into(), description: None }.has_valid_role());
    assert!(!CreateKeyRequest { role: "owner".into(), description: None }.has_valid_role());
}

#[test]
fn last_admin_cannot_be_revoked() {
    let cfg = vec![key("c", "editor", String::new())];
    let db = vec![
        StoredKey { id: Some("a1".into()), role: Some("admin".into()), revoked: false },
        StoredKey { id: Some("a2".into()), role: Some("admin".into()), revoked: true },
    ];
    assert_eq!(guard_last_admin(&cfg, &db, "a1"), Err("cannot revoke the last admin key".to_string()));
    assert_eq!(guard_last_admin(&cfg, &db, "other"), Ok(()));
    let cfg_admin = vec![key("c", "admin", String::new())];
    assert_eq!(guard_last_admin(&cfg_admin, &db, "a1"), Ok(()));
    assert!(is_config_key(&cfg, "c"));
    assert!(!is_config_key(&cfg, "a1"));
}

#[test]
fn an_admin_cannot_revoke_its_own_key() {
    assert_eq!(guard_self_revocation("k1", "k1"), Err("cannot revoke your own key".to_string()));
    assert_eq!(guard_self_revocation("k1", "k2"), Ok(()));
}

#[test]
fn watcher_paths_are_sorted_once_each() {
    let paths = vec![
        "/rules/b.yaml".to_string(),
        "/rules/a.yaml".to_string(),
        "/rules/b.yaml".to_string(),
        "/rules/c.yml".to_string(),
        "/rules/a.yaml".to_string(),
    ];
    assert_eq!(
        sorted_unique_paths(paths),
        vec!["/rules/a.yaml".to_string(), "/rules/b.yaml".to_string(), "/rules/c.yml".to_string()]
    );
    assert!(sorted_unique_paths(Vec::new()).is_empty());
}

#[test]
fn a_document_with_rules_is_a_bundle() {
    assert!(is_bundle_keys(&vec!["rulesets".to_string(), "rules".to_string()]));
    assert!(!is_bundle_keys(&vec!["id".to_string(), "conditions".to_string()]));
    assert!(!is_bundle_keys(&Vec::new()));
}

#[test]
fn public_paths() {
    assert!(is_public_path("/health"));
    assert!(is_public_path("/metrics"));
    assert!(!is_public_path("/v1/rules"));
}

// ---------------------------------------------------------------------------
// Server helpers
// ---------------------------------------------------------------------------

#[test]
fn versions_and_limits() {
    assert_eq!(next_version(&vec![1, 2, 5], 0), 6);
    assert_eq!(next_version(&vec![], 0), 1);
    assert_eq!(next_version(&vec![], 4), 5);
    assert!(batch_size_ok(1000));
    assert!(!batch_size_ok(1001));
    assert_eq!(strategy_label(Strategy::FirstMatch), "firstmatch");
    assert_eq!(strategy_label(Strategy::AllMatch), "allmatch");
    assert_eq!(ruleset_label(&None), "");
    assert!(is_yaml_extension(Some("yml")));
    assert!(!is_yaml_extension(Some("json")));
    assert!(!is_yaml_extension(None));
}

#[test]
fn store_filter_matches() {
    let q = RuleListQuery { tag: Some("x".into()), enabled: Some(true), ruleset: None };
    let f = q.store_filter();
    let mut r = test_rule(1, "a");
    assert!(!f.matches(&r));
    r.tags = vec!["x".into()];
    assert!(f.matches(&r));
    r.enabled = false;
    assert!(!f.matches(&r));
    assert!(StoreFilter { tag: None, enabled: None }.matches(&r));
}

#[test]
fn default_configuration() {
    let c = ServerConfig::default_config();
    assert_eq!(c.host, "0.0.0.0");
    assert_eq!(c.port, 8080);
    assert_eq!(c.storage.backend, StorageBackend::Sqlite);
    assert_eq!(c.storage.path, "/data/axiom.db");
    assert_eq!(c.rate_limit_per_sec, 1000);
    assert_eq!(c.rule_poll_secs, 10);
    assert!(c.keys.is_empty() && c.webhooks.is_empty());
}

// ---------------------------------------------------------------------------
// Rate limiting
// ---------------------------------------------------------------------------

#[test]
fn bucket_arithmetic() {
    let mut b = Bucket::new(10);
    assert_eq!(b.refill_and_take(0, 10, 10), Ok(()));
    // empty: 5 tokens at 10 per second take one second
    assert_eq!(b.refill_and_take(0, 5, 10), Err(1));
    // 300 ms refill 3 tokens
    assert_eq!(b.refill_and_take(300_000, 3, 10), Ok(()));
    // a long pause refills one second's worth at most
    assert_eq!(b.refill_and_take(60_000_000, 11, 10), Err(1));
    assert_eq!(b.refill_and_take(0, 10, 10), Ok(()));
    let mut z = Bucket::new(0);
    assert_eq!(z.refill_and_take(1_000, 1, 0), Err(u64::MAX));
    assert_eq!(z.refill_and_take(1_000, 0, 0), Ok(()));
}

#[test]
fn limiter_keeps_keys_apart() {
    let mut l = RateLimiter::new(2);
    assert_eq!(l.check("a", 2), Ok(()));
    assert!(l.check("a", 2).is_err());
    assert_eq!(l.check("b", 1), Ok(()));
}

// ---------------------------------------------------------------------------
// Webhooks
// ---------------------------------------------------------------------------

fn hook(event: &str, url: &str) -> WebhookConfig {
    WebhookConfig { event: event.into(), url: url.into(), secret: None, max_retries: default_retries() }
}

#[test]
fn last_hook_for_an_event_wins() {
    let hooks = vec![hook("a", "u1"), hook("b", "u2"), hook("a", "u3")];
    assert_eq!(find_hook(&hooks, "a"), Some(2));
    assert_eq!(find_hook(&hooks, "b"), Some(1));
    assert_eq!(find_hook(&hooks, "c"), None);
}

#[test]
fn retry_schedule() {
    assert_eq!(next_after_attempt(3, 0, false), RetryAction::RetryAfter(1));
    assert_eq!(next_after_attempt(3, 1, false), RetryAction::RetryAfter(4));
    assert_eq!(next_after_attempt(3, 2, false), RetryAction::RetryAfter(16));
    assert_eq!(next_after_attempt(3, 3, false), RetryAction::DeadLetter);
    assert_eq!(next_after_attempt(9, 3, false), RetryAction::DeadLetter);
    assert_eq!(next_after_attempt(1, 1, false), RetryAction::DeadLetter);
    assert_eq!(next_after_attempt(0, 0, false), RetryAction::DeadLetter);
    assert_eq!(next_after_attempt(3, 1, true), RetryAction::Delivered);
    assert!(is_success_status(204));
    assert!(!is_success_status(302));
}

#[test]
fn dead_letter_names() {
    assert_eq!(dead_letter_file_name("paid", "123"), "paid-123.json");
    assert_eq!(dead_letter_dir(&None), "/data/dead-letter");
    assert_eq!(dead_letter_dir(&Some("/tmp/x".into())), "/tmp/x");
}

// ---------------------------------------------------------------------------
// Budgets
// ---------------------------------------------------------------------------

#[test]
fn budgets() {
    assert!(budget_exceeded(50_000, 50_000));
    assert!(!budget_exceeded(49_999, 50_000));
    assert_eq!(remaining_after(50_000, 20), Some(30));
    assert_eq!(remaining_after(50_000, 51), None);
    let d = Deadline::new(60_000);
    assert!(!d.is_exceeded());
    assert!(d.remaining_ms().unwrap() <= 60_000);
}

// ---------------------------------------------------------------------------
// Test suites
// ---------------------------------------------------------------------------

fn response(matched: bool, tags: Vec<&str>, output: Value) -> EvaluationResponse {
    EvaluationResponse {
        matched,
        matched_rules: vec![],
        tags: tags.into_iter().map(|t| t.to_string()).collect(),
        output_context: output,
        duration_us: 0,
        trace: EvaluationTrace {
            rules_evaluated: 0,
            rules_matched: 0,
            strategy: Strategy::AllMatch,
            total_duration_us: 0,
            timed_out: false,
            rules: vec![],
        },
    }
}

#[test]
fn expectations() {
    let out = Value::Object(vec![("risk".into(), Value::String("high".into()))]);
    let resp = response(true, vec!["a", "b"], out);
    let e = Expectation {
        matched: Some(true),
        tags: Some(vec!["b".into()]),
        actions: Some(vec![("risk".into(), Value::String("high".into()))]),
    };
    assert!(check_expectations(&e, &resp));
    let wrong_tag = Expectation { matched: None, tags: Some(vec!["c".into()]), actions: None };
    assert!(!check_expectations(&wrong_tag, &resp));
    let wrong_value = Expectation {
        matched: None,
        tags: None,
        actions: Some(vec![("risk".into(), Value::String("low".into()))]),
    };
    assert!(!check_expectations(&wrong_value, &resp));
    let wrong_match = Expectation { matched: Some(false), tags: None, actions: None };
    assert!(!check_expectations(&wrong_match, &resp));
}

#[test]
fn suite_requests_and_files() {
    let r = test_request("rule-1", Value::Null);
    assert_eq!(r.rule_id, Some("rule-1".to_string()));
    assert_eq!(r.strategy, Strategy::AllMatch);
    assert_eq!(r.timeout_ms, Some(1000));
    assert!(is_test_file_name("credit.test.yaml"));
    assert!(is_test_file_name("credit.test.yml"));
    assert!(!is_test_file_name("credit.yaml"));
    assert!(is_ars_extension("json"));
    assert!(!is_ars_extension("txt"));
    assert_eq!(bundle_summary(3, 1), "bundle (3 rules, 1 rulesets)");
}

#[test]
fn junit_report() {
    let cases = vec![
        ReportCase { name: "ok".into(), failure: None },
        ReportCase { name: "bad".into(), failure: Some("boom".into()) },
    ];
    let xml = junit_xml(&cases, 1, 1);
    assert_eq!(
        xml,
        "<?xml version=\"1.0\" encoding=\"UTF-8\"?>\n<testsuite name=\"axiom\" tests=\"2\" failures=\"1\" errors=\"0\">  <testcase name=\"ok\">  </testcase>\n  <testcase name=\"bad\">    <failure message=\"boom\"/>  </testcase>\n</testsuite>\n"
    );
}
