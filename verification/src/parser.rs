//! Checks a rule document must pass once it has been read: the schema
//! version, a non-blank id and name, and at least one action.
use vstd::prelude::*;
use crate::error::{ParseError, ParseErrorView};
use crate::schema::{Rule, Ruleset, ARS_VERSION};
use crate::text::{all_white_space, is_blank, owned};

verus! {

/// The first check a rule fails, if any.
pub open spec fn rule_problem(r: Rule) -> Option<ParseErrorView> {
    if r.ars_version != ARS_VERSION {
        Some(ParseErrorView::ArsVersion(r.ars_version, ARS_VERSION))
    } else if all_white_space(r.id@) {
        Some(ParseErrorView::Schema("id"@, "rule id must not be empty"@))
    } else if all_white_space(r.name@) {
        Some(ParseErrorView::Schema("name"@, "rule name must not be empty"@))
    } else if r.actions@.len() == 0 {
        Some(ParseErrorView::Schema("actions"@, "rule must have at least one action"@))
    } else {
        None
    }
}

/// Checks a rule read from a document: its schema version must be the one
/// this engine accepts, its id and name must not be blank, and it must have
/// an action.
pub fn validate_rule(rule: &Rule) -> (r: Result<(), ParseError>)
    ensures
        match rule_problem(*rule) {
            None => r is Ok,
            Some(e) => r matches Err(x) && x@ == e,
        },
{
    if rule.ars_version != ARS_VERSION {
        return Err(ParseError::ArsVersion { got: rule.ars_version, expected: ARS_VERSION });
    }
    if is_blank(rule.id.as_str()) {
        return Err(
            ParseError::Schema { field: owned("id"), message: owned("rule id must not be empty") },
        );
    }
    if is_blank(rule.name.as_str()) {
        return Err(
            ParseError::Schema { field: owned("name"), message: owned("rule name must not be empty") },
        );
    }
    if rule.actions.len() == 0 {
        return Err(
            ParseError::Schema {
                field: owned("actions"),
                message: owned("rule must have at least one action"),
            },
        );
    }
    Ok(())
}

/// A rule that was read from a document, once it passes `validate_rule`.
pub fn accept_rule(rule: Rule) -> (r: Result<Rule, ParseError>)
    ensures
        match rule_problem(rule) {
            None => r == Ok::<Rule, ParseError>(rule),
            Some(e) => r matches Err(x) && x@ == e,
        },
{
    match validate_rule(&rule) {
        Ok(()) => Ok(rule),
        Err(e) => Err(e),
    }
}

/// The first rule of a bundle that fails a check, with its problem.
pub open spec fn bundle_problem(rules: Seq<Rule>) -> Option<ParseErrorView>
    decreases rules.len(),
{
    if rules.len() == 0 {
        None
    } else {
        match bundle_problem(rules.drop_last()) {
            Some(e) => Some(e),
            None => rule_problem(rules.last()),
        }
    }
}

/// The rules and rulesets of a bundle, once every rule passes
/// `validate_rule`; otherwise the problem of the first rule that fails.
pub fn accept_bundle(rules: Vec<Rule>, rulesets: Vec<Ruleset>) -> (r: Result<
    (Vec<Rule>, Vec<Ruleset>),
    ParseError,
>)
    ensures
        match bundle_problem(rules@) {
            None => r matches Ok((a, b)) && a@ == rules@ && b@ == rulesets@,
            Some(e) => r matches Err(x) && x@ == e,
        },
{
    let mut i: usize = 0;
    while i < rules.len()
        invariant
            i <= rules@.len(),
            bundle_problem(rules@.take(i as int)) is None,
        decreases rules@.len() - i,
    {
        assert(rules@.take(i + 1).drop_last() =~= rules@.take(i as int));
        assert(rules@.take(i + 1).last() == rules@[i as int]);
        match validate_rule(&rules[i]) {
            Ok(()) => {},
            Err(e) => {
                proof {
                    lemma_bundle_prefix(rules@, i as int + 1);
                }
                return Err(e);
            },
        }
        i = i + 1;
    }
    assert(rules@.take(i as int) =~= rules@);
    Ok((rules, rulesets))
}

/// A problem found in a prefix of a bundle is the bundle's problem.
proof fn lemma_bundle_prefix(rules: Seq<Rule>, k: int)
    requires
        0 <= k <= rules.len(),
        bundle_problem(rules.take(k)) is Some,
    ensures
        bundle_problem(rules) == bundle_problem(rules.take(k)),
    decreases rules.len() - k,
{
    if k < rules.len() {
        assert(rules.take(k + 1).drop_last() =~= rules.take(k));
        lemma_bundle_prefix(rules, k + 1);
    } else {
        assert(rules.take(k) =~= rules);
    }
}

} // verus!
