//! Rule test suites: what a test case expects of an evaluation, how a case
//! is evaluated, and the JUnit report of a run.
use vstd::prelude::*;
use crate::json::{Value, values_equal};
use crate::resolver::{resolve, resolve_owned};
use crate::schema::{EvaluationRequest, EvaluationResponse, Strategy};
use crate::text::{chars_of, ends_with_chars, nat_text, owned, push_nat, push_str, seq_ends_with, str_eq};
use crate::trace::string_views;

verus! {

/// What a test case expects of its evaluation.
#[derive(Debug)]
pub struct Expectation {
    /// Whether some rule matched.
    pub matched: Option<bool>,
    /// Tags that must all be among the response's tags.
    pub tags: Option<Vec<String>>,
    /// Output paths and the values they must resolve to.
    pub actions: Option<Vec<(String, Value)>>,
}

/// A response meets an expectation.
pub open spec fn meets(e: Expectation, resp: EvaluationResponse) -> bool {
    &&& match e.matched {
        Some(m) => resp.matched == m,
        None => true,
    }
    &&& match e.tags {
        Some(ts) => forall|i: int|
            0 <= i < ts@.len() ==> string_views(resp.tags@).contains(#[trigger] ts@[i]@),
        None => true,
    }
    &&& match e.actions {
        Some(acts) => forall|i: int|
            0 <= i < acts@.len() ==> resolve(resp.output_context@, (#[trigger] acts@[i]).0@)
                == acts@[i].1@,
        None => true,
    }
}

fn has_tag(tags: &Vec<String>, t: &str) -> (r: bool)
    ensures
        r == string_views(tags@).contains(t@),
{
    let mut i: usize = 0;
    while i < tags.len()
        invariant
            i <= tags@.len(),
            forall|j: int| 0 <= j < i ==> tags@[j]@ != t@,
        decreases tags@.len() - i,
    {
        if str_eq(tags[i].as_str(), t) {
            assert(string_views(tags@)[i as int] == t@);
            return true;
        }
        i = i + 1;
    }
    proof {
        let sv = string_views(tags@);
        assert forall|j: int| 0 <= j < sv.len() implies sv[j] != t@ by {
            assert(sv[j] == tags@[j]@);
        }
    }
    false
}

/// Whether a response meets a test case's expectation: the matched flag,
/// each expected tag, and the value at each expected output path.
pub fn check_expectations(e: &Expectation, resp: &EvaluationResponse) -> (r: bool)
    ensures
        r == meets(*e, *resp),
{
    match e.matched {
        Some(m) => {
            if resp.matched != m {
                return false;
            }
        },
        None => {},
    }
    match &e.tags {
        Some(ts) => {
            let mut i: usize = 0;
            while i < ts.len()
                invariant
                    i <= ts@.len(),
                    e.tags == Some(*ts),
                    forall|j: int| 0 <= j < i ==> string_views(resp.tags@).contains(#[trigger] ts@[j]@),
                decreases ts@.len() - i,
            {
                if !has_tag(&resp.tags, ts[i].as_str()) {
                    assert(!string_views(resp.tags@).contains(ts@[i as int]@));
                    let ghost tv = e.tags->0;
                    assert(tv == *ts);
                    assert(!(forall|j: int|
                        0 <= j < tv@.len() ==> string_views(resp.tags@).contains(#[trigger] tv@[j]@)));
                    assert(!meets(*e, *resp));
                    return false;
                }
                i = i + 1;
            }
        },
        None => {},
    }
    match &e.actions {
        Some(acts) => {
            let mut i: usize = 0;
            while i < acts.len()
                invariant
                    i <= acts@.len(),
                    e.actions == Some(*acts),
                    forall|j: int|
                        0 <= j < i ==> resolve(resp.output_context@, (#[trigger] acts@[j]).0@)
                            == acts@[j].1@,
                decreases acts@.len() - i,
            {
                let actual = resolve_owned(&resp.output_context, acts[i].0.as_str());
                if !values_equal(&actual, &acts[i].1) {
                    assert(resolve(resp.output_context@, acts@[i as int].0@) != acts@[i as int].1@);
                    assert(!meets(*e, *resp));
                    return false;
                }
                i = i + 1;
            }
        },
        None => {},
    }
    true
}

/// The request a test case of rule `rule_id` is evaluated with: that rule,
/// all-match, no dry run, a one-second budget.
pub fn test_request(rule_id: &str, context: Value) -> (r: EvaluationRequest)
    ensures
        r.rule_id matches Some(id) && id@ == rule_id@,
        r.ruleset is None,
        r.strategy == Strategy::AllMatch,
        !r.dry_run,
        r.timeout_ms == Some(1000u64),
        r.context == context,
{
    EvaluationRequest {
        rule_id: Some(owned(rule_id)),
        ruleset: None,
        strategy: Strategy::AllMatch,
        dry_run: false,
        timeout_ms: Some(1000),
        context,
    }
}

/// A file holding a test suite: its name ends in `.test.yaml` or
/// `.test.yml`.
pub fn is_test_file_name(name: &str) -> (r: bool)
    ensures
        r == (seq_ends_with(name@, ".test.yaml"@) || seq_ends_with(name@, ".test.yml"@)),
{
    let cs = chars_of(name);
    let a = chars_of(".test.yaml");
    let b = chars_of(".test.yml");
    ends_with_chars(cs.as_slice(), a.as_slice()) || ends_with_chars(cs.as_slice(), b.as_slice())
}

/// A file holding rule documents: extension `yaml`, `yml` or `json`.
pub fn is_ars_extension(ext: &str) -> (r: bool)
    ensures
        r == (ext@ == "yaml"@ || ext@ == "yml"@ || ext@ == "json"@),
{
    str_eq(ext, "yaml") || str_eq(ext, "yml") || str_eq(ext, "json")
}

/// A document is a bundle when its top-level object, whose keys are
/// `keys`, has a `rules` key.
pub fn is_bundle_keys(keys: &Vec<String>) -> (r: bool)
    ensures
        r == string_views(keys@).contains("rules"@),
{
    let mut i: usize = 0;
    while i < keys.len()
        invariant
            i <= keys@.len(),
            forall|j: int| 0 <= j < i ==> keys@[j]@ != "rules"@,
        decreases keys@.len() - i,
    {
        if str_eq(keys[i].as_str(), "rules") {
            assert(string_views(keys@)[i as int] == "rules"@);
            return true;
        }
        i = i + 1;
    }
    assert forall|j: int| 0 <= j < string_views(keys@).len() implies string_views(keys@)[j] != "rules"@ by {
        assert(string_views(keys@)[j] == keys@[j]@);
    }
    false
}

/// What a validated bundle held.
pub fn bundle_summary(rules: usize, rulesets: usize) -> (r: String)
    ensures
        r@ == "bundle ("@ + nat_text(rules as nat) + " rules, "@ + nat_text(rulesets as nat)
            + " rulesets)"@,
{
    let mut out = owned("bundle (");
    push_nat(&mut out, rules as u128);
    push_str(&mut out, " rules, ");
    push_nat(&mut out, rulesets as u128);
    push_str(&mut out, " rulesets)");
    out
}

/// One reported test case: its name and, if it failed, why.
#[derive(Debug)]
pub struct ReportCase {
    pub name: String,
    pub failure: Option<String>,
}

/// The XML of one reported case.
pub open spec fn case_xml(c: ReportCase) -> Seq<char> {
    "  <testcase name=\""@ + c.name@ + "\">"@ + match c.failure {
        Some(m) => "    <failure message=\""@ + m@ + "\"/>"@,
        None => Seq::empty(),
    } + "  </testcase>\n"@
}

/// The XML of the reported cases, in order.
pub open spec fn cases_xml(cs: Seq<ReportCase>) -> Seq<char>
    decreases cs.len(),
{
    if cs.len() == 0 {
        Seq::empty()
    } else {
        cases_xml(cs.drop_last()) + case_xml(cs.last())
    }
}

/// The JUnit report of a run with `pass` passed and `fail` failed cases.
pub open spec fn junit_spec(cs: Seq<ReportCase>, pass: nat, fail: nat) -> Seq<char> {
    "<?xml version=\"1.0\" encoding=\"UTF-8\"?>\n"@ + "<testsuite name=\"axiom\" tests=\""@
        + nat_text(pass + fail) + "\" failures=\""@ + nat_text(fail) + "\" errors=\"0\">"@
        + cases_xml(cs) + "</testsuite>\n"@
}

/// Renders the JUnit report of a run.
pub fn junit_xml(cases: &Vec<ReportCase>, pass: usize, fail: usize) -> (r: String)
    requires
        pass + fail <= usize::MAX,
    ensures
        r@ == junit_spec(cases@, pass as nat, fail as nat),
{
    let mut out = owned("<?xml version=\"1.0\" encoding=\"UTF-8\"?>\n");
    push_str(&mut out, "<testsuite name=\"axiom\" tests=\"");
    push_nat(&mut out, (pass + fail) as u128);
    push_str(&mut out, "\" failures=\"");
    push_nat(&mut out, fail as u128);
    push_str(&mut out, "\" errors=\"0\">");
    let ghost head = out@;
    let mut i: usize = 0;
    assert(cases@.take(0) =~= Seq::<ReportCase>::empty());
    assert(out@ =~= head + cases_xml(cases@.take(0)));
    while i < cases.len()
        invariant
            i <= cases@.len(),
            out@ == head + cases_xml(cases@.take(i as int)),
        decreases cases@.len() - i,
    {
        let c = &cases[i];
        push_str(&mut out, "  <testcase name=\"");
        push_str(&mut out, c.name.as_str());
        push_str(&mut out, "\">");
        match &c.failure {
            Some(m) => {
                push_str(&mut out, "    <failure message=\"");
                push_str(&mut out, m.as_str());
                push_str(&mut out, "\"/>");
            },
            None => {},
        }
        push_str(&mut out, "  </testcase>\n");
        assert(cases@.take(i + 1).drop_last() =~= cases@.take(i as int));
        assert(cases@.take(i + 1).last() == *c);
        assert(out@ =~= head + cases_xml(cases@.take(i + 1)));
        i = i + 1;
    }
    push_str(&mut out, "</testsuite>\n");
    assert(cases@.take(i as int) =~= cases@);
    assert(out@ =~= junit_spec(cases@, pass as nat, fail as nat));
    out
}

/// The strategy a command-line flag names: `all_match`, `scored`, and
/// first match for anything else.
pub fn strategy_from_flag(flag: &str) -> (r: Strategy)
    ensures
        r == (if flag@ == "all_match"@ {
            Strategy::AllMatch
        } else if flag@ == "scored"@ {
            Strategy::Scored
        } else {
            Strategy::FirstMatch
        }),
{
    if str_eq(flag, "all_match") {
        Strategy::AllMatch
    } else if str_eq(flag, "scored") {
        Strategy::Scored
    } else {
        Strategy::FirstMatch
    }
}

} // verus!
