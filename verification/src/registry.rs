//! The in-memory rule registry: rules stored by `(id, version)`, the active
//! (highest) version of each id, and named rulesets.
use vstd::prelude::*;
use crate::call_rule_guard::{guard_result, validate_rule_refs};
use crate::error::{EvaluationError, EvalErrorView, RegistryError, RegistryErrorView};
use crate::evaluator::{EvalConfig, EvalOutcome, evaluation_spec, evaluate_refs, outcome_of};
use crate::json::Value;
use crate::schema::{
    deref_rules, EvaluationRequest, EvaluationResponse, Rule, Ruleset, Strategy,
};
use crate::text::{Ord3, lex_order, chars_of, compare_chars, str_eq};
use crate::trace::{string_views, EvaluationTrace};

verus! {

// ---------------------------------------------------------------------------
// Model
// ---------------------------------------------------------------------------

/// The abstract state of a registry: stored rules, the active version of
/// each id (in the order ids were first added), rulesets, and the
/// `call_rule` depth limit.
pub struct RegistryModel {
    pub rules: Seq<Rule>,
    pub active: Seq<(Seq<char>, u32)>,
    pub rulesets: Seq<Ruleset>,
    pub max_call_depth: usize,
}

/// Position of id `id` in the active list.
pub open spec fn active_index(a: Seq<(Seq<char>, u32)>, id: Seq<char>) -> Option<int>
    decreases a.len(),
{
    if a.len() == 0 {
        None
    } else {
        match active_index(a.drop_last(), id) {
            Some(i) => Some(i),
            None => if a.last().0 == id {
                Some(a.len() - 1)
            } else {
                None
            },
        }
    }
}

/// Position of the stored rule with id `id` and version `v`.
pub open spec fn stored_index(rules: Seq<Rule>, id: Seq<char>, v: u32) -> Option<int>
    decreases rules.len(),
{
    if rules.len() == 0 {
        None
    } else {
        match stored_index(rules.drop_last(), id, v) {
            Some(i) => Some(i),
            None => if rules.last().id@ == id && rules.last().version == v {
                Some(rules.len() - 1)
            } else {
                None
            },
        }
    }
}

/// Position of the ruleset named `name`.
pub open spec fn ruleset_index(s: Seq<Ruleset>, name: Seq<char>) -> Option<int>
    decreases s.len(),
{
    if s.len() == 0 {
        None
    } else {
        match ruleset_index(s.drop_last(), name) {
            Some(i) => Some(i),
            None => if s.last().name@ == name {
                Some(s.len() - 1)
            } else {
                None
            },
        }
    }
}

/// The active version of an id.
pub open spec fn version_of(m: RegistryModel, id: Seq<char>) -> Option<u32> {
    match active_index(m.active, id) {
        Some(i) => Some(m.active[i].1),
        None => None,
    }
}

/// The active rule of an id.
pub open spec fn rule_of(m: RegistryModel, id: Seq<char>) -> Option<Rule> {
    match version_of(m, id) {
        Some(v) => match stored_index(m.rules, id, v) {
            Some(k) => Some(m.rules[k]),
            None => None,
        },
        None => None,
    }
}

/// The ruleset named `name`.
pub open spec fn ruleset_of(m: RegistryModel, name: Seq<char>) -> Option<Ruleset> {
    match ruleset_index(m.rulesets, name) {
        Some(k) => Some(m.rulesets[k]),
        None => None,
    }
}

/// The active list with `id` at version `v`.
pub open spec fn set_version(a: Seq<(Seq<char>, u32)>, id: Seq<char>, v: u32) -> Seq<(Seq<char>, u32)> {
    match active_index(a, id) {
        Some(i) => a.update(i, (id, v)),
        None => a.push((id, v)),
    }
}

/// The stored rules with `r` stored under its id and version.
pub open spec fn store_rule(rules: Seq<Rule>, r: Rule) -> Seq<Rule> {
    match stored_index(rules, r.id@, r.version) {
        Some(k) => rules.update(k, r),
        None => rules.push(r),
    }
}

/// Adds a rule: it is stored under its id and version, and becomes the
/// active version unless a higher version of its id is active.
pub open spec fn insert_model(m: RegistryModel, r: Rule) -> RegistryModel {
    let cur = match version_of(m, r.id@) {
        Some(v) => v,
        None => 0,
    };
    RegistryModel {
        active: if r.version >= cur {
            set_version(m.active, r.id@, r.version)
        } else {
            m.active
        },
        rules: store_rule(m.rules, r),
        ..m
    }
}

/// Adds rules in order.
pub open spec fn load_model(m: RegistryModel, rs: Seq<Rule>) -> RegistryModel
    decreases rs.len(),
{
    if rs.len() == 0 {
        m
    } else {
        insert_model(load_model(m, rs.drop_last()), rs.last())
    }
}

/// The active rules, in the order of the active list.
pub open spec fn active_rules_of(rules: Seq<Rule>, a: Seq<(Seq<char>, u32)>) -> Seq<Rule>
    decreases a.len(),
{
    if a.len() == 0 {
        Seq::empty()
    } else {
        let p = active_rules_of(rules, a.drop_last());
        match stored_index(rules, a.last().0, a.last().1) {
            Some(k) => p.push(rules[k]),
            None => p,
        }
    }
}

pub open spec fn active_rules(m: RegistryModel) -> Seq<Rule> {
    active_rules_of(m.rules, m.active)
}

/// `a` is listed before `b`: higher priority first, then smaller id.
pub open spec fn priority_before(a: Rule, b: Rule) -> bool {
    a.priority > b.priority || (a.priority == b.priority && lex_order(a.id@, b.id@) == Ord3::Less)
}

pub open spec fn priority_position(sorted: Seq<Rule>, r: Rule) -> int
    decreases sorted.len(),
{
    if sorted.len() == 0 {
        0
    } else if priority_before(r, sorted[0]) {
        0
    } else {
        1 + priority_position(sorted.drop_first(), r)
    }
}

/// Rules in priority order (stable insertion).
pub open spec fn by_priority(s: Seq<Rule>) -> Seq<Rule>
    decreases s.len(),
{
    if s.len() == 0 {
        Seq::empty()
    } else {
        let t = by_priority(s.drop_last());
        t.insert(priority_position(t, s.last()), s.last())
    }
}

/// Rulesets in name order (stable insertion).
pub open spec fn name_position(sorted: Seq<Ruleset>, r: Ruleset) -> int
    decreases sorted.len(),
{
    if sorted.len() == 0 {
        0
    } else if lex_order(r.name@, sorted[0].name@) == Ord3::Less {
        0
    } else {
        1 + name_position(sorted.drop_first(), r)
    }
}

pub open spec fn by_name(s: Seq<Ruleset>) -> Seq<Ruleset>
    decreases s.len(),
{
    if s.len() == 0 {
        Seq::empty()
    } else {
        let t = by_name(s.drop_last());
        t.insert(name_position(t, s.last()), s.last())
    }
}

/// Versions stored for an id, in storage order.
pub open spec fn versions_of(rules: Seq<Rule>, id: Seq<char>) -> Seq<u32>
    decreases rules.len(),
{
    if rules.len() == 0 {
        Seq::empty()
    } else {
        let p = versions_of(rules.drop_last(), id);
        if rules.last().id@ == id {
            p.push(rules.last().version)
        } else {
            p
        }
    }
}

pub open spec fn u32_position(sorted: Seq<u32>, v: u32) -> int
    decreases sorted.len(),
{
    if sorted.len() == 0 {
        0
    } else if v < sorted[0] {
        0
    } else {
        1 + u32_position(sorted.drop_first(), v)
    }
}

/// Ascending order (stable insertion).
pub open spec fn ascending(s: Seq<u32>) -> Seq<u32>
    decreases s.len(),
{
    if s.len() == 0 {
        Seq::empty()
    } else {
        let t = ascending(s.drop_last());
        t.insert(u32_position(t, s.last()), s.last())
    }
}

/// A filter of rule listings: by tag and by enabled state.
#[derive(Debug)]
pub struct RuleFilter {
    pub tag: Option<String>,
    pub enabled: Option<bool>,
}

impl RuleFilter {
    /// The filter lets `rule` through.
    pub open spec fn admits(&self, rule: Rule) -> bool {
        &&& match &self.tag {
            Some(t) => string_views(rule.tags@).contains(t@),
            None => true,
        }
        &&& match self.enabled {
            Some(e) => rule.enabled == e,
            None => true,
        }
    }

    /// Whether the filter lets `rule` through.
    pub fn matches(&self, rule: &Rule) -> (r: bool)
        ensures
            r == self.admits(*rule),
    {
        match &self.tag {
            Some(t) => {
                let mut i: usize = 0;
                let mut found = false;
                while i < rule.tags.len()
                    invariant
                        i <= rule.tags@.len(),
                        found == exists|j: int| 0 <= j < i && rule.tags@[j]@ == t@,
                    decreases rule.tags@.len() - i,
                {
                    if str_eq(rule.tags[i].as_str(), t.as_str()) {
                        found = true;
                    }
                    i = i + 1;
                }
                proof {
                    let sv = string_views(rule.tags@);
                    if found {
                        let j = choose|j: int| 0 <= j < i && rule.tags@[j]@ == t@;
                        assert(sv[j] == t@);
                    } else {
                        assert forall|j: int| 0 <= j < sv.len() implies sv[j] != t@ by {
                            assert(sv[j] == rule.tags@[j]@);
                        }
                    }
                }
                if !found {
                    return false;
                }
            },
            None => {},
        }
        match self.enabled {
            Some(e) => rule.enabled == e,
            None => true,
        }
    }
}

impl Default for RuleFilter {
    fn default() -> (r: RuleFilter)
        ensures
            r.tag is None,
            r.enabled is None,
    {
        RuleFilter { tag: None, enabled: None }
    }
}

/// Rules a filter lets through, in order.
pub open spec fn filtered(s: Seq<Rule>, f: RuleFilter) -> Seq<Rule>
    decreases s.len(),
{
    if s.len() == 0 {
        Seq::empty()
    } else {
        let p = filtered(s.drop_last(), f);
        if f.admits(s.last()) {
            p.push(s.last())
        } else {
            p
        }
    }
}

/// The enabled active rules named by a ruleset, in its order.
pub open spec fn enabled_members(m: RegistryModel, ids: Seq<String>) -> Seq<Rule>
    decreases ids.len(),
{
    if ids.len() == 0 {
        Seq::empty()
    } else {
        let p = enabled_members(m, ids.drop_last());
        match rule_of(m, ids.last()@) {
            Some(r) => if r.enabled {
                p.push(r)
            } else {
                p
            },
            None => p,
        }
    }
}

/// The enabled rules among `s`.
pub open spec fn enabled_only(s: Seq<Rule>) -> Seq<Rule>
    decreases s.len(),
{
    if s.len() == 0 {
        Seq::empty()
    } else {
        let p = enabled_only(s.drop_last());
        if s.last().enabled {
            p.push(s.last())
        } else {
            p
        }
    }
}

/// The rules a request evaluates: the named rule (none if disabled), the
/// enabled rules of the named ruleset, or every enabled active rule; the
/// last two in priority order.
pub open spec fn request_rules(m: RegistryModel, req: EvaluationRequest) -> Result<Seq<Rule>, EvalErrorView> {
    match req.rule_id {
        Some(id) => match rule_of(m, id@) {
            None => Err(EvalErrorView::Registry(RegistryErrorView::NotFound(id@))),
            Some(r) => if r.enabled {
                Ok(seq![r])
            } else {
                Ok(Seq::empty())
            },
        },
        None => match req.ruleset {
            Some(name) => match ruleset_of(m, name@) {
                None => Err(EvalErrorView::Registry(RegistryErrorView::RulesetNotFound(name@))),
                Some(rs) => Ok(by_priority(enabled_members(m, rs.rule_ids@))),
            },
            None => Ok(by_priority(enabled_only(active_rules(m)))),
        },
    }
}

/// The observable result of an evaluation response and its events.
pub open spec fn response_outcome(resp: EvaluationResponse, triggered: Seq<String>) -> EvalOutcome {
    EvalOutcome {
        rules_evaluated: resp.trace.rules_evaluated as nat,
        rules_matched: resp.trace.rules_matched as nat,
        strategy: resp.trace.strategy,
        timed_out: resp.trace.timed_out,
        rules: crate::trace::rule_trace_views(resp.trace.rules@),
        output: resp.output_context@,
        matched_rules: string_views(resp.matched_rules@),
        tags: string_views(resp.tags@),
        triggered: string_views(triggered),
    }
}

// ---------------------------------------------------------------------------
// The registry
// ---------------------------------------------------------------------------

/// How `insert` changed the active list.
enum ActiveUndo {
    Unchanged,
    Replaced(usize, (String, u32)),
    Pushed,
}

/// How `insert` changed the stored rules.
enum StoredUndo {
    Replaced(usize, Rule),
    Pushed,
}

/// What `insert` overwrote, so that it can be put back.
struct InsertUndo {
    active: ActiveUndo,
    stored: StoredUndo,
}

/// The model with the changes recorded in `u` put back.
spec fn undo_model(m: RegistryModel, u: InsertUndo) -> RegistryModel {
    RegistryModel {
        rules: match u.stored {
            StoredUndo::Replaced(k, r) => m.rules.update(k as int, r),
            StoredUndo::Pushed => m.rules.drop_last(),
        },
        active: match u.active {
            ActiveUndo::Unchanged => m.active,
            ActiveUndo::Replaced(i, p) => m.active.update(i as int, (p.0@, p.1)),
            ActiveUndo::Pushed => m.active.drop_last(),
        },
        ..m
    }
}

/// The positions recorded in `u` exist in `m`.
spec fn undo_applies(m: RegistryModel, u: InsertUndo) -> bool {
    &&& match u.stored {
        StoredUndo::Replaced(k, _) => k < m.rules.len(),
        StoredUndo::Pushed => m.rules.len() > 0,
    }
    &&& match u.active {
        ActiveUndo::Unchanged => true,
        ActiveUndo::Replaced(i, _) => i < m.active.len(),
        ActiveUndo::Pushed => m.active.len() > 0,
    }
}

/// In-memory rule registry, keyed by `(id, version)`; the active version of
/// an id is the highest one added.
#[derive(Debug)]
pub struct Registry {
    rules: Vec<Rule>,
    active: Vec<(String, u32)>,
    rulesets: Vec<Ruleset>,
    /// Runtime `call_rule` depth limit (8 by default).
    pub max_call_depth: usize,
}

pub open spec fn pair_views(a: Seq<(String, u32)>) -> Seq<(Seq<char>, u32)> {
    a.map_values(|p: (String, u32)| (p.0@, p.1))
}

impl View for Registry {
    type V = RegistryModel;

    closed spec fn view(&self) -> RegistryModel {
        RegistryModel {
            rules: self.rules@,
            active: pair_views(self.active@),
            rulesets: self.rulesets@,
            max_call_depth: self.max_call_depth,
        }
    }
}

proof fn lemma_active_index(a: Seq<(Seq<char>, u32)>, id: Seq<char>)
    ensures
        match active_index(a, id) {
            Some(i) => 0 <= i < a.len() && a[i].0 == id && forall|j: int| 0 <= j < i ==> a[j].0 != id,
            None => forall|j: int| 0 <= j < a.len() ==> a[j].0 != id,
        },
    decreases a.len(),
{
    if a.len() > 0 {
        lemma_active_index(a.drop_last(), id);
        assert forall|j: int| 0 <= j < a.len() - 1 implies a.drop_last()[j] == a[j] by {}
    }
}

proof fn lemma_stored_index(rules: Seq<Rule>, id: Seq<char>, v: u32)
    ensures
        match stored_index(rules, id, v) {
            Some(i) => 0 <= i < rules.len() && rules[i].id@ == id && rules[i].version == v && forall|j: int|
                0 <= j < i ==> !(rules[j].id@ == id && rules[j].version == v),
            None => forall|j: int| 0 <= j < rules.len() ==> !(rules[j].id@ == id && rules[j].version == v),
        },
    decreases rules.len(),
{
    if rules.len() > 0 {
        lemma_stored_index(rules.drop_last(), id, v);
        assert forall|j: int| 0 <= j < rules.len() - 1 implies rules.drop_last()[j] == rules[j] by {}
    }
}

proof fn lemma_ruleset_index(s: Seq<Ruleset>, name: Seq<char>)
    ensures
        match ruleset_index(s, name) {
            Some(i) => 0 <= i < s.len() && s[i].name@ == name && forall|j: int|
                0 <= j < i ==> s[j].name@ != name,
            None => forall|j: int| 0 <= j < s.len() ==> s[j].name@ != name,
        },
    decreases s.len(),
{
    if s.len() > 0 {
        lemma_ruleset_index(s.drop_last(), name);
        assert forall|j: int| 0 <= j < s.len() - 1 implies s.drop_last()[j] == s[j] by {}
    }
}

impl Registry {
    /// An empty registry with call depth 8.
    pub fn new() -> (r: Registry)
        ensures
            r@.rules.len() == 0,
            r@.active.len() == 0,
            r@.rulesets.len() == 0,
            r@.max_call_depth == 8,
    {
        let r = Registry { rules: Vec::new(), active: Vec::new(), rulesets: Vec::new(), max_call_depth: 8 };
        assert(pair_views(r.active@) =~= Seq::<(Seq<char>, u32)>::empty());
        r
    }

    fn find_active(&self, id: &str) -> (r: Option<usize>)
        ensures
            match r {
                Some(i) => active_index(self@.active, id@) == Some(i as int) && i < self.active@.len(),
                None => active_index(self@.active, id@) is None,
            },
    {
        let ghost a = self@.active;
        proof {
            lemma_active_index(a, id@);
        }
        let mut i: usize = 0;
        while i < self.active.len()
            invariant
                i <= self.active@.len(),
                a == pair_views(self.active@),
                a.len() == self.active@.len(),
                forall|j: int| 0 <= j < i ==> a[j].0 != id@,
            decreases self.active@.len() - i,
        {
            assert(a[i as int].0 == self.active@[i as int].0@);
            if str_eq(self.active[i].0.as_str(), id) {
                proof {
                    lemma_active_index(a, id@);
                    match active_index(a, id@) {
                        Some(k) => {
                            if k < i {
                                assert(a[k].0 != id@);
                            } else if k > i {
                                assert(a[i as int].0 != id@);
                            }
                        },
                        None => {
                            assert(a[i as int].0 != id@);
                        },
                    }
                }
                return Some(i);
            }
            i = i + 1;
        }
        proof {
            lemma_active_index(a, id@);
            match active_index(a, id@) {
                Some(k) => {
                    assert(a[k].0 != id@);
                },
                None => {},
            }
        }
        None
    }

    fn find_stored(&self, id: &str, v: u32) -> (r: Option<usize>)
        ensures
            match r {
                Some(i) => stored_index(self@.rules, id@, v) == Some(i as int) && i < self.rules@.len(),
                None => stored_index(self@.rules, id@, v) is None,
            },
    {
        let ghost rs = self@.rules;
        let mut i: usize = 0;
        while i < self.rules.len()
            invariant
                i <= self.rules@.len(),
                rs == self.rules@,
                forall|j: int| 0 <= j < i ==> !(rs[j].id@ == id@ && rs[j].version == v),
            decreases self.rules@.len() - i,
        {
            if self.rules[i].version == v && str_eq(self.rules[i].id.as_str(), id) {
                proof {
                    lemma_stored_index(rs, id@, v);
                    match stored_index(rs, id@, v) {
                        Some(k) => {
                            if k < i {
                                assert(!(rs[k].id@ == id@ && rs[k].version == v));
                            } else if k > i {
                                assert(!(rs[i as int].id@ == id@ && rs[i as int].version == v));
                            }
                        },
                        None => {
                            assert(!(rs[i as int].id@ == id@ && rs[i as int].version == v));
                        },
                    }
                }
                return Some(i);
            }
            i = i + 1;
        }
        proof {
            lemma_stored_index(rs, id@, v);
            match stored_index(rs, id@, v) {
                Some(k) => {
                    assert(!(rs[k].id@ == id@ && rs[k].version == v));
                },
                None => {},
            }
        }
        None
    }

    fn find_ruleset(&self, name: &str) -> (r: Option<usize>)
        ensures
            match r {
                Some(i) => ruleset_index(self@.rulesets, name@) == Some(i as int) && i < self.rulesets@.len(),
                None => ruleset_index(self@.rulesets, name@) is None,
            },
    {
        let ghost rs = self@.rulesets;
        let mut i: usize = 0;
        while i < self.rulesets.len()
            invariant
                i <= self.rulesets@.len(),
                rs == self.rulesets@,
                forall|j: int| 0 <= j < i ==> rs[j].name@ != name@,
            decreases self.rulesets@.len() - i,
        {
            if str_eq(self.rulesets[i].name.as_str(), name) {
                proof {
                    lemma_ruleset_index(rs, name@);
                    match ruleset_index(rs, name@) {
                        Some(k) => {
                            if k < i {
                                assert(rs[k].name@ != name@);
                            } else if k > i {
                                assert(rs[i as int].name@ != name@);
                            }
                        },
                        None => {
                            assert(rs[i as int].name@ != name@);
                        },
                    }
                }
                return Some(i);
            }
            i = i + 1;
        }
        proof {
            lemma_ruleset_index(rs, name@);
            match ruleset_index(rs, name@) {
                Some(k) => {
                    assert(rs[k].name@ != name@);
                },
                None => {},
            }
        }
        None
    }

    /// The active version of an id.
    pub fn active_version(&self, id: &str) -> (r: Option<u32>)
        ensures
            r == version_of(self@, id@),
    {
        match self.find_active(id) {
            Some(i) => Some(self.active[i].1),
            None => None,
        }
    }

    /// The active rule of an id.
    pub fn get_rule(&self, id: &str) -> (r: Option<&Rule>)
        ensures
            match r {
                Some(x) => rule_of(self@, id@) == Some(*x),
                None => rule_of(self@, id@) is None,
            },
    {
        match self.active_version(id) {
            Some(v) => match self.find_stored(id, v) {
                Some(k) => Some(&self.rules[k]),
                None => None,
            },
            None => None,
        }
    }

    /// Adds a ruleset, replacing one of the same name.
    pub fn upsert_ruleset(&mut self, rs: Ruleset)
        ensures
            final(self)@ == put_ruleset(old(self)@, rs),
    {
        match self.find_ruleset(rs.name.as_str()) {
            Some(k) => {
                self.rulesets.set(k, rs);
            },
            None => {
                self.rulesets.push(rs);
            },
        }
    }

    /// The ruleset of a name.
    pub fn get_ruleset(&self, name: &str) -> (r: Option<&Ruleset>)
        ensures
            match r {
                Some(x) => ruleset_of(self@, name@) == Some(*x),
                None => ruleset_of(self@, name@) is None,
            },
    {
        match self.find_ruleset(name) {
            Some(k) => Some(&self.rulesets[k]),
            None => None,
        }
    }

    /// References to the active rules, in the order of the active list.
    fn active_rule_refs(&self) -> (r: Vec<&Rule>)
        ensures
            deref_rules(r@) == active_rules(self@),
    {
        let ghost a = self@.active;
        let mut out: Vec<&Rule> = Vec::new();
        let mut i: usize = 0;
        assert(a.take(0) =~= Seq::<(Seq<char>, u32)>::empty());
        assert(deref_rules(out@) =~= Seq::<Rule>::empty());
        while i < self.active.len()
            invariant
                i <= self.active@.len(),
                a == self@.active,
                a.len() == self.active@.len(),
                deref_rules(out@) == active_rules_of(self@.rules, a.take(i as int)),
            decreases self.active@.len() - i,
        {
            assert(a.take(i + 1).drop_last() =~= a.take(i as int));
            assert(a.take(i + 1).last() == a[i as int]);
            assert(a[i as int] == (self.active@[i as int].0@, self.active@[i as int].1));
            match self.find_stored(self.active[i].0.as_str(), self.active[i].1) {
                Some(k) => {
                    let ghost before = out@;
                    out.push(&self.rules[k]);
                    assert(deref_rules(out@) =~= deref_rules(before).push(self.rules@[k as int]));
                },
                None => {},
            }
            i = i + 1;
        }
        assert(a.take(i as int) =~= a);
        out
    }

    /// Stores a rule and makes it active unless a higher version is;
    /// returns what `undo_insert` needs to restore the previous state.
    fn insert(&mut self, rule: Rule) -> (u: InsertUndo)
        ensures
            final(self)@ == insert_model(old(self)@, rule),
            undo_applies(final(self)@, u),
            undo_model(final(self)@, u) == old(self)@,
    {
        let ghost m = self@;
        let cur = match self.active_version(rule.id.as_str()) {
            Some(v) => v,
            None => 0,
        };
        let mut active_undo = ActiveUndo::Unchanged;
        if rule.version >= cur {
            match self.find_active(rule.id.as_str()) {
                Some(i) => {
                    let ghost before = self.active@;
                    let prev = (self.active[i].0.clone(), self.active[i].1);
                    self.active.set(i, (rule.id.clone(), rule.version));
                    assert(pair_views(self.active@) =~= pair_views(before).update(
                        i as int,
                        (rule.id@, rule.version),
                    ));
                    active_undo = ActiveUndo::Replaced(i, prev);
                },
                None => {
                    let ghost before = self.active@;
                    self.active.push((rule.id.clone(), rule.version));
                    assert(pair_views(self.active@) =~= pair_views(before).push((rule.id@, rule.version)));
                    active_undo = ActiveUndo::Pushed;
                },
            }
        }
        assert(self@.active == insert_model(m, rule).active);
        let ghost rv = rule;
        let stored_undo = match self.find_stored(rule.id.as_str(), rule.version) {
            Some(k) => {
                let prev = self.rules.remove(k);
                self.rules.insert(k, rule);
                assert(self.rules@ =~= m.rules.update(k as int, rv));
                StoredUndo::Replaced(k, prev)
            },
            None => {
                self.rules.push(rule);
                StoredUndo::Pushed
            },
        };
        let u = InsertUndo { active: active_undo, stored: stored_undo };
        assert(self@ == insert_model(m, rv));
        proof {
            let back = undo_model(self@, u);
            assert(back.rules =~= m.rules);
            assert(back.active =~= m.active);
        }
        u
    }

    /// Restores the state before the `insert` that returned `u`.
    fn undo_insert(&mut self, u: InsertUndo)
        requires
            undo_applies(old(self)@, u),
        ensures
            final(self)@ == undo_model(old(self)@, u),
    {
        let ghost m = self@;
        match u.stored {
            StoredUndo::Replaced(k, prev) => {
                self.rules.set(k, prev);
            },
            StoredUndo::Pushed => {
                self.rules.pop();
            },
        }
        match u.active {
            ActiveUndo::Unchanged => {},
            ActiveUndo::Replaced(i, prev) => {
                let ghost before = self.active@;
                let ghost pv = (prev.0@, prev.1);
                self.active.set(i, prev);
                assert(pair_views(self.active@) =~= pair_views(before).update(i as int, pv));
            },
            ActiveUndo::Pushed => {
                let ghost before = self.active@;
                self.active.pop();
                assert(pair_views(self.active@) =~= pair_views(before).drop_last());
            },
        }
        proof {
            let want = undo_model(m, u);
            assert(self@.rules =~= want.rules);
            assert(self@.active =~= want.active);
        }
    }

    /// Adds or replaces a rule, then checks the active rules for
    /// `call_rule` safety at the registry's depth limit; a rule that fails
    /// the check is not kept.
    pub fn upsert_rule(&mut self, rule: Rule) -> (r: Result<(), RegistryError>)
        ensures
            guard_result(
                active_rules(insert_model(old(self)@, rule)),
                old(self)@.max_call_depth as nat,
                r,
            ),
            r is Ok ==> final(self)@ == insert_model(old(self)@, rule),
            r is Err ==> final(self)@ == old(self)@,
    {
        let u = self.insert(rule);
        let refs = self.active_rule_refs();
        let res = validate_rule_refs(&refs, self.max_call_depth);
        match res {
            Ok(()) => Ok(()),
            Err(e) => {
                self.undo_insert(u);
                Err(e)
            },
        }
    }

    /// Adds or replaces rules in order, then checks the active rules for
    /// `call_rule` safety once, at the registry's depth limit; when the
    /// check fails none of the rules is kept.
    pub fn load_rules(&mut self, rules: Vec<Rule>) -> (r: Result<(), RegistryError>)
        ensures
            guard_result(
                active_rules(load_model(old(self)@, rules@)),
                old(self)@.max_call_depth as nat,
                r,
            ),
            r is Ok ==> final(self)@ == load_model(old(self)@, rules@),
            r is Err ==> final(self)@ == old(self)@,
    {
        self.load_or_check(rules, true)
    }

    /// Checks, without keeping them, whether rules added in order would
    /// pass the `call_rule` check at the registry's depth limit.
    pub fn check_rules(&mut self, rules: Vec<Rule>) -> (r: Result<(), RegistryError>)
        ensures
            guard_result(
                active_rules(load_model(old(self)@, rules@)),
                old(self)@.max_call_depth as nat,
                r,
            ),
            final(self)@ == old(self)@,
    {
        self.load_or_check(rules, false)
    }

    /// Adds rules in order and checks them; keeps them only when `keep` is
    /// set and the check passes.
    fn load_or_check(&mut self, rules: Vec<Rule>, keep: bool) -> (r: Result<(), RegistryError>)
        ensures
            guard_result(
                active_rules(load_model(old(self)@, rules@)),
                old(self)@.max_call_depth as nat,
                r,
            ),
            keep && r is Ok ==> final(self)@ == load_model(old(self)@, rules@),
            !(keep && r is Ok) ==> final(self)@ == old(self)@,
    {
        let ghost m0 = self@;
        let ghost all = rules@;
        let mut rules = rules;
        let mut undos: Vec<InsertUndo> = Vec::new();
        let ghost mut k: int = 0;
        assert(all.take(0) =~= Seq::<Rule>::empty());
        assert(rules@ =~= all.skip(0));
        while rules.len() > 0
            invariant
                0 <= k <= all.len(),
                rules@ == all.skip(k),
                self@ == load_model(m0, all.take(k)),
                self.max_call_depth == m0.max_call_depth,
                undos@.len() == k,
                forall|j: int|
                    0 <= j < k ==> undo_applies(load_model(m0, all.take(j + 1)), #[trigger] undos@[j])
                        && undo_model(load_model(m0, all.take(j + 1)), undos@[j]) == load_model(
                        m0,
                        all.take(j),
                    ),
            decreases rules@.len(),
        {
            let ghost before = rules@;
            let r = rules.remove(0);
            proof {
                assert(before[0] == r);
                assert(rules@ =~= before.drop_first());
                assert(all.skip(k).drop_first() =~= all.skip(k + 1));
                assert(all.take(k + 1).drop_last() =~= all.take(k));
                assert(all.take(k + 1).last() == all.skip(k)[0]);
            }
            let u = self.insert(r);
            undos.push(u);
            proof {
                k = k + 1;
            }
        }
        proof {
            assert(all.skip(k).len() == 0);
            assert(all.take(k) =~= all);
        }
        let refs = self.active_rule_refs();
        let res = validate_rule_refs(&refs, self.max_call_depth);
        let kept = match res {
            Ok(()) => keep,
            Err(_) => false,
        };
        if kept {
            res
        } else {
            while undos.len() > 0
                invariant
                    0 <= undos@.len() <= all.len(),
                    self@ == load_model(m0, all.take(undos@.len() as int)),
                    forall|j: int|
                        0 <= j < undos@.len() ==> undo_applies(
                            load_model(m0, all.take(j + 1)),
                            #[trigger] undos@[j],
                        ) && undo_model(load_model(m0, all.take(j + 1)), undos@[j]) == load_model(
                            m0,
                            all.take(j),
                        ),
                decreases undos@.len(),
            {
                let ghost prev = undos@;
                let ghost n = prev.len() as int;
                let u = undos.pop().unwrap();
                assert(u == prev[n - 1]);
                assert(undos@ =~= prev.drop_last());
                self.undo_insert(u);
            }
            assert(all.take(0) =~= Seq::<Rule>::empty());
            res
        }
    }

    /// Disables the active version of an id, if any.
    pub fn disable_rule(&mut self, id: &str)
        ensures
            final(self)@ == disable_model(old(self)@, id@),
    {
        match self.active_version(id) {
            Some(v) => match self.find_stored(id, v) {
                Some(k) => {
                    let mut r = self.rules.remove(k);
                    r.enabled = false;
                    self.rules.insert(k, r);
                    assert(self@.rules =~= old(self)@.rules.update(
                        k as int,
                        Rule { enabled: false, ..old(self)@.rules[k as int] },
                    ));
                },
                None => {},
            },
            None => {},
        }
    }
}

/// The registry with `rs` stored under its name, replacing a ruleset of
/// the same name.
pub open spec fn put_ruleset(m: RegistryModel, rs: Ruleset) -> RegistryModel {
    RegistryModel {
        rulesets: match ruleset_index(m.rulesets, rs.name@) {
            Some(k) => m.rulesets.update(k, rs),
            None => m.rulesets.push(rs),
        },
        ..m
    }
}

/// The registry with the active version of `id` disabled.
pub open spec fn disable_model(m: RegistryModel, id: Seq<char>) -> RegistryModel {
    match version_of(m, id) {
        Some(v) => match stored_index(m.rules, id, v) {
            Some(k) => RegistryModel { rules: m.rules.update(k, Rule { enabled: false, ..m.rules[k] }), ..m },
            None => m,
        },
        None => m,
    }
}

/// The rulesets a list of references refers to.
pub open spec fn deref_rulesets(s: Seq<&Ruleset>) -> Seq<Ruleset> {
    s.map_values(|r: &Ruleset| *r)
}

fn priority_before_exec(a: &Rule, b: &Rule) -> (r: bool)
    ensures
        r == priority_before(*a, *b),
{
    if a.priority > b.priority {
        true
    } else if a.priority == b.priority {
        let ac = chars_of(a.id.as_str());
        let bc = chars_of(b.id.as_str());
        compare_chars(ac.as_slice(), bc.as_slice()) == Ord3::Less
    } else {
        false
    }
}

proof fn lemma_priority_position(s: Seq<Rule>, r: Rule, i: int)
    requires
        0 <= i <= s.len(),
        forall|j: int| 0 <= j < i ==> !priority_before(r, #[trigger] s[j]),
        i == s.len() || priority_before(r, s[i]),
    ensures
        priority_position(s, r) == i,
    decreases i,
{
    if i > 0 {
        assert(!priority_before(r, s[0]));
        assert forall|j: int| 0 <= j < i - 1 implies !priority_before(r, #[trigger] s.drop_first()[j]) by {
            assert(s.drop_first()[j] == s[j + 1]);
        }
        if i < s.len() {
            assert(s.drop_first()[i - 1] == s[i]);
        }
        lemma_priority_position(s.drop_first(), r, i - 1);
    }
}

/// Sorts rule references into priority order (see `by_priority`).
fn sort_by_priority(v: Vec<&Rule>) -> (r: Vec<&Rule>)
    ensures
        deref_rules(r@) == by_priority(deref_rules(v@)),
{
    let ghost orig = deref_rules(v@);
    let mut v = v;
    let mut out: Vec<&Rule> = Vec::new();
    let ghost mut k: int = 0;
    assert(orig.take(0) =~= Seq::<Rule>::empty());
    assert(deref_rules(out@) =~= Seq::<Rule>::empty());
    assert(deref_rules(v@) =~= orig.skip(0));
    while v.len() > 0
        invariant
            0 <= k <= orig.len(),
            deref_rules(v@) == orig.skip(k),
            deref_rules(out@) == by_priority(orig.take(k)),
        decreases v@.len(),
    {
        let ghost before_v = deref_rules(v@);
        let e = v.remove(0);
        proof {
            assert(before_v[0] == *e);
            assert(deref_rules(v@) =~= before_v.drop_first());
            assert(orig.skip(k).drop_first() =~= orig.skip(k + 1));
            assert(orig.take(k + 1).drop_last() =~= orig.take(k));
            assert(orig.take(k + 1).last() == orig.skip(k)[0]);
        }
        let ghost sv = deref_rules(out@);
        let mut i: usize = 0;
        while i < out.len()
            invariant
                i <= out@.len(),
                sv == deref_rules(out@),
                sv.len() == out@.len(),
                forall|j: int| 0 <= j < i ==> !priority_before(*e, #[trigger] sv[j]),
            ensures
                i <= sv.len(),
                forall|j: int| 0 <= j < i ==> !priority_before(*e, #[trigger] sv[j]),
                i == sv.len() || priority_before(*e, sv[i as int]),
            decreases out@.len() - i,
        {
            assert(sv[i as int] == *out@[i as int]);
            if priority_before_exec(e, out[i]) {
                break;
            }
            i = i + 1;
        }
        proof {
            lemma_priority_position(sv, *e, i as int);
        }
        out.insert(i, e);
        proof {
            assert(deref_rules(out@) =~= sv.insert(i as int, *e));
            k = k + 1;
        }
    }
    proof {
        assert(orig.skip(k).len() == 0);
        assert(orig.take(k) =~= orig);
    }
    out
}

proof fn lemma_name_position(s: Seq<Ruleset>, r: Ruleset, i: int)
    requires
        0 <= i <= s.len(),
        forall|j: int| 0 <= j < i ==> lex_order(r.name@, #[trigger] s[j].name@) != Ord3::Less,
        i == s.len() || lex_order(r.name@, s[i].name@) == Ord3::Less,
    ensures
        name_position(s, r) == i,
    decreases i,
{
    if i > 0 {
        assert(lex_order(r.name@, s[0].name@) != Ord3::Less);
        assert forall|j: int| 0 <= j < i - 1 implies lex_order(r.name@, #[trigger] s.drop_first()[j].name@)
            != Ord3::Less by {
            assert(s.drop_first()[j] == s[j + 1]);
        }
        if i < s.len() {
            assert(s.drop_first()[i - 1] == s[i]);
        }
        lemma_name_position(s.drop_first(), r, i - 1);
    }
}

proof fn lemma_u32_position(s: Seq<u32>, v: u32, i: int)
    requires
        0 <= i <= s.len(),
        forall|j: int| 0 <= j < i ==> !(v < #[trigger] s[j]),
        i == s.len() || v < s[i],
    ensures
        u32_position(s, v) == i,
    decreases i,
{
    if i > 0 {
        assert forall|j: int| 0 <= j < i - 1 implies !(v < #[trigger] s.drop_first()[j]) by {
            assert(s.drop_first()[j] == s[j + 1]);
        }
        if i < s.len() {
            assert(s.drop_first()[i - 1] == s[i]);
        }
        lemma_u32_position(s.drop_first(), v, i - 1);
    }
}

impl Registry {
    /// Active rules the filter lets through, in priority order (priority
    /// descending, then id).
    pub fn list_rules(&self, filter: &RuleFilter) -> (r: Vec<&Rule>)
        ensures
            deref_rules(r@) == by_priority(filtered(active_rules(self@), *filter)),
    {
        let all = self.active_rule_refs();
        let ghost av = deref_rules(all@);
        let mut kept: Vec<&Rule> = Vec::new();
        let mut i: usize = 0;
        assert(av.take(0) =~= Seq::<Rule>::empty());
        assert(deref_rules(kept@) =~= Seq::<Rule>::empty());
        while i < all.len()
            invariant
                i <= all@.len(),
                av == deref_rules(all@),
                av.len() == all@.len(),
                deref_rules(kept@) == filtered(av.take(i as int), *filter),
            decreases all@.len() - i,
        {
            assert(av.take(i + 1).drop_last() =~= av.take(i as int));
            assert(av.take(i + 1).last() == *all@[i as int]);
            if filter.matches(all[i]) {
                let ghost before = kept@;
                kept.push(all[i]);
                assert(deref_rules(kept@) =~= deref_rules(before).push(*all@[i as int]));
            }
            i = i + 1;
        }
        assert(av.take(i as int) =~= av);
        sort_by_priority(kept)
    }

    /// The versions stored for an id, ascending.
    pub fn list_versions(&self, id: &str) -> (r: Vec<u32>)
        ensures
            r@ == ascending(versions_of(self@.rules, id@)),
    {
        let ghost rs = self@.rules;
        let mut found: Vec<u32> = Vec::new();
        let mut i: usize = 0;
        assert(rs.take(0) =~= Seq::<Rule>::empty());
        while i < self.rules.len()
            invariant
                i <= self.rules@.len(),
                rs == self.rules@,
                found@ == versions_of(rs.take(i as int), id@),
            decreases self.rules@.len() - i,
        {
            assert(rs.take(i + 1).drop_last() =~= rs.take(i as int));
            assert(rs.take(i + 1).last() == rs[i as int]);
            if str_eq(self.rules[i].id.as_str(), id) {
                found.push(self.rules[i].version);
            }
            i = i + 1;
        }
        assert(rs.take(i as int) =~= rs);
        let ghost orig = found@;
        let mut out: Vec<u32> = Vec::new();
        let mut j: usize = 0;
        assert(orig.take(0) =~= Seq::<u32>::empty());
        while j < found.len()
            invariant
                j <= found@.len(),
                orig == found@,
                out@ == ascending(orig.take(j as int)),
            decreases found@.len() - j,
        {
            assert(orig.take(j + 1).drop_last() =~= orig.take(j as int));
            assert(orig.take(j + 1).last() == orig[j as int]);
            let v = found[j];
            let ghost sv = out@;
            let mut p: usize = 0;
            while p < out.len()
                invariant
                    p <= out@.len(),
                    sv == out@,
                    forall|q: int| 0 <= q < p ==> !(v < #[trigger] sv[q]),
                ensures
                    p <= sv.len(),
                    forall|q: int| 0 <= q < p ==> !(v < #[trigger] sv[q]),
                    p == sv.len() || v < sv[p as int],
                decreases out@.len() - p,
            {
                if v < out[p] {
                    break;
                }
                p = p + 1;
            }
            proof {
                lemma_u32_position(sv, v, p as int);
            }
            out.insert(p, v);
            j = j + 1;
        }
        assert(orig.take(j as int) =~= orig);
        out
    }

    /// The rulesets, in name order.
    pub fn list_rulesets(&self) -> (r: Vec<&Ruleset>)
        ensures
            deref_rulesets(r@) == by_name(self@.rulesets),
    {
        let ghost orig = self@.rulesets;
        let mut out: Vec<&Ruleset> = Vec::new();
        let mut k: usize = 0;
        assert(orig.take(0) =~= Seq::<Ruleset>::empty());
        assert(deref_rulesets(out@) =~= Seq::<Ruleset>::empty());
        while k < self.rulesets.len()
            invariant
                k <= self.rulesets@.len(),
                orig == self.rulesets@,
                deref_rulesets(out@) == by_name(orig.take(k as int)),
            decreases self.rulesets@.len() - k,
        {
            assert(orig.take(k + 1).drop_last() =~= orig.take(k as int));
            assert(orig.take(k + 1).last() == orig[k as int]);
            let e = &self.rulesets[k];
            let ghost sv = deref_rulesets(out@);
            let ec = chars_of(e.name.as_str());
            let mut i: usize = 0;
            while i < out.len()
                invariant
                    i <= out@.len(),
                    sv == deref_rulesets(out@),
                    sv.len() == out@.len(),
                    ec@ == e.name@,
                    forall|j: int| 0 <= j < i ==> lex_order(e.name@, #[trigger] sv[j].name@) != Ord3::Less,
                ensures
                    i <= sv.len(),
                    forall|j: int| 0 <= j < i ==> lex_order(e.name@, #[trigger] sv[j].name@) != Ord3::Less,
                    i == sv.len() || lex_order(e.name@, sv[i as int].name@) == Ord3::Less,
                decreases out@.len() - i,
            {
                assert(sv[i as int] == *out@[i as int]);
                let oc = chars_of(out[i].name.as_str());
                if compare_chars(ec.as_slice(), oc.as_slice()) == Ord3::Less {
                    break;
                }
                i = i + 1;
            }
            proof {
                lemma_name_position(sv, *e, i as int);
            }
            out.insert(i, e);
            assert(deref_rulesets(out@) =~= sv.insert(i as int, *e));
            k = k + 1;
        }
        assert(orig.take(k as int) =~= orig);
        out
    }
}

impl Registry {
    /// The rules a request evaluates (see `request_rules`).
    pub fn rules_for_request(&self, req: &EvaluationRequest) -> (r: Result<Vec<&Rule>, EvaluationError>)
        ensures
            match request_rules(self@, *req) {
                Ok(rs) => r matches Ok(v) && deref_rules(v@) == rs,
                Err(e) => r matches Err(x) && x@ == e,
            },
    {
        match &req.rule_id {
            Some(rule_id) => {
                match self.get_rule(rule_id.as_str()) {
                    None => Err(EvaluationError::Registry(RegistryError::NotFound(rule_id.clone()))),
                    Some(rule) => {
                        let mut v: Vec<&Rule> = Vec::new();
                        if rule.enabled {
                            v.push(rule);
                            assert(deref_rules(v@) =~= seq![*rule]);
                        } else {
                            assert(deref_rules(v@) =~= Seq::<Rule>::empty());
                        }
                        Ok(v)
                    },
                }
            },
            None => match &req.ruleset {
                Some(name) => {
                    match self.get_ruleset(name.as_str()) {
                        None => Err(
                            EvaluationError::Registry(RegistryError::RulesetNotFound(name.clone())),
                        ),
                        Some(rs) => {
                            let ghost ids = rs.rule_ids@;
                            let mut v: Vec<&Rule> = Vec::new();
                            let mut i: usize = 0;
                            assert(ids.take(0) =~= Seq::<String>::empty());
                            assert(deref_rules(v@) =~= Seq::<Rule>::empty());
                            while i < rs.rule_ids.len()
                                invariant
                                    i <= rs.rule_ids@.len(),
                                    ids == rs.rule_ids@,
                                    deref_rules(v@) == enabled_members(self@, ids.take(i as int)),
                                decreases rs.rule_ids@.len() - i,
                            {
                                assert(ids.take(i + 1).drop_last() =~= ids.take(i as int));
                                assert(ids.take(i + 1).last() == ids[i as int]);
                                match self.get_rule(rs.rule_ids[i].as_str()) {
                                    Some(rule) => {
                                        if rule.enabled {
                                            let ghost before = v@;
                                            v.push(rule);
                                            assert(deref_rules(v@) =~= deref_rules(before).push(*rule));
                                        }
                                    },
                                    None => {},
                                }
                                i = i + 1;
                            }
                            assert(ids.take(i as int) =~= ids);
                            Ok(sort_by_priority(v))
                        },
                    }
                },
                None => {
                    let all = self.active_rule_refs();
                    let ghost av = deref_rules(all@);
                    let mut kept: Vec<&Rule> = Vec::new();
                    let mut i: usize = 0;
                    assert(av.take(0) =~= Seq::<Rule>::empty());
                    assert(deref_rules(kept@) =~= Seq::<Rule>::empty());
                    while i < all.len()
                        invariant
                            i <= all@.len(),
                            av == deref_rules(all@),
                            av.len() == all@.len(),
                            deref_rules(kept@) == enabled_only(av.take(i as int)),
                        decreases all@.len() - i,
                    {
                        assert(av.take(i + 1).drop_last() =~= av.take(i as int));
                        assert(av.take(i + 1).last() == *all@[i as int]);
                        if all[i].enabled {
                            let ghost before = kept@;
                            kept.push(all[i]);
                            assert(deref_rules(kept@) =~= deref_rules(before).push(*all@[i as int]));
                        }
                        i = i + 1;
                    }
                    assert(av.take(i as int) =~= av);
                    Ok(sort_by_priority(kept))
                },
            },
        }
    }

    /// Evaluates a request: the response, and the names of the events its
    /// `trigger` actions raised, for the caller to dispatch.
    ///
    /// The rules evaluated are those of `request_rules`; `call_rule` reaches
    /// the active rules; the clock gives the current instant and, under a
    /// time budget, how many rules start.
    pub fn evaluate_full(&self, req: &EvaluationRequest) -> (r: Result<
        (EvaluationResponse, Vec<String>),
        EvaluationError,
    >)
        ensures
            match request_rules(self@, *req) {
                Err(e) => r matches Err(x) && x@ == e,
                Ok(rs) => exists|now: (i64, u32), k: int, lib: Seq<&Rule>|
                    0 <= k <= rs.len() && (req.timeout_ms is None ==> k == rs.len()) && (req.timeout_ms
                        == Some(0u64) ==> k == 0) && deref_rules(lib)
                        == active_rules(self@) && match r {
                        Ok((resp, trig)) => #[trigger] evaluation_spec(
                            rs,
                            k,
                            req.context@,
                            req.strategy,
                            req.dry_run,
                            self@.max_call_depth as int,
                            now,
                            lib,
                        ) == Ok::<EvalOutcome, EvalErrorView>(response_outcome(resp, trig@))
                            && resp.matched == (resp.matched_rules@.len() > 0) && resp.duration_us
                            == resp.trace.total_duration_us,
                        Err(e) => evaluation_spec(
                            rs,
                            k,
                            req.context@,
                            req.strategy,
                            req.dry_run,
                            self@.max_call_depth as int,
                            now,
                            lib,
                        ) == Err::<EvalOutcome, EvalErrorView>(e@),
                    },
            },
    {
        let rules = match self.rules_for_request(req) {
            Ok(v) => v,
            Err(e) => {
                return Err(e);
            },
        };
        let lib = self.active_rule_refs();
        let cfg = EvalConfig {
            strategy: &req.strategy,
            dry_run: req.dry_run,
            timeout_ms: req.timeout_ms,
            max_call_depth: self.max_call_depth,
            rule_lookup: &lib,
            now: crate::operators::utc_now(),
        };
        let res = evaluate_refs(&rules, &req.context, &cfg);
        let ghost rs = deref_rules(rules@);
        let ghost k = choose|k: int|
            0 <= k <= rs.len() && (cfg.timeout_ms is None ==> k == rs.len()) && (cfg.timeout_ms
                == Some(0u64) ==> k == 0) && match res {
                Ok(out) => #[trigger] evaluation_spec(
                    rs,
                    k,
                    req.context@,
                    req.strategy,
                    req.dry_run,
                    cfg.max_call_depth as int,
                    cfg.now,
                    lib@,
                ) == Ok::<EvalOutcome, EvalErrorView>(outcome_of(out)),
                Err(e) => evaluation_spec(
                    rs,
                    k,
                    req.context@,
                    req.strategy,
                    req.dry_run,
                    cfg.max_call_depth as int,
                    cfg.now,
                    lib@,
                ) == Err::<EvalOutcome, EvalErrorView>(e@),
            };
        match res {
            Ok((trace, output, matched, tags, triggered)) => {
                let resp = EvaluationResponse {
                    matched: matched.len() > 0,
                    matched_rules: matched,
                    tags,
                    output_context: output,
                    duration_us: trace.total_duration_us,
                    trace,
                };
                assert(evaluation_spec(rs, k, req.context@, req.strategy, req.dry_run,
                    self@.max_call_depth as int, cfg.now, lib@) == Ok::<EvalOutcome, EvalErrorView>(
                    response_outcome(resp, triggered@)));
                Ok((resp, triggered))
            },
            Err(e) => {
                assert(evaluation_spec(rs, k, req.context@, req.strategy, req.dry_run,
                    self@.max_call_depth as int, cfg.now, lib@) == Err::<EvalOutcome, EvalErrorView>(e@));
                Err(e)
            },
        }
    }

    /// Evaluates a request, leaving out the raised events.
    pub fn evaluate(&self, req: &EvaluationRequest) -> (r: Result<EvaluationResponse, EvaluationError>)
        ensures
            match request_rules(self@, *req) {
                Err(e) => r matches Err(x) && x@ == e,
                Ok(rs) => exists|now: (i64, u32), k: int, lib: Seq<&Rule>|
                    0 <= k <= rs.len() && (req.timeout_ms is None ==> k == rs.len()) && (req.timeout_ms
                        == Some(0u64) ==> k == 0) && deref_rules(lib)
                        == active_rules(self@) && match #[trigger] evaluation_spec(
                        rs,
                        k,
                        req.context@,
                        req.strategy,
                        req.dry_run,
                        self@.max_call_depth as int,
                        now,
                        lib,
                    ) {
                        Ok(o) => r matches Ok(resp) && without_events(o) == response_outcome(
                            resp,
                            Seq::empty(),
                        ) && resp.matched == (resp.matched_rules@.len() > 0) && resp.duration_us
                            == resp.trace.total_duration_us,
                        Err(e) => r matches Err(x) && x@ == e,
                    },
            },
    {
        match self.evaluate_full(req) {
            Ok((resp, trig)) => {
                assert(string_views(Seq::<String>::empty()) =~= Seq::<Seq<char>>::empty());
                assert(without_events(response_outcome(resp, trig@)) == response_outcome(
                    resp,
                    Seq::empty(),
                ));
                Ok(resp)
            },
            Err(e) => Err(e),
        }
    }
}

/// An outcome with its raised events left out.
pub open spec fn without_events(o: EvalOutcome) -> EvalOutcome {
    EvalOutcome { triggered: Seq::empty(), ..o }
}

} // verus!
