//! What the registry's operations promise of one another: a rule read back
//! after it was added, the active version being the highest one added, what
//! disabling and ruleset replacement leave in place, priority order, and
//! that only enabled rules are evaluated.
use vstd::prelude::*;
use crate::registry::{
    active_rules, enabled_members, enabled_only, request_rules,
    by_priority, priority_before, priority_position,
    active_index, disable_model, insert_model, load_model, put_ruleset, rule_of, ruleset_index,
    ruleset_of, set_version, store_rule, stored_index, version_of, RegistryModel,
};
use crate::schema::{EvaluationRequest, Rule};

verus! {

proof fn lemma_active_first(a: Seq<(Seq<char>, u32)>, id: Seq<char>)
    ensures
        match active_index(a, id) {
            Some(i) => 0 <= i < a.len() && a[i].0 == id && forall|j: int| 0 <= j < i ==> a[j].0 != id,
            None => forall|j: int| 0 <= j < a.len() ==> a[j].0 != id,
        },
    decreases a.len(),
{
    if a.len() > 0 {
        lemma_active_first(a.drop_last(), id);
        assert forall|j: int| 0 <= j < a.len() - 1 implies a.drop_last()[j] == a[j] by {}
    }
}

proof fn lemma_stored_first(rules: Seq<Rule>, id: Seq<char>, v: u32)
    ensures
        match stored_index(rules, id, v) {
            Some(i) => 0 <= i < rules.len() && rules[i].id@ == id && rules[i].version == v && forall|j: int|
                0 <= j < i ==> !(rules[j].id@ == id && rules[j].version == v),
            None => forall|j: int| 0 <= j < rules.len() ==> !(rules[j].id@ == id && rules[j].version == v),
        },
    decreases rules.len(),
{
    if rules.len() > 0 {
        lemma_stored_first(rules.drop_last(), id, v);
        assert forall|j: int| 0 <= j < rules.len() - 1 implies rules.drop_last()[j] == rules[j] by {}
    }
}

proof fn lemma_ruleset_first(s: Seq<crate::schema::Ruleset>, name: Seq<char>)
    ensures
        match ruleset_index(s, name) {
            Some(i) => 0 <= i < s.len() && s[i].name@ == name && forall|j: int|
                0 <= j < i ==> s[j].name@ != name,
            None => forall|j: int| 0 <= j < s.len() ==> s[j].name@ != name,
        },
    decreases s.len(),
{
    if s.len() > 0 {
        lemma_ruleset_first(s.drop_last(), name);
        assert forall|j: int| 0 <= j < s.len() - 1 implies s.drop_last()[j] == s[j] by {}
    }
}

/// Two active lists that agree on where `id` stands agree on its index.
proof fn lemma_active_same(a: Seq<(Seq<char>, u32)>, b: Seq<(Seq<char>, u32)>, id: Seq<char>)
    requires
        a.len() == b.len(),
        forall|j: int| 0 <= j < a.len() ==> (a[j].0 == id <==> b[j].0 == id),
    ensures
        active_index(a, id) == active_index(b, id),
{
    lemma_active_first(a, id);
    lemma_active_first(b, id);
    match (active_index(a, id), active_index(b, id)) {
        (Some(i), Some(k)) => {
            if i < k {
                assert(b[i].0 == id);
            } else if k < i {
                assert(a[k].0 == id);
            }
        },
        (Some(i), None) => {
            assert(b[i].0 == id);
        },
        (None, Some(k)) => {
            assert(a[k].0 == id);
        },
        (None, None) => {},
    }
}

/// After `set_version`, `id` stands at version `v`, and every other id is
/// where it was.
proof fn lemma_set_version(a: Seq<(Seq<char>, u32)>, id: Seq<char>, v: u32, other: Seq<char>)
    ensures
        match active_index(set_version(a, id, v), id) {
            Some(i) => set_version(a, id, v)[i] == (id, v),
            None => false,
        },
        other != id ==> active_index(set_version(a, id, v), other) == active_index(a, other),
        other != id ==> match active_index(a, other) {
            Some(i) => set_version(a, id, v)[i] == a[i],
            None => true,
        },
{
    let s = set_version(a, id, v);
    lemma_active_first(a, id);
    lemma_active_first(a, other);
    lemma_active_first(s, id);
    match active_index(a, id) {
        Some(i) => {
            assert(s == a.update(i, (id, v)));
            lemma_active_same(a, s, id);
            if other != id {
                lemma_active_same(a, s, other);
            }
        },
        None => {
            assert(s == a.push((id, v)));
            assert(s[a.len() as int].0 == id);
            if other != id {
                assert(s.drop_last() =~= a);
                assert(active_index(s, other) == active_index(a, other));
            }
        },
    }
}

/// Two rule lists that agree on where `(id, v)` stands agree on its index.
proof fn lemma_stored_same(a: Seq<Rule>, b: Seq<Rule>, id: Seq<char>, v: u32)
    requires
        a.len() == b.len(),
        forall|j: int|
            0 <= j < a.len() ==> ((a[j].id@ == id && a[j].version == v) <==> (b[j].id@ == id
                && b[j].version == v)),
    ensures
        stored_index(a, id, v) == stored_index(b, id, v),
{
    lemma_stored_first(a, id, v);
    lemma_stored_first(b, id, v);
    match (stored_index(a, id, v), stored_index(b, id, v)) {
        (Some(i), Some(k)) => {
            if i < k {
                assert(b[i].id@ == id && b[i].version == v);
            } else if k < i {
                assert(a[k].id@ == id && a[k].version == v);
            }
        },
        (Some(i), None) => {
            assert(b[i].id@ == id && b[i].version == v);
        },
        (None, Some(k)) => {
            assert(a[k].id@ == id && a[k].version == v);
        },
        (None, None) => {},
    }
}

/// After `store_rule`, `r` is found under its id and version, and every
/// other `(id, version)` finds what it found before.
proof fn lemma_store_rule(rules: Seq<Rule>, r: Rule, id: Seq<char>, v: u32)
    ensures
        match stored_index(store_rule(rules, r), r.id@, r.version) {
            Some(k) => store_rule(rules, r)[k] == r,
            None => false,
        },
        !(id == r.id@ && v == r.version) ==> stored_index(store_rule(rules, r), id, v) == stored_index(
            rules,
            id,
            v,
        ),
        !(id == r.id@ && v == r.version) ==> match stored_index(rules, id, v) {
            Some(k) => store_rule(rules, r)[k] == rules[k],
            None => true,
        },
{
    let s = store_rule(rules, r);
    lemma_stored_first(rules, r.id@, r.version);
    lemma_stored_first(rules, id, v);
    lemma_stored_first(s, r.id@, r.version);
    match stored_index(rules, r.id@, r.version) {
        Some(i) => {
            assert(s == rules.update(i, r));
            lemma_stored_same(rules, s, r.id@, r.version);
            if !(id == r.id@ && v == r.version) {
                lemma_stored_same(rules, s, id, v);
            }
        },
        None => {
            assert(s == rules.push(r));
            assert(s[rules.len() as int] == r);
            if !(id == r.id@ && v == r.version) {
                assert(s.drop_last() =~= rules);
                assert(stored_index(s, id, v) == stored_index(rules, id, v));
            }
        },
    }
}

/// Adding a rule makes its version the active one exactly when no higher
/// version of its id is active: the active version of an id is the highest
/// version added.
pub proof fn law_active_version_is_highest(m: RegistryModel, r: Rule)
    ensures
        version_of(insert_model(m, r), r.id@) == Some(
            match version_of(m, r.id@) {
                Some(c) => if r.version >= c {
                    r.version
                } else {
                    c
                },
                None => r.version,
            },
        ),
{
    lemma_set_version(m.active, r.id@, r.version, r.id@);
    lemma_active_first(m.active, r.id@);
}

/// A rule read back after it was added is that rule, unless a higher
/// version of its id is active, in which case the read is unchanged.
pub proof fn law_upsert_then_get(m: RegistryModel, r: Rule)
    ensures
        rule_of(insert_model(m, r), r.id@) == match version_of(m, r.id@) {
            Some(c) => if r.version >= c {
                Some(r)
            } else {
                rule_of(m, r.id@)
            },
            None => Some(r),
        },
{
    let n = insert_model(m, r);
    law_active_version_is_highest(m, r);
    lemma_store_rule(m.rules, r, r.id@, r.version);
    match version_of(m, r.id@) {
        Some(c) => {
            if r.version < c {
                lemma_store_rule(m.rules, r, r.id@, c);
            }
        },
        None => {},
    }
}

/// Adding a rule leaves what every other id reads unchanged.
pub proof fn law_upsert_keeps_others(m: RegistryModel, r: Rule, id: Seq<char>)
    requires
        id != r.id@,
    ensures
        version_of(insert_model(m, r), id) == version_of(m, id),
        rule_of(insert_model(m, r), id) == rule_of(m, id),
{
    let cur = match version_of(m, r.id@) {
        Some(v) => v,
        None => 0,
    };
    if r.version >= cur {
        lemma_set_version(m.active, r.id@, r.version, id);
    }
    assert(version_of(insert_model(m, r), id) == version_of(m, id));
    match version_of(m, id) {
        Some(v) => {
            lemma_store_rule(m.rules, r, id, v);
        },
        None => {},
    }
}

/// After a batch of rules is added, each id that occurs in it is active at
/// a version at least as high as any of its versions in the batch.
pub proof fn law_load_keeps_highest(m: RegistryModel, rs: Seq<Rule>, i: int)
    requires
        0 <= i < rs.len(),
    ensures
        version_of(load_model(m, rs), rs[i].id@) matches Some(v) && v >= rs[i].version,
    decreases rs.len(),
{
    let last = rs.last();
    let prev = load_model(m, rs.drop_last());
    law_active_version_is_highest(prev, last);
    if i < rs.len() - 1 {
        law_load_keeps_highest(m, rs.drop_last(), i);
        assert(rs.drop_last()[i] == rs[i]);
        if rs[i].id@ != last.id@ {
            law_upsert_keeps_others(prev, last, rs[i].id@);
        }
    }
}

/// Disabling an id leaves its active rule in place with `enabled` off, and
/// every other id's rule unchanged.
pub proof fn law_disable_then_get(m: RegistryModel, id: Seq<char>, other: Seq<char>)
    ensures
        rule_of(disable_model(m, id), id) == match rule_of(m, id) {
            Some(r) => Some(Rule { enabled: false, ..r }),
            None => None,
        },
        other != id ==> rule_of(disable_model(m, id), other) == rule_of(m, other),
        version_of(disable_model(m, id), other) == version_of(m, other),
{
    match version_of(m, id) {
        Some(v) => match stored_index(m.rules, id, v) {
            Some(k) => {
                lemma_stored_first(m.rules, id, v);
                let s = m.rules.update(k, Rule { enabled: false, ..m.rules[k] });
                lemma_stored_same(m.rules, s, id, v);
                match version_of(m, other) {
                    Some(w) => {
                        lemma_stored_same(m.rules, s, other, w);
                        lemma_stored_first(m.rules, other, w);
                    },
                    None => {},
                }
            },
            None => {},
        },
        None => {},
    }
}

/// A ruleset read back after it was added is that ruleset; other names
/// read what they read before.
pub proof fn law_ruleset_upsert_then_get(m: RegistryModel, rs: crate::schema::Ruleset, other: Seq<char>)
    ensures
        ruleset_of(put_ruleset(m, rs), rs.name@) == Some(rs),
        other != rs.name@ ==> ruleset_of(put_ruleset(m, rs), other) == ruleset_of(m, other),
{
    let s = put_ruleset(m, rs).rulesets;
    lemma_ruleset_first(m.rulesets, rs.name@);
    lemma_ruleset_first(m.rulesets, other);
    lemma_ruleset_first(s, rs.name@);
    lemma_ruleset_first(s, other);
    match ruleset_index(m.rulesets, rs.name@) {
        Some(i) => {
            assert(s == m.rulesets.update(i, rs));
            if let Some(k) = ruleset_index(s, rs.name@) {
                if k < i {
                    assert(s[k] == m.rulesets[k]);
                } else if k > i {
                    assert(s[i].name@ == rs.name@);
                }
            }
            if other != rs.name@ {
                match (ruleset_index(s, other), ruleset_index(m.rulesets, other)) {
                    (Some(a), Some(b)) => {
                        if a < b {
                            assert(s[a] == m.rulesets[a] || a == i);
                        } else if b < a {
                            assert(s[b] == m.rulesets[b] || b == i);
                        }
                    },
                    (Some(a), None) => {
                        assert(a != i);
                        assert(s[a] == m.rulesets[a]);
                    },
                    (None, Some(b)) => {
                        assert(b != i);
                        assert(s[b] == m.rulesets[b]);
                    },
                    (None, None) => {},
                }
            }
        },
        None => {
            assert(s == m.rulesets.push(rs));
            assert(s.drop_last() =~= m.rulesets);
            assert(s.last() == rs);
        },
    }
}

proof fn lemma_priority_position(t: Seq<Rule>, e: Rule)
    ensures
        0 <= priority_position(t, e) <= t.len(),
        forall|k: int| 0 <= k < priority_position(t, e) ==> !priority_before(e, #[trigger] t[k]),
        priority_position(t, e) < t.len() ==> priority_before(e, t[priority_position(t, e)]),
    decreases t.len(),
{
    if t.len() > 0 && !priority_before(e, t[0]) {
        lemma_priority_position(t.drop_first(), e);
        assert forall|k: int| 0 < k < priority_position(t, e) implies !priority_before(e, #[trigger] t[k]) by {
            assert(t[k] == t.drop_first()[k - 1]);
        }
    }
}

/// Rules are listed and evaluated by priority, highest first: the priority
/// order keeps every rule and never puts a lower priority before a higher
/// one.
pub proof fn law_priority_order(s: Seq<Rule>)
    ensures
        by_priority(s).len() == s.len(),
        forall|i: int, j: int|
            0 <= i < j < s.len() ==> (#[trigger] by_priority(s)[i]).priority >= (
            #[trigger] by_priority(s)[j]).priority,
    decreases s.len(),
{
    if s.len() > 0 {
        let t = by_priority(s.drop_last());
        let e = s.last();
        law_priority_order(s.drop_last());
        lemma_priority_position(t, e);
        let p = priority_position(t, e);
        let u = by_priority(s);
        assert(u == t.insert(p, e));
        assert forall|i: int, j: int| 0 <= i < j < s.len() implies (#[trigger] u[i]).priority >= (
        #[trigger] u[j]).priority by {
            if j < p {
                assert(u[i] == t[i] && u[j] == t[j]);
            } else if j == p {
                assert(u[j] == e && u[i] == t[i]);
                assert(!priority_before(e, t[i]));
            } else if i < p {
                assert(u[i] == t[i] && u[j] == t[j - 1]);
            } else if i == p {
                assert(u[i] == e && u[j] == t[j - 1]);
                assert(priority_before(e, t[p]));
                assert(t[p].priority >= t[j - 1].priority || j - 1 == p);
            } else {
                assert(u[i] == t[i - 1] && u[j] == t[j - 1]);
            }
        }
    }
}

/// All rules of a list are enabled.
pub open spec fn all_enabled(s: Seq<Rule>) -> bool {
    forall|i: int| 0 <= i < s.len() ==> (#[trigger] s[i]).enabled
}

proof fn lemma_enabled_only(s: Seq<Rule>)
    ensures
        all_enabled(enabled_only(s)),
    decreases s.len(),
{
    if s.len() > 0 {
        lemma_enabled_only(s.drop_last());
        let p = enabled_only(s.drop_last());
        if s.last().enabled {
            assert forall|i: int| 0 <= i < p.len() + 1 implies (#[trigger] p.push(s.last())[i]).enabled by {
                if i < p.len() {
                    assert(p.push(s.last())[i] == p[i]);
                }
            }
        }
    }
}

proof fn lemma_enabled_members(m: RegistryModel, ids: Seq<String>)
    ensures
        all_enabled(enabled_members(m, ids)),
    decreases ids.len(),
{
    if ids.len() > 0 {
        lemma_enabled_members(m, ids.drop_last());
        let p = enabled_members(m, ids.drop_last());
        match rule_of(m, ids.last()@) {
            Some(r) => {
                if r.enabled {
                    assert forall|i: int| 0 <= i < p.len() + 1 implies (#[trigger] p.push(r)[i]).enabled by {
                        if i < p.len() {
                            assert(p.push(r)[i] == p[i]);
                        }
                    }
                }
            },
            None => {},
        }
    }
}

proof fn lemma_by_priority_members(s: Seq<Rule>)
    ensures
        by_priority(s).len() == s.len(),
        forall|i: int| 0 <= i < s.len() ==> s.contains(#[trigger] by_priority(s)[i]),
    decreases s.len(),
{
    if s.len() > 0 {
        let p0 = s.drop_last();
        lemma_by_priority_members(p0);
        let t = by_priority(p0);
        lemma_priority_position(t, s.last());
        let q = priority_position(t, s.last());
        assert forall|i: int| 0 <= i < s.len() implies s.contains(#[trigger] by_priority(s)[i]) by {
            if i < q {
                assert(by_priority(s)[i] == t[i]);
                assert(p0.contains(t[i]));
                let w = choose|w: int| 0 <= w < p0.len() && p0[w] == t[i];
                assert(s[w] == p0[w]);
            } else if i == q {
                assert(by_priority(s)[i] == s.last());
                assert(s[s.len() - 1] == s.last());
            } else {
                assert(by_priority(s)[i] == t[i - 1]);
                assert(p0.contains(t[i - 1]));
                let w = choose|w: int| 0 <= w < p0.len() && p0[w] == t[i - 1];
                assert(s[w] == p0[w]);
            }
        }
    }
}

proof fn lemma_by_priority_enabled(s: Seq<Rule>)
    requires
        all_enabled(s),
    ensures
        all_enabled(by_priority(s)),
{
    lemma_by_priority_members(s);
    assert forall|i: int| 0 <= i < by_priority(s).len() implies (#[trigger] by_priority(s)[i]).enabled by {
        let w = choose|w: int| 0 <= w < s.len() && s[w] == by_priority(s)[i];
        assert(s[w].enabled);
    }
}

/// Only enabled rules are evaluated: whatever a request names (a rule, a
/// ruleset or nothing), every rule it evaluates is enabled.
pub proof fn law_only_enabled_rules_evaluated(m: RegistryModel, req: EvaluationRequest)
    ensures
        request_rules(m, req) matches Ok(rs) ==> all_enabled(rs),
{
    match req.rule_id {
        Some(id) => {},
        None => match req.ruleset {
            Some(name) => match ruleset_of(m, name@) {
                Some(rs) => {
                    lemma_enabled_members(m, rs.rule_ids@);
                    lemma_by_priority_enabled(enabled_members(m, rs.rule_ids@));
                },
                None => {},
            },
            None => {
                lemma_enabled_only(active_rules(m));
                lemma_by_priority_enabled(enabled_only(active_rules(m)));
            },
        },
    }
}

} // verus!
