//! What every evaluation promises, whatever its rules and context: first
//! match reports at most one rule, the rules reported as matched are
//! exactly the evaluated rules whose conditions hold (whether a condition
//! holds does not depend on dry runs or early stopping), every evaluated
//! rule is traced, every rule the budget lets start is evaluated unless a
//! rule stops the evaluation, a dry run raises no event, still logs the
//! calls and triggers it reaches and traces every condition, and the scored
//! strategy ranks by score.
use vstd::prelude::*;
use crate::evaluator::{
    group_outcome, node_outcome, nodes_fold, GroupKind,
    action_value_spec, with_output, opt_value_view, increment_base, plain_number_text, get_at, with_log, set_at, path_parts, level_name,
    apply_ranked, evaluation_spec, ranks_before, finish_spec, rank_position, rank_scored, rule_step, rules_fold,
    run_actions, dedup, empty_actions_state, score_of, ActionStateView, FlowView, RunState, ScoredView,
};
use crate::json::{JValue, json_text};
use crate::schema::{Action, ConditionGroup, ConditionNode, Rule, Strategy};
use crate::number::{Number, spec_add};

verus! {

/// Counted and reported matches agree, and under first match at most one
/// rule is reported, after which the evaluation has halted.
pub open spec fn counts_agree(st: RunState, strategy: Strategy) -> bool {
    &&& st.matched_count == st.matched_ids.len()
    &&& strategy == Strategy::FirstMatch ==> st.matched_ids.len() <= 1 && (st.matched_ids.len() == 1
        ==> st.halted)
}

proof fn lemma_fold_counts(
    rules: Seq<Rule>,
    ctx: JValue,
    strategy: Strategy,
    dry: bool,
    max: int,
    now: (i64, u32),
    lib: Seq<&Rule>,
)
    requires
        strategy != Strategy::Scored,
    ensures
        rules_fold(rules, ctx, strategy, dry, max, now, lib) matches Ok(st) ==> counts_agree(st, strategy),
    decreases rules.len(),
{
    if rules.len() > 0 {
        lemma_fold_counts(rules.drop_last(), ctx, strategy, dry, max, now, lib);
        reveal(rule_step);
    }
}

/// Under the first-match and all-match strategies, the number of matching
/// rules equals the number of rules reported as matched; under first match
/// that number is at most one.
pub proof fn law_matched_rules_counted(
    rules: Seq<Rule>,
    k: int,
    ctx: JValue,
    strategy: Strategy,
    dry: bool,
    max: int,
    now: (i64, u32),
    lib: Seq<&Rule>,
)
    requires
        strategy != Strategy::Scored,
    ensures
        evaluation_spec(rules, k, ctx, strategy, dry, max, now, lib) matches Ok(o) ==> o.rules_matched
            == o.matched_rules.len() && (strategy == Strategy::FirstMatch ==> o.matched_rules.len()
            <= 1),
{
    lemma_fold_counts(rules.take(k), ctx, strategy, dry, max, now, lib);
}

/// A condition node holds on `ctx` (at instant `now`).
pub open spec fn node_holds(n: ConditionNode, ctx: JValue, now: (i64, u32)) -> bool {
    node_outcome(n, ctx, false, now).matched
}

/// A condition group holds on `ctx` (at instant `now`).
pub open spec fn group_holds(g: ConditionGroup, ctx: JValue, now: (i64, u32)) -> bool {
    group_outcome(g, ctx, false, now, false).matched
}

/// Walking a list of nodes, with or without early stopping, counts enough
/// passes to decide the list: all of them hold, or one of them does.
proof fn lemma_nodes_matched(
    nodes: Seq<ConditionNode>,
    kind: GroupKind,
    ctx: JValue,
    dry: bool,
    now: (i64, u32),
    full: bool,
)
    ensures
        nodes_fold(nodes, kind, ctx, dry, now, full).passed <= nodes.len(),
        kind is All ==> ((nodes_fold(nodes, kind, ctx, dry, now, full).passed == nodes.len()) == (forall|
            i: int,
        | 0 <= i < nodes.len() ==> node_holds(#[trigger] nodes[i], ctx, now))),
        !(kind is All) ==> ((nodes_fold(nodes, kind, ctx, dry, now, full).passed > 0) == (exists|i: int|
            0 <= i < nodes.len() && node_holds(#[trigger] nodes[i], ctx, now))),
        nodes_fold(nodes, kind, ctx, dry, now, full).stopped ==> (kind is All ==> exists|i: int|
            0 <= i < nodes.len() && !node_holds(#[trigger] nodes[i], ctx, now)),
        nodes_fold(nodes, kind, ctx, dry, now, full).stopped ==> (!(kind is All) ==> exists|i: int|
            0 <= i < nodes.len() && node_holds(#[trigger] nodes[i], ctx, now)),
    decreases nodes,
{
    if nodes.len() > 0 {
        let q = nodes.drop_last();
        let n = nodes.len() - 1;
        lemma_nodes_matched(q, kind, ctx, dry, now, full);
        lemma_node_matched(nodes.last(), ctx, dry, now);
        assert forall|i: int| 0 <= i < q.len() implies q[i] == nodes[i] by {}
        assert(nodes.last() == nodes[n]);
        let acc = nodes_fold(q, kind, ctx, dry, now, full);
        if acc.stopped {
            if kind is All {
                let i = choose|i: int| 0 <= i < q.len() && !node_holds(#[trigger] q[i], ctx, now);
                assert(!node_holds(nodes[i], ctx, now));
            } else {
                let i = choose|i: int| 0 <= i < q.len() && node_holds(#[trigger] q[i], ctx, now);
                assert(node_holds(nodes[i], ctx, now));
            }
        } else {
            if kind is All {
                if forall|i: int| 0 <= i < nodes.len() ==> node_holds(#[trigger] nodes[i], ctx, now) {
                    assert forall|i: int| 0 <= i < q.len() implies node_holds(#[trigger] q[i], ctx, now) by {
                        assert(node_holds(nodes[i], ctx, now));
                    }
                    assert(node_holds(nodes[n], ctx, now));
                } else {
                    let i = choose|i: int| 0 <= i < nodes.len() && !node_holds(#[trigger] nodes[i], ctx, now);
                    if i < n {
                        assert(!node_holds(q[i], ctx, now));
                    }
                }
            } else {
                if exists|i: int| 0 <= i < nodes.len() && node_holds(#[trigger] nodes[i], ctx, now) {
                    let i = choose|i: int| 0 <= i < nodes.len() && node_holds(#[trigger] nodes[i], ctx, now);
                    if i < n {
                        assert(node_holds(q[i], ctx, now));
                    }
                }
                if exists|i: int| 0 <= i < q.len() && node_holds(#[trigger] q[i], ctx, now) {
                    let i = choose|i: int| 0 <= i < q.len() && node_holds(#[trigger] q[i], ctx, now);
                    assert(node_holds(nodes[i], ctx, now));
                }
            }
        }
    }
}

/// Whether a node holds does not depend on the dry-run flag.
proof fn lemma_node_matched(n: ConditionNode, ctx: JValue, dry: bool, now: (i64, u32))
    ensures
        node_outcome(n, ctx, dry, now).matched == node_holds(n, ctx, now),
    decreases n,
{
    match n {
        ConditionNode::Group(g) => lemma_group_matched(g, ctx, dry, now, false),
        ConditionNode::Leaf(_) => {},
    }
}

/// Whether a condition group holds depends neither on the dry-run flag nor
/// on early stopping: both only change how much is traced.
pub proof fn law_group_match_ignores_tracing(g: ConditionGroup, ctx: JValue, dry: bool, now: (i64, u32), full: bool)
    ensures
        group_outcome(g, ctx, dry, now, full).matched == group_holds(g, ctx, now),
{
    lemma_group_matched(g, ctx, dry, now, full);
}

proof fn lemma_group_matched(g: ConditionGroup, ctx: JValue, dry: bool, now: (i64, u32), full: bool)
    ensures
        group_outcome(g, ctx, dry, now, full).matched == group_holds(g, ctx, now),
    decreases g,
{
    match g {
        ConditionGroup::All(a) => {
            lemma_nodes_matched(a.all@, GroupKind::All, ctx, dry, now, full);
            lemma_nodes_matched(a.all@, GroupKind::All, ctx, false, now, false);
        },
        ConditionGroup::Any(a) => {
            lemma_nodes_matched(a.any@, GroupKind::Any, ctx, dry, now, full);
            lemma_nodes_matched(a.any@, GroupKind::Any, ctx, false, now, false);
        },
        ConditionGroup::NoneOf(a) => {
            lemma_nodes_matched(a.none@, GroupKind::NoneOf, ctx, dry, now, full);
            lemma_nodes_matched(a.none@, GroupKind::NoneOf, ctx, false, now, false);
        },
        ConditionGroup::Not(n) => lemma_node_matched(*n.not, ctx, dry, now),
    }
}

/// The ids of the rules of `rules` whose conditions hold on `ctx`, in
/// order.
pub open spec fn holding_ids(rules: Seq<Rule>, ctx: JValue, now: (i64, u32)) -> Seq<Seq<char>>
    decreases rules.len(),
{
    if rules.len() == 0 {
        Seq::empty()
    } else {
        let p = holding_ids(rules.drop_last(), ctx, now);
        if group_holds(rules.last().conditions, ctx, now) {
            p.push(rules.last().id@)
        } else {
            p
        }
    }
}

proof fn lemma_fold_matched(
    rules: Seq<Rule>,
    ctx: JValue,
    strategy: Strategy,
    dry: bool,
    max: int,
    now: (i64, u32),
    lib: Seq<&Rule>,
)
    requires
        strategy != Strategy::Scored,
    ensures
        rules_fold(rules, ctx, strategy, dry, max, now, lib) matches Ok(st) ==> st.evaluated <= rules.len()
            && (!st.halted ==> st.evaluated == rules.len()) && st.matched_ids == holding_ids(
            rules.take(st.evaluated as int),
            ctx,
            now,
        ),
    decreases rules.len(),
{
    if rules.len() == 0 {
        assert(rules.take(0) =~= Seq::<Rule>::empty());
    } else {
        let q = rules.drop_last();
        lemma_fold_matched(q, ctx, strategy, dry, max, now, lib);
        lemma_group_matched(rules.last().conditions, ctx, dry, now, false);
        reveal(rule_step);
        match rules_fold(q, ctx, strategy, dry, max, now, lib) {
            Ok(st) => {
                assert(q.take(st.evaluated as int) =~= rules.take(st.evaluated as int));
                if !st.halted {
                    assert(rules.take(st.evaluated + 1int) =~= rules);
                    assert(rules.take(st.evaluated + 1int).drop_last() =~= q.take(st.evaluated as int));
                }
            },
            Err(_) => {},
        }
    }
}

/// Under the first-match and all-match strategies, the rules reported as
/// matched are, in order, exactly those of the evaluated rules (the first
/// `rules_evaluated` of them) whose conditions hold, dry run or not.
pub proof fn law_matched_rules_are_those_that_hold(
    rules: Seq<Rule>,
    k: int,
    ctx: JValue,
    strategy: Strategy,
    dry: bool,
    max: int,
    now: (i64, u32),
    lib: Seq<&Rule>,
)
    requires
        strategy != Strategy::Scored,
        0 <= k <= rules.len(),
    ensures
        evaluation_spec(rules, k, ctx, strategy, dry, max, now, lib) matches Ok(o) ==> o.rules_evaluated
            <= k && o.matched_rules == holding_ids(rules.take(o.rules_evaluated as int), ctx, now),
{
    lemma_fold_matched(rules.take(k), ctx, strategy, dry, max, now, lib);
    match rules_fold(rules.take(k), ctx, strategy, dry, max, now, lib) {
        Ok(st) => {
            assert(rules.take(k).take(st.evaluated as int) =~= rules.take(st.evaluated as int));
        },
        Err(_) => {},
    }
}

/// Running actions ended with the events of `st`, if it succeeded.
pub open spec fn events_kept(r: crate::evaluator::ActionsOutcome, st: ActionStateView) -> bool {
    r matches Ok((a, _)) ==> a.triggered == st.triggered
}

/// In a dry run, running actions raises no event: from any position of
/// any action list, at any call depth, a run that succeeds ends with the
/// events it started with.
pub proof fn law_dry_run_actions_raise_no_event(actions: Seq<Action>, i: int, ctx: JValue, depth: int, max: int, lib: Seq<&Rule>)
    ensures
        forall|st: ActionStateView|
            events_kept(#[trigger] run_actions(actions, i, st, ctx, depth, max, true, lib), st),
    decreases max - depth, actions.len() - i,
{
    if 0 <= i < actions.len() {
        law_dry_run_actions_raise_no_event(actions, i + 1, ctx, depth, max, lib);
        assert forall|st: ActionStateView|
            events_kept(#[trigger] run_actions(actions, i, st, ctx, depth, max, true, lib), st) by {
            let r = run_actions(actions, i, st, ctx, depth, max, true, lib);
            match actions[i] {
                Action::SetField { field, value } => {
                    match action_value_spec(value, ctx) {
                        Ok(v) => {
                            let n = with_output(
                                st,
                                set_at(st.output, path_parts(field@), v),
                                "set "@ + field@ + " = "@ + json_text(v),
                            );
                            assert(r == run_actions(actions, i + 1, n, ctx, depth, max, true, lib));
                        },
                        Err(_) => {},
                    }
                },
                Action::Increment { field, value } => {
                    let delta = match opt_value_view(value) {
                        Some(JValue::Number(n)) => n,
                        _ => Number { num: 1, den: 1, float: true },
                    };
                    let cur = match increment_base(st.output, ctx, field@) {
                        JValue::Number(n) => n,
                        _ => Number { num: 0, den: 1, float: true },
                    };
                    match spec_add(cur, delta) {
                        Some(sum) => {
                            let n = with_output(
                                st,
                                set_at(st.output, path_parts(field@), JValue::Number(sum)),
                                "increment "@ + field@ + " by "@ + plain_number_text(delta),
                            );
                            assert(r == run_actions(actions, i + 1, n, ctx, depth, max, true, lib));
                        },
                        None => {},
                    }
                },
                Action::Append { field, value } => {
                    match action_value_spec(value, ctx) {
                        Ok(v) => {
                            let nv = match get_at(st.output, path_parts(field@)) {
                                Some(JValue::Array(a)) => JValue::Array(a.push(v)),
                                _ => JValue::Array(seq![v]),
                            };
                            let n = with_output(
                                st,
                                set_at(st.output, path_parts(field@), nv),
                                "append "@ + field@,
                            );
                            assert(r == run_actions(actions, i + 1, n, ctx, depth, max, true, lib));
                        },
                        Err(_) => {},
                    }
                },
                Action::Tag { value } => {
                    let n = ActionStateView {
                        output: st.output,
                        tags: st.tags.push(value@),
                        triggered: st.triggered,
                        log: st.log.push("tag "@ + value@),
                    };
                    assert(r == run_actions(actions, i + 1, n, ctx, depth, max, true, lib));
                },
                Action::Log { level, message } => {
                    let n = with_log(st, "log["@ + level_name(level) + "] "@ + message@);
                    assert(r == run_actions(actions, i + 1, n, ctx, depth, max, true, lib));
                },
                Action::Trigger { event } => {
                    let n = ActionStateView {
                        output: st.output,
                        tags: st.tags,
                        triggered: st.triggered,
                        log: st.log.push("trigger "@ + event@),
                    };
                    assert(r == run_actions(actions, i + 1, n, ctx, depth, max, true, lib));
                },
                Action::CallRule { rule_id } => {
                    if depth < max {
                        let n = with_log(st, "call_rule "@ + rule_id@);
                        assert(r == run_actions(actions, i + 1, n, ctx, depth, max, true, lib));
                    }
                },
                Action::Return { value } => {},
            }
        }
    }
}

/// No event raised so far, by the kept rules or the scored ones.
pub open spec fn no_events(st: RunState) -> bool {
    &&& st.triggered.len() == 0
    &&& forall|j: int| 0 <= j < st.scored.len() ==> (#[trigger] st.scored[j]).triggered.len() == 0
}

proof fn lemma_fold_dry(
    rules: Seq<Rule>,
    ctx: JValue,
    strategy: Strategy,
    max: int,
    now: (i64, u32),
    lib: Seq<&Rule>,
)
    ensures
        rules_fold(rules, ctx, strategy, true, max, now, lib) matches Ok(st) ==> no_events(st),
    decreases rules.len(),
{
    if rules.len() > 0 {
        lemma_fold_dry(rules.drop_last(), ctx, strategy, max, now, lib);
        reveal(rule_step);
        let rule = rules.last();
        law_dry_run_actions_raise_no_event(rule.actions@, 0, ctx, 0, max, lib);
        assert(events_kept(
            run_actions(rule.actions@, 0, empty_actions_state(), ctx, 0, max, true, lib),
            empty_actions_state(),
        ));
        match rules_fold(rules.drop_last(), ctx, strategy, true, max, now, lib) {
            Ok(st) => {
                if !st.halted {
                    assert(st.triggered + Seq::<Seq<char>>::empty() =~= st.triggered);
                    match rules_fold(rules, ctx, strategy, true, max, now, lib) {
                        Ok(st2) => {
                            assert forall|j: int| 0 <= j < st2.scored.len() implies (
                            #[trigger] st2.scored[j]).triggered.len() == 0 by {
                                if j < st.scored.len() {
                                    assert(st.scored[j].triggered.len() == 0);
                                }
                            }
                        },
                        Err(_) => {},
                    }
                }
            },
            Err(_) => {},
        }
    }
}

proof fn lemma_rank_position(t: Seq<ScoredView>, e: ScoredView)
    ensures
        0 <= rank_position(t, e) <= t.len(),
    decreases t.len(),
{
    if t.len() > 0 {
        lemma_rank_position(t.drop_first(), e);
    }
}

/// Ranking keeps the entries: each ranked entry is one of the entries.
proof fn lemma_rank_members(s: Seq<ScoredView>)
    ensures
        rank_scored(s).len() == s.len(),
        forall|j: int| 0 <= j < s.len() ==> s.contains(#[trigger] rank_scored(s)[j]),
    decreases s.len(),
{
    if s.len() > 0 {
        let p = s.drop_last();
        lemma_rank_members(p);
        let t = rank_scored(p);
        lemma_rank_position(t, s.last());
        let q = rank_position(t, s.last());
        assert forall|j: int| 0 <= j < s.len() implies s.contains(#[trigger] rank_scored(s)[j]) by {
            if j < q {
                assert(rank_scored(s)[j] == t[j]);
                assert(p.contains(t[j]));
                let w = choose|w: int| 0 <= w < p.len() && p[w] == t[j];
                assert(s[w] == p[w]);
            } else if j == q {
                assert(rank_scored(s)[j] == s.last());
                assert(s[s.len() - 1] == s.last());
            } else {
                assert(rank_scored(s)[j] == t[j - 1]);
                assert(p.contains(t[j - 1]));
                let w = choose|w: int| 0 <= w < p.len() && p[w] == t[j - 1];
                assert(s[w] == p[w]);
            }
        }
    }
}

proof fn lemma_apply_ranked_dry(st: RunState, entries: Seq<ScoredView>)
    requires
        st.triggered.len() == 0,
        forall|j: int| 0 <= j < entries.len() ==> (#[trigger] entries[j]).triggered.len() == 0,
    ensures
        apply_ranked(st, entries).triggered.len() == 0,
    decreases entries.len(),
{
    if entries.len() > 0 {
        let p = entries.drop_last();
        assert forall|j: int| 0 <= j < p.len() implies (#[trigger] p[j]).triggered.len() == 0 by {
            assert(p[j] == entries[j]);
        }
        lemma_apply_ranked_dry(st, p);
        assert(entries.last() == entries[entries.len() - 1]);
    }
}

/// A dry run raises no event, whatever the strategy, rules and context.
pub proof fn law_dry_run_raises_no_event(
    rules: Seq<Rule>,
    k: int,
    ctx: JValue,
    strategy: Strategy,
    max: int,
    now: (i64, u32),
    lib: Seq<&Rule>,
)
    ensures
        evaluation_spec(rules, k, ctx, strategy, true, max, now, lib) matches Ok(o) ==> o.triggered.len()
            == 0,
{
    lemma_fold_dry(rules.take(k), ctx, strategy, max, now, lib);
    match rules_fold(rules.take(k), ctx, strategy, true, max, now, lib) {
        Ok(st) => {
            if strategy == Strategy::Scored {
                let ranked = rank_scored(st.scored);
                lemma_rank_members(st.scored);
                assert forall|j: int| 0 <= j < ranked.len() implies (#[trigger] ranked[j]).triggered.len()
                    == 0 by {
                    assert(st.scored.contains(ranked[j]));
                    let w = choose|w: int| 0 <= w < st.scored.len() && st.scored[w] == ranked[j];
                    assert(st.scored[w].triggered.len() == 0);
                }
                lemma_apply_ranked_dry(RunState { scored: Seq::empty(), ..st }, ranked);
            }
            let f = finish_spec(st, strategy, k < rules.len() && !st.halted);
            assert(dedup(Seq::<Seq<char>>::empty()) == Seq::<Seq<char>>::empty());
        },
        Err(_) => {},
    }
}

/// Every started rule has its trace, either already or among the scored.
pub open spec fn traces_complete(st: RunState, strategy: Strategy) -> bool {
    &&& st.traces.len() + st.scored.len() == st.evaluated
    &&& strategy != Strategy::Scored ==> st.scored.len() == 0
}

proof fn lemma_fold_traces(
    rules: Seq<Rule>,
    ctx: JValue,
    strategy: Strategy,
    dry: bool,
    max: int,
    now: (i64, u32),
    lib: Seq<&Rule>,
)
    ensures
        rules_fold(rules, ctx, strategy, dry, max, now, lib) matches Ok(st) ==> traces_complete(
            st,
            strategy,
        ),
    decreases rules.len(),
{
    if rules.len() > 0 {
        lemma_fold_traces(rules.drop_last(), ctx, strategy, dry, max, now, lib);
        reveal(rule_step);
    }
}

proof fn lemma_apply_ranked_traces(st: RunState, entries: Seq<ScoredView>)
    ensures
        apply_ranked(st, entries).traces.len() == st.traces.len() + entries.len(),
        apply_ranked(st, entries).evaluated == st.evaluated,
    decreases entries.len(),
{
    if entries.len() > 0 {
        lemma_apply_ranked_traces(st, entries.drop_last());
    }
}

/// The trace holds one entry for each rule evaluated.
pub proof fn law_one_trace_per_evaluated_rule(
    rules: Seq<Rule>,
    k: int,
    ctx: JValue,
    strategy: Strategy,
    dry: bool,
    max: int,
    now: (i64, u32),
    lib: Seq<&Rule>,
)
    ensures
        evaluation_spec(rules, k, ctx, strategy, dry, max, now, lib) matches Ok(o) ==> o.rules.len()
            == o.rules_evaluated,
{
    lemma_fold_traces(rules.take(k), ctx, strategy, dry, max, now, lib);
    match rules_fold(rules.take(k), ctx, strategy, dry, max, now, lib) {
        Ok(st) => {
            if strategy == Strategy::Scored {
                lemma_rank_members(st.scored);
                lemma_apply_ranked_traces(RunState { scored: Seq::empty(), ..st }, rank_scored(st.scored));
            }
        },
        Err(_) => {},
    }
}

proof fn lemma_nodes_dry(
    nodes: Seq<ConditionNode>,
    kind: GroupKind,
    ctx: JValue,
    now: (i64, u32),
    full: bool,
)
    ensures
        !nodes_fold(nodes, kind, ctx, true, now, full).short,
        !nodes_fold(nodes, kind, ctx, true, now, full).stopped,
    decreases nodes,
{
    if nodes.len() > 0 {
        lemma_nodes_dry(nodes.drop_last(), kind, ctx, now, full);
        lemma_node_dry(nodes.last(), ctx, now);
    }
}

proof fn lemma_node_dry(n: ConditionNode, ctx: JValue, now: (i64, u32))
    ensures
        !node_outcome(n, ctx, true, now).short,
    decreases n,
{
    match n {
        ConditionNode::Group(g) => law_dry_run_never_short_circuits(g, ctx, now, false),
        ConditionNode::Leaf(_) => {},
    }
}

/// In a dry run no condition group stops early: every condition is
/// evaluated and traced.
pub proof fn law_dry_run_never_short_circuits(g: ConditionGroup, ctx: JValue, now: (i64, u32), full: bool)
    ensures
        !group_outcome(g, ctx, true, now, full).short,
    decreases g,
{
    match g {
        ConditionGroup::All(a) => lemma_nodes_dry(a.all@, GroupKind::All, ctx, now, full),
        ConditionGroup::Any(a) => lemma_nodes_dry(a.any@, GroupKind::Any, ctx, now, full),
        ConditionGroup::NoneOf(a) => lemma_nodes_dry(a.none@, GroupKind::NoneOf, ctx, now, full),
        ConditionGroup::Not(n) => lemma_node_dry(*n.not, ctx, now),
    }
}

/// No trace so far, kept or scored, records an early stop.
pub open spec fn no_short_traces(st: RunState) -> bool {
    &&& forall|j: int| 0 <= j < st.traces.len() ==> !(#[trigger] st.traces[j]).short_circuited
    &&& forall|j: int| 0 <= j < st.scored.len() ==> !(#[trigger] st.scored[j]).trace.short_circuited
}

proof fn lemma_fold_dry_traces(
    rules: Seq<Rule>,
    ctx: JValue,
    strategy: Strategy,
    max: int,
    now: (i64, u32),
    lib: Seq<&Rule>,
)
    ensures
        rules_fold(rules, ctx, strategy, true, max, now, lib) matches Ok(st) ==> no_short_traces(st),
    decreases rules.len(),
{
    if rules.len() > 0 {
        lemma_fold_dry_traces(rules.drop_last(), ctx, strategy, max, now, lib);
        reveal(rule_step);
        let rule = rules.last();
        law_dry_run_never_short_circuits(rule.conditions, ctx, now, strategy == Strategy::Scored);
        match rules_fold(rules.drop_last(), ctx, strategy, true, max, now, lib) {
            Ok(st) => {
                if !st.halted {
                    match rules_fold(rules, ctx, strategy, true, max, now, lib) {
                        Ok(st2) => {
                            assert forall|j: int| 0 <= j < st2.traces.len() implies !(
                            #[trigger] st2.traces[j]).short_circuited by {
                                if j < st.traces.len() {
                                    assert(!st.traces[j].short_circuited);
                                }
                            }
                            assert forall|j: int| 0 <= j < st2.scored.len() implies !(
                            #[trigger] st2.scored[j]).trace.short_circuited by {
                                if j < st.scored.len() {
                                    assert(!st.scored[j].trace.short_circuited);
                                }
                            }
                        },
                        Err(_) => {},
                    }
                }
            },
            Err(_) => {},
        }
    }
}

proof fn lemma_apply_ranked_short(st: RunState, entries: Seq<ScoredView>)
    requires
        forall|j: int| 0 <= j < st.traces.len() ==> !(#[trigger] st.traces[j]).short_circuited,
        forall|j: int| 0 <= j < entries.len() ==> !(#[trigger] entries[j]).trace.short_circuited,
    ensures
        forall|j: int|
            0 <= j < apply_ranked(st, entries).traces.len() ==> !(#[trigger] apply_ranked(
                st,
                entries,
            ).traces[j]).short_circuited,
    decreases entries.len(),
{
    if entries.len() > 0 {
        let p = entries.drop_last();
        assert forall|j: int| 0 <= j < p.len() implies !(#[trigger] p[j]).trace.short_circuited by {
            assert(p[j] == entries[j]);
        }
        lemma_apply_ranked_short(st, p);
        let a = apply_ranked(st, p);
        let e = entries.last();
        assert(e == entries[entries.len() - 1]);
        let b = apply_ranked(st, entries);
        assert(b.traces == a.traces.push(e.trace));
        assert forall|j: int| 0 <= j < b.traces.len() implies !(#[trigger] b.traces[j]).short_circuited by {
            if j < a.traces.len() {
                assert(b.traces[j] == a.traces[j]);
            }
        }
    }
}

/// A dry run traces every condition of every evaluated rule: no rule trace
/// records an early stop.
pub proof fn law_dry_run_traces_in_full(
    rules: Seq<Rule>,
    k: int,
    ctx: JValue,
    strategy: Strategy,
    max: int,
    now: (i64, u32),
    lib: Seq<&Rule>,
)
    ensures
        evaluation_spec(rules, k, ctx, strategy, true, max, now, lib) matches Ok(o) ==> forall|j: int|
            0 <= j < o.rules.len() ==> !(#[trigger] o.rules[j]).short_circuited,
{
    lemma_fold_dry_traces(rules.take(k), ctx, strategy, max, now, lib);
    match rules_fold(rules.take(k), ctx, strategy, true, max, now, lib) {
        Ok(st) => {
            if strategy == Strategy::Scored {
                let ranked = rank_scored(st.scored);
                lemma_rank_members(st.scored);
                assert forall|j: int| 0 <= j < ranked.len() implies !(
                #[trigger] ranked[j]).trace.short_circuited by {
                    assert(st.scored.contains(ranked[j]));
                    let w = choose|w: int| 0 <= w < st.scored.len() && st.scored[w] == ranked[j];
                    assert(!st.scored[w].trace.short_circuited);
                }
                lemma_apply_ranked_short(RunState { scored: Seq::empty(), ..st }, ranked);
            }
        },
        Err(_) => {},
    }
}

/// `a`'s score is at least `b`'s (scores compared as fractions).
pub open spec fn score_at_least(a: ScoredView, b: ScoredView) -> bool {
    a.score_num * b.score_den >= b.score_num * a.score_den
}

proof fn lemma_rank_position_sides(t: Seq<ScoredView>, e: ScoredView)
    ensures
        forall|k: int| 0 <= k < rank_position(t, e) ==> !ranks_before(e, #[trigger] t[k]),
        rank_position(t, e) < t.len() ==> ranks_before(e, t[rank_position(t, e)]),
    decreases t.len(),
{
    lemma_rank_position(t, e);
    if t.len() > 0 && !ranks_before(e, t[0]) {
        lemma_rank_position_sides(t.drop_first(), e);
        lemma_rank_position(t.drop_first(), e);
        assert(t[rank_position(t, e)] == t.drop_first()[rank_position(t.drop_first(), e)] || rank_position(t, e) == t.len());
        assert forall|k: int| 0 < k < rank_position(t, e) implies !ranks_before(e, #[trigger] t[k]) by {
            assert(t[k] == t.drop_first()[k - 1]);
        }
    }
}

proof fn lemma_score_trans(a: ScoredView, b: ScoredView, c: ScoredView)
    requires
        a.score_den > 0,
        b.score_den > 0,
        c.score_den > 0,
        score_at_least(a, b),
        score_at_least(b, c),
    ensures
        score_at_least(a, c),
{
    let (an, ad, bn, bd, cn, cd) = (
        a.score_num as int,
        a.score_den as int,
        b.score_num as int,
        b.score_den as int,
        c.score_num as int,
        c.score_den as int,
    );
    assert(an * cd >= cn * ad) by (nonlinear_arith)
        requires
            ad > 0,
            bd > 0,
            cd > 0,
            an * bd >= bn * ad,
            bn * cd >= cn * bd,
    {
        assert(an * bd * cd >= bn * ad * cd);
        assert(bn * cd * ad >= cn * bd * ad);
        assert(an * cd * bd >= cn * ad * bd);
    }
}

/// The scored strategy ranks rules by score, highest first: along the
/// ranking, no rule has a higher score than one before it.
pub proof fn law_scored_ranking_by_score(s: Seq<ScoredView>)
    requires
        forall|i: int| 0 <= i < s.len() ==> (#[trigger] s[i]).score_den > 0,
    ensures
        rank_scored(s).len() == s.len(),
        forall|i: int, j: int|
            0 <= i < j < s.len() ==> score_at_least(#[trigger] rank_scored(s)[i], #[trigger] rank_scored(s)[j]),
    decreases s.len(),
{
    lemma_rank_members(s);
    if s.len() > 0 {
        let p0 = s.drop_last();
        assert forall|i: int| 0 <= i < p0.len() implies (#[trigger] p0[i]).score_den > 0 by {
            assert(p0[i] == s[i]);
        }
        law_scored_ranking_by_score(p0);
        lemma_rank_members(p0);
        let t = rank_scored(p0);
        let e = s.last();
        assert(e == s[s.len() - 1]);
        lemma_rank_position(t, e);
        lemma_rank_position_sides(t, e);
        let p = rank_position(t, e);
        let u = rank_scored(s);
        assert(u == t.insert(p, e));
        assert forall|k: int| 0 <= k < t.len() implies (#[trigger] t[k]).score_den > 0 by {
            assert(p0.contains(t[k]));
            let w = choose|w: int| 0 <= w < p0.len() && p0[w] == t[k];
            assert(p0[w].score_den > 0);
        }
        assert forall|i: int, j: int| 0 <= i < j < s.len() implies score_at_least(
            #[trigger] u[i],
            #[trigger] u[j],
        ) by {
            if j < p {
                assert(u[i] == t[i] && u[j] == t[j]);
            } else if j == p {
                assert(u[j] == e && u[i] == t[i]);
                assert(!ranks_before(e, t[i]));
            } else if i < p {
                assert(u[i] == t[i] && u[j] == t[j - 1]);
            } else if i == p {
                assert(u[i] == e && u[j] == t[j - 1]);
                assert(ranks_before(e, t[p]));
                assert(score_at_least(e, t[p]));
                if j - 1 > p {
                    assert(score_at_least(t[p], t[j - 1]));
                    lemma_score_trans(e, t[p], t[j - 1]);
                }
            } else {
                assert(u[i] == t[i - 1] && u[j] == t[j - 1]);
            }
        }
    }
}

/// Evaluation stops after `rule`: under first match when it matches; under
/// all match when it matches and its actions end in a `return`; under the
/// scored strategy when it scores and its actions end in a `return`.
pub open spec fn stops_after(
    rule: Rule,
    ctx: JValue,
    strategy: Strategy,
    dry: bool,
    max: int,
    now: (i64, u32),
    lib: Seq<&Rule>,
) -> bool {
    let co = group_outcome(rule.conditions, ctx, dry, now, strategy == Strategy::Scored);
    let m = co.matched;
    let sn = score_of(co).0;
    if !(m || dry || (strategy == Strategy::Scored && sn > 0)) {
        false
    } else {
        match run_actions(rule.actions@, 0, empty_actions_state(), ctx, 0, max, dry, lib) {
            Err(_) => false,
            Ok((_, flow)) => match strategy {
                Strategy::FirstMatch => m,
                Strategy::AllMatch => m && flow is Return,
                Strategy::Scored => flow is Return && sn > 0,
            },
        }
    }
}

proof fn lemma_fold_stops(
    rules: Seq<Rule>,
    ctx: JValue,
    strategy: Strategy,
    dry: bool,
    max: int,
    now: (i64, u32),
    lib: Seq<&Rule>,
)
    ensures
        rules_fold(rules, ctx, strategy, dry, max, now, lib) matches Ok(st) ==> st.evaluated <= rules.len()
            && (!st.halted ==> st.evaluated == rules.len()) && (st.halted ==> st.evaluated >= 1 && stops_after(
            rules[st.evaluated - 1],
            ctx,
            strategy,
            dry,
            max,
            now,
            lib,
        )),
    decreases rules.len(),
{
    if rules.len() > 0 {
        let q = rules.drop_last();
        lemma_fold_stops(q, ctx, strategy, dry, max, now, lib);
        reveal(rule_step);
        match rules_fold(q, ctx, strategy, dry, max, now, lib) {
            Ok(st) => {
                if st.halted {
                    assert(rules[st.evaluated - 1] == q[st.evaluated - 1]);
                } else {
                    assert(rules.last() == rules[rules.len() - 1]);
                }
            },
            Err(_) => {},
        }
    }
}

/// Every rule the time budget lets start is evaluated, unless a rule stops
/// the evaluation (`stops_after`): then it is the last one evaluated. The
/// evaluation reports a timeout exactly when the budget cut it short.
pub proof fn law_evaluation_stops_only_when_told(
    rules: Seq<Rule>,
    k: int,
    ctx: JValue,
    strategy: Strategy,
    dry: bool,
    max: int,
    now: (i64, u32),
    lib: Seq<&Rule>,
)
    requires
        0 <= k <= rules.len(),
    ensures
        evaluation_spec(rules, k, ctx, strategy, dry, max, now, lib) matches Ok(o) ==> o.rules_evaluated <= k
            && (o.rules_evaluated < k ==> o.rules_evaluated >= 1 && stops_after(
            rules[o.rules_evaluated - 1],
            ctx,
            strategy,
            dry,
            max,
            now,
            lib,
        )) && (o.timed_out ==> o.rules_evaluated == k && k < rules.len()),
{
    lemma_fold_stops(rules.take(k), ctx, strategy, dry, max, now, lib);
    match rules_fold(rules.take(k), ctx, strategy, dry, max, now, lib) {
        Ok(st) => {
            lemma_apply_ranked_traces(RunState { scored: Seq::empty(), ..st }, rank_scored(st.scored));
            if st.halted {
                assert(rules.take(k)[st.evaluated - 1] == rules[st.evaluated - 1]);
            }
        },
        Err(_) => {},
    }
}

/// In a dry run a `call_rule` below the depth limit is logged and nothing
/// else is done, and a `trigger` is logged without raising its event.
pub proof fn law_dry_run_logs_calls_and_triggers(
    actions: Seq<Action>,
    i: int,
    st: ActionStateView,
    ctx: JValue,
    depth: int,
    max: int,
    lib: Seq<&Rule>,
)
    requires
        0 <= i < actions.len(),
    ensures
        actions[i] matches Action::CallRule { rule_id } ==> (depth < max ==> run_actions(
            actions,
            i,
            st,
            ctx,
            depth,
            max,
            true,
            lib,
        ) == run_actions(actions, i + 1, with_log(st, "call_rule "@ + rule_id@), ctx, depth, max, true, lib)),
        actions[i] matches Action::Trigger { event } ==> run_actions(actions, i, st, ctx, depth, max, true, lib)
            == run_actions(actions, i + 1, with_log(st, "trigger "@ + event@), ctx, depth, max, true, lib),
{
}


// ---------------------------------------------------------------------------
// What each kind of condition group means
// ---------------------------------------------------------------------------

/// An `all` group holds exactly when every child holds (dry run or not,
/// stopping early or not).
pub proof fn law_all_group_means_every_child(ns: Seq<ConditionNode>, g: ConditionGroup, ctx: JValue, dry: bool, now: (i64, u32), full: bool)
    requires
        g matches ConditionGroup::All(a) && a.all@ == ns,
    ensures
        group_outcome(g, ctx, dry, now, full).matched == forall|i: int|
            0 <= i < ns.len() ==> node_holds(#[trigger] ns[i], ctx, now),
{
    lemma_nodes_matched(ns, GroupKind::All, ctx, dry, now, full);
}

/// An `any` group holds exactly when some child holds.
pub proof fn law_any_group_means_some_child(ns: Seq<ConditionNode>, g: ConditionGroup, ctx: JValue, dry: bool, now: (i64, u32), full: bool)
    requires
        g matches ConditionGroup::Any(a) && a.any@ == ns,
    ensures
        group_outcome(g, ctx, dry, now, full).matched == exists|i: int|
            0 <= i < ns.len() && node_holds(#[trigger] ns[i], ctx, now),
{
    lemma_nodes_matched(ns, GroupKind::Any, ctx, dry, now, full);
}

/// A `none` group holds exactly when no child holds.
pub proof fn law_none_group_means_no_child(ns: Seq<ConditionNode>, g: ConditionGroup, ctx: JValue, dry: bool, now: (i64, u32), full: bool)
    requires
        g matches ConditionGroup::NoneOf(a) && a.none@ == ns,
    ensures
        group_outcome(g, ctx, dry, now, full).matched == forall|i: int|
            0 <= i < ns.len() ==> !node_holds(#[trigger] ns[i], ctx, now),
{
    lemma_nodes_matched(ns, GroupKind::NoneOf, ctx, dry, now, full);
}

/// A `not` group holds exactly when its child does not.
pub proof fn law_not_group_negates(n: ConditionNode, g: ConditionGroup, ctx: JValue, dry: bool, now: (i64, u32), full: bool)
    requires
        g matches ConditionGroup::Not(a) && *a.not == n,
    ensures
        group_outcome(g, ctx, dry, now, full).matched == !node_holds(n, ctx, now),
{
    lemma_node_matched(n, ctx, dry, now);
}

/// A leaf condition holds exactly when its operator holds of the field's
/// resolved value, the condition's value and (for cross-field operators)
/// the second field's resolved value.
pub proof fn law_leaf_applies_its_operator(l: crate::schema::LeafCondition, ctx: JValue, dry: bool, now: (i64, u32))
    ensures
        node_outcome(ConditionNode::Leaf(l), ctx, dry, now).matched == crate::operators::apply_spec(
            l.operator,
            crate::resolver::resolve(ctx, l.field@),
            opt_value_view(l.value),
            match l.field2 {
                Some(p) => Some(crate::resolver::resolve(ctx, p@)),
                None => None,
            },
            now,
        ),
{
}


// ---------------------------------------------------------------------------
// The order of a scored ranking
// ---------------------------------------------------------------------------

/// `a` may come before `b` in a scored ranking: a higher score (scores are
/// fractions, compared by cross-multiplying), or an equal score and a
/// higher priority, or equal score and priority and an id that is not
/// after `b`'s.
pub open spec fn rank_no_later(a: ScoredView, b: ScoredView) -> bool {
    let x = a.score_num * b.score_den;
    let y = b.score_num * a.score_den;
    x > y || (x == y && (a.priority > b.priority || (a.priority == b.priority && crate::text::lex_order(a.id, b.id)
        != crate::text::Ord3::Greater)))
}

proof fn lemma_lex_not_greater_trans(a: Seq<char>, b: Seq<char>, c: Seq<char>)
    requires
        crate::text::lex_order(a, b) != crate::text::Ord3::Greater,
        crate::text::lex_order(b, c) != crate::text::Ord3::Greater,
    ensures
        crate::text::lex_order(a, c) != crate::text::Ord3::Greater,
    decreases a.len(),
{
    if a.len() > 0 && b.len() > 0 && c.len() > 0 {
        if (a[0] as u32) == (b[0] as u32) && (b[0] as u32) == (c[0] as u32) {
            lemma_lex_not_greater_trans(a.drop_first(), b.drop_first(), c.drop_first());
        }
    }
}

proof fn lemma_score_chain(an: int, ad: int, bn: int, bd: int, cn: int, cd: int)
    requires
        ad > 0,
        bd > 0,
        cd > 0,
        an * bd >= bn * ad,
        bn * cd >= cn * bd,
    ensures
        an * cd >= cn * ad,
        an * cd == cn * ad ==> an * bd == bn * ad && bn * cd == cn * bd,
{
    assert(an * bd * cd >= bn * ad * cd) by (nonlinear_arith)
        requires
            cd > 0,
            an * bd >= bn * ad,
    ;
    assert(bn * cd * ad >= cn * bd * ad) by (nonlinear_arith)
        requires
            ad > 0,
            bn * cd >= cn * bd,
    ;
    assert(an * bd * cd == an * cd * bd && bn * ad * cd == bn * cd * ad && cn * bd * ad == cn * ad * bd)
        by (nonlinear_arith);
    assert(an * cd >= cn * ad) by (nonlinear_arith)
        requires
            bd > 0,
            an * cd * bd >= cn * ad * bd,
    ;
    if an * cd == cn * ad {
        assert(an * bd * cd == bn * ad * cd && bn * cd * ad == cn * bd * ad) by (nonlinear_arith)
            requires
                an * cd == cn * ad,
                an * bd * cd >= bn * ad * cd,
                bn * cd * ad >= cn * bd * ad,
                an * bd * cd == an * cd * bd,
                cn * bd * ad == cn * ad * bd,
        ;
        assert(an * bd == bn * ad) by (nonlinear_arith)
            requires
                cd > 0,
                an * bd * cd == bn * ad * cd,
        ;
        assert(bn * cd == cn * bd) by (nonlinear_arith)
            requires
                ad > 0,
                bn * cd * ad == cn * bd * ad,
        ;
    }
}

proof fn lemma_no_later_trans(a: ScoredView, b: ScoredView, c: ScoredView)
    requires
        a.score_den > 0,
        b.score_den > 0,
        c.score_den > 0,
        rank_no_later(a, b),
        rank_no_later(b, c),
    ensures
        rank_no_later(a, c),
{
    lemma_score_chain(
        a.score_num as int,
        a.score_den as int,
        b.score_num as int,
        b.score_den as int,
        c.score_num as int,
        c.score_den as int,
    );
    if a.score_num * c.score_den == c.score_num * a.score_den && a.priority == c.priority {
        lemma_lex_not_greater_trans(a.id, b.id, c.id);
    }
}

/// What ranking `e` before, or not before, `t` says of their order.
proof fn lemma_ranks_before_order(e: ScoredView, t: ScoredView)
    ensures
        ranks_before(e, t) ==> rank_no_later(e, t),
        !ranks_before(e, t) ==> rank_no_later(t, e),
{
    crate::text::lemma_lex_order_antisym(e.id, t.id);
}

/// The scored strategy ranks rules by score, highest first; rules of equal
/// score by priority, highest first; rules of equal score and priority by
/// id, in character order.
pub proof fn law_scored_ranking_order(s: Seq<ScoredView>)
    requires
        forall|i: int| 0 <= i < s.len() ==> (#[trigger] s[i]).score_den > 0,
    ensures
        rank_scored(s).len() == s.len(),
        forall|i: int, j: int|
            0 <= i < j < s.len() ==> rank_no_later(#[trigger] rank_scored(s)[i], #[trigger] rank_scored(s)[j]),
    decreases s.len(),
{
    lemma_rank_members(s);
    if s.len() > 0 {
        let p0 = s.drop_last();
        assert forall|i: int| 0 <= i < p0.len() implies (#[trigger] p0[i]).score_den > 0 by {
            assert(p0[i] == s[i]);
        }
        law_scored_ranking_order(p0);
        lemma_rank_members(p0);
        let t = rank_scored(p0);
        let e = s.last();
        assert(e == s[s.len() - 1]);
        lemma_rank_position(t, e);
        lemma_rank_position_sides(t, e);
        let p = rank_position(t, e);
        let u = rank_scored(s);
        assert(u == t.insert(p, e));
        assert forall|k: int| 0 <= k < t.len() implies (#[trigger] t[k]).score_den > 0 by {
            assert(p0.contains(t[k]));
            let w = choose|w: int| 0 <= w < p0.len() && p0[w] == t[k];
            assert(p0[w].score_den > 0);
        }
        assert forall|i: int, j: int| 0 <= i < j < s.len() implies rank_no_later(
            #[trigger] u[i],
            #[trigger] u[j],
        ) by {
            if j < p {
                assert(u[i] == t[i] && u[j] == t[j]);
            } else if j == p {
                assert(u[j] == e && u[i] == t[i]);
                assert(!ranks_before(e, t[i]));
                lemma_ranks_before_order(e, t[i]);
            } else if i < p {
                assert(u[i] == t[i] && u[j] == t[j - 1]);
            } else if i == p {
                assert(u[i] == e && u[j] == t[j - 1]);
                assert(ranks_before(e, t[p]));
                lemma_ranks_before_order(e, t[p]);
                if j - 1 > p {
                    assert(rank_no_later(t[p], t[j - 1]));
                    lemma_no_later_trans(e, t[p], t[j - 1]);
                }
            } else {
                assert(u[i] == t[i - 1] && u[j] == t[j - 1]);
            }
        }
    }
}

/// The ids a scored ranking reports: those of the entries with a positive
/// score, in ranked order.
pub open spec fn scoring_ids(es: Seq<ScoredView>) -> Seq<Seq<char>> {
    es.filter_map(|e: ScoredView| if e.score_num > 0 { Some(e.id) } else { None })
}

/// Reporting a ranking adds to the matched rules the ids of the entries
/// with a positive score, keeping their ranked order, and one trace per
/// entry.
pub proof fn law_ranked_report(st: RunState, es: Seq<ScoredView>)
    ensures
        apply_ranked(st, es).matched_ids == st.matched_ids + scoring_ids(es),
        apply_ranked(st, es).traces.len() == st.traces.len() + es.len(),
    decreases es.len(),
{
    if es.len() == 0 {
        assert(st.matched_ids + scoring_ids(es) =~= st.matched_ids);
    } else {
        law_ranked_report(st, es.drop_last());
        let e = es.last();
        if e.score_num > 0 {
            assert(st.matched_ids + scoring_ids(es) =~= (st.matched_ids + scoring_ids(es.drop_last())).push(e.id));
        }
    }
}

} // verus!
