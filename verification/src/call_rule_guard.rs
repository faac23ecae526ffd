//! Load-time safety checks of `call_rule` chains: every called rule must
//! exist, no rule may reach itself through calls, and no chain of calls may
//! be longer than the call depth limit. At evaluation time only the depth
//! of a chain is checked.
use vstd::prelude::*;
use crate::error::{EvaluationError, EvalErrorView, RegistryError, RegistryErrorView};
use crate::schema::{Action, Rule, deref_rules, rule_refs};
use crate::text::{push_str, str_eq};
use crate::trace::string_views;

verus! {

/// The call depth of the first release.
pub const PHASE1_MAX_DEPTH: usize = 4;

// ---------------------------------------------------------------------------
// The call graph
// ---------------------------------------------------------------------------

/// Ids called by `call_rule` actions, in action order.
pub open spec fn call_targets(actions: Seq<Action>) -> Seq<Seq<char>>
    decreases actions.len(),
{
    if actions.len() == 0 {
        Seq::empty()
    } else {
        let p = call_targets(actions.drop_last());
        match actions.last() {
            Action::CallRule { rule_id } => p.push(rule_id@),
            _ => p,
        }
    }
}

/// Index of the first rule with id `id`.
pub open spec fn first_with(rules: Seq<Rule>, id: Seq<char>) -> Option<int>
    decreases rules.len(),
{
    if rules.len() == 0 {
        None
    } else {
        match first_with(rules.drop_last(), id) {
            Some(k) => Some(k),
            None => if rules.last().id@ == id {
                Some(rules.len() - 1)
            } else {
                None
            },
        }
    }
}

/// Index of the last rule with id `id` (the one whose calls count).
pub open spec fn last_with(rules: Seq<Rule>, id: Seq<char>) -> Option<int>
    decreases rules.len(),
{
    if rules.len() == 0 {
        None
    } else if rules.last().id@ == id {
        Some(rules.len() - 1)
    } else {
        last_with(rules.drop_last(), id)
    }
}

/// Some rule has id `id`.
pub open spec fn defines(rules: Seq<Rule>, id: Seq<char>) -> bool {
    first_with(rules, id) is Some
}

/// Rule `a` calls rule `b`: the last rule with id `a` has a `call_rule` to
/// `b`.
pub open spec fn calls(rules: Seq<Rule>, a: Seq<char>, b: Seq<char>) -> bool {
    match last_with(rules, a) {
        Some(j) => 0 <= j < rules.len() && call_targets(rules[j].actions@).contains(b),
        None => false,
    }
}

/// A closed chain of calls: `w[0]` calls `w[1]` calls ... `w[last] == w[0]`.
pub open spec fn is_call_cycle(rules: Seq<Rule>, w: Seq<Seq<char>>) -> bool {
    &&& w.len() >= 2
    &&& w[0] == w.last()
    &&& forall|i: int| 0 <= i < w.len() - 1 ==> calls(rules, #[trigger] w[i], w[i + 1])
}

/// No rule reaches itself through calls.
pub open spec fn acyclic(rules: Seq<Rule>) -> bool {
    forall|w: Seq<Seq<char>>| !is_call_cycle(rules, w)
}

/// The first of `ds` that no rule defines.
pub open spec fn first_missing_in(rules: Seq<Rule>, ds: Seq<Seq<char>>) -> Option<Seq<char>>
    decreases ds.len(),
{
    if ds.len() == 0 {
        None
    } else {
        match first_missing_in(rules, ds.drop_last()) {
            Some(d) => Some(d),
            None => if defines(rules, ds.last()) {
                None
            } else {
                Some(ds.last())
            },
        }
    }
}

/// The first call target (in rule order, then action order) among the
/// first `k` rules that no rule defines.
pub open spec fn first_missing(rules: Seq<Rule>, k: int) -> Option<Seq<char>>
    decreases k,
{
    if k <= 0 || k > rules.len() {
        None
    } else {
        match first_missing(rules, k - 1) {
            Some(d) => Some(d),
            None => first_missing_in(rules, call_targets(rules[k - 1].actions@)),
        }
    }
}

/// Texts joined with a separator.
pub open spec fn joined(ws: Seq<Seq<char>>, sep: Seq<char>) -> Seq<char>
    decreases ws.len(),
{
    if ws.len() == 0 {
        Seq::empty()
    } else if ws.len() == 1 {
        ws[0]
    } else {
        joined(ws.drop_last(), sep) + sep + ws.last()
    }
}

// ---------------------------------------------------------------------------
// Collecting and resolving calls
// ---------------------------------------------------------------------------

/// The rule ids called by `call_rule` actions, in order.
pub fn collect_call_rule_deps(actions: &Vec<Action>) -> (r: Vec<String>)
    ensures
        string_views(r@) == call_targets(actions@),
{
    let mut out: Vec<String> = Vec::new();
    let mut i: usize = 0;
    assert(actions@.take(0) =~= Seq::<Action>::empty());
    assert(string_views(out@) =~= Seq::<Seq<char>>::empty());
    while i < actions.len()
        invariant
            i <= actions@.len(),
            string_views(out@) == call_targets(actions@.take(i as int)),
        decreases actions@.len() - i,
    {
        assert(actions@.take(i + 1).drop_last() =~= actions@.take(i as int));
        assert(actions@.take(i + 1).last() == actions@[i as int]);
        match &actions[i] {
            Action::CallRule { rule_id } => {
                let ghost before = string_views(out@);
                out.push(rule_id.clone());
                assert(string_views(out@) =~= before.push(rule_id@));
            },
            _ => {},
        }
        i = i + 1;
    }
    assert(actions@.take(i as int) =~= actions@);
    out
}

/// Index of the first rule with the given id.
pub fn find_first(rules: &Vec<&Rule>, id: &str) -> (r: Option<usize>)
    ensures
        match r {
            Some(k) => first_with(deref_rules(rules@), id@) == Some(k as int) && k < deref_rules(rules@).len(),
            None => first_with(deref_rules(rules@), id@) is None,
        },
{
    let mut k: usize = 0;
    while k < rules.len()
        invariant
            k <= deref_rules(rules@).len(),
            first_with(deref_rules(rules@).take(k as int), id@) is None,
        decreases deref_rules(rules@).len() - k,
    {
        assert(deref_rules(rules@).take(k + 1).drop_last() =~= deref_rules(rules@).take(k as int));
        if str_eq(rules[k].id.as_str(), id) {
            proof {
                lemma_first_with_prefix(deref_rules(rules@), id@, k + 1);
            }
            return Some(k);
        }
        k = k + 1;
    }
    assert(deref_rules(rules@).take(k as int) =~= deref_rules(rules@));
    None
}

proof fn lemma_first_with_prefix(rules: Seq<Rule>, id: Seq<char>, k: int)
    requires
        0 <= k <= rules.len(),
        first_with(rules.take(k), id) is Some,
    ensures
        first_with(rules, id) == first_with(rules.take(k), id),
    decreases rules.len() - k,
{
    if k < rules.len() {
        assert(rules.take(k + 1).drop_last() =~= rules.take(k));
        lemma_first_with_prefix(rules, id, k + 1);
    } else {
        assert(rules.take(k) =~= rules);
    }
}

pub proof fn lemma_first_with(rules: Seq<Rule>, id: Seq<char>)
    ensures
        match first_with(rules, id) {
            Some(k) => 0 <= k < rules.len() && rules[k].id@ == id && forall|j: int|
                0 <= j < k ==> rules[j].id@ != id,
            None => forall|j: int| 0 <= j < rules.len() ==> rules[j].id@ != id,
        },
    decreases rules.len(),
{
    if rules.len() > 0 {
        lemma_first_with(rules.drop_last(), id);
        assert forall|j: int| 0 <= j < rules.len() - 1 implies rules.drop_last()[j] == rules[j] by {}
    }
}

pub proof fn lemma_last_with(rules: Seq<Rule>, id: Seq<char>)
    ensures
        match last_with(rules, id) {
            Some(k) => 0 <= k < rules.len() && rules[k].id@ == id && forall|j: int|
                k < j < rules.len() ==> rules[j].id@ != id,
            None => forall|j: int| 0 <= j < rules.len() ==> rules[j].id@ != id,
        },
    decreases rules.len(),
{
    if rules.len() > 0 {
        lemma_last_with(rules.drop_last(), id);
        assert forall|j: int| 0 <= j < rules.len() - 1 implies rules.drop_last()[j] == rules[j] by {}
    }
}

/// Index of the last rule with the given id.
pub fn find_last(rules: &Vec<&Rule>, id: &str) -> (r: Option<usize>)
    ensures
        match r {
            Some(k) => last_with(deref_rules(rules@), id@) == Some(k as int) && k < deref_rules(rules@).len(),
            None => last_with(deref_rules(rules@), id@) is None,
        },
{
    proof {
        lemma_last_with(deref_rules(rules@), id@);
    }
    let mut k: usize = rules.len();
    while k > 0
        invariant
            k <= deref_rules(rules@).len(),
            forall|j: int| k <= j < deref_rules(rules@).len() ==> deref_rules(rules@)[j].id@ != id@,
        decreases k,
    {
        if str_eq(rules[k - 1].id.as_str(), id) {
            proof {
                lemma_last_with(deref_rules(rules@), id@);
                let kk = k - 1;
                assert(deref_rules(rules@)[kk].id@ == id@);
                match last_with(deref_rules(rules@), id@) {
                    Some(j) => {
                        if j < kk {
                            assert(deref_rules(rules@)[kk].id@ != id@);
                        } else if j > kk {
                            assert(deref_rules(rules@)[j].id@ != id@);
                        }
                    },
                    None => {},
                }
            }
            return Some(k - 1);
        }
        k = k - 1;
    }
    proof {
        match last_with(deref_rules(rules@), id@) {
            Some(j) => {
                assert(deref_rules(rules@)[j].id@ == id@);
            },
            None => {},
        }
    }
    None
}

/// First call target that no rule defines, over all rules.
fn find_missing(rules: &Vec<&Rule>) -> (r: Option<String>)
    ensures
        match r {
            Some(d) => first_missing(deref_rules(rules@), deref_rules(rules@).len() as int) == Some(d@),
            None => first_missing(deref_rules(rules@), deref_rules(rules@).len() as int) is None,
        },
{
    let mut k: usize = 0;
    while k < rules.len()
        invariant
            k <= deref_rules(rules@).len(),
            first_missing(deref_rules(rules@), k as int) is None,
        decreases deref_rules(rules@).len() - k,
    {
        let deps = collect_call_rule_deps(&rules[k].actions);
        let ghost ds = string_views(deps@);
        let mut j: usize = 0;
        assert(ds.take(0) =~= Seq::<Seq<char>>::empty());
        while j < deps.len()
            invariant
                k < deref_rules(rules@).len(),
                j <= deps@.len(),
                ds == string_views(deps@),
                ds == call_targets(deref_rules(rules@)[k as int].actions@),
                first_missing(deref_rules(rules@), k as int) is None,
                first_missing_in(deref_rules(rules@), ds.take(j as int)) is None,
            decreases deps@.len() - j,
        {
            assert(ds.take(j + 1).drop_last() =~= ds.take(j as int));
            assert(ds.take(j + 1).last() == deps@[j as int]@);
            if find_first(rules, deps[j].as_str()).is_none() {
                proof {
                    lemma_missing_in_prefix(deref_rules(rules@), ds, j + 1);
                    lemma_missing_prefix(deref_rules(rules@), k + 1);
                }
                return Some(deps[j].clone());
            }
            j = j + 1;
        }
        assert(ds.take(j as int) =~= ds);
        k = k + 1;
    }
    None
}

proof fn lemma_missing_in_prefix(rules: Seq<Rule>, ds: Seq<Seq<char>>, j: int)
    requires
        0 <= j <= ds.len(),
        first_missing_in(rules, ds.take(j)) is Some,
    ensures
        first_missing_in(rules, ds) == first_missing_in(rules, ds.take(j)),
    decreases ds.len() - j,
{
    if j < ds.len() {
        assert(ds.take(j + 1).drop_last() =~= ds.take(j));
        lemma_missing_in_prefix(rules, ds, j + 1);
    } else {
        assert(ds.take(j) =~= ds);
    }
}

proof fn lemma_missing_prefix(rules: Seq<Rule>, k: int)
    requires
        0 <= k <= rules.len(),
        first_missing(rules, k) is Some,
    ensures
        first_missing(rules, rules.len() as int) == first_missing(rules, k),
    decreases rules.len() - k,
{
    if k < rules.len() {
        lemma_missing_prefix(rules, k + 1);
    }
}

// ---------------------------------------------------------------------------
// The call graph on rule positions
// ---------------------------------------------------------------------------

/// Every call target is defined.
pub open spec fn all_resolved(rules: Seq<Rule>) -> bool {
    forall|a: Seq<char>, b: Seq<char>| calls(rules, a, b) ==> defines(rules, b)
}

/// `adj` is the call graph of `rules` on the positions of first
/// occurrences: edges go between first positions of ids, and every call has
/// its edge.
#[verifier::opaque]
pub open spec fn graph_of(rules: Seq<Rule>, adj: Seq<Seq<usize>>) -> bool {
    &&& adj.len() == rules.len()
    &&& forall|u: int, t: int|
        0 <= u < adj.len() && 0 <= t < adj[u].len() ==> {
            let v = #[trigger] adj[u][t] as int;
            &&& 0 <= v < rules.len()
            &&& calls(rules, rules[u].id@, rules[v].id@)
        }
    &&& forall|a: Seq<char>, b: Seq<char>|
        #[trigger] calls(rules, a, b) ==> match (first_with(rules, a), first_with(rules, b)) {
            (Some(x), Some(y)) => 0 <= x < adj.len() && adj[x].contains(y as usize),
            _ => false,
        }
}

/// A closed walk of edges of `adj`.
pub open spec fn is_index_cycle(adj: Seq<Seq<usize>>, w: Seq<usize>) -> bool {
    &&& w.len() >= 2
    &&& w[0] == w.last()
    &&& forall|i: int|
        0 <= i < w.len() - 1 ==> 0 <= #[trigger] w[i] < adj.len() && adj[w[i] as int].contains(
            w[i + 1],
        )
}

proof fn lemma_no_missing_in(rules: Seq<Rule>, ds: Seq<Seq<char>>)
    requires
        first_missing_in(rules, ds) is None,
    ensures
        forall|d: Seq<char>| ds.contains(d) ==> defines(rules, d),
    decreases ds.len(),
{
    if ds.len() > 0 {
        lemma_no_missing_in(rules, ds.drop_last());
        assert forall|d: Seq<char>| ds.contains(d) implies defines(rules, d) by {
            let i = choose|i: int| 0 <= i < ds.len() && ds[i] == d;
            if i < ds.len() - 1 {
                assert(ds.drop_last()[i] == d);
                assert(ds.drop_last().contains(d));
            }
        }
    }
}

proof fn lemma_no_missing(rules: Seq<Rule>, k: int)
    requires
        0 <= k <= rules.len(),
        first_missing(rules, k) is None,
    ensures
        forall|j: int, d: Seq<char>|
            0 <= j < k && call_targets(rules[j].actions@).contains(d) ==> defines(rules, d),
    decreases k,
{
    if k > 0 {
        lemma_no_missing(rules, k - 1);
        lemma_no_missing_in(rules, call_targets(rules[k - 1].actions@));
    }
}

/// Resolution in terms of calls.
proof fn lemma_resolved(rules: Seq<Rule>)
    requires
        first_missing(rules, rules.len() as int) is None,
    ensures
        all_resolved(rules),
{
    lemma_no_missing(rules, rules.len() as int);
    assert forall|a: Seq<char>, b: Seq<char>| calls(rules, a, b) implies defines(rules, b) by {
        lemma_last_with(rules, a);
    }
}

/// The row of the call graph for position `k`.
fn graph_row(rules: &Vec<&Rule>, k: usize) -> (row: Vec<usize>)
    requires
        k < deref_rules(rules@).len(),
        all_resolved(deref_rules(rules@)),
    ensures
        forall|t: int|
            0 <= t < row@.len() ==> {
                let v = #[trigger] row@[t] as int;
                &&& 0 <= v < deref_rules(rules@).len()
                &&& calls(deref_rules(rules@), deref_rules(rules@)[k as int].id@, deref_rules(rules@)[v].id@)
            },
        first_with(deref_rules(rules@), deref_rules(rules@)[k as int].id@) == Some(k as int) ==> forall|b: Seq<char>|
            calls(deref_rules(rules@), deref_rules(rules@)[k as int].id@, b) ==> (first_with(deref_rules(rules@), b) matches Some(y)
                && row@.contains(y as usize)),
{
    let mut row: Vec<usize> = Vec::new();
    let ghost id = deref_rules(rules@)[k as int].id@;
    let first = find_first(rules, rules[k].id.as_str());
    if first != Some(k) {
        return row;
    }
    proof {
        lemma_last_with(deref_rules(rules@), id);
    }
    let owner = match find_last(rules, rules[k].id.as_str()) {
        Some(j) => j,
        None => {
            assert(deref_rules(rules@)[k as int].id@ == id);
            return row;
        },
    };
    let deps = collect_call_rule_deps(&rules[owner].actions);
    let ghost ds = string_views(deps@);
    let mut t: usize = 0;
    while t < deps.len()
        invariant
            t <= deps@.len(),
            ds == string_views(deps@),
            ds == call_targets(deref_rules(rules@)[owner as int].actions@),
            last_with(deref_rules(rules@), id) == Some(owner as int),
            owner < deref_rules(rules@).len(),
            id == deref_rules(rules@)[k as int].id@,
            all_resolved(deref_rules(rules@)),
            row@.len() == t,
            forall|x: int|
                0 <= x < t ==> first_with(deref_rules(rules@), ds[x]) == Some(#[trigger] row@[x] as int),
        decreases deps@.len() - t,
    {
        assert(ds[t as int] == deps@[t as int]@);
        assert(ds.contains(ds[t as int]));
        assert(calls(deref_rules(rules@), id, ds[t as int]));
        match find_first(rules, deps[t].as_str()) {
            Some(y) => {
                row.push(y);
            },
            None => {
                assert(defines(deref_rules(rules@), ds[t as int]));
                assert(false);
            },
        }
        t = t + 1;
    }
    proof {
        assert forall|x: int| 0 <= x < row@.len() implies {
            let v = #[trigger] row@[x] as int;
            &&& 0 <= v < deref_rules(rules@).len()
            &&& calls(deref_rules(rules@), deref_rules(rules@)[k as int].id@, deref_rules(rules@)[v].id@)
        } by {
            lemma_first_with(deref_rules(rules@), ds[x]);
            assert(ds.contains(ds[x]));
        }
        assert forall|b: Seq<char>| calls(deref_rules(rules@), id, b) implies (first_with(deref_rules(rules@), b) matches Some(y)
            && row@.contains(y as usize)) by {
            let x = choose|x: int| 0 <= x < ds.len() && ds[x] == b;
            assert(defines(deref_rules(rules@), b));
            assert(row@[x] as int == first_with(deref_rules(rules@), b)->0);
        }
    }
    row
}

/// Builds the call graph of `rules`, provided every target is defined.
fn build_graph(rules: &Vec<&Rule>) -> (r: Vec<Vec<usize>>)
    requires
        all_resolved(deref_rules(rules@)),
    ensures
        graph_of(deref_rules(rules@), r@.map_values(|v: Vec<usize>| v@)),
{
    let n = rules.len();
    let mut adj: Vec<Vec<usize>> = Vec::new();
    let mut k: usize = 0;
    while k < n
        invariant
            n == deref_rules(rules@).len(),
            k <= n,
            adj@.len() == k,
            all_resolved(deref_rules(rules@)),
            forall|u: int, t: int|
                0 <= u < k && 0 <= t < adj@[u]@.len() ==> {
                    let v = #[trigger] adj@[u]@[t] as int;
                    &&& 0 <= v < deref_rules(rules@).len()
                    &&& calls(deref_rules(rules@), deref_rules(rules@)[u].id@, deref_rules(rules@)[v].id@)
                },
            forall|u: int, b: Seq<char>|
                0 <= u < k && first_with(deref_rules(rules@), deref_rules(rules@)[u].id@) == Some(u) && #[trigger] calls(
                    deref_rules(rules@),
                    deref_rules(rules@)[u].id@,
                    b,
                ) ==> (first_with(deref_rules(rules@), b) matches Some(y) && adj@[u]@.contains(y as usize)),
        decreases n - k,
    {
        let row = graph_row(rules, k);
        adj.push(row);
        k = k + 1;
    }
    proof {
        reveal(graph_of);
        let g = adj@.map_values(|v: Vec<usize>| v@);
        assert forall|a: Seq<char>, b: Seq<char>| #[trigger] calls(deref_rules(rules@), a, b) implies match (
            first_with(deref_rules(rules@), a),
            first_with(deref_rules(rules@), b),
        ) {
            (Some(x), Some(y)) => 0 <= x < g.len() && g[x].contains(y as usize),
            _ => false,
        } by {
            lemma_last_with(deref_rules(rules@), a);
            lemma_first_with(deref_rules(rules@), a);
            let x = first_with(deref_rules(rules@), a)->0;
            assert(deref_rules(rules@)[x].id@ == a);
            assert(first_with(deref_rules(rules@), deref_rules(rules@)[x].id@) == Some(x));
            assert(calls(deref_rules(rules@), deref_rules(rules@)[x].id@, b));
        }
    }
    adj
}

// ---------------------------------------------------------------------------
// Depth-first search for cycles
// ---------------------------------------------------------------------------

pub open spec fn count_white(c: Seq<u8>) -> nat
    decreases c.len(),
{
    if c.len() == 0 {
        0
    } else {
        count_white(c.drop_last()) + (if c.last() == 0 {
            1nat
        } else {
            0nat
        })
    }
}

proof fn lemma_count_white_le(c1: Seq<u8>, c2: Seq<u8>)
    requires
        c1.len() == c2.len(),
        forall|i: int| 0 <= i < c2.len() && c2[i] == 0 ==> c1[i] == 0,
    ensures
        count_white(c2) <= count_white(c1),
    decreases c1.len(),
{
    if c1.len() > 0 {
        lemma_count_white_le(c1.drop_last(), c2.drop_last());
    }
}

proof fn lemma_count_white(c1: Seq<u8>, c2: Seq<u8>, w: int)
    requires
        c1.len() == c2.len(),
        forall|i: int| 0 <= i < c2.len() && c2[i] == 0 ==> c1[i] == 0,
        0 <= w < c1.len(),
        c1[w] == 0,
        c2[w] != 0,
    ensures
        count_white(c2) < count_white(c1),
    decreases c1.len(),
{
    if w < c1.len() - 1 {
        lemma_count_white(c1.drop_last(), c2.drop_last(), w);
    } else {
        lemma_count_white_le(c1.drop_last(), c2.drop_last());
    }
}

/// Invariant of the search: colours (0 unvisited, 1 on the current path,
/// 2 finished), the path follows edges, and a finished node's successors
/// are finished earlier (`fin` numbers the finished nodes in order).
#[verifier::opaque]
pub open spec fn dfs_inv(adj: Seq<Seq<usize>>, c: Seq<u8>, path: Seq<usize>, fin: Seq<int>, cnt: int) -> bool {
    &&& c.len() == adj.len()
    &&& fin.len() == adj.len()
    &&& forall|u: int, t: int|
        0 <= u < adj.len() && 0 <= t < adj[u].len() ==> #[trigger] adj[u][t] < adj.len()
    &&& forall|u: int| 0 <= u < c.len() ==> #[trigger] c[u] <= 2
    &&& forall|u: int| 0 <= u < c.len() ==> (#[trigger] c[u] == 1 <==> path.contains(u as usize))
    &&& forall|i: int| 0 <= i < path.len() ==> #[trigger] path[i] < adj.len()
    &&& forall|i: int|
        0 <= i < path.len() - 1 ==> adj[#[trigger] path[i] as int].contains(path[i + 1])
    &&& forall|u: int, t: int|
        0 <= u < c.len() && c[u] == 2 && 0 <= t < adj[u].len() ==> c[#[trigger] adj[u][t] as int]
            == 2 && fin[adj[u][t] as int] < fin[u]
    &&& forall|u: int| 0 <= u < c.len() && #[trigger] c[u] == 2 ==> fin[u] < cnt
}

/// Colours only advance; finished nodes keep their numbers; the nodes on
/// the path stay the same.
pub open spec fn advanced(c1: Seq<u8>, c2: Seq<u8>, f1: Seq<int>, f2: Seq<int>) -> bool {
    &&& c1.len() == c2.len()
    &&& forall|u: int|
        #![trigger c2[u]]
        #![trigger c1[u]]
        0 <= u < c1.len() ==> {
            &&& (c1[u] == 2 ==> #[trigger] c2[u] == 2 && f2[u] == f1[u])
            &&& (c2[u] == 0 ==> c1[u] == 0)
            &&& (c1[u] == 1 <==> c2[u] == 1)
        }
}

/// The ids of a walk of positions.
pub open spec fn walk_ids(rules: Seq<Rule>, w: Seq<usize>) -> Seq<Seq<char>> {
    w.map_values(|i: usize| rules[i as int].id@)
}

/// The text of a cycle: its ids joined by arrows.
pub open spec fn cycle_text(rules: Seq<Rule>, w: Seq<usize>) -> Seq<char> {
    joined(walk_ids(rules, w), " \u{2192} "@)
}

fn cycle_message(rules: &Vec<&Rule>, w: &Vec<usize>) -> (r: String)
    requires
        forall|i: int| 0 <= i < w@.len() ==> #[trigger] w@[i] < deref_rules(rules@).len(),
    ensures
        r@ == cycle_text(deref_rules(rules@), w@),
{
    let ghost ws = walk_ids(deref_rules(rules@), w@);
    let mut out = String::new();
    let mut i: usize = 0;
    assert(joined(ws.take(0), " \u{2192} "@) =~= Seq::<char>::empty());
    while i < w.len()
        invariant
            i <= w@.len(),
            ws == walk_ids(deref_rules(rules@), w@),
            forall|j: int| 0 <= j < w@.len() ==> #[trigger] w@[j] < deref_rules(rules@).len(),
            out@ == joined(ws.take(i as int), " \u{2192} "@),
        decreases w@.len() - i,
    {
        let ghost t = ws.take(i + 1);
        assert(t.drop_last() =~= ws.take(i as int));
        assert(t.last() == deref_rules(rules@)[w@[i as int] as int].id@);
        if i > 0 {
            push_str(&mut out, " \u{2192} ");
        } else {
            assert(t.len() == 1);
            assert(out@ =~= Seq::<char>::empty());
        }
        push_str(&mut out, rules[w[i]].id.as_str());
        i = i + 1;
    }
    assert(ws.take(i as int) =~= ws);
    out
}

/// Adjacency lists as sequences.
pub open spec fn adj_view(adj: Seq<Vec<usize>>) -> Seq<Seq<usize>> {
    adj.map_values(|v: Vec<usize>| v@)
}

proof fn lemma_advanced_trans(c1: Seq<u8>, c2: Seq<u8>, c3: Seq<u8>, f1: Seq<int>, f2: Seq<int>, f3: Seq<int>)
    requires
        advanced(c1, c2, f1, f2),
        advanced(c2, c3, f2, f3),
    ensures
        advanced(c1, c3, f1, f3),
{
    assert forall|u: int| 0 <= u < c1.len() implies {
        &&& (c1[u] == 2 ==> #[trigger] c3[u] == 2 && f3[u] == f1[u])
        &&& (c3[u] == 0 ==> c1[u] == 0)
        &&& (c1[u] == 1 <==> c3[u] == 1)
    } by {
        assert(c2[u] == c2[u]);
    }
}

/// Position of `v` on the path.
fn position_on_path(path: &Vec<usize>, v: usize) -> (r: usize)
    requires
        path@.contains(v),
    ensures
        r < path@.len(),
        path@[r as int] == v,
{
    let mut i: usize = 0;
    while i < path.len()
        invariant
            i <= path@.len(),
            path@.contains(v),
            forall|j: int| 0 <= j < i ==> path@[j] != v,
        decreases path@.len() - i,
    {
        if path[i] == v {
            return i;
        }
        i = i + 1;
    }
    assert(false);
    0
}

/// The error for a call from `u` (the end of the path) to `v` (on the
/// path): the cycle from `v`'s position along the path and back to `v`.
fn cycle_error(rules: &Vec<&Rule>, adj: &Vec<Vec<usize>>, path: &Vec<usize>, u: usize, v: usize) -> (e: RegistryError)
    requires
        adj@.len() == deref_rules(rules@).len(),
        path@.contains(v),
        path@.len() > 0,
        path@.last() == u,
        u < adj@.len(),
        adj_view(adj@)[u as int].contains(v),
        forall|i: int| 0 <= i < path@.len() ==> #[trigger] path@[i] < adj@.len(),
        forall|i: int|
            0 <= i < path@.len() - 1 ==> adj_view(adj@)[#[trigger] path@[i] as int].contains(path@[i + 1]),
    ensures
        e matches RegistryError::CyclicRuleDependency { cycle } && exists|w: Seq<usize>|
            is_index_cycle(adj_view(adj@), w) && cycle@ == cycle_text(deref_rules(rules@), w),
{
    let ghost g = adj_view(adj@);
    let p = position_on_path(path, v);
    let mut w: Vec<usize> = Vec::new();
    let mut j: usize = p;
    while j < path.len()
        invariant
            p <= j <= path@.len(),
            w@ == path@.subrange(p as int, j as int),
        decreases path@.len() - j,
    {
        w.push(path[j]);
        assert(path@.subrange(p as int, j + 1) =~= path@.subrange(p as int, j as int).push(
            path@[j as int],
        ));
        j = j + 1;
    }
    w.push(v);
    proof {
        let ws = w@;
        assert(ws.len() >= 2);
        assert(ws[0] == v);
        assert forall|i: int| 0 <= i < ws.len() - 1 implies 0 <= #[trigger] ws[i] < g.len()
            && g[ws[i] as int].contains(ws[i + 1]) by {
            assert(ws[i] == path@[p + i]);
            if i < ws.len() - 2 {
                assert(ws[i + 1] == path@[p + i + 1]);
            } else {
                assert(path@[p + i] == u);
            }
        }
        assert(is_index_cycle(g, ws));
    }
    assert forall|i: int| 0 <= i < w@.len() implies #[trigger] w@[i] < deref_rules(rules@).len() by {
        if i < w@.len() - 1 {
            assert(w@[i] == path@[p + i]);
        }
    }
    let msg = cycle_message(rules, &w);
    RegistryError::CyclicRuleDependency { cycle: msg }
}

/// Searches depth-first from the unvisited node `u`. A call to a node on
/// the current path closes a cycle, which is reported with its ids.
fn dfs_cycle(
    u: usize,
    rules: &Vec<&Rule>,
    adj: &Vec<Vec<usize>>,
    colour: &mut Vec<u8>,
    path: &mut Vec<usize>,
    fin: &mut Ghost<Seq<int>>,
    cnt: &mut Ghost<int>,
) -> (r: Result<(), RegistryError>)
    requires
        adj@.len() == deref_rules(rules@).len(),
        dfs_inv(adj_view(adj@), old(colour)@, old(path)@, old(fin)@, old(cnt)@),
        u < adj@.len(),
        old(colour)@[u as int] == 0,
        old(path)@.len() > 0 ==> adj_view(adj@)[old(path)@.last() as int].contains(u),
    ensures
        match r {
            Ok(()) => dfs_inv(adj_view(adj@), final(colour)@, final(path)@, final(fin)@, final(cnt)@)
                && final(path)@ == old(path)@ && final(colour)@[u as int] == 2 && advanced(
                old(colour)@,
                final(colour)@,
                old(fin)@,
                final(fin)@,
            ) && final(cnt)@ >= old(cnt)@,
            Err(e) => e matches RegistryError::CyclicRuleDependency { cycle } && exists|w: Seq<usize>|
                is_index_cycle(adj_view(adj@), w) && cycle@ == cycle_text(deref_rules(rules@), w),
        },
    decreases count_white(old(colour)@),
{
    reveal(dfs_inv);
    let ghost g = adj_view(adj@);
    let n_all = adj.len();
    let ghost c0 = colour@;
    let ghost p0 = path@;
    let ghost f0 = fin@;
    let ghost n0 = cnt@;
    colour[u] = 1;
    path.push(u);
    let ghost c1 = colour@;
    let ghost p1 = path@;
    proof {
        assert forall|x: int| 0 <= x < c1.len() implies (#[trigger] c1[x] == 1 <==> p1.contains(
            x as usize,
        )) by {
            if x != u {
                assert(c1[x] == c0[x]);
                if p1.contains(x as usize) {
                    let j = choose|j: int| 0 <= j < p1.len() && p1[j] == x as usize;
                    if j == p0.len() {
                        assert(p1[j] == u);
                    }
                    assert(p0[j] == x as usize);
                }
                if p0.contains(x as usize) {
                    let j = choose|j: int| 0 <= j < p0.len() && p0[j] == x as usize;
                    assert(p1[j] == x as usize);
                }
            } else {
                assert(p1[p1.len() - 1] == u);
            }
        }
        assert forall|i: int| 0 <= i < p1.len() - 1 implies g[#[trigger] p1[i] as int].contains(
            p1[i + 1],
        ) by {
            if i < p0.len() - 1 {
                assert(p1[i] == p0[i]);
                assert(p1[i + 1] == p0[i + 1]);
            } else {
                assert(p1[i] == p0.last());
            }
        }
        assert forall|x: int, t: int|
            0 <= x < c1.len() && c1[x] == 2 && 0 <= t < g[x].len() implies c1[#[trigger] g[x][t] as int]
            == 2 && f0[g[x][t] as int] < f0[x] by {
            assert(c0[x] == 2);
        }
        assert(dfs_inv(g, c1, p1, f0, n0));
        assert(advanced(c1, c1, f0, f0));
    }
    let n_succ = adj[u].len();
    let mut t: usize = 0;
    while t < n_succ
        invariant
            g == adj_view(adj@),
            adj@.len() == deref_rules(rules@).len(),
            u < adj@.len(),
            n_succ == g[u as int].len(),
            t <= n_succ,
            c0[u as int] == 0,
            c0.len() == g.len(),
            c1 == c0.update(u as int, 1u8),
            dfs_inv(g, colour@, path@, fin@, cnt@),
            path@ == p1,
            p1 == p0.push(u),
            colour@[u as int] == 1,
            advanced(c1, colour@, f0, fin@),
            forall|j: int|
                0 <= j < t ==> colour@[#[trigger] g[u as int][j] as int] == 2 && fin@[g[u as int][j] as int]
                    < cnt@,
            cnt@ >= n0,
            count_white(c0) == count_white(old(colour)@),
        decreases n_succ - t,
    {
        let v = adj[u][t];
        assert(v == g[u as int][t as int]);
        proof {
            lemma_inv_adj(g, colour@, path@, fin@, cnt@, u as int, t as int);
            lemma_inv_len(g, colour@, path@, fin@, cnt@);
            lemma_inv_colour(g, colour@, path@, fin@, cnt@, v as int);
            lemma_inv_path(g, colour@, path@, fin@, cnt@);
        }
        if colour[v] == 1 {
            return Err(cycle_error(rules, adj, path, u, v));
        } else if colour[v] == 0 {
            proof {
                assert forall|i: int| 0 <= i < colour@.len() && colour@[i] == 0 implies c0[i] == 0 by {
                    assert(c1[i] == 0);
                }
                lemma_count_white(c0, colour@, u as int);
            }
            let ghost cb = colour@;
            let ghost fb = fin@;
            let ghost kb = cnt@;
            match dfs_cycle(v, rules, adj, colour, path, fin, cnt) {
                Ok(()) => {},
                Err(e) => {
                    return Err(e);
                },
            }
            proof {
                lemma_advanced_trans(c1, cb, colour@, f0, fb, fin@);
                lemma_inv_fin(g, colour@, path@, fin@, cnt@, v as int);
                assert forall|j: int| 0 <= j <= t implies colour@[#[trigger] g[u as int][j] as int]
                    == 2 && fin@[g[u as int][j] as int] < cnt@ by {
                    if j < t {
                        let y = g[u as int][j] as int;
                        lemma_inv_adj(g, cb, path@, fb, kb, u as int, j);
                        assert(0 <= y < g.len());
                        assert(cb[y] == 2);
                        assert(fb[y] < kb);
                        assert(colour@[y] == 2 && fin@[y] == fb[y]);
                    }
                }
            }
        } else {
            proof {
                assert(colour@[v as int] == 2);
                lemma_inv_fin(g, colour@, path@, fin@, cnt@, v as int);
            }
        }
        t = t + 1;
    }
    let ghost c2 = colour@;
    let ghost f2 = fin@;
    let ghost k2 = cnt@;
    colour[u] = 2;
    *fin = Ghost(f2.update(u as int, k2));
    *cnt = Ghost(k2 + 1);
    path.pop();
    proof {
        let c3 = colour@;
        let f3 = fin@;
        assert(path@ =~= p0);
        assert forall|x: int| 0 <= x < c3.len() implies (#[trigger] c3[x] == 1 <==> p0.contains(
            x as usize,
        )) by {
            if x != u {
                assert(c3[x] == c2[x]);
                if p0.contains(x as usize) {
                    let j = choose|j: int| 0 <= j < p0.len() && p0[j] == x as usize;
                    assert(p1[j] == x as usize);
                }
                if p1.contains(x as usize) {
                    let j = choose|j: int| 0 <= j < p1.len() && p1[j] == x as usize;
                    if j == p0.len() {
                        assert(p1[j] == u);
                    } else {
                        assert(p0[j] == x as usize);
                    }
                }
            } else {
                assert(c0[u as int] != 1);
            }
        }
        assert forall|x: int, t2: int|
            0 <= x < c3.len() && c3[x] == 2 && 0 <= t2 < g[x].len() implies c3[#[trigger] g[x][t2] as int]
            == 2 && f3[g[x][t2] as int] < f3[x] by {
            let y = g[x][t2] as int;
            if x == u {
                assert(c2[y] == 2);
                assert(f2[y] < k2);
                assert(y != u);
            } else {
                assert(c2[x] == 2);
                assert(c2[y] == 2);
                if y == u {
                    assert(false);
                }
            }
        }
        assert forall|x: int| 0 <= x < c3.len() && #[trigger] c3[x] == 2 implies f3[x] < k2 + 1 by {
            if x != u {
                assert(c2[x] == 2);
            }
        }
        assert forall|i: int| 0 <= i < p0.len() - 1 implies g[#[trigger] p0[i] as int].contains(
            p0[i + 1],
        ) by {
            assert(p1[i] == p0[i]);
            assert(p1[i + 1] == p0[i + 1]);
        }
        assert forall|i: int| 0 <= i < p0.len() implies #[trigger] p0[i] < g.len() by {
            assert(p1[i] == p0[i]);
        }
        assert(dfs_inv(g, c3, p0, f3, k2 + 1));
        assert forall|x: int| 0 <= x < c0.len() implies {
            &&& (c0[x] == 2 ==> #[trigger] c3[x] == 2 && f3[x] == f0[x])
            &&& (c3[x] == 0 ==> c0[x] == 0)
            &&& (c0[x] == 1 <==> c3[x] == 1)
        } by {
            if x != u {
                assert(c1[x] == c0[x]);
                assert(c3[x] == c2[x]);
            }
        }
    }
    Ok(())
}

proof fn lemma_graph_edge(rules: Seq<Rule>, g: Seq<Seq<usize>>, a: Seq<char>, b: Seq<char>)
    requires
        graph_of(rules, g),
        calls(rules, a, b),
    ensures
        match (first_with(rules, a), first_with(rules, b)) {
            (Some(x), Some(y)) => 0 <= x < g.len() && g[x].contains(y as usize),
            _ => false,
        },
{
    reveal(graph_of);
}

proof fn lemma_graph_calls(rules: Seq<Rule>, g: Seq<Seq<usize>>, u: int, t: int)
    requires
        graph_of(rules, g),
        0 <= u < g.len(),
        0 <= t < g[u].len(),
    ensures
        0 <= g[u][t] < rules.len(),
        calls(rules, rules[u].id@, rules[g[u][t] as int].id@),
{
    reveal(graph_of);
}

proof fn lemma_graph_len(rules: Seq<Rule>, g: Seq<Seq<usize>>)
    requires
        graph_of(rules, g),
    ensures
        g.len() == rules.len(),
        forall|u: int, t: int| 0 <= u < g.len() && 0 <= t < g[u].len() ==> #[trigger] g[u][t] < g.len(),
{
    reveal(graph_of);
}

proof fn lemma_inv_black(g: Seq<Seq<usize>>, c: Seq<u8>, p: Seq<usize>, fin: Seq<int>, cnt: int, u: int, t: int)
    requires
        dfs_inv(g, c, p, fin, cnt),
        0 <= u < c.len(),
        c[u] == 2,
        0 <= t < g[u].len(),
    ensures
        c[g[u][t] as int] == 2,
        fin[g[u][t] as int] < fin[u],
{
    reveal(dfs_inv);
}

proof fn lemma_inv_len(g: Seq<Seq<usize>>, c: Seq<u8>, p: Seq<usize>, fin: Seq<int>, cnt: int)
    requires
        dfs_inv(g, c, p, fin, cnt),
    ensures
        c.len() == g.len(),
        fin.len() == g.len(),
{
    reveal(dfs_inv);
}

proof fn lemma_inv_fin(g: Seq<Seq<usize>>, c: Seq<u8>, p: Seq<usize>, fin: Seq<int>, cnt: int, u: int)
    requires
        dfs_inv(g, c, p, fin, cnt),
        0 <= u < c.len(),
        c[u] == 2,
    ensures
        fin[u] < cnt,
{
    reveal(dfs_inv);
}

proof fn lemma_inv_adj(g: Seq<Seq<usize>>, c: Seq<u8>, p: Seq<usize>, fin: Seq<int>, cnt: int, u: int, t: int)
    requires
        dfs_inv(g, c, p, fin, cnt),
        0 <= u < g.len(),
        0 <= t < g[u].len(),
    ensures
        g[u][t] < g.len(),
{
    reveal(dfs_inv);
}

proof fn lemma_inv_path(g: Seq<Seq<usize>>, c: Seq<u8>, p: Seq<usize>, fin: Seq<int>, cnt: int)
    requires
        dfs_inv(g, c, p, fin, cnt),
    ensures
        forall|i: int| 0 <= i < p.len() ==> #[trigger] p[i] < g.len(),
        forall|i: int| 0 <= i < p.len() - 1 ==> g[#[trigger] p[i] as int].contains(p[i + 1]),
{
    reveal(dfs_inv);
}

proof fn lemma_inv_colour(g: Seq<Seq<usize>>, c: Seq<u8>, p: Seq<usize>, fin: Seq<int>, cnt: int, u: int)
    requires
        dfs_inv(g, c, p, fin, cnt),
        0 <= u < c.len(),
    ensures
        c[u] <= 2,
        c[u] == 1 <==> p.contains(u as usize),
        c.len() == g.len(),
{
    reveal(dfs_inv);
}

proof fn lemma_defined_from_last(rules: Seq<Rule>, a: Seq<char>)
    requires
        last_with(rules, a) is Some,
    ensures
        first_with(rules, a) matches Some(x) && 0 <= x < rules.len() && rules[x].id@ == a
            && first_with(rules, rules[x].id@) == Some(x),
{
    lemma_last_with(rules, a);
    lemma_first_with(rules, a);
    let j = last_with(rules, a)->0;
    assert(rules[j].id@ == a);
}

/// Along a call cycle, the finishing numbers of the first positions of its
/// ids strictly decrease.
proof fn lemma_fin_decreasing(
    rules: Seq<Rule>,
    g: Seq<Seq<usize>>,
    c: Seq<u8>,
    fin: Seq<int>,
    cnt: int,
    w: Seq<Seq<char>>,
    i: int,
)
    requires
        rules.len() <= usize::MAX,
        graph_of(rules, g),
        all_resolved(rules),
        dfs_inv(g, c, Seq::empty(), fin, cnt),
        forall|j: int|
            0 <= j < rules.len() ==> c[#[trigger] first_with(rules, rules[j].id@)->0] == 2,
        is_call_cycle(rules, w),
        1 <= i < w.len(),
    ensures
        first_with(rules, w[i]) is Some,
        first_with(rules, w[0]) is Some,
        fin[first_with(rules, w[i])->0] < fin[first_with(rules, w[0])->0],
    decreases i,
{
    let a = w[i - 1];
    let b = w[i];
    assert(calls(rules, a, b));
    lemma_defined_from_last(rules, a);
    lemma_graph_len(rules, g);
    lemma_inv_len(g, c, Seq::empty(), fin, cnt);
    let x = first_with(rules, a)->0;
    assert(defines(rules, b));
    lemma_first_with(rules, b);
    let y = first_with(rules, b)->0;
    lemma_graph_edge(rules, g, a, b);
    assert(g[x].contains(y as usize));
    let t = choose|t: int| 0 <= t < g[x].len() && g[x][t] == y as usize;
    assert(c[first_with(rules, rules[x].id@)->0] == 2);
    assert(c[x] == 2);
    lemma_inv_colour(g, c, Seq::empty(), fin, cnt, x);
    lemma_inv_black(g, c, Seq::empty(), fin, cnt, x, t);
    assert(g[x][t] as int == y);
    assert(fin[y] < fin[x]);
    if i > 1 {
        lemma_fin_decreasing(rules, g, c, fin, cnt, w, i - 1);
    }
}

/// When every first position is finished, there is no call cycle.
proof fn lemma_acyclic(rules: Seq<Rule>, g: Seq<Seq<usize>>, c: Seq<u8>, fin: Seq<int>, cnt: int)
    requires
        rules.len() <= usize::MAX,
        graph_of(rules, g),
        all_resolved(rules),
        dfs_inv(g, c, Seq::empty(), fin, cnt),
        forall|j: int|
            0 <= j < rules.len() ==> c[#[trigger] first_with(rules, rules[j].id@)->0] == 2,
    ensures
        acyclic(rules),
{
    assert forall|w: Seq<Seq<char>>| !is_call_cycle(rules, w) by {
        if is_call_cycle(rules, w) {
            lemma_fin_decreasing(rules, g, c, fin, cnt, w, w.len() - 1);
        }
    }
}

/// The outcome of checking `rules` for `call_rule` safety with call depth
/// limit `max`: the first undefined call target (in rule and action order)
/// is reported; otherwise a cycle of calls is refused, naming the cycle with
/// its ids joined by arrows; otherwise the first rule (in order) at which a
/// chain of more than `max` calls starts is refused; otherwise the check
/// passes.
pub open spec fn guard_result(rules: Seq<Rule>, max: nat, r: Result<(), RegistryError>) -> bool {
    match first_missing(rules, rules.len() as int) {
        Some(d) => r matches Err(RegistryError::UnresolvedRuleReference(x)) && x@ == d,
        None => if acyclic(rules) {
            match first_too_deep(rules, max, rules.len() as int) {
                None => r is Ok,
                Some(id) => r matches Err(RegistryError::CallChainTooDeep { rule_id, limit })
                    && rule_id@ == id && limit == max,
            }
        } else {
            r matches Err(e) && e matches RegistryError::CyclicRuleDependency { cycle } && exists|
                w: Seq<Seq<char>>,
            | is_call_cycle(rules, w) && cycle@ == joined(w, " \u{2192} "@)
        },
    }
}

/// The depth limit `validate_ruleset` applies: the registry's default
/// `call_rule` depth.
pub const MAX_CALL_DEPTH: usize = 8;

// ---------------------------------------------------------------------------
// Call-chain depth
// ---------------------------------------------------------------------------

/// Rule `a` starts a chain of `k` calls.
pub open spec fn chain_from(rules: Seq<Rule>, a: Seq<char>, k: nat) -> bool
    decreases k,
{
    if k == 0 {
        true
    } else {
        exists|b: Seq<char>| #[trigger] calls(rules, a, b) && chain_from(rules, b, (k - 1) as nat)
    }
}

/// The id of the first rule, among the first `n`, at which a chain of more
/// than `max` calls starts.
pub open spec fn first_too_deep(rules: Seq<Rule>, max: nat, n: int) -> Option<Seq<char>>
    decreases n,
{
    if n <= 0 || n > rules.len() {
        None
    } else {
        match first_too_deep(rules, max, n - 1) {
            Some(x) => Some(x),
            None => if chain_from(rules, rules[n - 1].id@, max + 1) {
                Some(rules[n - 1].id@)
            } else {
                None
            },
        }
    }
}

/// A chain of `k + 1` calls contains a chain of `k` calls.
proof fn lemma_chain_shorter(rules: Seq<Rule>, a: Seq<char>, k: nat)
    requires
        chain_from(rules, a, k + 1),
    ensures
        chain_from(rules, a, k),
    decreases k,
{
    if k > 0 {
        let b = choose|b: Seq<char>| #[trigger] calls(rules, a, b) && chain_from(rules, b, k);
        lemma_chain_shorter(rules, b, (k - 1) as nat);
    }
}

proof fn lemma_chain_longer(rules: Seq<Rule>, a: Seq<char>, k: nat, j: nat)
    requires
        k <= j,
        !chain_from(rules, a, k),
    ensures
        !chain_from(rules, a, j),
    decreases j - k,
{
    if k < j {
        if chain_from(rules, a, (k + 1) as nat) {
            lemma_chain_shorter(rules, a, k);
        }
        lemma_chain_longer(rules, a, (k + 1) as nat, j);
    }
}

/// The target `t` is defined and its height plus one is at least `j`.
pub open spec fn reaches(rules: Seq<Rule>, h: Seq<u128>, t: Seq<char>, j: int) -> bool {
    match first_with(rules, t) {
        Some(p) => h[p] + 1 >= j,
        None => false,
    }
}

/// One plus the largest height among the targets `ts` (0 when there are
/// none); a target's height is that of the first rule with its id.
pub open spec fn best_of(rules: Seq<Rule>, h: Seq<u128>, ts: Seq<Seq<char>>) -> int
    decreases ts.len(),
{
    if ts.len() == 0 {
        0
    } else {
        let a = best_of(rules, h, ts.drop_last());
        let b = match first_with(rules, ts.last()) {
            Some(p) => h[p] + 1,
            None => 0,
        };
        if a >= b {
            a
        } else {
            b
        }
    }
}

proof fn lemma_best_of(rules: Seq<Rule>, h: Seq<u128>, ts: Seq<Seq<char>>, j: int)
    requires
        j >= 1,
    ensures
        (best_of(rules, h, ts) >= j) == (exists|i: int|
            0 <= i < ts.len() && #[trigger] reaches(rules, h, ts[i], j)),
    decreases ts.len(),
{
    if ts.len() > 0 {
        let q = ts.drop_last();
        let n = ts.len() - 1;
        lemma_best_of(rules, h, q, j);
        assert(ts.last() == ts[n]);
        let b = match first_with(rules, ts.last()) {
            Some(p) => h[p] + 1,
            None => 0,
        };
        assert((b >= j) == reaches(rules, h, ts[n], j));
        if best_of(rules, h, q) >= j {
            let i = choose|i: int| 0 <= i < q.len() && #[trigger] reaches(rules, h, q[i], j);
            assert(ts[i] == q[i]);
            assert(reaches(rules, h, ts[i], j));
        }
        if b >= j {
            assert(reaches(rules, h, ts[n], j));
        }
        if exists|i: int| 0 <= i < ts.len() && #[trigger] reaches(rules, h, ts[i], j) {
            let i = choose|i: int| 0 <= i < ts.len() && #[trigger] reaches(rules, h, ts[i], j);
            if i < n {
                assert(q[i] == ts[i]);
                assert(reaches(rules, h, q[i], j));
            }
        }
    }
}

/// The height of position `u` after a round: one plus the largest height
/// among what the rule with its id calls.
pub open spec fn round_value(rules: Seq<Rule>, h: Seq<u128>, u: int) -> int {
    match last_with(rules, rules[u].id@) {
        Some(k) => best_of(rules, h, call_targets(rules[k].actions@)),
        None => 0,
    }
}

/// After `t` rounds, the height of each position is at most `t`, and is at
/// least `j` (for `j <= t`) exactly when a chain of `j` calls starts there.
pub open spec fn heights_ok(rules: Seq<Rule>, h: Seq<u128>, t: int) -> bool {
    &&& h.len() == rules.len()
    &&& forall|u: int| 0 <= u < h.len() ==> #[trigger] h[u] <= t
    &&& forall|u: int, j: int|
        0 <= u < h.len() && 0 <= j <= t ==> ((#[trigger] h[u] >= j) == #[trigger] chain_from(
            rules,
            rules[u].id@,
            j as nat,
        ))
}

proof fn lemma_round(rules: Seq<Rule>, h: Seq<u128>, nh: Seq<u128>, t: int)
    requires
        t >= 0,
        all_resolved(rules),
        heights_ok(rules, h, t),
        nh.len() == rules.len(),
        forall|u: int| 0 <= u < nh.len() ==> nh[u] == round_value(rules, h, u),
    ensures
        heights_ok(rules, nh, t + 1),
{
    assert forall|u: int| 0 <= u < nh.len() implies #[trigger] nh[u] <= t + 1 by {
        lemma_round_bound(rules, h, t, u);
    }
    assert forall|u: int, j: int| 0 <= u < nh.len() && 0 <= j <= t + 1 implies ((#[trigger] nh[u] >= j)
        == #[trigger] chain_from(rules, rules[u].id@, j as nat)) by {
        if j >= 1 {
            let a = rules[u].id@;
            lemma_last_with(rules, a);
            match last_with(rules, a) {
                Some(k) => {
                    let ts = call_targets(rules[k].actions@);
                    lemma_best_of(rules, h, ts, j);
                    if nh[u] >= j {
                        let i = choose|i: int|
                            0 <= i < ts.len() && #[trigger] reaches(rules, h, ts[i], j);
                        let p = first_with(rules, ts[i])->0;
                        lemma_first_with(rules, ts[i]);
                        assert(ts.contains(ts[i]));
                        assert(calls(rules, a, ts[i]));
                        assert(h[p] >= j - 1);
                        assert(chain_from(rules, rules[p].id@, (j - 1) as nat));
                        assert(chain_from(rules, a, j as nat));
                    }
                    if chain_from(rules, a, j as nat) {
                        let b = choose|b: Seq<char>|
                            #[trigger] calls(rules, a, b) && chain_from(rules, b, (j - 1) as nat);
                        assert(ts.contains(b));
                        let i = choose|i: int| 0 <= i < ts.len() && ts[i] == b;
                        assert(defines(rules, b));
                        lemma_first_with(rules, b);
                        let p = first_with(rules, b)->0;
                        assert(rules[p].id@ == b);
                        assert(chain_from(rules, rules[p].id@, (j - 1) as nat));
                        assert(h[p] >= j - 1);
                        assert(reaches(rules, h, ts[i], j));
                    }
                },
                None => {
                    if chain_from(rules, a, j as nat) {
                        let b = choose|b: Seq<char>|
                            #[trigger] calls(rules, a, b) && chain_from(rules, b, (j - 1) as nat);
                        assert(false);
                    }
                },
            }
        }
    }
}

proof fn lemma_best_bound(rules: Seq<Rule>, h: Seq<u128>, ts: Seq<Seq<char>>, t: int)
    requires
        t >= 0,
        forall|u: int| 0 <= u < h.len() ==> #[trigger] h[u] <= t,
        h.len() == rules.len(),
    ensures
        0 <= best_of(rules, h, ts) <= t + 1,
    decreases ts.len(),
{
    if ts.len() > 0 {
        lemma_best_bound(rules, h, ts.drop_last(), t);
        lemma_first_with(rules, ts.last());
    }
}

proof fn lemma_round_bound(rules: Seq<Rule>, h: Seq<u128>, t: int, u: int)
    requires
        t >= 0,
        forall|x: int| 0 <= x < h.len() ==> #[trigger] h[x] <= t,
        h.len() == rules.len(),
    ensures
        0 <= round_value(rules, h, u) <= t + 1,
{
    match last_with(rules, rules[u].id@) {
        Some(k) => lemma_best_bound(rules, h, call_targets(rules[k].actions@), t),
        None => {},
    }
}

/// Computes `round_value` for position `u`.
fn round_at(rules: &Vec<&Rule>, h: &Vec<u128>, u: usize, Ghost(t): Ghost<int>) -> (r: u128)
    requires
        u < deref_rules(rules@).len(),
        h@.len() == deref_rules(rules@).len(),
        t >= 0,
        t + 1 <= u128::MAX,
        forall|x: int| 0 <= x < h@.len() ==> #[trigger] h@[x] <= t,
    ensures
        r == round_value(deref_rules(rules@), h@, u as int),
{
    let ghost rs = deref_rules(rules@);
    let k = match find_last(rules, rules[u].id.as_str()) {
        Some(k) => k,
        None => {
            return 0;
        },
    };
    let ts = collect_call_rule_deps(&rules[k].actions);
    let ghost tv = string_views(ts@);
    let mut best: u128 = 0;
    let mut i: usize = 0;
    assert(tv.take(0) =~= Seq::<Seq<char>>::empty());
    while i < ts.len()
        invariant
            rs == deref_rules(rules@),
            h@.len() == rs.len(),
            t >= 0,
            t + 1 <= u128::MAX,
            forall|x: int| 0 <= x < h@.len() ==> #[trigger] h@[x] <= t,
            tv == string_views(ts@),
            tv.len() == ts@.len(),
            i <= ts@.len(),
            best == best_of(rs, h@, tv.take(i as int)),
        decreases ts@.len() - i,
    {
        assert(tv.take(i + 1).drop_last() =~= tv.take(i as int));
        assert(tv.take(i + 1).last() == ts@[i as int]@);
        proof {
            lemma_best_bound(rs, h@, tv.take(i as int), t);
        }
        let c: u128 = match find_first(rules, ts[i].as_str()) {
            Some(p) => h[p] + 1,
            None => 0,
        };
        if c > best {
            best = c;
        }
        i = i + 1;
    }
    assert(tv.take(i as int) =~= tv);
    best
}

/// The first rule at which a chain of more than `max` calls starts, if any.
fn find_too_deep(rules: &Vec<&Rule>, max: usize) -> (r: Option<usize>)
    requires
        all_resolved(deref_rules(rules@)),
    ensures
        match first_too_deep(deref_rules(rules@), max as nat, deref_rules(rules@).len() as int) {
            Some(id) => r matches Some(k) && k < deref_rules(rules@).len() && deref_rules(rules@)[k as int].id@
                == id,
            None => r is None,
        },
{
    let ghost rs = deref_rules(rules@);
    let n = rules.len();
    let limit: u128 = max as u128 + 1;
    let mut h: Vec<u128> = Vec::new();
    while h.len() < n
        invariant
            h@.len() <= n,
            n == rs.len(),
            forall|u: int| 0 <= u < h@.len() ==> #[trigger] h@[u] == 0,
        decreases n - h@.len(),
    {
        h.push(0);
    }
    let mut t: u128 = 0;
    let mut stable = false;
    while t < limit && !stable
        invariant
            rs == deref_rules(rules@),
            n == rs.len(),
            all_resolved(rs),
            t <= limit,
            limit == max + 1,
            heights_ok(rs, h@, t as int),
            stable ==> forall|u: int| 0 <= u < n ==> !chain_from(rs, rs[u].id@, t as nat),
        decreases limit - t, (if stable { 0int } else { 1int }),
    {
        let mut nh: Vec<u128> = Vec::new();
        let mut u: usize = 0;
        while u < n
            invariant
                rs == deref_rules(rules@),
                n == rs.len(),
                h@.len() == n,
                t < limit,
                limit <= u64::MAX as u128 + 1,
                forall|x: int| 0 <= x < h@.len() ==> #[trigger] h@[x] <= t,
                u <= n,
                nh@.len() == u,
                forall|x: int| 0 <= x < u ==> nh@[x] == round_value(rs, h@, x),
            decreases n - u,
        {
            let v = round_at(rules, &h, u, Ghost(t as int));
            nh.push(v);
            u = u + 1;
        }
        proof {
            lemma_round(rs, h@, nh@, t as int);
        }
        let mut same = true;
        let mut x: usize = 0;
        while x < n
            invariant
                n == rs.len(),
                h@.len() == n,
                nh@.len() == n,
                x <= n,
                same == forall|y: int| 0 <= y < x ==> nh@[y] == h@[y],
            decreases n - x,
        {
            if nh[x] != h[x] {
                same = false;
            }
            x = x + 1;
        }
        proof {
            if same {
                assert forall|w: int| 0 <= w < n implies !chain_from(rs, rs[w].id@, (t + 1) as nat) by {
                    assert(nh@[w] == h@[w]);
                    assert(h@[w] <= t);
                }
            }
        }
        h = nh;
        t = t + 1;
        stable = same;
    }
    proof {
        assert forall|u: int| 0 <= u < n implies ((#[trigger] h@[u] >= limit) == chain_from(
            rs,
            rs[u].id@,
            limit as nat,
        )) by {
            if t == limit {
            } else {
                assert(stable);
                lemma_chain_longer(rs, rs[u].id@, t as nat, limit as nat);
            }
        }
    }
    let mut k: usize = 0;
    while k < n
        invariant
            rs == deref_rules(rules@),
            n == rs.len(),
            h@.len() == n,
            limit == max + 1,
            k <= n,
            forall|u: int| 0 <= u < n ==> ((#[trigger] h@[u] >= limit) == chain_from(
                rs,
                rs[u].id@,
                limit as nat,
            )),
            first_too_deep(rs, max as nat, k as int) is None,
        decreases n - k,
    {
        if h[k] >= limit {
            proof {
                lemma_too_deep_prefix(rs, max as nat, k + 1);
            }
            return Some(k);
        }
        k = k + 1;
    }
    None
}

proof fn lemma_too_deep_prefix(rules: Seq<Rule>, max: nat, k: int)
    requires
        0 <= k <= rules.len(),
        first_too_deep(rules, max, k) is Some,
    ensures
        first_too_deep(rules, max, rules.len() as int) == first_too_deep(rules, max, k),
    decreases rules.len() - k,
{
    if k < rules.len() {
        lemma_too_deep_prefix(rules, max, k + 1);
    }
}

/// The guard accepts exactly the rule sets in which every `call_rule`
/// target is defined, no rule reaches itself through calls, and no chain
/// of more than `max` calls starts at any rule; an accepted set has every
/// call resolved.
pub proof fn law_guard_accepts_exactly_safe_sets(rules: Seq<Rule>, max: nat, r: Result<(), RegistryError>)
    requires
        guard_result(rules, max, r),
    ensures
        (r is Ok) == (first_missing(rules, rules.len() as int) is None && acyclic(rules) && forall|u: int|
            0 <= u < rules.len() ==> !chain_from(rules, #[trigger] rules[u].id@, max + 1)),
        r is Ok ==> all_resolved(rules),
{
    lemma_too_deep_none(rules, max, rules.len() as int);
    if first_missing(rules, rules.len() as int) is None {
        lemma_resolved(rules);
    }
}

proof fn lemma_too_deep_none(rules: Seq<Rule>, max: nat, n: int)
    requires
        0 <= n <= rules.len(),
    ensures
        (first_too_deep(rules, max, n) is None) == (forall|u: int|
            0 <= u < n ==> !chain_from(rules, #[trigger] rules[u].id@, max + 1)),
    decreases n,
{
    if n > 0 {
        lemma_too_deep_none(rules, max, n - 1);
    }
}

/// Checks the rules referred to for `call_rule` safety (see
/// `guard_result`).
pub fn validate_rule_refs(rules: &Vec<&Rule>, max: usize) -> (r: Result<(), RegistryError>)
    ensures
        guard_result(deref_rules(rules@), max as nat, r),
{
    match find_missing(rules) {
        Some(d) => {
            return Err(RegistryError::UnresolvedRuleReference(d));
        },
        None => {},
    }
    proof {
        lemma_resolved(deref_rules(rules@));
    }
    let adj = build_graph(rules);
    let ghost g = adj_view(adj@);
    let n = rules.len();
    let mut colour: Vec<u8> = Vec::new();
    let mut i: usize = 0;
    while i < n
        invariant
            i <= n,
            colour@.len() == i,
            forall|j: int| 0 <= j < i ==> #[trigger] colour@[j] == 0,
        decreases n - i,
    {
        colour.push(0);
        i = i + 1;
    }
    let mut path: Vec<usize> = Vec::new();
    let mut fin: Ghost<Seq<int>> = Ghost(Seq::new(n as nat, |j: int| 0int));
    let mut cnt: Ghost<int> = Ghost(0int);
    proof {
        reveal(dfs_inv);
        lemma_graph_len(deref_rules(rules@), g);
        assert(g.len() == n);
        assert(path@ =~= Seq::<usize>::empty());
        assert(dfs_inv(g, colour@, path@, fin@, cnt@));
    }
    let mut k: usize = 0;
    while k < n
        invariant
            n == deref_rules(rules@).len(),
            k <= n,
            adj@.len() == n,
            g == adj_view(adj@),
            graph_of(deref_rules(rules@), g),
            all_resolved(deref_rules(rules@)),
            first_missing(deref_rules(rules@), deref_rules(rules@).len() as int) is None,
            path@ == Seq::<usize>::empty(),
            dfs_inv(g, colour@, path@, fin@, cnt@),
            forall|j: int|
                0 <= j < k ==> colour@[#[trigger] first_with(deref_rules(rules@), deref_rules(rules@)[j].id@)->0] == 2,
        decreases n - k,
    {
        proof {
            lemma_first_with(deref_rules(rules@), deref_rules(rules@)[k as int].id@);
        }
        proof {
            lemma_graph_len(deref_rules(rules@), g);
            lemma_inv_len(g, colour@, path@, fin@, cnt@);
        }
        let f = match find_first(rules, rules[k].id.as_str()) {
            Some(f) => f,
            None => {
                assert(false);
                return Ok(());
            },
        };
        if colour[f] == 0 {
            let ghost c0 = colour@;
            let ghost f0 = fin@;
            match dfs_cycle(f, rules, &adj, &mut colour, &mut path, &mut fin, &mut cnt) {
                Ok(()) => {},
                Err(e) => {
                    proof {
                        if let RegistryError::CyclicRuleDependency { ref cycle } = e {
                            let w = choose|w: Seq<usize>|
                                is_index_cycle(g, w) && cycle@ == cycle_text(deref_rules(rules@), w);
                            let wid = walk_ids(deref_rules(rules@), w);
                            assert forall|i2: int| 0 <= i2 < wid.len() - 1 implies calls(
                                deref_rules(rules@),
                                #[trigger] wid[i2],
                                wid[i2 + 1],
                            ) by {
                                let x = w[i2] as int;
                                let t = choose|t: int| 0 <= t < g[x].len() && g[x][t] == w[i2 + 1];
                                lemma_graph_calls(deref_rules(rules@), g, x, t);
                                assert(g[x][t] == w[i2 + 1]);
                            }
                            assert(is_call_cycle(deref_rules(rules@), wid));
                            assert(cycle@ == joined(wid, " \u{2192} "@));
                            assert(exists|w2: Seq<Seq<char>>|
                                is_call_cycle(deref_rules(rules@), w2) && cycle@ == joined(w2, " \u{2192} "@));
                            assert(!acyclic(deref_rules(rules@)));
                        }
                    }
                    return Err(e);
                },
            }
            proof {
                assert forall|j: int| 0 <= j <= k implies colour@[#[trigger] first_with(
                    deref_rules(rules@),
                    deref_rules(rules@)[j].id@,
                )->0] == 2 by {
                    if j < k {
                        let y = first_with(deref_rules(rules@), deref_rules(rules@)[j].id@)->0;
                        lemma_first_with(deref_rules(rules@), deref_rules(rules@)[j].id@);
                        assert(c0[y] == 2);
                    }
                }
            }
        } else {
            proof {
                lemma_inv_colour(g, colour@, path@, fin@, cnt@, f as int);
                assert(colour@[f as int] == 2);
            }
        }
        k = k + 1;
    }
    proof {
        lemma_acyclic(deref_rules(rules@), g, colour@, fin@, cnt@);
    }
    match find_too_deep(rules, max) {
        Some(k) => Err(RegistryError::CallChainTooDeep { rule_id: rules[k].id.clone(), limit: max }),
        None => Ok(()),
    }
}

/// Checks a set of rules for `call_rule` safety: every call target must be
/// defined, no rule may reach itself through calls, and no chain may have
/// more calls than `MAX_CALL_DEPTH` (see `guard_result`).
pub fn validate_ruleset(rules: &[Rule]) -> (r: Result<(), RegistryError>)
    ensures
        guard_result(rules@, MAX_CALL_DEPTH as nat, r),
{
    let refs = rule_refs(rules);
    validate_rule_refs(&refs, MAX_CALL_DEPTH)
}

/// Runtime depth guard for `call_rule`: a call at depth `current_depth`
/// is refused once the depth reaches `max_depth`.
pub fn check_depth(current_depth: usize, max_depth: usize) -> (r: Result<(), EvaluationError>)
    ensures
        match r {
            Ok(()) => current_depth < max_depth,
            Err(e) => current_depth >= max_depth && e@ == EvalErrorView::CallDepthExceeded(
                max_depth as nat,
            ),
        },
{
    if current_depth >= max_depth {
        Err(EvaluationError::CallDepthExceeded { limit: max_depth })
    } else {
        Ok(())
    }
}

} // verus!
