//! Rule evaluation: condition trees, actions, call chains and strategies.
use vstd::prelude::*;
use crate::error::{EvaluationError, EvalErrorView};
use crate::json::{lemma_member_set_get, lemma_member_set_other, lemma_member_set_same, member_index, 
    Value, JValue, view_members, member_get, member_set, find_member, set_member, copy_value,
    lemma_view_members, lemma_member_index,
};
use crate::text::{chars_of, split_chars, split_char, string_from_chars, push_str, owned};
use crate::timeout::{instant_now, micros_since};
use std::time::Instant;
use crate::trace::{
    string_views, condition_views, ConditionTrace, ConditionTraceView, RuleTrace, RuleTraceView,
    RuleTraceBuilder, EvaluationTrace, rule_trace_views,
};
use crate::schema::{
    deref_rules, Rule, ConditionGroup, ConditionNode, LeafCondition, Operator, Action, ActionValue, LogLevel,
    Strategy,
};
use crate::operators::{apply_spec, apply_at, opt_view, or_null};
use crate::resolver::{
    lemma_resolve_null, part_segments, parts_segments, resolve, resolve_owned, resolve_path, resolve_segments,
    SegmentView,
};
use crate::text::{first_index_of, lemma_first_index_of};
use crate::expression::{extract_spec, template_spec, extract_template, eval_template};
use crate::number::{Number, number_text, spec_add, num_add, push_number};
use crate::json::{json_text, to_json_string, push_json, view_seq, lemma_view_seq};

verus! {

// ---------------------------------------------------------------------------
// Paths in output contexts
// ---------------------------------------------------------------------------

/// The dot-separated parts of a path.
pub open spec fn path_parts(path: Seq<char>) -> Seq<Seq<char>> {
    split_char(path, '.')
}

/// `t` with the value at `parts` set to `v`: missing objects on the way are
/// created; a non-object on the way leaves `t` unchanged.
pub open spec fn set_at(t: JValue, parts: Seq<Seq<char>>, v: JValue) -> JValue
    decreases parts.len(),
{
    if parts.len() == 0 {
        t
    } else {
        match t {
            JValue::Object(m) => if parts.len() == 1 {
                JValue::Object(member_set(m, parts[0], v))
            } else {
                let child = match member_get(m, parts[0]) {
                    Some(c) => c,
                    None => JValue::Object(Seq::empty()),
                };
                JValue::Object(member_set(m, parts[0], set_at(child, parts.drop_first(), v)))
            },
            _ => t,
        }
    }
}

/// The value at `parts` in `t`, following objects only.
pub open spec fn get_at(t: JValue, parts: Seq<Seq<char>>) -> Option<JValue>
    decreases parts.len(),
{
    if parts.len() == 0 {
        Some(t)
    } else {
        match t {
            JValue::Object(m) => match member_get(m, parts[0]) {
                Some(c) => get_at(c, parts.drop_first()),
                None => None,
            },
            _ => None,
        }
    }
}

/// Every object met along `parts` is an object, up to the last part: a
/// path on which `set_at` can write.
pub open spec fn path_writable(t: JValue, parts: Seq<Seq<char>>) -> bool
    decreases parts.len(),
{
    match t {
        JValue::Object(m) => parts.len() <= 1 || match member_get(m, parts[0]) {
            Some(c) => path_writable(c, parts.drop_first()),
            None => true,
        },
        _ => false,
    }
}

/// A value written at a path is read back at that path, when every value
/// already on the path is an object.
pub proof fn law_set_then_get(t: JValue, parts: Seq<Seq<char>>, v: JValue)
    requires
        parts.len() > 0,
        path_writable(t, parts),
    ensures
        get_at(set_at(t, parts, v), parts) == Some(v),
    decreases parts.len(),
{
    match t {
        JValue::Object(m) => {
            if parts.len() == 1 {
                lemma_member_set_get(m, parts[0], v);
                let ms = member_set(m, parts[0], v);
                assert(set_at(t, parts, v) == JValue::Object(ms));
                assert(get_at(v, parts.drop_first()) == Some(v));
                assert(get_at(JValue::Object(ms), parts) == get_at(v, parts.drop_first()));
            } else {
                let child = match member_get(m, parts[0]) {
                    Some(c) => c,
                    None => JValue::Object(Seq::empty()),
                };
                let rest = parts.drop_first();
                if member_get(m, parts[0]) is None {
                    assert(member_index(Seq::<(Seq<char>, JValue)>::empty(), rest[0]) is None);
                    assert(path_writable(child, rest));
                }
                law_set_then_get(child, rest, v);
                let inner = set_at(child, rest, v);
                lemma_member_set_get(m, parts[0], inner);
                let ms = member_set(m, parts[0], inner);
                assert(set_at(t, parts, v) == JValue::Object(ms));
                assert(get_at(JValue::Object(ms), parts) == get_at(inner, rest));
            }
        },
        _ => {},
    }
}

/// Neither path is a prefix of the other: they part at some position.
pub open spec fn paths_part(p: Seq<Seq<char>>, q: Seq<Seq<char>>) -> bool {
    exists|i: int| 0 <= i < p.len() && i < q.len() && #[trigger] p[i] != q[i]
}

/// Writing at one path leaves what any path that parts from it reads
/// unchanged.
pub proof fn law_set_keeps_other_paths(t: JValue, p: Seq<Seq<char>>, q: Seq<Seq<char>>, v: JValue)
    requires
        paths_part(p, q),
    ensures
        get_at(set_at(t, p, v), q) == get_at(t, q),
    decreases p.len(),
{
    let i = choose|i: int| 0 <= i < p.len() && i < q.len() && #[trigger] p[i] != q[i];
    match t {
        JValue::Object(m) => {
            let x = if p.len() == 1 {
                v
            } else {
                let child = match member_get(m, p[0]) {
                    Some(c) => c,
                    None => JValue::Object(Seq::empty()),
                };
                set_at(child, p.drop_first(), v)
            };
            let ms = member_set(m, p[0], x);
            assert(set_at(t, p, v) == JValue::Object(ms));
            if p[0] != q[0] {
                lemma_member_set_other(m, p[0], q[0], x);
            } else {
                assert(i >= 1);
                let child = match member_get(m, p[0]) {
                    Some(c) => c,
                    None => JValue::Object(Seq::empty()),
                };
                assert(p.drop_first()[i - 1] != q.drop_first()[i - 1]);
                law_set_keeps_other_paths(child, p.drop_first(), q.drop_first(), v);
                lemma_member_set_get(m, p[0], x);
                if member_get(m, p[0]) is None {
                    assert(member_index(Seq::<(Seq<char>, JValue)>::empty(), q.drop_first()[0]) is None);
                }
            }
        },
        _ => {},
    }
}

/// Writing through a path on which a non-object stands changes nothing.
pub proof fn law_set_blocked_keeps_value(t: JValue, p: Seq<Seq<char>>, v: JValue)
    requires
        !path_writable(t, p),
    ensures
        set_at(t, p, v) == t,
    decreases p.len(),
{
    match t {
        JValue::Object(m) => {
            let c = member_get(m, p[0])->0;
            law_set_blocked_keeps_value(c, p.drop_first(), v);
            lemma_member_set_same(m, p[0], c);
        },
        _ => {},
    }
}

/// A plain part of a path: not empty, and without `[`.
pub open spec fn plain_part(p: Seq<char>) -> bool {
    p.len() > 0 && !p.contains('[')
}

/// A plain path: every dot-separated part of it is plain, so that it names
/// object keys only.
pub open spec fn plain_path(path: Seq<char>) -> bool {
    forall|i: int| 0 <= i < path_parts(path).len() ==> plain_part(#[trigger] path_parts(path)[i])
}

/// The key steps of a list of parts.
pub open spec fn key_steps(ps: Seq<Seq<char>>) -> Seq<SegmentView> {
    ps.map_values(|k: Seq<char>| SegmentView::Key(k))
}

proof fn lemma_plain_part_segments(r: Seq<char>)
    requires
        plain_part(r),
    ensures
        part_segments(r) == seq![SegmentView::Key(r)],
{
    lemma_first_index_of(r, '[');
    if let Some(b) = first_index_of(r, '[') {
        assert(r[b] == '[');
        assert(r.contains('['));
    }
}

proof fn lemma_plain_parts_segments(ps: Seq<Seq<char>>)
    requires
        forall|i: int| 0 <= i < ps.len() ==> plain_part(#[trigger] ps[i]),
    ensures
        parts_segments(ps) == key_steps(ps),
    decreases ps.len(),
{
    if ps.len() == 0 {
        assert(key_steps(ps) =~= Seq::<SegmentView>::empty());
    } else {
        let q = ps.drop_last();
        assert forall|i: int| 0 <= i < q.len() implies plain_part(#[trigger] q[i]) by {
            assert(q[i] == ps[i]);
        }
        lemma_plain_parts_segments(q);
        assert(plain_part(ps[ps.len() - 1]));
        lemma_plain_part_segments(ps.last());
        assert(key_steps(ps) =~= key_steps(q) + seq![SegmentView::Key(ps.last())]);
    }
}

proof fn lemma_resolve_key_steps(t: JValue, ps: Seq<Seq<char>>)
    ensures
        resolve_segments(t, key_steps(ps)) == match get_at(t, ps) {
            Some(v) => v,
            None => JValue::Null,
        },
    decreases ps.len(),
{
    let ks = key_steps(ps);
    if ps.len() == 0 {
        assert(ks =~= Seq::<SegmentView>::empty());
    } else {
        let rest = ps.drop_first();
        assert(ks.drop_first() =~= key_steps(rest));
        assert(ks[0] == SegmentView::Key(ps[0]));
        match t {
            JValue::Object(m) => match member_get(m, ps[0]) {
                Some(c) => {
                    lemma_resolve_key_steps(c, rest);
                },
                None => {
                    lemma_resolve_null(key_steps(rest));
                },
            },
            _ => {
                lemma_resolve_null(key_steps(rest));
            },
        }
    }
}

proof fn lemma_split_nonempty(s: Seq<char>, c: char)
    ensures
        split_char(s, c).len() > 0,
{
}

/// On a plain path, resolving reads the value the path's parts lead to
/// through objects, and `null` where there is none.
pub proof fn law_resolve_plain_path(t: JValue, path: Seq<char>)
    requires
        plain_path(path),
    ensures
        resolve(t, path) == match get_at(t, path_parts(path)) {
            Some(v) => v,
            None => JValue::Null,
        },
{
    lemma_plain_parts_segments(path_parts(path));
    lemma_resolve_key_steps(t, path_parts(path));
}

/// A value written at a plain path is resolved back at that path, when
/// every value already on the path is an object.
pub proof fn law_set_then_resolve(t: JValue, path: Seq<char>, v: JValue)
    requires
        plain_path(path),
        path_writable(t, path_parts(path)),
    ensures
        resolve(set_at(t, path_parts(path), v), path) == v,
{
    lemma_split_nonempty(path, '.');
    law_set_then_get(t, path_parts(path), v);
    law_resolve_plain_path(set_at(t, path_parts(path), v), path);
}

/// Writing at one path leaves what any plain path that parts from it
/// resolves to unchanged.
pub proof fn law_set_keeps_other_resolved_paths(t: JValue, p: Seq<char>, q: Seq<char>, v: JValue)
    requires
        plain_path(q),
        paths_part(path_parts(p), path_parts(q)),
    ensures
        resolve(set_at(t, path_parts(p), v), q) == resolve(t, q),
{
    law_set_keeps_other_paths(t, path_parts(p), path_parts(q), v);
    law_resolve_plain_path(t, q);
    law_resolve_plain_path(set_at(t, path_parts(p), v), q);
}

/// Deep merge of `p` into `t`: members of `p` are added, and members
/// present in both are merged; a non-object on either side keeps `t`.
pub open spec fn merge_spec(t: JValue, p: JValue) -> JValue
    decreases p,
{
    match (t, p) {
        (JValue::Object(tm), JValue::Object(pm)) => JValue::Object(merge_members(tm, pm)),
        _ => t,
    }
}

/// Members of `tm` after merging the members of `pm` in order.
pub open spec fn merge_members(tm: Seq<(Seq<char>, JValue)>, pm: Seq<(Seq<char>, JValue)>) -> Seq<
    (Seq<char>, JValue),
>
    decreases pm,
{
    if pm.len() == 0 {
        tm
    } else {
        let acc = merge_members(tm, pm.drop_last());
        let k = pm.last().0;
        let v = pm.last().1;
        match member_get(acc, k) {
            Some(e) => member_set(acc, k, merge_spec(e, v)),
            None => member_set(acc, k, v),
        }
    }
}

/// The parts of a path as strings.
pub fn path_keys(path: &str) -> (r: Vec<String>)
    ensures
        string_views(r@) == path_parts(path@),
{
    let cs = chars_of(path);
    let parts = split_chars(cs.as_slice(), '.');
    let mut out: Vec<String> = Vec::new();
    let mut i: usize = 0;
    while i < parts.len()
        invariant
            i <= parts@.len(),
            cs@ == path@,
            parts@.len() == split_char(cs@, '.').len(),
            forall|j: int| 0 <= j < parts@.len() ==> #[trigger] parts@[j]@ == split_char(cs@, '.')[j],
            out@.len() == i,
            forall|j: int| 0 <= j < i ==> #[trigger] out@[j]@ == split_char(cs@, '.')[j],
        decreases parts@.len() - i,
    {
        out.push(string_from_chars(parts[i].as_slice()));
        i = i + 1;
    }
    assert(string_views(out@) =~= path_parts(path@));
    out
}

fn set_at_value(t: Value, ks: &Vec<String>, i: usize, v: Value) -> (r: Value)
    requires
        i <= ks@.len(),
    ensures
        r@ == set_at(t@, string_views(ks@).skip(i as int), v@),
    decreases ks@.len() - i,
{
    let ghost parts = string_views(ks@).skip(i as int);
    if i >= ks.len() {
        return t;
    }
    assert(parts[0] == ks@[i as int]@);
    match t {
        Value::Object(mut m) => {
            proof {
                lemma_view_members(m@);
            }
            let ghost mv = view_members(m@);
            if i + 1 == ks.len() {
                set_member(&mut m, ks[i].clone(), v);
                Value::Object(m)
            } else {
                proof {
                    lemma_member_index(mv, parts[0]);
                }
                let child = match find_member(&m, ks[i].as_str()) {
                    Some(j) => copy_value(&m[j].1),
                    None => Value::Object(Vec::new()),
                };
                assert(child@ == (match member_get(mv, parts[0]) {
                    Some(c) => c,
                    None => JValue::Object(Seq::empty()),
                })) by {
                    assert(view_seq_empty_object());
                }
                let nc = set_at_value(child, ks, i + 1, v);
                assert(string_views(ks@).skip(i + 1) =~= parts.drop_first());
                set_member(&mut m, ks[i].clone(), nc);
                Value::Object(m)
            }
        },
        other => other,
    }
}

spec fn view_seq_empty_object() -> bool {
    view_members(Seq::<(String, Value)>::empty()) == Seq::<(Seq<char>, JValue)>::empty()
}

/// Writes `value` at a dot-notation path into a JSON object, creating
/// intermediate objects as needed.
pub fn set_path(target: &mut Value, path: &str, value: Value)
    ensures
        final(target)@ == set_at(old(target)@, path_parts(path@), value@),
{
    let ks = path_keys(path);
    let mut t = Value::Null;
    std::mem::swap(&mut t, target);
    assert(string_views(ks@).skip(0) =~= string_views(ks@));
    *target = set_at_value(t, &ks, 0, value);
}

fn get_at_value<'a>(t: &'a Value, ks: &Vec<String>, i: usize) -> (r: Option<&'a Value>)
    requires
        i <= ks@.len(),
    ensures
        match r {
            Some(x) => get_at(t@, string_views(ks@).skip(i as int)) == Some(x@),
            None => get_at(t@, string_views(ks@).skip(i as int)) is None,
        },
    decreases ks@.len() - i,
{
    let ghost parts = string_views(ks@).skip(i as int);
    if i >= ks.len() {
        return Some(t);
    }
    assert(parts[0] == ks@[i as int]@);
    assert(string_views(ks@).skip(i + 1) =~= parts.drop_first());
    match t {
        Value::Object(m) => {
            proof {
                lemma_view_members(m@);
                lemma_member_index(view_members(m@), parts[0]);
            }
            match find_member(m, ks[i].as_str()) {
                Some(j) => get_at_value(&m[j].1, ks, i + 1),
                None => None,
            }
        },
        _ => None,
    }
}

/// The value at a dot-notation path, following objects only.
pub fn get_path<'a>(target: &'a Value, path: &str) -> (r: Option<&'a Value>)
    ensures
        match r {
            Some(x) => get_at(target@, path_parts(path@)) == Some(x@),
            None => get_at(target@, path_parts(path@)) is None,
        },
{
    let ks = path_keys(path);
    assert(string_views(ks@).skip(0) =~= string_views(ks@));
    get_at_value(target, &ks, 0)
}

/// Deep merge of `patch` into `target` (see `merge_spec`).
#[verifier::loop_isolation(false)]
pub fn merge_values(target: Value, patch: &Value) -> (r: Value)
    ensures
        r@ == merge_spec(target@, patch@),
    decreases patch,
{
    match (target, patch) {
        (Value::Object(mut tm), Value::Object(pm)) => {
            proof {
                lemma_view_members(pm@);
            }
            let ghost t0 = view_members(tm@);
            let ghost pv = view_members(pm@);
            let mut j: usize = 0;
            assert(pv.take(0) =~= Seq::<(Seq<char>, JValue)>::empty());
            while j < pm.len()
                invariant
                    j <= pm@.len(),
                    pv == view_members(pm@),
                    pv.len() == pm@.len(),
                    forall|k: int| 0 <= k < pm@.len() ==> #[trigger] pv[k] == (pm@[k].0@, pm@[k].1@),
                    view_members(tm@) == merge_members(t0, pv.take(j as int)),
                decreases pm@.len() - j,
            {
                let ghost acc = view_members(tm@);
                proof {
                    lemma_view_members(tm@);
                    lemma_member_index(acc, pm@[j as int].0@);
                    assert(pv.take(j + 1).drop_last() =~= pv.take(j as int));
                    assert(pv.take(j + 1).last() == pv[j as int]);
                    assert(decreases_to!(*patch => pm@[j as int].1));
                }
                let k = &pm[j].0;
                match find_member(&tm, k.as_str()) {
                    Some(i) => {
                        let e = copy_value(&tm[i].1);
                        let ne = merge_values(e, &pm[j].1);
                        set_member(&mut tm, k.clone(), ne);
                    },
                    None => {
                        set_member(&mut tm, k.clone(), copy_value(&pm[j].1));
                    },
                }
                j = j + 1;
            }
            assert(pv.take(j as int) =~= pv);
            Value::Object(tm)
        },
        (t, _) => t,
    }
}

/// Merges `patch` into `target` in place.
pub fn merge_output(target: &mut Value, patch: &Value)
    ensures
        final(target)@ == merge_spec(old(target)@, patch@),
{
    let mut t = Value::Null;
    std::mem::swap(&mut t, target);
    *target = merge_values(t, patch);
}

// ---------------------------------------------------------------------------
// Conditions
// ---------------------------------------------------------------------------

/// Name of an operator in traces (its variant name in lower case).
pub open spec fn operator_name(op: Operator) -> Seq<char> {
    match op {
        Operator::Eq => "eq"@,
        Operator::Neq => "neq"@,
        Operator::Gt => "gt"@,
        Operator::Gte => "gte"@,
        Operator::Lt => "lt"@,
        Operator::Lte => "lte"@,
        Operator::Contains => "contains"@,
        Operator::StartsWith => "startswith"@,
        Operator::EndsWith => "endswith"@,
        Operator::Matches => "matches"@,
        Operator::In => "in"@,
        Operator::NotIn => "notin"@,
        Operator::Between => "between"@,
        Operator::Outside => "outside"@,
        Operator::DivisibleBy => "divisibleby"@,
        Operator::IsNull => "isnull"@,
        Operator::IsNotNull => "isnotnull"@,
        Operator::IsEmpty => "isempty"@,
        Operator::IsNotEmpty => "isnotempty"@,
        Operator::Before => "before"@,
        Operator::After => "after"@,
        Operator::WithinDays => "withindays"@,
        Operator::IsWeekday => "isweekday"@,
        Operator::IsWeekend => "isweekend"@,
        Operator::ContainsAny => "containsany"@,
        Operator::ContainsAll => "containsall"@,
        Operator::LengthEq => "lengtheq"@,
        Operator::LengthGt => "lengthgt"@,
        Operator::LengthLt => "lengthlt"@,
        Operator::IsType => "istype"@,
        Operator::FieldGtField => "fieldgtfield"@,
        Operator::FieldEqField => "fieldeqfield"@,
    }
}

pub fn operator_name_string(op: Operator) -> (r: String)
    ensures
        r@ == operator_name(op),
{
    let s = match op {
        Operator::Eq => "eq",
        Operator::Neq => "neq",
        Operator::Gt => "gt",
        Operator::Gte => "gte",
        Operator::Lt => "lt",
        Operator::Lte => "lte",
        Operator::Contains => "contains",
        Operator::StartsWith => "startswith",
        Operator::EndsWith => "endswith",
        Operator::Matches => "matches",
        Operator::In => "in",
        Operator::NotIn => "notin",
        Operator::Between => "between",
        Operator::Outside => "outside",
        Operator::DivisibleBy => "divisibleby",
        Operator::IsNull => "isnull",
        Operator::IsNotNull => "isnotnull",
        Operator::IsEmpty => "isempty",
        Operator::IsNotEmpty => "isnotempty",
        Operator::Before => "before",
        Operator::After => "after",
        Operator::WithinDays => "withindays",
        Operator::IsWeekday => "isweekday",
        Operator::IsWeekend => "isweekend",
        Operator::ContainsAny => "containsany",
        Operator::ContainsAll => "containsall",
        Operator::LengthEq => "lengtheq",
        Operator::LengthGt => "lengthgt",
        Operator::LengthLt => "lengthlt",
        Operator::IsType => "istype",
        Operator::FieldGtField => "fieldgtfield",
        Operator::FieldEqField => "fieldeqfield",
    };
    owned(s)
}

/// View of an optional value.
pub open spec fn opt_value_view(v: Option<Value>) -> Option<JValue> {
    match v {
        Some(x) => Some(x@),
        None => None,
    }
}

/// A leaf condition's outcome and trace in a context at instant `now`.
pub open spec fn leaf_spec(l: LeafCondition, ctx: JValue, now: (i64, u32)) -> (bool, ConditionTraceView) {
    let fv = resolve(ctx, l.field@);
    let f2 = match l.field2 {
        Some(p) => Some(resolve(ctx, p@)),
        None => None,
    };
    let cv = opt_value_view(l.value);
    let m = apply_spec(l.operator, fv, cv, f2, now);
    (
        m,
        ConditionTraceView {
            field: l.field@,
            operator: operator_name(l.operator),
            value: or_null(cv),
            actual_value: fv,
            passed: m,
            duration_us: 0,
        },
    )
}

/// Logical operator of a group over a list of children.
#[derive(Clone, Copy)]
pub enum GroupKind {
    All,
    Any,
    NoneOf,
}

/// Outcome of a condition group or node: whether it holds, how many of its
/// children held out of how many, the leaf traces in evaluation order, and
/// whether evaluation stopped early anywhere inside.
pub struct CondOutcome {
    pub matched: bool,
    pub passed: nat,
    pub total: nat,
    pub conds: Seq<ConditionTraceView>,
    pub short: bool,
}

/// Accumulated state of a walk over a group's children.
pub struct NodesAcc {
    pub passed: nat,
    pub conds: Seq<ConditionTraceView>,
    pub short: bool,
    pub stopped: bool,
}

/// Walks children in order. Unless `dry` (trace everything) or `full`
/// (score every child), an `all` group stops at its first false child and
/// `any` / `none` groups at their first true child.
pub open spec fn nodes_fold(
    nodes: Seq<ConditionNode>,
    kind: GroupKind,
    ctx: JValue,
    dry: bool,
    now: (i64, u32),
    full: bool,
) -> NodesAcc
    decreases nodes,
{
    if nodes.len() == 0 {
        NodesAcc { passed: 0, conds: Seq::empty(), short: false, stopped: false }
    } else {
        let acc = nodes_fold(nodes.drop_last(), kind, ctx, dry, now, full);
        if acc.stopped {
            acc
        } else {
            let o = node_outcome(nodes.last(), ctx, dry, now);
            let m = o.matched;
            let stop = !dry && !full && ((kind is All && !m) || (!(kind is All) && m));
            NodesAcc {
                passed: acc.passed + (if m {
                    1nat
                } else {
                    0nat
                }),
                conds: acc.conds + o.conds,
                short: acc.short || o.short || stop,
                stopped: stop,
            }
        }
    }
}

/// Outcome of a condition node.
pub open spec fn node_outcome(n: ConditionNode, ctx: JValue, dry: bool, now: (i64, u32)) -> CondOutcome
    decreases n,
{
    match n {
        ConditionNode::Group(g) => group_outcome(g, ctx, dry, now, false),
        ConditionNode::Leaf(l) => {
            let (m, ct) = leaf_spec(l, ctx, now);
            CondOutcome {
                matched: m,
                passed: if m {
                    1
                } else {
                    0
                },
                total: 1,
                conds: seq![ct],
                short: false,
            }
        },
    }
}

/// Outcome of a list group from its walk.
pub open spec fn list_outcome(kind: GroupKind, acc: NodesAcc, total: nat) -> CondOutcome {
    CondOutcome {
        matched: match kind {
            GroupKind::All => acc.passed == total,
            GroupKind::Any => acc.passed > 0,
            GroupKind::NoneOf => acc.passed == 0,
        },
        passed: acc.passed,
        total: total,
        conds: acc.conds,
        short: acc.short,
    }
}

/// Outcome of a condition group; `full` disables early stopping in this
/// group's own walk (not in nested groups).
pub open spec fn group_outcome(
    g: ConditionGroup,
    ctx: JValue,
    dry: bool,
    now: (i64, u32),
    full: bool,
) -> CondOutcome
    decreases g,
{
    match g {
        ConditionGroup::All(a) => list_outcome(
            GroupKind::All,
            nodes_fold(a.all@, GroupKind::All, ctx, dry, now, full),
            a.all@.len(),
        ),
        ConditionGroup::Any(a) => list_outcome(
            GroupKind::Any,
            nodes_fold(a.any@, GroupKind::Any, ctx, dry, now, full),
            a.any@.len(),
        ),
        ConditionGroup::NoneOf(a) => list_outcome(
            GroupKind::NoneOf,
            nodes_fold(a.none@, GroupKind::NoneOf, ctx, dry, now, full),
            a.none@.len(),
        ),
        ConditionGroup::Not(n) => {
            let o = node_outcome(*n.not, ctx, dry, now);
            CondOutcome {
                matched: !o.matched,
                passed: if o.matched {
                    0
                } else {
                    1
                },
                total: 1,
                conds: o.conds,
                short: o.short,
            }
        },
    }
}

proof fn lemma_fold_stopped(
    nodes: Seq<ConditionNode>,
    kind: GroupKind,
    ctx: JValue,
    dry: bool,
    now: (i64, u32),
    full: bool,
    k: int,
)
    requires
        0 <= k <= nodes.len(),
        nodes_fold(nodes.take(k), kind, ctx, dry, now, full).stopped,
    ensures
        nodes_fold(nodes, kind, ctx, dry, now, full) == nodes_fold(
            nodes.take(k),
            kind,
            ctx,
            dry,
            now,
            full,
        ),
    decreases nodes.len() - k,
{
    if k < nodes.len() {
        assert(nodes.take(k + 1).drop_last() =~= nodes.take(k));
        lemma_fold_stopped(nodes, kind, ctx, dry, now, full, k + 1);
    } else {
        assert(nodes.take(k) =~= nodes);
    }
}

fn copy_opt_value(v: &Option<Value>) -> (r: Value)
    ensures
        r@ == or_null(opt_value_view(*v)),
{
    match v {
        Some(x) => copy_value(x),
        None => Value::Null,
    }
}

/// Evaluates a leaf condition.
fn eval_leaf(leaf: &LeafCondition, context: &Value, now: (i64, u32)) -> (r: (bool, ConditionTrace))
    ensures
        (r.0, r.1@) == leaf_spec(*leaf, context@, now),
        r.1.duration_us == 0,
{
    let field_val = resolve_owned(context, leaf.field.as_str());
    let field2_val = match &leaf.field2 {
        Some(p) => Some(resolve_owned(context, p.as_str())),
        None => None,
    };
    let cmp = match &leaf.value {
        Some(v) => Some(v),
        None => None,
    };
    let f2 = match &field2_val {
        Some(v) => Some(v),
        None => None,
    };
    let matched = apply_at(&leaf.operator, &field_val, cmp, f2, now);
    let ct = ConditionTrace {
        field: leaf.field.clone(),
        operator: operator_name_string(leaf.operator),
        value: copy_opt_value(&leaf.value),
        actual_value: field_val,
        passed: matched,
        duration_us: 0,
    };
    (matched, ct)
}

/// Evaluates a condition node, appending its leaf traces to `builder`.
fn eval_node(
    node: &ConditionNode,
    context: &Value,
    dry_run: bool,
    now: (i64, u32),
    builder: &mut RuleTraceBuilder,
) -> (r: bool)
    ensures
        r == node_outcome(*node, context@, dry_run, now).matched,
        condition_views(final(builder).conditions@) == condition_views(old(builder).conditions@)
            + node_outcome(*node, context@, dry_run, now).conds,
        final(builder).short_circuited == (old(builder).short_circuited || node_outcome(
            *node,
            context@,
            dry_run,
            now,
        ).short),
        final(builder).rule_id == old(builder).rule_id,
        final(builder).start_us == old(builder).start_us,
        final(builder).actions_executed == old(builder).actions_executed,
    decreases node,
{
    match node {
        ConditionNode::Group(g) => {
            let (m, _, _) = eval_group(g, context, dry_run, now, false, builder);
            m
        },
        ConditionNode::Leaf(l) => {
            let (m, ct) = eval_leaf(l, context, now);
            let ghost before = condition_views(builder.conditions@);
            builder.conditions.push(ct);
            assert(condition_views(builder.conditions@) =~= before + seq![ct@]);
            m
        },
    }
}

/// Evaluates a condition group, appending its leaf traces to `builder`;
/// returns whether it holds and how many of how many children held.
pub fn eval_group(
    group: &ConditionGroup,
    context: &Value,
    dry_run: bool,
    now: (i64, u32),
    full: bool,
    builder: &mut RuleTraceBuilder,
) -> (r: (bool, usize, usize))
    ensures
        r.0 == group_outcome(*group, context@, dry_run, now, full).matched,
        r.1 == group_outcome(*group, context@, dry_run, now, full).passed,
        r.2 == group_outcome(*group, context@, dry_run, now, full).total,
        condition_views(final(builder).conditions@) == condition_views(old(builder).conditions@)
            + group_outcome(*group, context@, dry_run, now, full).conds,
        final(builder).short_circuited == (old(builder).short_circuited || group_outcome(
            *group,
            context@,
            dry_run,
            now,
            full,
        ).short),
        final(builder).rule_id == old(builder).rule_id,
        final(builder).start_us == old(builder).start_us,
        final(builder).actions_executed == old(builder).actions_executed,
    decreases group,
{
    match group {
        ConditionGroup::Not(n) => {
            let m = eval_node(&n.not, context, dry_run, now, builder);
            if m {
                (false, 0, 1)
            } else {
                (true, 1, 1)
            }
        },
        ConditionGroup::All(a) => {
            let p = eval_nodes(&a.all, GroupKind::All, context, dry_run, now, full, builder);
            (p == a.all.len(), p, a.all.len())
        },
        ConditionGroup::Any(a) => {
            let p = eval_nodes(&a.any, GroupKind::Any, context, dry_run, now, full, builder);
            (p > 0, p, a.any.len())
        },
        ConditionGroup::NoneOf(a) => {
            let p = eval_nodes(&a.none, GroupKind::NoneOf, context, dry_run, now, full, builder);
            (p == 0, p, a.none.len())
        },
    }
}

fn mark_short_circuited(b: &mut RuleTraceBuilder)
    ensures
        final(b).short_circuited,
        final(b).rule_id == old(b).rule_id,
        final(b).start_us == old(b).start_us,
        final(b).conditions == old(b).conditions,
        final(b).actions_executed == old(b).actions_executed,
{
    b.short_circuited = true;
}

/// Evaluates the children of a list group in order, stopping early as
/// `nodes_fold` describes; returns how many held.
fn eval_nodes(
    nodes: &Vec<ConditionNode>,
    kind: GroupKind,
    context: &Value,
    dry_run: bool,
    now: (i64, u32),
    full: bool,
    builder: &mut RuleTraceBuilder,
) -> (r: usize)
    ensures
        r == nodes_fold(nodes@, kind, context@, dry_run, now, full).passed,
        condition_views(final(builder).conditions@) == condition_views(old(builder).conditions@)
            + nodes_fold(nodes@, kind, context@, dry_run, now, full).conds,
        final(builder).short_circuited == (old(builder).short_circuited || nodes_fold(
            nodes@,
            kind,
            context@,
            dry_run,
            now,
            full,
        ).short),
        final(builder).rule_id == old(builder).rule_id,
        final(builder).start_us == old(builder).start_us,
        final(builder).actions_executed == old(builder).actions_executed,
    decreases nodes,
{
    let ghost c0 = condition_views(builder.conditions@);
    let ghost s0 = builder.short_circuited;
    let ghost rid = builder.rule_id;
    let ghost st = builder.start_us;
    let ghost acts = builder.actions_executed;
    let mut passed: usize = 0;
    let mut i: usize = 0;
    assert(nodes@.take(0) =~= Seq::<ConditionNode>::empty());
    assert(c0 + Seq::<ConditionTraceView>::empty() =~= c0);
    while i < nodes.len()
        invariant
            i <= nodes@.len(),
            passed <= i,
            passed == nodes_fold(nodes@.take(i as int), kind, context@, dry_run, now, full).passed,
            !nodes_fold(nodes@.take(i as int), kind, context@, dry_run, now, full).stopped,
            condition_views(builder.conditions@) == c0 + nodes_fold(
                nodes@.take(i as int),
                kind,
                context@,
                dry_run,
                now,
                full,
            ).conds,
            builder.short_circuited == (s0 || nodes_fold(
                nodes@.take(i as int),
                kind,
                context@,
                dry_run,
                now,
                full,
            ).short),
            builder.rule_id == rid,
            builder.start_us == st,
            builder.actions_executed == acts,
            rid == old(builder).rule_id,
            st == old(builder).start_us,
            acts == old(builder).actions_executed,
            c0 == condition_views(old(builder).conditions@),
            s0 == old(builder).short_circuited,
        decreases nodes@.len() - i,
    {
        proof {
            assert(decreases_to!(nodes => nodes@[i as int]));
            assert(nodes@.take(i + 1).drop_last() =~= nodes@.take(i as int));
            assert(nodes@.take(i + 1).last() == nodes@[i as int]);
        }
        let ghost cb = condition_views(builder.conditions@);
        let m = eval_node(&nodes[i], context, dry_run, now, builder);
        proof {
            let acc = nodes_fold(nodes@.take(i as int), kind, context@, dry_run, now, full);
            let o = node_outcome(nodes@[i as int], context@, dry_run, now);
            assert(c0 + (acc.conds + o.conds) =~= cb + o.conds);
        }
        if m {
            passed = passed + 1;
        }
        let stop = !dry_run && !full && match kind {
            GroupKind::All => !m,
            _ => m,
        };
        if stop {
            mark_short_circuited(builder);
            proof {
                lemma_fold_stopped(nodes@, kind, context@, dry_run, now, full, i + 1);
            }
            return passed;
        }
        i = i + 1;
    }
    assert(nodes@.take(i as int) =~= nodes@);
    passed
}

// ---------------------------------------------------------------------------
// Actions
// ---------------------------------------------------------------------------

/// What the actions of one rule have produced so far.
pub struct ActionState {
    pub output: Value,
    pub tags: Vec<String>,
    pub triggered: Vec<String>,
    pub log: Vec<String>,
}

/// View of an action state.
pub struct ActionStateView {
    pub output: JValue,
    pub tags: Seq<Seq<char>>,
    pub triggered: Seq<Seq<char>>,
    pub log: Seq<Seq<char>>,
}

impl View for ActionState {
    type V = ActionStateView;

    open spec fn view(&self) -> ActionStateView {
        ActionStateView {
            output: self.output@,
            tags: string_views(self.tags@),
            triggered: string_views(self.triggered@),
            log: string_views(self.log@),
        }
    }
}

/// How an action list ended: it ran to its end, or a `return` action
/// stopped it (with the returned value, if any).
pub enum Flow {
    Continue,
    Return(Option<Value>),
}

pub enum FlowView {
    Continue,
    Return(Option<JValue>),
}

impl View for Flow {
    type V = FlowView;

    open spec fn view(&self) -> FlowView {
        match self {
            Flow::Continue => FlowView::Continue,
            Flow::Return(v) => FlowView::Return(opt_value_view(*v)),
        }
    }
}

/// The value of an action value: a literal as it is; a template text is
/// evaluated when it is a `{{ ... }}` template and is a plain string
/// otherwise.
pub open spec fn action_value_spec(av: ActionValue, ctx: JValue) -> Result<JValue, EvalErrorView> {
    match av {
        ActionValue::Literal(v) => Ok(v@),
        ActionValue::Template(s) => if extract_spec(s@) is Some {
            template_spec(s@, ctx)
        } else {
            Ok(JValue::Str(s@))
        },
    }
}

/// Index of the first rule of the library with id `id`.
pub open spec fn lookup_spec(lib: Seq<&Rule>, id: Seq<char>) -> Option<int>
    decreases lib.len(),
{
    if lib.len() == 0 {
        None
    } else {
        match lookup_spec(lib.drop_last(), id) {
            Some(k) => Some(k),
            None => if lib.last().id@ == id {
                Some(lib.len() - 1)
            } else {
                None
            },
        }
    }
}

/// The value an `increment` starts from: the output's value at the path,
/// or the context's when the output has none.
pub open spec fn increment_base(out: JValue, ctx: JValue, path: Seq<char>) -> JValue {
    let o = resolve(out, path);
    if o is Null {
        resolve(ctx, path)
    } else {
        o
    }
}

/// Text of a number as a plain decimal (the `Display` of an `f64`).
pub open spec fn plain_number_text(n: Number) -> Seq<char> {
    number_text(Number { num: n.num, den: n.den, float: false })
}

pub open spec fn level_name(l: LogLevel) -> Seq<char> {
    match l {
        LogLevel::Debug => "Debug"@,
        LogLevel::Info => "Info"@,
        LogLevel::Warn => "Warn"@,
    }
}

/// A callee's trace lines as they appear in the caller's trace.
pub open spec fn prefixed(id: Seq<char>, log: Seq<Seq<char>>) -> Seq<Seq<char>> {
    log.map_values(|s: Seq<char>| "  ["@ + id + "] "@ + s)
}

pub open spec fn with_log(st: ActionStateView, line: Seq<char>) -> ActionStateView {
    ActionStateView { output: st.output, tags: st.tags, triggered: st.triggered, log: st.log.push(line) }
}

pub open spec fn with_output(st: ActionStateView, out: JValue, line: Seq<char>) -> ActionStateView {
    ActionStateView { output: out, tags: st.tags, triggered: st.triggered, log: st.log.push(line) }
}

pub type ActionsOutcome = Result<(ActionStateView, FlowView), EvalErrorView>;

/// Runs `actions[i..]` from state `st` at call depth `depth` (at most
/// `max`); `call_rule` looks callees up in `lib`. In a dry run, `trigger`
/// records nothing and `call_rule` does not dispatch.
pub open spec fn run_actions(
    actions: Seq<Action>,
    i: int,
    st: ActionStateView,
    ctx: JValue,
    depth: int,
    max: int,
    dry: bool,
    lib: Seq<&Rule>,
) -> ActionsOutcome
    decreases max - depth, actions.len() - i,
{
    if i < 0 || i >= actions.len() {
        Ok((st, FlowView::Continue))
    } else {
        match actions[i] {
            Action::SetField { field, value } => match action_value_spec(value, ctx) {
                Err(e) => Err(e),
                Ok(v) => run_actions(
                    actions,
                    i + 1,
                    with_output(
                        st,
                        set_at(st.output, path_parts(field@), v),
                        "set "@ + field@ + " = "@ + json_text(v),
                    ),
                    ctx,
                    depth,
                    max,
                    dry,
                    lib,
                ),
            },
            Action::Increment { field, value } => {
                let delta = match opt_value_view(value) {
                    Some(JValue::Number(n)) => n,
                    _ => Number { num: 1, den: 1, float: true },
                };
                let cur = match increment_base(st.output, ctx, field@) {
                    JValue::Number(n) => n,
                    _ => Number { num: 0, den: 1, float: true },
                };
                match spec_add(cur, delta) {
                    None => Err(EvalErrorView::Overflow),
                    Some(sum) => run_actions(
                        actions,
                        i + 1,
                        with_output(
                            st,
                            set_at(st.output, path_parts(field@), JValue::Number(sum)),
                            "increment "@ + field@ + " by "@ + plain_number_text(delta),
                        ),
                        ctx,
                        depth,
                        max,
                        dry,
                        lib,
                    ),
                }
            },
            Action::Append { field, value } => match action_value_spec(value, ctx) {
                Err(e) => Err(e),
                Ok(v) => {
                    let nv = match get_at(st.output, path_parts(field@)) {
                        Some(JValue::Array(a)) => JValue::Array(a.push(v)),
                        _ => JValue::Array(seq![v]),
                    };
                    run_actions(
                        actions,
                        i + 1,
                        with_output(
                            st,
                            set_at(st.output, path_parts(field@), nv),
                            "append "@ + field@,
                        ),
                        ctx,
                        depth,
                        max,
                        dry,
                        lib,
                    )
                },
            },
            Action::Tag { value } => run_actions(
                actions,
                i + 1,
                ActionStateView {
                    output: st.output,
                    tags: st.tags.push(value@),
                    triggered: st.triggered,
                    log: st.log.push("tag "@ + value@),
                },
                ctx,
                depth,
                max,
                dry,
                lib,
            ),
            Action::Log { level, message } => run_actions(
                actions,
                i + 1,
                with_log(st, "log["@ + level_name(level) + "] "@ + message@),
                ctx,
                depth,
                max,
                dry,
                lib,
            ),
            Action::Trigger { event } => run_actions(
                actions,
                i + 1,
                ActionStateView {
                    output: st.output,
                    tags: st.tags,
                    triggered: if dry {
                        st.triggered
                    } else {
                        st.triggered.push(event@)
                    },
                    log: st.log.push("trigger "@ + event@),
                },
                ctx,
                depth,
                max,
                dry,
                lib,
            ),
            Action::CallRule { rule_id } => if depth >= max {
                Err(EvalErrorView::CallDepthExceeded(max as nat))
            } else {
                let st1 = with_log(st, "call_rule "@ + rule_id@);
                if dry {
                    run_actions(actions, i + 1, st1, ctx, depth, max, dry, lib)
                } else {
                    match lookup_spec(lib, rule_id@) {
                        None => run_actions(actions, i + 1, st1, ctx, depth, max, dry, lib),
                        Some(k) => if 0 <= k < lib.len() {
                            match run_actions(
                                lib[k].actions@,
                                0,
                                ActionStateView {
                                    output: st1.output,
                                    tags: st1.tags,
                                    triggered: st1.triggered,
                                    log: Seq::empty(),
                                },
                                ctx,
                                depth + 1,
                                max,
                                dry,
                                lib,
                            ) {
                                Err(e) => Err(e),
                                Ok((cst, flow)) => {
                                    let st2 = ActionStateView {
                                        output: cst.output,
                                        tags: cst.tags,
                                        triggered: cst.triggered,
                                        log: st1.log + prefixed(rule_id@, cst.log),
                                    };
                                    match flow {
                                        FlowView::Return(v) => Ok((st2, FlowView::Return(v))),
                                        FlowView::Continue => run_actions(
                                            actions,
                                            i + 1,
                                            st2,
                                            ctx,
                                            depth,
                                            max,
                                            dry,
                                            lib,
                                        ),
                                    }
                                },
                            }
                        } else {
                            Ok((st1, FlowView::Continue))
                        },
                    }
                }
            },
            Action::Return { value } => match value {
                None => Ok((with_log(st, "return"@), FlowView::Return(None))),
                Some(av) => match action_value_spec(av, ctx) {
                    Err(e) => Err(e),
                    Ok(v) => Ok((with_log(st, "return"@), FlowView::Return(Some(v)))),
                },
            },
        }
    }
}

fn resolve_action_value(av: &ActionValue, context: &Value) -> (r: Result<Value, EvaluationError>)
    ensures
        match r {
            Ok(v) => action_value_spec(*av, context@) == Ok::<JValue, EvalErrorView>(v@),
            Err(e) => action_value_spec(*av, context@) == Err::<JValue, EvalErrorView>(e@),
        },
{
    match av {
        ActionValue::Literal(v) => Ok(copy_value(v)),
        ActionValue::Template(s) => {
            if extract_template(s.as_str()).is_some() {
                eval_template(s.as_str(), context)
            } else {
                Ok(Value::String(s.clone()))
            }
        },
    }
}

/// Position of the first rule of the library with the given id.
pub fn lookup_rule(lib: &Vec<&Rule>, id: &str) -> (r: Option<usize>)
    ensures
        match r {
            Some(k) => lookup_spec(lib@, id@) == Some(k as int) && k < lib@.len(),
            None => lookup_spec(lib@, id@) is None,
        },
{
    let mut k: usize = 0;
    while k < lib.len()
        invariant
            k <= lib@.len(),
            lookup_spec(lib@.take(k as int), id@) is None,
        decreases lib@.len() - k,
    {
        assert(lib@.take(k + 1).drop_last() =~= lib@.take(k as int));
        if crate::text::str_eq(lib[k].id.as_str(), id) {
            proof {
                lemma_lookup_prefix(lib@, id@, k + 1);
            }
            return Some(k);
        }
        k = k + 1;
    }
    assert(lib@.take(k as int) =~= lib@);
    None
}

proof fn lemma_lookup_prefix(lib: Seq<&Rule>, id: Seq<char>, k: int)
    requires
        0 <= k <= lib.len(),
        lookup_spec(lib.take(k), id) is Some,
    ensures
        lookup_spec(lib, id) == lookup_spec(lib.take(k), id),
    decreases lib.len() - k,
{
    if k < lib.len() {
        assert(lib.take(k + 1).drop_last() =~= lib.take(k));
        lemma_lookup_prefix(lib, id, k + 1);
    } else {
        assert(lib.take(k) =~= lib);
    }
}

fn push_line(log: &mut Vec<String>, line: String)
    ensures
        string_views(final(log)@) == string_views(old(log)@).push(line@),
{
    log.push(line);
    assert(string_views(log@) =~= string_views(old(log)@).push(line@));
}

fn line2(a: &str, b: &str) -> (r: String)
    ensures
        r@ == a@ + b@,
{
    let mut s = owned(a);
    push_str(&mut s, b);
    s
}

fn number_plain(n: Number) -> (r: String)
    ensures
        r@ == plain_number_text(n),
{
    let mut s = String::new();
    push_number(&mut s, &Number { num: n.num, den: n.den, float: false });
    s
}

fn level_string(l: LogLevel) -> (r: String)
    ensures
        r@ == level_name(l),
{
    match l {
        LogLevel::Debug => owned("Debug"),
        LogLevel::Info => owned("Info"),
        LogLevel::Warn => owned("Warn"),
    }
}

fn set_action(field: &String, value: &ActionValue, context: &Value, st: &mut ActionState) -> (r:
    Result<(), EvaluationError>)
    ensures
        match action_value_spec(*value, context@) {
            Ok(v) => r is Ok && final(st)@ == with_output(
                old(st)@,
                set_at(old(st)@.output, path_parts(field@), v),
                "set "@ + field@ + " = "@ + json_text(v),
            ),
            Err(e) => r matches Err(x) && x@ == e && final(st)@ == old(st)@,
        },
{
    let v = match resolve_action_value(value, context) {
        Ok(v) => v,
        Err(e) => {
            return Err(e);
        },
    };
    let mut line = owned("set ");
    push_str(&mut line, field.as_str());
    push_str(&mut line, " = ");
    push_json(&mut line, &v);
    set_path(&mut st.output, field.as_str(), v);
    push_line(&mut st.log, line);
    Ok(())
}

fn increment_action(field: &String, value: &Option<Value>, context: &Value, st: &mut ActionState) -> (r:
    Result<(), EvaluationError>)
    ensures
        ({
            let delta = match opt_value_view(*value) {
                Some(JValue::Number(n)) => n,
                _ => Number { num: 1, den: 1, float: true },
            };
            let cur = match increment_base(old(st)@.output, context@, field@) {
                JValue::Number(n) => n,
                _ => Number { num: 0, den: 1, float: true },
            };
            match spec_add(cur, delta) {
                None => r matches Err(x) && x@ == EvalErrorView::Overflow && final(st)@ == old(st)@,
                Some(sum) => r is Ok && final(st)@ == with_output(
                    old(st)@,
                    set_at(old(st)@.output, path_parts(field@), JValue::Number(sum)),
                    "increment "@ + field@ + " by "@ + plain_number_text(delta),
                ),
            }
        }),
{
    let delta = match value {
        Some(Value::Number(n)) => *n,
        _ => Number { num: 1, den: 1, float: true },
    };
    let from_out = resolve_path(&st.output, field.as_str());
    let base = match from_out {
        Value::Null => resolve_path(context, field.as_str()),
        _ => from_out,
    };
    let cur = match base {
        Value::Number(n) => *n,
        _ => Number { num: 0, den: 1, float: true },
    };
    let sum = match num_add(&cur, &delta) {
        Some(x) => x,
        None => {
            return Err(EvaluationError::Overflow);
        },
    };
    let mut line = owned("increment ");
    push_str(&mut line, field.as_str());
    push_str(&mut line, " by ");
    let dt = number_plain(delta);
    push_str(&mut line, dt.as_str());
    set_path(&mut st.output, field.as_str(), Value::Number(sum));
    push_line(&mut st.log, line);
    Ok(())
}

fn single_array(v: Value) -> (r: Value)
    ensures
        r@ == JValue::Array(seq![v@]),
{
    let mut arr: Vec<Value> = Vec::new();
    arr.push(v);
    proof {
        lemma_view_seq(arr@);
        assert(view_seq(arr@)[0] == v@);
        assert(view_seq(arr@) =~= seq![v@]);
    }
    Value::Array(arr)
}

fn appended(a: &Vec<Value>, v: Value) -> (r: Value)
    ensures
        r@ == JValue::Array(view_seq(a@).push(v@)),
{
    let mut arr: Vec<Value> = Vec::new();
    let mut j: usize = 0;
    while j < a.len()
        invariant
            j <= a@.len(),
            arr@.len() == j,
            forall|k: int| 0 <= k < j ==> #[trigger] arr@[k].view_rec() == a@[k].view_rec(),
        decreases a@.len() - j,
    {
        arr.push(copy_value(&a[j]));
        j = j + 1;
    }
    proof {
        crate::json::lemma_view_seq_ext(arr@, a@);
    }
    let ghost before = arr@;
    arr.push(v);
    proof {
        assert(arr@.drop_last() =~= before);
    }
    Value::Array(arr)
}

fn append_action(field: &String, value: &ActionValue, context: &Value, st: &mut ActionState) -> (r:
    Result<(), EvaluationError>)
    ensures
        match action_value_spec(*value, context@) {
            Ok(v) => r is Ok && final(st)@ == with_output(
                old(st)@,
                set_at(
                    old(st)@.output,
                    path_parts(field@),
                    match get_at(old(st)@.output, path_parts(field@)) {
                        Some(JValue::Array(a)) => JValue::Array(a.push(v)),
                        _ => JValue::Array(seq![v]),
                    },
                ),
                "append "@ + field@,
            ),
            Err(e) => r matches Err(x) && x@ == e && final(st)@ == old(st)@,
        },
{
    let v = match resolve_action_value(value, context) {
        Ok(v) => v,
        Err(e) => {
            return Err(e);
        },
    };
    let nv = match get_path(&st.output, field.as_str()) {
        Some(existing) => match existing {
            Value::Array(a) => appended(a, v),
            _ => single_array(v),
        },
        None => single_array(v),
    };
    let line = line2("append ", field.as_str());
    set_path(&mut st.output, field.as_str(), nv);
    push_line(&mut st.log, line);
    Ok(())
}

fn append_prefixed(log: &mut Vec<String>, id: &String, sub: &Vec<String>)
    ensures
        string_views(final(log)@) == string_views(old(log)@) + prefixed(id@, string_views(sub@)),
{
    let mut j: usize = 0;
    let ghost base = string_views(log@);
    let ghost pv = prefixed(id@, string_views(sub@));
    while j < sub.len()
        invariant
            j <= sub@.len(),
            pv == prefixed(id@, string_views(sub@)),
            pv.len() == sub@.len(),
            string_views(log@) == base + pv.take(j as int),
        decreases sub@.len() - j,
    {
        let mut line = owned("  [");
        push_str(&mut line, id.as_str());
        push_str(&mut line, "] ");
        push_str(&mut line, sub[j].as_str());
        assert(pv[j as int] == "  ["@ + id@ + "] "@ + sub@[j as int]@);
        assert(line@ =~= pv[j as int]);
        push_line(log, line);
        assert(base + pv.take(j + 1) =~= (base + pv.take(j as int)).push(pv[j as int]));
        j = j + 1;
    }
    assert(pv.take(j as int) =~= pv);
}

/// Runs action `i` of a list: `Ok(None)` to go on with action `i + 1`,
/// `Ok(Some(flow))` when the list stops here.
/// Room left for nested calls: how many more levels a `call_rule` chain
/// may descend (zero once the depth reaches the limit).
pub open spec fn depth_room(call_depth: usize, max_depth: usize) -> int {
    if call_depth <= max_depth {
        max_depth - call_depth
    } else {
        0
    }
}

/// An action that fails before it changes anything: a `call_rule` at or
/// beyond the depth limit, or a `set`, `append` or `return` whose value
/// cannot be computed.
pub open spec fn refuses_at_once(a: Action, ctx: JValue, depth: int, max: int) -> bool {
    match a {
        Action::SetField { value, .. } => action_value_spec(value, ctx) is Err,
        Action::Append { value, .. } => action_value_spec(value, ctx) is Err,
        Action::CallRule { .. } => depth >= max,
        Action::Return { value: Some(av) } => action_value_spec(av, ctx) is Err,
        _ => false,
    }
}

fn execute_one(
    actions: &Vec<Action>,
    i: usize,
    context: &Value,
    st: &mut ActionState,
    call_depth: usize,
    max_depth: usize,
    dry_run: bool,
    lib: &Vec<&Rule>,
) -> (r: Result<Option<Flow>, EvaluationError>)
    requires
        i < actions@.len(),
    ensures
        refuses_at_once(actions@[i as int], context@, call_depth as int, max_depth as int) ==> r is Err
            && final(st)@ == old(st)@,
        dry_run ==> final(st)@.triggered == old(st)@.triggered,
        match r {
            Ok(None) => run_actions(
                actions@,
                i as int,
                old(st)@,
                context@,
                call_depth as int,
                max_depth as int,
                dry_run,
                lib@,
            ) == run_actions(
                actions@,
                i + 1,
                final(st)@,
                context@,
                call_depth as int,
                max_depth as int,
                dry_run,
                lib@,
            ),
            Ok(Some(f)) => run_actions(
                actions@,
                i as int,
                old(st)@,
                context@,
                call_depth as int,
                max_depth as int,
                dry_run,
                lib@,
            ) == Ok::<(ActionStateView, FlowView), EvalErrorView>((final(st)@, f@)),
            Err(e) => run_actions(
                actions@,
                i as int,
                old(st)@,
                context@,
                call_depth as int,
                max_depth as int,
                dry_run,
                lib@,
            ) == Err::<(ActionStateView, FlowView), EvalErrorView>(e@),
        },
    decreases depth_room(call_depth, max_depth), 0int,
{
    match &actions[i] {
        Action::SetField { field, value } => match set_action(field, value, context, st) {
            Ok(()) => Ok(None),
            Err(e) => Err(e),
        },
        Action::Increment { field, value } => match increment_action(field, value, context, st) {
            Ok(()) => Ok(None),
            Err(e) => Err(e),
        },
        Action::Append { field, value } => match append_action(field, value, context, st) {
            Ok(()) => Ok(None),
            Err(e) => Err(e),
        },
        Action::Tag { value } => {
            let ghost tv = string_views(st.tags@);
            st.tags.push(value.clone());
            assert(string_views(st.tags@) =~= tv.push(value@));
            push_line(&mut st.log, line2("tag ", value.as_str()));
            Ok(None)
        },
        Action::Log { level, message } => {
            let mut line = owned("log[");
            let ln = level_string(*level);
            push_str(&mut line, ln.as_str());
            push_str(&mut line, "] ");
            push_str(&mut line, message.as_str());
            push_line(&mut st.log, line);
            Ok(None)
        },
        Action::Trigger { event } => {
            push_line(&mut st.log, line2("trigger ", event.as_str()));
            if !dry_run {
                let ghost tv = string_views(st.triggered@);
                st.triggered.push(event.clone());
                assert(string_views(st.triggered@) =~= tv.push(event@));
            }
            Ok(None)
        },
        Action::CallRule { rule_id } => {
            if call_depth >= max_depth {
                return Err(EvaluationError::CallDepthExceeded { limit: max_depth });
            }
            push_line(&mut st.log, line2("call_rule ", rule_id.as_str()));
            if dry_run {
                return Ok(None);
            }
            match lookup_rule(lib, rule_id.as_str()) {
                Some(k) => {
                    let callee: &Rule = lib[k];
                    let mut sub = ActionState {
                        output: Value::Null,
                        tags: Vec::new(),
                        triggered: Vec::new(),
                        log: Vec::new(),
                    };
                    std::mem::swap(&mut sub.output, &mut st.output);
                    std::mem::swap(&mut sub.tags, &mut st.tags);
                    std::mem::swap(&mut sub.triggered, &mut st.triggered);
                    assert(string_views(sub.log@) =~= Seq::<Seq<char>>::empty());
                    let flow = match execute_actions(
                        &callee.actions,
                        context,
                        &mut sub,
                        call_depth + 1,
                        max_depth,
                        dry_run,
                        lib,
                    ) {
                        Ok(f) => f,
                        Err(e) => {
                            return Err(e);
                        },
                    };
                    std::mem::swap(&mut sub.output, &mut st.output);
                    std::mem::swap(&mut sub.tags, &mut st.tags);
                    std::mem::swap(&mut sub.triggered, &mut st.triggered);
                    append_prefixed(&mut st.log, rule_id, &sub.log);
                    match flow {
                        Flow::Return(v) => Ok(Some(Flow::Return(v))),
                        Flow::Continue => Ok(None),
                    }
                },
                None => Ok(None),
            }
        },
        Action::Return { value } => {
            let ret = match value {
                Some(av) => match resolve_action_value(av, context) {
                    Ok(v) => Some(v),
                    Err(e) => {
                        return Err(e);
                    },
                },
                None => None,
            };
            push_line(&mut st.log, owned("return"));
            Ok(Some(Flow::Return(ret)))
        },
    }
}

/// Runs an action list (see `run_actions`).
#[verifier::rlimit(60)]
pub fn execute_actions(
    actions: &Vec<Action>,
    context: &Value,
    st: &mut ActionState,
    call_depth: usize,
    max_depth: usize,
    dry_run: bool,
    lib: &Vec<&Rule>,
) -> (r: Result<Flow, EvaluationError>)
    ensures
        match r {
            Ok(f) => run_actions(
                actions@,
                0,
                old(st)@,
                context@,
                call_depth as int,
                max_depth as int,
                dry_run,
                lib@,
            ) == Ok::<(ActionStateView, FlowView), EvalErrorView>((final(st)@, f@)),
            Err(e) => run_actions(
                actions@,
                0,
                old(st)@,
                context@,
                call_depth as int,
                max_depth as int,
                dry_run,
                lib@,
            ) == Err::<(ActionStateView, FlowView), EvalErrorView>(e@),
        },
        actions@.len() > 0 && refuses_at_once(actions@[0], context@, call_depth as int, max_depth as int)
            ==> r is Err && final(st)@ == old(st)@,
        dry_run ==> final(st)@.triggered == old(st)@.triggered,
    decreases depth_room(call_depth, max_depth), 1int,
{
    let ghost goal = run_actions(
        actions@,
        0,
        st@,
        context@,
        call_depth as int,
        max_depth as int,
        dry_run,
        lib@,
    );
    let mut i: usize = 0;
    while i < actions.len()
        invariant
            i <= actions@.len(),
            i == 0 ==> st@ == old(st)@,
            i > 0 ==> !refuses_at_once(actions@[0], context@, call_depth as int, max_depth as int),
            dry_run ==> st@.triggered == old(st)@.triggered,
            goal == run_actions(
                actions@,
                0,
                old(st)@,
                context@,
                call_depth as int,
                max_depth as int,
                dry_run,
                lib@,
            ),
            goal == run_actions(
                actions@,
                i as int,
                st@,
                context@,
                call_depth as int,
                max_depth as int,
                dry_run,
                lib@,
            ),
        decreases actions@.len() - i,
    {
        match execute_one(actions, i, context, st, call_depth, max_depth, dry_run, lib) {
            Ok(None) => {},
            Ok(Some(f)) => {
                return Ok(f);
            },
            Err(e) => {
                return Err(e);
            },
        }
        i = i + 1;
    }
    Ok(Flow::Continue)
}

// ---------------------------------------------------------------------------
// Strategies
// ---------------------------------------------------------------------------

/// Score of a rule: the share of its top-level condition nodes that hold,
/// as numerator and denominator; a `not` root or a root without children
/// scores 1 when it holds and 0 otherwise.
pub open spec fn score_of(co: CondOutcome) -> (nat, nat) {
    if co.total == 0 {
        (if co.matched {
            1nat
        } else {
            0nat
        }, 1nat)
    } else {
        (co.passed, co.total)
    }
}

/// A rule kept for the scored strategy.
pub struct ScoredView {
    pub score_num: nat,
    pub score_den: nat,
    pub priority: int,
    pub id: Seq<char>,
    pub trace: RuleTraceView,
    pub output: JValue,
    pub tags: Seq<Seq<char>>,
    pub triggered: Seq<Seq<char>>,
}

/// `a` ranks before `b`: higher score, then higher priority, then smaller id.
pub open spec fn ranks_before(a: ScoredView, b: ScoredView) -> bool {
    let x = a.score_num * b.score_den;
    let y = b.score_num * a.score_den;
    x > y || (x == y && (a.priority > b.priority || (a.priority == b.priority && crate::text::lex_order(
        a.id,
        b.id,
    ) == crate::text::Ord3::Less)))
}

/// Where `e` goes in a ranked list: before the first entry it ranks before.
pub open spec fn rank_position(sorted: Seq<ScoredView>, e: ScoredView) -> int
    decreases sorted.len(),
{
    if sorted.len() == 0 {
        0
    } else if ranks_before(e, sorted[0]) {
        0
    } else {
        1 + rank_position(sorted.drop_first(), e)
    }
}

/// Ranked order of scored rules (stable: equal ranks keep their order).
pub open spec fn rank_scored(s: Seq<ScoredView>) -> Seq<ScoredView>
    decreases s.len(),
{
    if s.len() == 0 {
        Seq::empty()
    } else {
        let t = rank_scored(s.drop_last());
        t.insert(rank_position(t, s.last()), s.last())
    }
}

/// `Vec::dedup`: consecutive repeats removed.
pub open spec fn dedup(s: Seq<Seq<char>>) -> Seq<Seq<char>>
    decreases s.len(),
{
    if s.len() <= 1 {
        s
    } else if s.last() == s[s.len() - 2] {
        dedup(s.drop_last())
    } else {
        dedup(s.drop_last()).push(s.last())
    }
}

/// State of an evaluation after some rules.
pub struct RunState {
    pub traces: Seq<RuleTraceView>,
    pub evaluated: nat,
    pub matched_count: nat,
    pub matched_ids: Seq<Seq<char>>,
    pub tags: Seq<Seq<char>>,
    pub triggered: Seq<Seq<char>>,
    pub output: JValue,
    pub scored: Seq<ScoredView>,
    pub halted: bool,
}

pub open spec fn initial_run() -> RunState {
    RunState {
        traces: Seq::empty(),
        evaluated: 0,
        matched_count: 0,
        matched_ids: Seq::empty(),
        tags: Seq::empty(),
        triggered: Seq::empty(),
        output: JValue::Object(Seq::empty()),
        scored: Seq::empty(),
        halted: false,
    }
}

pub open spec fn empty_actions_state() -> ActionStateView {
    ActionStateView {
        output: JValue::Object(Seq::empty()),
        tags: Seq::empty(),
        triggered: Seq::empty(),
        log: Seq::empty(),
    }
}

/// A matching rule's results are kept: its id, tags, events and output.
pub open spec fn keep(st: RunState, id: Seq<char>, a: ActionStateView, rt: RuleTraceView, halted: bool) -> RunState {
    RunState {
        traces: st.traces.push(rt),
        matched_ids: st.matched_ids.push(id),
        tags: st.tags + a.tags,
        triggered: st.triggered + a.triggered,
        output: merge_spec(st.output, a.output),
        halted: halted,
        ..st
    }
}

/// A rule whose actions do not run: only its trace is added.
pub open spec fn skipped_step(st: RunState, rt: RuleTraceView) -> RunState {
    RunState { traces: st.traces.push(rt), evaluated: st.evaluated + 1, ..st }
}

/// A rule whose actions ran (trace `rt`, action results `a`, ending in
/// `flow`) is recorded as the strategy says.
pub open spec fn kept_step(
    st: RunState,
    id: Seq<char>,
    priority: int,
    m: bool,
    sn: nat,
    sd: nat,
    rt: RuleTraceView,
    a: ActionStateView,
    flow: FlowView,
    strategy: Strategy,
) -> RunState {
    let st1 = RunState {
        evaluated: st.evaluated + 1,
        matched_count: st.matched_count + (if m {
            1nat
        } else {
            0nat
        }),
        ..st
    };
    let returned = flow is Return;
    match strategy {
        Strategy::FirstMatch => if m {
            keep(st1, id, a, rt, true)
        } else {
            RunState { traces: st1.traces.push(rt), ..st1 }
        },
        Strategy::AllMatch => if m {
            keep(st1, id, a, rt, returned)
        } else {
            RunState { traces: st1.traces.push(rt), ..st1 }
        },
        Strategy::Scored => RunState {
            scored: st1.scored.push(
                ScoredView {
                    score_num: sn,
                    score_den: sd,
                    priority: priority,
                    id: id,
                    trace: rt,
                    output: a.output,
                    tags: a.tags,
                    triggered: a.triggered,
                },
            ),
            halted: returned && sn > 0,
            ..st1
        },
    }
}

/// Evaluates one rule into the state. Actions run when the rule matches,
/// in a dry run, and (scored strategy) when its score is positive. First
/// match stops at the first match; a `return` action stops the evaluation
/// after a kept rule.
#[verifier::opaque]
pub open spec fn rule_step(
    st: RunState,
    rule: Rule,
    ctx: JValue,
    strategy: Strategy,
    dry: bool,
    max: int,
    now: (i64, u32),
    lib: Seq<&Rule>,
) -> Result<RunState, EvalErrorView> {
    let co = group_outcome(rule.conditions, ctx, dry, now, strategy == Strategy::Scored);
    let m = co.matched;
    let (sn, sd) = score_of(co);
    if !(m || dry || (strategy == Strategy::Scored && sn > 0)) {
        Ok(
            skipped_step(
                st,
                RuleTraceView {
                    rule_id: rule.id@,
                    matched: false,
                    conditions: co.conds,
                    short_circuited: co.short,
                    actions_executed: Seq::empty(),
                },
            ),
        )
    } else {
        match run_actions(rule.actions@, 0, empty_actions_state(), ctx, 0, max, dry, lib) {
            Err(e) => Err(e),
            Ok((a, flow)) => Ok(
                kept_step(
                    st,
                    rule.id@,
                    rule.priority as int,
                    m,
                    sn,
                    sd,
                    RuleTraceView {
                        rule_id: rule.id@,
                        matched: m,
                        conditions: co.conds,
                        short_circuited: co.short,
                        actions_executed: a.log,
                    },
                    a,
                    flow,
                    strategy,
                ),
            ),
        }
    }
}

/// Evaluates rules in order until the evaluation halts or fails.
pub open spec fn rules_fold(
    rules: Seq<Rule>,
    ctx: JValue,
    strategy: Strategy,
    dry: bool,
    max: int,
    now: (i64, u32),
    lib: Seq<&Rule>,
) -> Result<RunState, EvalErrorView>
    decreases rules.len(),
{
    if rules.len() == 0 {
        Ok(initial_run())
    } else {
        match rules_fold(rules.drop_last(), ctx, strategy, dry, max, now, lib) {
            Err(e) => Err(e),
            Ok(st) => if st.halted {
                Ok(st)
            } else {
                rule_step(st, rules.last(), ctx, strategy, dry, max, now, lib)
            },
        }
    }
}

/// Adds the scored rules, in ranked order: each one's trace, and the
/// results of those with a positive score.
pub open spec fn apply_ranked(st: RunState, entries: Seq<ScoredView>) -> RunState
    decreases entries.len(),
{
    if entries.len() == 0 {
        st
    } else {
        let s = apply_ranked(st, entries.drop_last());
        let e = entries.last();
        if e.score_num > 0 {
            RunState {
                matched_ids: s.matched_ids.push(e.id),
                tags: s.tags + e.tags,
                triggered: s.triggered + e.triggered,
                output: merge_spec(s.output, e.output),
                traces: s.traces.push(e.trace),
                ..s
            }
        } else {
            RunState { traces: s.traces.push(e.trace), ..s }
        }
    }
}

/// The observable result of an evaluation (clock readings left out).
pub struct EvalOutcome {
    pub rules_evaluated: nat,
    pub rules_matched: nat,
    pub strategy: Strategy,
    pub timed_out: bool,
    pub rules: Seq<RuleTraceView>,
    pub output: JValue,
    pub matched_rules: Seq<Seq<char>>,
    pub tags: Seq<Seq<char>>,
    pub triggered: Seq<Seq<char>>,
}

/// The result from the state after the evaluated rules.
pub open spec fn finish_spec(st: RunState, strategy: Strategy, timed_out: bool) -> EvalOutcome {
    let f = if strategy == Strategy::Scored {
        apply_ranked(RunState { scored: Seq::empty(), ..st }, rank_scored(st.scored))
    } else {
        st
    };
    EvalOutcome {
        rules_evaluated: f.evaluated,
        rules_matched: f.matched_count,
        strategy: strategy,
        timed_out: timed_out,
        rules: f.traces,
        output: f.output,
        matched_rules: f.matched_ids,
        tags: dedup(f.tags),
        triggered: dedup(f.triggered),
    }
}

/// Evaluation of `rules` of which the time budget let the first `k` start.
pub open spec fn evaluation_spec(
    rules: Seq<Rule>,
    k: int,
    ctx: JValue,
    strategy: Strategy,
    dry: bool,
    max: int,
    now: (i64, u32),
    lib: Seq<&Rule>,
) -> Result<EvalOutcome, EvalErrorView> {
    match rules_fold(rules.take(k), ctx, strategy, dry, max, now, lib) {
        Err(e) => Err(e),
        Ok(st) => Ok(finish_spec(st, strategy, k < rules.len() && !st.halted)),
    }
}

/// A rule kept for the scored strategy.
pub struct ScoredEntry {
    pub score_num: usize,
    pub score_den: usize,
    pub priority: i32,
    pub id: String,
    pub trace: RuleTrace,
    pub output: Value,
    pub tags: Vec<String>,
    pub triggered: Vec<String>,
}

impl View for ScoredEntry {
    type V = ScoredView;

    open spec fn view(&self) -> ScoredView {
        ScoredView {
            score_num: self.score_num as nat,
            score_den: self.score_den as nat,
            priority: self.priority as int,
            id: self.id@,
            trace: self.trace@,
            output: self.output@,
            tags: string_views(self.tags@),
            triggered: string_views(self.triggered@),
        }
    }
}

pub open spec fn scored_views(s: Seq<ScoredEntry>) -> Seq<ScoredView> {
    s.map_values(|e: ScoredEntry| e@)
}

/// Executable evaluation state.
pub struct Run {
    pub traces: Vec<RuleTrace>,
    pub evaluated: usize,
    pub matched_count: usize,
    pub matched: Vec<String>,
    pub tags: Vec<String>,
    pub triggered: Vec<String>,
    pub output: Value,
    pub scored: Vec<ScoredEntry>,
    pub halted: bool,
}

impl View for Run {
    type V = RunState;

    open spec fn view(&self) -> RunState {
        RunState {
            traces: rule_trace_views(self.traces@),
            evaluated: self.evaluated as nat,
            matched_count: self.matched_count as nat,
            matched_ids: string_views(self.matched@),
            tags: string_views(self.tags@),
            triggered: string_views(self.triggered@),
            output: self.output@,
            scored: scored_views(self.scored@),
            halted: self.halted,
        }
    }
}

/// All knobs of one evaluation.
pub struct EvalConfig<'a> {
    pub strategy: &'a Strategy,
    pub dry_run: bool,
    pub timeout_ms: Option<u64>,
    /// Maximum `call_rule` chain depth.
    pub max_call_depth: usize,
    /// The rules `call_rule` actions can reach (the first with the id is
    /// called).
    pub rule_lookup: &'a Vec<&'a Rule>,
    /// The instant the evaluation runs at (for `within_days`).
    pub now: (i64, u32),
}

impl<'a> EvalConfig<'a> {
    /// First settings of an evaluation: no dry run, no time budget, call
    /// depth 8, the current instant.
    pub fn simple(strategy: &'a Strategy, rule_lookup: &'a Vec<&'a Rule>) -> (r: EvalConfig<'a>)
        ensures
            r.strategy == strategy,
            !r.dry_run,
            r.timeout_ms is None,
            r.max_call_depth == 8,
            r.rule_lookup == rule_lookup,
    {
        EvalConfig {
            strategy,
            dry_run: false,
            timeout_ms: None,
            max_call_depth: 8,
            rule_lookup,
            now: crate::operators::utc_now(),
        }
    }
}

fn push_trace(v: &mut Vec<RuleTrace>, t: RuleTrace)
    ensures
        rule_trace_views(final(v)@) == rule_trace_views(old(v)@).push(t@),
{
    v.push(t);
    assert(rule_trace_views(v@) =~= rule_trace_views(old(v)@).push(t@));
}

fn push_string(v: &mut Vec<String>, t: String)
    ensures
        string_views(final(v)@) == string_views(old(v)@).push(t@),
{
    v.push(t);
    assert(string_views(v@) =~= string_views(old(v)@).push(t@));
}

fn append_strings(v: &mut Vec<String>, other: &mut Vec<String>)
    ensures
        string_views(final(v)@) == string_views(old(v)@) + string_views(old(other)@),
{
    v.append(other);
    assert(string_views(v@) =~= string_views(old(v)@) + string_views(old(other)@));
}

fn push_scored(v: &mut Vec<ScoredEntry>, e: ScoredEntry)
    ensures
        scored_views(final(v)@) == scored_views(old(v)@).push(e@),
{
    v.push(e);
    assert(scored_views(v@) =~= scored_views(old(v)@).push(e@));
}

fn record_skipped(run: &mut Run, rt: RuleTrace)
    requires
        old(run).evaluated < usize::MAX,
    ensures
        final(run)@ == skipped_step(old(run)@, rt@),
        final(run).evaluated == old(run).evaluated + 1,
        final(run).matched_count == old(run).matched_count,
{
    push_trace(&mut run.traces, rt);
    run.evaluated = run.evaluated + 1;
}

fn record_kept(
    run: &mut Run,
    rule: &Rule,
    matched: bool,
    sn: usize,
    sd: usize,
    rt: RuleTrace,
    st: ActionState,
    flow: &Flow,
    strategy: Strategy,
)
    requires
        old(run).evaluated < usize::MAX,
        old(run).matched_count <= old(run).evaluated,
    ensures
        final(run)@ == kept_step(
            old(run)@,
            rule.id@,
            rule.priority as int,
            matched,
            sn as nat,
            sd as nat,
            rt@,
            st@,
            flow@,
            strategy,
        ),
        final(run).evaluated == old(run).evaluated + 1,
        final(run).matched_count <= final(run).evaluated,
{
    let mut st = st;
    run.evaluated = run.evaluated + 1;
    if matched {
        run.matched_count = run.matched_count + 1;
    }
    let returned = match flow {
        Flow::Return(_) => true,
        Flow::Continue => false,
    };
    match strategy {
        Strategy::Scored => {
            let e = ScoredEntry {
                score_num: sn,
                score_den: sd,
                priority: rule.priority,
                id: rule.id.clone(),
                trace: rt,
                output: st.output,
                tags: st.tags,
                triggered: st.triggered,
            };
            push_scored(&mut run.scored, e);
            run.halted = returned && sn > 0;
        },
        _ => {
            if matched {
                push_string(&mut run.matched, rule.id.clone());
                append_strings(&mut run.tags, &mut st.tags);
                append_strings(&mut run.triggered, &mut st.triggered);
                merge_output(&mut run.output, &st.output);
                push_trace(&mut run.traces, rt);
                run.halted = match strategy {
                    Strategy::FirstMatch => true,
                    _ => returned,
                };
            } else {
                push_trace(&mut run.traces, rt);
            }
        },
    }
}

/// Evaluates one rule into the run (see `rule_step`).
fn eval_rule(run: &mut Run, rule: &Rule, context: &Value, cfg: &EvalConfig, start: &Instant) -> (r:
    Result<(), EvaluationError>)
    requires
        old(run).evaluated < usize::MAX,
        old(run).matched_count <= old(run).evaluated,
    ensures
        match r {
            Ok(()) => rule_step(
                old(run)@,
                *rule,
                context@,
                *cfg.strategy,
                cfg.dry_run,
                cfg.max_call_depth as int,
                cfg.now,
                cfg.rule_lookup@,
            ) == Ok::<RunState, EvalErrorView>(final(run)@) && final(run).evaluated == old(
                run,
            ).evaluated + 1 && final(run).matched_count <= final(run).evaluated,
            Err(e) => rule_step(
                old(run)@,
                *rule,
                context@,
                *cfg.strategy,
                cfg.dry_run,
                cfg.max_call_depth as int,
                cfg.now,
                cfg.rule_lookup@,
            ) == Err::<RunState, EvalErrorView>(e@),
        },
{
    reveal(rule_step);
    let strategy = *cfg.strategy;
    let scored = match strategy {
        Strategy::Scored => true,
        _ => false,
    };
    let rule_start = micros_since(start);
    let mut builder = RuleTraceBuilder::new(rule.id.as_str(), rule_start);
    let ghost co = group_outcome(rule.conditions, context@, cfg.dry_run, cfg.now, scored);
    let (matched, passed, total) = eval_group(
        &rule.conditions,
        context,
        cfg.dry_run,
        cfg.now,
        scored,
        &mut builder,
    );
    assert(condition_views(builder.conditions@) =~= co.conds);
    let (sn, sd): (usize, usize) = if total == 0 {
        (if matched {
            1
        } else {
            0
        }, 1)
    } else {
        (passed, total)
    };
    assert((sn as nat, sd as nat) == score_of(co));
    if !(matched || cfg.dry_run || (scored && sn > 0)) {
        let rule_end = micros_since(start);
        let rt = builder.finish(false, rule_end);
        assert(string_views(rt.actions_executed@) =~= Seq::<Seq<char>>::empty());
        record_skipped(run, rt);
        return Ok(());
    }
    let mut st = ActionState {
        output: Value::Object(Vec::new()),
        tags: Vec::new(),
        triggered: Vec::new(),
        log: Vec::new(),
    };
    assert(st@ == empty_actions_state()) by {
        assert(string_views(st.tags@) =~= Seq::<Seq<char>>::empty());
        assert(string_views(st.triggered@) =~= Seq::<Seq<char>>::empty());
        assert(string_views(st.log@) =~= Seq::<Seq<char>>::empty());
        assert(view_members(Seq::<(String, Value)>::empty()) =~= Seq::<(Seq<char>, JValue)>::empty());
    }
    let flow = match execute_actions(
        &rule.actions,
        context,
        &mut st,
        0,
        cfg.max_call_depth,
        cfg.dry_run,
        cfg.rule_lookup,
    ) {
        Ok(f) => f,
        Err(e) => {
            return Err(e);
        },
    };
    let ghost a = st@;
    let mut log: Vec<String> = Vec::new();
    std::mem::swap(&mut log, &mut st.log);
    builder.actions_executed = log;
    let rule_end = micros_since(start);
    let rt = builder.finish(matched, rule_end);
    assert(st@ == ActionStateView { log: Seq::empty(), ..a }) by {
        assert(string_views(st.log@) =~= Seq::<Seq<char>>::empty());
    }
    record_kept(run, rule, matched, sn, sd, rt, st, &flow, strategy);
    assert(kept_step(old(run)@, rule.id@, rule.priority as int, matched, sn as nat, sd as nat, rt@,
        ActionStateView { log: Seq::empty(), ..a }, flow@, strategy) == kept_step(old(run)@, rule.id@,
        rule.priority as int, matched, sn as nat, sd as nat, rt@, a, flow@, strategy));
    Ok(())
}

fn ranks_before_exec(a: &ScoredEntry, b: &ScoredEntry) -> (r: bool)
    ensures
        r == ranks_before(a@, b@),
{
    assert((a.score_num as int) * (b.score_den as int) <= 0xffff_ffff_ffff_ffff * 0xffff_ffff_ffff_ffff)
        by (nonlinear_arith)
        requires
            a.score_num <= 0xffff_ffff_ffff_ffff,
            b.score_den <= 0xffff_ffff_ffff_ffff,
    ;
    assert((b.score_num as int) * (a.score_den as int) <= 0xffff_ffff_ffff_ffff * 0xffff_ffff_ffff_ffff)
        by (nonlinear_arith)
        requires
            b.score_num <= 0xffff_ffff_ffff_ffff,
            a.score_den <= 0xffff_ffff_ffff_ffff,
    ;
    let x = (a.score_num as u128) * (b.score_den as u128);
    let y = (b.score_num as u128) * (a.score_den as u128);
    if x > y {
        true
    } else if x == y {
        if a.priority > b.priority {
            true
        } else if a.priority == b.priority {
            let ac = chars_of(a.id.as_str());
            let bc = chars_of(b.id.as_str());
            crate::text::compare_chars(ac.as_slice(), bc.as_slice()) == crate::text::Ord3::Less
        } else {
            false
        }
    } else {
        false
    }
}

proof fn lemma_rank_position(s: Seq<ScoredView>, e: ScoredView, i: int)
    requires
        0 <= i <= s.len(),
        forall|j: int| 0 <= j < i ==> !ranks_before(e, #[trigger] s[j]),
        i == s.len() || ranks_before(e, s[i]),
    ensures
        rank_position(s, e) == i,
    decreases i,
{
    if i > 0 {
        assert(!ranks_before(e, s[0]));
        assert forall|j: int| 0 <= j < i - 1 implies !ranks_before(e, #[trigger] s.drop_first()[j]) by {
            assert(s.drop_first()[j] == s[j + 1]);
        }
        if i < s.len() {
            assert(s.drop_first()[i - 1] == s[i]);
        }
        lemma_rank_position(s.drop_first(), e, i - 1);
    }
}

fn rank_position_exec(sorted: &Vec<ScoredEntry>, e: &ScoredEntry) -> (r: usize)
    ensures
        r as int == rank_position(scored_views(sorted@), e@),
        r <= sorted@.len(),
{
    let ghost sv = scored_views(sorted@);
    let mut i: usize = 0;
    while i < sorted.len()
        invariant
            i <= sorted@.len(),
            sv == scored_views(sorted@),
            sv.len() == sorted@.len(),
            forall|j: int| 0 <= j < i ==> !ranks_before(e@, #[trigger] sv[j]),
        decreases sorted@.len() - i,
    {
        assert(sv[i as int] == sorted@[i as int]@);
        if ranks_before_exec(e, &sorted[i]) {
            proof {
                lemma_rank_position(sv, e@, i as int);
            }
            return i;
        }
        i = i + 1;
    }
    proof {
        lemma_rank_position(sv, e@, i as int);
    }
    i
}

/// Orders scored rules by rank (see `rank_scored`).
fn rank_entries(v: Vec<ScoredEntry>) -> (r: Vec<ScoredEntry>)
    ensures
        scored_views(r@) == rank_scored(scored_views(v@)),
{
    let ghost orig = scored_views(v@);
    let mut v = v;
    let mut out: Vec<ScoredEntry> = Vec::new();
    let ghost mut k: int = 0;
    assert(orig.take(0) =~= Seq::<ScoredView>::empty());
    assert(scored_views(out@) =~= Seq::<ScoredView>::empty());
    assert(scored_views(v@) =~= orig.skip(0));
    while v.len() > 0
        invariant
            0 <= k <= orig.len(),
            scored_views(v@) == orig.skip(k),
            scored_views(out@) == rank_scored(orig.take(k)),
        decreases v@.len(),
    {
        let ghost before_v = scored_views(v@);
        let e = v.remove(0);
        proof {
            assert(before_v[0] == e@);
            assert(scored_views(v@) =~= before_v.drop_first());
            assert(orig.skip(k).drop_first() =~= orig.skip(k + 1));
            assert(orig.take(k + 1).drop_last() =~= orig.take(k));
            assert(orig.take(k + 1).last() == orig.skip(k)[0]);
        }
        let pos = rank_position_exec(&out, &e);
        let ghost before_out = scored_views(out@);
        out.insert(pos, e);
        proof {
            assert(scored_views(out@) =~= before_out.insert(pos as int, e@));
        }
        proof {
            k = k + 1;
        }
    }
    proof {
        assert(orig.skip(k).len() == 0);
        assert(orig.take(k) =~= orig);
    }
    out
}

/// Adds ranked scored rules to the run (see `apply_ranked`).
fn apply_ranked_entries(run: &mut Run, entries: Vec<ScoredEntry>)
    ensures
        final(run)@ == apply_ranked(old(run)@, scored_views(entries@)),
        final(run).evaluated == old(run).evaluated,
        final(run).matched_count == old(run).matched_count,
{
    let ghost orig = scored_views(entries@);
    let ghost st0 = run@;
    let mut entries = entries;
    let ghost mut k: int = 0;
    assert(orig.take(0) =~= Seq::<ScoredView>::empty());
    assert(scored_views(entries@) =~= orig.skip(0));
    while entries.len() > 0
        invariant
            0 <= k <= orig.len(),
            scored_views(entries@) == orig.skip(k),
            run@ == apply_ranked(st0, orig.take(k)),
            run.evaluated == st0.evaluated,
            run.matched_count == st0.matched_count,
        decreases entries@.len(),
    {
        let ghost before = scored_views(entries@);
        let e = entries.remove(0);
        proof {
            assert(before[0] == e@);
            assert(scored_views(entries@) =~= before.drop_first());
            assert(orig.skip(k).drop_first() =~= orig.skip(k + 1));
            assert(orig.take(k + 1).drop_last() =~= orig.take(k));
            assert(orig.take(k + 1).last() == orig.skip(k)[0]);
        }
        let mut e = e;
        if e.score_num > 0 {
            push_string(&mut run.matched, e.id.clone());
            append_strings(&mut run.tags, &mut e.tags);
            append_strings(&mut run.triggered, &mut e.triggered);
            merge_output(&mut run.output, &e.output);
        }
        push_trace(&mut run.traces, e.trace);
        proof {
            k = k + 1;
        }
    }
    proof {
        assert(orig.skip(k).len() == 0);
        assert(orig.take(k) =~= orig);
    }
}

/// `Vec::dedup` on strings.
fn dedup_strings(v: &Vec<String>) -> (r: Vec<String>)
    ensures
        string_views(r@) == dedup(string_views(v@)),
{
    let ghost sv = string_views(v@);
    let mut out: Vec<String> = Vec::new();
    let mut i: usize = 0;
    assert(string_views(out@) =~= dedup(sv.take(0)));
    while i < v.len()
        invariant
            i <= v@.len(),
            sv == string_views(v@),
            sv.len() == v@.len(),
            string_views(out@) == dedup(sv.take(i as int)),
        decreases v@.len() - i,
    {
        let ghost t = sv.take(i + 1);
        assert(t.drop_last() =~= sv.take(i as int));
        assert(t.last() == v@[i as int]@);
        if i == 0 {
            push_string(&mut out, v[i].clone());
            assert(string_views(out@) =~= t);
        } else {
            assert(t[t.len() - 2] == v@[i - 1]@);
            if !crate::text::str_eq(v[i].as_str(), v[i - 1].as_str()) {
                push_string(&mut out, v[i].clone());
            }
        }
        i = i + 1;
    }
    assert(sv.take(i as int) =~= sv);
    out
}

proof fn lemma_fold_halted(
    rules: Seq<Rule>,
    ctx: JValue,
    strategy: Strategy,
    dry: bool,
    max: int,
    now: (i64, u32),
    lib: Seq<&Rule>,
    k: int,
)
    requires
        0 <= k <= rules.len(),
        rules_fold(rules.take(k), ctx, strategy, dry, max, now, lib) matches Ok(st) && st.halted,
    ensures
        rules_fold(rules, ctx, strategy, dry, max, now, lib) == rules_fold(
            rules.take(k),
            ctx,
            strategy,
            dry,
            max,
            now,
            lib,
        ),
    decreases rules.len() - k,
{
    if k < rules.len() {
        assert(rules.take(k + 1).drop_last() =~= rules.take(k));
        lemma_fold_halted(rules, ctx, strategy, dry, max, now, lib, k + 1);
    } else {
        assert(rules.take(k) =~= rules);
    }
}

proof fn lemma_fold_err(
    rules: Seq<Rule>,
    ctx: JValue,
    strategy: Strategy,
    dry: bool,
    max: int,
    now: (i64, u32),
    lib: Seq<&Rule>,
    k: int,
)
    requires
        0 <= k <= rules.len(),
        rules_fold(rules.take(k), ctx, strategy, dry, max, now, lib) is Err,
    ensures
        rules_fold(rules, ctx, strategy, dry, max, now, lib) == rules_fold(
            rules.take(k),
            ctx,
            strategy,
            dry,
            max,
            now,
            lib,
        ),
    decreases rules.len() - k,
{
    if k < rules.len() {
        assert(rules.take(k + 1).drop_last() =~= rules.take(k));
        lemma_fold_err(rules, ctx, strategy, dry, max, now, lib, k + 1);
    } else {
        assert(rules.take(k) =~= rules);
    }
}

/// The observable result of an evaluation's output.
pub open spec fn outcome_of(out: (EvaluationTrace, Value, Vec<String>, Vec<String>, Vec<String>)) -> EvalOutcome {
    EvalOutcome {
        rules_evaluated: out.0.rules_evaluated as nat,
        rules_matched: out.0.rules_matched as nat,
        strategy: out.0.strategy,
        timed_out: out.0.timed_out,
        rules: rule_trace_views(out.0.rules@),
        output: out.1@,
        matched_rules: string_views(out.2@),
        tags: string_views(out.3@),
        triggered: string_views(out.4@),
    }
}

/// Assembles the result of an evaluation from its final state.
fn finish_run(run: Run, strategy: Strategy, timed_out: bool, total_us: u64) -> (r: (
    EvaluationTrace,
    Value,
    Vec<String>,
    Vec<String>,
    Vec<String>,
))
    ensures
        outcome_of(r) == finish_spec(run@, strategy, timed_out),
        r.0.total_duration_us == total_us,
{
    let mut run = run;
    match strategy {
        Strategy::Scored => {
            let mut entries: Vec<ScoredEntry> = Vec::new();
            std::mem::swap(&mut entries, &mut run.scored);
            assert(scored_views(run.scored@) =~= Seq::<ScoredView>::empty());
            let ranked = rank_entries(entries);
            apply_ranked_entries(&mut run, ranked);
        },
        _ => {},
    }
    let tags = dedup_strings(&run.tags);
    let triggered = dedup_strings(&run.triggered);
    let trace = EvaluationTrace {
        rules_evaluated: run.evaluated,
        rules_matched: run.matched_count,
        strategy,
        total_duration_us: total_us,
        timed_out,
        rules: run.traces,
    };
    (trace, run.output, run.matched, tags, triggered)
}

/// Evaluates the rules `rules` refers to (in order) against `context`; see
/// `evaluate`.
///
/// Returns the trace, the output context, the ids of the matched rules, the
/// tags and the triggered event names. When the configuration has a time
/// budget, the clock is read before each rule and evaluation stops with a
/// partial trace once the budget is spent; the result is that of the rules
/// started before then (all of them without a budget).
pub fn evaluate_refs(rules: &Vec<&Rule>, context: &Value, cfg: &EvalConfig) -> (r: Result<
    (EvaluationTrace, Value, Vec<String>, Vec<String>, Vec<String>),
    EvaluationError,
>)
    ensures
        exists|k: int|
            0 <= k <= deref_rules(rules@).len() && (cfg.timeout_ms is None ==> k == deref_rules(rules@).len())
                && (cfg.timeout_ms == Some(0u64) ==> k == 0) && match r {
                Ok(out) => #[trigger] evaluation_spec(
                    deref_rules(rules@),
                    k,
                    context@,
                    *cfg.strategy,
                    cfg.dry_run,
                    cfg.max_call_depth as int,
                    cfg.now,
                    cfg.rule_lookup@,
                ) == Ok::<EvalOutcome, EvalErrorView>(outcome_of(out)),
                Err(e) => evaluation_spec(
                    deref_rules(rules@),
                    k,
                    context@,
                    *cfg.strategy,
                    cfg.dry_run,
                    cfg.max_call_depth as int,
                    cfg.now,
                    cfg.rule_lookup@,
                ) == Err::<EvalOutcome, EvalErrorView>(e@),
            },
{
    let ghost strategy = *cfg.strategy;
    let ghost max = cfg.max_call_depth as int;
    let start = instant_now();
    let budget_us: Option<u64> = match cfg.timeout_ms {
        Some(ms) => Some(
            if ms <= u64::MAX / 1000 {
                ms * 1000
            } else {
                u64::MAX
            },
        ),
        None => None,
    };
    let mut run = Run {
        traces: Vec::new(),
        evaluated: 0,
        matched_count: 0,
        matched: Vec::new(),
        tags: Vec::new(),
        triggered: Vec::new(),
        output: Value::Object(Vec::new()),
        scored: Vec::new(),
        halted: false,
    };
    proof {
        assert(rule_trace_views(run.traces@) =~= Seq::<RuleTraceView>::empty());
        assert(string_views(run.matched@) =~= Seq::<Seq<char>>::empty());
        assert(string_views(run.tags@) =~= Seq::<Seq<char>>::empty());
        assert(string_views(run.triggered@) =~= Seq::<Seq<char>>::empty());
        assert(scored_views(run.scored@) =~= Seq::<ScoredView>::empty());
        assert(view_members(Seq::<(String, Value)>::empty()) =~= Seq::<(Seq<char>, JValue)>::empty());
        assert(deref_rules(rules@).take(0) =~= Seq::<Rule>::empty());
    }
    let n = rules.len();
    let mut i: usize = 0;
    let mut cut = false;
    while i < n && !cut && !run.halted
        invariant
            n == deref_rules(rules@).len(),
            i <= n,
            run.evaluated == i,
            run.matched_count <= run.evaluated,
            budget_us is None <==> cfg.timeout_ms is None,
            cfg.timeout_ms == Some(0u64) ==> budget_us == Some(0u64) && i == 0,
            cut ==> !run.halted && i < n,
            cut ==> cfg.timeout_ms is Some,
            rules_fold(
                deref_rules(rules@).take(i as int),
                context@,
                *cfg.strategy,
                cfg.dry_run,
                cfg.max_call_depth as int,
                cfg.now,
                cfg.rule_lookup@,
            ) == Ok::<RunState, EvalErrorView>(run@),
        decreases n - i, (if cut { 0int } else { 1int }),
    {
        match budget_us {
            Some(b) => {
                if micros_since(&start) >= b {
                    cut = true;
                    continue;
                }
            },
            None => {},
        }
        proof {
            assert(deref_rules(rules@).take(i + 1).drop_last() =~= deref_rules(rules@).take(i as int));
            assert(deref_rules(rules@).take(i + 1).last() == deref_rules(rules@)[i as int]);
        }
        match eval_rule(&mut run, rules[i], context, cfg, &start) {
            Ok(()) => {},
            Err(e) => {
                proof {
                    reveal(rule_step);
                    lemma_fold_err(deref_rules(rules@), context@, *cfg.strategy, cfg.dry_run,
                        cfg.max_call_depth as int, cfg.now, cfg.rule_lookup@, i + 1);
                    assert(deref_rules(rules@).take(n as int) =~= deref_rules(rules@));
                    assert(evaluation_spec(deref_rules(rules@), n as int, context@, *cfg.strategy, cfg.dry_run,
                        cfg.max_call_depth as int, cfg.now, cfg.rule_lookup@) == Err::<EvalOutcome, EvalErrorView>(e@));
                }
                return Err(e);
            },
        }
        i = i + 1;
    }
    let ghost k: int = if cut {
        i as int
    } else {
        n as int
    };
    proof {
        if !cut {
            if run.halted {
                lemma_fold_halted(deref_rules(rules@), context@, *cfg.strategy, cfg.dry_run, cfg.max_call_depth as int,
                    cfg.now, cfg.rule_lookup@, i as int);
                assert(deref_rules(rules@).take(n as int) =~= deref_rules(rules@));
            } else {
                assert(i == n);
            }
        }
        assert(deref_rules(rules@).take(n as int) =~= deref_rules(rules@));
    }
    let total = micros_since(&start);
    let out = finish_run(run, *cfg.strategy, cut, total);
    assert(evaluation_spec(deref_rules(rules@), k, context@, *cfg.strategy, cfg.dry_run, cfg.max_call_depth as int,
        cfg.now, cfg.rule_lookup@) == Ok::<EvalOutcome, EvalErrorView>(outcome_of(out)));
    Ok(out)
}

/// Evaluates `rules` (in the given order) against `context`.
///
/// Returns the trace, the output context, the ids of the matched rules, the
/// tags and the triggered event names. When the configuration has a time
/// budget, the clock is read before each rule and evaluation stops with a
/// partial trace once the budget is spent; the result is that of the rules
/// started before then (all of them without a budget).
pub fn evaluate(rules: &[Rule], context: &Value, cfg: &EvalConfig) -> (r: Result<
    (EvaluationTrace, Value, Vec<String>, Vec<String>, Vec<String>),
    EvaluationError,
>)
    ensures
        exists|k: int|
            0 <= k <= rules@.len() && (cfg.timeout_ms is None ==> k == rules@.len()) && (cfg.timeout_ms
                == Some(0u64) ==> k == 0) && match r {
                Ok(out) => #[trigger] evaluation_spec(
                    rules@,
                    k,
                    context@,
                    *cfg.strategy,
                    cfg.dry_run,
                    cfg.max_call_depth as int,
                    cfg.now,
                    cfg.rule_lookup@,
                ) == Ok::<EvalOutcome, EvalErrorView>(outcome_of(out)),
                Err(e) => evaluation_spec(
                    rules@,
                    k,
                    context@,
                    *cfg.strategy,
                    cfg.dry_run,
                    cfg.max_call_depth as int,
                    cfg.now,
                    cfg.rule_lookup@,
                ) == Err::<EvalOutcome, EvalErrorView>(e@),
            },
{
    let refs = crate::schema::rule_refs(rules);
    evaluate_refs(&refs, context, cfg)
}

} // verus!
