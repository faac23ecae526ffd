//! JSON values for rule conditions, contexts and output contexts.
//!
//! Objects are member lists kept in key order (the order of a sorted map), so
//! two objects with the same members have the same representation. Values
//! are reasoned about through their view, a `JValue` whose strings are
//! character sequences.
use vstd::prelude::*;
use crate::number::{Number, number_text, push_number};
use crate::text::{Ord3, lex_order, chars_of, compare_chars, push_char, push_str, str_eq};

verus! {

/// A JSON value.
#[derive(Debug)]
pub enum Value {
    Null,
    Bool(bool),
    Number(Number),
    String(String),
    Array(Vec<Value>),
    Object(Vec<(String, Value)>),
}

/// The mathematical view of a JSON value.
pub enum JValue {
    Null,
    Bool(bool),
    Number(Number),
    Str(Seq<char>),
    Array(Seq<JValue>),
    Object(Seq<(Seq<char>, JValue)>),
}

impl Value {
    pub open spec fn view_rec(&self) -> JValue
        decreases self,
    {
        match self {
            Value::Null => JValue::Null,
            Value::Bool(b) => JValue::Bool(*b),
            Value::Number(n) => JValue::Number(*n),
            Value::String(s) => JValue::Str(s@),
            Value::Array(v) => JValue::Array(view_seq(v@)),
            Value::Object(m) => JValue::Object(view_members(m@)),
        }
    }
}

impl View for Value {
    type V = JValue;

    open spec fn view(&self) -> JValue {
        self.view_rec()
    }
}

/// Element-wise view of a value sequence.
pub open spec fn view_seq(s: Seq<Value>) -> Seq<JValue>
    decreases s,
{
    if s.len() == 0 {
        Seq::empty()
    } else {
        view_seq(s.drop_last()).push(s.last().view_rec())
    }
}

/// Member-wise view of an object's member list.
pub open spec fn view_members(s: Seq<(String, Value)>) -> Seq<(Seq<char>, JValue)>
    decreases s,
{
    if s.len() == 0 {
        Seq::empty()
    } else {
        view_members(s.drop_last()).push((s.last().0@, s.last().1.view_rec()))
    }
}

pub proof fn lemma_view_seq(s: Seq<Value>)
    ensures
        view_seq(s).len() == s.len(),
        forall|i: int| 0 <= i < s.len() ==> #[trigger] view_seq(s)[i] == s[i].view_rec(),
    decreases s.len(),
{
    if s.len() > 0 {
        lemma_view_seq(s.drop_last());
        assert forall|i: int| 0 <= i < s.len() implies #[trigger] view_seq(s)[i]
            == s[i].view_rec() by {
            if i < s.len() - 1 {
                assert(s.drop_last()[i] == s[i]);
            }
        }
    }
}

pub proof fn lemma_view_members(s: Seq<(String, Value)>)
    ensures
        view_members(s).len() == s.len(),
        forall|i: int|
            0 <= i < s.len() ==> #[trigger] view_members(s)[i] == (s[i].0@, s[i].1.view_rec()),
    decreases s.len(),
{
    if s.len() > 0 {
        lemma_view_members(s.drop_last());
        assert forall|i: int| 0 <= i < s.len() implies #[trigger] view_members(s)[i] == (
        s[i].0@, s[i].1.view_rec()) by {
            if i < s.len() - 1 {
                assert(s.drop_last()[i] == s[i]);
            }
        }
    }
}

/// Two sequences with element-wise equal views have equal views.
pub proof fn lemma_view_seq_ext(a: Seq<Value>, b: Seq<Value>)
    requires
        a.len() == b.len(),
        forall|i: int| 0 <= i < a.len() ==> #[trigger] a[i].view_rec() == b[i].view_rec(),
    ensures
        view_seq(a) == view_seq(b),
{
    lemma_view_seq(a);
    lemma_view_seq(b);
    assert(view_seq(a) =~= view_seq(b));
}

/// Two member lists with member-wise equal views have equal views.
pub proof fn lemma_view_members_ext(a: Seq<(String, Value)>, b: Seq<(String, Value)>)
    requires
        a.len() == b.len(),
        forall|i: int|
            #![auto]
            0 <= i < a.len() ==> a[i].0@ == b[i].0@ && a[i].1.view_rec() == b[i].1.view_rec(),
    ensures
        view_members(a) == view_members(b),
{
    lemma_view_members(a);
    lemma_view_members(b);
    assert(view_members(a) =~= view_members(b));
}

/// Index of the first member with key `k`.
pub open spec fn member_index(m: Seq<(Seq<char>, JValue)>, k: Seq<char>) -> Option<int>
    decreases m.len(),
{
    if m.len() == 0 {
        None
    } else if m[0].0 == k {
        Some(0)
    } else {
        match member_index(m.drop_first(), k) {
            Some(i) => Some(i + 1),
            None => None,
        }
    }
}

pub proof fn lemma_member_index(m: Seq<(Seq<char>, JValue)>, k: Seq<char>)
    ensures
        match member_index(m, k) {
            Some(i) => 0 <= i < m.len() && m[i].0 == k && forall|j: int|
                0 <= j < i ==> m[j].0 != k,
            None => forall|j: int| 0 <= j < m.len() ==> m[j].0 != k,
        },
    decreases m.len(),
{
    if m.len() > 0 && m[0].0 != k {
        lemma_member_index(m.drop_first(), k);
        assert forall|j: int| 0 < j < m.len() implies m[j] == m.drop_first()[j - 1] by {}
    }
}

proof fn lemma_member_index_unique(m: Seq<(Seq<char>, JValue)>, k: Seq<char>, i: int)
    requires
        0 <= i <= m.len(),
        forall|j: int| 0 <= j < i ==> m[j].0 != k,
    ensures
        i < m.len() && m[i].0 == k ==> member_index(m, k) == Some(i),
        i == m.len() ==> member_index(m, k) is None,
{
    lemma_member_index(m, k);
    match member_index(m, k) {
        Some(j) => {
            if i < m.len() && m[i].0 == k && j < i {
                assert(m[j].0 != k);
            }
        },
        None => {},
    }
}

/// The value of member `k`, if present.
pub open spec fn member_get(m: Seq<(Seq<char>, JValue)>, k: Seq<char>) -> Option<JValue> {
    match member_index(m, k) {
        Some(i) => Some(m[i].1),
        None => None,
    }
}

/// Position at which a new key `k` goes to keep the members in key order.
pub open spec fn insert_position(m: Seq<(Seq<char>, JValue)>, k: Seq<char>) -> int
    decreases m.len(),
{
    if m.len() == 0 {
        0
    } else if lex_order(k, m[0].0) == Ord3::Less {
        0
    } else {
        insert_position(m.drop_first(), k) + 1
    }
}

pub proof fn lemma_insert_position(m: Seq<(Seq<char>, JValue)>, k: Seq<char>)
    ensures
        0 <= insert_position(m, k) <= m.len(),
        insert_position(m, k) < m.len() ==> lex_order(k, m[insert_position(m, k)].0)
            == Ord3::Less,
        forall|j: int| 0 <= j < insert_position(m, k) ==> lex_order(k, m[j].0) != Ord3::Less,
    decreases m.len(),
{
    if m.len() > 0 && lex_order(k, m[0].0) != Ord3::Less {
        lemma_insert_position(m.drop_first(), k);
        assert forall|j: int| 0 < j < m.len() implies m[j] == m.drop_first()[j - 1] by {}
    }
}

proof fn lemma_insert_position_unique(m: Seq<(Seq<char>, JValue)>, k: Seq<char>, i: int)
    requires
        0 <= i <= m.len(),
        forall|j: int| 0 <= j < i ==> lex_order(k, #[trigger] m[j].0) != Ord3::Less,
        i < m.len() ==> lex_order(k, m[i].0) == Ord3::Less,
    ensures
        insert_position(m, k) == i,
{
    lemma_insert_position(m, k);
    let p = insert_position(m, k);
    if p < i {
        assert(lex_order(k, m[p].0) != Ord3::Less);
    }
    if i < p {
        assert(lex_order(k, m[i].0) != Ord3::Less);
    }
}

/// Members after setting key `k` to `v`: replaced in place when present,
/// otherwise inserted at its key-order position.
pub open spec fn member_set(m: Seq<(Seq<char>, JValue)>, k: Seq<char>, v: JValue) -> Seq<
    (Seq<char>, JValue),
> {
    match member_index(m, k) {
        Some(i) => m.update(i, (k, v)),
        None => m.insert(insert_position(m, k), (k, v)),
    }
}

/// Setting key `k` and reading it back gives the value set.
pub proof fn lemma_member_set_get(m: Seq<(Seq<char>, JValue)>, k: Seq<char>, v: JValue)
    ensures
        member_get(member_set(m, k, v), k) == Some(v),
{
    lemma_member_index(m, k);
    let s = member_set(m, k, v);
    match member_index(m, k) {
        Some(i) => {
            assert forall|j: int| 0 <= j < i implies s[j].0 != k by {}
            lemma_member_index_unique(s, k, i);
        },
        None => {
            lemma_insert_position(m, k);
            let p = insert_position(m, k);
            assert forall|j: int| 0 <= j < p implies s[j].0 != k by {
                assert(s[j] == m[j]);
            }
            assert(s[p] == (k, v));
            lemma_member_index_unique(s, k, p);
        },
    }
}

/// Setting key `k` leaves every other key's value as it was.
pub proof fn lemma_member_set_other(m: Seq<(Seq<char>, JValue)>, k: Seq<char>, k2: Seq<char>, v: JValue)
    requires
        k2 != k,
    ensures
        member_get(member_set(m, k, v), k2) == member_get(m, k2),
{
    lemma_member_index(m, k);
    lemma_member_index(m, k2);
    let s = member_set(m, k, v);
    match member_index(m, k) {
        Some(i) => {
            assert forall|x: int| 0 <= x < s.len() implies s[x].0 == m[x].0 by {}
            match member_index(m, k2) {
                Some(j) => {
                    assert forall|x: int| 0 <= x < j implies s[x].0 != k2 by {
                        assert(m[x].0 != k2);
                    }
                    lemma_member_index_unique(s, k2, j);
                    assert(s[j] == m[j]);
                },
                None => {
                    assert forall|x: int| 0 <= x < s.len() implies s[x].0 != k2 by {
                        assert(m[x].0 != k2);
                    }
                    lemma_member_index_unique(s, k2, s.len() as int);
                },
            }
        },
        None => {
            lemma_insert_position(m, k);
            let p = insert_position(m, k);
            assert forall|x: int| 0 <= x < s.len() implies s[x] == (if x < p {
                m[x]
            } else if x == p {
                (k, v)
            } else {
                m[x - 1]
            }) by {}
            match member_index(m, k2) {
                Some(j) => {
                    let j2 = if j < p {
                        j
                    } else {
                        j + 1
                    };
                    assert forall|x: int| 0 <= x < j2 implies s[x].0 != k2 by {
                        if x < p {
                            assert(m[x].0 != k2);
                        } else if x > p {
                            assert(m[x - 1].0 != k2);
                        }
                    }
                    assert(s[j2] == m[j]);
                    lemma_member_index_unique(s, k2, j2);
                },
                None => {
                    assert forall|x: int| 0 <= x < s.len() implies s[x].0 != k2 by {
                        if x < p {
                            assert(m[x].0 != k2);
                        } else if x > p {
                            assert(m[x - 1].0 != k2);
                        }
                    }
                    lemma_member_index_unique(s, k2, s.len() as int);
                },
            }
        },
    }
}

/// Setting a key to the value it already has changes nothing.
pub proof fn lemma_member_set_same(m: Seq<(Seq<char>, JValue)>, k: Seq<char>, v: JValue)
    requires
        member_get(m, k) == Some(v),
    ensures
        member_set(m, k, v) == m,
{
    lemma_member_index(m, k);
    let i = member_index(m, k)->0;
    assert(m.update(i, (k, v)) =~= m);
}

/// The member `k` after a partial update: the patch's value when the patch
/// has `k`, else the base's.
pub open spec fn patched_member(
    base: Seq<(Seq<char>, JValue)>,
    patch: Seq<(Seq<char>, JValue)>,
    k: Seq<char>,
) -> Option<JValue> {
    if member_get(patch, k) is Some {
        member_get(patch, k)
    } else {
        member_get(base, k)
    }
}

/// Reading member `k` of members that start with `(k2, v)`.
proof fn lemma_member_get_cons(m: Seq<(Seq<char>, JValue)>, k: Seq<char>)
    requires
        m.len() > 0,
    ensures
        member_get(m, k) == if m[0].0 == k {
            Some(m[0].1)
        } else {
            member_get(m.drop_first(), k)
        },
{
    lemma_member_index(m, k);
    lemma_member_index(m.drop_first(), k);
}

/// Partial update of an object's members: each member of `patch` replaces
/// the base's member of that key, or is added; the other members of the
/// base stay.
pub fn apply_patch(base: &Vec<(String, Value)>, patch: &Vec<(String, Value)>) -> (r: Vec<(String, Value)>)
    ensures
        forall|k: Seq<char>|
            #[trigger] member_get(view_members(r@), k) == patched_member(
                view_members(base@),
                view_members(patch@),
                k,
            ),
{
    let ghost bv = view_members(base@);
    let ghost pv = view_members(patch@);
    let mut out: Vec<(String, Value)> = Vec::new();
    let mut i: usize = 0;
    while i < base.len()
        invariant
            i <= base@.len(),
            out@.len() == i,
            forall|j: int|
                #![auto]
                0 <= j < i ==> out@[j].0@ == base@[j].0@ && out@[j].1.view_rec() == base@[j].1.view_rec(),
        decreases base@.len() - i,
    {
        let c = copy_value(&base[i].1);
        out.push((base[i].0.clone(), c));
        i = i + 1;
    }
    proof {
        lemma_view_members_ext(out@, base@);
        lemma_view_members(patch@);
        assert(pv.skip(patch@.len() as int) =~= Seq::<(Seq<char>, JValue)>::empty());
    }
    let mut j: usize = patch.len();
    while j > 0
        invariant
            j <= patch@.len(),
            pv == view_members(patch@),
            pv.len() == patch@.len(),
            forall|x: int| 0 <= x < patch@.len() ==> #[trigger] pv[x] == (patch@[x].0@, patch@[x].1.view_rec()),
            forall|k: Seq<char>|
                #[trigger] member_get(view_members(out@), k) == patched_member(bv, pv.skip(j as int), k),
        decreases j,
    {
        let ghost before = view_members(out@);
        let ghost tail = pv.skip(j as int);
        let ghost longer = pv.skip(j - 1);
        j = j - 1;
        let key = patch[j].0.clone();
        let val = copy_value(&patch[j].1);
        set_member(&mut out, key, val);
        proof {
            assert(longer.drop_first() =~= tail);
            assert(longer[0] == pv[j as int]);
            let kj = patch@[j as int].0@;
            let vj = patch@[j as int].1@;
            assert forall|k: Seq<char>| #[trigger] member_get(view_members(out@), k) == patched_member(bv, longer, k) by {
                lemma_member_get_cons(longer, k);
                if k == kj {
                    lemma_member_set_get(before, kj, vj);
                } else {
                    lemma_member_set_other(before, kj, k, vj);
                }
            }
        }
    }
    proof {
        assert(pv.skip(0) =~= pv);
    }
    out
}

/// The value of key `k` in an object value (`None` for other values).
pub open spec fn key_get(v: JValue, k: Seq<char>) -> Option<JValue> {
    match v {
        JValue::Object(m) => member_get(m, k),
        _ => None,
    }
}

/// Element `i` of an array value (`None` for other values or out of range).
pub open spec fn index_get(v: JValue, i: int) -> Option<JValue> {
    match v {
        JValue::Array(s) => if 0 <= i < s.len() {
            Some(s[i])
        } else {
            None
        },
        _ => None,
    }
}

/// Finds the position of key `k` among the members of an object.
pub fn find_member(m: &Vec<(String, Value)>, k: &str) -> (r: Option<usize>)
    ensures
        match r {
            Some(i) => member_index(view_members(m@), k@) == Some(i as int) && i < m@.len(),
            None => member_index(view_members(m@), k@) is None,
        },
{
    proof {
        lemma_view_members(m@);
    }
    let mut i: usize = 0;
    while i < m.len()
        invariant
            i <= m@.len(),
            view_members(m@).len() == m@.len(),
            forall|j: int|
                0 <= j < m@.len() ==> #[trigger] view_members(m@)[j] == (m@[j].0@, m@[j].1.view_rec()),
            forall|j: int| 0 <= j < i ==> view_members(m@)[j].0 != k@,
        decreases m@.len() - i,
    {
        assert(view_members(m@)[i as int].0 == m@[i as int].0@);
        if str_eq(m[i].0.as_str(), k) {
            proof {
                lemma_member_index_unique(view_members(m@), k@, i as int);
            }
            return Some(i);
        }
        i = i + 1;
    }
    proof {
        lemma_member_index_unique(view_members(m@), k@, i as int);
    }
    None
}

/// Borrow the member `k` of an object value.
pub fn get_key<'a>(v: &'a Value, k: &str) -> (r: Option<&'a Value>)
    ensures
        match key_get(v@, k@) {
            Some(x) => r matches Some(y) && y@ == x,
            None => r is None,
        },
{
    match v {
        Value::Object(m) => {
            proof {
                lemma_view_members(m@);
                lemma_member_index(view_members(m@), k@);
            }
            match find_member(m, k) {
                Some(i) => {
                    proof {
                        assert(view_members(m@)[i as int] == (m@[i as int].0@, m@[i as int].1.view_rec()));
                        assert(member_index(view_members(m@), k@) == Some(i as int));
                    }
                    Some(&m[i].1)
                },
                None => None,
            }
        },
        _ => None,
    }
}

/// Borrow element `i` of an array value.
pub fn get_index<'a>(v: &'a Value, i: usize) -> (r: Option<&'a Value>)
    ensures
        match index_get(v@, i as int) {
            Some(x) => r matches Some(y) && y@ == x,
            None => r is None,
        },
{
    match v {
        Value::Array(a) => {
            proof {
                lemma_view_seq(a@);
            }
            if i < a.len() {
                Some(&a[i])
            } else {
                None
            }
        },
        _ => None,
    }
}

/// Position at which a new key goes in an object's member list.
fn find_insert_position(m: &Vec<(String, Value)>, k: &str) -> (r: usize)
    ensures
        r as int == insert_position(view_members(m@), k@),
{
    proof {
        lemma_view_members(m@);
    }
    let kc = chars_of(k);
    let mut i: usize = 0;
    while i < m.len()
        invariant
            i <= m@.len(),
            kc@ == k@,
            view_members(m@).len() == m@.len(),
            forall|j: int|
                0 <= j < m@.len() ==> #[trigger] view_members(m@)[j] == (m@[j].0@, m@[j].1.view_rec()),
            forall|j: int|
                0 <= j < i ==> lex_order(k@, #[trigger] view_members(m@)[j].0) != Ord3::Less,
        decreases m@.len() - i,
    {
        let mc = chars_of(m[i].0.as_str());
        assert(view_members(m@)[i as int].0 == m@[i as int].0@);
        match compare_chars(kc.as_slice(), mc.as_slice()) {
            Ord3::Less => {
                proof {
                    lemma_insert_position_unique(view_members(m@), k@, i as int);
                }
                return i;
            },
            _ => {},
        }
        i = i + 1;
    }
    proof {
        lemma_insert_position_unique(view_members(m@), k@, i as int);
    }
    i
}

/// Sets member `k` of an object's member list to `v`.
pub fn set_member(m: &mut Vec<(String, Value)>, k: String, v: Value)
    ensures
        view_members(final(m)@) == member_set(view_members(old(m)@), k@, v@),
{
    proof {
        lemma_view_members(m@);
    }
    match find_member(m, k.as_str()) {
        Some(i) => {
            let ghost old_m = m@;
            proof {
                lemma_member_index(view_members(old_m), k@);
                assert(member_index(view_members(old_m), k@) == Some(i as int));
            }
            let _old = m.remove(i);
            m.insert(i, (k, v));
            proof {
                lemma_view_members(m@);
                let target = member_set(view_members(old_m), k@, v@);
                assert(m@ =~= old_m.update(i as int, (k, v)));
                assert(view_members(m@) =~= target);
            }
        },
        None => {
            let p = find_insert_position(m, k.as_str());
            proof {
                lemma_insert_position(view_members(m@), k@);
            }
            let ghost old_m = m@;
            m.insert(p, (k, v));
            proof {
                lemma_view_members(m@);
                let target = member_set(view_members(old_m), k@, v@);
                assert(m@ =~= old_m.insert(p as int, (k, v)));
                assert(view_members(m@) =~= target);
            }
        },
    }
}

/// Deep copy of a value.
#[verifier::loop_isolation(false)]
pub fn copy_value(v: &Value) -> (r: Value)
    ensures
        r@ == v@,
    decreases v,
{
    match v {
        Value::Null => Value::Null,
        Value::Bool(b) => Value::Bool(*b),
        Value::Number(n) => Value::Number(*n),
        Value::String(s) => Value::String(s.clone()),
        Value::Array(a) => {
            let mut out: Vec<Value> = Vec::new();
            let mut i: usize = 0;
            while i < a.len()
                invariant
                    i <= a@.len(),
                    out@.len() == i,
                    forall|j: int| 0 <= j < i ==> #[trigger] out@[j].view_rec() == a@[j].view_rec(),
                decreases a@.len() - i,
            {
                proof {
                    assert(decreases_to!(*v => a@[i as int]));
                }
                let c = copy_value(&a[i]);
                out.push(c);
                i = i + 1;
            }
            proof {
                lemma_view_seq_ext(out@, a@);
            }
            Value::Array(out)
        },
        Value::Object(m) => {
            let mut out: Vec<(String, Value)> = Vec::new();
            let mut i: usize = 0;
            while i < m.len()
                invariant
                    i <= m@.len(),
                    out@.len() == i,
                    forall|j: int|
                        #![auto]
                        0 <= j < i ==> out@[j].0@ == m@[j].0@ && out@[j].1.view_rec()
                            == m@[j].1.view_rec(),
                decreases m@.len() - i,
            {
                proof {
                    assert(decreases_to!(*v => m@[i as int].1));
                }
                let c = copy_value(&m[i].1);
                out.push((m[i].0.clone(), c));
                i = i + 1;
            }
            proof {
                lemma_view_members_ext(out@, m@);
            }
            Value::Object(out)
        },
    }
}

impl Clone for Value {
    /// A deep copy.
    fn clone(&self) -> (r: Value)
        ensures
            r@ == self@,
    {
        copy_value(self)
    }
}

/// `serde_json` value equality (numbers compare by kind and value).
#[verifier::loop_isolation(false)]
pub fn values_equal(a: &Value, b: &Value) -> (r: bool)
    ensures
        r == (a@ == b@),
    decreases a,
{
    match (a, b) {
        (Value::Null, Value::Null) => true,
        (Value::Bool(x), Value::Bool(y)) => *x == *y,
        (Value::Number(x), Value::Number(y)) => x.num == y.num && x.den == y.den && x.float
            == y.float,
        (Value::String(x), Value::String(y)) => str_eq(x.as_str(), y.as_str()),
        (Value::Array(x), Value::Array(y)) => {
            proof {
                lemma_view_seq(x@);
                lemma_view_seq(y@);
            }
            if x.len() != y.len() {
                return false;
            }
            let mut i: usize = 0;
            while i < x.len()
                invariant
                    i <= x@.len(),
                    x@.len() == y@.len(),
                    view_seq(x@).len() == x@.len(),
                    view_seq(y@).len() == y@.len(),
                    forall|j: int| 0 <= j < x@.len() ==> #[trigger] view_seq(x@)[j] == x@[j].view_rec(),
                    forall|j: int| 0 <= j < y@.len() ==> #[trigger] view_seq(y@)[j] == y@[j].view_rec(),
                    forall|j: int| 0 <= j < i ==> view_seq(x@)[j] == view_seq(y@)[j],
                decreases x@.len() - i,
            {
                proof {
                    assert(decreases_to!(*a => x@[i as int]));
                }
                if !values_equal(&x[i], &y[i]) {
                    assert(view_seq(x@)[i as int] != view_seq(y@)[i as int]);
                    return false;
                }
                i = i + 1;
            }
            assert(view_seq(x@) =~= view_seq(y@));
            true
        },
        (Value::Object(x), Value::Object(y)) => {
            proof {
                lemma_view_members(x@);
                lemma_view_members(y@);
            }
            if x.len() != y.len() {
                return false;
            }
            let mut i: usize = 0;
            while i < x.len()
                invariant
                    i <= x@.len(),
                    x@.len() == y@.len(),
                    view_members(x@).len() == x@.len(),
                    view_members(y@).len() == y@.len(),
                    forall|j: int|
                        0 <= j < x@.len() ==> #[trigger] view_members(x@)[j] == (x@[j].0@, x@[j].1.view_rec()),
                    forall|j: int|
                        0 <= j < y@.len() ==> #[trigger] view_members(y@)[j] == (y@[j].0@, y@[j].1.view_rec()),
                    forall|j: int| 0 <= j < i ==> view_members(x@)[j] == view_members(y@)[j],
                decreases x@.len() - i,
            {
                proof {
                    assert(decreases_to!(*a => x@[i as int].1));
                }
                if !str_eq(x[i].0.as_str(), y[i].0.as_str()) {
                    assert(view_members(x@)[i as int] != view_members(y@)[i as int]);
                    return false;
                }
                if !values_equal(&x[i].1, &y[i].1) {
                    assert(view_members(x@)[i as int] != view_members(y@)[i as int]);
                    return false;
                }
                i = i + 1;
            }
            assert(view_members(x@) =~= view_members(y@));
            true
        },
        _ => false,
    }
}

/// Lower-case hexadecimal digit.
pub open spec fn hex_digit(d: int) -> char {
    if d < 10 {
        crate::text::digit_char(d)
    } else if d == 10 {
        'a'
    } else if d == 11 {
        'b'
    } else if d == 12 {
        'c'
    } else if d == 13 {
        'd'
    } else if d == 14 {
        'e'
    } else {
        'f'
    }
}

/// How one character is written inside a JSON string literal.
pub open spec fn escape_char(c: char) -> Seq<char> {
    let u = c as u32;
    if c == '"' {
        seq!['\\', '"']
    } else if c == '\\' {
        seq!['\\', '\\']
    } else if u == 8 {
        seq!['\\', 'b']
    } else if u == 12 {
        seq!['\\', 'f']
    } else if u == 10 {
        seq!['\\', 'n']
    } else if u == 13 {
        seq!['\\', 'r']
    } else if u == 9 {
        seq!['\\', 't']
    } else if u < 32 {
        seq!['\\', 'u', '0', '0', hex_digit((u / 16) as int), hex_digit((u % 16) as int)]
    } else {
        seq![c]
    }
}

/// Escaped body of a JSON string literal.
pub open spec fn escape_text(s: Seq<char>) -> Seq<char>
    decreases s.len(),
{
    if s.len() == 0 {
        Seq::empty()
    } else {
        escape_text(s.drop_last()) + escape_char(s.last())
    }
}

/// A JSON string literal.
pub open spec fn quoted(s: Seq<char>) -> Seq<char> {
    seq!['"'] + escape_text(s) + seq!['"']
}

/// Compact JSON text of a value (the `Display` of a JSON value).
pub open spec fn json_text(v: JValue) -> Seq<char>
    decreases v,
{
    match v {
        JValue::Null => seq!['n', 'u', 'l', 'l'],
        JValue::Bool(b) => if b {
            seq!['t', 'r', 'u', 'e']
        } else {
            seq!['f', 'a', 'l', 's', 'e']
        },
        JValue::Number(n) => number_text(n),
        JValue::Str(s) => quoted(s),
        JValue::Array(s) => seq!['['] + items_text(s) + seq![']'],
        JValue::Object(m) => seq!['{'] + members_text(m) + seq!['}'],
    }
}

/// Comma-separated texts of array elements.
pub open spec fn items_text(s: Seq<JValue>) -> Seq<char>
    decreases s,
{
    if s.len() == 0 {
        Seq::empty()
    } else if s.len() == 1 {
        json_text(s[0])
    } else {
        items_text(s.drop_last()) + seq![','] + json_text(s.last())
    }
}

/// Comma-separated `"key":value` texts of object members.
pub open spec fn members_text(m: Seq<(Seq<char>, JValue)>) -> Seq<char>
    decreases m,
{
    if m.len() == 0 {
        Seq::empty()
    } else if m.len() == 1 {
        quoted(m[0].0) + seq![':'] + json_text(m[0].1)
    } else {
        members_text(m.drop_last()) + seq![','] + quoted(m.last().0) + seq![':'] + json_text(
            m.last().1,
        )
    }
}

fn hex_char(d: u32) -> (c: char)
    requires
        d < 16,
    ensures
        c == hex_digit(d as int),
{
    if d < 10 {
        crate::text::digit_to_char(d as u8)
    } else if d == 10 {
        'a'
    } else if d == 11 {
        'b'
    } else if d == 12 {
        'c'
    } else if d == 13 {
        'd'
    } else if d == 14 {
        'e'
    } else {
        'f'
    }
}

fn push_escaped_char(out: &mut String, c: char)
    ensures
        final(out)@ == old(out)@ + escape_char(c),
{
    let u = c as u32;
    if c == '"' {
        push_char(out, '\\');
        push_char(out, '"');
    } else if c == '\\' {
        push_char(out, '\\');
        push_char(out, '\\');
    } else if u == 8 {
        push_char(out, '\\');
        push_char(out, 'b');
    } else if u == 12 {
        push_char(out, '\\');
        push_char(out, 'f');
    } else if u == 10 {
        push_char(out, '\\');
        push_char(out, 'n');
    } else if u == 13 {
        push_char(out, '\\');
        push_char(out, 'r');
    } else if u == 9 {
        push_char(out, '\\');
        push_char(out, 't');
    } else if u < 32 {
        push_char(out, '\\');
        push_char(out, 'u');
        push_char(out, '0');
        push_char(out, '0');
        push_char(out, hex_char(u / 16));
        push_char(out, hex_char(u % 16));
    } else {
        push_char(out, c);
    }
    assert(final(out)@ =~= old(out)@ + escape_char(c)) by {
        assert(out@ =~= old(out)@ + escape_char(c));
    }
}

/// Appends a JSON string literal.
pub fn push_quoted(out: &mut String, s: &str)
    ensures
        final(out)@ == old(out)@ + quoted(s@),
{
    let cs = chars_of(s);
    let ghost start = out@;
    push_char(out, '"');
    let mut i: usize = 0;
    while i < cs.len()
        invariant
            cs@ == s@,
            i <= cs@.len(),
            out@ == start.push('"') + escape_text(cs@.take(i as int)),
        decreases cs@.len() - i,
    {
        push_escaped_char(out, cs[i]);
        proof {
            let t = cs@.take(i + 1);
            assert(t.drop_last() =~= cs@.take(i as int));
            assert(t.last() == cs@[i as int]);
        }
        i = i + 1;
    }
    push_char(out, '"');
    proof {
        assert(cs@.take(cs@.len() as int) =~= s@);
        assert(out@ =~= start + quoted(s@));
    }
}

/// Appends the compact JSON text of a value.
#[verifier::loop_isolation(false)]
pub fn push_json(out: &mut String, v: &Value)
    ensures
        final(out)@ == old(out)@ + json_text(v@),
    decreases v,
{
    match v {
        Value::Null => {
            push_str(out, "null");
            proof {
                reveal_strlit("null");
            }
            assert(out@ =~= old(out)@ + json_text(v@));
        },
        Value::Bool(b) => {
            if *b {
                push_str(out, "true");
                proof {
                    reveal_strlit("true");
                }
            } else {
                push_str(out, "false");
                proof {
                    reveal_strlit("false");
                }
            }
            assert(out@ =~= old(out)@ + json_text(v@));
        },
        Value::Number(n) => {
            push_number(out, n);
        },
        Value::String(s) => {
            push_quoted(out, s.as_str());
        },
        Value::Array(a) => {
            proof {
                lemma_view_seq(a@);
            }
            let ghost start = out@;
            push_char(out, '[');
            let mut i: usize = 0;
            while i < a.len()
                invariant
                    i <= a@.len(),
                    view_seq(a@).len() == a@.len(),
                    forall|j: int| 0 <= j < a@.len() ==> view_seq(a@)[j] == a@[j].view_rec(),
                    out@ == start.push('[') + items_text(view_seq(a@).take(i as int)),
                decreases a@.len() - i,
            {
                let ghost before = out@;
                if i > 0 {
                    push_char(out, ',');
                }
                push_json(out, &a[i]);
                proof {
                    let t = view_seq(a@).take(i + 1);
                    assert(t.drop_last() =~= view_seq(a@).take(i as int));
                    assert(t.last() == a@[i as int]@);
                    if i == 0 {
                        assert(t.len() == 1);
                        assert(out@ =~= start.push('[') + items_text(t));
                    } else {
                        assert(out@ =~= start.push('[') + items_text(t));
                    }
                }
                i = i + 1;
            }
            push_char(out, ']');
            proof {
                assert(view_seq(a@).take(a@.len() as int) =~= view_seq(a@));
                assert(out@ =~= start + json_text(v@));
            }
        },
        Value::Object(m) => {
            proof {
                lemma_view_members(m@);
            }
            let ghost start = out@;
            push_char(out, '{');
            let mut i: usize = 0;
            while i < m.len()
                invariant
                    i <= m@.len(),
                    view_members(m@).len() == m@.len(),
                    forall|j: int|
                        0 <= j < m@.len() ==> view_members(m@)[j] == (m@[j].0@, m@[j].1.view_rec()),
                    out@ == start.push('{') + members_text(view_members(m@).take(i as int)),
                decreases m@.len() - i,
            {
                if i > 0 {
                    push_char(out, ',');
                }
                push_quoted(out, m[i].0.as_str());
                push_char(out, ':');
                push_json(out, &m[i].1);
                proof {
                    let t = view_members(m@).take(i + 1);
                    assert(t.drop_last() =~= view_members(m@).take(i as int));
                    assert(t.last() == (m@[i as int].0@, m@[i as int].1@));
                    assert(out@ =~= start.push('{') + members_text(t));
                }
                i = i + 1;
            }
            push_char(out, '}');
            proof {
                assert(view_members(m@).take(m@.len() as int) =~= view_members(m@));
                assert(out@ =~= start + json_text(v@));
            }
        },
    }
}

/// Compact JSON text of a value.
pub fn to_json_string(v: &Value) -> (r: String)
    ensures
        r@ == json_text(v@),
{
    let mut out = String::new();
    push_json(&mut out, v);
    assert(out@ =~= json_text(v@));
    out
}

} // verus!
