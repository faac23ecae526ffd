//! Field paths into JSON contexts.
//!
//! A path is written in dot notation with optional array indexing, such as
//! `applicant.credit_score` or `order.items[0].price`. Resolution never
//! fails: a step that finds nothing gives `null`, and so does every step
//! after it.
use vstd::prelude::*;
use crate::json::{Value, JValue, key_get, index_get, get_key, get_index, copy_value};
use crate::text::{
    chars_of, find_char_from, first_index_of, lemma_first_index_of, lemma_first_index_unique, split_chars, split_char,
    slice_to_vec_range, string_from_chars, is_digit, digit_value,
};

verus! {

/// One step of a path: an object key or an array index.
#[derive(Debug)]
pub enum Segment {
    Key(String),
    Index(usize),
}

/// The view of a path step.
pub enum SegmentView {
    Key(Seq<char>),
    Index(int),
}

impl View for Segment {
    type V = SegmentView;

    open spec fn view(&self) -> SegmentView {
        match self {
            Segment::Key(k) => SegmentView::Key(k@),
            Segment::Index(i) => SegmentView::Index(*i as int),
        }
    }
}

/// Views of a list of steps.
pub open spec fn segment_views(s: Seq<Segment>) -> Seq<SegmentView> {
    s.map_values(|x: Segment| x@)
}

/// Value of a string of decimal digits.
pub open spec fn digits_value(d: Seq<char>) -> nat
    decreases d.len(),
{
    if d.len() == 0 {
        0
    } else {
        digits_value(d.drop_last()) * 10 + digit_value(d.last()) as nat
    }
}

pub open spec fn all_digits(d: Seq<char>) -> bool {
    forall|i: int| 0 <= i < d.len() ==> is_digit(#[trigger] d[i])
}

/// The text between brackets read as an index, as `usize` parsing does
/// (an optional `+`, then at least one digit, within range); text that is
/// not such a number reads as 0.
pub open spec fn parse_index(s: Seq<char>) -> int {
    let d = if s.len() > 0 && s[0] == '+' {
        s.drop_first()
    } else {
        s
    };
    if d.len() > 0 && all_digits(d) && digits_value(d) <= usize::MAX {
        digits_value(d) as int
    } else {
        0
    }
}

/// A non-empty piece of text as a key step.
pub open spec fn key_step(k: Seq<char>) -> Seq<SegmentView> {
    if k.len() > 0 {
        seq![SegmentView::Key(k)]
    } else {
        Seq::empty()
    }
}

/// Steps of one dot-separated part: keys, each possibly followed by
/// bracketed indices. An opening bracket without a closing one ends the
/// part; the text after it is then a key.
pub open spec fn part_segments(r: Seq<char>) -> Seq<SegmentView>
    decreases r.len(),
{
    match first_index_of(r, '[') {
        None => key_step(r),
        Some(b) => {
            if 0 <= b < r.len() {
                let rest = r.skip(b + 1);
                match first_index_of(rest, ']') {
                    None => key_step(r.take(b)) + key_step(rest),
                    Some(c) => {
                        if 0 <= c < rest.len() {
                            key_step(r.take(b)) + seq![SegmentView::Index(parse_index(rest.take(c)))]
                                + part_segments(rest.skip(c + 1))
                        } else {
                            Seq::empty()
                        }
                    },
                }
            } else {
                Seq::empty()
            }
        },
    }
}

/// Steps of a list of parts, in order.
pub open spec fn parts_segments(parts: Seq<Seq<char>>) -> Seq<SegmentView>
    decreases parts.len(),
{
    if parts.len() == 0 {
        Seq::empty()
    } else {
        parts_segments(parts.drop_last()) + part_segments(parts.last())
    }
}

/// Steps of a whole path.
pub open spec fn path_segments(p: Seq<char>) -> Seq<SegmentView> {
    parts_segments(split_char(p, '.'))
}

/// One step from a value (`null` when there is nothing there).
pub open spec fn step_value(v: JValue, s: SegmentView) -> JValue {
    match s {
        SegmentView::Key(k) => match key_get(v, k) {
            Some(x) => x,
            None => JValue::Null,
        },
        SegmentView::Index(i) => match index_get(v, i) {
            Some(x) => x,
            None => JValue::Null,
        },
    }
}

/// The value reached by following steps from `v`.
pub open spec fn resolve_segments(v: JValue, s: Seq<SegmentView>) -> JValue
    decreases s.len(),
{
    if s.len() == 0 {
        v
    } else {
        resolve_segments(step_value(v, s[0]), s.drop_first())
    }
}

/// The value at `path` in `v`.
pub open spec fn resolve(v: JValue, path: Seq<char>) -> JValue {
    resolve_segments(v, path_segments(path))
}

pub proof fn lemma_resolve_null(s: Seq<SegmentView>)
    ensures
        resolve_segments(JValue::Null, s) == JValue::Null,
    decreases s.len(),
{
    if s.len() > 0 {
        lemma_resolve_null(s.drop_first());
    }
}

pub proof fn lemma_digits_value_push(d: Seq<char>, c: char)
    ensures
        digits_value(d.push(c)) == digits_value(d) * 10 + (digit_value(c) as nat),
{
    assert(d.push(c).drop_last() =~= d);
}

pub proof fn lemma_digits_value_mono(d: Seq<char>, i: int)
    requires
        0 <= i <= d.len(),
        all_digits(d),
    ensures
        digits_value(d.take(i)) <= digits_value(d),
    decreases d.len() - i,
{
    if i < d.len() {
        lemma_digits_value_mono(d, i + 1);
        assert(d.take(i + 1).drop_last() =~= d.take(i));
        assert(d.take(i + 1).last() == d[i]);
        assert(is_digit(d[i]));
    } else {
        assert(d.take(i) =~= d);
    }
}

/// Reads bracketed text as an index (see `parse_index`).
pub fn parse_index_chars(s: &[char]) -> (r: usize)
    ensures
        r as int == parse_index(s@),
{
    let n = s.len();
    let mut start: usize = 0;
    if n > 0 && s[0] == '+' {
        start = 1;
    }
    let ghost d = if s@.len() > 0 && s@[0] == '+' {
        s@.drop_first()
    } else {
        s@
    };
    assert(d =~= s@.skip(start as int));
    if start >= n {
        return 0;
    }
    let mut acc: usize = 0;
    let mut i: usize = start;
    assert(parse_index(s@) == (if d.len() > 0 && all_digits(d) && digits_value(d) <= usize::MAX {
        digits_value(d) as int
    } else {
        0
    }));
    while i < n
        invariant
            n == s@.len(),
            parse_index(s@) == (if d.len() > 0 && all_digits(d) && digits_value(d) <= usize::MAX {
                digits_value(d) as int
            } else {
                0
            }),
            start <= i <= n,
            start < n,
            d == s@.skip(start as int),
            forall|k: int| 0 <= k < i - start ==> is_digit(#[trigger] d[k]),
            acc as int == digits_value(d.take(i - start)),
        decreases n - i,
    {
        let c = s[i];
        let cu: u32 = c as u32;
        if !(('0' as u32) <= cu && cu <= ('9' as u32)) {
            proof {
                assert(d[i - start] == c);
                assert(!is_digit(d[i - start]));
            }
            return 0;
        }
        let dv = (cu - ('0' as u32)) as usize;
        proof {
            assert(d[i - start] == c);
            assert(d.take(i - start + 1) =~= d.take(i - start).push(c));
            lemma_digits_value_push(d.take(i - start), c);
        }
        match acc.checked_mul(10) {
            Some(m) => match m.checked_add(dv) {
                Some(x) => {
                    acc = x;
                },
                None => {
                    proof {
                        if all_digits(d) {
                            lemma_digits_value_mono(d, i - start + 1);
                        }
                    }
                    return 0;
                },
            },
            None => {
                proof {
                    if all_digits(d) {
                        lemma_digits_value_mono(d, i - start + 1);
                    }
                }
                return 0;
            },
        }
        i = i + 1;
    }
    proof {
        assert(d.take(i - start) =~= d);
    }
    acc
}

proof fn lemma_skip_skip(s: Seq<char>, a: int, b: int)
    requires
        0 <= a <= s.len(),
        0 <= b <= s.len() - a,
    ensures
        s.skip(a).skip(b) == s.skip(a + b),
{
    assert(s.skip(a).skip(b) =~= s.skip(a + b));
}

fn push_key(out: &mut Vec<Segment>, part: &[char], from: usize, to: usize)
    requires
        from <= to <= part@.len(),
    ensures
        segment_views(final(out)@) == segment_views(old(out)@) + key_step(
            part@.subrange(from as int, to as int),
        ),
{
    if from < to {
        let cs = slice_to_vec_range(part, from, to);
        let k = string_from_chars(cs.as_slice());
        out.push(Segment::Key(k));
        assert(segment_views(out@) =~= segment_views(old(out)@) + key_step(
            part@.subrange(from as int, to as int),
        ));
    } else {
        assert(segment_views(out@) =~= segment_views(old(out)@) + key_step(
            part@.subrange(from as int, to as int),
        ));
    }
}

/// Appends the steps of one dot-separated part.
fn push_part_segments(out: &mut Vec<Segment>, part: &[char])
    ensures
        segment_views(final(out)@) == segment_views(old(out)@) + part_segments(part@),
{
    let n = part.len();
    let mut pos: usize = 0;
    assert(part@.skip(0) =~= part@);
    loop
        invariant
            n == part@.len(),
            pos <= n,
            segment_views(out@) + part_segments(part@.skip(pos as int)) == segment_views(
                old(out)@,
            ) + part_segments(part@),
        decreases n - pos,
    {
        let ghost r = part@.skip(pos as int);
        let ghost before = segment_views(out@);
        proof {
            lemma_first_index_of(r, '[');
        }
        match find_char_from(part, '[', pos) {
            None => {
                push_key(out, part, pos, n);
                proof {
                    assert(part@.subrange(pos as int, n as int) =~= r);
                    assert(segment_views(out@) + Seq::<SegmentView>::empty() =~= segment_views(
                        out@,
                    ));
                }
                return;
            },
            Some(b) => {
                let ghost bb: int = b - pos;
                assert(first_index_of(r, '[') == Some(bb));
                assert(0 <= bb < r.len());
                proof {
                    lemma_skip_skip(part@, pos as int, bb + 1);
                    lemma_first_index_of(part@.skip(b + 1), ']');
                    assert(r.take(bb) =~= part@.subrange(pos as int, b as int));
                }
                push_key(out, part, pos, b);
                match find_char_from(part, ']', b + 1) {
                    None => {
                        push_key(out, part, b + 1, n);
                        proof {
                            assert(part@.subrange(b + 1, n as int) =~= part@.skip(b + 1));
                            assert(segment_views(out@) =~= before + part_segments(r));
                            assert(part@.skip(n as int) =~= Seq::<char>::empty());
                            assert(part_segments(part@.skip(n as int)) =~= Seq::<SegmentView>::empty());
                            assert(segment_views(out@) + part_segments(part@.skip(n as int))
                                =~= segment_views(out@));
                        }
                        return;
                    },
                    Some(c) => {
                        let ghost rest = part@.skip(b + 1);
                        let ghost cc: int = c - (b + 1);
                        assert(first_index_of(rest, ']') == Some(cc));
                        let inner = slice_to_vec_range(part, b + 1, c);
                        let idx = parse_index_chars(inner.as_slice());
                        let ghost mid = segment_views(out@);
                        out.push(Segment::Index(idx));
                        proof {
                            assert(inner@ =~= rest.take(cc));
                            lemma_skip_skip(part@, b + 1, cc + 1);
                            assert(segment_views(out@) =~= mid.push(
                                SegmentView::Index(parse_index(rest.take(cc))),
                            ));
                            assert(part_segments(r) == key_step(r.take(bb)) + seq![
                                SegmentView::Index(parse_index(rest.take(cc))),
                            ] + part_segments(rest.skip(cc + 1)));
                            assert(segment_views(out@) + part_segments(part@.skip(c + 1))
                                =~= before + part_segments(r));
                        }
                        pos = c + 1;
                    },
                }
            },
        }
    }
}

proof fn lemma_parts_segments_push(parts: Seq<Seq<char>>, p: Seq<char>)
    ensures
        parts_segments(parts.push(p)) == parts_segments(parts) + part_segments(p),
{
    assert(parts.push(p).drop_last() =~= parts);
}

/// Splits a path into its steps.
pub fn split_path(path: &str) -> (r: Vec<Segment>)
    ensures
        segment_views(r@) == path_segments(path@),
{
    let cs = chars_of(path);
    let parts = split_chars(cs.as_slice(), '.');
    let mut out: Vec<Segment> = Vec::new();
    let mut i: usize = 0;
    assert(segment_views(out@) =~= parts_segments(split_char(cs@, '.').take(0)));
    while i < parts.len()
        invariant
            i <= parts@.len(),
            cs@ == path@,
            parts@.len() == split_char(cs@, '.').len(),
            forall|j: int| 0 <= j < parts@.len() ==> #[trigger] parts@[j]@ == split_char(cs@, '.')[j],
            segment_views(out@) == parts_segments(split_char(cs@, '.').take(i as int)),
        decreases parts@.len() - i,
    {
        push_part_segments(&mut out, parts[i].as_slice());
        proof {
            let ps = split_char(cs@, '.');
            assert(ps.take(i + 1) =~= ps.take(i as int).push(ps[i as int]));
            lemma_parts_segments_push(ps.take(i as int), ps[i as int]);
        }
        i = i + 1;
    }
    proof {
        assert(split_char(cs@, '.').take(i as int) =~= split_char(cs@, '.'));
    }
    out
}

/// One step from a value.
pub fn step<'a>(node: &'a Value, segment: &Segment) -> (r: &'a Value)
    ensures
        r@ == step_value(node@, segment@),
{
    match segment {
        Segment::Key(k) => match get_key(node, k.as_str()) {
            Some(x) => x,
            None => &Value::Null,
        },
        Segment::Index(i) => match get_index(node, *i) {
            Some(x) => x,
            None => &Value::Null,
        },
    }
}

/// Walks a dot-notation path (with optional array indexing) into a value;
/// a missing path gives `null`.
pub fn resolve_path<'a>(context: &'a Value, path: &str) -> (r: &'a Value)
    ensures
        r@ == resolve(context@, path@),
{
    let segs = split_path(path);
    let ghost sv = segment_views(segs@);
    let mut current = context;
    let mut i: usize = 0;
    assert(sv.skip(0) =~= sv);
    while i < segs.len()
        invariant
            i <= segs@.len(),
            sv == segment_views(segs@),
            sv.len() == segs@.len(),
            resolve_segments(current@, sv.skip(i as int)) == resolve(context@, path@),
        decreases segs@.len() - i,
    {
        proof {
            assert(sv.skip(i as int)[0] == segs@[i as int]@);
            assert(sv.skip(i as int).drop_first() =~= sv.skip(i + 1));
        }
        current = step(current, &segs[i]);
        if let Value::Null = current {
            proof {
                lemma_resolve_null(sv.skip(i + 1));
            }
            return current;
        }
        i = i + 1;
    }
    proof {
        assert(sv.skip(i as int).len() == 0);
    }
    current
}

/// The value at a path, copied.
pub fn resolve_owned(context: &Value, path: &str) -> (r: Value)
    ensures
        r@ == resolve(context@, path@),
{
    copy_value(resolve_path(context, path))
}


// ---------------------------------------------------------------------------
// Laws of path steps
// ---------------------------------------------------------------------------

/// An index step `[i]` on an array takes element `i` counted from the
/// start (the first element is `[0]`); out of range, or on anything but an
/// array, it gives `null`, as does every step after it.
pub proof fn law_index_step(v: JValue, i: int, rest: Seq<SegmentView>)
    ensures
        resolve_segments(v, seq![SegmentView::Index(i)] + rest) == match v {
            JValue::Array(a) => if 0 <= i < a.len() {
                resolve_segments(a[i], rest)
            } else {
                JValue::Null
            },
            _ => JValue::Null,
        },
{
    let s = seq![SegmentView::Index(i)] + rest;
    assert(s[0] == SegmentView::Index(i));
    assert(s.drop_first() =~= rest);
    lemma_resolve_null(rest);
}

/// A key step `k` on an object takes the value of its first member with key
/// `k`; without such a member, or on anything but an object, it gives
/// `null`, as does every step after it.
pub proof fn law_key_step(v: JValue, k: Seq<char>, rest: Seq<SegmentView>)
    ensures
        v matches JValue::Object(m) ==> forall|j: int|
            0 <= j < m.len() && m[j].0 == k && (forall|x: int| 0 <= x < j ==> m[x].0 != k) ==> resolve_segments(
                v,
                #[trigger] (seq![SegmentView::Key(k)] + rest),
            ) == resolve_segments(m[j].1, rest),
        (v matches JValue::Object(m) ==> forall|j: int| 0 <= j < m.len() ==> m[j].0 != k) ==> resolve_segments(
            v,
            seq![SegmentView::Key(k)] + rest,
        ) == JValue::Null,
{
    let s = seq![SegmentView::Key(k)] + rest;
    assert(s[0] == SegmentView::Key(k));
    assert(s.drop_first() =~= rest);
    lemma_resolve_null(rest);
    if let JValue::Object(m) = v {
        crate::json::lemma_member_index(m, k);
        assert forall|j: int|
            0 <= j < m.len() && m[j].0 == k && (forall|x: int| 0 <= x < j ==> m[x].0 != k) implies resolve_segments(
                v,
                #[trigger] (seq![SegmentView::Key(k)] + rest),
            ) == resolve_segments(m[j].1, rest) by {
            let f = crate::json::member_index(m, k);
            assert(f is Some);
            let fi = f->0;
            if fi < j {
                assert(m[fi].0 != k);
            }
            if j < fi {
                assert(m[j].0 != k);
            }
        }
    }
}

/// A part written `k[d]`, with `k` a key without `[` and `d` decimal digits
/// within range, is the key step `k` followed by the index step of the
/// number `d` spells.
pub proof fn law_indexed_part(k: Seq<char>, d: Seq<char>)
    requires
        k.len() > 0,
        forall|x: int| 0 <= x < k.len() ==> k[x] != '[',
        d.len() > 0,
        all_digits(d),
        digits_value(d) <= usize::MAX,
    ensures
        part_segments(k + seq!['['] + d + seq![']']) == seq![
            SegmentView::Key(k),
            SegmentView::Index(digits_value(d) as int),
        ],
{
    let r = k + seq!['['] + d + seq![']'];
    assert forall|x: int| 0 <= x < k.len() implies r[x] != '[' by {
        assert(r[x] == k[x]);
    }
    assert(r[k.len() as int] == '[');
    lemma_first_index_unique(r, '[', k.len() as int);
    let b = k.len() as int;
    let rest = r.skip(b + 1);
    assert(rest =~= d + seq![']']);
    assert forall|x: int| 0 <= x < d.len() implies rest[x] != ']' by {
        assert(rest[x] == d[x]);
        assert(is_digit(d[x]));
    }
    assert(rest[d.len() as int] == ']');
    lemma_first_index_unique(rest, ']', d.len() as int);
    let c = d.len() as int;
    assert(rest.take(c) =~= d);
    assert(r.take(b) =~= k);
    assert(rest.skip(c + 1) =~= Seq::<char>::empty());
    assert(first_index_of(Seq::<char>::empty(), '[') is None);
    assert(part_segments(Seq::<char>::empty()) =~= Seq::<SegmentView>::empty());
    assert(d[0] != '+') by {
        assert(is_digit(d[0]));
    }
    assert(parse_index(d) == digits_value(d) as int);
    assert(key_step(k) =~= seq![SegmentView::Key(k)]);
    assert(key_step(k) + seq![SegmentView::Index(parse_index(d))] + Seq::<SegmentView>::empty() =~= seq![
        SegmentView::Key(k),
        SegmentView::Index(digits_value(d) as int),
    ]);
}

} // verus!
