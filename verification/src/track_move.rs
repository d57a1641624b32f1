//! Keyframing a layer's move track: a drag at a breath adds an offset,
//! either to the keyframe the breath starts, or as a new keyframe at that
//! breath carved out of the block covering it.

use vstd::prelude::*;
use crate::json::{JsonValue, JsonNumber, JsonMembers, get_spec, as_i64_spec, as_i64};
use crate::track::{
    SharedDocumentPropertyBlock, min1, block_reach, max_reach, lengths_positive, ids_distinct,
    next_property_block_id, is_next_block_id, lemma_next_id_fresh, lemma_max_reach_bounds,
};
use crate::track_ops::with_timing;
use crate::layers_panel::{first_where, lemma_first_where, lemma_first_where_none};
use crate::text::owned;

verus! {

/// A render offset in cells along each axis.
#[derive(Debug, Clone, Copy, PartialEq, Eq, Structural)]
pub struct MoveOffset {
    pub x: i32,
    pub y: i32,
    pub z: i32,
}

/// The zero offset.
pub open spec fn zero_offset() -> MoveOffset {
    MoveOffset { x: 0, y: 0, z: 0 }
}

/// The sum of two offsets fits each axis.
pub open spec fn sum_fits(a: MoveOffset, b: MoveOffset) -> bool {
    &&& i32::MIN <= a.x + b.x <= i32::MAX
    &&& i32::MIN <= a.y + b.y <= i32::MAX
    &&& i32::MIN <= a.z + b.z <= i32::MAX
}

/// The sum of two offsets.
pub open spec fn offset_sum(a: MoveOffset, b: MoveOffset) -> MoveOffset {
    MoveOffset { x: (a.x + b.x) as i32, y: (a.y + b.y) as i32, z: (a.z + b.z) as i32 }
}

/// One axis of a stored offset: an integer member, truncated to `i32`.
pub open spec fn axis_spec(v: JsonValue, key: Seq<char>) -> Option<i32> {
    match as_i64_spec(get_spec(v, key)) {
        Some(n) => Some(n as i32),
        None => None,
    }
}

/// The offset a move value stores: an object with integer `x`, `y`, `z`.
pub open spec fn parse_offset_spec(v: JsonValue) -> Option<MoveOffset> {
    match (axis_spec(v, "x"@), axis_spec(v, "y"@), axis_spec(v, "z"@)) {
        (Some(x), Some(y), Some(z)) => Some(MoveOffset { x, y, z }),
        _ => None,
    }
}

/// The offset a block's payload stores, if any.
pub open spec fn stored_offset(b: SharedDocumentPropertyBlock) -> Option<MoveOffset> {
    match b.value {
        Some(v) => parse_offset_spec(v),
        None => None,
    }
}

/// The JSON number of an axis value.
pub open spec fn axis_number(n: i32) -> JsonValue {
    if n >= 0 { JsonValue::Number(JsonNumber::PosInt(n as u64)) } else { JsonValue::Number(JsonNumber::NegInt(n as i64)) }
}

/// `v` is the object `{"x": .., "y": .., "z": ..}` of the offset, in that order.
pub open spec fn is_offset_json(v: JsonValue, o: MoveOffset) -> bool {
    &&& v matches JsonValue::Object(JsonMembers::Cons(kx, vx, r1))
    &&& kx@ == "x"@ && *vx == axis_number(o.x)
    &&& *r1 matches JsonMembers::Cons(ky, vy, r2)
    &&& ky@ == "y"@ && *vy == axis_number(o.y)
    &&& *r2 matches JsonMembers::Cons(kz, vz, r3)
    &&& kz@ == "z"@ && *vz == axis_number(o.z)
    &&& *r3 == JsonMembers::Nil
}

/// The block holds the breath (a length of zero counts as one breath).
pub open spec fn in_span(breath: u32) -> spec_fn(SharedDocumentPropertyBlock) -> bool {
    |b: SharedDocumentPropertyBlock| b.start_breath <= breath < b.start_breath + min1(b.length_breaths)
}

/// The offset in force at the breath before the drag: a solid holds its
/// stored value, an empty holds what the move interpolation resolved.
pub open spec fn current_offset(bs: Seq<SharedDocumentPropertyBlock>, breath: u32, resolved: MoveOffset) -> MoveOffset {
    match first_where(bs, in_span(breath)) {
        Some(i) => if bs[i].is_blank {
            resolved
        } else {
            match stored_offset(bs[i]) {
                Some(o) => o,
                None => zero_offset(),
            }
        },
        None => zero_offset(),
    }
}

/// Breaths kept by a solid keyframe split at `left` breaths in: an empty
/// of about half the left part opens before the new keyframe, keeping at
/// least one breath of the old one.
pub open spec fn kept_left(left: int) -> int {
    if left >= 2 {
        let half = if left / 2 >= 1 { left / 2 } else { 1 };
        let empty = if half <= left - 1 { half } else { left - 1 };
        left - empty
    } else {
        left
    }
}

/// A fresh solid keyframe.
pub open spec fn keyframe(id: String, start: u32, length: u32, value: JsonValue) -> SharedDocumentPropertyBlock {
    SharedDocumentPropertyBlock {
        id,
        start_breath: start,
        length_breaths: length,
        is_blank: false,
        value: Some(value),
        interpretation: None,
        ease_out_percent: None,
        ease_in_percent: None,
    }
}

/// What a drag at `breath` by `delta` does to a move track's blocks,
/// before the re-tile:
/// - at a solid keyframe's own start, or on a solid without a stored
///   offset, the offset lands in place;
/// - strictly inside a solid with an offset, the solid keeps its left part
///   (less the empty carved at its end) and a new keyframe starts at the
///   breath;
/// - strictly inside an empty, the empty keeps its left part and a new
///   keyframe starts at the breath;
/// - past the trailing empty, a one-breath keyframe lands at the breath;
/// - with no block at all there, a keyframe spans the layer.
/// A new keyframe takes the track's next free id.
pub open spec fn move_keyed(
    out: Seq<SharedDocumentPropertyBlock>,
    bs: Seq<SharedDocumentPropertyBlock>,
    breath: u32,
    delta: MoveOffset,
    resolved: MoveOffset,
    span_start: u32,
    span_length: u32,
) -> bool {
    let next = offset_sum(current_offset(bs, breath, resolved), delta);
    match first_where(bs, in_span(breath)) {
        Some(i) => {
            let b = bs[i];
            let strictly = breath > b.start_breath && breath < b.start_breath + min1(b.length_breaths);
            let splits = if b.is_blank { strictly } else { stored_offset(b) is Some && strictly };
            if !splits {
                exists|v: JsonValue| #[trigger] is_offset_json(v, next)
                    && out == bs.update(i, SharedDocumentPropertyBlock { value: Some(v), is_blank: false, ..b })
            } else {
                let left = breath - b.start_breath;
                let keep = if b.is_blank { left } else { kept_left(left) };
                exists|id: String, v: JsonValue| #[trigger] is_offset_json(v, next) && #[trigger] is_next_block_id(bs, id@)
                    && (forall|k: int| 0 <= k < bs.len() ==> (#[trigger] bs[k]).id@ != id@)
                    && out == bs.update(i, with_timing(b, b.start_breath, keep as u32)).insert(
                        i + 1, keyframe(id, breath, (b.start_breath + b.length_breaths - breath) as u32, v))
            }
        },
        None => {
            let past = bs.len() > 0 && bs.last().is_blank && breath >= bs.last().start_breath;
            if past {
                exists|id: String, v: JsonValue| #[trigger] is_offset_json(v, offset_sum(resolved, delta)) && #[trigger] is_next_block_id(bs, id@)
                    && (forall|k: int| 0 <= k < bs.len() ==> (#[trigger] bs[k]).id@ != id@)
                    && out == bs.push(keyframe(id, breath, 1, v))
            } else {
                exists|id: String, v: JsonValue| #[trigger] is_offset_json(v, next) && #[trigger] is_next_block_id(bs, id@)
                    && (forall|k: int| 0 <= k < bs.len() ==> (#[trigger] bs[k]).id@ != id@)
                    && out == bs.push(keyframe(id, span_start, if span_length == 0 { 1 } else { span_length }, v))
            }
        },
    }
}

fn axis_number_of(n: i32) -> (v: JsonValue)
    ensures
        v == axis_number(n),
{
    if n >= 0 { JsonValue::Number(JsonNumber::PosInt(n as u64)) } else { JsonValue::Number(JsonNumber::NegInt(n as i64)) }
}

/// The stored form of an offset.
pub fn offset_json(o: MoveOffset) -> (v: JsonValue)
    ensures
        is_offset_json(v, o),
{
    let z = JsonMembers::Cons(owned("z"), Box::new(axis_number_of(o.z)), Box::new(JsonMembers::Nil));
    let y = JsonMembers::Cons(owned("y"), Box::new(axis_number_of(o.y)), Box::new(z));
    JsonValue::Object(JsonMembers::Cons(owned("x"), Box::new(axis_number_of(o.x)), Box::new(y)))
}

fn axis_of(v: &JsonValue, key: &str) -> (r: Option<i32>)
    ensures
        r == axis_spec(*v, key@),
{
    match as_i64(v.get(key)) {
        Some(n) => Some(n as i32),
        None => None,
    }
}

/// The offset a move value stores.
pub fn parse_move_offset(v: &JsonValue) -> (r: Option<MoveOffset>)
    ensures
        r == parse_offset_spec(*v),
{
    let x = axis_of(v, "x");
    let y = axis_of(v, "y");
    let z = axis_of(v, "z");
    match (x, y, z) {
        (Some(x), Some(y), Some(z)) => Some(MoveOffset { x, y, z }),
        _ => None,
    }
}

fn add_offsets(a: MoveOffset, b: MoveOffset) -> (r: MoveOffset)
    requires
        sum_fits(a, b),
    ensures
        r == offset_sum(a, b),
{
    MoveOffset { x: a.x + b.x, y: a.y + b.y, z: a.z + b.z }
}

fn covering_index(blocks: &Vec<SharedDocumentPropertyBlock>, breath: u32) -> (r: Option<usize>)
    ensures
        r is Some <==> first_where(blocks@, in_span(breath)) is Some,
        r matches Some(i) ==> first_where(blocks@, in_span(breath)) == Some(i as int) && i < blocks@.len(),
{
    let mut i: usize = 0;
    while i < blocks.len()
        invariant
            i <= blocks@.len(),
            forall|k: int| 0 <= k < i ==> !in_span(breath)(#[trigger] blocks@[k]),
        decreases blocks@.len() - i,
    {
        let b = &blocks[i];
        let len1: u64 = if b.length_breaths == 0 { 1 } else { b.length_breaths as u64 };
        if b.start_breath <= breath && (breath as u64) < b.start_breath as u64 + len1 {
            proof {
                assert(in_span(breath)(blocks@[i as int]));
                lemma_first_where(blocks@, in_span(breath), i as int);
            }
            return Some(i);
        }
        i = i + 1;
    }
    proof {
        lemma_first_where_none(blocks@, in_span(breath));
    }
    None
}

/// Applies a drag at `breath` by `delta` to a move track's blocks (see
/// `move_keyed`); `resolved` is the offset the move interpolation gives at
/// the breath.
pub fn key_move_offset(
    blocks: &mut Vec<SharedDocumentPropertyBlock>,
    breath: u32,
    delta: MoveOffset,
    resolved: MoveOffset,
    span_start: u32,
    span_length: u32,
)
    requires
        sum_fits(current_offset(old(blocks)@, breath, resolved), delta),
        sum_fits(resolved, delta),
        old(blocks)@.len() < u32::MAX - 1,
    ensures
        move_keyed(final(blocks)@, old(blocks)@, breath, delta, resolved, span_start, span_length),
{
    let ghost bs = blocks@;
    let covered = covering_index(blocks, breath);
    match covered {
        Some(i) => {
            let current = if blocks[i].is_blank {
                resolved
            } else {
                match &blocks[i].value {
                    Some(v) => match parse_move_offset(v) {
                        Some(o) => o,
                        None => MoveOffset { x: 0, y: 0, z: 0 },
                    },
                    None => MoveOffset { x: 0, y: 0, z: 0 },
                }
            };
            let next = add_offsets(current, delta);
            let block_start = blocks[i].start_breath;
            let block_length = blocks[i].length_breaths;
            let block_is_blank = blocks[i].is_blank;
            let len1: u64 = if block_length == 0 { 1 } else { block_length as u64 };
            let strictly_inside = breath > block_start && (breath as u64) < block_start as u64 + len1;
            let carries_value = match &blocks[i].value {
                Some(v) => parse_move_offset(v).is_some(),
                None => false,
            };
            let splits = if block_is_blank { strictly_inside } else { carries_value && strictly_inside };
            let value = offset_json(next);
            let ghost vv = value;
            if !splits {
                let mut b = blocks.remove(i);
                b.value = Some(value);
                b.is_blank = false;
                blocks.insert(i, b);
                proof {
                    assert(blocks@ =~= bs.update(i as int, SharedDocumentPropertyBlock { value: Some(vv), is_blank: false, ..bs[i as int] }));
                }
            } else {
                let left = breath - block_start;
                let keep = if block_is_blank {
                    left
                } else if left >= 2 {
                    let half = if left / 2 >= 1 { left / 2 } else { 1 };
                    let empty = if half <= left - 1 { half } else { left - 1 };
                    left - empty
                } else {
                    left
                };
                let mut b = blocks.remove(i);
                b.length_breaths = keep;
                blocks.insert(i, b);
                let ghost mid = blocks@;
                proof {
                    assert(mid =~= bs.update(i as int, with_timing(bs[i as int], block_start, keep)));
                    assert forall|k: int| 0 <= k < mid.len() implies (#[trigger] mid[k]).id@ == bs[k].id@ by {}
                }
                let id = next_property_block_id(blocks);
                proof {
                    crate::track::lemma_next_id_same_ids(mid, bs, id@);
                    lemma_next_id_fresh(mid, id@);
                    assert forall|k: int| 0 <= k < bs.len() implies (#[trigger] bs[k]).id@ != id@ by {
                        assert(mid[k].id@ == bs[k].id@);
                    }
                }
                let ghost idv = id;
                let new_length: u32 = (block_start as u64 + block_length as u64 - breath as u64) as u32;
                let k = SharedDocumentPropertyBlock {
                    id,
                    start_breath: breath,
                    length_breaths: new_length,
                    is_blank: false,
                    value: Some(value),
                    interpretation: None,
                    ease_out_percent: None,
                    ease_in_percent: None,
                };
                blocks.insert(i + 1, k);
                proof {
                    assert(block_length >= 1);
                    assert(blocks@ =~= mid.insert(i + 1, keyframe(idv, breath, (bs[i as int].start_breath + bs[i as int].length_breaths - breath) as u32, vv)));
                }
            }
        },
        None => {
            let n = blocks.len();
            let past = n > 0 && blocks[n - 1].is_blank && breath >= blocks[n - 1].start_breath;
            let id = next_property_block_id(blocks);
            proof {
                lemma_next_id_fresh(bs, id@);
            }
            let ghost idv = id;
            if past {
                let value = offset_json(add_offsets(resolved, delta));
                let ghost vv = value;
                blocks.push(SharedDocumentPropertyBlock {
                    id,
                    start_breath: breath,
                    length_breaths: 1,
                    is_blank: false,
                    value: Some(value),
                    interpretation: None,
                    ease_out_percent: None,
                    ease_in_percent: None,
                });
                proof {
                    assert(blocks@ =~= bs.push(keyframe(idv, breath, 1, vv)));
                }
            } else {
                let value = offset_json(add_offsets(MoveOffset { x: 0, y: 0, z: 0 }, delta));
                let ghost vv = value;
                let length = if span_length == 0 { 1 } else { span_length };
                blocks.push(SharedDocumentPropertyBlock {
                    id,
                    start_breath: span_start,
                    length_breaths: length,
                    is_blank: false,
                    value: Some(value),
                    interpretation: None,
                    ease_out_percent: None,
                    ease_in_percent: None,
                });
                proof {
                    assert(blocks@ =~= bs.push(keyframe(idv, span_start, length, vv)));
                }
            }
        },
    }
}

/// A keyed track stays within the bounds its blocks, the breath and the
/// layer span keep, keeps lengths positive and ids distinct.
pub proof fn lemma_move_keyed_keeps(
    out: Seq<SharedDocumentPropertyBlock>,
    bs: Seq<SharedDocumentPropertyBlock>,
    breath: u32,
    delta: MoveOffset,
    resolved: MoveOffset,
    span_start: u32,
    span_length: u32,
    bound: int,
)
    requires
        move_keyed(out, bs, breath, delta, resolved, span_start, span_length),
        forall|k: int| 0 <= k < bs.len() ==> block_reach(#[trigger] bs[k]) <= bound,
        breath + 1 <= bound,
        span_start + min1(span_length) <= bound,
    ensures
        forall|k: int| 0 <= k < out.len() ==> block_reach(#[trigger] out[k]) <= bound,
        lengths_positive(bs) ==> lengths_positive(out),
        ids_distinct(bs) ==> ids_distinct(out),
{
    let next = offset_sum(current_offset(bs, breath, resolved), delta);
    match first_where(bs, in_span(breath)) {
        Some(i) => {
            lemma_first_where_range(bs, in_span(breath));
            let b = bs[i];
            let strictly = breath > b.start_breath && breath < b.start_breath + min1(b.length_breaths);
            let splits = if b.is_blank { strictly } else { stored_offset(b) is Some && strictly };
            if !splits {
                let v = choose|v: JsonValue| #[trigger] is_offset_json(v, next)
                    && out == bs.update(i, SharedDocumentPropertyBlock { value: Some(v), is_blank: false, ..b });
                assert forall|k: int| 0 <= k < out.len() implies block_reach(#[trigger] out[k]) <= bound by {
                    assert(block_reach(bs[k]) <= bound);
                }
                if ids_distinct(bs) {
                    assert forall|a: int, c: int| 0 <= a < c < out.len() implies #[trigger] out[a].id@ != #[trigger] out[c].id@ by {
                        assert(out[a].id == bs[a].id && out[c].id == bs[c].id);
                    }
                }
                if lengths_positive(bs) {
                    assert forall|k: int| 0 <= k < out.len() implies #[trigger] out[k].length_breaths >= 1 by {
                        assert(out[k].length_breaths == bs[k].length_breaths);
                    }
                }
            } else {
                let left = breath - b.start_breath;
                let keep = if b.is_blank { left } else { kept_left(left) };
                let (id, v) = choose|id: String, v: JsonValue| #[trigger] is_offset_json(v, next) && #[trigger] is_next_block_id(bs, id@)
                    && (forall|k: int| 0 <= k < bs.len() ==> (#[trigger] bs[k]).id@ != id@)
                    && out == bs.update(i, with_timing(b, b.start_breath, keep as u32)).insert(
                        i + 1, keyframe(id, breath, (b.start_breath + b.length_breaths - breath) as u32, v));
                let mid = bs.update(i, with_timing(b, b.start_breath, keep as u32));
                let nk = keyframe(id, breath, (b.start_breath + b.length_breaths - breath) as u32, v);
                mid.insert_ensures(i + 1, nk);
                assert(b.length_breaths >= 1);
                assert(1 <= keep <= left);
                assert(block_reach(b) <= bound);
                assert forall|k: int| 0 <= k < out.len() implies block_reach(#[trigger] out[k]) <= bound by {
                    if k <= i {
                        assert(block_reach(bs[k]) <= bound);
                    } else if k > i + 1 {
                        assert(out[k] == mid[k - 1]);
                        assert(block_reach(bs[k - 1]) <= bound);
                    }
                }
                if ids_distinct(bs) {
                    assert forall|a: int, c: int| 0 <= a < c < out.len() implies #[trigger] out[a].id@ != #[trigger] out[c].id@ by {
                        let a0 = if a <= i { a } else { a - 1 };
                        let c0 = if c <= i { c } else { c - 1 };
                        if a == i + 1 {
                            assert(out[c] == mid[c0]);
                        } else if c == i + 1 {
                            assert(out[a] == mid[a0]);
                        } else {
                            assert(out[a] == mid[a0] && out[c] == mid[c0]);
                        }
                    }
                }
                if lengths_positive(bs) {
                    assert forall|k: int| 0 <= k < out.len() implies #[trigger] out[k].length_breaths >= 1 by {
                        if k < i {
                        } else if k > i + 1 {
                            assert(out[k] == mid[k - 1]);
                        }
                    }
                }
            }
        },
        None => {
            let past = bs.len() > 0 && bs.last().is_blank && breath >= bs.last().start_breath;
            let o = if past { offset_sum(resolved, delta) } else { next };
            let (id, v) = choose|id: String, v: JsonValue| #[trigger] is_offset_json(v, o) && #[trigger] is_next_block_id(bs, id@)
                && (forall|k: int| 0 <= k < bs.len() ==> (#[trigger] bs[k]).id@ != id@)
                && out == bs.push(if past { keyframe(id, breath, 1, v) } else {
                    keyframe(id, span_start, if span_length == 0 { 1 } else { span_length }, v) });
            assert forall|k: int| 0 <= k < out.len() implies block_reach(#[trigger] out[k]) <= bound by {
                if k < bs.len() {
                    assert(out[k] == bs[k]);
                }
            }
            if ids_distinct(bs) {
                assert forall|a: int, c: int| 0 <= a < c < out.len() implies #[trigger] out[a].id@ != #[trigger] out[c].id@ by {
                    assert(out[a] == bs[a]);
                    if c < bs.len() {
                        assert(out[c] == bs[c]);
                    }
                }
            }
            if lengths_positive(bs) {
                assert forall|k: int| 0 <= k < out.len() implies #[trigger] out[k].length_breaths >= 1 by {
                    if k < bs.len() {
                        assert(out[k] == bs[k]);
                    }
                }
            }
        },
    }
}

proof fn lemma_first_where_range<T>(s: Seq<T>, p: spec_fn(T) -> bool)
    ensures
        first_where(s, p) matches Some(i) ==> 0 <= i < s.len() && p(s[i]),
{
    reveal(first_where);
    if exists|i: int| 0 <= i < s.len() && #[trigger] p(s[i]) {
        let j = choose|i: int| 0 <= i < s.len() && #[trigger] p(s[i]) && forall|k: int| 0 <= k < i ==> !p(s[k]);
        let w = choose|i: int| 0 <= i < s.len() && #[trigger] p(s[i]);
        assert(0 <= w < s.len() && p(s[w]));
        lemma_least(s, p, w);
    }
}

proof fn lemma_least<T>(s: Seq<T>, p: spec_fn(T) -> bool, w: int)
    requires
        0 <= w < s.len(),
        p(s[w]),
    ensures
        exists|i: int| 0 <= i < s.len() && #[trigger] p(s[i]) && forall|k: int| 0 <= k < i ==> !p(s[k]),
    decreases w,
{
    if exists|k: int| 0 <= k < w && #[trigger] p(s[k]) {
        let k = choose|k: int| 0 <= k < w && #[trigger] p(s[k]);
        lemma_least(s, p, k);
    } else {
        assert(forall|k: int| 0 <= k < w ==> !p(s[k]));
    }
}

/// Where no solid stores an offset, the offset in force before a drag is
/// zero or the resolved one.
pub proof fn lemma_current_without_values(bs: Seq<SharedDocumentPropertyBlock>, breath: u32, resolved: MoveOffset, delta: MoveOffset)
    requires
        forall|k: int| 0 <= k < bs.len() && !(#[trigger] bs[k]).is_blank ==> bs[k].value is None,
        sum_fits(resolved, delta),
    ensures
        sum_fits(current_offset(bs, breath, resolved), delta),
{
    lemma_first_where_range(bs, in_span(breath));
}

} // verus!
