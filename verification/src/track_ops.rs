//! The edits a property track takes: swapping, blanking, merging, splitting
//! and duplicating blocks, and cycling an empty's interpolation mode and
//! ease strengths. Each is stated exactly on the block sequence; the runtime
//! re-tiles where the painter does.

use vstd::prelude::*;
use crate::track::{
    SharedDocumentPropertyBlock, block_end, block_reach, max_reach, min1, lengths_positive, ids_distinct,
    is_binary_tiling, is_contiguous, no_adjacent_blanks, edge_modes, solids_clean, block_mode,
    lemma_max_reach_bounds, lemma_max_reach_le, next_property_block_id, lemma_next_id_fresh,
    is_next_block_id, lemma_next_id_same_ids,
};
use crate::interp_mode::{
    InterpMode, resolve_stored_mode, next_mode, mode_allowed_at, mode_is_ease_adjustable, next_ease_percent, mode_name,
    next_mode_spec, mode_allowed_at_spec, mode_is_ease_adjustable_spec, next_ease_percent_spec, mode_name_spec,
    lemma_mode_name_round_trip, resolved_mode, name_view,
};
use crate::text::owned;

verus! {

/// The block with new timing.
pub open spec fn with_timing(b: SharedDocumentPropertyBlock, start: u32, length: u32) -> SharedDocumentPropertyBlock {
    SharedDocumentPropertyBlock { start_breath: start, length_breaths: length, ..b }
}

/// The blocks with the breath ranges of blocks `i` and `j` exchanged.
pub open spec fn swapped(s: Seq<SharedDocumentPropertyBlock>, i: int, j: int) -> Seq<SharedDocumentPropertyBlock> {
    s.update(i, with_timing(s[i], s[j].start_breath, s[j].length_breaths))
        .update(j, with_timing(s[j], s[i].start_breath, s[i].length_breaths))
}

/// Exchanges the breath ranges of two blocks.
pub fn swap_timings(blocks: &mut Vec<SharedDocumentPropertyBlock>, i: usize, j: usize)
    requires
        i < old(blocks)@.len(),
        j < old(blocks)@.len(),
        i != j,
    ensures
        final(blocks)@ == swapped(old(blocks)@, i as int, j as int),
{
    let ghost s = blocks@;
    let si = blocks[i].start_breath;
    let li = blocks[i].length_breaths;
    let sj = blocks[j].start_breath;
    let lj = blocks[j].length_breaths;
    let mut a = blocks.remove(i);
    a.start_breath = sj;
    a.length_breaths = lj;
    blocks.insert(i, a);
    let mut b = blocks.remove(j);
    b.start_breath = si;
    b.length_breaths = li;
    blocks.insert(j, b);
    proof {
        assert(blocks@ =~= swapped(s, i as int, j as int));
    }
}

/// Swapping keeps lengths, ids and reaches.
pub proof fn lemma_swapped_keeps(s: Seq<SharedDocumentPropertyBlock>, i: int, j: int, bound: int)
    requires
        0 <= i < s.len(),
        0 <= j < s.len(),
        i != j,
        forall|k: int| 0 <= k < s.len() ==> block_reach(#[trigger] s[k]) <= bound,
    ensures
        lengths_positive(s) ==> lengths_positive(swapped(s, i, j)),
        ids_distinct(s) ==> ids_distinct(swapped(s, i, j)),
        forall|k: int| 0 <= k < s.len() ==> block_reach(#[trigger] swapped(s, i, j)[k]) <= bound,
        swapped(s, i, j).len() == s.len(),
{
    let t = swapped(s, i, j);
    assert forall|k: int| 0 <= k < s.len() implies block_reach(#[trigger] t[k]) <= bound by {
        if k == i {
            assert(block_reach(s[j]) <= bound);
        } else if k == j {
            assert(block_reach(s[i]) <= bound);
        } else {
            assert(t[k] == s[k]);
        }
    }
    assert forall|k: int| 0 <= k < t.len() implies (#[trigger] t[k]).id == s[k].id && t[k].length_breaths == s[if k == i { j } else if k == j { i } else { k }].length_breaths by {}
}

/// The blocks with block `i` turned blank.
pub open spec fn blanked(s: Seq<SharedDocumentPropertyBlock>, i: int) -> Seq<SharedDocumentPropertyBlock> {
    s.update(i, SharedDocumentPropertyBlock { is_blank: true, ..s[i] })
}

/// Turns one block blank.
pub fn set_blank(blocks: &mut Vec<SharedDocumentPropertyBlock>, i: usize)
    requires
        i < old(blocks)@.len(),
    ensures
        final(blocks)@ == blanked(old(blocks)@, i as int),
{
    let ghost s = blocks@;
    let mut b = blocks.remove(i);
    b.is_blank = true;
    blocks.insert(i, b);
    proof {
        assert(blocks@ =~= blanked(s, i as int));
    }
}

/// Blanking keeps lengths, ids and reaches.
pub proof fn lemma_blanked_keeps(s: Seq<SharedDocumentPropertyBlock>, i: int, bound: int)
    requires
        0 <= i < s.len(),
        forall|k: int| 0 <= k < s.len() ==> block_reach(#[trigger] s[k]) <= bound,
    ensures
        lengths_positive(s) ==> lengths_positive(blanked(s, i)),
        ids_distinct(s) ==> ids_distinct(blanked(s, i)),
        forall|k: int| 0 <= k < s.len() ==> block_reach(#[trigger] blanked(s, i)[k]) <= bound,
        blanked(s, i).len() == s.len(),
{
    assert forall|k: int| 0 <= k < s.len() implies (#[trigger] blanked(s, i)[k]).id == s[k].id
        && blanked(s, i)[k].length_breaths == s[k].length_breaths
        && blanked(s, i)[k].start_breath == s[k].start_breath by {}
}

/// The blocks with the empty at `idx` merged into its neighbor `t`: the
/// neighbor grows over the empty's span and the empty disappears.
pub open spec fn merged(s: Seq<SharedDocumentPropertyBlock>, idx: int, t: int) -> Seq<SharedDocumentPropertyBlock> {
    let grown = if t < idx {
        with_timing(s[t], s[t].start_breath, (s[t].length_breaths + s[idx].length_breaths) as u32)
    } else {
        with_timing(s[t], s[idx].start_breath, (s[t].length_breaths + s[idx].length_breaths) as u32)
    };
    s.update(t, grown).remove(idx)
}

/// Merges the empty at `idx` into its neighbor `t`.
pub fn merge_into(blocks: &mut Vec<SharedDocumentPropertyBlock>, idx: usize, t: usize)
    requires
        idx < old(blocks)@.len(),
        t < old(blocks)@.len(),
        t + 1 == idx || idx + 1 == t,
        old(blocks)@[t as int].length_breaths + old(blocks)@[idx as int].length_breaths <= u32::MAX,
    ensures
        final(blocks)@ == merged(old(blocks)@, idx as int, t as int),
{
    let ghost s = blocks@;
    let es = blocks[idx].start_breath;
    let el = blocks[idx].length_breaths;
    let mut g = blocks.remove(t);
    if t < idx {
        g.length_breaths = g.length_breaths + el;
    } else {
        g.start_breath = es;
        g.length_breaths = g.length_breaths + el;
    }
    blocks.insert(t, g);
    blocks.remove(idx);
    proof {
        assert(blocks@ =~= merged(s, idx as int, t as int));
    }
}

/// In a contiguous track, merging an empty into an adjacent block keeps
/// the lengths positive, the ids distinct and the reaches bounded.
pub proof fn lemma_merged_keeps(s: Seq<SharedDocumentPropertyBlock>, idx: int, t: int, bound: int)
    requires
        is_contiguous(s),
        lengths_positive(s),
        ids_distinct(s),
        0 <= idx < s.len(),
        0 <= t < s.len(),
        t + 1 == idx || idx + 1 == t,
        forall|k: int| 0 <= k < s.len() ==> block_reach(#[trigger] s[k]) <= bound,
        bound <= u32::MAX,
    ensures
        s[t].length_breaths + s[idx].length_breaths <= u32::MAX,
        lengths_positive(merged(s, idx, t)),
        ids_distinct(merged(s, idx, t)),
        forall|k: int| 0 <= k < merged(s, idx, t).len() ==> block_reach(#[trigger] merged(s, idx, t)[k]) <= bound,
        merged(s, idx, t).len() == s.len() - 1,
{
    let m = merged(s, idx, t);
    let g = if t < idx { idx } else { t };
    assert(s[g].start_breath == block_end(s[g - 1]));
    assert(block_reach(s[g]) <= bound);
    assert(s[t].length_breaths >= 1 && s[idx].length_breaths >= 1);
    let sum = s[t].length_breaths + s[idx].length_breaths;
    assert(sum <= block_reach(s[g]));
    let tk = if t < idx { t } else { t - 1 };
    assert(m[tk].length_breaths == sum);
    assert(block_reach(m[tk]) == block_reach(s[g]));
    assert forall|k: int| 0 <= k < m.len() implies #[trigger] m[k].length_breaths >= 1 by {
        let k2 = if k < idx { k } else { k + 1 };
        if k2 != t {
            assert(m[k] == s[k2]);
        }
    }
    assert forall|k: int| 0 <= k < m.len() implies block_reach(#[trigger] m[k]) <= bound by {
        let k2 = if k < idx { k } else { k + 1 };
        if k2 != t {
            assert(m[k] == s[k2]);
            assert(block_reach(s[k2]) <= bound);
        }
    }
    assert forall|a: int, b: int| 0 <= a < b < m.len() implies #[trigger] m[a].id@ != #[trigger] m[b].id@ by {
        let a2 = if a < idx { a } else { a + 1 };
        let b2 = if b < idx { b } else { b + 1 };
        assert(m[a].id == s[a2].id);
        assert(m[b].id == s[b2].id);
        assert(s[a2].id@ != s[b2].id@);
    }
}

/// The right half a split hands its new id.
pub open spec fn right_half(b: SharedDocumentPropertyBlock, split: u32, id: String) -> SharedDocumentPropertyBlock {
    SharedDocumentPropertyBlock {
        id,
        start_breath: split,
        length_breaths: (b.start_breath + b.length_breaths - split) as u32,
        is_blank: b.is_blank,
        value: b.value,
        interpretation: None,
        ease_out_percent: None,
        ease_in_percent: None,
    }
}

/// Whether a split of block `i` at `split` is taken: a solid block of at
/// least two breaths, split strictly inside it.
pub open spec fn split_allowed(s: Seq<SharedDocumentPropertyBlock>, i: int, split: u32) -> bool {
    &&& s[i].length_breaths > 1
    &&& !s[i].is_blank
    &&& s[i].start_breath < split
    &&& split <= s[i].start_breath + s[i].length_breaths - 1
}

/// The blocks after a split: the left half keeps the id and the breaths
/// before the split, the new right half follows it.
pub open spec fn split_blocks(s: Seq<SharedDocumentPropertyBlock>, i: int, split: u32, id: String) -> Seq<SharedDocumentPropertyBlock> {
    s.update(i, with_timing(s[i], s[i].start_breath, (split - s[i].start_breath) as u32)).insert(i + 1, right_half(s[i], split, id))
}

/// Splits block `i` at `split` when the split is allowed; returns the new
/// right half's id.
pub fn split_at(blocks: &mut Vec<SharedDocumentPropertyBlock>, i: usize, split: u32) -> (r: Option<String>)
    requires
        i < old(blocks)@.len(),
        block_reach(old(blocks)@[i as int]) <= u32::MAX,
        old(blocks)@.len() < u32::MAX - 1,
    ensures
        r is Some <==> split_allowed(old(blocks)@, i as int, split),
        r is None ==> final(blocks)@ == old(blocks)@,
        r is Some ==> final(blocks)@ == split_blocks(old(blocks)@, i as int, split, final(blocks)@[i + 1].id)
            && r->0@ == final(blocks)@[i + 1].id@
            && forall|k: int| 0 <= k < old(blocks)@.len() ==> (#[trigger] old(blocks)@[k]).id@ != r->0@
            && is_next_block_id(old(blocks)@, r->0@),
{
    let ghost s = blocks@;
    let start = blocks[i].start_breath;
    let length = blocks[i].length_breaths;
    if length <= 1 {
        return None;
    }
    if blocks[i].is_blank {
        return None;
    }
    let block_end = start + length - 1;
    if split <= start || split > block_end {
        return None;
    }
    let left_length = split - start;
    let right_length = block_end - split + 1;
    let mut left = blocks.remove(i);
    let value = match &left.value {
        Some(v) => Some(v.copy()),
        None => None,
    };
    let is_blank = left.is_blank;
    left.length_breaths = left_length;
    blocks.insert(i, left);
    let ghost mid = blocks@;
    let next_id = next_property_block_id(blocks);
    proof {
        assert(mid =~= s.update(i as int, with_timing(s[i as int], start, left_length)));
        lemma_next_id_fresh(mid, next_id@);
        assert forall|k: int| 0 <= k < s.len() implies (#[trigger] s[k]).id@ != next_id@ by {
            assert(mid[k].id == s[k].id);
        }
        assert forall|k: int| 0 <= k < mid.len() implies (#[trigger] mid[k]).id@ == s[k].id@ by {
            assert(mid[k].id == s[k].id);
        }
        lemma_next_id_same_ids(mid, s, next_id@);
    }
    let right = SharedDocumentPropertyBlock {
        id: next_id.clone(),
        start_breath: split,
        length_breaths: right_length,
        is_blank,
        value,
        interpretation: None,
        ease_out_percent: None,
        ease_in_percent: None,
    };
    blocks.insert(i + 1, right);
    proof {
        assert(blocks@ =~= split_blocks(s, i as int, split, blocks@[i + 1].id));
    }
    Some(next_id)
}

/// A split keeps the binary tiling.
pub proof fn lemma_split_keeps_tiling(s: Seq<SharedDocumentPropertyBlock>, i: int, split: u32, id: String)
    requires
        is_binary_tiling(s),
        0 <= i < s.len(),
        split_allowed(s, i, split),
        forall|k: int| 0 <= k < s.len() ==> (#[trigger] s[k]).id@ != id@,
    ensures
        is_binary_tiling(split_blocks(s, i, split, id)),
        forall|k: int| 0 <= k < split_blocks(s, i, split, id).len() ==> block_reach(#[trigger] split_blocks(s, i, split, id)[k]) <= max_reach(s),
{
    let t = split_blocks(s, i, split, id);
    lemma_max_reach_bounds(s);
    lemma_mode_name_round_trip(InterpMode::Interpolate);
    assert(i < s.len() - 1) by {
        if i == s.len() - 1 {
            assert(s.last().is_blank);
        }
    }
    assert(t.len() == s.len() + 1);
    assert forall|k: int| 0 <= k < t.len() implies #[trigger] t[k] == (if k < i { s[k] } else if k == i {
        with_timing(s[i], s[i].start_breath, (split - s[i].start_breath) as u32)
    } else if k == i + 1 {
        right_half(s[i], split, id)
    } else {
        s[k - 1]
    }) by {}
    assert forall|k: int| 0 < k < t.len() implies #[trigger] t[k].start_breath == block_end(t[k - 1]) by {
        if k > i + 1 {
            assert(s[k - 1].start_breath == block_end(s[k - 2]));
        } else if k < i {
            assert(s[k].start_breath == block_end(s[k - 1]));
        } else if k == i {
            assert(s[i].start_breath == block_end(s[i - 1]));
        }
    }
    assert forall|k: int| 0 < k < t.len() implies !(t[k - 1].is_blank && #[trigger] t[k].is_blank) by {
        if k > i + 2 {
            assert(!(s[k - 2].is_blank && s[k - 1].is_blank));
        } else if k < i {
            assert(!(s[k - 1].is_blank && s[k].is_blank));
        }
    }
    assert forall|k: int| 0 <= k < t.len() implies #[trigger] t[k].length_breaths >= 1 by {
        if k < i {
            assert(s[k].length_breaths >= 1);
        } else if k > i + 1 {
            assert(s[k - 1].length_breaths >= 1);
        }
    }
    assert forall|a: int, b: int| 0 <= a < b < t.len() implies #[trigger] t[a].id@ != #[trigger] t[b].id@ by {
        let a2 = if a <= i { a } else { a - 1 };
        let b2 = if b <= i { b } else { b - 1 };
        if a == i + 1 {
            assert(s[b2].id@ != id@);
        } else if b == i + 1 {
            assert(s[a2].id@ != id@);
        } else {
            assert(t[a].id == s[a2].id && t[b].id == s[b2].id);
            assert(a2 != b2);
            assert(s[a2].id@ != s[b2].id@);
        }
    }
    assert(t.last() == s.last());
    assert forall|k: int| 0 <= k < t.len() implies {
        &&& (block_mode(#[trigger] t[k]) == InterpMode::LoopOut ==> k == t.len() - 1 && t[k].is_blank)
        &&& (block_mode(t[k]) == InterpMode::LoopIn ==> k == 0 && t[k].is_blank)
    } by {
        if k < i {
            assert(t[k] == s[k]);
        } else if k > i + 1 {
            assert(t[k] == s[k - 1]);
        } else {
            assert(s[i].interpretation is None);
        }
    }
    assert forall|k: int| 0 <= k < t.len() && !(#[trigger] t[k]).is_blank implies {
        &&& t[k].interpretation is None
        &&& t[k].ease_out_percent is None
        &&& t[k].ease_in_percent is None
    } by {
        if k < i {
            assert(t[k] == s[k]);
        } else if k > i + 1 {
            assert(t[k] == s[k - 1]);
        }
    }
    assert forall|k: int| 0 <= k < t.len() implies block_reach(#[trigger] t[k]) <= max_reach(s) by {
        if k < i {
            assert(block_reach(s[k]) <= max_reach(s));
        } else if k > i + 1 {
            assert(block_reach(s[k - 1]) <= max_reach(s));
        } else {
            assert(block_reach(s[i]) <= max_reach(s));
        }
    }
}

/// The mode an empty cycles onto: the next mode in the cycle that the
/// empty's place allows (loop-out only last, loop-in only first).
pub open spec fn cycled_mode(current: InterpMode, is_first: bool, is_last: bool) -> InterpMode {
    let n1 = next_mode_spec(current);
    let n2 = next_mode_spec(n1);
    let n3 = next_mode_spec(n2);
    if mode_allowed_at_spec(n1, is_first, is_last) {
        n1
    } else if mode_allowed_at_spec(n2, is_first, is_last) {
        n2
    } else if mode_allowed_at_spec(n3, is_first, is_last) {
        n3
    } else {
        next_mode_spec(n3)
    }
}

/// Cycles the interpolation mode of the empty at `i`; `false` (and no
/// change) when the block is solid.
pub fn cycle_mode_at(blocks: &mut Vec<SharedDocumentPropertyBlock>, i: usize) -> (r: bool)
    requires
        i < old(blocks)@.len(),
    ensures
        r == old(blocks)@[i as int].is_blank,
        !r ==> final(blocks)@ == old(blocks)@,
        r ==> final(blocks)@.len() == old(blocks)@.len(),
        r ==> forall|k: int| 0 <= k < old(blocks)@.len() && k != i ==> #[trigger] final(blocks)@[k] == old(blocks)@[k],
        r ==> {
            let b = old(blocks)@[i as int];
            let m = cycled_mode(block_mode(b), i == 0, i + 1 == old(blocks)@.len());
            let nb = final(blocks)@[i as int];
            &&& nb.interpretation is Some && nb.interpretation->0@ == mode_name_spec(m)
            &&& nb.id == b.id && nb.start_breath == b.start_breath && nb.length_breaths == b.length_breaths
            &&& nb.is_blank == b.is_blank && nb.value == b.value
            &&& (mode_is_ease_adjustable_spec(m) ==> nb.ease_out_percent == b.ease_out_percent && nb.ease_in_percent == b.ease_in_percent)
            &&& (!mode_is_ease_adjustable_spec(m) ==> nb.ease_out_percent is None && nb.ease_in_percent is None)
            &&& block_mode(nb) == m
        },
{
    if !blocks[i].is_blank {
        return false;
    }
    let ghost s = blocks@;
    let is_first = i == 0;
    let is_last = i == blocks.len() - 1;
    let current = resolve_stored_mode(&blocks[i].interpretation);
    let n1 = next_mode(current);
    let n2 = next_mode(n1);
    let n3 = next_mode(n2);
    let next = if mode_allowed_at(n1, is_first, is_last) {
        n1
    } else if mode_allowed_at(n2, is_first, is_last) {
        n2
    } else if mode_allowed_at(n3, is_first, is_last) {
        n3
    } else {
        next_mode(n3)
    };
    let mut b = blocks.remove(i);
    b.interpretation = Some(owned(mode_name(next)));
    if !mode_is_ease_adjustable(next) {
        b.ease_out_percent = None;
        b.ease_in_percent = None;
    }
    blocks.insert(i, b);
    proof {
        lemma_mode_name_round_trip(next);
    }
    true
}

/// Cycling an empty's mode keeps the binary tiling.
pub proof fn lemma_cycle_mode_keeps_tiling(s: Seq<SharedDocumentPropertyBlock>, t: Seq<SharedDocumentPropertyBlock>, i: int)
    requires
        is_binary_tiling(s),
        0 <= i < s.len(),
        s[i].is_blank,
        t.len() == s.len(),
        forall|k: int| 0 <= k < s.len() && k != i ==> #[trigger] t[k] == s[k],
        t[i].id == s[i].id && t[i].start_breath == s[i].start_breath && t[i].length_breaths == s[i].length_breaths,
        t[i].is_blank == s[i].is_blank,
        block_mode(t[i]) == cycled_mode(block_mode(s[i]), i == 0, i + 1 == s.len()),
    ensures
        is_binary_tiling(t),
{
    assert forall|k: int| 0 <= k < t.len() implies #[trigger] t[k].id == s[k].id && t[k].start_breath == s[k].start_breath
        && t[k].length_breaths == s[k].length_breaths && t[k].is_blank == s[k].is_blank by {
        if k != i {
            assert(t[k] == s[k]);
        }
    }
    assert forall|k: int| 0 < k < t.len() implies #[trigger] t[k].start_breath == block_end(t[k - 1]) by {
        assert(s[k].start_breath == block_end(s[k - 1]));
    }
    assert forall|k: int| 0 < k < t.len() implies !(t[k - 1].is_blank && #[trigger] t[k].is_blank) by {
        assert(!(s[k - 1].is_blank && s[k].is_blank));
    }
    assert forall|k: int| 0 <= k < t.len() implies #[trigger] t[k].length_breaths >= 1 by {
        assert(s[k].length_breaths >= 1);
    }
    assert forall|a: int, b: int| 0 <= a < b < t.len() implies #[trigger] t[a].id@ != #[trigger] t[b].id@ by {
        assert(s[a].id@ != s[b].id@);
    }
    assert forall|k: int| 0 <= k < t.len() implies {
        &&& (block_mode(#[trigger] t[k]) == InterpMode::LoopOut ==> k == t.len() - 1 && t[k].is_blank)
        &&& (block_mode(t[k]) == InterpMode::LoopIn ==> k == 0 && t[k].is_blank)
    } by {
        if k != i {
            assert(t[k] == s[k]);
        }
    }
    assert forall|k: int| 0 <= k < t.len() && !(#[trigger] t[k]).is_blank implies {
        &&& t[k].interpretation is None
        &&& t[k].ease_out_percent is None
        &&& t[k].ease_in_percent is None
    } by {
        assert(t[k] == s[k]);
    }
    assert(t.last().is_blank) by {
        assert(s.last().is_blank);
    }
}

/// The ease strengths after cycling one end of the empty at `i`.
pub fn cycle_ease_at(blocks: &mut Vec<SharedDocumentPropertyBlock>, i: usize, ease_out: bool) -> (r: bool)
    requires
        i < old(blocks)@.len(),
    ensures
        r == (old(blocks)@[i as int].is_blank && mode_is_ease_adjustable_spec(block_mode(old(blocks)@[i as int]))),
        !r ==> final(blocks)@ == old(blocks)@,
        r ==> final(blocks)@ == old(blocks)@.update(i as int, if ease_out {
            SharedDocumentPropertyBlock { ease_out_percent: Some(next_ease_percent_spec(old(blocks)@[i as int].ease_out_percent)), ..old(blocks)@[i as int] }
        } else {
            SharedDocumentPropertyBlock { ease_in_percent: Some(next_ease_percent_spec(old(blocks)@[i as int].ease_in_percent)), ..old(blocks)@[i as int] }
        }),
{
    if !blocks[i].is_blank {
        return false;
    }
    let mode = resolve_stored_mode(&blocks[i].interpretation);
    if !mode_is_ease_adjustable(mode) {
        return false;
    }
    let ghost s = blocks@;
    let mut b = blocks.remove(i);
    if ease_out {
        b.ease_out_percent = Some(next_ease_percent(b.ease_out_percent));
    } else {
        b.ease_in_percent = Some(next_ease_percent(b.ease_in_percent));
    }
    blocks.insert(i, b);
    proof {
        assert(blocks@ =~= s.update(i as int, blocks@[i as int]));
    }
    true
}

/// A block pushed right by `d` when it starts at or after `threshold`.
pub open spec fn pushed(b: SharedDocumentPropertyBlock, threshold: int, d: u32) -> SharedDocumentPropertyBlock {
    if b.start_breath >= threshold { with_timing(b, (b.start_breath + d) as u32, b.length_breaths) } else { b }
}

/// The copy a duplicate lands right after its source.
pub open spec fn duplicate_of(b: SharedDocumentPropertyBlock, id: String) -> SharedDocumentPropertyBlock {
    SharedDocumentPropertyBlock {
        id,
        start_breath: (b.start_breath + b.length_breaths) as u32,
        length_breaths: b.length_breaths,
        is_blank: b.is_blank,
        value: b.value,
        interpretation: None,
        ease_out_percent: None,
        ease_in_percent: None,
    }
}

/// The blocks after duplicating block `i`: every block starting at or after
/// the source's end moves right by the source's length, and the copy lands
/// right after the source.
pub open spec fn duplicated(s: Seq<SharedDocumentPropertyBlock>, i: int, id: String) -> Seq<SharedDocumentPropertyBlock> {
    s.map_values(|b: SharedDocumentPropertyBlock| pushed(b, block_end(s[i]), s[i].length_breaths)).insert(i + 1, duplicate_of(s[i], id))
}

/// Duplicates block `i` right after itself; returns the copy's id.
pub fn duplicate_at(blocks: &mut Vec<SharedDocumentPropertyBlock>, i: usize) -> (id: String)
    requires
        i < old(blocks)@.len(),
        old(blocks)@.len() < u32::MAX - 1,
        max_reach(old(blocks)@) + old(blocks)@[i as int].length_breaths <= u32::MAX,
    ensures
        final(blocks)@ == duplicated(old(blocks)@, i as int, final(blocks)@[i + 1].id),
        id@ == final(blocks)@[i + 1].id@,
        forall|k: int| 0 <= k < old(blocks)@.len() ==> (#[trigger] old(blocks)@[k]).id@ != id@,
        is_next_block_id(old(blocks)@, id@),
{
    let ghost s = blocks@;
    proof {
        lemma_max_reach_bounds(s);
    }
    let src_start = blocks[i].start_breath;
    let d = blocks[i].length_breaths;
    let threshold = src_start + d;
    let n = blocks.len();
    let mut k: usize = 0;
    while k < n
        invariant
            n == s.len(),
            blocks@.len() == n,
            k <= n,
            threshold == block_end(s[i as int]),
            d == s[i as int].length_breaths,
            i < n,
            max_reach(s) + d <= u32::MAX,
            forall|j: int| 0 <= j < s.len() ==> block_reach(#[trigger] s[j]) <= max_reach(s),
            forall|j: int| 0 <= j < k ==> #[trigger] blocks@[j] == pushed(s[j], threshold as int, d),
            forall|j: int| k <= j < n ==> #[trigger] blocks@[j] == s[j],
        decreases n - k,
    {
        if blocks[k].start_breath >= threshold {
            proof {
                assert(block_reach(s[k as int]) <= max_reach(s));
            }
            let mut b = blocks.remove(k);
            b.start_breath = b.start_breath + d;
            blocks.insert(k, b);
        }
        k = k + 1;
    }
    let ghost mid = blocks@;
    proof {
        assert(mid =~= s.map_values(|b: SharedDocumentPropertyBlock| pushed(b, block_end(s[i as int]), s[i as int].length_breaths)));
    }
    let new_id = next_property_block_id(blocks);
    proof {
        lemma_next_id_fresh(mid, new_id@);
        assert forall|k: int| 0 <= k < s.len() implies (#[trigger] s[k]).id@ != new_id@ by {
            assert(mid[k].id == s[k].id);
        }
        assert forall|k: int| 0 <= k < mid.len() implies (#[trigger] mid[k]).id@ == s[k].id@ by {
            assert(mid[k].id == s[k].id);
        }
        lemma_next_id_same_ids(mid, s, new_id@);
        assert(mid[i as int] == s[i as int]);
    }
    let value = match &blocks[i].value {
        Some(v) => Some(v.copy()),
        None => None,
    };
    let copy = SharedDocumentPropertyBlock {
        id: new_id.clone(),
        start_breath: threshold,
        length_breaths: d,
        is_blank: blocks[i].is_blank,
        value,
        interpretation: None,
        ease_out_percent: None,
        ease_in_percent: None,
    };
    blocks.insert(i + 1, copy);
    proof {
        assert(blocks@ =~= duplicated(s, i as int, blocks@[i + 1].id));
    }
    new_id
}

/// A duplicate keeps lengths positive and ids distinct, and reaches at most
/// the source's length further.
pub proof fn lemma_duplicated_keeps(s: Seq<SharedDocumentPropertyBlock>, i: int, id: String)
    requires
        0 <= i < s.len(),
        forall|k: int| 0 <= k < s.len() ==> (#[trigger] s[k]).id@ != id@,
    ensures
        lengths_positive(s) ==> lengths_positive(duplicated(s, i, id)),
        ids_distinct(s) ==> ids_distinct(duplicated(s, i, id)),
        forall|k: int| 0 <= k < duplicated(s, i, id).len() ==> block_reach(#[trigger] duplicated(s, i, id)[k]) <= max_reach(s) + s[i].length_breaths,
        duplicated(s, i, id).len() == s.len() + 1,
{
    let t = duplicated(s, i, id);
    let th = block_end(s[i]);
    let d = s[i].length_breaths;
    lemma_max_reach_bounds(s);
    assert forall|k: int| 0 <= k < t.len() implies #[trigger] t[k] == (if k <= i { pushed(s[k], th, d) } else if k == i + 1 {
        duplicate_of(s[i], id)
    } else {
        pushed(s[k - 1], th, d)
    }) by {}
    assert forall|k: int| 0 <= k < t.len() implies block_reach(#[trigger] t[k]) <= max_reach(s) + d by {
        if k <= i {
            assert(block_reach(s[k]) <= max_reach(s));
        } else if k > i + 1 {
            assert(block_reach(s[k - 1]) <= max_reach(s));
        } else {
            assert(block_reach(s[i]) <= max_reach(s));
        }
    }
    if lengths_positive(s) {
        assert forall|k: int| 0 <= k < t.len() implies #[trigger] t[k].length_breaths >= 1 by {
            if k <= i {
                assert(s[k].length_breaths >= 1);
            } else if k > i + 1 {
                assert(s[k - 1].length_breaths >= 1);
            } else {
                assert(s[i].length_breaths >= 1);
            }
        }
    }
    if ids_distinct(s) {
        assert forall|a: int, b: int| 0 <= a < b < t.len() implies #[trigger] t[a].id@ != #[trigger] t[b].id@ by {
            let a2 = if a <= i { a } else { a - 1 };
            let b2 = if b <= i { b } else { b - 1 };
            if a == i + 1 {
                assert(s[b2].id@ != id@);
            } else if b == i + 1 {
                assert(s[a2].id@ != id@);
            } else {
                assert(t[a].id == s[a2].id && t[b].id == s[b2].id);
                assert(s[a2].id@ != s[b2].id@);
            }
        }
    }
}

/// The outcome of a pushing timing edit, as the ripple rule computes it:
/// the edited block's new span and the new spans of the blocks it pushes,
/// each named by its index among the other blocks of the track (the track
/// without the edited block), applied in order.
#[derive(Debug, PartialEq, Eq)]
pub struct BreathRipple {
    pub edited: (u32, u32),
    pub shifted: Vec<(usize, u32, u32)>,
}

/// The track index of the block at `other` among the blocks other than `idx`.
pub open spec fn other_index(idx: int, other: int) -> int {
    if other < idx { other } else { other + 1 }
}

/// The blocks with the shifts applied in order.
pub open spec fn apply_shifts(s: Seq<SharedDocumentPropertyBlock>, idx: int, shifts: Seq<(usize, u32, u32)>) -> Seq<SharedDocumentPropertyBlock>
    decreases shifts.len(),
{
    if shifts.len() == 0 {
        s
    } else {
        let (o, st, ln) = shifts.last();
        let t = other_index(idx, o as int);
        let before = apply_shifts(s, idx, shifts.drop_last());
        before.update(t, with_timing(before[t], st, ln))
    }
}

/// The blocks after a pushing edit of block `idx`: its new span, then the
/// pushed blocks' new spans.
pub open spec fn rippled(s: Seq<SharedDocumentPropertyBlock>, idx: int, edited: (u32, u32), shifts: Seq<(usize, u32, u32)>) -> Seq<SharedDocumentPropertyBlock> {
    apply_shifts(s.update(idx, with_timing(s[idx], edited.0, edited.1)), idx, shifts)
}

/// Every shift names one of the `n - 1` other blocks.
pub open spec fn shifts_in_range(shifts: Seq<(usize, u32, u32)>, n: int) -> bool {
    forall|k: int| 0 <= k < shifts.len() ==> (#[trigger] shifts[k]).0 + 1 < n
}

/// Every span the ripple gives reaches at most `bound`, and is at least one
/// breath long when `positive`.
pub open spec fn ripple_within(edited: (u32, u32), shifts: Seq<(usize, u32, u32)>, bound: int) -> bool {
    &&& edited.0 + min1(edited.1) <= bound
    &&& forall|k: int| 0 <= k < shifts.len() ==> (#[trigger] shifts[k]).1 + min1(shifts[k].2) <= bound
}

/// Every span the ripple gives is at least one breath long.
pub open spec fn ripple_positive(edited: (u32, u32), shifts: Seq<(usize, u32, u32)>) -> bool {
    &&& edited.1 >= 1
    &&& forall|k: int| 0 <= k < shifts.len() ==> (#[trigger] shifts[k]).2 >= 1
}

/// A ripple only moves blocks: ids, length, and the bounds of every block
/// follow from the old blocks and the given spans.
pub proof fn lemma_rippled_keeps(
    s: Seq<SharedDocumentPropertyBlock>,
    idx: int,
    edited: (u32, u32),
    shifts: Seq<(usize, u32, u32)>,
    bound: int,
)
    requires
        0 <= idx < s.len(),
        shifts_in_range(shifts, s.len() as int),
        ripple_within(edited, shifts, bound),
        forall|k: int| 0 <= k < s.len() ==> block_reach(#[trigger] s[k]) <= bound,
    ensures
        rippled(s, idx, edited, shifts).len() == s.len(),
        forall|k: int| 0 <= k < s.len() ==> (#[trigger] rippled(s, idx, edited, shifts)[k]).id == s[k].id
            && rippled(s, idx, edited, shifts)[k].is_blank == s[k].is_blank,
        forall|k: int| 0 <= k < s.len() ==> block_reach(#[trigger] rippled(s, idx, edited, shifts)[k]) <= bound,
        ids_distinct(s) ==> ids_distinct(rippled(s, idx, edited, shifts)),
        lengths_positive(s) && ripple_positive(edited, shifts) ==> lengths_positive(rippled(s, idx, edited, shifts)),
    decreases shifts.len(),
{
    let r = rippled(s, idx, edited, shifts);
    if shifts.len() == 0 {
        let t = s.update(idx, with_timing(s[idx], edited.0, edited.1));
        assert(r == t);
    } else {
        let d = shifts.drop_last();
        assert forall|k: int| 0 <= k < d.len() implies (#[trigger] d[k]).0 + 1 < s.len() by {
            assert(d[k] == shifts[k]);
        }
        assert forall|k: int| 0 <= k < d.len() implies (#[trigger] d[k]).1 + min1(d[k].2) <= bound by {
            assert(d[k] == shifts[k]);
        }
        if ripple_positive(edited, shifts) {
            assert forall|k: int| 0 <= k < d.len() implies (#[trigger] d[k]).2 >= 1 by {
                assert(d[k] == shifts[k]);
            }
        }
        lemma_rippled_keeps(s, idx, edited, d, bound);
        let prev = rippled(s, idx, edited, d);
        let (o, st, ln) = shifts.last();
        assert(shifts.last() == shifts[shifts.len() - 1]);
        let t = other_index(idx, o as int);
        assert(r == prev.update(t, with_timing(prev[t], st, ln)));
        if ids_distinct(s) {
            assert forall|a: int, b: int| 0 <= a < b < r.len() implies #[trigger] r[a].id@ != #[trigger] r[b].id@ by {
                assert(r[a].id == s[a].id && r[b].id == s[b].id);
            }
        }
    }
}

/// Applies a pushing edit's spans to block `idx` and the blocks it pushes.
pub fn apply_ripple(blocks: &mut Vec<SharedDocumentPropertyBlock>, idx: usize, ripple: &BreathRipple)
    requires
        idx < old(blocks)@.len(),
        shifts_in_range(ripple.shifted@, old(blocks)@.len() as int),
    ensures
        final(blocks)@ == rippled(old(blocks)@, idx as int, ripple.edited, ripple.shifted@),
{
    let ghost s = blocks@;
    let mut b = blocks.remove(idx);
    b.start_breath = ripple.edited.0;
    b.length_breaths = ripple.edited.1;
    blocks.insert(idx, b);
    proof {
        assert(blocks@ =~= s.update(idx as int, with_timing(s[idx as int], ripple.edited.0, ripple.edited.1)));
    }
    let ghost base = blocks@;
    let mut k: usize = 0;
    proof {
        assert(ripple.shifted@.take(0) =~= Seq::<(usize, u32, u32)>::empty());
    }
    while k < ripple.shifted.len()
        invariant
            base.len() == s.len(),
            idx < s.len(),
            shifts_in_range(ripple.shifted@, s.len() as int),
            k <= ripple.shifted@.len(),
            blocks@ == apply_shifts(base, idx as int, ripple.shifted@.take(k as int)),
            blocks@.len() == s.len(),
        decreases ripple.shifted@.len() - k,
    {
        let entry = ripple.shifted[k];
        let o = entry.0;
        let st = entry.1;
        let ln = entry.2;
        assert(entry == ripple.shifted@[k as int]);
        let n = blocks.len();
        assert(o + 1 < n);
        let t: usize = if o < idx { o } else { o + 1 };
        let ghost prev = blocks@;
        let mut b = blocks.remove(t);
        b.start_breath = st;
        b.length_breaths = ln;
        blocks.insert(t, b);
        proof {
            let tk = ripple.shifted@.take(k + 1);
            assert(tk.drop_last() =~= ripple.shifted@.take(k as int));
            assert(tk.last() == ripple.shifted@[k as int]);
            assert(blocks@ =~= prev.update(t as int, with_timing(prev[t as int], st, ln)));
        }
        k = k + 1;
    }
    proof {
        assert(ripple.shifted@.take(k as int) =~= ripple.shifted@);
    }
}

} // verus!
