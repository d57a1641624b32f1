//! The destructive timing edit of a property block: the block takes the span
//! it was given, the neighbors it overlaps are cropped (a neighbor it
//! straddles splits, the far remainder becoming a new block with a fresh
//! id), and the neighbors it covers are removed. What the span rule
//! resolved comes in as a `DestructiveCut`; applying it is stated exactly.

use vstd::prelude::*;
use crate::track::{
    SharedDocumentPropertyBlock, block_reach, min1, lengths_positive, ids_distinct,
    next_property_block_id, lemma_next_id_fresh, is_next_block_id,
};
use crate::track_ops::{with_timing, other_index};

verus! {

/// What the destructive span rule resolved for one edit: the cropped
/// neighbors' remainders (a neighbor named twice is straddled: its second
/// remainder splits off), and the covered neighbors. Neighbors are numbered
/// among the blocks other than the edited one.
#[derive(Debug, PartialEq, Eq)]
pub struct DestructiveCut {
    pub trimmed: Vec<(usize, u32, u32)>,
    pub removed: Vec<usize>,
}

/// `p` is the first position whose block starts after `st`, or the length.
pub open spec fn is_first_after(s: Seq<SharedDocumentPropertyBlock>, st: u32, p: int) -> bool {
    &&& 0 <= p <= s.len()
    &&& forall|j: int| 0 <= j < p ==> (#[trigger] s[j]).start_breath <= st
    &&& p < s.len() ==> s[p].start_breath > st
}

/// The block split off a straddled neighbor: its kind and value, a fresh id
/// and the far remainder.
pub open spec fn split_off(victim: SharedDocumentPropertyBlock, id: String, st: u32, ln: u32) -> SharedDocumentPropertyBlock {
    SharedDocumentPropertyBlock {
        id,
        start_breath: st,
        length_breaths: ln,
        is_blank: victim.is_blank,
        value: victim.value,
        interpretation: None,
        ease_out_percent: None,
        ease_in_percent: None,
    }
}

/// One crop: the first remainder of neighbor `t` takes its place; a second
/// one is inserted before the first block that starts after it, under the
/// next free id, which `added` records.
pub open spec fn trim_step(
    prev: Seq<SharedDocumentPropertyBlock>,
    seen: Seq<usize>,
    added: Seq<Seq<char>>,
    t: int,
    st: u32,
    ln: u32,
    next: Seq<SharedDocumentPropertyBlock>,
    next_seen: Seq<usize>,
    next_added: Seq<Seq<char>>,
) -> bool {
    if seen.contains(t as usize) {
        &&& next_seen == seen
        &&& exists|id: String, p: int| {
            &&& is_next_block_id(prev, id@)
            &&& forall|k: int| 0 <= k < prev.len() ==> (#[trigger] prev[k]).id@ != id@
            &&& is_first_after(prev, st, p)
            &&& next == prev.insert(p, split_off(prev[t], id, st, ln))
            &&& next_added == added.push(id@)
        }
    } else {
        &&& next == prev.update(t, with_timing(prev[t], st, ln))
        &&& next_seen == seen.push(t as usize)
        &&& next_added == added
    }
}

/// The states a run of crops goes through, from `s`, whose edited block
/// is at `idx`: blocks, the neighbors cropped once, the ids split off.
pub open spec fn trims_trace(
    s: Seq<SharedDocumentPropertyBlock>,
    idx: int,
    trims: Seq<(usize, u32, u32)>,
    states: Seq<(Seq<SharedDocumentPropertyBlock>, Seq<usize>, Seq<Seq<char>>)>,
) -> bool {
    &&& states.len() == trims.len() + 1
    &&& states[0] == (s, Seq::<usize>::empty(), Seq::<Seq<char>>::empty())
    &&& forall|k: int| 0 <= k < trims.len() ==> trim_step(states[k].0, states[k].1, states[k].2,
        other_index(idx, (#[trigger] trims[k]).0 as int), trims[k].1, trims[k].2,
        states[k + 1].0, states[k + 1].1, states[k + 1].2)
}

/// The track positions of the covered neighbors.
pub open spec fn removed_positions(idx: int, removed: Seq<usize>) -> Set<int> {
    Set::new(|p: int| exists|j: int| 0 <= j < removed.len() && other_index(idx, #[trigger] removed[j] as int) == p)
}

/// The blocks of `u` from position `k` on whose positions are not in `rs`.
pub open spec fn kept_from(u: Seq<SharedDocumentPropertyBlock>, rs: Set<int>, k: int) -> Seq<SharedDocumentPropertyBlock>
    decreases u.len() - k,
{
    if k >= u.len() || k < 0 {
        Seq::empty()
    } else {
        let rest = kept_from(u, rs, k + 1);
        if rs.contains(k) { rest } else { seq![u[k]] + rest }
    }
}

/// The ids of the covered neighbors, in the order the cut names them.
pub open spec fn removed_ids(u: Seq<SharedDocumentPropertyBlock>, idx: int, removed: Seq<usize>) -> Seq<Seq<char>> {
    Seq::new(removed.len(), |j: int| u[other_index(idx, removed[j] as int)].id@)
}

/// The blocks after a destructive edit of block `idx` of `s`, before the
/// track re-tiles, with the ids whose canvases go (`dropped`) and the ids of
/// the split-off blocks, which get empty canvases (`added`).
pub open spec fn cut_applied(
    s: Seq<SharedDocumentPropertyBlock>,
    idx: int,
    edited: (u32, u32),
    trims: Seq<(usize, u32, u32)>,
    removed: Seq<usize>,
    out: Seq<SharedDocumentPropertyBlock>,
    dropped: Seq<Seq<char>>,
    added: Seq<Seq<char>>,
) -> bool {
    exists|states: Seq<(Seq<SharedDocumentPropertyBlock>, Seq<usize>, Seq<Seq<char>>)>| {
        &&& trims_trace(s.update(idx, with_timing(s[idx], edited.0, edited.1)), idx, trims, states)
        &&& out == kept_from(states.last().0, removed_positions(idx, removed), 0)
        &&& dropped == removed_ids(states.last().0, idx, removed)
        &&& added == states.last().2
    }
}

/// The cut names blocks of an `n`-block track, each covered neighbor once,
/// and leaves room for the blocks it splits off.
pub open spec fn cut_fits(trims: Seq<(usize, u32, u32)>, removed: Seq<usize>, n: int) -> bool {
    &&& forall|k: int| 0 <= k < trims.len() ==> (#[trigger] trims[k]).0 + 1 < n
    &&& forall|k: int| 0 <= k < removed.len() ==> #[trigger] removed[k] + 1 < n
    &&& forall|a: int, b: int| 0 <= a < b < removed.len() ==> #[trigger] removed[a] != #[trigger] removed[b]
    &&& n + trims.len() < u32::MAX
}

/// Every span the cut gives reaches at most `bound`.
pub open spec fn cut_within(edited: (u32, u32), trims: Seq<(usize, u32, u32)>, bound: int) -> bool {
    &&& edited.0 + min1(edited.1) <= bound
    &&& forall|k: int| 0 <= k < trims.len() ==> (#[trigger] trims[k]).1 + min1(trims[k].2) <= bound
}

/// Every span the cut gives is at least one breath long.
pub open spec fn cut_positive(edited: (u32, u32), trims: Seq<(usize, u32, u32)>) -> bool {
    &&& edited.1 >= 1
    &&& forall|k: int| 0 <= k < trims.len() ==> (#[trigger] trims[k]).2 >= 1
}

fn contains_index(v: &Vec<usize>, x: usize) -> (r: bool)
    ensures
        r == v@.contains(x),
{
    let mut i: usize = 0;
    while i < v.len()
        invariant
            i <= v@.len(),
            forall|j: int| 0 <= j < i ==> v@[j] != x,
        decreases v@.len() - i,
    {
        if v[i] == x {
            assert(v@[i as int] == x);
            return true;
        }
        i = i + 1;
    }
    false
}

fn first_after(blocks: &Vec<SharedDocumentPropertyBlock>, st: u32) -> (p: usize)
    ensures
        is_first_after(blocks@, st, p as int),
{
    let mut i: usize = 0;
    while i < blocks.len()
        invariant
            i <= blocks@.len(),
            forall|j: int| 0 <= j < i ==> (#[trigger] blocks@[j]).start_breath <= st,
        decreases blocks@.len() - i,
    {
        if blocks[i].start_breath > st {
            return i;
        }
        i = i + 1;
    }
    i
}

fn in_removed(removed: &Vec<usize>, idx: usize, k: usize, n: usize) -> (r: bool)
    requires
        forall|j: int| 0 <= j < removed@.len() ==> #[trigger] removed@[j] + 1 < n,
    ensures
        r == removed_positions(idx as int, removed@).contains(k as int),
{
    let mut j: usize = 0;
    while j < removed.len()
        invariant
            j <= removed@.len(),
            forall|i: int| 0 <= i < removed@.len() ==> #[trigger] removed@[i] + 1 < n,
            forall|i: int| 0 <= i < j ==> other_index(idx as int, #[trigger] removed@[i] as int) != k,
        decreases removed@.len() - j,
    {
        let o = removed[j];
        let t = if o < idx { o } else { o + 1 };
        if t == k {
            assert(other_index(idx as int, removed@[j as int] as int) == k);
            return true;
        }
        j = j + 1;
    }
    false
}


/// The views of a list of strings.
pub open spec fn ids_view(v: Seq<String>) -> Seq<Seq<char>> {
    v.map_values(|x: String| x@)
}

/// Applies a destructive cut to block `idx`: its new span, the crops in
/// order, then the removals. Returns the ids of the removed blocks and of
/// the blocks split off.
pub fn apply_cut(blocks: &mut Vec<SharedDocumentPropertyBlock>, idx: usize, edited: (u32, u32), cut: &DestructiveCut) -> (r: (Vec<String>, Vec<String>))
    requires
        idx < old(blocks)@.len(),
        cut_fits(cut.trimmed@, cut.removed@, old(blocks)@.len() as int),
    ensures
        cut_applied(old(blocks)@, idx as int, edited, cut.trimmed@, cut.removed@, final(blocks)@, ids_view(r.0@), ids_view(r.1@)),
{
    let ghost s = blocks@;
    let n = blocks.len();
    let mut b = blocks.remove(idx);
    b.start_breath = edited.0;
    b.length_breaths = edited.1;
    blocks.insert(idx, b);
    let ghost s1 = blocks@;
    proof {
        assert(s1 =~= s.update(idx as int, with_timing(s[idx as int], edited.0, edited.1)));
        assert(cut.trimmed@.take(0) =~= Seq::<(usize, u32, u32)>::empty());
    }
    let mut seen: Vec<usize> = Vec::new();
    let mut added: Vec<String> = Vec::new();
    let ghost mut states = seq![(s1, Seq::<usize>::empty(), Seq::<Seq<char>>::empty())];
    proof {
        assert(ids_view(added@) =~= Seq::<Seq<char>>::empty());
        assert(seen@ =~= Seq::<usize>::empty());
    }
    let mut k: usize = 0;
    while k < cut.trimmed.len()
        invariant
            s1.len() == n,
            idx < n,
            cut_fits(cut.trimmed@, cut.removed@, n as int),
            k <= cut.trimmed@.len(),
            n <= blocks@.len() <= n + k,
            states.len() == k + 1,
            states[0] == (s1, Seq::<usize>::empty(), Seq::<Seq<char>>::empty()),
            forall|j: int| 0 <= j < k ==> trim_step(states[j].0, states[j].1, states[j].2,
                other_index(idx as int, (#[trigger] cut.trimmed@[j]).0 as int), cut.trimmed@[j].1, cut.trimmed@[j].2,
                states[j + 1].0, states[j + 1].1, states[j + 1].2),
            states.last() == (blocks@, seen@, ids_view(added@)),
        decreases cut.trimmed@.len() - k,
    {
        let entry = cut.trimmed[k];
        let o = entry.0;
        let st = entry.1;
        let ln = entry.2;
        assert(entry == cut.trimmed@[k as int]);
        let t: usize = if o < idx { o } else { o + 1 };
        let ghost prev = blocks@;
        let ghost prev_seen = seen@;
        let ghost prev_added = ids_view(added@);
        if contains_index(&seen, t) {
            let is_blank = blocks[t].is_blank;
            let value = match &blocks[t].value {
                Some(v) => Some(v.copy()),
                None => None,
            };
            let id = next_property_block_id(&blocks);
            proof {
                lemma_next_id_fresh(prev, id@);
            }
            let p = first_after(&blocks, st);
            let piece = SharedDocumentPropertyBlock {
                id: id.clone(),
                start_breath: st,
                length_breaths: ln,
                is_blank,
                value,
                interpretation: None,
                ease_out_percent: None,
                ease_in_percent: None,
            };
            blocks.insert(p, piece);
            added.push(id);
            proof {
                assert(ids_view(added@) =~= prev_added.push(id@));
                assert(blocks@ =~= prev.insert(p as int, split_off(prev[t as int], id, st, ln)));
                assert(trim_step(prev, prev_seen, prev_added, t as int, st, ln, blocks@, seen@, ids_view(added@)));
            }
        } else {
            let mut c = blocks.remove(t);
            c.start_breath = st;
            c.length_breaths = ln;
            blocks.insert(t, c);
            seen.push(t);
            proof {
                assert(blocks@ =~= prev.update(t as int, with_timing(prev[t as int], st, ln)));
                assert(trim_step(prev, prev_seen, prev_added, t as int, st, ln, blocks@, seen@, ids_view(added@)));
            }
        }
        proof {
            assert(other_index(idx as int, cut.trimmed@[k as int].0 as int) == t);
            let old_states = states;
            states = states.push((blocks@, seen@, ids_view(added@)));
            assert forall|j: int| 0 <= j < k + 1 implies trim_step(states[j].0, states[j].1, states[j].2,
                other_index(idx as int, (#[trigger] cut.trimmed@[j]).0 as int), cut.trimmed@[j].1, cut.trimmed@[j].2,
                states[j + 1].0, states[j + 1].1, states[j + 1].2) by {
                if j < k {
                    assert(states[j] == old_states[j]);
                    assert(states[j + 1] == old_states[j + 1]);
                } else {
                    assert(states[j] == old_states.last());
                }
            }
        }
        k = k + 1;
    }
    let ghost u = blocks@;
    proof {
        assert(trims_trace(s1, idx as int, cut.trimmed@, states));
    }
    let ghost rs = removed_positions(idx as int, cut.removed@);
    let mut dropped: Vec<String> = Vec::new();
    let mut j: usize = 0;
    while j < cut.removed.len()
        invariant
            blocks@ == u,
            n <= u.len(),
            idx < n,
            cut_fits(cut.trimmed@, cut.removed@, n as int),
            j <= cut.removed@.len(),
            ids_view(dropped@) =~= removed_ids(u, idx as int, cut.removed@).take(j as int),
        decreases cut.removed@.len() - j,
    {
        let o = cut.removed[j];
        assert(o == cut.removed@[j as int]);
        let t: usize = if o < idx { o } else { o + 1 };
        let id = blocks[t].id.clone();
        let ghost before = ids_view(dropped@);
        dropped.push(id);
        proof {
            assert(id == u[t as int].id);
            assert(ids_view(dropped@) =~= before.push(u[t as int].id@));
            assert(ids_view(dropped@) =~= removed_ids(u, idx as int, cut.removed@).take(j + 1));
        }
        j = j + 1;
    }
    proof {
        assert(removed_ids(u, idx as int, cut.removed@).take(j as int) =~= removed_ids(u, idx as int, cut.removed@));
    }
    let mut m: usize = blocks.len();
    proof {
        assert(u.take(m as int) =~= u);
        assert(kept_from(u, rs, m as int) =~= Seq::<SharedDocumentPropertyBlock>::empty());
        assert(blocks@ =~= u.take(m as int) + kept_from(u, rs, m as int));
    }
    while m > 0
        invariant
            m <= u.len(),
            forall|i: int| 0 <= i < cut.removed@.len() ==> #[trigger] cut.removed@[i] + 1 < n,
            rs == removed_positions(idx as int, cut.removed@),
            blocks@ == u.take(m as int) + kept_from(u, rs, m as int),
        decreases m,
    {
        m = m - 1;
        let ghost rest = kept_from(u, rs, m + 1);
        if in_removed(&cut.removed, idx, m, n) {
            blocks.remove(m);
            proof {
                assert(blocks@ =~= u.take(m as int) + rest);
            }
        } else {
            proof {
                assert(blocks@ =~= u.take(m as int) + (seq![u[m as int]] + rest));
            }
        }
    }
    proof {
        assert(u.take(0) =~= Seq::<SharedDocumentPropertyBlock>::empty());
        assert(blocks@ =~= kept_from(u, rs, 0));
        assert(states.last().0 == u);
    }
    (dropped, added)
}


/// The shape facts a block sequence keeps through a cut.
pub open spec fn cut_shape(s: Seq<SharedDocumentPropertyBlock>, bound: int, distinct: bool, positive: bool) -> bool {
    &&& forall|k: int| 0 <= k < s.len() ==> block_reach(#[trigger] s[k]) <= bound
    &&& distinct ==> ids_distinct(s)
    &&& positive ==> lengths_positive(s)
}

proof fn lemma_trace_shape(
    s: Seq<SharedDocumentPropertyBlock>,
    idx: int,
    trims: Seq<(usize, u32, u32)>,
    states: Seq<(Seq<SharedDocumentPropertyBlock>, Seq<usize>, Seq<Seq<char>>)>,
    bound: int,
    distinct: bool,
    positive: bool,
    k: int,
)
    requires
        trims_trace(s, idx, trims, states),
        0 <= k <= trims.len(),
        0 <= idx < s.len(),
        forall|j: int| 0 <= j < trims.len() ==> (#[trigger] trims[j]).0 + 1 < s.len(),
        forall|j: int| 0 <= j < trims.len() ==> (#[trigger] trims[j]).1 + min1(trims[j].2) <= bound,
        positive ==> forall|j: int| 0 <= j < trims.len() ==> (#[trigger] trims[j]).2 >= 1,
        cut_shape(s, bound, distinct, positive),
    ensures
        cut_shape(states[k].0, bound, distinct, positive),
        states[k].0.len() >= s.len(),
    decreases k,
{
    if k > 0 {
        lemma_trace_shape(s, idx, trims, states, bound, distinct, positive, k - 1);
        let prev = states[k - 1].0;
        let next = states[k].0;
        let tr = trims[k - 1];
        let t = other_index(idx, tr.0 as int);
        assert(trim_step(prev, states[k - 1].1, states[k - 1].2, t, tr.1, tr.2, next, states[k].1, states[k].2));
        assert(0 <= t < prev.len());
        if states[k - 1].1.contains(t as usize) {
            let (id, p) = choose|id: String, p: int| {
                &&& is_next_block_id(prev, id@)
                &&& forall|j: int| 0 <= j < prev.len() ==> (#[trigger] prev[j]).id@ != id@
                &&& is_first_after(prev, tr.1, p)
                &&& next == prev.insert(p, split_off(prev[t], id, tr.1, tr.2))
                &&& states[k].2 == states[k - 1].2.push(id@)
            };
            let piece = split_off(prev[t], id, tr.1, tr.2);
            assert forall|j: int| 0 <= j < next.len() implies #[trigger] next[j] == (if j < p { prev[j] } else if j == p { piece } else { prev[j - 1] }) by {}
            assert forall|j: int| 0 <= j < next.len() implies block_reach(#[trigger] next[j]) <= bound by {
                if j < p { assert(next[j] == prev[j]); } else if j > p { assert(next[j] == prev[j - 1]); }
            }
            if distinct {
                assert forall|a: int, b: int| 0 <= a < b < next.len() implies #[trigger] next[a].id@ != #[trigger] next[b].id@ by {
                    let a2 = if a < p { a } else { a - 1 };
                    let b2 = if b < p { b } else { b - 1 };
                    if a == p {
                        assert(next[b] == prev[b2]);
                    } else if b == p {
                        assert(next[a] == prev[a2]);
                    } else {
                        assert(next[a] == prev[a2] && next[b] == prev[b2]);
                    }
                }
            }
            if positive {
                assert forall|j: int| 0 <= j < next.len() implies #[trigger] next[j].length_breaths >= 1 by {
                    if j < p { assert(next[j] == prev[j]); } else if j > p { assert(next[j] == prev[j - 1]); }
                }
            }
        } else {
            assert(next == prev.update(t, with_timing(prev[t], tr.1, tr.2)));
            assert forall|j: int| 0 <= j < next.len() implies block_reach(#[trigger] next[j]) <= bound by {
                if j != t { assert(next[j] == prev[j]); }
            }
            if distinct {
                assert forall|a: int, b: int| 0 <= a < b < next.len() implies #[trigger] next[a].id@ != #[trigger] next[b].id@ by {
                    assert(next[a].id == prev[a].id && next[b].id == prev[b].id);
                }
            }
            if positive {
                assert forall|j: int| 0 <= j < next.len() implies #[trigger] next[j].length_breaths >= 1 by {
                    if j != t { assert(next[j] == prev[j]); }
                }
            }
        }
    }
}

proof fn lemma_kept_from(u: Seq<SharedDocumentPropertyBlock>, rs: Set<int>, k: int, bound: int, distinct: bool, positive: bool)
    requires
        0 <= k <= u.len(),
        cut_shape(u, bound, distinct, positive),
    ensures
        cut_shape(kept_from(u, rs, k), bound, distinct, positive),
        forall|i: int| 0 <= i < kept_from(u, rs, k).len() ==> exists|j: int| k <= j < u.len() && #[trigger] kept_from(u, rs, k)[i] == u[j],
    decreases u.len() - k,
{
    if k < u.len() {
        lemma_kept_from(u, rs, k + 1, bound, distinct, positive);
        let rest = kept_from(u, rs, k + 1);
        let out = kept_from(u, rs, k);
        if !rs.contains(k) {
            assert(out == seq![u[k]] + rest);
            assert forall|i: int| 0 <= i < out.len() implies exists|j: int| k <= j < u.len() && #[trigger] out[i] == u[j] by {
                if i == 0 {
                    assert(out[0] == u[k]);
                } else {
                    assert(out[i] == rest[i - 1]);
                    let j = choose|j: int| k + 1 <= j < u.len() && #[trigger] rest[i - 1] == u[j];
                    assert(out[i] == u[j]);
                }
            }
            assert forall|i: int| 0 <= i < out.len() implies block_reach(#[trigger] out[i]) <= bound by {
                if i > 0 {
                    assert(out[i] == rest[i - 1]);
                }
            }
            if distinct {
                assert forall|a: int, b: int| 0 <= a < b < out.len() implies #[trigger] out[a].id@ != #[trigger] out[b].id@ by {
                    assert(out[b] == rest[b - 1]);
                    let jb = choose|j: int| k + 1 <= j < u.len() && #[trigger] rest[b - 1] == u[j];
                    if a == 0 {
                        assert(u[k].id@ != u[jb].id@);
                    } else {
                        assert(out[a] == rest[a - 1]);
                    }
                }
            }
            if positive {
                assert forall|i: int| 0 <= i < out.len() implies #[trigger] out[i].length_breaths >= 1 by {
                    if i > 0 {
                        assert(out[i] == rest[i - 1]);
                    }
                }
            }
        } else {
            assert forall|i: int| 0 <= i < out.len() implies exists|j: int| k <= j < u.len() && #[trigger] out[i] == u[j] by {
                let j = choose|j: int| k + 1 <= j < u.len() && #[trigger] rest[i] == u[j];
            }
        }
    }
}

/// A cut keeps every reach within `bound` when its spans are, keeps the
/// ids distinct, and keeps the lengths positive when its spans are.
pub proof fn lemma_cut_keeps(
    s: Seq<SharedDocumentPropertyBlock>,
    idx: int,
    edited: (u32, u32),
    trims: Seq<(usize, u32, u32)>,
    removed: Seq<usize>,
    out: Seq<SharedDocumentPropertyBlock>,
    dropped: Seq<Seq<char>>,
    added: Seq<Seq<char>>,
    bound: int,
)
    requires
        0 <= idx < s.len(),
        cut_fits(trims, removed, s.len() as int),
        cut_within(edited, trims, bound),
        forall|k: int| 0 <= k < s.len() ==> block_reach(#[trigger] s[k]) <= bound,
        cut_applied(s, idx, edited, trims, removed, out, dropped, added),
    ensures
        forall|k: int| 0 <= k < out.len() ==> block_reach(#[trigger] out[k]) <= bound,
        ids_distinct(s) ==> ids_distinct(out),
        lengths_positive(s) && cut_positive(edited, trims) ==> lengths_positive(out),
{
    let states = choose|states: Seq<(Seq<SharedDocumentPropertyBlock>, Seq<usize>, Seq<Seq<char>>)>| {
        &&& trims_trace(s.update(idx, with_timing(s[idx], edited.0, edited.1)), idx, trims, states)
        &&& out == kept_from(states.last().0, removed_positions(idx, removed), 0)
        &&& dropped == removed_ids(states.last().0, idx, removed)
        &&& added == states.last().2
    };
    let s1 = s.update(idx, with_timing(s[idx], edited.0, edited.1));
    let distinct = ids_distinct(s);
    let positive = lengths_positive(s) && cut_positive(edited, trims);
    assert forall|k: int| 0 <= k < s1.len() implies block_reach(#[trigger] s1[k]) <= bound by {
        if k != idx { assert(s1[k] == s[k]); }
    }
    if distinct {
        assert forall|a: int, b: int| 0 <= a < b < s1.len() implies #[trigger] s1[a].id@ != #[trigger] s1[b].id@ by {
            assert(s1[a].id == s[a].id && s1[b].id == s[b].id);
        }
    }
    if positive {
        assert forall|k: int| 0 <= k < s1.len() implies #[trigger] s1[k].length_breaths >= 1 by {
            if k != idx { assert(s1[k] == s[k]); }
        }
    }
    lemma_trace_shape(s1, idx, trims, states, bound, distinct, positive, trims.len() as int);
    assert(states.last() == states[trims.len() as int]);
    lemma_kept_from(states.last().0, removed_positions(idx, removed), 0, bound, distinct, positive);
}

} // verus!
