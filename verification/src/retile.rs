//! Re-tiling of property tracks into the binary tiling.

use vstd::prelude::*;
use crate::track::{
    SharedDocumentPropertyBlock, plain_blank, new_blank, block_end, min1, block_reach, max_reach,
    lemma_max_reach_bounds, lemma_max_reach_le, is_contiguous, no_adjacent_blanks, lengths_positive,
    ids_distinct, edge_modes, solids_clean, is_binary_tiling, span_end_spec, piece_of, solids_come_from,
    push_tiled_block, has_id, next_free_block_id, contains_id, cleared, stripped_at,
    enforce_loop_mode_edges, lemma_contiguous_increasing, covers, covered_by, blank_at, blanks_only_over_gaps,
    keeps_breaths, lemma_contiguous_starts, lemma_contiguous_covers, is_next_block_id, xs, lemma_next_id_same_ids,
};
use crate::text::push_char;

verus! {

/// `c` keeps everything of `b` but possibly its timing.
pub open spec fn same_but_timing(c: SharedDocumentPropertyBlock, b: SharedDocumentPropertyBlock) -> bool {
    &&& c.id == b.id
    &&& c.is_blank == b.is_blank
    &&& c.value == b.value
    &&& c.interpretation == b.interpretation
    &&& c.ease_out_percent == b.ease_out_percent
    &&& c.ease_in_percent == b.ease_in_percent
}

/// Every block of the sequence starts at or after `span_start`.
pub open spec fn all_start_at_or_after(s: Seq<SharedDocumentPropertyBlock>, span_start: u32) -> bool {
    forall|j: int| 0 <= j < s.len() ==> (#[trigger] s[j]).start_breath >= span_start
}

/// What the clipping pass guarantees after reading the first `i` blocks.
#[verifier::opaque]
pub open spec fn clip_ok(
    clipped: Seq<SharedDocumentPropertyBlock>,
    blocks: Seq<SharedDocumentPropertyBlock>,
    span_start: u32,
    i: int,
) -> bool {
    &&& all_start_at_or_after(clipped, span_start)
    &&& forall|k: int| 0 <= k < clipped.len() ==> exists|j: int| 0 <= j < i
        && same_but_timing(#[trigger] clipped[k], blocks[j]) && piece_of(clipped[k], blocks[j])
    &&& (lengths_positive(blocks) ==> lengths_positive(clipped))
    &&& (ids_distinct(blocks) ==> ids_distinct(clipped))
    &&& (all_start_at_or_after(blocks, span_start) && lengths_positive(blocks) ==> clipped == blocks.subrange(0, i))
    &&& forall|j: int, x: int| 0 <= j < i && #[trigger] covers(blocks[j], x) && x >= span_start ==> covered_by(clipped, x)
    &&& forall|x: int| blank_at(clipped, x) ==> blank_at(blocks, x)
}

proof fn lemma_clip_start(blocks: Seq<SharedDocumentPropertyBlock>, span_start: u32)
    ensures
        clip_ok(Seq::empty(), blocks, span_start, 0),
{
    reveal(clip_ok);
    assert(Seq::<SharedDocumentPropertyBlock>::empty() =~= blocks.subrange(0, 0));
}

proof fn lemma_clip_skip(
    clipped: Seq<SharedDocumentPropertyBlock>,
    blocks: Seq<SharedDocumentPropertyBlock>,
    span_start: u32,
    i: int,
)
    requires
        0 <= i < blocks.len(),
        clip_ok(clipped, blocks, span_start, i),
        blocks[i].start_breath < span_start || blocks[i].length_breaths == 0,
        block_end(blocks[i]) <= span_start || blocks[i].length_breaths == 0,
    ensures
        clip_ok(clipped, blocks, span_start, i + 1),
{
    reveal(clip_ok);
}

proof fn lemma_clip_push(
    clipped: Seq<SharedDocumentPropertyBlock>,
    blocks: Seq<SharedDocumentPropertyBlock>,
    span_start: u32,
    i: int,
    block: SharedDocumentPropertyBlock,
)
    requires
        0 <= i < blocks.len(),
        clip_ok(clipped, blocks, span_start, i),
        block.start_breath >= span_start,
        same_but_timing(block, blocks[i]),
        piece_of(block, blocks[i]),
        blocks[i].length_breaths >= 1 ==> block.length_breaths >= 1,
        blocks[i].start_breath >= span_start ==> block == blocks[i],
        blocks[i].length_breaths == 0 ==> block == blocks[i],
        blocks[i].length_breaths >= 1 ==> block_end(block) == block_end(blocks[i])
            && block.start_breath == (if blocks[i].start_breath > span_start { blocks[i].start_breath } else { span_start }),
    ensures
        clip_ok(clipped.push(block), blocks, span_start, i + 1),
{
    reveal(clip_ok);
    let c2 = clipped.push(block);
    assert forall|j: int, x: int| 0 <= j < i + 1 && #[trigger] covers(blocks[j], x) && x >= span_start implies covered_by(c2, x) by {
        if j < i {
            let k = choose|k: int| 0 <= k < clipped.len() && #[trigger] covers(clipped[k], x);
            assert(c2[k] == clipped[k]);
        } else {
            assert(covers(c2[clipped.len() as int], x));
        }
    }
    assert forall|x: int| blank_at(c2, x) implies blank_at(blocks, x) by {
        let k = choose|k: int| 0 <= k < c2.len() && c2[k].is_blank && #[trigger] covers(c2[k], x);
        if k < clipped.len() {
            assert(c2[k] == clipped[k]);
            assert(blank_at(clipped, x));
        } else {
            assert(c2[k] == block);
            assert(covers(blocks[i], x));
        }
    }
    assert forall|k: int| 0 <= k < c2.len() implies exists|j: int| 0 <= j < i + 1
        && same_but_timing(#[trigger] c2[k], blocks[j]) && piece_of(c2[k], blocks[j]) by {
        if k < clipped.len() {
            assert(c2[k] == clipped[k]);
        } else {
            assert(c2[k] == block);
        }
    }
    assert forall|k: int| 0 <= k < c2.len() implies (#[trigger] c2[k]).start_breath >= span_start by {
        if k < clipped.len() {
            assert(c2[k] == clipped[k]);
        }
    }
    if lengths_positive(blocks) {
        assert forall|k: int| 0 <= k < c2.len() implies #[trigger] c2[k].length_breaths >= 1 by {
            if k < clipped.len() {
                assert(c2[k] == clipped[k]);
            }
        }
    }
    if ids_distinct(blocks) {
        assert forall|a: int, b: int| 0 <= a < b < c2.len() implies #[trigger] c2[a].id@ != #[trigger] c2[b].id@ by {
            if b == clipped.len() {
                assert(c2[a] == clipped[a]);
                let j = choose|j: int| 0 <= j < i && same_but_timing(#[trigger] clipped[a], blocks[j]) && piece_of(clipped[a], blocks[j]);
                assert(blocks[j].id@ != blocks[i].id@);
            } else {
                assert(c2[a] == clipped[a] && c2[b] == clipped[b]);
            }
        }
    }
    if all_start_at_or_after(blocks, span_start) && lengths_positive(blocks) {
        assert(blocks[i].start_breath >= span_start);
        assert(c2 =~= blocks.subrange(0, i + 1));
    }
}

/// Left-clips the blocks at `span_start`: blocks wholly before it are
/// dropped and a block straddling it is trimmed to start there.
fn clip_blocks(blocks: &Vec<SharedDocumentPropertyBlock>, span_start: u32) -> (clipped: Vec<SharedDocumentPropertyBlock>)
    requires
        max_reach(blocks@) < u32::MAX,
    ensures
        clip_ok(clipped@, blocks@, span_start, blocks@.len() as int),
{
    proof {
        lemma_max_reach_bounds(blocks@);
        lemma_clip_start(blocks@, span_start);
    }
    let mut clipped: Vec<SharedDocumentPropertyBlock> = Vec::new();
    let mut i: usize = 0;
    while i < blocks.len()
        invariant
            i <= blocks@.len(),
            max_reach(blocks@) < u32::MAX,
            forall|j: int| 0 <= j < blocks@.len() ==> block_reach(#[trigger] blocks@[j]) <= max_reach(blocks@),
            clip_ok(clipped@, blocks@, span_start, i as int),
        decreases blocks@.len() - i,
    {
        let mut block = blocks[i].copy();
        let len1: u32 = if block.length_breaths == 0 { 1 } else { block.length_breaths };
        let new_start = if block.start_breath > span_start { block.start_breath } else { span_start };
        assert(block_reach(blocks@[i as int]) <= max_reach(blocks@));
        if block.start_breath + len1 <= new_start {
            proof {
                lemma_clip_skip(clipped@, blocks@, span_start, i as int);
            }
            i = i + 1;
            continue;
        }
        if block.start_breath < new_start {
            let trimmed = len1 - (new_start - block.start_breath);
            block.start_breath = new_start;
            block.length_breaths = trimmed;
        }
        proof {
            lemma_clip_push(clipped@, blocks@, span_start, i as int, block);
        }
        clipped.push(block);
        i = i + 1;
    }
    clipped
}

/// The starts never decrease along the sequence.
pub open spec fn sorted_by_start(s: Seq<SharedDocumentPropertyBlock>) -> bool {
    forall|i: int, j: int| 0 <= i < j < s.len() ==> #[trigger] s[i].start_breath <= #[trigger] s[j].start_breath
}

/// Each of the first `n` blocks of `v` occurs in `sorted`.
#[verifier::opaque]
pub open spec fn all_kept(sorted: Seq<SharedDocumentPropertyBlock>, v: Seq<SharedDocumentPropertyBlock>, n: int) -> bool {
    forall|j: int| 0 <= j < n ==> exists|k: int| 0 <= k < sorted.len() && sorted[k] == #[trigger] v[j]
}

proof fn lemma_kept_insert(
    before: Seq<SharedDocumentPropertyBlock>,
    after: Seq<SharedDocumentPropertyBlock>,
    v: Seq<SharedDocumentPropertyBlock>,
    i: int,
    p: int,
)
    requires
        0 <= i < v.len(),
        0 <= p <= before.len(),
        all_kept(before, v, i),
        after == before.insert(p, v[i]),
    ensures
        all_kept(after, v, i + 1),
{
    reveal(all_kept);
    before.insert_ensures(p, v[i]);
    assert forall|j: int| 0 <= j < i + 1 implies exists|k: int| 0 <= k < after.len() && after[k] == #[trigger] v[j] by {
        if j < i {
            let k = choose|k: int| 0 <= k < before.len() && before[k] == #[trigger] v[j];
            if k < p {
                assert(after[k] == before[k]);
            } else {
                assert(after[k + 1] == before[k]);
            }
        } else {
            assert(after[p] == v[j]);
        }
    }
}

/// A stable insertion sort of the blocks by start breath.
fn sort_by_start(v: &Vec<SharedDocumentPropertyBlock>) -> (sorted: Vec<SharedDocumentPropertyBlock>)
    ensures
        sorted@.len() == v@.len(),
        sorted_by_start(sorted@),
        forall|k: int| 0 <= k < sorted@.len() ==> exists|j: int| 0 <= j < v@.len() && #[trigger] sorted@[k] == v@[j],
        all_kept(sorted@, v@, v@.len() as int),
        ids_distinct(v@) ==> ids_distinct(sorted@),
        sorted_by_start(v@) ==> sorted@ == v@,
{
    let mut sorted: Vec<SharedDocumentPropertyBlock> = Vec::new();
    let mut i: usize = 0;
    proof {
        reveal(all_kept);
    }
    while i < v.len()
        invariant
            i <= v@.len(),
            sorted@.len() == i,
            sorted_by_start(sorted@),
            forall|k: int| 0 <= k < sorted@.len() ==> exists|j: int| 0 <= j < i && #[trigger] sorted@[k] == v@[j],
            all_kept(sorted@, v@, i as int),
            ids_distinct(v@) ==> ids_distinct(sorted@),
            sorted_by_start(v@) ==> sorted@ == v@.subrange(0, i as int),
        decreases v@.len() - i,
    {
        let e = v[i].copy();
        let mut p: usize = 0;
        while p < sorted.len() && sorted[p].start_breath <= e.start_breath
            invariant
                p <= sorted@.len(),
                forall|q: int| 0 <= q < p ==> #[trigger] sorted@[q].start_breath <= e.start_breath,
            decreases sorted@.len() - p,
        {
            p = p + 1;
        }
        let ghost old_sorted = sorted@;
        proof {
            if sorted_by_start(v@) {
                assert forall|q: int| 0 <= q < old_sorted.len() implies #[trigger] old_sorted[q].start_breath <= e.start_breath by {
                    assert(old_sorted[q] == v@[q]);
                }
                if p < old_sorted.len() {
                    assert(old_sorted[p as int].start_breath <= e.start_breath);
                }
            }
        }
        sorted.insert(p, e);
        proof {
            assert(forall|q: int| 0 <= q < p ==> sorted@[q] == old_sorted[q]);
            assert(forall|q: int| p < q < sorted@.len() ==> sorted@[q] == old_sorted[q - 1]);
            assert(sorted@[p as int] == v@[i as int]);
            assert forall|a: int, b: int| 0 <= a < b < sorted@.len() implies #[trigger] sorted@[a].start_breath <= #[trigger] sorted@[b].start_breath by {
                if a < p && b > p {
                    assert(old_sorted[a].start_breath <= old_sorted[b - 1].start_breath);
                } else if a == p && b > p {
                    assert(old_sorted[p as int].start_breath > e.start_breath);
                    assert(old_sorted[p as int].start_breath <= old_sorted[b - 1].start_breath);
                } else if a > p {
                    assert(old_sorted[a - 1].start_breath <= old_sorted[b - 1].start_breath);
                }
            }
            assert forall|k: int| 0 <= k < sorted@.len() implies exists|j: int| 0 <= j < i + 1 && #[trigger] sorted@[k] == v@[j] by {
                if k < p {
                    assert(sorted@[k] == old_sorted[k]);
                } else if k > p {
                    assert(sorted@[k] == old_sorted[k - 1]);
                } else {
                    assert(sorted@[k] == v@[i as int]);
                }
            }
            lemma_kept_insert(old_sorted, sorted@, v@, i as int, p as int);
            if ids_distinct(v@) {
                assert forall|a: int, b: int| 0 <= a < b < sorted@.len() implies #[trigger] sorted@[a].id@ != #[trigger] sorted@[b].id@ by {
                    if a == p {
                        let j = choose|j: int| 0 <= j < i && #[trigger] old_sorted[b - 1] == v@[j];
                        assert(v@[j].id@ != v@[i as int].id@);
                    } else if b == p {
                        let j = choose|j: int| 0 <= j < i && #[trigger] old_sorted[a] == v@[j];
                        assert(v@[j].id@ != v@[i as int].id@);
                    } else {
                        let a2 = if a < p { a } else { a - 1 };
                        let b2 = if b < p { b } else { b - 1 };
                        assert(sorted@[a] == old_sorted[a2] && sorted@[b] == old_sorted[b2]);
                    }
                }
            }
            if sorted_by_start(v@) {
                assert(p == old_sorted.len());
                assert(sorted@ =~= v@.subrange(0, i + 1));
            }
        }
        i = i + 1;
    }
    proof {
        if sorted_by_start(v@) {
            assert(v@.subrange(0, v@.len() as int) =~= v@);
        }
    }
    sorted
}


/// The ids of a block sequence, as strings.
fn ids_of(blocks: &Vec<SharedDocumentPropertyBlock>) -> (ids: Vec<String>)
    ensures
        ids@.len() == blocks@.len(),
        forall|k: int| 0 <= k < blocks@.len() ==> #[trigger] ids@[k] == blocks@[k].id,
{
    let mut ids: Vec<String> = Vec::new();
    let mut i: usize = 0;
    while i < blocks.len()
        invariant
            i <= blocks@.len(),
            ids@.len() == i,
            forall|k: int| 0 <= k < i ==> #[trigger] ids@[k] == blocks@[k].id,
        decreases blocks@.len() - i,
    {
        ids.push(blocks[i].id.clone());
        i = i + 1;
    }
    ids
}

/// `out[t]` holds an id the re-tile made: the next free `block-<n>` id of
/// the blocks before it, with `x`s appended until no block held it.
pub open spec fn generated_at(out: Seq<SharedDocumentPropertyBlock>, t: int) -> bool {
    exists|base: Seq<char>, k: nat| is_next_block_id(out.subrange(0, t), base) && out[t].id@ == base + xs(k)
}

/// `out[t]` keeps an id of the input, or is a blank the re-tile made: the
/// trailing `tail` or a generated id.
pub open spec fn id_ok(out: Seq<SharedDocumentPropertyBlock>, input: Seq<SharedDocumentPropertyBlock>, t: int) -> bool {
    ||| exists|j: int| 0 <= j < input.len() && out[t].id@ == (#[trigger] input[j]).id@
    ||| out[t].is_blank && (out[t].id@ == "tail"@ || generated_at(out, t))
}

/// Every block of `out` has its id from the input or is a blank the
/// re-tile made.
pub open spec fn ids_from(out: Seq<SharedDocumentPropertyBlock>, input: Seq<SharedDocumentPropertyBlock>) -> bool {
    forall|t: int| 0 <= t < out.len() ==> #[trigger] id_ok(out, input, t)
}

proof fn lemma_id_ok_prefix(a: Seq<SharedDocumentPropertyBlock>, b: Seq<SharedDocumentPropertyBlock>, input: Seq<SharedDocumentPropertyBlock>, t: int)
    requires
        0 <= t < a.len(),
        t < b.len(),
        forall|i: int| 0 <= i <= t ==> (#[trigger] b[i]).id == a[i].id,
        b[t].is_blank == a[t].is_blank,
        id_ok(a, input, t),
    ensures
        id_ok(b, input, t),
{
    if !(exists|j: int| 0 <= j < input.len() && a[t].id@ == (#[trigger] input[j]).id@) && a[t].id@ != "tail"@ {
        let (base, k) = choose|base: Seq<char>, k: nat| is_next_block_id(a.subrange(0, t), base) && a[t].id@ == base + xs(k);
        assert forall|i: int| 0 <= i < a.subrange(0, t).len() implies (#[trigger] a.subrange(0, t)[i]).id@ == b.subrange(0, t)[i].id@ by {
            assert(b[i].id == a[i].id);
        }
        lemma_next_id_same_ids(a.subrange(0, t), b.subrange(0, t), base);
        assert(generated_at(b, t));
    } else if exists|j: int| 0 <= j < input.len() && a[t].id@ == (#[trigger] input[j]).id@ {
        let j = choose|j: int| 0 <= j < input.len() && a[t].id@ == (#[trigger] input[j]).id@;
        assert(b[t].id@ == input[j].id@);
    }
}

/// Placing a block keeps every id accounted for when the block's own id
/// is an input id, `tail`, or the next free id of the blocks before it.
proof fn lemma_ids_from_push(
    before: Seq<SharedDocumentPropertyBlock>,
    after: Seq<SharedDocumentPropertyBlock>,
    input: Seq<SharedDocumentPropertyBlock>,
    block: SharedDocumentPropertyBlock,
)
    requires
        ids_from(before, input),
        before.len() > 0 && before.last().is_blank && block.is_blank ==> after == before.update(
            before.len() - 1,
            SharedDocumentPropertyBlock { length_breaths: (before.last().length_breaths + block.length_breaths) as u32, ..before.last() },
        ),
        !(before.len() > 0 && before.last().is_blank && block.is_blank) ==> after == before.push(block),
        (exists|j: int| 0 <= j < input.len() && block.id@ == (#[trigger] input[j]).id@)
            || (block.is_blank && (block.id@ == "tail"@
                || exists|base: Seq<char>, k: nat| is_next_block_id(before, base) && block.id@ == base + xs(k))),
    ensures
        ids_from(after, input),
{
    let n = before.len();
    assert forall|t: int| 0 <= t < after.len() implies #[trigger] id_ok(after, input, t) by {
        if t < n {
            assert(id_ok(before, input, t));
            lemma_id_ok_prefix(before, after, input, t);
        } else {
            assert(after == before.push(block));
            assert(after[t] == block);
            assert(after.subrange(0, t) =~= before);
            if exists|j: int| 0 <= j < input.len() && block.id@ == (#[trigger] input[j]).id@ {
            } else if block.id@ != "tail"@ {
                let (base, k) = choose|base: Seq<char>, k: nat| is_next_block_id(before, base) && block.id@ == base + xs(k);
                assert(generated_at(after, t));
            }
        }
    }
}

/// Ids accounted for against the sorted blocks are accounted for against
/// the blocks they came from.
proof fn lemma_ids_from_sources(out: Seq<SharedDocumentPropertyBlock>, sorted: Seq<SharedDocumentPropertyBlock>, input: Seq<SharedDocumentPropertyBlock>)
    requires
        ids_from(out, sorted),
        forall|k: int| 0 <= k < sorted.len() ==> exists|j: int| 0 <= j < input.len() && (#[trigger] sorted[k]).id@ == input[j].id@,
    ensures
        ids_from(out, input),
{
    assert forall|t: int| 0 <= t < out.len() implies #[trigger] id_ok(out, input, t) by {
        assert(id_ok(out, sorted, t));
        if exists|k: int| 0 <= k < sorted.len() && out[t].id@ == (#[trigger] sorted[k]).id@ {
            let k = choose|k: int| 0 <= k < sorted.len() && out[t].id@ == (#[trigger] sorted[k]).id@;
            let j = choose|j: int| 0 <= j < input.len() && sorted[k].id@ == input[j].id@;
            assert(out[t].id@ == input[j].id@);
        }
    }
}

/// The blocks already lie end to end from the span start, with positive
/// lengths, distinct ids and no two empties touching.
pub open spec fn shaped(s: Seq<SharedDocumentPropertyBlock>, span_start: u32) -> bool {
    &&& s.len() > 0
    &&& is_contiguous(s)
    &&& no_adjacent_blanks(s)
    &&& lengths_positive(s)
    &&& ids_distinct(s)
    &&& s[0].start_breath == span_start
}

/// The state of the tiling pass after some sorted blocks were placed.
pub open spec fn tiling_progress(
    tiled: Seq<SharedDocumentPropertyBlock>,
    cursor: int,
    span_start: u32,
) -> bool {
    &&& cursor >= span_start
    &&& (tiled.len() == 0 ==> cursor == span_start)
    &&& (tiled.len() > 0 ==> tiled[0].start_breath == span_start && cursor == block_end(tiled.last()))
    &&& is_contiguous(tiled)
    &&& no_adjacent_blanks(tiled)
}


proof fn lemma_has_id_push(v: Seq<String>, y: String)
    ensures
        forall|x: Seq<char>| has_id(v, x) ==> #[trigger] has_id(v.push(y), x),
        has_id(v.push(y), y@),
{
    assert forall|x: Seq<char>| has_id(v, x) implies #[trigger] has_id(v.push(y), x) by {
        let i = choose|i: int| 0 <= i < v.len() && (#[trigger] v[i])@ == x;
        assert(v.push(y)[i] == v[i]);
    }
    assert(v.push(y)[v.len() as int] == y);
}

proof fn lemma_piece_trans(a: SharedDocumentPropertyBlock, b: SharedDocumentPropertyBlock, c: SharedDocumentPropertyBlock)
    requires
        piece_of(a, b),
        piece_of(b, c),
    ensures
        piece_of(a, c),
{
}

/// Pushing a block whose empty breaths are all gaps or empties of
/// `input` keeps the empties of the sequence over gaps.
proof fn lemma_gaps_push(
    before: Seq<SharedDocumentPropertyBlock>,
    after: Seq<SharedDocumentPropertyBlock>,
    input: Seq<SharedDocumentPropertyBlock>,
    block: SharedDocumentPropertyBlock,
)
    requires
        blanks_only_over_gaps(before, input),
        before.len() > 0 ==> block.start_breath == block_end(before.last()),
        before.len() > 0 && before.last().is_blank && block.is_blank ==> after == before.update(
            before.len() - 1,
            SharedDocumentPropertyBlock { length_breaths: (before.last().length_breaths + block.length_breaths) as u32, ..before.last() },
        ),
        !(before.len() > 0 && before.last().is_blank && block.is_blank) ==> after == before.push(block),
        block_end(block) <= u32::MAX,
        block.is_blank ==> forall|x: int| #[trigger] covers(block, x) && covered_by(input, x) ==> blank_at(input, x),
    ensures
        blanks_only_over_gaps(after, input),
{
    let n = before.len();
    assert forall|t: int, x: int| 0 <= t < after.len() && (#[trigger] after[t]).is_blank && #[trigger] covers(after[t], x)
        && covered_by(input, x) implies blank_at(input, x) by {
        if n > 0 && before.last().is_blank && block.is_blank {
            if t < n - 1 {
                assert(after[t] == before[t]);
            } else {
                if covers(before[n - 1], x) {
                } else {
                    assert(covers(block, x));
                }
            }
        } else {
            if t < n {
                assert(after[t] == before[t]);
            } else {
                assert(after[t] == block);
            }
        }
    }
}

proof fn lemma_piece_blanks(sorted: Seq<SharedDocumentPropertyBlock>, i: int, block: SharedDocumentPropertyBlock)
    requires
        0 <= i < sorted.len(),
        block.is_blank == sorted[i].is_blank,
        block.start_breath >= sorted[i].start_breath,
        block_end(block) == block_end(sorted[i]),
    ensures
        block.is_blank ==> forall|x: int| #[trigger] covers(block, x) && covered_by(sorted, x) ==> blank_at(sorted, x),
{
    if block.is_blank {
        assert forall|x: int| #[trigger] covers(block, x) && covered_by(sorted, x) implies blank_at(sorted, x) by {
            assert(covers(sorted[i], x));
        }
    }
}

proof fn lemma_gap_uncovered(sorted: Seq<SharedDocumentPropertyBlock>, i: int, cursor: int, gap: SharedDocumentPropertyBlock)
    requires
        0 <= i < sorted.len(),
        sorted_by_start(sorted),
        forall|k: int| 0 <= k < i ==> block_end(#[trigger] sorted[k]) <= cursor,
        gap.start_breath == cursor,
        block_end(gap) == sorted[i].start_breath,
    ensures
        gap.is_blank ==> forall|x: int| #[trigger] covers(gap, x) && covered_by(sorted, x) ==> blank_at(sorted, x),
{
    assert forall|x: int| #[trigger] covers(gap, x) implies !covered_by(sorted, x) by {
        if covered_by(sorted, x) {
            let k = choose|k: int| 0 <= k < sorted.len() && #[trigger] covers(sorted[k], x);
            if k < i {
                assert(block_end(sorted[k]) <= cursor);
            } else if k > i {
                assert(sorted[i].start_breath <= sorted[k].start_breath);
            }
        }
    }
}

/// Places the sorted blocks on the timeline from `span_start`: uncovered
/// windows become blank blocks with fresh ids, overlapping broken data is
/// trimmed to the first uncovered breath, and adjacent blanks merge.
#[verifier::spinoff_prover]
#[verifier::rlimit(100)]
fn tile_sorted(sorted: &Vec<SharedDocumentPropertyBlock>, span_start: u32, used: &mut Vec<String>)
    -> (res: (Vec<SharedDocumentPropertyBlock>, u32))
    requires
        sorted_by_start(sorted@),
        max_reach(sorted@) < u32::MAX,
        forall|k: int| 0 <= k < sorted@.len() ==> (#[trigger] sorted@[k]).start_breath >= span_start,
        forall|k: int| 0 <= k < sorted@.len() ==> has_id(old(used)@, (#[trigger] sorted@[k]).id@),
    ensures
        tiling_progress(res.0@, res.1 as int, span_start),
        res.1 <= (if span_start > max_reach(sorted@) { span_start as int } else { max_reach(sorted@) }),
        forall|t: int| 0 <= t < res.0@.len() ==> block_reach(#[trigger] res.0@[t]) <= (if span_start > max_reach(sorted@) { span_start as int } else { max_reach(sorted@) }),
        forall|t: int| 0 <= t < res.0@.len() ==> has_id(final(used)@, (#[trigger] res.0@[t]).id@),
        forall|x: Seq<char>| has_id(old(used)@, x) ==> #[trigger] has_id(final(used)@, x),
        lengths_positive(sorted@) ==> lengths_positive(res.0@),
        ids_distinct(sorted@) ==> ids_distinct(res.0@),
        forall|t: int| 0 <= t < res.0@.len() && !(#[trigger] res.0@[t]).is_blank ==>
            exists|k: int| 0 <= k < sorted@.len() && piece_of(res.0@[t], sorted@[k]),
        is_contiguous(sorted@) && lengths_positive(sorted@) && no_adjacent_blanks(sorted@)
            && (sorted@.len() > 0 ==> sorted@[0].start_breath == span_start) ==> res.0@ == sorted@ && final(used)@ == old(used)@,
        forall|k: int| 0 <= k < sorted@.len() ==> block_end(#[trigger] sorted@[k]) <= res.1,
        blanks_only_over_gaps(res.0@, sorted@),
        lengths_positive(sorted@) ==> res.1 == span_start || covered_by(sorted@, res.1 - 1),
        ids_from(res.0@, sorted@),
{
    proof {
        lemma_max_reach_bounds(sorted@);
    }
    let ghost reach = max_reach(sorted@);
    let ghost fix = is_contiguous(sorted@) && lengths_positive(sorted@) && no_adjacent_blanks(sorted@)
        && (sorted@.len() > 0 ==> sorted@[0].start_breath == span_start);
    let ghost lp = lengths_positive(sorted@);
    let ghost idd = ids_distinct(sorted@);
    let ghost used0 = used@;
    let mut tiled: Vec<SharedDocumentPropertyBlock> = Vec::new();
    let mut cursor: u32 = span_start;
    let mut i: usize = 0;
    while i < sorted.len()
        invariant
            i <= sorted@.len(),
            reach == max_reach(sorted@),
            reach < u32::MAX,
            forall|k: int| 0 <= k < sorted@.len() ==> block_reach(#[trigger] sorted@[k]) <= reach,
            sorted_by_start(sorted@),
            forall|k: int| 0 <= k < sorted@.len() ==> (#[trigger] sorted@[k]).start_breath >= span_start,
            forall|k: int| 0 <= k < sorted@.len() ==> has_id(used@, (#[trigger] sorted@[k]).id@),
            forall|x: Seq<char>| has_id(used0, x) ==> #[trigger] has_id(used@, x),
            tiling_progress(tiled@, cursor as int, span_start),
            cursor <= (if span_start > reach { span_start as int } else { reach }),
            i > 0 && cursor > span_start ==> cursor <= reach,
            forall|t: int| 0 <= t < tiled@.len() ==> block_reach(#[trigger] tiled@[t]) <= (if span_start > reach { span_start as int } else { reach }),
            forall|t: int| 0 <= t < tiled@.len() ==> has_id(used@, (#[trigger] tiled@[t]).id@),
            lp == lengths_positive(sorted@),
            lp ==> lengths_positive(tiled@),
            idd == ids_distinct(sorted@),
            idd ==> ids_distinct(tiled@),
            idd ==> forall|t: int, k: int| 0 <= t < tiled@.len() && i <= k < sorted@.len() ==>
                (#[trigger] tiled@[t]).id@ != (#[trigger] sorted@[k]).id@,
            forall|t: int| 0 <= t < tiled@.len() && !(#[trigger] tiled@[t]).is_blank ==>
                exists|k: int| 0 <= k < sorted@.len() && piece_of(tiled@[t], sorted@[k]),
            fix == (is_contiguous(sorted@) && lengths_positive(sorted@) && no_adjacent_blanks(sorted@)
                && (sorted@.len() > 0 ==> sorted@[0].start_breath == span_start)),
            fix ==> tiled@ == sorted@.subrange(0, i as int),
            fix ==> used@ == used0,
            forall|k: int| 0 <= k < i ==> block_end(#[trigger] sorted@[k]) <= cursor,
            blanks_only_over_gaps(tiled@, sorted@),
            lp ==> cursor == span_start || covered_by(sorted@, cursor - 1),
            ids_from(tiled@, sorted@),
        decreases sorted@.len() - i,
    {
        let mut block = sorted[i].copy();
        assert(block_reach(sorted@[i as int]) <= reach);
        let block_end_b = block.start_breath + block.length_breaths;
        proof {
            if fix && i > 0 {
                assert(sorted@[i as int].start_breath == block_end(sorted@[i - 1]));
                assert(tiled@.last() == sorted@[i - 1]);
            }
            if fix && i == 0 {
                assert(tiled@.len() == 0);
            }
        }
        if block_end_b <= cursor {
            proof {
                if idd {
                    assert forall|t: int, k: int| 0 <= t < tiled@.len() && i + 1 <= k < sorted@.len() implies
                        (#[trigger] tiled@[t]).id@ != (#[trigger] sorted@[k]).id@ by {
                    }
                }
            }
            i = i + 1;
            continue;
        }
        let ghost tiled_before = tiled@;
        let ghost used_before = used@;
        if block.start_breath > cursor {
            let gap_id = next_free_block_id(used, &tiled);
            proof {
                lemma_has_id_push(used_before, gap_id);
            }
            let gap = new_blank(gap_id, cursor, block.start_breath - cursor);
            let ghost gap_v = gap;
            push_tiled_block(&mut tiled, gap);
            proof {
                lemma_gap_uncovered(sorted@, i as int, cursor as int, gap_v);
                lemma_ids_from_push(tiled_before, tiled@, sorted@, gap_v);
                lemma_gaps_push(tiled_before, tiled@, sorted@, gap_v);
                let n = tiled_before.len();
                assert forall|t: int| 0 <= t < tiled@.len() implies has_id(used@, (#[trigger] tiled@[t]).id@) by {
                    if t < n {
                        assert(tiled@[t].id == tiled_before[t].id);
                    }
                }
                if idd {
                    assert forall|a: int, b: int| 0 <= a < b < tiled@.len() implies #[trigger] tiled@[a].id@ != #[trigger] tiled@[b].id@ by {
                        if b >= n {
                            assert(has_id(used_before, tiled_before[a].id@));
                        } else {
                            assert(tiled@[a].id == tiled_before[a].id && tiled@[b].id == tiled_before[b].id);
                        }
                    }
                    assert forall|t: int, k: int| 0 <= t < tiled@.len() && i <= k < sorted@.len() implies
                        (#[trigger] tiled@[t]).id@ != (#[trigger] sorted@[k]).id@ by {
                        if t < n {
                            assert(tiled@[t].id == tiled_before[t].id);
                        } else {
                            assert(has_id(used_before, sorted@[k].id@));
                        }
                    }
                }
                assert forall|t: int| 0 <= t < tiled@.len() && !(#[trigger] tiled@[t]).is_blank implies
                    exists|k: int| 0 <= k < sorted@.len() && piece_of(tiled@[t], sorted@[k]) by {
                    assert(t < n);
                    assert(tiled@[t] == tiled_before[t]);
                }
            }
        } else {
            block.start_breath = cursor;
            block.length_breaths = block_end_b - cursor;
        }
        let ghost tiled_mid = tiled@;
        let ghost block_v = block;
        let ghost old_cursor = cursor;
        cursor = block.start_breath + block.length_breaths;
        push_tiled_block(&mut tiled, block);
        proof {
            if lp {
                assert(sorted@[i as int].length_breaths >= 1);
                assert(covers(sorted@[i as int], cursor - 1));
            }
            lemma_piece_blanks(sorted@, i as int, block_v);
            assert(block_v.id@ == sorted@[i as int].id@);
            lemma_ids_from_push(tiled_mid, tiled@, sorted@, block_v);
            lemma_gaps_push(tiled_mid, tiled@, sorted@, block_v);
            assert forall|k: int| 0 <= k < i + 1 implies block_end(#[trigger] sorted@[k]) <= cursor by {
                if k < i {
                    assert(block_end(sorted@[k]) <= old_cursor);
                }
            }
            let n = tiled_mid.len();
            assert(piece_of(block_v, sorted@[i as int]));
            assert forall|t: int| 0 <= t < tiled@.len() implies has_id(used@, (#[trigger] tiled@[t]).id@) by {
                if t < n {
                    assert(tiled@[t].id == tiled_mid[t].id);
                } else {
                    assert(tiled@[t].id == block_v.id);
                }
            }
            if idd {
                assert forall|a: int, b: int| 0 <= a < b < tiled@.len() implies #[trigger] tiled@[a].id@ != #[trigger] tiled@[b].id@ by {
                    if b >= n {
                        if a < tiled_before.len() {
                            assert(tiled_mid[a].id == tiled_before[a].id);
                        } else {
                            assert(has_id(used_before, sorted@[i as int].id@));
                        }
                    } else {
                        assert(tiled@[a].id == tiled_mid[a].id && tiled@[b].id == tiled_mid[b].id);
                    }
                }
                assert forall|t: int, k: int| 0 <= t < tiled@.len() && i + 1 <= k < sorted@.len() implies
                    (#[trigger] tiled@[t]).id@ != (#[trigger] sorted@[k]).id@ by {
                    if t < n {
                        assert(tiled@[t].id == tiled_mid[t].id);
                    } else {
                        assert(sorted@[i as int].id@ != sorted@[k].id@);
                    }
                }
            }
            assert forall|t: int| 0 <= t < tiled@.len() && !(#[trigger] tiled@[t]).is_blank implies
                exists|k: int| 0 <= k < sorted@.len() && piece_of(tiled@[t], sorted@[k]) by {
                if t < n {
                    assert(tiled@[t] == tiled_mid[t]);
                } else {
                    assert(tiled@[t] == block_v);
                }
            }
            if fix {
                assert(tiled@ =~= sorted@.subrange(0, i + 1));
            }
        }
        i = i + 1;
    }
    proof {
        if fix {
            assert(sorted@.subrange(0, sorted@.len() as int) =~= sorted@);
        }
    }
    (tiled, cursor)
}


/// `span_start + max(span_length, 1)`, saturating at `u32::MAX`.
fn span_end_of(span_start: u32, span_length: u32) -> (end: u32)
    ensures
        end == span_end_spec(span_start, span_length),
{
    let len1: u32 = if span_length == 0 { 1 } else { span_length };
    if span_start > u32::MAX - len1 { u32::MAX } else { span_start + len1 }
}

proof fn lemma_enforce_keeps_tiling(s: Seq<SharedDocumentPropertyBlock>)
    requires
        edge_modes(s),
        solids_clean(s),
    ensures
        forall|i: int| 0 <= i < s.len() ==> (if stripped_at(#[trigger] s[i], i, s.len() as int) { cleared(s[i]) } else { s[i] }) == s[i],
{
    assert forall|i: int| 0 <= i < s.len() implies (if stripped_at(#[trigger] s[i], i, s.len() as int) { cleared(s[i]) } else { s[i] }) == s[i] by {
        if !s[i].is_blank {
            assert(cleared(s[i]) == s[i]);
        }
    }
}

/// What the re-tiling passes keep true of the blocks placed so far.
#[verifier::opaque]
pub open spec fn stage_ok(
    t: Seq<SharedDocumentPropertyBlock>,
    blocks: Seq<SharedDocumentPropertyBlock>,
    span_start: u32,
    used: Seq<String>,
    bound: int,
) -> bool {
    &&& is_contiguous(t)
    &&& no_adjacent_blanks(t)
    &&& (t.len() > 0 ==> t[0].start_breath == span_start)
    &&& (lengths_positive(blocks) ==> lengths_positive(t))
    &&& (ids_distinct(blocks) ==> ids_distinct(t))
    &&& (forall|k: int| 0 <= k < t.len() ==> has_id(used, (#[trigger] t[k]).id@))
    &&& solids_come_from(t, blocks)
    &&& (forall|k: int| 0 <= k < t.len() ==> block_reach(#[trigger] t[k]) <= bound)
    &&& ids_from(t, blocks)
}

/// Fills the window from `cursor` to `span_end` with a blank.
#[verifier::rlimit(40)]
fn append_span_tail(
    tiled: &mut Vec<SharedDocumentPropertyBlock>,
    cursor: u32,
    span_end: u32,
    used: &mut Vec<String>,
    Ghost(blocks): Ghost<Seq<SharedDocumentPropertyBlock>>,
    Ghost(span_start): Ghost<u32>,
    Ghost(bound): Ghost<int>,
)
    requires
        stage_ok(old(tiled)@, blocks, span_start, old(used)@, bound),
        old(tiled)@.len() == 0 ==> cursor == span_start,
        old(tiled)@.len() > 0 ==> cursor == block_end(old(tiled)@.last()),
        cursor < span_end,
        span_end <= bound,
        blanks_only_over_gaps(old(tiled)@, blocks),
        cursor >= span_start,
        forall|j: int, x: int| 0 <= j < blocks.len() && #[trigger] covers(blocks[j], x) && x >= span_start ==> x < cursor,
    ensures
        stage_ok(final(tiled)@, blocks, span_start, final(used)@, bound),
        final(tiled)@.len() > 0,
        block_end(final(tiled)@.last()) == span_end,
        final(tiled)@.last().is_blank,
        blanks_only_over_gaps(final(tiled)@, blocks),
{
    reveal(stage_ok);
    let ghost used_before = used@;
    let ghost tiled_before = tiled@;
    let tail_id = next_free_block_id(used, tiled);
    proof {
        lemma_has_id_push(used_before, tail_id);
    }
    let gap = new_blank(tail_id, cursor, span_end - cursor);
    let ghost gap_v = gap;
    push_tiled_block(tiled, gap);
    proof {
        lemma_ids_from_push(tiled_before, tiled@, blocks, gap_v);
        assert forall|x: int| #[trigger] covers(gap_v, x) implies !covered_by(blocks, x) by {
            if covered_by(blocks, x) {
                let j = choose|j: int| 0 <= j < blocks.len() && #[trigger] covers(blocks[j], x);
            }
        }
        lemma_gaps_push(tiled_before, tiled@, blocks, gap_v);
        let n = tiled_before.len();
        assert forall|t: int| 0 <= t < tiled@.len() implies has_id(used@, (#[trigger] tiled@[t]).id@) by {
            if t < n {
                assert(tiled@[t].id == tiled_before[t].id);
            }
        }
        if ids_distinct(blocks) {
            assert forall|a: int, b: int| 0 <= a < b < tiled@.len() implies #[trigger] tiled@[a].id@ != #[trigger] tiled@[b].id@ by {
                if b >= n {
                    assert(has_id(used_before, tiled_before[a].id@));
                } else {
                    assert(tiled@[a].id == tiled_before[a].id && tiled@[b].id == tiled_before[b].id);
                }
            }
        }
        assert forall|t: int| 0 <= t < tiled@.len() && !(#[trigger] tiled@[t]).is_blank implies
            exists|j: int| 0 <= j < blocks.len() && piece_of(tiled@[t], blocks[j]) by {
            assert(tiled@[t] == tiled_before[t]);
        }
        assert forall|t: int| 0 <= t < tiled@.len() implies block_reach(#[trigger] tiled@[t]) <= bound by {
            if t < n - 1 || (t == n - 1 && !(tiled_before[t].is_blank)) {
                assert(tiled@[t] == tiled_before[t]);
            }
        }
    }
}

/// Appends the trailing blank when the track ends with a solid block.
#[verifier::rlimit(40)]
fn append_trailing_blank(
    tiled: &mut Vec<SharedDocumentPropertyBlock>,
    span_end: u32,
    used: &mut Vec<String>,
    Ghost(blocks): Ghost<Seq<SharedDocumentPropertyBlock>>,
    Ghost(span_start): Ghost<u32>,
    Ghost(bound): Ghost<int>,
)
    requires
        stage_ok(old(tiled)@, blocks, span_start, old(used)@, bound),
        old(tiled)@.len() > 0,
        max_reach(blocks) < u32::MAX,
        span_end <= bound,
        block_end(old(tiled)@.last()) >= span_end,
        blanks_only_over_gaps(old(tiled)@, blocks),
        block_end(old(tiled)@.last()) >= span_start,
        forall|j: int, x: int| 0 <= j < blocks.len() && #[trigger] covers(blocks[j], x) && x >= span_start
            ==> x < block_end(old(tiled)@.last()),
    ensures
        blanks_only_over_gaps(final(tiled)@, blocks),
        stage_ok(final(tiled)@, blocks, span_start, final(used)@, if bound > max_reach(blocks) + 1 { bound } else { max_reach(blocks) + 1 }),
        final(tiled)@.len() > 0,
        final(tiled)@.last().is_blank,
        block_end(final(tiled)@.last()) >= block_end(old(tiled)@.last()),
        block_end(final(tiled)@.last()) >= span_end,
        old(tiled)@.last().is_blank ==> final(tiled)@ == old(tiled)@,
        !old(tiled)@.last().is_blank ==> {
            &&& final(tiled)@.drop_last() == old(tiled)@
            &&& final(tiled)@.last().start_breath == block_end(old(tiled)@.last())
            &&& final(tiled)@.last().length_breaths == (if block_end(old(tiled)@.last()) < span_end {
                span_end - block_end(old(tiled)@.last())
            } else {
                1
            })
            &&& final(tiled)@.last() == plain_blank(final(tiled)@.last().id, final(tiled)@.last().start_breath, final(tiled)@.last().length_breaths)
            &&& if has_id(old(used)@, "tail"@) {
                exists|base: Seq<char>, k: nat| {
                    &&& is_next_block_id(old(tiled)@, base)
                    &&& final(tiled)@.last().id@ == base + xs(k)
                    &&& !has_id(old(used)@, final(tiled)@.last().id@)
                    &&& forall|j: nat| j < k ==> has_id(old(used)@, #[trigger] (base + xs(j)))
                }
            } else {
                final(tiled)@.last().id@ == "tail"@
            }
        },
{
    reveal(stage_ok);
    let n = tiled.len();
    let ghost b1 = if bound > max_reach(blocks) + 1 { bound } else { max_reach(blocks) + 1 };
    if tiled[n - 1].is_blank {
        proof {
            assert forall|k: int| 0 <= k < tiled@.len() implies block_reach(#[trigger] tiled@[k]) <= b1 by {
            }
        }
        return;
    }
    let ghost before = tiled@;
    proof {
        lemma_max_reach_bounds(blocks);
        let j = choose|j: int| 0 <= j < blocks.len() && piece_of(before[n - 1], blocks[j]);
        assert(block_reach(blocks[j]) <= max_reach(blocks));
    }
    let tail_start = tiled[n - 1].start_breath + tiled[n - 1].length_breaths;
    let tail_name = String::from_str("tail");
    let ghost used_before = used@;
    let tail_id = if contains_id(used, &tail_name) {
        next_free_block_id(used, tiled)
    } else {
        tail_name
    };
    proof {
        assert(!has_id(used_before, tail_id@));
        lemma_has_id_push(used@, tail_id);
        assert forall|x: Seq<char>| has_id(used_before, x) implies #[trigger] has_id(used@, x) by {
            if used@.len() > used_before.len() {
                lemma_has_id_push(used_before, used@.last());
                assert(used@ == used_before.push(used@.last()));
            }
        }
    }
    let ghost used_mid = used@;
    used.push(tail_id.clone());
    let tail_length = if tail_start < span_end { span_end - tail_start } else { 1 };
    let tail = new_blank(tail_id, tail_start, tail_length);
    let ghost tail_v = tail;
    tiled.push(tail);
    proof {
        lemma_ids_from_push(before, tiled@, blocks, tail_v);
        assert forall|x: int| #[trigger] covers(tail_v, x) implies !covered_by(blocks, x) by {
            if covered_by(blocks, x) {
                let j = choose|j: int| 0 <= j < blocks.len() && #[trigger] covers(blocks[j], x);
            }
        }
        lemma_gaps_push(before, tiled@, blocks, tail_v);
        assert forall|k: int| 0 <= k < tiled@.len() implies has_id(used@, (#[trigger] tiled@[k]).id@) by {
            if k < n {
                assert(tiled@[k] == before[k]);
                assert(has_id(used_mid, before[k].id@));
            }
        }
        if ids_distinct(blocks) {
            assert forall|a: int, b: int| 0 <= a < b < tiled@.len() implies #[trigger] tiled@[a].id@ != #[trigger] tiled@[b].id@ by {
                if b == n {
                    assert(has_id(used_before, before[a].id@));
                } else {
                    assert(tiled@[a] == before[a] && tiled@[b] == before[b]);
                }
            }
        }
        assert forall|t: int| 0 <= t < tiled@.len() && !(#[trigger] tiled@[t]).is_blank implies
            exists|j: int| 0 <= j < blocks.len() && piece_of(tiled@[t], blocks[j]) by {
            assert(tiled@[t] == before[t]);
        }
        assert forall|k: int| 0 <= k < tiled@.len() implies block_reach(#[trigger] tiled@[k]) <= b1 by {
            if k < n {
                assert(tiled@[k] == before[k]);
            }
        }
        assert(tiled@.drop_last() =~= before);
    }
}


/// Some block of `s` holds the id.
pub open spec fn taken(s: Seq<SharedDocumentPropertyBlock>, x: Seq<char>) -> bool {
    exists|j: int| 0 <= j < s.len() && (#[trigger] s[j]).id@ == x
}

/// `id` is the id a re-tile gives a new blank after the blocks `s`: the
/// next free `block-<n>` id with the fewest `x`s appended that no block of
/// `s` holds.
pub open spec fn free_block_id(s: Seq<SharedDocumentPropertyBlock>, id: Seq<char>) -> bool {
    exists|base: Seq<char>, k: nat| {
        &&& is_next_block_id(s, base)
        &&& id == base + xs(k)
        &&& !taken(s, id)
        &&& forall|j: nat| j < k ==> taken(s, #[trigger] (base + xs(j)))
    }
}

/// The block after the loop-mode edge rule at index `i` of `len` blocks.
pub open spec fn settled(b: SharedDocumentPropertyBlock, i: int, len: int) -> SharedDocumentPropertyBlock {
    if stripped_at(b, i, len) { cleared(b) } else { b }
}

/// The one-breath trailing blank appended after the solid last block of
/// `s`: it starts where `s` ends, carries nothing, and is named `tail`, or
/// the next free id when `tail` is taken.
pub open spec fn tail_block_ok(b: SharedDocumentPropertyBlock, s: Seq<SharedDocumentPropertyBlock>) -> bool {
    &&& b == plain_blank(b.id, block_end(s.last()) as u32, 1)
    &&& if taken(s, "tail"@) { free_block_id(s, b.id@) } else { b.id@ == "tail"@ }
}

/// A re-tile of blocks that already lie end to end from the span start up
/// to at least the span end only applies the loop-mode edge rule, after
/// appending the trailing blank when the last block is solid.
pub open spec fn retile_settled(
    out: Seq<SharedDocumentPropertyBlock>,
    input: Seq<SharedDocumentPropertyBlock>,
    span_start: u32,
    span_length: u32,
) -> bool {
    shaped(input, span_start) && block_end(input.last()) >= span_end_spec(span_start, span_length) ==> {
        let n = input.len() as int;
        if input.last().is_blank {
            &&& out.len() == n
            &&& forall|i: int| 0 <= i < n ==> #[trigger] out[i] == settled(input[i], i, n)
        } else {
            &&& out.len() == n + 1
            &&& forall|i: int| 0 <= i < n ==> #[trigger] out[i] == settled(input[i], i, n + 1)
            &&& tail_block_ok(out[n], input)
        }
    }
}

proof fn lemma_has_id_taken(used: Seq<String>, s: Seq<SharedDocumentPropertyBlock>)
    requires
        used.len() == s.len(),
        forall|k: int| 0 <= k < s.len() ==> #[trigger] used[k] == s[k].id,
    ensures
        forall|x: Seq<char>| #[trigger] has_id(used, x) <==> taken(s, x),
{
    assert forall|x: Seq<char>| #[trigger] has_id(used, x) <==> taken(s, x) by {
        if has_id(used, x) {
            let i = choose|i: int| 0 <= i < used.len() && (#[trigger] used[i])@ == x;
            assert(s[i].id@ == x);
        }
        if taken(s, x) {
            let j = choose|j: int| 0 <= j < s.len() && (#[trigger] s[j]).id@ == x;
            assert(used[j]@ == x);
        }
    }
}

proof fn lemma_trailing_post(
    before: Seq<SharedDocumentPropertyBlock>,
    after: Seq<SharedDocumentPropertyBlock>,
    blocks: Seq<SharedDocumentPropertyBlock>,
    span_start: u32,
    span_end: int,
    cursor: int,
)
    requires
        after.len() == before.len(),
        forall|i: int| 0 <= i < before.len() ==> #[trigger] after[i] == (if stripped_at(before[i], i, before.len() as int) {
            cleared(before[i])
        } else {
            before[i]
        }),
        lengths_positive(blocks) ==> covered_end(blocks, span_start, cursor),
        trailing_end_ok(before, cursor, span_end),
    ensures
        lengths_positive(blocks) ==> forall|c: int| #[trigger] covered_end(blocks, span_start, c) ==> trailing_end_ok(after, c, span_end),
{
    if lengths_positive(blocks) {
        assert forall|c: int| #[trigger] covered_end(blocks, span_start, c) implies trailing_end_ok(after, c, span_end) by {
            lemma_covered_end_unique(blocks, span_start, c, cursor);
            let n = after.len();
            if n > 0 {
                assert(after.last() == after[n - 1]);
                assert(before.last() == before[n - 1]);
                if n >= 2 {
                    assert(after[n - 2].is_blank == before[n - 2].is_blank);
                }
            }
        }
    }
}

proof fn lemma_ids_post(
    before: Seq<SharedDocumentPropertyBlock>,
    after: Seq<SharedDocumentPropertyBlock>,
    blocks: Seq<SharedDocumentPropertyBlock>,
)
    requires
        after.len() == before.len(),
        forall|i: int| 0 <= i < before.len() ==> #[trigger] after[i] == (if stripped_at(before[i], i, before.len() as int) {
            cleared(before[i])
        } else {
            before[i]
        }),
        ids_from(before, blocks),
    ensures
        ids_from(after, blocks),
{
    assert forall|t: int| 0 <= t < after.len() implies #[trigger] id_ok(after, blocks, t) by {
        assert forall|i: int| 0 <= i <= t implies (#[trigger] after[i]).id == before[i].id by {
            assert(after[i] == (if stripped_at(before[i], i, before.len() as int) { cleared(before[i]) } else { before[i] }));
        }
        assert(after[t] == (if stripped_at(before[t], t, before.len() as int) { cleared(before[t]) } else { before[t] }));
        assert(id_ok(before, blocks, t));
        lemma_id_ok_prefix(before, after, blocks, t);
    }
}

proof fn lemma_settled_pre(
    blocks: Seq<SharedDocumentPropertyBlock>,
    used_loop: Seq<String>,
    before: Seq<SharedDocumentPropertyBlock>,
    span_start: u32,
    span_end: u32,
)
    requires
        shaped(blocks, span_start),
        block_end(blocks.last()) >= span_end,
        used_loop.len() == blocks.len(),
        forall|k: int| 0 <= k < blocks.len() ==> #[trigger] used_loop[k] == blocks[k].id,
        blocks.last().is_blank ==> before == blocks,
        !blocks.last().is_blank ==> {
            &&& before.drop_last() == blocks
            &&& before.len() > 0
            &&& before.last().start_breath == block_end(blocks.last())
            &&& before.last().length_breaths == (if block_end(blocks.last()) < span_end { span_end - block_end(blocks.last()) } else { 1 })
            &&& before.last() == plain_blank(before.last().id, before.last().start_breath, before.last().length_breaths)
            &&& if has_id(used_loop, "tail"@) {
                exists|base: Seq<char>, k: nat| {
                    &&& is_next_block_id(blocks, base)
                    &&& before.last().id@ == base + xs(k)
                    &&& !has_id(used_loop, before.last().id@)
                    &&& forall|j: nat| j < k ==> has_id(used_loop, #[trigger] (base + xs(j)))
                }
            } else {
                before.last().id@ == "tail"@
            }
        },
    ensures
        !blocks.last().is_blank ==> before.len() == blocks.len() + 1 && tail_block_ok(before.last(), blocks),
{
    lemma_has_id_taken(used_loop, blocks);
    if !blocks.last().is_blank {
        let tl = before.last();
        if taken(blocks, "tail"@) {
            assert(has_id(used_loop, "tail"@));
            let (base, k) = choose|base: Seq<char>, k: nat| {
                &&& is_next_block_id(blocks, base)
                &&& tl.id@ == base + xs(k)
                &&& !has_id(used_loop, tl.id@)
                &&& forall|j: nat| j < k ==> has_id(used_loop, #[trigger] (base + xs(j)))
            };
            assert forall|j: nat| j < k implies taken(blocks, #[trigger] (base + xs(j))) by {
                assert(has_id(used_loop, base + xs(j)));
            }
            assert(free_block_id(blocks, tl.id@));
        } else {
            assert(!has_id(used_loop, "tail"@));
        }
    }
}

proof fn lemma_settled_post(
    before: Seq<SharedDocumentPropertyBlock>,
    after: Seq<SharedDocumentPropertyBlock>,
    blocks: Seq<SharedDocumentPropertyBlock>,
    span_start: u32,
    span_length: u32,
)
    requires
        after.len() == before.len(),
        forall|i: int| 0 <= i < before.len() ==> #[trigger] after[i] == (if stripped_at(before[i], i, before.len() as int) {
            cleared(before[i])
        } else {
            before[i]
        }),
        shaped(blocks, span_start) && block_end(blocks.last()) >= span_end_spec(span_start, span_length) ==> {
            &&& blocks.last().is_blank ==> before == blocks
            &&& !blocks.last().is_blank ==> before.len() == blocks.len() + 1 && before.drop_last() == blocks && tail_block_ok(before.last(), blocks)
        },
    ensures
        retile_settled(after, blocks, span_start, span_length),
{
    if shaped(blocks, span_start) && block_end(blocks.last()) >= span_end_spec(span_start, span_length) {
        let n = blocks.len() as int;
        assert forall|i: int| 0 <= i < n implies #[trigger] after[i] == settled(blocks[i], i, before.len() as int) by {
            assert(before[i] == blocks[i]);
        }
        if !blocks.last().is_blank {
            assert(after[n] == settled(before[n], n, n + 1));
            assert(before[n] == before.last());
            assert(!stripped_at(before[n], n, n + 1));
        }
    }
}

/// Clips, sorts and places the blocks, fills the span with a blank up to
/// its end and closes the track with a trailing blank; returns the blocks
/// and the first breath after the placed input.
#[verifier::spinoff_prover]
#[verifier::rlimit(80)]
fn close_track(blocks: &Vec<SharedDocumentPropertyBlock>, span_start: u32, span_length: u32, span_end: u32)
    -> (res: (Vec<SharedDocumentPropertyBlock>, u32))
    requires
        max_reach(blocks@) < u32::MAX,
        span_end == span_end_spec(span_start, span_length),
    ensures
        is_contiguous(res.0@),
        no_adjacent_blanks(res.0@),
        res.0@.len() > 0 ==> res.0@[0].start_breath == span_start,
        lengths_positive(blocks@) ==> lengths_positive(res.0@),
        ids_distinct(blocks@) ==> ids_distinct(res.0@),
        solids_come_from(res.0@, blocks@),
        forall|k: int| 0 <= k < res.0@.len() ==> block_reach(#[trigger] res.0@[k]) <= (if span_end_spec(span_start, span_length) > max_reach(blocks@) + 1 {
            span_end_spec(span_start, span_length)
        } else {
            max_reach(blocks@) + 1
        }),
        ids_from(res.0@, blocks@),
        span_start < u32::MAX ==> res.0@.len() > 0,
        res.0@.len() > 0 ==> res.0@.last().is_blank && block_end(res.0@.last()) >= span_end,
        res.0@.len() > 0 ==> block_end(res.0@.last()) >= res.1,
        res.0@.len() == 0 ==> res.1 == span_start,
        forall|j: int, x: int| 0 <= j < blocks@.len() && #[trigger] covers(blocks@[j], x) && x >= span_start ==> x < res.1,
        blanks_only_over_gaps(res.0@, blocks@),
        lengths_positive(blocks@) ==> covered_end(blocks@, span_start, res.1 as int),
        trailing_end_ok(res.0@, res.1 as int, span_end as int),
        shaped(blocks@, span_start) && block_end(blocks@.last()) >= span_end_spec(span_start, span_length) ==> {
            &&& blocks@.last().is_blank ==> res.0@ == blocks@
            &&& !blocks@.last().is_blank ==> res.0@.len() == blocks@.len() + 1 && res.0@.drop_last() == blocks@
                && tail_block_ok(res.0@.last(), blocks@)
        },
        is_binary_tiling(blocks@) && blocks@[0].start_breath == span_start
            && block_end(blocks@.last()) >= span_end_spec(span_start, span_length) ==> res.0@ == blocks@,
{
    let (mut tiled, cursor, mut used) = clip_sort_tile(&blocks, span_start);
    let ghost reach_in = max_reach(blocks@);
    let ghost bound0 = if span_end as int > reach_in { span_end as int } else { reach_in };
    let ghost b1 = if bound0 > reach_in + 1 { bound0 } else { reach_in + 1 };
    proof {
        lemma_stage_weaken(tiled@, blocks@, span_start, used@,
            if span_start > reach_in { span_start as int } else { reach_in }, bound0);
    }
    let ghost after_loop = tiled@;
    let ghost used_loop = used@;
    if cursor < span_end {
        append_span_tail(&mut tiled, cursor, span_end, &mut used, Ghost(blocks@), Ghost(span_start), Ghost(bound0));
    }
    let ghost after_span = tiled@;
    if tiled.len() > 0 {
        append_trailing_blank(&mut tiled, span_end, &mut used, Ghost(blocks@), Ghost(span_start), Ghost(bound0));
    } else {
        proof {
            lemma_stage_weaken(tiled@, blocks@, span_start, used@, bound0, b1);
        }
    }
    let ghost before_enforce = tiled@;
    proof {
        if shaped(blocks@, span_start) && block_end(blocks@.last()) >= span_end_spec(span_start, span_length) {
            assert(after_span == blocks@);
            lemma_settled_pre(blocks@, used_loop, before_enforce, span_start, span_end);
        }
        if before_enforce.len() > 0 {
            if cursor >= span_end && !after_span.last().is_blank {
                assert(before_enforce.len() >= 2);
                assert(before_enforce[before_enforce.len() - 2] == after_span.last());
            }
        }
        assert(trailing_end_ok(before_enforce, cursor as int, span_end as int));
        lemma_stage_parts(before_enforce, blocks@, span_start, used@, b1);
        assert(b1 == (if span_end_spec(span_start, span_length) > max_reach(blocks@) + 1 {
            span_end_spec(span_start, span_length)
        } else {
            max_reach(blocks@) + 1
        }));
    }
    proof {
        if is_binary_tiling(blocks@) && blocks@[0].start_breath == span_start
            && block_end(blocks@.last()) >= span_end_spec(span_start, span_length) {
            assert(after_loop == blocks@);
            assert(after_span == blocks@);
        }
        if shaped(blocks@, span_start) && block_end(blocks@.last()) >= span_end_spec(span_start, span_length) && !blocks@.last().is_blank {
            assert(before_enforce.drop_last() == blocks@);
        }
    }
    (tiled, cursor)
}

/// Re-tiles a property track over the span from `span_start`: blocks are
/// clipped on the left edge only, every uncovered window becomes a blank
/// block, adjacent blanks merge, overlapping broken data is trimmed, and the
/// track always ends with a blank — the trailing blank that stands for the
/// infinite empty region. Loop modes stranded off their edge are reset.
#[verifier::spinoff_prover]
#[verifier::rlimit(100)]
pub fn retiled_property_track(
    blocks: Vec<SharedDocumentPropertyBlock>,
    span_start: u32,
    span_length: u32,
) -> (out: Vec<SharedDocumentPropertyBlock>)
    requires
        max_reach(blocks@) < u32::MAX,
    ensures
        lengths_positive(blocks@) && ids_distinct(blocks@) && span_start < u32::MAX ==> is_binary_tiling(out@),
        span_start < u32::MAX ==> out@.len() > 0,
        out@.len() > 0 ==> {
            &&& out@[0].start_breath == span_start
            &&& out@.last().is_blank
            &&& block_end(out@.last()) >= span_end_spec(span_start, span_length)
        },
        is_contiguous(out@),
        no_adjacent_blanks(out@),
        edge_modes(out@),
        solids_clean(out@),
        lengths_positive(blocks@) ==> lengths_positive(out@),
        ids_distinct(blocks@) ==> ids_distinct(out@),
        solids_come_from(out@, blocks@),
        max_reach(out@) <= (if span_end_spec(span_start, span_length) > max_reach(blocks@) + 1 {
            span_end_spec(span_start, span_length)
        } else {
            max_reach(blocks@) + 1
        }),
        is_binary_tiling(blocks@) && blocks@[0].start_breath == span_start
            && block_end(blocks@.last()) >= span_end_spec(span_start, span_length) ==> out@ == blocks@,
        blanks_only_over_gaps(out@, blocks@),
        keeps_breaths(out@, blocks@, span_start as int),
        lengths_positive(blocks@) ==> forall|c: int| #[trigger] covered_end(blocks@, span_start, c)
            ==> trailing_end_ok(out@, c, span_end_spec(span_start, span_length)),
        ids_from(out@, blocks@),
        retile_settled(out@, blocks@, span_start, span_length),
{
    let span_end = span_end_of(span_start, span_length);
    let (mut tiled, cursor) = close_track(&blocks, span_start, span_length, span_end);
    let ghost before_enforce = tiled@;
    enforce_loop_mode_edges(&mut tiled);
    proof {
        lemma_enforce_gaps(before_enforce, tiled@, blocks@, span_start, cursor as int);
        lemma_trailing_post(before_enforce, tiled@, blocks@, span_start, span_end as int, cursor as int);
        lemma_ids_post(before_enforce, tiled@, blocks@);
        lemma_settled_post(before_enforce, tiled@, blocks@, span_start, span_length);
        lemma_enforce_result(before_enforce, tiled@, blocks@, span_start, span_length);
        if is_binary_tiling(blocks@) && blocks@[0].start_breath == span_start
            && block_end(blocks@.last()) >= span_end_spec(span_start, span_length) {
            assert(before_enforce == blocks@);
            lemma_enforce_keeps_tiling(blocks@);
            assert(tiled@ =~= blocks@);
        }
    }
    tiled
}

/// Resetting modes keeps where the empties lie, and the finished track
/// holds every input breath from the span start on.
proof fn lemma_enforce_gaps(
    before: Seq<SharedDocumentPropertyBlock>,
    after: Seq<SharedDocumentPropertyBlock>,
    blocks: Seq<SharedDocumentPropertyBlock>,
    span_start: u32,
    cursor: int,
)
    requires
        after.len() == before.len(),
        forall|i: int| 0 <= i < before.len() ==> #[trigger] after[i] == (if stripped_at(before[i], i, before.len() as int) {
            cleared(before[i])
        } else {
            before[i]
        }),
        blanks_only_over_gaps(before, blocks),
        is_contiguous(before),
        before.len() > 0 ==> before[0].start_breath == span_start,
        before.len() > 0 ==> block_end(before.last()) >= cursor,
        before.len() == 0 ==> cursor == span_start,
        forall|j: int, x: int| 0 <= j < blocks.len() && #[trigger] covers(blocks[j], x) && x >= span_start ==> x < cursor,
    ensures
        blanks_only_over_gaps(after, blocks),
        keeps_breaths(after, blocks, span_start as int),
{
    assert forall|i: int| 0 <= i < before.len() implies {
        &&& (#[trigger] after[i]).start_breath == before[i].start_breath
        &&& after[i].length_breaths == before[i].length_breaths
        &&& after[i].is_blank == before[i].is_blank
    } by {}
    assert forall|t: int, x: int| 0 <= t < after.len() && (#[trigger] after[t]).is_blank && #[trigger] covers(after[t], x)
        && covered_by(blocks, x) implies blank_at(blocks, x) by {
        assert(before[t].is_blank && covers(before[t], x));
    }
    assert forall|j: int, x: int| 0 <= j < blocks.len() && #[trigger] covers(blocks[j], x) && x >= span_start
        implies covered_by(after, x) by {
        assert(before.len() > 0);
        lemma_contiguous_covers(before, x);
        let k = choose|k: int| 0 <= k < before.len() && #[trigger] covers(before[k], x);
        assert(covers(after[k], x));
    }
}

proof fn lemma_stage_weaken(
    t: Seq<SharedDocumentPropertyBlock>,
    blocks: Seq<SharedDocumentPropertyBlock>,
    span_start: u32,
    used: Seq<String>,
    bound: int,
    bound2: int,
)
    requires
        stage_ok(t, blocks, span_start, used, bound),
        bound <= bound2,
    ensures
        stage_ok(t, blocks, span_start, used, bound2),
{
    reveal(stage_ok);
}

proof fn lemma_stage_parts(
    t: Seq<SharedDocumentPropertyBlock>,
    blocks: Seq<SharedDocumentPropertyBlock>,
    span_start: u32,
    used: Seq<String>,
    bound: int,
)
    requires
        stage_ok(t, blocks, span_start, used, bound),
    ensures
        is_contiguous(t),
        no_adjacent_blanks(t),
        t.len() > 0 ==> t[0].start_breath == span_start,
        lengths_positive(blocks) ==> lengths_positive(t),
        ids_distinct(blocks) ==> ids_distinct(t),
        solids_come_from(t, blocks),
        forall|k: int| 0 <= k < t.len() ==> block_reach(#[trigger] t[k]) <= bound,
        ids_from(t, blocks),
{
    reveal(stage_ok);
}

proof fn lemma_enforce_result(
    before: Seq<SharedDocumentPropertyBlock>,
    after: Seq<SharedDocumentPropertyBlock>,
    blocks: Seq<SharedDocumentPropertyBlock>,
    span_start: u32,
    span_length: u32,
)
    requires
        after.len() == before.len(),
        forall|i: int| 0 <= i < before.len() ==> #[trigger] after[i] == (if stripped_at(before[i], i, before.len() as int) {
            cleared(before[i])
        } else {
            before[i]
        }),
        is_contiguous(before),
        no_adjacent_blanks(before),
        lengths_positive(blocks) ==> lengths_positive(before),
        ids_distinct(blocks) ==> ids_distinct(before),
        solids_come_from(before, blocks),
        forall|k: int| 0 <= k < before.len() ==> block_reach(#[trigger] before[k]) <= (if span_end_spec(span_start, span_length) > max_reach(blocks) + 1 {
            span_end_spec(span_start, span_length)
        } else {
            max_reach(blocks) + 1
        }),
    ensures
        is_contiguous(after),
        no_adjacent_blanks(after),
        lengths_positive(blocks) ==> lengths_positive(after),
        ids_distinct(blocks) ==> ids_distinct(after),
        solids_come_from(after, blocks),
        max_reach(after) <= (if span_end_spec(span_start, span_length) > max_reach(blocks) + 1 {
            span_end_spec(span_start, span_length)
        } else {
            max_reach(blocks) + 1
        }),
        after.len() > 0 ==> after[0].start_breath == before[0].start_breath && after.last().is_blank == before.last().is_blank
            && block_end(after.last()) == block_end(before.last()),
{
    let bound = if span_end_spec(span_start, span_length) > max_reach(blocks) + 1 {
        span_end_spec(span_start, span_length)
    } else {
        max_reach(blocks) + 1
    };
    assert forall|i: int| 0 < i < after.len() implies #[trigger] after[i].start_breath == block_end(after[i - 1]) by {
        assert(after[i].start_breath == before[i].start_breath);
        assert(after[i - 1].length_breaths == before[i - 1].length_breaths);
        assert(after[i - 1].start_breath == before[i - 1].start_breath);
    }
    assert forall|i: int| 0 < i < after.len() implies !(after[i - 1].is_blank && #[trigger] after[i].is_blank) by {
        assert(after[i].is_blank == before[i].is_blank);
        assert(after[i - 1].is_blank == before[i - 1].is_blank);
    }
    if lengths_positive(blocks) {
        assert forall|i: int| 0 <= i < after.len() implies #[trigger] after[i].length_breaths >= 1 by {
            assert(after[i].length_breaths == before[i].length_breaths);
        }
    }
    if ids_distinct(blocks) {
        assert forall|a: int, b: int| 0 <= a < b < after.len() implies #[trigger] after[a].id@ != #[trigger] after[b].id@ by {
            assert(after[a].id == before[a].id && after[b].id == before[b].id);
        }
    }
    assert forall|t: int| 0 <= t < after.len() && !(#[trigger] after[t]).is_blank implies
        exists|j: int| 0 <= j < blocks.len() && piece_of(after[t], blocks[j]) by {
        assert(!before[t].is_blank);
        let j = choose|j: int| 0 <= j < blocks.len() && piece_of(before[t], blocks[j]);
        assert(piece_of(after[t], blocks[j]));
    }
    assert forall|t: int| 0 <= t < after.len() implies block_reach(#[trigger] after[t]) <= bound by {
        assert(block_reach(after[t]) == block_reach(before[t]));
    }
    lemma_max_reach_le(after, bound);
    if after.len() > 0 {
        assert(after[0].start_breath == before[0].start_breath);
        let l = after.len() - 1;
        assert(after[l].is_blank == before[l].is_blank);
        assert(after[l].length_breaths == before[l].length_breaths);
        assert(after[l].start_breath == before[l].start_breath);
    }
}

proof fn lemma_sorted_inputs(
    blocks: Seq<SharedDocumentPropertyBlock>,
    clipped: Seq<SharedDocumentPropertyBlock>,
    sorted: Seq<SharedDocumentPropertyBlock>,
    span_start: u32,
)
    requires
        clip_ok(clipped, blocks, span_start, blocks.len() as int),
        forall|k: int| 0 <= k < sorted.len() ==> exists|j: int| 0 <= j < clipped.len() && #[trigger] sorted[k] == clipped[j],
    ensures
        ids_distinct(blocks) ==> ids_distinct(clipped),
        all_start_at_or_after(blocks, span_start) && lengths_positive(blocks) ==> clipped == blocks,
        max_reach(sorted) <= max_reach(blocks),
        forall|k: int| 0 <= k < sorted.len() ==> (#[trigger] sorted[k]).start_breath >= span_start,
        lengths_positive(blocks) ==> lengths_positive(sorted),
        forall|k: int| 0 <= k < sorted.len() ==> exists|m: int| 0 <= m < blocks.len() && piece_of(#[trigger] sorted[k], blocks[m]),
{
    reveal(clip_ok);
    if all_start_at_or_after(blocks, span_start) && lengths_positive(blocks) {
        assert(blocks.subrange(0, blocks.len() as int) =~= blocks);
    }
    lemma_max_reach_bounds(blocks);
    assert forall|k: int| 0 <= k < sorted.len() implies exists|m: int| 0 <= m < blocks.len() && piece_of(#[trigger] sorted[k], blocks[m]) by {
        let j = choose|j: int| 0 <= j < clipped.len() && #[trigger] sorted[k] == clipped[j];
        let m = choose|m: int| 0 <= m < blocks.len() && same_but_timing(#[trigger] clipped[j], blocks[m]) && piece_of(clipped[j], blocks[m]);
        assert(piece_of(sorted[k], blocks[m]));
    }
    assert forall|k: int| 0 <= k < sorted.len() implies block_reach(#[trigger] sorted[k]) <= max_reach(blocks) by {
        let m = choose|m: int| 0 <= m < blocks.len() && piece_of(#[trigger] sorted[k], blocks[m]);
        assert(block_reach(blocks[m]) <= max_reach(blocks));
    }
    lemma_max_reach_le(sorted, max_reach(blocks));
    assert forall|k: int| 0 <= k < sorted.len() implies (#[trigger] sorted[k]).start_breath >= span_start by {
        let j = choose|j: int| 0 <= j < clipped.len() && #[trigger] sorted[k] == clipped[j];
    }
    if lengths_positive(blocks) {
        assert forall|k: int| 0 <= k < sorted.len() implies #[trigger] sorted[k].length_breaths >= 1 by {
            let j = choose|j: int| 0 <= j < clipped.len() && #[trigger] sorted[k] == clipped[j];
        }
    }
}

proof fn lemma_tiled_solids(
    tiled: Seq<SharedDocumentPropertyBlock>,
    sorted: Seq<SharedDocumentPropertyBlock>,
    blocks: Seq<SharedDocumentPropertyBlock>,
)
    requires
        forall|t: int| 0 <= t < tiled.len() && !(#[trigger] tiled[t]).is_blank ==>
            exists|k: int| 0 <= k < sorted.len() && piece_of(tiled[t], sorted[k]),
        forall|k: int| 0 <= k < sorted.len() ==> exists|m: int| 0 <= m < blocks.len() && piece_of(#[trigger] sorted[k], blocks[m]),
    ensures
        solids_come_from(tiled, blocks),
{
    assert forall|t: int| 0 <= t < tiled.len() && !(#[trigger] tiled[t]).is_blank implies
        exists|j: int| 0 <= j < blocks.len() && piece_of(tiled[t], blocks[j]) by {
        let k = choose|k: int| 0 <= k < sorted.len() && piece_of(tiled[t], sorted[k]);
        let m = choose|m: int| 0 <= m < blocks.len() && piece_of(#[trigger] sorted[k], blocks[m]);
        lemma_piece_trans(tiled[t], sorted[k], blocks[m]);
    }
}

proof fn lemma_fixed_point_inputs(blocks: Seq<SharedDocumentPropertyBlock>, span_start: u32)
    requires
        shaped(blocks, span_start),
    ensures
        all_start_at_or_after(blocks, span_start),
        sorted_by_start(blocks),
{
    lemma_contiguous_increasing(blocks);
    assert forall|j: int| 0 <= j < blocks.len() implies (#[trigger] blocks[j]).start_breath >= span_start by {
        if j > 0 {
            assert(blocks[0].start_breath < blocks[j].start_breath);
        }
    }
}

proof fn lemma_ids_in_used(sorted: Seq<SharedDocumentPropertyBlock>, used: Seq<String>)
    requires
        used.len() == sorted.len(),
        forall|k: int| 0 <= k < sorted.len() ==> #[trigger] used[k] == sorted[k].id,
    ensures
        forall|k: int| 0 <= k < sorted.len() ==> has_id(used, (#[trigger] sorted[k]).id@),
{
    assert forall|k: int| 0 <= k < sorted.len() implies has_id(used, (#[trigger] sorted[k]).id@) by {
        assert(used[k] == sorted[k].id);
    }
}

/// What the stable sort guarantees of its output.
#[verifier::opaque]
spec fn sort_ok(sorted: Seq<SharedDocumentPropertyBlock>, v: Seq<SharedDocumentPropertyBlock>) -> bool {
    &&& sorted.len() == v.len()
    &&& sorted_by_start(sorted)
    &&& forall|k: int| 0 <= k < sorted.len() ==> exists|j: int| 0 <= j < v.len() && #[trigger] sorted[k] == v[j]
    &&& all_kept(sorted, v, v.len() as int)
    &&& ids_distinct(v) ==> ids_distinct(sorted)
    &&& sorted_by_start(v) ==> sorted == v
}

/// What placing the sorted blocks guarantees.
#[verifier::opaque]
spec fn tile_ok(
    tiled: Seq<SharedDocumentPropertyBlock>,
    cursor: int,
    sorted: Seq<SharedDocumentPropertyBlock>,
    span_start: u32,
    used_before: Seq<String>,
    used_after: Seq<String>,
) -> bool {
    &&& tiling_progress(tiled, cursor, span_start)
    &&& cursor <= (if span_start > max_reach(sorted) { span_start as int } else { max_reach(sorted) })
    &&& forall|t: int| 0 <= t < tiled.len() ==> block_reach(#[trigger] tiled[t]) <= (if span_start > max_reach(sorted) { span_start as int } else { max_reach(sorted) })
    &&& forall|t: int| 0 <= t < tiled.len() ==> has_id(used_after, (#[trigger] tiled[t]).id@)
    &&& forall|x: Seq<char>| has_id(used_before, x) ==> #[trigger] has_id(used_after, x)
    &&& lengths_positive(sorted) ==> lengths_positive(tiled)
    &&& ids_distinct(sorted) ==> ids_distinct(tiled)
    &&& forall|t: int| 0 <= t < tiled.len() && !(#[trigger] tiled[t]).is_blank ==>
        exists|k: int| 0 <= k < sorted.len() && piece_of(tiled[t], sorted[k])
    &&& is_contiguous(sorted) && lengths_positive(sorted) && no_adjacent_blanks(sorted)
        && (sorted.len() > 0 ==> sorted[0].start_breath == span_start) ==> tiled == sorted && used_after == used_before
    &&& forall|k: int| 0 <= k < sorted.len() ==> block_end(#[trigger] sorted[k]) <= cursor
    &&& blanks_only_over_gaps(tiled, sorted)
    &&& (lengths_positive(sorted) ==> cursor == span_start || covered_by(sorted, cursor - 1))
    &&& ids_from(tiled, sorted)
}

fn sort_stage(clipped: &Vec<SharedDocumentPropertyBlock>) -> (sorted: Vec<SharedDocumentPropertyBlock>)
    ensures
        sort_ok(sorted@, clipped@),
{
    let sorted = sort_by_start(clipped);
    proof {
        reveal(sort_ok);
    }
    sorted
}

fn tile_stage(sorted: &Vec<SharedDocumentPropertyBlock>, span_start: u32, used: &mut Vec<String>)
    -> (res: (Vec<SharedDocumentPropertyBlock>, u32))
    requires
        sorted_by_start(sorted@),
        max_reach(sorted@) < u32::MAX,
        forall|k: int| 0 <= k < sorted@.len() ==> (#[trigger] sorted@[k]).start_breath >= span_start,
        forall|k: int| 0 <= k < sorted@.len() ==> has_id(old(used)@, (#[trigger] sorted@[k]).id@),
    ensures
        tile_ok(res.0@, res.1 as int, sorted@, span_start, old(used)@, final(used)@),
{
    let res = tile_sorted(sorted, span_start, used);
    proof {
        reveal(tile_ok);
    }
    res
}

/// The placed blocks leave content where the input had it, and hold
/// every input breath from the span start up to the cursor.
proof fn lemma_stage_gaps(
    blocks: Seq<SharedDocumentPropertyBlock>,
    clipped: Seq<SharedDocumentPropertyBlock>,
    sorted: Seq<SharedDocumentPropertyBlock>,
    tiled: Seq<SharedDocumentPropertyBlock>,
    cursor: int,
    span_start: u32,
)
    requires
        clip_ok(clipped, blocks, span_start, blocks.len() as int),
        sort_ok(sorted, clipped),
        forall|k: int| 0 <= k < sorted.len() ==> block_end(#[trigger] sorted[k]) <= cursor,
        blanks_only_over_gaps(tiled, sorted),
        tiling_progress(tiled, cursor, span_start),
    ensures
        blanks_only_over_gaps(tiled, blocks),
        forall|j: int, x: int| 0 <= j < blocks.len() && #[trigger] covers(blocks[j], x) && x >= span_start ==> x < cursor,
{
    reveal(clip_ok);
    reveal(sort_ok);
    reveal(all_kept);
    assert forall|x: int| x >= span_start && covered_by(clipped, x) implies covered_by(sorted, x) by {
        let k = choose|k: int| 0 <= k < clipped.len() && #[trigger] covers(clipped[k], x);
        let m = choose|m: int| 0 <= m < sorted.len() && sorted[m] == #[trigger] clipped[k];
        assert(covers(sorted[m], x));
    }
    assert forall|x: int| blank_at(sorted, x) implies blank_at(clipped, x) by {
        let k = choose|k: int| 0 <= k < sorted.len() && sorted[k].is_blank && #[trigger] covers(sorted[k], x);
        let j = choose|j: int| 0 <= j < clipped.len() && #[trigger] sorted[k] == clipped[j];
        assert(covers(clipped[j], x));
    }
    if tiled.len() > 0 {
        lemma_contiguous_starts(tiled);
    }
    assert forall|t: int, x: int| 0 <= t < tiled.len() && (#[trigger] tiled[t]).is_blank && #[trigger] covers(tiled[t], x)
        && covered_by(blocks, x) implies blank_at(blocks, x) by {
        assert(tiled[t].start_breath >= tiled[0].start_breath);
        let j = choose|j: int| 0 <= j < blocks.len() && #[trigger] covers(blocks[j], x);
        assert(covered_by(clipped, x));
        assert(covered_by(sorted, x));
        assert(blank_at(sorted, x));
        assert(blank_at(clipped, x));
    }
    assert forall|j: int, x: int| 0 <= j < blocks.len() && #[trigger] covers(blocks[j], x) && x >= span_start implies x < cursor by {
        assert(covered_by(clipped, x));
        assert(covered_by(sorted, x));
        let k = choose|k: int| 0 <= k < sorted.len() && #[trigger] covers(sorted[k], x);
        assert(block_end(sorted[k]) <= cursor);
    }
}

/// `c` is where the input's breaths end, counted from the span start: the
/// end of the block reaching furthest, or the span start when none reaches
/// past it.
pub open spec fn covered_end(input: Seq<SharedDocumentPropertyBlock>, span_start: u32, c: int) -> bool {
    &&& c >= span_start
    &&& forall|j: int| 0 <= j < input.len() ==> block_end(#[trigger] input[j]) <= c
    &&& (c == span_start || covered_by(input, c - 1))
}

/// Where the trailing blank ends: at the span end when the input's breaths
/// stop before it; otherwise right where they stop, or one breath after
/// when a solid block ends there and a minimal blank follows it.
pub open spec fn trailing_end_ok(out: Seq<SharedDocumentPropertyBlock>, c: int, span_end: int) -> bool {
    out.len() > 0 ==> if c < span_end {
        block_end(out.last()) == span_end
    } else {
        ||| block_end(out.last()) == c
        ||| (out.last().start_breath == c && out.last().length_breaths == 1 && out.len() >= 2 && !out[out.len() - 2].is_blank)
    }
}

/// There is only one place where the input's breaths end.
pub proof fn lemma_covered_end_unique(input: Seq<SharedDocumentPropertyBlock>, span_start: u32, c1: int, c2: int)
    requires
        covered_end(input, span_start, c1),
        covered_end(input, span_start, c2),
    ensures
        c1 == c2,
{
    if c1 < c2 {
        let k = choose|k: int| 0 <= k < input.len() && #[trigger] covers(input[k], c2 - 1);
        assert(block_end(input[k]) <= c1);
    } else if c2 < c1 {
        let k = choose|k: int| 0 <= k < input.len() && #[trigger] covers(input[k], c1 - 1);
        assert(block_end(input[k]) <= c2);
    }
}

proof fn lemma_cursor_end(
    blocks: Seq<SharedDocumentPropertyBlock>,
    clipped: Seq<SharedDocumentPropertyBlock>,
    sorted: Seq<SharedDocumentPropertyBlock>,
    cursor: int,
    span_start: u32,
)
    requires
        lengths_positive(blocks),
        clip_ok(clipped, blocks, span_start, blocks.len() as int),
        sort_ok(sorted, clipped),
        cursor >= span_start,
        cursor == span_start || covered_by(sorted, cursor - 1),
        forall|j: int, x: int| 0 <= j < blocks.len() && #[trigger] covers(blocks[j], x) && x >= span_start ==> x < cursor,
    ensures
        covered_end(blocks, span_start, cursor),
{
    reveal(clip_ok);
    reveal(sort_ok);
    assert forall|j: int| 0 <= j < blocks.len() implies block_end(#[trigger] blocks[j]) <= cursor by {
        if block_end(blocks[j]) > span_start {
            assert(blocks[j].length_breaths >= 1);
            assert(covers(blocks[j], block_end(blocks[j]) - 1));
        }
    }
    if cursor != span_start {
        let k = choose|k: int| 0 <= k < sorted.len() && #[trigger] covers(sorted[k], cursor - 1);
        let j = choose|j: int| 0 <= j < clipped.len() && #[trigger] sorted[k] == clipped[j];
        let m = choose|m: int| 0 <= m < blocks.len() && same_but_timing(#[trigger] clipped[j], blocks[m]) && piece_of(clipped[j], blocks[m]);
        assert(blocks[m].length_breaths >= 1);
        assert(covers(blocks[m], cursor - 1));
    }
}

/// What the stages give the final result.
proof fn lemma_clip_sort_tile(
    blocks: Seq<SharedDocumentPropertyBlock>,
    clipped: Seq<SharedDocumentPropertyBlock>,
    sorted: Seq<SharedDocumentPropertyBlock>,
    used_before: Seq<String>,
    used_after: Seq<String>,
    tiled: Seq<SharedDocumentPropertyBlock>,
    cursor: u32,
    span_start: u32,
)
    requires
        max_reach(blocks) < u32::MAX,
        clip_ok(clipped, blocks, span_start, blocks.len() as int),
        sort_ok(sorted, clipped),
        forall|k: int| 0 <= k < sorted.len() ==> has_id(used_before, (#[trigger] sorted[k]).id@),
        tile_ok(tiled, cursor as int, sorted, span_start, used_before, used_after),
    ensures
        stage_ok(tiled, blocks, span_start, used_after, if span_start > max_reach(blocks) { span_start as int } else { max_reach(blocks) }),
        tiled.len() == 0 ==> cursor == span_start,
        tiled.len() > 0 ==> cursor == block_end(tiled.last()),
        cursor <= (if span_start > max_reach(blocks) { span_start as int } else { max_reach(blocks) }),
        cursor >= span_start,
        is_binary_tiling(blocks) && blocks[0].start_breath == span_start ==> tiled == blocks,
        shaped(blocks, span_start) ==> tiled == blocks && used_after == used_before && sorted == blocks,
{
    reveal(sort_ok);
    reveal(tile_ok);
    reveal(clip_ok);
    assert forall|k: int| 0 <= k < sorted.len() implies exists|j: int| 0 <= j < blocks.len() && (#[trigger] sorted[k]).id@ == blocks[j].id@ by {
        let c = choose|c: int| 0 <= c < clipped.len() && #[trigger] sorted[k] == clipped[c];
        let j = choose|j: int| 0 <= j < blocks.len() && same_but_timing(#[trigger] clipped[c], blocks[j]) && piece_of(clipped[c], blocks[j]);
        assert(sorted[k].id@ == blocks[j].id@);
    }
    lemma_ids_from_sources(tiled, sorted, blocks);
    lemma_sorted_inputs(blocks, clipped, sorted, span_start);
    lemma_tiled_solids(tiled, sorted, blocks);
    reveal(stage_ok);
    if shaped(blocks, span_start) {
        lemma_fixed_point_inputs(blocks, span_start);
        assert(clipped == blocks);
        assert(sorted == blocks);
    }
}

/// Clips, sorts and places the blocks; returns the placed blocks, the first
/// breath after them, and the ids already taken.
fn clip_sort_tile(blocks: &Vec<SharedDocumentPropertyBlock>, span_start: u32)
    -> (res: (Vec<SharedDocumentPropertyBlock>, u32, Vec<String>))
    requires
        max_reach(blocks@) < u32::MAX,
    ensures
        stage_ok(res.0@, blocks@, span_start, res.2@, if span_start > max_reach(blocks@) { span_start as int } else { max_reach(blocks@) }),
        res.0@.len() == 0 ==> res.1 == span_start,
        res.0@.len() > 0 ==> res.1 == block_end(res.0@.last()),
        res.1 <= (if span_start > max_reach(blocks@) { span_start as int } else { max_reach(blocks@) }),
        res.1 >= span_start,
        is_binary_tiling(blocks@) && blocks@[0].start_breath == span_start ==> res.0@ == blocks@,
        shaped(blocks@, span_start) ==> res.0@ == blocks@ && res.2@.len() == blocks@.len()
            && forall|k: int| 0 <= k < blocks@.len() ==> #[trigger] res.2@[k] == blocks@[k].id,
        blanks_only_over_gaps(res.0@, blocks@),
        forall|j: int, x: int| 0 <= j < blocks@.len() && #[trigger] covers(blocks@[j], x) && x >= span_start ==> x < res.1,
        lengths_positive(blocks@) ==> covered_end(blocks@, span_start, res.1 as int),
{
    let clipped = clip_blocks(blocks, span_start);
    let sorted = sort_stage(&clipped);
    proof {
        reveal(sort_ok);
        lemma_sorted_inputs(blocks@, clipped@, sorted@, span_start);
    }
    let mut used = ids_of(&sorted);
    let ghost used_before = used@;
    proof {
        lemma_ids_in_used(sorted@, used@);
    }
    let (tiled, cursor) = tile_stage(&sorted, span_start, &mut used);
    proof {
        lemma_clip_sort_tile(blocks@, clipped@, sorted@, used_before, used@, tiled@, cursor, span_start);
        reveal(tile_ok);
        lemma_stage_gaps(blocks@, clipped@, sorted@, tiled@, cursor as int, span_start);
        if lengths_positive(blocks@) {
            lemma_cursor_end(blocks@, clipped@, sorted@, cursor as int, span_start);
        }
    }
    (tiled, cursor, used)
}

/// What a re-tile of `input` over the span gives, as far as it is stated.
#[verifier::opaque]
pub open spec fn retiled_from(
    out: Seq<SharedDocumentPropertyBlock>,
    input: Seq<SharedDocumentPropertyBlock>,
    span_start: u32,
    span_length: u32,
) -> bool {
    &&& (lengths_positive(input) && ids_distinct(input) && span_start < u32::MAX ==> is_binary_tiling(out))
    &&& (span_start < u32::MAX ==> out.len() > 0)
    &&& (out.len() > 0 ==> {
        &&& out[0].start_breath == span_start
        &&& out.last().is_blank
        &&& block_end(out.last()) >= span_end_spec(span_start, span_length)
    })
    &&& is_contiguous(out)
    &&& no_adjacent_blanks(out)
    &&& edge_modes(out)
    &&& solids_clean(out)
    &&& (lengths_positive(input) ==> lengths_positive(out))
    &&& (ids_distinct(input) ==> ids_distinct(out))
    &&& solids_come_from(out, input)
    &&& max_reach(out) <= (if span_end_spec(span_start, span_length) > max_reach(input) + 1 {
        span_end_spec(span_start, span_length)
    } else {
        max_reach(input) + 1
    })
    &&& (is_binary_tiling(input) && input[0].start_breath == span_start
        && block_end(input.last()) >= span_end_spec(span_start, span_length) ==> out == input)
    &&& blanks_only_over_gaps(out, input)
    &&& keeps_breaths(out, input, span_start as int)
    &&& (lengths_positive(input) ==> forall|c: int| #[trigger] covered_end(input, span_start, c)
        ==> trailing_end_ok(out, c, span_end_spec(span_start, span_length)))
    &&& ids_from(out, input)
    &&& retile_settled(out, input, span_start, span_length)
}

/// Re-tiles a track's blocks over a layer span (see `retiled_property_track`).
pub fn retile(blocks: Vec<SharedDocumentPropertyBlock>, span_start: u32, span_length: u32) -> (out: Vec<SharedDocumentPropertyBlock>)
    requires
        max_reach(blocks@) < u32::MAX,
    ensures
        retiled_from(out@, blocks@, span_start, span_length),
{
    let ghost input = blocks@;
    let out = retiled_property_track(blocks, span_start, span_length);
    proof {
        reveal(retiled_from);
    }
    out
}

} // verus!
