//! Property tracks: the bars of one layer property on the timeline, kept as
//! a binary tiling — solid keyframe blocks and empty (blank) blocks that
//! cover the layer's span without gaps or overlaps, never two empties side
//! by side, and always ending with an empty that stands for the infinite
//! empty region after the stored extent.

use vstd::prelude::*;
use vstd::set_lib::{set_int_range, lemma_int_range, lemma_len_subset};
use crate::json::JsonValue;
use crate::interp_mode::{InterpMode, resolved_mode, name_view, resolve_stored_mode, mode_allowed_at, next_mode, mode_is_ease_adjustable, next_ease_percent, mode_name, mode_allowed_at_spec, next_mode_spec, mode_is_ease_adjustable_spec, next_ease_percent_spec, mode_name_spec, lemma_mode_name_round_trip};
use crate::text::{push_char, push_decimal, decimal, parse_u32, parse_u32_spec, starts_with, str_eq, lemma_decimal_parses, lemma_parse_decimal};

verus! {

/// One block of a property track.
#[derive(Debug, PartialEq, Eq)]
pub struct SharedDocumentPropertyBlock {
    pub id: String,
    pub start_breath: u32,
    pub length_breaths: u32,
    pub is_blank: bool,
    /// Per-kind payload: move blocks hold an `{x,y,z}` offset, timing-only
    /// kinds (raster) leave it empty.
    pub value: Option<JsonValue>,
    /// Interpretation mode of an empty (see `interp_mode`).
    pub interpretation: Option<String>,
    /// Ease-out strength on the empty's left end, in percent.
    pub ease_out_percent: Option<u8>,
    /// Ease-in strength on the empty's right end, in percent.
    pub ease_in_percent: Option<u8>,
}

/// One property's track on a layer.
#[derive(Debug, PartialEq, Eq)]
pub struct SharedDocumentPropertyTrack {
    pub property_id: String,
    pub blocks: Vec<SharedDocumentPropertyBlock>,
}

impl SharedDocumentPropertyBlock {
    /// An exact copy of the block.
    pub fn copy(&self) -> (r: SharedDocumentPropertyBlock)
        ensures
            r == *self,
    {
        SharedDocumentPropertyBlock {
            id: self.id.clone(),
            start_breath: self.start_breath,
            length_breaths: self.length_breaths,
            is_blank: self.is_blank,
            value: match &self.value {
                Some(v) => Some(v.copy()),
                None => None,
            },
            interpretation: match &self.interpretation {
                Some(s) => Some(s.clone()),
                None => None,
            },
            ease_out_percent: self.ease_out_percent,
            ease_in_percent: self.ease_in_percent,
        }
    }
}

impl Clone for SharedDocumentPropertyBlock {
    fn clone(&self) -> (r: SharedDocumentPropertyBlock)
        ensures
            r == *self,
    {
        self.copy()
    }
}

/// An empty block with no interpretation data.
pub open spec fn plain_blank(id: String, start: u32, length: u32) -> SharedDocumentPropertyBlock {
    SharedDocumentPropertyBlock {
        id,
        start_breath: start,
        length_breaths: length,
        is_blank: true,
        value: None,
        interpretation: None,
        ease_out_percent: None,
        ease_in_percent: None,
    }
}

pub fn new_blank(id: String, start: u32, length: u32) -> (b: SharedDocumentPropertyBlock)
    ensures
        b == plain_blank(id, start, length),
{
    SharedDocumentPropertyBlock {
        id,
        start_breath: start,
        length_breaths: length,
        is_blank: true,
        value: None,
        interpretation: None,
        ease_out_percent: None,
        ease_in_percent: None,
    }
}

/// The first breath after the block.
pub open spec fn block_end(b: SharedDocumentPropertyBlock) -> int {
    b.start_breath + b.length_breaths
}

/// The block's length, counting an empty length as one breath.
pub open spec fn min1(n: u32) -> int {
    if n == 0 { 1 } else { n as int }
}

/// The first breath after the block when a zero length counts as one.
pub open spec fn block_reach(b: SharedDocumentPropertyBlock) -> int {
    b.start_breath + min1(b.length_breaths)
}

/// The largest `block_reach` over a sequence (0 when empty).
pub open spec fn max_reach(s: Seq<SharedDocumentPropertyBlock>) -> int
    decreases s.len(),
{
    if s.len() == 0 {
        0
    } else {
        let rest = max_reach(s.drop_last());
        if block_reach(s.last()) > rest { block_reach(s.last()) } else { rest }
    }
}

pub proof fn lemma_max_reach_bounds(s: Seq<SharedDocumentPropertyBlock>)
    ensures
        forall|i: int| 0 <= i < s.len() ==> block_reach(#[trigger] s[i]) <= max_reach(s),
        max_reach(s) >= 0,
        s.len() > 0 ==> exists|i: int| 0 <= i < s.len() && block_reach(s[i]) == max_reach(s),
    decreases s.len(),
{
    if s.len() > 0 {
        lemma_max_reach_bounds(s.drop_last());
        assert forall|i: int| 0 <= i < s.len() implies block_reach(#[trigger] s[i]) <= max_reach(s) by {
            if i < s.len() - 1 {
                assert(s[i] == s.drop_last()[i]);
            }
        }
        if block_reach(s.last()) <= max_reach(s.drop_last()) && s.len() > 1 {
            let i = choose|i: int| 0 <= i < s.drop_last().len() && block_reach(s.drop_last()[i]) == max_reach(s.drop_last());
            assert(s[i] == s.drop_last()[i]);
        }
    }
}

pub proof fn lemma_max_reach_le(s: Seq<SharedDocumentPropertyBlock>, limit: int)
    requires
        limit >= 0,
        forall|i: int| 0 <= i < s.len() ==> block_reach(#[trigger] s[i]) <= limit,
    ensures
        max_reach(s) <= limit,
    decreases s.len(),
{
    if s.len() > 0 {
        assert forall|i: int| 0 <= i < s.drop_last().len() implies block_reach(#[trigger] s.drop_last()[i]) <= limit by {
            assert(s.drop_last()[i] == s[i]);
        }
        lemma_max_reach_le(s.drop_last(), limit);
    }
}

/// Each block starts where the previous one ends.
pub open spec fn is_contiguous(s: Seq<SharedDocumentPropertyBlock>) -> bool {
    forall|i: int| 0 < i < s.len() ==> #[trigger] s[i].start_breath == block_end(s[i - 1])
}

/// Two empties never touch.
pub open spec fn no_adjacent_blanks(s: Seq<SharedDocumentPropertyBlock>) -> bool {
    forall|i: int| 0 < i < s.len() ==> !(s[i - 1].is_blank && #[trigger] s[i].is_blank)
}

/// Every block is at least one breath long.
pub open spec fn lengths_positive(s: Seq<SharedDocumentPropertyBlock>) -> bool {
    forall|i: int| 0 <= i < s.len() ==> #[trigger] s[i].length_breaths >= 1
}

/// No two blocks share an id.
pub open spec fn ids_distinct(s: Seq<SharedDocumentPropertyBlock>) -> bool {
    forall|i: int, j: int| 0 <= i < j < s.len() ==> #[trigger] s[i].id@ != #[trigger] s[j].id@
}

/// The mode a block's stored interpretation resolves to.
pub open spec fn block_mode(b: SharedDocumentPropertyBlock) -> InterpMode {
    resolved_mode(name_view(b.interpretation))
}

/// Loop modes only on the edge blanks: `loop_out` on the last block, `loop_in`
/// on the first.
pub open spec fn edge_modes(s: Seq<SharedDocumentPropertyBlock>) -> bool {
    forall|i: int| 0 <= i < s.len() ==> {
        &&& (block_mode(#[trigger] s[i]) == InterpMode::LoopOut ==> i == s.len() - 1 && s[i].is_blank)
        &&& (block_mode(s[i]) == InterpMode::LoopIn ==> i == 0 && s[i].is_blank)
    }
}

/// Solid blocks carry no interpretation data.
pub open spec fn solids_clean(s: Seq<SharedDocumentPropertyBlock>) -> bool {
    forall|i: int| 0 <= i < s.len() && !(#[trigger] s[i]).is_blank ==> {
        &&& s[i].interpretation is None
        &&& s[i].ease_out_percent is None
        &&& s[i].ease_in_percent is None
    }
}

/// The binary tiling every stored track keeps.
pub open spec fn is_binary_tiling(s: Seq<SharedDocumentPropertyBlock>) -> bool {
    &&& s.len() > 0
    &&& is_contiguous(s)
    &&& no_adjacent_blanks(s)
    &&& lengths_positive(s)
    &&& ids_distinct(s)
    &&& s.last().is_blank
    &&& edge_modes(s)
    &&& solids_clean(s)
}

/// The end of a layer span: `start + max(length, 1)`, saturating.
pub open spec fn span_end_spec(span_start: u32, span_length: u32) -> int {
    if span_start + min1(span_length) > u32::MAX { u32::MAX as int } else { span_start + min1(span_length) }
}

/// `out` holds a piece of block `b`: same identity, kind and payload, inside
/// `b`'s breaths.
pub open spec fn piece_of(out: SharedDocumentPropertyBlock, b: SharedDocumentPropertyBlock) -> bool {
    &&& out.id == b.id
    &&& out.is_blank == b.is_blank
    &&& out.value == b.value
    &&& out.start_breath >= b.start_breath
    &&& block_reach(out) <= block_reach(b)
}

/// The block holds breath `x` (a block of length zero holds none).
pub open spec fn covers(b: SharedDocumentPropertyBlock, x: int) -> bool {
    b.start_breath <= x < block_end(b)
}

/// Some block of `s` holds breath `x`.
pub open spec fn covered_by(s: Seq<SharedDocumentPropertyBlock>, x: int) -> bool {
    exists|k: int| 0 <= k < s.len() && #[trigger] covers(s[k], x)
}

/// Some empty of `s` holds breath `x`.
pub open spec fn blank_at(s: Seq<SharedDocumentPropertyBlock>, x: int) -> bool {
    exists|k: int| 0 <= k < s.len() && s[k].is_blank && #[trigger] covers(s[k], x)
}

/// The empties of `out` lie only where `input` has no block or has an
/// empty: no breath that `input` fills with content becomes empty.
pub open spec fn blanks_only_over_gaps(out: Seq<SharedDocumentPropertyBlock>, input: Seq<SharedDocumentPropertyBlock>) -> bool {
    forall|t: int, x: int| 0 <= t < out.len() && (#[trigger] out[t]).is_blank && #[trigger] covers(out[t], x)
        && covered_by(input, x) ==> blank_at(input, x)
}

/// Every breath of `input` from `from` on is held by some block of `out`.
pub open spec fn keeps_breaths(out: Seq<SharedDocumentPropertyBlock>, input: Seq<SharedDocumentPropertyBlock>, from: int) -> bool {
    forall|j: int, x: int| 0 <= j < input.len() && #[trigger] covers(input[j], x) && x >= from ==> covered_by(out, x)
}

/// In a contiguous sequence every block starts at or after the first.
pub proof fn lemma_contiguous_starts(s: Seq<SharedDocumentPropertyBlock>)
    requires
        is_contiguous(s),
        s.len() > 0,
    ensures
        forall|i: int| 0 <= i < s.len() ==> (#[trigger] s[i]).start_breath >= s[0].start_breath,
        forall|i: int| 0 <= i < s.len() ==> block_end(#[trigger] s[i]) <= block_end(s.last()),
    decreases s.len(),
{
    if s.len() > 1 {
        let t = s.drop_last();
        assert forall|i: int| 0 < i < t.len() implies #[trigger] t[i].start_breath == block_end(t[i - 1]) by {
            assert(t[i] == s[i] && t[i - 1] == s[i - 1]);
        }
        lemma_contiguous_starts(t);
        assert forall|i: int| 0 <= i < s.len() implies (#[trigger] s[i]).start_breath >= s[0].start_breath by {
            if i < s.len() - 1 {
                assert(s[i] == t[i]);
            } else {
                assert(s[i].start_breath == block_end(s[i - 1]));
                assert(s[i - 1] == t[i - 1]);
            }
        }
        assert forall|i: int| 0 <= i < s.len() implies block_end(#[trigger] s[i]) <= block_end(s.last()) by {
            if i < s.len() - 1 {
                assert(s[i] == t[i]);
                assert(t.last() == s[s.len() - 2]);
                assert(s.last().start_breath == block_end(s[s.len() - 2]));
            }
        }
    }
}

/// A contiguous sequence holds every breath from its start to its end.
pub proof fn lemma_contiguous_covers(s: Seq<SharedDocumentPropertyBlock>, x: int)
    requires
        is_contiguous(s),
        s.len() > 0,
        s[0].start_breath <= x < block_end(s.last()),
    ensures
        covered_by(s, x),
    decreases s.len(),
{
    if covers(s.last(), x) {
        assert(covers(s[s.len() - 1], x));
    } else {
        let t = s.drop_last();
        assert(s.last().start_breath > x);
        assert(s.len() > 1);
        assert(s[s.len() - 1].start_breath == block_end(s[s.len() - 2]));
        assert forall|i: int| 0 < i < t.len() implies #[trigger] t[i].start_breath == block_end(t[i - 1]) by {
            assert(t[i] == s[i] && t[i - 1] == s[i - 1]);
        }
        lemma_contiguous_covers(t, x);
        let k = choose|k: int| 0 <= k < t.len() && #[trigger] covers(t[k], x);
        assert(s[k] == t[k]);
    }
}

/// Every solid block of `out` is a piece of a solid block of `input`.
pub open spec fn solids_come_from(out: Seq<SharedDocumentPropertyBlock>, input: Seq<SharedDocumentPropertyBlock>) -> bool {
    forall|k: int| 0 <= k < out.len() && !(#[trigger] out[k]).is_blank ==>
        exists|j: int| 0 <= j < input.len() && piece_of(out[k], input[j])
}

/// Pushes one re-tiled block, merging it into the previous block when both
/// are blank (adjacent empties merge into one).
pub(crate) fn push_tiled_block(tiled: &mut Vec<SharedDocumentPropertyBlock>, block: SharedDocumentPropertyBlock)
    requires
        old(tiled)@.len() > 0 ==> block.start_breath == block_end(old(tiled)@.last()),
        block_end(block) <= u32::MAX,
    ensures
        old(tiled)@.len() > 0 && old(tiled)@.last().is_blank && block.is_blank ==> final(tiled)@
            == old(tiled)@.update(
            old(tiled)@.len() - 1,
            SharedDocumentPropertyBlock {
                length_breaths: (old(tiled)@.last().length_breaths + block.length_breaths) as u32,
                ..old(tiled)@.last()
            },
        ),
        !(old(tiled)@.len() > 0 && old(tiled)@.last().is_blank && block.is_blank) ==> final(tiled)@
            == old(tiled)@.push(block),
{
    let n = tiled.len();
    if n > 0 && tiled[n - 1].is_blank && block.is_blank {
        let mut last = tiled.pop().unwrap();
        last.length_breaths = last.length_breaths + block.length_breaths;
        tiled.push(last);
        return;
    }
    tiled.push(block);
}


/// The number in a `block-<n>` id, as `str::parse::<u32>` reads the suffix.
pub open spec fn block_number(id: Seq<char>) -> Option<u32> {
    if id.len() >= 6 && id.subrange(0, 6) == "block-"@ {
        parse_u32_spec(id.subrange(6, id.len() as int))
    } else {
        None
    }
}

/// Whether some block's id is `block-<n>`.
pub open spec fn number_used(s: Seq<SharedDocumentPropertyBlock>, n: int) -> bool {
    exists|k: int| 0 <= k < s.len() && #[trigger] block_number(s[k].id@) is Some && block_number(s[k].id@)->0 == n
}

/// `id` is `block-<n>` for the least `n >= 1` that no block of `s` uses.
pub open spec fn is_next_block_id(s: Seq<SharedDocumentPropertyBlock>, id: Seq<char>) -> bool {
    exists|n: int| {
        &&& 1 <= n
        &&& id == "block-"@ + decimal(n as nat)
        &&& !number_used(s, n)
        &&& forall|m: int| 1 <= m < n ==> #[trigger] number_used(s, m)
    }
}

/// The next free id depends on the block ids alone.
pub proof fn lemma_next_id_same_ids(a: Seq<SharedDocumentPropertyBlock>, b: Seq<SharedDocumentPropertyBlock>, id: Seq<char>)
    requires
        a.len() == b.len(),
        forall|k: int| 0 <= k < a.len() ==> (#[trigger] a[k]).id@ == b[k].id@,
        is_next_block_id(a, id),
    ensures
        is_next_block_id(b, id),
{
    assert forall|n: int| number_used(a, n) <==> number_used(b, n) by {
        if number_used(a, n) {
            let k = choose|k: int| 0 <= k < a.len() && #[trigger] block_number(a[k].id@) is Some && block_number(a[k].id@)->0 == n;
            assert(block_number(b[k].id@) == block_number(a[k].id@));
        }
        if number_used(b, n) {
            let k = choose|k: int| 0 <= k < b.len() && #[trigger] block_number(b[k].id@) is Some && block_number(b[k].id@)->0 == n;
            assert(block_number(b[k].id@) == block_number(a[k].id@));
        }
    }
    let n = choose|n: int| {
        &&& 1 <= n
        &&& id == "block-"@ + decimal(n as nat)
        &&& !number_used(a, n)
        &&& forall|m: int| 1 <= m < n ==> #[trigger] number_used(a, m)
    };
    assert forall|m: int| 1 <= m < n implies #[trigger] number_used(b, m) by {
        assert(number_used(a, m));
    }
}

pub(crate) fn block_number_of(id: &String) -> (r: Option<u32>)
    ensures
        r == block_number(id@),
{
    proof {
        reveal_strlit("block-");
    }
    let s = id.as_str();
    if starts_with(s, "block-") {
        let n = s.unicode_len();
        let rest = s.substring_char(6, n);
        parse_u32(rest)
    } else {
        None
    }
}

pub(crate) fn contains_u64(v: &Vec<u64>, x: u64) -> (r: bool)
    ensures
        r == v@.contains(x),
{
    let mut i: usize = 0;
    while i < v.len()
        invariant
            i <= v.len(),
            forall|j: int| 0 <= j < i ==> v@[j] != x,
        decreases v.len() - i,
    {
        if v[i] == x {
            assert(v@[i as int] == x);
            return true;
        }
        i = i + 1;
    }
    false
}

/// The first free `block-<n>` id of a track.
pub(crate) fn next_property_block_id(blocks: &Vec<SharedDocumentPropertyBlock>) -> (id: String)
    ensures
        is_next_block_id(blocks@, id@),
        exists|n: nat| 1 <= n <= blocks@.len() + 1 && id@ == "block-"@ + decimal(n) && !number_used(blocks@, n as int),
{
    let mut nums: Vec<u64> = Vec::new();
    let mut i: usize = 0;
    while i < blocks.len()
        invariant
            i <= blocks.len(),
            nums@.len() == i,
            forall|k: int| 0 <= k < i ==> #[trigger] nums@[k] == (match block_number(blocks@[k].id@) {
                Some(n) => n as u64,
                None => 0u64,
            }),
        decreases blocks.len() - i,
    {
        let n = block_number_of(&blocks[i].id);
        match n {
            Some(v) => nums.push(v as u64),
            None => nums.push(0),
        }
        i = i + 1;
    }
    let ghost numset = nums@.map_values(|v: u64| v as int).to_set();
    proof {
        nums@.map_values(|v: u64| v as int).lemma_cardinality_of_set();
    }
    let mut next: u64 = 1;
    while contains_u64(&nums, next)
        invariant
            1 <= next <= nums@.len() + 1,
            nums@.len() == blocks@.len(),
            numset == nums@.map_values(|v: u64| v as int).to_set(),
            numset.len() <= nums@.len(),
            forall|k: int| 0 <= k < blocks@.len() ==> #[trigger] nums@[k] == (match block_number(blocks@[k].id@) {
                Some(n) => n as u64,
                None => 0u64,
            }),
            forall|m: int| 1 <= m < next ==> #[trigger] number_used(blocks@, m),
        decreases nums@.len() + 1 - next,
    {
        proof {
            let k = choose|k: int| 0 <= k < nums@.len() && nums@[k] == next;
            assert(block_number(blocks@[k].id@) is Some && block_number(blocks@[k].id@)->0 == next);
            assert(number_used(blocks@, next as int));
            // Pigeonhole: 1..=next are all used numbers.
            assert forall|m: int| #[trigger] set_int_range(1, next + 1).contains(m) implies numset.contains(m) by {
                if m < next {
                    assert(number_used(blocks@, m));
                }
                if m == next {
                    assert(nums@.map_values(|v: u64| v as int)[k] == m);
                } else {
                    let j2 = choose|j2: int| 0 <= j2 < blocks@.len() && #[trigger] block_number(blocks@[j2].id@) is Some && block_number(blocks@[j2].id@)->0 == m;
                    assert(nums@[j2] == m);
                    assert(nums@.map_values(|v: u64| v as int)[j2] == m);
                }
            }
            lemma_int_range(1, next + 1);
            lemma_len_subset(set_int_range(1, next + 1), numset);
        }
        next = next + 1;
    }
    proof {
        if number_used(blocks@, next as int) {
            let k = choose|k: int| 0 <= k < blocks@.len() && #[trigger] block_number(blocks@[k].id@) is Some && block_number(blocks@[k].id@)->0 == next;
            assert(nums@[k] == next);
        }
    }
    let mut id = String::from_str("block-");
    push_decimal(&mut id, next);
    proof {
        reveal_strlit("block-");
        assert(1 <= next as nat <= blocks@.len() + 1 && id@ == "block-"@ + decimal(next as nat) && !number_used(blocks@, next as int));
    }
    id
}


/// Whether some string of `v` holds the characters `id`.
pub open spec fn has_id(v: Seq<String>, id: Seq<char>) -> bool {
    exists|i: int| 0 <= i < v.len() && (#[trigger] v[i])@ == id
}

/// `k` copies of `'x'`.
pub open spec fn xs(k: nat) -> Seq<char> {
    Seq::new(k, |i: int| 'x')
}

/// The longest string length in `v`.
pub open spec fn max_len(v: Seq<String>) -> nat
    decreases v.len(),
{
    if v.len() == 0 {
        0
    } else {
        let rest = max_len(v.drop_last());
        if v.last()@.len() > rest { v.last()@.len() } else { rest }
    }
}

pub(crate) proof fn lemma_max_len(v: Seq<String>)
    ensures
        forall|i: int| 0 <= i < v.len() ==> (#[trigger] v[i])@.len() <= max_len(v),
    decreases v.len(),
{
    if v.len() > 0 {
        lemma_max_len(v.drop_last());
        assert forall|i: int| 0 <= i < v.len() implies (#[trigger] v[i])@.len() <= max_len(v) by {
            if i < v.len() - 1 {
                assert(v[i] == v.drop_last()[i]);
            }
        }
    }
}

pub(crate) fn contains_id(v: &Vec<String>, id: &String) -> (r: bool)
    ensures
        r == has_id(v@, id@),
{
    let mut i: usize = 0;
    while i < v.len()
        invariant
            i <= v.len(),
            forall|j: int| 0 <= j < i ==> (#[trigger] v@[j])@ != id@,
        decreases v.len() - i,
    {
        if v[i] == *id {
            return true;
        }
        i = i + 1;
    }
    false
}

/// A block id fresh against `used`: the track's next `block-<n>` id, with
/// `x` appended until no used id holds it. The id joins `used`.
pub(crate) fn next_free_block_id(used: &mut Vec<String>, tiled: &Vec<SharedDocumentPropertyBlock>) -> (id: String)
    ensures
        !has_id(old(used)@, id@),
        final(used)@ == old(used)@.push(id),
        exists|base: Seq<char>, k: nat| {
            &&& is_next_block_id(tiled@, base)
            &&& id@ == base + xs(k)
            &&& forall|j: nat| j < k ==> has_id(old(used)@, #[trigger] (base + xs(j)))
        },
{
    let mut id = next_property_block_id(tiled);
    let ghost base = id@;
    let ghost mut k: nat = 0;
    proof {
        lemma_max_len(used@);
        assert(base + xs(0) =~= base);
    }
    while contains_id(used, &id)
        invariant
            id@ == base + xs(k),
            forall|j: nat| j < k ==> has_id(used@, #[trigger] (base + xs(j))),
            forall|i: int| 0 <= i < used@.len() ==> (#[trigger] used@[i])@.len() <= max_len(used@),
        decreases max_len(used@) + 1 - id@.len(),
    {
        proof {
            let i = choose|i: int| 0 <= i < used@.len() && (#[trigger] used@[i])@ == id@;
            assert(id@.len() <= max_len(used@));
        }
        push_char(&mut id, 'x');
        proof {
            assert(base + xs(k + 1) =~= (base + xs(k)).push('x'));
            k = k + 1;
        }
    }
    let r = id.clone();
    used.push(id);
    r
}


/// The block with its interpretation data removed.
pub open spec fn cleared(b: SharedDocumentPropertyBlock) -> SharedDocumentPropertyBlock {
    SharedDocumentPropertyBlock {
        interpretation: None,
        ease_out_percent: None,
        ease_in_percent: None,
        ..b
    }
}

/// Whether `enforce_loop_mode_edges` strips block `i` of a track of `len` blocks.
pub open spec fn stripped_at(b: SharedDocumentPropertyBlock, i: int, len: int) -> bool {
    let stranded = match block_mode(b) {
        InterpMode::LoopOut => !(b.is_blank && i == len - 1),
        InterpMode::LoopIn => !(b.is_blank && i == 0),
        _ => false,
    };
    stranded || !b.is_blank
}

/// Loop modes survive only on the edge blanks (`loop_out` on the last,
/// `loop_in` on the first); any other stranded loop mode, and any
/// interpretation data on a solid block, is cleared.
pub(crate) fn enforce_loop_mode_edges(blocks: &mut Vec<SharedDocumentPropertyBlock>)
    ensures
        final(blocks)@.len() == old(blocks)@.len(),
        forall|i: int| 0 <= i < old(blocks)@.len() ==> #[trigger] final(blocks)@[i] == (if stripped_at(old(blocks)@[i], i, old(blocks)@.len() as int) {
            cleared(old(blocks)@[i])
        } else {
            old(blocks)@[i]
        }),
        edge_modes(final(blocks)@),
        solids_clean(final(blocks)@),
{
    let n = blocks.len();
    let last_index = if n == 0 { 0 } else { n - 1 };
    let ghost orig = blocks@;
    let mut i: usize = 0;
    while i < n
        invariant
            n == orig.len(),
            blocks@.len() == n,
            last_index == if n == 0 { 0 } else { n - 1 },
            i <= n,
            forall|j: int| 0 <= j < i ==> #[trigger] blocks@[j] == (if stripped_at(orig[j], j, n as int) { cleared(orig[j]) } else { orig[j] }),
            forall|j: int| i <= j < n ==> #[trigger] blocks@[j] == orig[j],
        decreases n - i,
    {
        let mode = resolve_stored_mode(&blocks[i].interpretation);
        let blank = blocks[i].is_blank;
        let stranded = match mode {
            InterpMode::LoopOut => !(blank && i == last_index),
            InterpMode::LoopIn => !(blank && i == 0),
            _ => false,
        };
        if stranded || !blank {
            let mut b = blocks.remove(i);
            b.interpretation = None;
            b.ease_out_percent = None;
            b.ease_in_percent = None;
            blocks.insert(i, b);
        }
        i = i + 1;
    }
    proof {
        assert forall|j: int| 0 <= j < blocks@.len() implies {
            &&& (block_mode(#[trigger] blocks@[j]) == InterpMode::LoopOut ==> j == blocks@.len() - 1 && blocks@[j].is_blank)
            &&& (block_mode(blocks@[j]) == InterpMode::LoopIn ==> j == 0 && blocks@[j].is_blank)
        } by {
            lemma_mode_name_round_trip(InterpMode::Interpolate);
        }
    }
}

/// In a contiguous track of non-empty blocks the starts strictly increase.
pub proof fn lemma_contiguous_increasing(s: Seq<SharedDocumentPropertyBlock>)
    requires
        is_contiguous(s),
        lengths_positive(s),
    ensures
        forall|i: int, j: int| 0 <= i < j < s.len() ==> #[trigger] s[i].start_breath < #[trigger] s[j].start_breath,
        forall|i: int, j: int| 0 <= i < j < s.len() ==> block_end(s[i]) <= s[j].start_breath,
    decreases s.len(),
{
    if s.len() > 1 {
        let t = s.drop_last();
        assert forall|i: int| 0 < i < t.len() implies #[trigger] t[i].start_breath == block_end(t[i - 1]) by {
            assert(t[i] == s[i]);
            assert(t[i - 1] == s[i - 1]);
        }
        assert forall|i: int| 0 <= i < t.len() implies #[trigger] t[i].length_breaths >= 1 by {
            assert(t[i] == s[i]);
        }
        lemma_contiguous_increasing(t);
        assert forall|i: int, j: int| 0 <= i < j < s.len() implies block_end(s[i]) <= s[j].start_breath by {
            if j < s.len() - 1 {
                assert(t[i] == s[i] && t[j] == s[j]);
            } else {
                if i < j - 1 {
                    assert(t[i] == s[i] && t[j - 1] == s[j - 1]);
                }
                assert(s[j].start_breath == block_end(s[j - 1]));
            }
        }
    }
}


/// The index of the first block with this id.
pub open spec fn first_block(s: Seq<SharedDocumentPropertyBlock>, id: Seq<char>) -> Option<int> {
    if exists|i: int| 0 <= i < s.len() && (#[trigger] s[i]).id@ == id {
        Some(choose|i: int| 0 <= i < s.len() && (#[trigger] s[i]).id@ == id && forall|k: int| 0 <= k < i ==> s[k].id@ != id)
    } else {
        None
    }
}

/// The index of the first block with this id.
pub fn find_block(blocks: &Vec<SharedDocumentPropertyBlock>, id: &str) -> (r: Option<usize>)
    ensures
        r is Some <==> first_block(blocks@, id@) is Some,
        r is Some ==> first_block(blocks@, id@) == Some(r->0 as int) && r->0 < blocks@.len() && blocks@[r->0 as int].id@ == id@,
{
    let mut i: usize = 0;
    while i < blocks.len()
        invariant
            i <= blocks@.len(),
            forall|k: int| 0 <= k < i ==> (#[trigger] blocks@[k]).id@ != id@,
        decreases blocks@.len() - i,
    {
        if str_eq(blocks[i].id.as_str(), id) {
            proof {
                let j = first_block(blocks@, id@)->0;
                assert(blocks@[i as int].id@ == id@);
                if j < i {
                    assert(blocks@[j].id@ != id@);
                } else if j > i {
                    assert(blocks@[i as int].id@ != id@);
                }
            }
            return Some(i);
        }
        i = i + 1;
    }
    None
}

/// Whenever some block has the id, the first one is well defined.
pub proof fn lemma_first_block_some(s: Seq<SharedDocumentPropertyBlock>, id: Seq<char>, i: int)
    requires
        0 <= i < s.len(),
        s[i].id@ == id,
    ensures
        first_block(s, id) is Some,
        0 <= first_block(s, id)->0 < s.len(),
        s[first_block(s, id)->0].id@ == id,
        forall|k: int| 0 <= k < first_block(s, id)->0 ==> s[k].id@ != id,
    decreases i,
{
    if exists|k: int| 0 <= k < i && s[k].id@ == id {
        let k = choose|k: int| 0 <= k < i && s[k].id@ == id;
        lemma_first_block_some(s, id, k);
    } else {
        assert(forall|k: int| 0 <= k < i ==> s[k].id@ != id);
    }
}

/// A `block-<n>` id reads back as `n`.
pub proof fn lemma_block_number_of_decimal(n: nat)
    requires
        n <= u32::MAX,
    ensures
        block_number("block-"@ + decimal(n)) == Some(n as u32),
{
    reveal_strlit("block-");
    let id = "block-"@ + decimal(n);
    lemma_decimal_parses(n);
    assert(id.subrange(0, 6) =~= "block-"@);
    assert(id.subrange(6, id.len() as int) =~= decimal(n));
    lemma_parse_decimal(n);
}

/// The next block id of a track is held by none of its blocks.
pub proof fn lemma_next_id_fresh(s: Seq<SharedDocumentPropertyBlock>, id: Seq<char>)
    requires
        exists|n: nat| 1 <= n <= s.len() + 1 && id == "block-"@ + decimal(n) && !number_used(s, n as int),
        s.len() < u32::MAX,
    ensures
        forall|k: int| 0 <= k < s.len() ==> (#[trigger] s[k]).id@ != id,
{
    let n = choose|n: nat| 1 <= n <= s.len() + 1 && id == "block-"@ + decimal(n) && !number_used(s, n as int);
    lemma_block_number_of_decimal(n);
    assert forall|k: int| 0 <= k < s.len() implies (#[trigger] s[k]).id@ != id by {
        if s[k].id@ == id {
            assert(block_number(s[k].id@) is Some && block_number(s[k].id@)->0 == n);
            assert(number_used(s, n as int));
        }
    }
}

} // verus!
