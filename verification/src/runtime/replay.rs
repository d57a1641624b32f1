//! Laws of replay: replaying the same records onto the same document always
//! rebuilds the same layers, canvases and undo history, so a session built
//! by applying records to a runtime fresh from a document is what a replay
//! of that document with the session's log gives back.
//! Block ids are compared by their text: a re-tile may make a new trailing
//! blank, and two runs make equal ids as different strings.

use vstd::prelude::*;
use super::{
    SharedDocumentRuntime, first_layer, first_track, track_blocks, lemma_first_layer, lemma_first_track,
    legacy_target, patch_target, painted, covered, covered_opt, unblanked, unblank_result, replays, raster_block_key,
    layer_raster_block, layer_retiled, cells_or_empty,
};
use crate::document::{SharedDocumentFile, LayerView, TrackView, layers_view, with_blocks};
use crate::json::JsonValue;
use crate::records::{RecordView, ActionView};
use crate::canvas::{CellPoint, PaintedCell};
use crate::track::{
    SharedDocumentPropertyBlock, block_end, is_binary_tiling, span_end_spec, first_block, is_contiguous,
    no_adjacent_blanks, lengths_positive, ids_distinct, stripped_at, cleared, is_next_block_id, xs, lemma_next_id_same_ids,
    plain_blank, number_used, block_number, lemma_first_block_some,
};
use crate::layers_panel::{first_where, lemma_first_where, lemma_first_where_none};
use super::queries::{active_block_spec, covers};
use crate::retile::{
    retiled_from, shaped, retile_settled, settled, tail_block_ok, free_block_id, taken,
};

verus! {

/// A block with its id as text.
pub type BlockKey = (Seq<char>, u32, u32, bool, Option<JsonValue>, Option<String>, Option<u8>, Option<u8>);

/// A block with its id taken as text.
pub open spec fn block_key(b: SharedDocumentPropertyBlock) -> BlockKey {
    (b.id@, b.start_breath, b.length_breaths, b.is_blank, b.value, b.interpretation, b.ease_out_percent, b.ease_in_percent)
}

/// A track's blocks with their ids taken as text.
pub open spec fn blocks_key(s: Seq<SharedDocumentPropertyBlock>) -> Seq<BlockKey> {
    s.map_values(|b: SharedDocumentPropertyBlock| block_key(b))
}

/// A layer with its blocks' ids taken as text.
pub open spec fn layer_key(l: LayerView) -> (Seq<char>, Seq<char>, bool, bool, u32, u32, Seq<(Seq<char>, Seq<BlockKey>)>) {
    (l.layer_id, l.name, l.visible, l.locked, l.start_breath, l.length_breaths,
        l.tracks.map_values(|t: TrackView| (t.property_id, blocks_key(t.blocks))))
}

/// Layers with their blocks' ids taken as text.
pub open spec fn layers_key(ls: Seq<LayerView>) -> Seq<(Seq<char>, Seq<char>, bool, bool, u32, u32, Seq<(Seq<char>, Seq<BlockKey>)>)> {
    ls.map_values(|l: LayerView| layer_key(l))
}

/// The blocks are a binary tiling from the layer's start up to at least
/// the layer's end.
pub open spec fn track_settled(l: LayerView, bs: Seq<SharedDocumentPropertyBlock>) -> bool {
    &&& l.start_breath < u32::MAX
    &&& is_binary_tiling(bs)
    &&& bs[0].start_breath == l.start_breath
    &&& block_end(bs.last()) >= span_end_spec(l.start_breath, l.length_breaths)
}

/// Every track is a binary tiling from its layer's start up to at least
/// its layer's end, as every re-tile leaves it.
pub open spec fn tracks_settled(layers: Seq<LayerView>) -> bool {
    forall|li: int, ti: int| 0 <= li < layers.len() && 0 <= ti < layers[li].tracks.len() ==>
        #[trigger] track_settled(layers[li], layers[li].tracks[ti].blocks)
}

/// Two runtimes agree on what a replay rebuilds: the layers (block ids as
/// text), the canvases, every layer's undo and redo stacks, and where each
/// applied action landed.
pub open spec fn same_replay_state(x: SharedDocumentRuntime, y: SharedDocumentRuntime) -> bool {
    &&& layers_key(x.layers_spec()) == layers_key(y.layers_spec())
    &&& x.canvases() == y.canvases()
    &&& same_stacks(x, y)
    &&& x.applied_patches() == y.applied_patches()
}

/// Every layer's undo and redo stacks agree.
pub open spec fn same_stacks(x: SharedDocumentRuntime, y: SharedDocumentRuntime) -> bool {
    forall|l: Seq<char>| #![trigger x.applied(l)] #![trigger x.undone(l)] x.applied(l) == y.applied(l) && x.undone(l) == y.undone(l)
}

proof fn probe_trivial(a: Seq<LayerView>, id: Seq<char>)
    ensures
        a.len() >= 0,
{
}

proof fn probe_first(a: Seq<LayerView>, id: Seq<char>)
    requires
        first_layer(a, id) is Some,
    ensures
        a.len() > 0,
{
}

proof fn lemma_blocks_key(a: Seq<SharedDocumentPropertyBlock>, b: Seq<SharedDocumentPropertyBlock>)
    requires
        blocks_key(a) == blocks_key(b),
    ensures
        a.len() == b.len(),
        forall|i: int| 0 <= i < a.len() ==> {
            &&& (#[trigger] a[i]).id@ == b[i].id@
            &&& a[i].start_breath == b[i].start_breath
            &&& a[i].length_breaths == b[i].length_breaths
            &&& a[i].is_blank == b[i].is_blank
            &&& a[i].value == b[i].value
            &&& a[i].interpretation == b[i].interpretation
            &&& a[i].ease_out_percent == b[i].ease_out_percent
            &&& a[i].ease_in_percent == b[i].ease_in_percent
        },
{
    assert(blocks_key(a).len() == a.len());
    assert forall|i: int| 0 <= i < a.len() implies {
        &&& (#[trigger] a[i]).id@ == b[i].id@
        &&& a[i].start_breath == b[i].start_breath
        &&& a[i].length_breaths == b[i].length_breaths
        &&& a[i].is_blank == b[i].is_blank
        &&& a[i].value == b[i].value
        &&& a[i].interpretation == b[i].interpretation
        &&& a[i].ease_out_percent == b[i].ease_out_percent
        &&& a[i].ease_in_percent == b[i].ease_in_percent
    } by {
        assert(blocks_key(a)[i] == blocks_key(b)[i]);
    }
}

proof fn lemma_blocks_key_from(a: Seq<SharedDocumentPropertyBlock>, b: Seq<SharedDocumentPropertyBlock>)
    requires
        a.len() == b.len(),
        forall|i: int| 0 <= i < a.len() ==> #[trigger] block_key(a[i]) == block_key(b[i]),
    ensures
        blocks_key(a) == blocks_key(b),
{
    assert(blocks_key(a) =~= blocks_key(b));
}

proof fn lemma_layers_key(a: Seq<LayerView>, b: Seq<LayerView>)
    requires
        layers_key(a) == layers_key(b),
    ensures
        a.len() == b.len(),
        forall|li: int| 0 <= li < a.len() ==> {
            &&& (#[trigger] a[li]).layer_id == b[li].layer_id
            &&& a[li].name == b[li].name
            &&& a[li].visible == b[li].visible
            &&& a[li].locked == b[li].locked
            &&& a[li].start_breath == b[li].start_breath
            &&& a[li].length_breaths == b[li].length_breaths
            &&& a[li].tracks.len() == b[li].tracks.len()
        },
        forall|li: int, ti: int| 0 <= li < a.len() && 0 <= ti < a[li].tracks.len() ==> {
            &&& (#[trigger] a[li].tracks[ti]).property_id == b[li].tracks[ti].property_id
            &&& blocks_key(a[li].tracks[ti].blocks) == blocks_key(b[li].tracks[ti].blocks)
        },
{
    assert(layers_key(a).len() == a.len());
    assert forall|li: int| 0 <= li < a.len() implies {
        &&& (#[trigger] a[li]).layer_id == b[li].layer_id
        &&& a[li].name == b[li].name
        &&& a[li].visible == b[li].visible
        &&& a[li].locked == b[li].locked
        &&& a[li].start_breath == b[li].start_breath
        &&& a[li].length_breaths == b[li].length_breaths
        &&& a[li].tracks.len() == b[li].tracks.len()
    } by {
        assert(layers_key(a)[li] == layers_key(b)[li]);
        assert(layer_key(a[li]).6.len() == a[li].tracks.len());
    }
    assert forall|li: int, ti: int| 0 <= li < a.len() && 0 <= ti < a[li].tracks.len() implies {
        &&& (#[trigger] a[li].tracks[ti]).property_id == b[li].tracks[ti].property_id
        &&& blocks_key(a[li].tracks[ti].blocks) == blocks_key(b[li].tracks[ti].blocks)
    } by {
        assert(layers_key(a)[li] == layers_key(b)[li]);
        assert(layer_key(a[li]).6[ti] == layer_key(b[li]).6[ti]);
    }
}

proof fn lemma_layers_key_from(a: Seq<LayerView>, b: Seq<LayerView>)
    requires
        a.len() == b.len(),
        forall|li: int| 0 <= li < a.len() ==> {
            &&& (#[trigger] a[li]).layer_id == b[li].layer_id
            &&& a[li].name == b[li].name
            &&& a[li].visible == b[li].visible
            &&& a[li].locked == b[li].locked
            &&& a[li].start_breath == b[li].start_breath
            &&& a[li].length_breaths == b[li].length_breaths
            &&& a[li].tracks.len() == b[li].tracks.len()
        },
        forall|li: int, ti: int| 0 <= li < a.len() && 0 <= ti < a[li].tracks.len() ==> {
            &&& (#[trigger] a[li].tracks[ti]).property_id == b[li].tracks[ti].property_id
            &&& blocks_key(a[li].tracks[ti].blocks) == blocks_key(b[li].tracks[ti].blocks)
        },
    ensures
        layers_key(a) == layers_key(b),
{
    assert forall|li: int| 0 <= li < a.len() implies #[trigger] layer_key(a[li]) == layer_key(b[li]) by {
        assert(layer_key(a[li]).6 =~= layer_key(b[li]).6) by {
            assert forall|ti: int| 0 <= ti < a[li].tracks.len() implies #[trigger] layer_key(a[li]).6[ti] == layer_key(b[li]).6[ti] by {
                assert(a[li].tracks[ti].property_id == b[li].tracks[ti].property_id);
            }
        }
    }
    assert(layers_key(a) =~= layers_key(b));
}

proof fn lemma_least_layer(a: Seq<LayerView>, id: Seq<char>, i: int)
    requires
        0 <= i < a.len(),
        a[i].layer_id == id,
    ensures
        exists|j: int| 0 <= j < a.len() && (#[trigger] a[j]).layer_id == id && forall|k: int| 0 <= k < j ==> a[k].layer_id != id,
    decreases i,
{
    if exists|k: int| 0 <= k < i && (#[trigger] a[k]).layer_id == id {
        let k = choose|k: int| 0 <= k < i && (#[trigger] a[k]).layer_id == id;
        lemma_least_layer(a, id, k);
    } else {
        assert(forall|k: int| 0 <= k < i ==> a[k].layer_id != id);
    }
}

proof fn lemma_first_layer_some(a: Seq<LayerView>, id: Seq<char>)
    requires
        first_layer(a, id) is Some,
    ensures
        0 <= first_layer(a, id)->0 < a.len(),
        a[first_layer(a, id)->0].layer_id == id,
        forall|k: int| 0 <= k < first_layer(a, id)->0 ==> a[k].layer_id != id,
{
    let i = choose|i: int| 0 <= i < a.len() && (#[trigger] a[i]).layer_id == id;
    lemma_least_layer(a, id, i);
}

proof fn lemma_least_track(a: Seq<TrackView>, id: Seq<char>, i: int)
    requires
        0 <= i < a.len(),
        a[i].property_id == id,
    ensures
        exists|j: int| 0 <= j < a.len() && (#[trigger] a[j]).property_id == id && forall|k: int| 0 <= k < j ==> a[k].property_id != id,
    decreases i,
{
    if exists|k: int| 0 <= k < i && (#[trigger] a[k]).property_id == id {
        let k = choose|k: int| 0 <= k < i && (#[trigger] a[k]).property_id == id;
        lemma_least_track(a, id, k);
    } else {
        assert(forall|k: int| 0 <= k < i ==> a[k].property_id != id);
    }
}

proof fn lemma_first_track_some(a: Seq<TrackView>, id: Seq<char>)
    requires
        first_track(a, id) is Some,
    ensures
        0 <= first_track(a, id)->0 < a.len(),
        a[first_track(a, id)->0].property_id == id,
        forall|k: int| 0 <= k < first_track(a, id)->0 ==> a[k].property_id != id,
{
    let i = choose|i: int| 0 <= i < a.len() && (#[trigger] a[i]).property_id == id;
    lemma_least_track(a, id, i);
}

proof fn lemma_first_layer_eq(a: Seq<LayerView>, b: Seq<LayerView>, id: Seq<char>)
    requires
        a.len() == b.len(),
        forall|li: int| 0 <= li < a.len() ==> #[trigger] a[li].layer_id == b[li].layer_id,
    ensures
        first_layer(a, id) == first_layer(b, id),
{
    if first_layer(a, id) is Some {
        lemma_first_layer_some(a, id);
        let i = first_layer(a, id)->0;
        assert(b[i].layer_id == a[i].layer_id);
        assert forall|k: int| 0 <= k < i implies b[k].layer_id != id by {
            assert(a[k].layer_id == b[k].layer_id);
        }
        lemma_first_layer(b, id, i);
    } else if first_layer(b, id) is Some {
        lemma_first_layer_some(b, id);
        let j = first_layer(b, id)->0;
        assert(a[j].layer_id == b[j].layer_id);
        assert forall|k: int| 0 <= k < j implies a[k].layer_id != id by {
            assert(a[k].layer_id == b[k].layer_id);
        }
        lemma_first_layer(a, id, j);
    }
}

proof fn lemma_first_track_eq(a: Seq<TrackView>, b: Seq<TrackView>, id: Seq<char>)
    requires
        a.len() == b.len(),
        forall|ti: int| 0 <= ti < a.len() ==> #[trigger] a[ti].property_id == b[ti].property_id,
    ensures
        first_track(a, id) == first_track(b, id),
{
    if first_track(a, id) is Some {
        lemma_first_track_some(a, id);
        let i = first_track(a, id)->0;
        assert(b[i].property_id == a[i].property_id);
        assert forall|k: int| 0 <= k < i implies b[k].property_id != id by {
            assert(a[k].property_id == b[k].property_id);
        }
        lemma_first_track(b, id, i);
    } else if first_track(b, id) is Some {
        lemma_first_track_some(b, id);
        let j = first_track(b, id)->0;
        assert(a[j].property_id == b[j].property_id);
        assert forall|k: int| 0 <= k < j implies a[k].property_id != id by {
            assert(a[k].property_id == b[k].property_id);
        }
        lemma_first_track(a, id, j);
    }
}

proof fn lemma_first_block_eq(a: Seq<SharedDocumentPropertyBlock>, b: Seq<SharedDocumentPropertyBlock>, id: Seq<char>)
    requires
        blocks_key(a) == blocks_key(b),
    ensures
        first_block(a, id) == first_block(b, id),
{
    lemma_blocks_key(a, b);
    if exists|i: int| 0 <= i < a.len() && (#[trigger] a[i]).id@ == id {
        let w = choose|i: int| 0 <= i < a.len() && (#[trigger] a[i]).id@ == id;
        lemma_first_block_some(a, id, w);
        let i = first_block(a, id)->0;
        assert(b[i].id@ == id);
        lemma_first_block_some(b, id, i);
        let j = first_block(b, id)->0;
        if j < i {
            assert(a[j].id@ == b[j].id@);
        } else if i < j {
            assert(b[i].id@ == id);
        }
    } else if exists|i: int| 0 <= i < b.len() && (#[trigger] b[i]).id@ == id {
        let w = choose|i: int| 0 <= i < b.len() && (#[trigger] b[i]).id@ == id;
        assert(a[w].id@ == id);
    }
}

/// Layer lookups see block ids only as text.
proof fn lemma_track_blocks_eq(a: Seq<LayerView>, b: Seq<LayerView>, l: Seq<char>, p: Seq<char>)
    requires
        layers_key(a) == layers_key(b),
    ensures
        track_blocks(a, l, p) is Some <==> track_blocks(b, l, p) is Some,
        track_blocks(a, l, p) is Some ==> blocks_key(track_blocks(a, l, p)->0) == blocks_key(track_blocks(b, l, p)->0),
        first_layer(a, l) == first_layer(b, l),
        first_layer(a, l) is Some ==> first_track(a[first_layer(a, l)->0].tracks, p) == first_track(b[first_layer(a, l)->0].tracks, p),
{
    lemma_layers_key(a, b);
    lemma_first_layer_eq(a, b, l);
    if first_layer(a, l) is Some {
        lemma_first_layer_some(a, l);
        let li = first_layer(a, l)->0;
        lemma_first_track_eq(a[li].tracks, b[li].tracks, p);
        if first_track(a[li].tracks, p) is Some {
            lemma_first_track_some(a[li].tracks, p);
        }
    }
}

proof fn lemma_least_solid(x: Seq<SharedDocumentPropertyBlock>, i: int)
    requires
        0 <= i < x.len(),
        !x[i].is_blank,
    ensures
        exists|j: int| 0 <= j < x.len() && !(#[trigger] x[j]).is_blank && forall|k: int| 0 <= k < j ==> x[k].is_blank,
    decreases i,
{
    if exists|k: int| 0 <= k < i && !(#[trigger] x[k]).is_blank {
        let k = choose|k: int| 0 <= k < i && !(#[trigger] x[k]).is_blank;
        lemma_least_solid(x, k);
    } else {
        assert(forall|k: int| 0 <= k < i ==> x[k].is_blank);
    }
}

proof fn lemma_legacy_target_eq(a: Seq<LayerView>, b: Seq<LayerView>, l: Seq<char>)
    requires
        layers_key(a) == layers_key(b),
    ensures
        legacy_target(a, l) == legacy_target(b, l),
{
    lemma_track_blocks_eq(a, b, l, "raster"@);
    if track_blocks(a, l, "raster"@) is Some {
        let x = track_blocks(a, l, "raster"@)->0;
        let y = track_blocks(b, l, "raster"@)->0;
        lemma_blocks_key(x, y);
        if exists|i: int| 0 <= i < x.len() && !(#[trigger] x[i]).is_blank {
            let w = choose|i: int| 0 <= i < x.len() && !(#[trigger] x[i]).is_blank;
            lemma_least_solid(x, w);
            assert(!y[w].is_blank);
            lemma_least_solid(y, w);
            let i = choose|i: int| 0 <= i < x.len() && !(#[trigger] x[i]).is_blank && forall|k: int| 0 <= k < i ==> x[k].is_blank;
            let j = choose|j: int| 0 <= j < y.len() && !(#[trigger] y[j]).is_blank && forall|k: int| 0 <= k < j ==> y[k].is_blank;
            if j < i {
                assert(!x[j].is_blank);
            } else if i < j {
                assert(!y[i].is_blank);
            }
            assert(x[i].id@ == y[j].id@);
        } else {
            assert(!exists|i: int| 0 <= i < y.len() && !(#[trigger] y[i]).is_blank) by {
                if exists|i: int| 0 <= i < y.len() && !(#[trigger] y[i]).is_blank {
                    let i = choose|i: int| 0 <= i < y.len() && !(#[trigger] y[i]).is_blank;
                    assert(!x[i].is_blank);
                }
            }
            if x.len() > 0 {
                assert(x[0].id@ == y[0].id@);
            }
        }
    }
}

/// Some block of `s` has this id.
pub open spec fn has_block(s: Seq<SharedDocumentPropertyBlock>, x: Seq<char>) -> bool {
    exists|i: int| 0 <= i < s.len() && (#[trigger] s[i]).id@ == x
}

/// Some empty of `s` has this id.
pub open spec fn has_blank(s: Seq<SharedDocumentPropertyBlock>, x: Seq<char>) -> bool {
    exists|i: int| 0 <= i < s.len() && (#[trigger] s[i]).id@ == x && s[i].is_blank
}

proof fn lemma_covered_eq(m: Map<(Seq<char>, Seq<char>), Map<CellPoint, PaintedCell>>, l: Seq<char>, a: Seq<SharedDocumentPropertyBlock>, b: Seq<SharedDocumentPropertyBlock>)
    requires
        blocks_key(a) == blocks_key(b),
    ensures
        covered(m, l, a) == covered(m, l, b),
{
    lemma_blocks_key(a, b);
    assert forall|x: Seq<char>| #![trigger has_block(a, x)] #![trigger has_block(b, x)] has_block(a, x) <==> has_block(b, x) by {
        if has_block(a, x) {
            let i = choose|i: int| 0 <= i < a.len() && (#[trigger] a[i]).id@ == x;
            assert(b[i].id@ == x);
        }
        if has_block(b, x) {
            let i = choose|i: int| 0 <= i < b.len() && (#[trigger] b[i]).id@ == x;
            assert(a[i].id@ == x);
        }
    }
    assert forall|x: Seq<char>| #![trigger has_blank(a, x)] #![trigger has_blank(b, x)] has_blank(a, x) <==> has_blank(b, x) by {
        if has_blank(a, x) {
            let i = choose|i: int| 0 <= i < a.len() && (#[trigger] a[i]).id@ == x && a[i].is_blank;
            assert(b[i].id@ == x && b[i].is_blank);
        }
        if has_blank(b, x) {
            let i = choose|i: int| 0 <= i < b.len() && (#[trigger] b[i]).id@ == x && b[i].is_blank;
            assert(a[i].id@ == x && a[i].is_blank);
        }
    }
    let ca = covered(m, l, a);
    let cb = covered(m, l, b);
    assert forall|k: (Seq<char>, Seq<char>)| #[trigger] ca.contains_key(k) <==> cb.contains_key(k) by {
        assert(has_block(a, k.1) <==> has_block(b, k.1));
    }
    assert forall|k: (Seq<char>, Seq<char>)| #[trigger] ca.contains_key(k) ==> ca[k] == cb[k] by {
        assert(has_blank(a, k.1) <==> has_blank(b, k.1));
    }
    assert(ca =~= cb);
}


proof fn lemma_shaped_key(a: Seq<SharedDocumentPropertyBlock>, b: Seq<SharedDocumentPropertyBlock>, span_start: u32)
    requires
        blocks_key(a) == blocks_key(b),
        shaped(a, span_start),
    ensures
        shaped(b, span_start),
        block_end(a.last()) == block_end(b.last()),
        a.last().is_blank == b.last().is_blank,
        is_binary_tiling(a) ==> is_binary_tiling(b),
{
    lemma_blocks_key(a, b);
    assert(a.last() == a[a.len() - 1] && b.last() == b[b.len() - 1]);
    assert forall|i: int| 0 < i < b.len() implies #[trigger] b[i].start_breath == block_end(b[i - 1]) by {
        assert(a[i].start_breath == block_end(a[i - 1]));
    }
    assert forall|i: int| 0 < i < b.len() implies !(b[i - 1].is_blank && #[trigger] b[i].is_blank) by {
        assert(!(a[i - 1].is_blank && a[i].is_blank));
    }
    assert forall|i: int| 0 <= i < b.len() implies #[trigger] b[i].length_breaths >= 1 by {
        assert(a[i].length_breaths >= 1);
    }
    assert forall|i: int, j: int| 0 <= i < j < b.len() implies #[trigger] b[i].id@ != #[trigger] b[j].id@ by {
        assert(a[i].id@ != a[j].id@);
    }
    if is_binary_tiling(a) {
        assert forall|i: int| 0 <= i < b.len() implies {
            &&& (crate::track::block_mode(#[trigger] b[i]) == crate::interp_mode::InterpMode::LoopOut ==> i == b.len() - 1 && b[i].is_blank)
            &&& (crate::track::block_mode(b[i]) == crate::interp_mode::InterpMode::LoopIn ==> i == 0 && b[i].is_blank)
        } by {
            assert(crate::track::block_mode(a[i]) == crate::track::block_mode(b[i]));
        }
        assert forall|i: int| 0 <= i < b.len() && !(#[trigger] b[i]).is_blank implies {
            &&& b[i].interpretation is None
            &&& b[i].ease_out_percent is None
            &&& b[i].ease_in_percent is None
        } by {
            assert(!a[i].is_blank);
        }
    }
}

proof fn lemma_next_id_unique(s: Seq<SharedDocumentPropertyBlock>, x: Seq<char>, y: Seq<char>)
    requires
        is_next_block_id(s, x),
        is_next_block_id(s, y),
    ensures
        x == y,
{
    let n1 = choose|n: int| {
        &&& 1 <= n
        &&& x == "block-"@ + crate::text::decimal(n as nat)
        &&& !number_used(s, n)
        &&& forall|m: int| 1 <= m < n ==> #[trigger] number_used(s, m)
    };
    let n2 = choose|n: int| {
        &&& 1 <= n
        &&& y == "block-"@ + crate::text::decimal(n as nat)
        &&& !number_used(s, n)
        &&& forall|m: int| 1 <= m < n ==> #[trigger] number_used(s, m)
    };
    if n1 < n2 {
        assert(number_used(s, n1));
    } else if n2 < n1 {
        assert(number_used(s, n2));
    }
}

proof fn lemma_taken_key(a: Seq<SharedDocumentPropertyBlock>, b: Seq<SharedDocumentPropertyBlock>)
    requires
        blocks_key(a) == blocks_key(b),
    ensures
        forall|x: Seq<char>| #[trigger] taken(a, x) <==> taken(b, x),
{
    lemma_blocks_key(a, b);
    assert forall|x: Seq<char>| #[trigger] taken(a, x) <==> taken(b, x) by {
        if taken(a, x) {
            let j = choose|j: int| 0 <= j < a.len() && (#[trigger] a[j]).id@ == x;
            assert(b[j].id@ == x);
        }
        if taken(b, x) {
            let j = choose|j: int| 0 <= j < b.len() && (#[trigger] b[j]).id@ == x;
            assert(a[j].id@ == x);
        }
    }
}

proof fn lemma_free_id_det(a: Seq<SharedDocumentPropertyBlock>, b: Seq<SharedDocumentPropertyBlock>, x: Seq<char>, y: Seq<char>)
    requires
        blocks_key(a) == blocks_key(b),
        free_block_id(a, x),
        free_block_id(b, y),
    ensures
        x == y,
{
    lemma_blocks_key(a, b);
    lemma_taken_key(a, b);
    let (b1, k1) = choose|base: Seq<char>, k: nat| {
        &&& is_next_block_id(a, base)
        &&& x == base + xs(k)
        &&& !taken(a, x)
        &&& forall|j: nat| j < k ==> taken(a, #[trigger] (base + xs(j)))
    };
    let (b2, k2) = choose|base: Seq<char>, k: nat| {
        &&& is_next_block_id(b, base)
        &&& y == base + xs(k)
        &&& !taken(b, y)
        &&& forall|j: nat| j < k ==> taken(b, #[trigger] (base + xs(j)))
    };
    assert forall|i: int| 0 <= i < b.len() implies (#[trigger] b[i]).id@ == a[i].id@ by {}
    lemma_next_id_same_ids(b, a, b2);
    lemma_next_id_unique(a, b1, b2);
    if k1 < k2 {
        assert(taken(b, b2 + xs(k1)));
        assert(taken(a, x));
    } else if k2 < k1 {
        assert(taken(a, b1 + xs(k2)));
        assert(taken(b, y));
    }
}

proof fn lemma_settled_key(a: SharedDocumentPropertyBlock, b: SharedDocumentPropertyBlock, i: int, len: int)
    requires
        block_key(a) == block_key(b),
    ensures
        block_key(settled(a, i, len)) == block_key(settled(b, i, len)),
{
    assert(crate::track::block_mode(a) == crate::track::block_mode(b));
}

/// Re-tiling blocks that already lie end to end gives the same blocks, ids
/// as text, from inputs that are the same with ids as text.
proof fn lemma_retile_det(
    o1: Seq<SharedDocumentPropertyBlock>,
    o2: Seq<SharedDocumentPropertyBlock>,
    i1: Seq<SharedDocumentPropertyBlock>,
    i2: Seq<SharedDocumentPropertyBlock>,
    span_start: u32,
    span_length: u32,
)
    requires
        retiled_from(o1, i1, span_start, span_length),
        retiled_from(o2, i2, span_start, span_length),
        blocks_key(i1) == blocks_key(i2),
        shaped(i1, span_start),
        block_end(i1.last()) >= span_end_spec(span_start, span_length),
    ensures
        blocks_key(o1) == blocks_key(o2),
{
    reveal(retiled_from);
    lemma_shaped_key(i1, i2, span_start);
    lemma_blocks_key(i1, i2);
    let n = i1.len() as int;
    assert(retile_settled(o1, i1, span_start, span_length));
    assert(retile_settled(o2, i2, span_start, span_length));
    if i1.last().is_blank {
        assert forall|k: int| 0 <= k < o1.len() implies #[trigger] block_key(o1[k]) == block_key(o2[k]) by {
            assert(block_key(i1[k]) == block_key(i2[k]));
            lemma_settled_key(i1[k], i2[k], k, n);
        }
    } else {
        lemma_taken_key(i1, i2);
        assert forall|k: int| 0 <= k < o1.len() implies #[trigger] block_key(o1[k]) == block_key(o2[k]) by {
            if k < n {
                assert(block_key(i1[k]) == block_key(i2[k]));
                lemma_settled_key(i1[k], i2[k], k, n + 1);
            } else {
                assert(tail_block_ok(o1[n], i1));
                assert(tail_block_ok(o2[n], i2));
                if taken(i1, "tail"@) {
                    lemma_free_id_det(i1, i2, o1[n].id@, o2[n].id@);
                }
            }
        }
    }
    lemma_blocks_key_from(o1, o2);
}


proof fn lemma_unblanked_shaped(bs: Seq<SharedDocumentPropertyBlock>, tb: Seq<char>, l: LayerView)
    requires
        track_settled(l, bs),
    ensures
        shaped(unblanked(bs, tb), l.start_breath),
        block_end(unblanked(bs, tb).last()) >= span_end_spec(l.start_breath, l.length_breaths),
        unblanked(bs, tb).len() == bs.len(),
{
    let u = unblanked(bs, tb);
    if first_block(bs, tb) is Some {
        let w = choose|i: int| 0 <= i < bs.len() && (#[trigger] bs[i]).id@ == tb;
        lemma_first_block_some(bs, tb, w);
        let i = first_block(bs, tb)->0;
        assert forall|k: int| 0 <= k < u.len() implies {
            &&& (#[trigger] u[k]).id == bs[k].id
            &&& u[k].start_breath == bs[k].start_breath
            &&& u[k].length_breaths == bs[k].length_breaths
            &&& (u[k].is_blank ==> bs[k].is_blank)
        } by {}
        assert(u.last() == u[u.len() - 1]);
        assert(bs.last() == bs[bs.len() - 1]);
        assert forall|k: int| 0 < k < u.len() implies #[trigger] u[k].start_breath == block_end(u[k - 1]) by {
            assert(bs[k].start_breath == block_end(bs[k - 1]));
        }
        assert forall|k: int| 0 < k < u.len() implies !(u[k - 1].is_blank && #[trigger] u[k].is_blank) by {
            assert(!(bs[k - 1].is_blank && bs[k].is_blank));
        }
        assert forall|k: int| 0 <= k < u.len() implies #[trigger] u[k].length_breaths >= 1 by {
            assert(bs[k].length_breaths >= 1);
        }
        assert forall|a: int, b: int| 0 <= a < b < u.len() implies #[trigger] u[a].id@ != #[trigger] u[b].id@ by {
            assert(bs[a].id@ != bs[b].id@);
        }
    }
}

proof fn lemma_unblanked_key(a: Seq<SharedDocumentPropertyBlock>, b: Seq<SharedDocumentPropertyBlock>, tb: Seq<char>)
    requires
        blocks_key(a) == blocks_key(b),
    ensures
        blocks_key(unblanked(a, tb)) == blocks_key(unblanked(b, tb)),
{
    lemma_blocks_key(a, b);
    lemma_first_block_eq(a, b, tb);
    let ua = unblanked(a, tb);
    let ub = unblanked(b, tb);
    if first_block(a, tb) is Some {
        let w = choose|i: int| 0 <= i < a.len() && (#[trigger] a[i]).id@ == tb;
        lemma_first_block_some(a, tb, w);
        let i = first_block(a, tb)->0;
        assert(ua == a.update(i, SharedDocumentPropertyBlock { is_blank: false, ..a[i] }));
        assert(ub == b.update(i, SharedDocumentPropertyBlock { is_blank: false, ..b[i] }));
        assert forall|k: int| 0 <= k < ua.len() implies #[trigger] block_key(ua[k]) == block_key(ub[k]) by {
            assert(block_key(a[k]) == block_key(b[k]));
        }
        lemma_blocks_key_from(ua, ub);
    } else {
        assert(ua == a && ub == b);
    }
}

proof fn lemma_edit_key(
    x1: Seq<LayerView>,
    x2: Seq<LayerView>,
    a1: Seq<LayerView>,
    a2: Seq<LayerView>,
    li: int,
    ti: int,
    out1: Seq<SharedDocumentPropertyBlock>,
    out2: Seq<SharedDocumentPropertyBlock>,
)
    requires
        layers_key(x1) == layers_key(x2),
        0 <= li < x1.len(),
        0 <= ti < x1[li].tracks.len(),
        a1 == x1.update(li, with_blocks(x1[li], ti, out1)),
        a2 == x2.update(li, with_blocks(x2[li], ti, out2)),
        blocks_key(out1) == blocks_key(out2),
    ensures
        layers_key(a1) == layers_key(a2),
{
    lemma_layers_key(x1, x2);
    assert forall|lj: int| 0 <= lj < a1.len() implies {
        &&& (#[trigger] a1[lj]).layer_id == a2[lj].layer_id
        &&& a1[lj].name == a2[lj].name
        &&& a1[lj].visible == a2[lj].visible
        &&& a1[lj].locked == a2[lj].locked
        &&& a1[lj].start_breath == a2[lj].start_breath
        &&& a1[lj].length_breaths == a2[lj].length_breaths
        &&& a1[lj].tracks.len() == a2[lj].tracks.len()
    } by {}
    assert forall|lj: int, tj: int| 0 <= lj < a1.len() && 0 <= tj < a1[lj].tracks.len() implies {
        &&& (#[trigger] a1[lj].tracks[tj]).property_id == a2[lj].tracks[tj].property_id
        &&& blocks_key(a1[lj].tracks[tj].blocks) == blocks_key(a2[lj].tracks[tj].blocks)
    } by {
        if lj != li || tj != ti {
            assert(a1[lj].tracks[tj] == x1[lj].tracks[tj]);
            assert(a2[lj].tracks[tj] == x2[lj].tracks[tj]);
        }
    }
    lemma_layers_key_from(a1, a2);
}

proof fn lemma_edit_settled(x1: Seq<LayerView>, a1: Seq<LayerView>, li: int, ti: int, out1: Seq<SharedDocumentPropertyBlock>)
    requires
        tracks_settled(x1),
        0 <= li < x1.len(),
        0 <= ti < x1[li].tracks.len(),
        a1 == x1.update(li, with_blocks(x1[li], ti, out1)),
        track_settled(x1[li], out1),
    ensures
        tracks_settled(a1),
{
    assert forall|lj: int, tj: int| 0 <= lj < a1.len() && 0 <= tj < a1[lj].tracks.len()
        implies #[trigger] track_settled(a1[lj], a1[lj].tracks[tj].blocks) by {
        if lj != li || tj != ti {
            assert(a1[lj].tracks[tj] == x1[lj].tracks[tj]);
            assert(track_settled(x1[lj], x1[lj].tracks[tj].blocks));
        }
    }
}

proof fn lemma_retile_settles(out: Seq<SharedDocumentPropertyBlock>, input: Seq<SharedDocumentPropertyBlock>, l: LayerView)
    requires
        retiled_from(out, input, l.start_breath, l.length_breaths),
        shaped(input, l.start_breath),
        l.start_breath < u32::MAX,
    ensures
        track_settled(l, out),
{
    reveal(retiled_from);
}

/// Painting into a block of settled layers turns it solid and re-tiles the
/// raster track the same way in every run, and leaves the layers settled.
proof fn lemma_unblank_det(
    x1: Seq<LayerView>,
    x2: Seq<LayerView>,
    a1: Seq<LayerView>,
    a2: Seq<LayerView>,
    l: Seq<char>,
    tb: Seq<char>,
)
    requires
        layers_key(x1) == layers_key(x2),
        tracks_settled(x1),
        unblank_result(x1, a1, l, tb),
        unblank_result(x2, a2, l, tb),
    ensures
        layers_key(a1) == layers_key(a2),
        tracks_settled(a1),
{
    reveal(unblank_result);
    lemma_track_blocks_eq(x1, x2, l, "raster"@);
    if first_layer(x1, l) is Some {
        lemma_first_layer_some(x1, l);
        let li = first_layer(x1, l)->0;
        if first_track(x1[li].tracks, "raster"@) is Some {
            lemma_first_track_some(x1[li].tracks, "raster"@);
            let ti = first_track(x1[li].tracks, "raster"@)->0;
            lemma_layers_key(x1, x2);
            let bs1 = x1[li].tracks[ti].blocks;
            let bs2 = x2[li].tracks[ti].blocks;
            let out1 = a1[li].tracks[ti].blocks;
            let out2 = a2[li].tracks[ti].blocks;
            assert(track_settled(x1[li], bs1));
            lemma_unblanked_shaped(bs1, tb, x1[li]);
            lemma_unblanked_key(bs1, bs2, tb);
            lemma_retile_det(out1, out2, unblanked(bs1, tb), unblanked(bs2, tb), x1[li].start_breath, x1[li].length_breaths);
            lemma_edit_key(x1, x2, a1, a2, li, ti, out1, out2);
            lemma_retile_settles(out1, unblanked(bs1, tb), x1[li]);
            lemma_edit_settled(x1, a1, li, ti, out1);
        }
    }
}


proof fn lemma_canvases_step(
    x1: SharedDocumentRuntime,
    x2: SharedDocumentRuntime,
    a1: SharedDocumentRuntime,
    a2: SharedDocumentRuntime,
    l: Seq<char>,
    tb: Seq<char>,
    patches: Seq<crate::records::SharedCellPatch>,
)
    requires
        x1.canvases() == x2.canvases(),
        layers_key(a1.layers_spec()) == layers_key(a2.layers_spec()),
        a1.canvases() == painted(x1.canvases(), l, tb, track_blocks(a1.layers_spec(), l, "raster"@), patches),
        a2.canvases() == painted(x2.canvases(), l, tb, track_blocks(a2.layers_spec(), l, "raster"@), patches),
    ensures
        a1.canvases() == a2.canvases(),
{
    lemma_track_blocks_eq(a1.layers_spec(), a2.layers_spec(), l, "raster"@);
    if track_blocks(a1.layers_spec(), l, "raster"@) is Some {
        lemma_covered_eq(x1.canvases(), l, track_blocks(a1.layers_spec(), l, "raster"@)->0, track_blocks(a2.layers_spec(), l, "raster"@)->0);
    }
}

proof fn lemma_stacks_step(x1: SharedDocumentRuntime, x2: SharedDocumentRuntime, a1: SharedDocumentRuntime, a2: SharedDocumentRuntime, l: Seq<char>)
    requires
        same_stacks(x1, x2),
        a1.other_stacks_unchanged(&x1, l),
        a2.other_stacks_unchanged(&x2, l),
        a1.applied(l) == a2.applied(l),
        a1.undone(l) == a2.undone(l),
    ensures
        same_stacks(a1, a2),
{
    assert forall|l2: Seq<char>| #[trigger] a1.applied(l2) == a2.applied(l2) && a1.undone(l2) == a2.undone(l2) by {
        if l2 != l {
            assert(x1.applied(l2) == x2.applied(l2));
            assert(a1.applied(l2) == x1.applied(l2) && a1.undone(l2) == x1.undone(l2));
            assert(a2.applied(l2) == x2.applied(l2) && a2.undone(l2) == x2.undone(l2));
        }
    }
}

proof fn lemma_same_stacks_kept(x1: SharedDocumentRuntime, x2: SharedDocumentRuntime, a1: SharedDocumentRuntime, a2: SharedDocumentRuntime)
    requires
        same_stacks(x1, x2),
        a1.stacks_unchanged(&x1),
        a2.stacks_unchanged(&x2),
    ensures
        same_stacks(a1, a2),
{
    assert forall|l2: Seq<char>| #[trigger] a1.applied(l2) == a2.applied(l2) && a1.undone(l2) == a2.undone(l2) by {
        assert(x1.applied(l2) == x2.applied(l2) && x1.undone(l2) == x2.undone(l2));
        assert(a1.applied(l2) == x1.applied(l2) && a1.undone(l2) == x1.undone(l2));
        assert(a2.applied(l2) == x2.applied(l2) && a2.undone(l2) == x2.undone(l2));
    }
}

#[verifier::rlimit(40)]
proof fn lemma_patch_step_det(
    x1: SharedDocumentRuntime,
    x2: SharedDocumentRuntime,
    a1: SharedDocumentRuntime,
    a2: SharedDocumentRuntime,
    rec: RecordView,
    patches: Seq<crate::records::SharedCellPatch>,
    passive: bool,
    reverts: Option<Seq<char>>,
)
    requires
        same_replay_state(x1, x2),
        tracks_settled(x1.layers_spec()),
        a1.patch_set_effect(&x1, rec, patches, passive, reverts),
        a2.patch_set_effect(&x2, rec, patches, passive, reverts),
    ensures
        same_replay_state(a1, a2),
        tracks_settled(a1.layers_spec()),
{
    let l = rec.layer_id;
    lemma_legacy_target_eq(x1.layers_spec(), x2.layers_spec(), l);
    assert(patch_target(x1.layers_spec(), rec) == patch_target(x2.layers_spec(), rec));
    assert(x1.applied(l) == x2.applied(l) && x1.undone(l) == x2.undone(l));
    match patch_target(x1.layers_spec(), rec) {
        None => {
            lemma_same_stacks_kept(x1, x2, a1, a2);
        },
        Some(tb) => {
            lemma_unblank_det(x1.layers_spec(), x2.layers_spec(), a1.layers_spec(), a2.layers_spec(), l, tb);
            lemma_canvases_step(x1, x2, a1, a2, l, tb, patches);
            lemma_stacks_step(x1, x2, a1, a2, l);
        },
    }
}

proof fn lemma_legacy_step_det(x1: SharedDocumentRuntime, x2: SharedDocumentRuntime, a1: SharedDocumentRuntime, a2: SharedDocumentRuntime, l: Seq<char>, undo: bool)
    requires
        same_replay_state(x1, x2),
        tracks_settled(x1.layers_spec()),
        a1.legacy_effect(&x1, l, undo),
        a2.legacy_effect(&x2, l, undo),
    ensures
        same_replay_state(a1, a2),
        tracks_settled(a1.layers_spec()),
{
    assert(x1.applied(l) == x2.applied(l) && x1.undone(l) == x2.undone(l));
    lemma_stacks_step(x1, x2, a1, a2, l);
}

/// One applied record takes runtimes that agree on what a replay rebuilds,
/// with settled layers, to runtimes that agree again, with settled layers.
proof fn lemma_step_det(x1: SharedDocumentRuntime, x2: SharedDocumentRuntime, a1: SharedDocumentRuntime, a2: SharedDocumentRuntime, rec: RecordView)
    requires
        same_replay_state(x1, x2),
        tracks_settled(x1.layers_spec()),
        a1.applied_effect(&x1, rec),
        a2.applied_effect(&x2, rec),
    ensures
        same_replay_state(a1, a2),
        tracks_settled(a1.layers_spec()),
{
    match rec.action {
        ActionView::CellPatchSet { patches, block_id, passive, reverts } => {
            lemma_patch_step_det(x1, x2, a1, a2, rec, patches, passive, reverts);
        },
        ActionView::Undo => {
            lemma_legacy_step_det(x1, x2, a1, a2, rec.layer_id, true);
        },
        ActionView::Redo => {
            lemma_legacy_step_det(x1, x2, a1, a2, rec.layer_id, false);
        },
    }
}

/// Two runtimes fresh from the same document whose tracks are settled
/// agree on what a replay rebuilds, and hold the document's layers.
proof fn lemma_fresh_det(x1: SharedDocumentRuntime, x2: SharedDocumentRuntime, d: SharedDocumentFile)
    requires
        x1.is_fresh(d),
        x2.is_fresh(d),
        tracks_settled(layers_view(d.layers@)),
    ensures
        same_replay_state(x1, x2),
        tracks_settled(x1.layers_spec()),
{
    let dl = layers_view(d.layers@);
    lemma_fresh_layers(x1, d);
    lemma_fresh_layers(x2, d);
    assert forall|k: (Seq<char>, Seq<char>)| #[trigger] x1.canvases().contains_key(k) <==> x2.canvases().contains_key(k) by {
        assert(x1.canvases().contains_key(k) <==> raster_block_key(x1.layers_spec(), k.0, k.1));
        assert(x2.canvases().contains_key(k) <==> raster_block_key(x2.layers_spec(), k.0, k.1));
    }
    assert(x1.canvases() =~= x2.canvases());
    assert forall|l2: Seq<char>| #[trigger] x1.applied(l2) == x2.applied(l2) && x1.undone(l2) == x2.undone(l2) by {
        assert(x1.applied(l2).len() == 0 && x2.applied(l2).len() == 0 && x1.undone(l2).len() == 0 && x2.undone(l2).len() == 0);
        assert(x1.undone(l2).len() == 0 && x2.undone(l2).len() == 0);
        assert(x1.applied(l2) =~= x2.applied(l2));
        assert(x1.undone(l2) =~= x2.undone(l2));
    }
}

proof fn lemma_fresh_layers(x: SharedDocumentRuntime, d: SharedDocumentFile)
    requires
        x.is_fresh(d),
        tracks_settled(layers_view(d.layers@)),
    ensures
        x.layers_spec() == layers_view(d.layers@),
{
    let dl = layers_view(d.layers@);
    let xl = x.layers_spec();
    assert forall|i: int| 0 <= i < xl.len() implies #[trigger] xl[i] == dl[i] by {
        assert(layer_retiled(xl[i], dl[i]));
        assert forall|ti: int| 0 <= ti < xl[i].tracks.len() implies #[trigger] xl[i].tracks[ti] == dl[i].tracks[ti] by {
            assert(track_settled(dl[i], dl[i].tracks[ti].blocks));
            reveal(retiled_from);
        }
        assert(xl[i].tracks =~= dl[i].tracks);
    }
    assert(xl =~= dl);
}

proof fn lemma_trace_det(
    t1: Seq<SharedDocumentRuntime>,
    t2: Seq<SharedDocumentRuntime>,
    d: SharedDocumentFile,
    actions: Seq<RecordView>,
    i: int,
)
    requires
        t1.len() == actions.len() + 1,
        t2.len() == actions.len() + 1,
        t1[0].is_fresh(d),
        t2[0].is_fresh(d),
        forall|k: int| 0 <= k < actions.len() ==> (#[trigger] t1[k + 1]).applied_effect(&t1[k], actions[k]),
        forall|k: int| 0 <= k < actions.len() ==> (#[trigger] t2[k + 1]).applied_effect(&t2[k], actions[k]),
        tracks_settled(layers_view(d.layers@)),
        0 <= i <= actions.len(),
    ensures
        same_replay_state(t1[i], t2[i]),
        tracks_settled(t1[i].layers_spec()),
    decreases i,
{
    if i == 0 {
        lemma_fresh_det(t1[0], t2[0], d);
    } else {
        lemma_trace_det(t1, t2, d, actions, i - 1);
        let k = i - 1;
        assert(t1[k + 1].applied_effect(&t1[k], actions[k]));
        assert(t2[k + 1].applied_effect(&t2[k], actions[k]));
        lemma_step_det(t1[k], t2[k], t1[k + 1], t2[k + 1], actions[k]);
    }
}

/// Replaying the same records onto the same document always rebuilds the
/// same state: the same layers (block ids as text), the same canvases, the
/// same undo and redo stacks and the same record of where each applied
/// action landed. A session that `new` built from a document and that then
/// only applied records (`apply_action_record`) replays that document with
/// its log (`law_apply_extends_replay`), so `replay` of that document and
/// log gives back its canvases and history. The document's tracks must be
/// settled, as every re-tile leaves them (see `lemma_retiled_settled`).
pub proof fn law_replay_rebuilds_the_same_state(
    r1: SharedDocumentRuntime,
    t1: Seq<SharedDocumentRuntime>,
    r2: SharedDocumentRuntime,
    t2: Seq<SharedDocumentRuntime>,
    d: SharedDocumentFile,
    actions: Seq<RecordView>,
)
    requires
        replays(r1, t1, d, actions),
        replays(r2, t2, d, actions),
        tracks_settled(layers_view(d.layers@)),
    ensures
        r1.canvases() == r2.canvases(),
        layers_key(r1.layers_spec()) == layers_key(r2.layers_spec()),
        same_stacks(r1, r2),
        r1.applied_patches() == r2.applied_patches(),
        r1.actions_spec() == r2.actions_spec(),
{
    lemma_trace_det(t1, t2, d, actions, actions.len() as int);
    assert(t1.last() == t1[actions.len() as int]);
    assert(t2.last() == t2[actions.len() as int]);
    lemma_trace_actions(t1, d, actions, actions.len() as int);
    lemma_trace_actions(t2, d, actions, actions.len() as int);
}

/// A runtime fresh from a document is the replay of that document with no
/// records.
pub proof fn law_fresh_runtime_replays_nothing(r: SharedDocumentRuntime, d: SharedDocumentFile)
    requires
        r.is_fresh(d),
    ensures
        replays(r, seq![r], d, Seq::<RecordView>::empty()),
        r.actions_spec() == Seq::<RecordView>::empty(),
{
    assert(r.actions_spec() =~= Seq::<RecordView>::empty());
}

/// Applying one more record to a replay extends it: a runtime that replays
/// a document with some records, once `apply_action_record` has applied one
/// more record (its `ensures` give this law's last three `requires`),
/// replays the document with that record appended, and its log is exactly
/// the records replayed. So every session built by `new` and then only
/// `apply_action_record` is a replay of its document with its own log.
pub proof fn law_apply_extends_replay(
    r0: SharedDocumentRuntime,
    t0: Seq<SharedDocumentRuntime>,
    d: SharedDocumentFile,
    actions: Seq<RecordView>,
    r1: SharedDocumentRuntime,
    rec: RecordView,
)
    requires
        replays(r0, t0, d, actions),
        r1.applied_effect(&r0, rec),
        r1.actions_spec() == r0.actions_spec().push(rec),
        r1.meta_unchanged(&r0),
    ensures
        replays(r1, t0.push(r1), d, actions.push(rec)),
        r1.actions_spec() == actions.push(rec),
{
    let n = actions.len() as int;
    let t = t0.push(r1);
    let a = actions.push(rec);
    assert(t0.last() == t0[n]);
    assert forall|i: int| 0 <= i < a.len() implies {
        &&& (#[trigger] t[i + 1]).applied_effect(&t[i], a[i])
        &&& t[i + 1].actions_spec() == t[i].actions_spec().push(a[i])
        &&& t[i + 1].meta_unchanged(&t[i])
    } by {
        if i < n {
            assert(t[i + 1] == t0[i + 1]);
            assert(t[i] == t0[i]);
            assert(a[i] == actions[i]);
        } else {
            assert(t[i + 1] == r1);
            assert(t[i] == r0);
            assert(a[i] == rec);
        }
    }
    assert(t[0] == t0[0]);
    lemma_trace_actions(t0, d, actions, n);
    assert(actions.take(n) =~= actions);
}

proof fn lemma_least_covering(s: Seq<SharedDocumentPropertyBlock>, breath: u32, i: int) -> (j: int)
    requires
        0 <= i < s.len(),
        covers(breath)(s[i]),
    ensures
        0 <= j <= i,
        covers(breath)(s[j]),
        forall|k: int| 0 <= k < j ==> !covers(breath)(#[trigger] s[k]),
    decreases i,
{
    if exists|k: int| 0 <= k < i && covers(breath)(#[trigger] s[k]) {
        let k = choose|k: int| 0 <= k < i && covers(breath)(#[trigger] s[k]);
        lemma_least_covering(s, breath, k)
    } else {
        i
    }
}

proof fn lemma_active_block_eq(a: Seq<LayerView>, b: Seq<LayerView>, l: Seq<char>, breath: u32)
    requires
        layers_key(a) == layers_key(b),
    ensures
        active_block_spec(a, l, breath) == active_block_spec(b, l, breath),
{
    lemma_track_blocks_eq(a, b, l, "raster"@);
    if track_blocks(a, l, "raster"@) is Some {
        let x = track_blocks(a, l, "raster"@)->0;
        let y = track_blocks(b, l, "raster"@)->0;
        lemma_blocks_key(x, y);
        let p = covers(breath);
        assert forall|i: int| 0 <= i < x.len() implies p(#[trigger] x[i]) == p(y[i]) by {
            assert(x[i].start_breath == y[i].start_breath);
            assert(x[i].length_breaths == y[i].length_breaths);
        }
        if exists|i: int| 0 <= i < x.len() && #[trigger] p(x[i]) {
            let i = choose|i: int| 0 <= i < x.len() && #[trigger] p(x[i]);
            let j = lemma_least_covering(x, breath, i);
            lemma_first_where(x, p, j);
            assert forall|k: int| 0 <= k < j implies !p(#[trigger] y[k]) by {
                assert(!p(x[k]));
            }
            assert(p(y[j])) by {
                assert(p(x[j]));
            }
            lemma_first_where(y, p, j);
            assert(x[j].id@ == y[j].id@);
        } else {
            lemma_first_where_none(x, p);
            assert forall|k: int| 0 <= k < y.len() implies !p(#[trigger] y[k]) by {
                assert(!p(x[k]));
            }
            lemma_first_where_none(y, p);
        }
    }
}

/// Two replays of the same document and records resolve each layer, at
/// each breath, to the same raster block with the same canvas: what
/// `canvas_for_layer` reads is the same in both. The document's tracks must
/// be settled, as for `law_replay_rebuilds_the_same_state`.
pub proof fn law_replays_resolve_the_same_canvas(
    r1: SharedDocumentRuntime,
    t1: Seq<SharedDocumentRuntime>,
    r2: SharedDocumentRuntime,
    t2: Seq<SharedDocumentRuntime>,
    d: SharedDocumentFile,
    actions: Seq<RecordView>,
    layer_id: Seq<char>,
    breath: u32,
)
    requires
        replays(r1, t1, d, actions),
        replays(r2, t2, d, actions),
        tracks_settled(layers_view(d.layers@)),
    ensures
        active_block_spec(r1.layers_spec(), layer_id, breath) == active_block_spec(r2.layers_spec(), layer_id, breath),
        active_block_spec(r1.layers_spec(), layer_id, breath) matches Some(id) ==> {
            &&& r1.canvases().contains_key((layer_id, id)) == r2.canvases().contains_key((layer_id, id))
            &&& r1.canvases().contains_key((layer_id, id)) ==> r1.canvases()[(layer_id, id)] == r2.canvases()[(layer_id, id)]
        },
{
    law_replay_rebuilds_the_same_state(r1, t1, r2, t2, d, actions);
    lemma_active_block_eq(r1.layers_spec(), r2.layers_spec(), layer_id, breath);
}

proof fn lemma_trace_actions(t: Seq<SharedDocumentRuntime>, d: SharedDocumentFile, actions: Seq<RecordView>, i: int)
    requires
        t.len() == actions.len() + 1,
        t[0].is_fresh(d),
        forall|k: int| 0 <= k < actions.len() ==> (#[trigger] t[k + 1]).actions_spec() == t[k].actions_spec().push(actions[k]),
        0 <= i <= actions.len(),
    ensures
        t[i].actions_spec() == actions.take(i),
    decreases i,
{
    if i == 0 {
        assert(t[0].actions_spec() =~= actions.take(0));
    } else {
        lemma_trace_actions(t, d, actions, i - 1);
        let k = i - 1;
        assert(t[k + 1].actions_spec() == t[k].actions_spec().push(actions[k]));
        assert(actions.take(i) =~= actions.take(i - 1).push(actions[i - 1]));
    }
}

/// A track that a re-tile left, from blocks of positive length with
/// distinct ids over a span that starts before the last breath, is settled.
pub proof fn lemma_retiled_settled(out: Seq<SharedDocumentPropertyBlock>, input: Seq<SharedDocumentPropertyBlock>, l: LayerView)
    requires
        retiled_from(out, input, l.start_breath, l.length_breaths),
        lengths_positive(input),
        ids_distinct(input),
        l.start_breath < u32::MAX,
    ensures
        track_settled(l, out),
{
    reveal(retiled_from);
}

} // verus!
