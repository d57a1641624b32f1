//! The shared document runtime: the document plus what replaying its action
//! log builds — one canvas per raster block, per-layer undo and redo stacks,
//! the patches each applied action landed — and every edit the painter makes
//! to layers, property tracks, selection and history.

use vstd::prelude::*;
use crate::canvas::{Canvas, CellPoint, PaintedCell};
use crate::records::{SharedCellPatch, SharedDocumentActionRecord, SharedDocumentAction, RecordView, ActionView, HistoryRevertPatches, PatchDirection, apply_patches, patched, copy_patches, opt_str_view, records_view};
use crate::track::{SharedDocumentPropertyBlock, SharedDocumentPropertyTrack, block_reach, max_reach, lemma_max_reach_le, lemma_max_reach_bounds, is_binary_tiling, span_end_spec, first_block, find_block, lemma_first_block_some, lengths_positive, ids_distinct};
use crate::track_move::{MoveOffset, zero_offset, sum_fits, current_offset, move_keyed, key_move_offset, lemma_move_keyed_keeps, lemma_current_without_values};
use crate::track_ops::{BreathRipple, rippled, apply_ripple, lemma_rippled_keeps, shifts_in_range, ripple_within, ripple_positive, swapped, swap_timings, lemma_swapped_keeps, blanked, set_blank, lemma_blanked_keeps, merged, merge_into, lemma_merged_keeps, split_allowed, split_blocks, split_at, lemma_split_keeps_tiling, cycled_mode, cycle_mode_at, lemma_cycle_mode_keeps_tiling, cycle_ease_at, duplicated, duplicate_at, lemma_duplicated_keeps};
use crate::track_cut::{DestructiveCut, apply_cut, cut_applied, cut_fits, cut_within, cut_positive, lemma_cut_keeps, ids_view};
use crate::retile::{retile, retiled_from};
use crate::document::{
    SharedDocumentFile, SharedDocumentLayer, DocumentWindow, LayerView, TrackView, layers_view, with_blocks,
    take_track_blocks, put_track_blocks, find_layer, find_track, new_layer, default_property_track, is_default_blocks,
};
use crate::store::{
    BlockCanvas, LayerStack, AppliedPatches, AppliedView, canvases_wf, canvas_view, stacks_wf, stack_of, applied_wf,
    applied_view, find_canvas, canvas_entry, set_canvas_at, take_canvas_at, remove_canvas, remove_layer_canvases,
    stack_push, stack_pop, stack_clear, stack_remove_id, find_applied, insert_applied, first_index_of,
};
use crate::text::{owned, str_eq};
use crate::interp_mode::{InterpMode, mode_is_ease_adjustable_spec, next_ease_percent_spec, mode_name_spec};
use crate::track::{block_mode, block_end, is_next_block_id};

mod queries;
mod history;
mod laws;
mod checks;
mod replay;
pub use checks::{layers_within, selection_in_order};
pub use laws::{law_redo_after_undo_restores, law_undo_after_redo_restores};
pub use history::{record_block, baseline_record, baseline_of, key_of, key_lt, in_key_order, entry_key, SnapshotConflict, conflict_message_spec};
pub use queries::{covers, active_block_spec, channel_named, fill_patches, span_text, spans_text, track_shape_spec, propagation_record, propagated_from};

verus! {

/// Every block of every track reaches below the largest breath.
pub open spec fn reach_ok(layers: Seq<LayerView>) -> bool {
    forall|li: int, ti: int, bi: int|
        0 <= li < layers.len() && 0 <= ti < layers[li].tracks.len() && 0 <= bi < layers[li].tracks[ti].blocks.len()
            ==> block_reach(#[trigger] layers[li].tracks[ti].blocks[bi]) < u32::MAX
}

/// Every track of every layer is a binary tiling over a layer span that
/// starts before the largest breath.
#[verifier::opaque]
pub open spec fn tracks_tiled(layers: Seq<LayerView>) -> bool {
    &&& forall|li: int| 0 <= li < layers.len() && (#[trigger] layers[li]).tracks.len() > 0 ==> layers[li].start_breath < u32::MAX
    &&& forall|li: int, ti: int| 0 <= li < layers.len() && 0 <= ti < layers[li].tracks.len()
        ==> #[trigger] is_binary_tiling(layers[li].tracks[ti].blocks)
}

/// `out` is `input` with every track re-tiled over the layer's span.
pub open spec fn layer_retiled(out: LayerView, input: LayerView) -> bool {
    &&& out.layer_id == input.layer_id
    &&& out.name == input.name
    &&& out.visible == input.visible
    &&& out.locked == input.locked
    &&& out.start_breath == input.start_breath
    &&& out.length_breaths == input.length_breaths
    &&& out.tracks.len() == input.tracks.len()
    &&& forall|ti: int| 0 <= ti < out.tracks.len() ==> {
        &&& (#[trigger] out.tracks[ti]).property_id == input.tracks[ti].property_id
        &&& retiled_from(out.tracks[ti].blocks, input.tracks[ti].blocks, input.start_breath, input.length_breaths)
    }
}

/// The index of the first track with this property id.
pub open spec fn first_track(tracks: Seq<TrackView>, property_id: Seq<char>) -> Option<int> {
    if exists|i: int| 0 <= i < tracks.len() && (#[trigger] tracks[i]).property_id == property_id {
        Some(choose|i: int| 0 <= i < tracks.len() && (#[trigger] tracks[i]).property_id == property_id
            && forall|k: int| 0 <= k < i ==> tracks[k].property_id != property_id)
    } else {
        None
    }
}

/// The index of the first layer with this id.
pub open spec fn first_layer(layers: Seq<LayerView>, layer_id: Seq<char>) -> Option<int> {
    if exists|i: int| 0 <= i < layers.len() && (#[trigger] layers[i]).layer_id == layer_id {
        Some(choose|i: int| 0 <= i < layers.len() && (#[trigger] layers[i]).layer_id == layer_id
            && forall|k: int| 0 <= k < i ==> layers[k].layer_id != layer_id)
    } else {
        None
    }
}

pub proof fn lemma_first_layer(layers: Seq<LayerView>, layer_id: Seq<char>, i: int)
    requires
        0 <= i < layers.len(),
        layers[i].layer_id == layer_id,
        forall|k: int| 0 <= k < i ==> layers[k].layer_id != layer_id,
    ensures
        first_layer(layers, layer_id) == Some(i),
{
    let j = first_layer(layers, layer_id)->0;
    assert(layers[i].layer_id == layer_id);
    if j < i {
        assert(layers[j].layer_id != layer_id);
    } else if j > i {
        assert(layers[i].layer_id != layer_id);
    }
}

pub proof fn lemma_first_track(tracks: Seq<TrackView>, property_id: Seq<char>, i: int)
    requires
        0 <= i < tracks.len(),
        tracks[i].property_id == property_id,
        forall|k: int| 0 <= k < i ==> tracks[k].property_id != property_id,
    ensures
        first_track(tracks, property_id) == Some(i),
{
    let j = first_track(tracks, property_id)->0;
    assert(tracks[i].property_id == property_id);
    if j < i {
        assert(tracks[j].property_id != property_id);
    } else if j > i {
        assert(tracks[i].property_id != property_id);
    }
}

/// The blocks of a layer's track, when the layer and the track exist.
pub open spec fn track_blocks(layers: Seq<LayerView>, layer_id: Seq<char>, property_id: Seq<char>) -> Option<Seq<SharedDocumentPropertyBlock>> {
    match first_layer(layers, layer_id) {
        Some(li) => match first_track(layers[li].tracks, property_id) {
            Some(ti) => Some(layers[li].tracks[ti].blocks),
            None => None,
        },
        None => None,
    }
}

/// Whether the layer's raster track holds a block with this id.
pub open spec fn layer_raster_block(l: LayerView, block_id: Seq<char>) -> bool {
    match first_track(l.tracks, "raster"@) {
        Some(ti) => exists|bi: int| 0 <= bi < l.tracks[ti].blocks.len() && (#[trigger] l.tracks[ti].blocks[bi]).id@ == block_id,
        None => false,
    }
}

/// Whether some layer with this id has a raster block with this id.
pub open spec fn raster_block_key(layers: Seq<LayerView>, layer_id: Seq<char>, block_id: Seq<char>) -> bool {
    exists|li: int| 0 <= li < layers.len() && (#[trigger] layers[li]).layer_id == layer_id && layer_raster_block(layers[li], block_id)
}

proof fn lemma_raster_key_prefix(layers: Seq<LayerView>, n: int, k: (Seq<char>, Seq<char>))
    requires
        0 <= n < layers.len(),
    ensures
        raster_block_key(layers.subrange(0, n + 1), k.0, k.1) <==>
            raster_block_key(layers.subrange(0, n), k.0, k.1) || (layers[n].layer_id == k.0 && layer_raster_block(layers[n], k.1)),
{
    let a = layers.subrange(0, n + 1);
    let b = layers.subrange(0, n);
    if raster_block_key(a, k.0, k.1) {
        let i = choose|i: int| 0 <= i < a.len() && (#[trigger] a[i]).layer_id == k.0 && layer_raster_block(a[i], k.1);
        if i < n {
            assert(b[i] == a[i]);
        }
    }
    if raster_block_key(b, k.0, k.1) {
        let i = choose|i: int| 0 <= i < b.len() && (#[trigger] b[i]).layer_id == k.0 && layer_raster_block(b[i], k.1);
        assert(a[i] == b[i]);
    }
    if layers[n].layer_id == k.0 && layer_raster_block(layers[n], k.1) {
        assert(a[n] == layers[n]);
    }
}

proof fn lemma_retiled_reach(input: Seq<LayerView>, out: Seq<LayerView>)
    requires
        out.len() == input.len(),
        forall|i: int| 0 <= i < out.len() ==> layer_retiled(#[trigger] out[i], input[i]),
    ensures
        forall|b: int| b < u32::MAX && #[trigger] reach_within(input, b) ==> reach_within(out, b + 1),
{
    reveal(reach_within);
    reveal(retiled_from);
    assert forall|b: int| b < u32::MAX && #[trigger] reach_within(input, b) implies reach_within(out, b + 1) by {
        assert forall|li: int, ti: int, bi: int|
            0 <= li < out.len() && 0 <= ti < out[li].tracks.len() && 0 <= bi < out[li].tracks[ti].blocks.len()
            implies block_reach(#[trigger] out[li].tracks[ti].blocks[bi]) <= b + 1 by {
            assert(layer_retiled(out[li], input[li]));
            let inb = input[li].tracks[ti].blocks;
            assert forall|k: int| 0 <= k < inb.len() implies block_reach(#[trigger] inb[k]) <= b by {
                assert(block_reach(input[li].tracks[ti].blocks[k]) <= b);
            }
            lemma_max_reach_le(inb, b);
            assert(span_end_spec(input[li].start_breath, input[li].length_breaths) <= b);
            lemma_max_reach_bounds(out[li].tracks[ti].blocks);
        }
        assert forall|li: int| 0 <= li < out.len() implies span_end_spec((#[trigger] out[li]).start_breath, out[li].length_breaths) <= b + 1 by {
            assert(layer_retiled(out[li], input[li]));
            assert(span_end_spec(input[li].start_breath, input[li].length_breaths) <= b);
        }
    }
}

pub struct SharedDocumentRuntime {
    pub document: SharedDocumentFile,
    pub actions: Vec<SharedDocumentActionRecord>,
    /// Painted content per raster block, keyed by layer and block id.
    block_canvases: Vec<BlockCanvas>,
    applied_action_ids_by_layer: Vec<LayerStack>,
    undone_action_ids_by_layer: Vec<LayerStack>,
    patches_by_action_id: Vec<AppliedPatches>,
    /// The revision this runtime loaded and last saved.
    revision: u64,
    /// Passive baseline records covering every action folded out of the log.
    baseline: Vec<SharedDocumentActionRecord>,
    /// How many of the oldest actions the baseline covers.
    squashed_through: usize,
}

/// A record of folded history: passive cell patches by the history-squash user.
pub open spec fn squash_record(rec: RecordView) -> bool {
    &&& rec.user_id == "history-squash"@
    &&& rec.action matches ActionView::CellPatchSet { passive, reverts, .. } && passive && reverts is None
}

/// Every baseline record is a record of folded history.
#[verifier::opaque]
pub open spec fn baseline_squashed(baseline: Seq<SharedDocumentActionRecord>) -> bool {
    forall|j: int| 0 <= j < baseline.len() ==> #[trigger] squash_record(baseline[j]@)
}

impl SharedDocumentRuntime {
    /// The runtime's bookkeeping is consistent.
    pub closed spec fn wf(&self) -> bool {
        &&& canvases_wf(self.block_canvases@)
        &&& stacks_wf(self.applied_action_ids_by_layer@)
        &&& stacks_wf(self.undone_action_ids_by_layer@)
        &&& applied_wf(self.patches_by_action_id@)
        &&& self.squashed_through <= self.actions@.len()
        &&& self.document.selection.wf()
        &&& baseline_squashed(self.baseline@)
    }

    /// The document as it stands.
    pub closed spec fn doc(&self) -> SharedDocumentFile {
        self.document
    }

    pub closed spec fn layers_spec(&self) -> Seq<LayerView> {
        layers_view(self.document.layers@)
    }

    /// The cells of each raster block's canvas, by `(layer id, block id)`.
    pub closed spec fn canvases(&self) -> Map<(Seq<char>, Seq<char>), Map<CellPoint, PaintedCell>> {
        canvas_view(self.block_canvases@)
    }

    /// A layer's applied actions, oldest first.
    pub closed spec fn applied(&self, layer_id: Seq<char>) -> Seq<Seq<char>> {
        stack_of(self.applied_action_ids_by_layer@, layer_id)
    }

    /// A layer's undone actions, oldest first.
    pub closed spec fn undone(&self, layer_id: Seq<char>) -> Seq<Seq<char>> {
        stack_of(self.undone_action_ids_by_layer@, layer_id)
    }

    /// Where each applied action's patches landed.
    pub closed spec fn applied_patches(&self) -> Map<Seq<char>, AppliedView> {
        applied_view(self.patches_by_action_id@)
    }

    pub closed spec fn revision_spec(&self) -> u64 {
        self.revision
    }

    pub closed spec fn baseline_spec(&self) -> Seq<RecordView> {
        self.baseline@.map_values(|r: SharedDocumentActionRecord| r@)
    }

    pub closed spec fn squashed_spec(&self) -> nat {
        self.squashed_through as nat
    }

    pub closed spec fn actions_spec(&self) -> Seq<RecordView> {
        self.actions@.map_values(|r: SharedDocumentActionRecord| r@)
    }

    /// What a runtime fresh from a document is: every property track
    /// re-tiled over its layer's span, an empty canvas for every raster
    /// block, and an empty history.
    pub open spec fn is_fresh(&self, document: SharedDocumentFile) -> bool {
        &&& self.wf()
        &&& self.revision_spec() == document.revision
        &&& self.actions_spec().len() == 0
        &&& self.baseline_spec().len() == 0
        &&& self.squashed_spec() == 0
        &&& self.doc().document_id == document.document_id
        &&& self.doc().title == document.title
        &&& self.doc().file_kind == document.file_kind
        &&& self.doc().schema_version == document.schema_version
        &&& self.doc().revision == document.revision
        &&& self.doc().selection == document.selection
        &&& self.doc().document_window == document.document_window
        &&& self.layers_spec().len() == layers_view(document.layers@).len()
        &&& forall|i: int| 0 <= i < self.layers_spec().len() ==> layer_retiled(#[trigger] self.layers_spec()[i], layers_view(document.layers@)[i])
        &&& forall|l: Seq<char>| #![trigger self.applied(l)] #![trigger self.undone(l)] self.applied(l).len() == 0 && self.undone(l).len() == 0
        &&& self.applied_patches() == Map::<Seq<char>, AppliedView>::empty()
        &&& forall|k: (Seq<char>, Seq<char>)| #[trigger] self.canvases().contains_key(k) <==> raster_block_key(self.layers_spec(), k.0, k.1)
        &&& forall|k: (Seq<char>, Seq<char>)| #[trigger] self.canvases().contains_key(k) ==> self.canvases()[k] == Map::<CellPoint, PaintedCell>::empty()
    }

    /// A runtime for a document: every property track is re-tiled over its
    /// layer's span, every raster block gets an empty canvas, and the
    /// history is empty.
    pub fn new(document: SharedDocumentFile) -> (r: SharedDocumentRuntime)
        requires
            reach_ok(layers_view(document.layers@)),
            document.selection.wf(),
        ensures
            r.is_fresh(document),
            forall|b: int| b < u32::MAX && #[trigger] reach_within(layers_view(document.layers@), b) ==> reach_within(r.layers_spec(), b + 1),
    {
        let SharedDocumentFile { file_kind, schema_version, document_id, revision, title, layers, selection, document_window } = document;
        let mut layers = layers;
        let ghost input = layers_view(layers@);
        let n = layers.len();
        let mut li: usize = 0;
        while li < n
            invariant
                n == layers@.len(),
                n == input.len(),
                li <= n,
                reach_ok(input),
                layers_view(layers@).len() == n,
                forall|i: int| 0 <= i < li ==> layer_retiled(#[trigger] layers_view(layers@)[i], input[i]),
                forall|i: int| li <= i < n ==> #[trigger] layers_view(layers@)[i] == input[i],
            decreases n - li,
        {
            let m = layers[li].property_tracks.len();
            let start = layers[li].start_breath;
            let length = layers[li].length_breaths;
            let ghost before_layer = layers_view(layers@)[li as int];
            let mut ti: usize = 0;
            while ti < m
                invariant
                    n == layers@.len(),
                    n == input.len(),
                    li < n,
                    reach_ok(input),
                    before_layer == input[li as int],
                    start == input[li as int].start_breath,
                    length == input[li as int].length_breaths,
                    m == input[li as int].tracks.len(),
                    ti <= m,
                    layers_view(layers@).len() == n,
                    layers@[li as int].property_tracks@.len() == m,
                    forall|i: int| 0 <= i < li ==> layer_retiled(#[trigger] layers_view(layers@)[i], input[i]),
                    forall|i: int| li < i < n ==> #[trigger] layers_view(layers@)[i] == input[i],
                    ({
                        let cur = layers_view(layers@)[li as int];
                        &&& cur.layer_id == before_layer.layer_id
                        &&& cur.name == before_layer.name
                        &&& cur.visible == before_layer.visible
                        &&& cur.locked == before_layer.locked
                        &&& cur.start_breath == before_layer.start_breath
                        &&& cur.length_breaths == before_layer.length_breaths
                        &&& cur.tracks.len() == m
                        &&& forall|t: int| 0 <= t < ti ==> {
                            &&& (#[trigger] cur.tracks[t]).property_id == before_layer.tracks[t].property_id
                            &&& retiled_from(cur.tracks[t].blocks, before_layer.tracks[t].blocks, start, length)
                        }
                        &&& forall|t: int| ti <= t < m ==> #[trigger] cur.tracks[t] == before_layer.tracks[t]
                    }),
                decreases m - ti,
            {
                let ghost lv = layers_view(layers@);
                let blocks = take_track_blocks(&mut layers, li, ti);
                proof {
                    assert(lv[li as int].tracks[ti as int] == input[li as int].tracks[ti as int]);
                    assert(blocks@ == input[li as int].tracks[ti as int].blocks);
                    assert forall|bi: int| 0 <= bi < blocks@.len() implies block_reach(#[trigger] blocks@[bi]) < u32::MAX by {
                        assert(block_reach(input[li as int].tracks[ti as int].blocks[bi]) < u32::MAX);
                    }
                    lemma_max_reach_le(blocks@, u32::MAX - 1);
                }
                let out = retile(blocks, start, length);
                put_track_blocks(&mut layers, li, ti, out);
                proof {
                    let cur = layers_view(layers@)[li as int];
                    assert forall|t: int| 0 <= t < ti + 1 implies {
                        &&& (#[trigger] cur.tracks[t]).property_id == before_layer.tracks[t].property_id
                        &&& retiled_from(cur.tracks[t].blocks, before_layer.tracks[t].blocks, start, length)
                    } by {
                        if t < ti {
                            assert(cur.tracks[t] == lv[li as int].tracks[t]);
                        }
                    }
                    assert forall|i: int| 0 <= i < li implies layer_retiled(#[trigger] layers_view(layers@)[i], input[i]) by {
                        assert(layers_view(layers@)[i] == lv[i]);
                    }
                    assert forall|i: int| li < i < n implies #[trigger] layers_view(layers@)[i] == input[i] by {
                        assert(layers_view(layers@)[i] == lv[i]);
                    }
                }
                ti = ti + 1;
            }
            proof {
                let cur = layers_view(layers@)[li as int];
                assert(layer_retiled(cur, input[li as int]));
            }
            li = li + 1;
        }
        let ghost tiled = layers_view(layers@);
        // Every raster block gets an empty canvas.
        let mut block_canvases: Vec<BlockCanvas> = Vec::new();
        let mut li: usize = 0;
        while li < n
            invariant
                n == layers@.len(),
                tiled == layers_view(layers@),
                li <= n,
                canvases_wf(block_canvases@),
                forall|k: (Seq<char>, Seq<char>)| #[trigger] canvas_view(block_canvases@).contains_key(k) ==> canvas_view(block_canvases@)[k] == Map::<CellPoint, PaintedCell>::empty(),
                forall|k: (Seq<char>, Seq<char>)| #[trigger] canvas_view(block_canvases@).contains_key(k) <==> raster_block_key(tiled.subrange(0, li as int), k.0, k.1),
            decreases n - li,
        {
            let layer = &layers[li];
            let ghost lv = tiled[li as int];
            let ghost before = canvas_view(block_canvases@);
            proof {
                reveal_strlit("raster");
                assert(lv == layer@);
            }
            match find_track(&layer.property_tracks, "raster") {
                Some(ti) => {
                    proof {
                        assert forall|k: int| 0 <= k < ti implies lv.tracks[k].property_id != "raster"@ by {
                            assert(lv.tracks[k] == layer.property_tracks@[k]@);
                        }
                        lemma_first_track(lv.tracks, "raster"@, ti as int);
                    }
                    let blocks = &layer.property_tracks[ti].blocks;
                    let mut bi: usize = 0;
                    while bi < blocks.len()
                        invariant
                            canvases_wf(block_canvases@),
                            bi <= blocks@.len(),
                            blocks@ == lv.tracks[ti as int].blocks,
                            layer.layer_id@ == lv.layer_id,
                            forall|k: (Seq<char>, Seq<char>)| #[trigger] canvas_view(block_canvases@).contains_key(k) ==> canvas_view(block_canvases@)[k] == Map::<CellPoint, PaintedCell>::empty(),
                            forall|k: (Seq<char>, Seq<char>)| #[trigger] canvas_view(block_canvases@).contains_key(k) <==>
                                before.contains_key(k) || (k.0 == lv.layer_id && exists|b: int| 0 <= b < bi && (#[trigger] blocks@[b]).id@ == k.1),
                        decreases blocks@.len() - bi,
                    {
                        let _ = canvas_entry(&mut block_canvases, layer.layer_id.as_str(), blocks[bi].id.as_str());
                        proof {
                            assert forall|k: (Seq<char>, Seq<char>)| #[trigger] canvas_view(block_canvases@).contains_key(k) <==>
                                before.contains_key(k) || (k.0 == lv.layer_id && exists|b: int| 0 <= b < bi + 1 && (#[trigger] blocks@[b]).id@ == k.1) by {
                                if k.0 == lv.layer_id && k.1 == blocks@[bi as int].id@ {
                                    assert(blocks@[bi as int].id@ == k.1);
                                }
                            }
                        }
                        bi = bi + 1;
                    }
                    proof {
                        assert forall|k: (Seq<char>, Seq<char>)| #[trigger] canvas_view(block_canvases@).contains_key(k) <==> raster_block_key(tiled.subrange(0, li + 1), k.0, k.1) by {
                            lemma_raster_key_prefix(tiled, li as int, k);
                        }
                    }
                },
                None => {
                    proof {
                        assert(first_track(lv.tracks, "raster"@) is None) by {
                            assert forall|t: int| 0 <= t < lv.tracks.len() implies (#[trigger] lv.tracks[t]).property_id != "raster"@ by {
                                assert(lv.tracks[t] == layer.property_tracks@[t]@);
                            }
                        }
                        assert forall|k: (Seq<char>, Seq<char>)| #[trigger] canvas_view(block_canvases@).contains_key(k) <==> raster_block_key(tiled.subrange(0, li + 1), k.0, k.1) by {
                            lemma_raster_key_prefix(tiled, li as int, k);
                        }
                    }
                },
            }
            li = li + 1;
        }
        proof {
            assert(tiled.subrange(0, n as int) =~= tiled);
        }
        let document = SharedDocumentFile { file_kind, schema_version, document_id, revision, title, layers, selection, document_window };
        let r = SharedDocumentRuntime {
            revision,
            document,
            actions: Vec::new(),
            block_canvases,
            applied_action_ids_by_layer: Vec::new(),
            undone_action_ids_by_layer: Vec::new(),
            patches_by_action_id: Vec::new(),
            baseline: Vec::new(),
            squashed_through: 0,
        };
        proof {
            assert(r.applied_patches() =~= Map::<Seq<char>, AppliedView>::empty());
            assert(r.baseline_spec() =~= Seq::<RecordView>::empty());
            assert(r.actions_spec() =~= Seq::<RecordView>::empty());
            lemma_retiled_reach(input, r.layers_spec());
            reveal(baseline_squashed);
        }
        r
    }
}

/// A layer view with new flags or name.
pub open spec fn layer_with(l: LayerView, name: Seq<char>, visible: bool, locked: bool) -> LayerView {
    LayerView { name, visible, locked, ..l }
}

/// Replaces one layer's name and flags.
fn set_layer_fields(layers: &mut Vec<SharedDocumentLayer>, li: usize, name: String, visible: bool, locked: bool)
    requires
        li < old(layers)@.len(),
    ensures
        layers_view(final(layers)@) == layers_view(old(layers)@).update(li as int, layer_with(layers_view(old(layers)@)[li as int], name@, visible, locked)),
{
    let ghost before = layers@;
    let mut layer = layers.remove(li);
    layer.name = name;
    layer.visible = visible;
    layer.locked = locked;
    layers.insert(li, layer);
    proof {
        assert(layers_view(layers@) =~= layers_view(before).update(li as int, layer_with(layers_view(before)[li as int], name@, visible, locked)));
    }
}

/// The layers without those with this id, in order.
pub open spec fn without_layer(layers: Seq<LayerView>, layer_id: Seq<char>) -> Seq<LayerView> {
    layers.filter(|l: LayerView| l.layer_id != layer_id)
}

fn retain_other_layers(layers: Vec<SharedDocumentLayer>, layer_id: &str) -> (out: Vec<SharedDocumentLayer>)
    ensures
        layers_view(out@) == without_layer(layers_view(layers@), layer_id@),
{
    let ghost before = layers@;
    let ghost n = before.len();
    let mut layers = layers;
    let mut out: Vec<SharedDocumentLayer> = Vec::new();
    let ghost mut i: int = 0;
    while layers.len() > 0
        invariant
            0 <= i <= n,
            n == before.len(),
            layers@ == before.subrange(i, n as int),
            layers_view(out@) == without_layer(layers_view(before.subrange(0, i)), layer_id@),
        decreases layers@.len(),
    {
        let l = layers.remove(0);
        proof {
            assert(l == before[i]);
            let pre = layers_view(before.subrange(0, i + 1));
            assert(pre.drop_last() =~= layers_view(before.subrange(0, i)));
            assert(pre.last() == l@);
            assert(pre =~= layers_view(before.subrange(0, i)).push(l@));
            layers_view(before.subrange(0, i)).lemma_filter_push(l@, |x: LayerView| x.layer_id != layer_id@);
            assert(without_layer(pre, layer_id@) == if l@.layer_id != layer_id@ {
                without_layer(pre.drop_last(), layer_id@).push(l@)
            } else {
                without_layer(pre.drop_last(), layer_id@)
            });
        }
        if !str_eq(l.layer_id.as_str(), layer_id) {
            let ghost ov = layers_view(out@);
            out.push(l);
            proof {
                assert(layers_view(out@) =~= ov.push(l@));
            }
        }
        proof {
            i = i + 1;
            assert(layers@ =~= before.subrange(i, n as int));
        }
    }
    proof {
        assert(before.subrange(0, n as int) =~= before);
    }
    out
}

impl SharedDocumentRuntime {
    /// The bookkeeping besides the document and the canvases is unchanged.
    pub closed spec fn history_unchanged(&self, before: &SharedDocumentRuntime) -> bool {
        &&& self.actions == before.actions
        &&& self.applied_action_ids_by_layer == before.applied_action_ids_by_layer
        &&& self.undone_action_ids_by_layer == before.undone_action_ids_by_layer
        &&& self.patches_by_action_id == before.patches_by_action_id
        &&& self.revision == before.revision
        &&& self.baseline == before.baseline
        &&& self.squashed_through == before.squashed_through
    }

    /// What an unchanged history means for the public views: the log, the
    /// undo and redo stacks, the applied patches, the revision, the baseline
    /// and the fold point all stay.
    pub proof fn lemma_history_unchanged(&self, before: &SharedDocumentRuntime)
        requires
            self.history_unchanged(before),
        ensures
            self.actions_spec() == before.actions_spec(),
            forall|l: Seq<char>| #[trigger] self.applied(l) == before.applied(l) && self.undone(l) == before.undone(l),
            self.applied_patches() == before.applied_patches(),
            self.revision_spec() == before.revision_spec(),
            self.baseline_spec() == before.baseline_spec(),
            self.squashed_spec() == before.squashed_spec(),
    {
    }

    /// Everything of the document but its layers is unchanged.
    pub open spec fn meta_unchanged(&self, before: &SharedDocumentRuntime) -> bool {
        &&& self.doc().file_kind == before.doc().file_kind
        &&& self.doc().schema_version == before.doc().schema_version
        &&& self.doc().document_id == before.doc().document_id
        &&& self.doc().revision == before.doc().revision
        &&& self.doc().title == before.doc().title
        &&& self.doc().selection == before.doc().selection
        &&& self.doc().document_window == before.doc().document_window
    }

    /// How many records the session's log holds.
    pub fn actions_len(&self) -> (n: usize)
        ensures
            n == self.actions_spec().len(),
    {
        self.actions.len()
    }

    /// The revision this runtime loaded and last saved.
    pub fn revision(&self) -> (r: u64)
        ensures
            r == self.revision_spec(),
    {
        self.revision
    }

    /// One raster block's canvas.
    pub fn block_canvas(&self, layer_id: &str, block_id: &str) -> (r: Option<&Canvas>)
        requires
            self.wf(),
        ensures
            r is Some <==> self.canvases().contains_key((layer_id@, block_id@)),
            r is Some ==> r->0.wf() && r->0.cells() == self.canvases()[(layer_id@, block_id@)],
    {
        match find_canvas(&self.block_canvases, layer_id, block_id) {
            Some(i) => Some(&self.block_canvases[i].canvas),
            None => None,
        }
    }

    /// The document's layers.
    pub fn layers(&self) -> (r: &Vec<SharedDocumentLayer>)
        ensures
            layers_view(r@) == self.layers_spec(),
    {
        &self.document.layers
    }

    /// A layer's track for a property, if both exist.
    pub fn property_track(&self, layer_id: &str, property_id: &str) -> (r: Option<&SharedDocumentPropertyTrack>)
        ensures
            match r {
                Some(t) => track_blocks(self.layers_spec(), layer_id@, property_id@) == Some(t.blocks@) && t.property_id@ == property_id@,
                None => track_blocks(self.layers_spec(), layer_id@, property_id@) is None,
            },
    {
        let ghost lv = self.layers_spec();
        match find_layer(&self.document.layers, layer_id) {
            Some(li) => {
                proof {
                    assert forall|k: int| 0 <= k < li implies lv[k].layer_id != layer_id@ by {
                        assert(lv[k] == self.document.layers@[k]@);
                    }
                    lemma_first_layer(lv, layer_id@, li as int);
                }
                let layer = &self.document.layers[li];
                match find_track(&layer.property_tracks, property_id) {
                    Some(ti) => {
                        proof {
                            assert forall|k: int| 0 <= k < ti implies lv[li as int].tracks[k].property_id != property_id@ by {
                                assert(lv[li as int].tracks[k] == layer.property_tracks@[k]@);
                            }
                            lemma_first_track(lv[li as int].tracks, property_id@, ti as int);
                        }
                        Some(&layer.property_tracks[ti])
                    },
                    None => {
                        proof {
                            assert forall|k: int| 0 <= k < lv[li as int].tracks.len() implies (#[trigger] lv[li as int].tracks[k]).property_id != property_id@ by {
                                assert(lv[li as int].tracks[k] == layer.property_tracks@[k]@);
                            }
                        }
                        None
                    },
                }
            },
            None => {
                proof {
                    assert forall|k: int| 0 <= k < lv.len() implies (#[trigger] lv[k]).layer_id != layer_id@ by {
                        assert(lv[k] == self.document.layers@[k]@);
                    }
                }
                None
            },
        }
    }

    /// The document's loop window.
    pub fn document_window(&self) -> (w: DocumentWindow)
        ensures
            w == self.doc().document_window,
    {
        self.document.document_window
    }

    /// Reshapes the loop window; the end never drops below the start.
    pub fn set_document_window(&mut self, start_breath: u32, end_breath: u32)
        ensures
            final(self).doc().document_window == (DocumentWindow {
                start_breath,
                end_breath: if end_breath < start_breath { start_breath } else { end_breath },
            }),
            final(self).layers_spec() == old(self).layers_spec(),
            final(self).history_unchanged(&*old(self)),
            final(self).canvases() == old(self).canvases(),
            final(self).wf() == old(self).wf(),
            final(self).doc().file_kind == old(self).doc().file_kind,
            final(self).doc().schema_version == old(self).doc().schema_version,
            final(self).doc().document_id == old(self).doc().document_id,
            final(self).doc().revision == old(self).doc().revision,
            final(self).doc().title == old(self).doc().title,
            final(self).doc().selection == old(self).doc().selection,
            final(self).actions_spec() == old(self).actions_spec(),
            final(self).revision_spec() == old(self).revision_spec(),
            final(self).baseline_spec() == old(self).baseline_spec(),
            final(self).squashed_spec() == old(self).squashed_spec(),
            forall|l: Seq<char>| #[trigger] final(self).applied(l) == old(self).applied(l) && final(self).undone(l) == old(self).undone(l),
            final(self).applied_patches() == old(self).applied_patches(),
    {
        self.document.document_window = DocumentWindow {
            start_breath,
            end_breath: if end_breath < start_breath { start_breath } else { end_breath },
        };
    }

    /// Finds the first layer with this id.
    fn layer_index(&self, layer_id: &str) -> (r: Option<usize>)
        ensures
            r is Some <==> first_layer(self.layers_spec(), layer_id@) is Some,
            r is Some ==> first_layer(self.layers_spec(), layer_id@) == Some(r->0 as int),
            r is Some ==> r->0 < self.document.layers@.len() && self.document.layers@[r->0 as int].layer_id@ == layer_id@,
    {
        let ghost lv = self.layers_spec();
        match find_layer(&self.document.layers, layer_id) {
            Some(li) => {
                proof {
                    assert forall|k: int| 0 <= k < li implies lv[k].layer_id != layer_id@ by {
                        assert(lv[k] == self.document.layers@[k]@);
                    }
                    lemma_first_layer(lv, layer_id@, li as int);
                }
                Some(li)
            },
            None => {
                proof {
                    assert forall|k: int| 0 <= k < lv.len() implies (#[trigger] lv[k]).layer_id != layer_id@ by {
                        assert(lv[k] == self.document.layers@[k]@);
                    }
                }
                None
            },
        }
    }

    /// Renames a layer; `false` if there is no such layer.
    pub fn rename_layer(&mut self, layer_id: &str, name: &str) -> (found: bool)
        ensures
            found == (first_layer(old(self).layers_spec(), layer_id@) is Some),
            found ==> {
                let li = first_layer(old(self).layers_spec(), layer_id@)->0;
                let l = old(self).layers_spec()[li];
                final(self).layers_spec() == old(self).layers_spec().update(li, layer_with(l, name@, l.visible, l.locked))
            },
            !found ==> final(self).layers_spec() == old(self).layers_spec(),
            final(self).meta_unchanged(&*old(self)),
            final(self).history_unchanged(&*old(self)),
            final(self).canvases() == old(self).canvases(),
            final(self).wf() == old(self).wf(),
    {
        match self.layer_index(layer_id) {
            Some(li) => {
                let visible = self.document.layers[li].visible;
                let locked = self.document.layers[li].locked;
                set_layer_fields(&mut self.document.layers, li, owned(name), visible, locked);
                true
            },
            None => false,
        }
    }

    /// Shows or hides a layer; `false` if there is no such layer.
    pub fn set_layer_visible(&mut self, layer_id: &str, visible: bool) -> (found: bool)
        ensures
            found == (first_layer(old(self).layers_spec(), layer_id@) is Some),
            found ==> {
                let li = first_layer(old(self).layers_spec(), layer_id@)->0;
                let l = old(self).layers_spec()[li];
                final(self).layers_spec() == old(self).layers_spec().update(li, layer_with(l, l.name, visible, l.locked))
            },
            !found ==> final(self).layers_spec() == old(self).layers_spec(),
            final(self).meta_unchanged(&*old(self)),
            final(self).history_unchanged(&*old(self)),
            final(self).canvases() == old(self).canvases(),
            final(self).wf() == old(self).wf(),
    {
        match self.layer_index(layer_id) {
            Some(li) => {
                let name = self.document.layers[li].name.clone();
                let locked = self.document.layers[li].locked;
                set_layer_fields(&mut self.document.layers, li, name, visible, locked);
                true
            },
            None => false,
        }
    }

    /// Locks or unlocks a layer; `false` if there is no such layer.
    pub fn set_layer_locked(&mut self, layer_id: &str, locked: bool) -> (found: bool)
        ensures
            found == (first_layer(old(self).layers_spec(), layer_id@) is Some),
            found ==> {
                let li = first_layer(old(self).layers_spec(), layer_id@)->0;
                let l = old(self).layers_spec()[li];
                final(self).layers_spec() == old(self).layers_spec().update(li, layer_with(l, l.name, l.visible, locked))
            },
            !found ==> final(self).layers_spec() == old(self).layers_spec(),
            final(self).meta_unchanged(&*old(self)),
            final(self).history_unchanged(&*old(self)),
            final(self).canvases() == old(self).canvases(),
            final(self).wf() == old(self).wf(),
    {
        match self.layer_index(layer_id) {
            Some(li) => {
                let name = self.document.layers[li].name.clone();
                let visible = self.document.layers[li].visible;
                set_layer_fields(&mut self.document.layers, li, name, visible, locked);
                true
            },
            None => false,
        }
    }

    /// Removes every layer with this id with its canvases and undo stacks;
    /// `false` if there is no such layer. The action log is left in place.
    pub fn remove_layer(&mut self, layer_id: &str) -> (found: bool)
        requires
            old(self).wf(),
        ensures
            final(self).wf(),
            found == (first_layer(old(self).layers_spec(), layer_id@) is Some),
            found ==> final(self).layers_spec() == without_layer(old(self).layers_spec(), layer_id@),
            !found ==> final(self).layers_spec() == old(self).layers_spec(),
            found ==> forall|k: (Seq<char>, Seq<char>)| #[trigger] final(self).canvases().contains_key(k)
                <==> old(self).canvases().contains_key(k) && k.0 != layer_id@,
            found ==> forall|k: (Seq<char>, Seq<char>)| #[trigger] final(self).canvases().contains_key(k)
                ==> final(self).canvases()[k] == old(self).canvases()[k],
            !found ==> final(self).canvases() == old(self).canvases(),
            found ==> final(self).applied(layer_id@).len() == 0 && final(self).undone(layer_id@).len() == 0,
            forall|l: Seq<char>| l != layer_id@ ==> #[trigger] final(self).applied(l) == old(self).applied(l) && final(self).undone(l) == old(self).undone(l),
            !found ==> final(self).applied(layer_id@) == old(self).applied(layer_id@) && final(self).undone(layer_id@) == old(self).undone(layer_id@),
            final(self).applied_patches() == old(self).applied_patches(),
            final(self).actions_spec() == old(self).actions_spec(),
            final(self).meta_unchanged(&*old(self)),
            final(self).revision_spec() == old(self).revision_spec(),
            final(self).baseline_spec() == old(self).baseline_spec(),
            final(self).squashed_spec() == old(self).squashed_spec(),
            !found ==> final(self).history_unchanged(&*old(self)),
    {
        match self.layer_index(layer_id) {
            None => false,
            Some(_) => {
                let mut layers: Vec<SharedDocumentLayer> = Vec::new();
                std::mem::swap(&mut layers, &mut self.document.layers);
                self.document.layers = retain_other_layers(layers, layer_id);
                remove_layer_canvases(&mut self.block_canvases, layer_id);
                stack_clear(&mut self.applied_action_ids_by_layer, layer_id);
                stack_clear(&mut self.undone_action_ids_by_layer, layer_id);
                true
            },
        }
    }

    /// Adds a layer with the default timing and the raster and move tracks,
    /// an empty canvas for its first raster block and empty undo stacks.
    /// A layer with this id already there is left as it is and returned.
    pub fn add_layer(&mut self, layer_id: &str, name: &str) -> (r: Option<&SharedDocumentLayer>)
        requires
            old(self).wf(),
        ensures
            final(self).wf(),
            r is Some,
            r->0.layer_id@ == layer_id@,
            first_layer(old(self).layers_spec(), layer_id@) is Some ==> {
                &&& final(self).layers_spec() == old(self).layers_spec()
                &&& r->0@ == old(self).layers_spec()[first_layer(old(self).layers_spec(), layer_id@)->0]
                &&& final(self).canvases() == old(self).canvases()
                &&& forall|l: Seq<char>| #[trigger] final(self).applied(l) == old(self).applied(l) && final(self).undone(l) == old(self).undone(l)
            },
            first_layer(old(self).layers_spec(), layer_id@) is None ==> {
                &&& final(self).layers_spec() == old(self).layers_spec().push(r->0@)
                &&& r->0.name@ == name@
                &&& r->0.visible && !r->0.locked
                &&& r->0.start_breath == 0
                &&& r->0.length_breaths == crate::document::DEFAULT_LAYER_LENGTH_BREATHS
                &&& r->0.property_tracks@.len() == 2
                &&& r->0.property_tracks@[0].property_id@ == "raster"@
                &&& r->0.property_tracks@[1].property_id@ == "move"@
                &&& is_binary_tiling(r->0.property_tracks@[0].blocks@)
                &&& is_binary_tiling(r->0.property_tracks@[1].blocks@)
                &&& final(self).canvases() == old(self).canvases().insert((layer_id@, "block-1"@), Map::empty())
                &&& final(self).applied(layer_id@).len() == 0 && final(self).undone(layer_id@).len() == 0
                &&& forall|l: Seq<char>| l != layer_id@ ==> #[trigger] final(self).applied(l) == old(self).applied(l) && final(self).undone(l) == old(self).undone(l)
            },
            final(self).applied_patches() == old(self).applied_patches(),
            final(self).actions_spec() == old(self).actions_spec(),
            final(self).meta_unchanged(&*old(self)),
    {
        match self.layer_index(layer_id) {
            Some(li) => {
                proof {
                    assert(self.document.layers@[li as int]@ == self.layers_spec()[li as int]);
                }
                Some(&self.document.layers[li])
            },
            None => {
                let ghost before = self.layers_spec();
                let layer = new_layer(layer_id, name);
                self.document.layers.push(layer);
                proof {
                    assert(self.layers_spec() =~= before.push(self.document.layers@.last()@));
                }
                let i = canvas_entry(&mut self.block_canvases, layer_id, "block-1");
                set_canvas_at(&mut self.block_canvases, i, Canvas::new());
                stack_clear(&mut self.applied_action_ids_by_layer, layer_id);
                stack_clear(&mut self.undone_action_ids_by_layer, layer_id);
                proof {
                    reveal_strlit("block-1");
                    assert(self.canvases() =~= old(self).canvases().insert((layer_id@, "block-1"@), Map::empty()));
                }
                let n = self.document.layers.len();
                Some(&self.document.layers[n - 1])
            },
        }
    }
}

/// Every block reach and every layer span end is at most `bound`.
#[verifier::opaque]
pub open spec fn reach_within(layers: Seq<LayerView>, bound: int) -> bool {
    &&& forall|li: int| 0 <= li < layers.len() ==> span_end_spec((#[trigger] layers[li]).start_breath, layers[li].length_breaths) <= bound
    &&& forall|li: int, ti: int, bi: int|
        0 <= li < layers.len() && 0 <= ti < layers[li].tracks.len() && 0 <= bi < layers[li].tracks[ti].blocks.len()
            ==> block_reach(#[trigger] layers[li].tracks[ti].blocks[bi]) <= bound
}

/// The canvases after making sure every raster block of a layer has one
/// and every blank raster block's canvas is empty.
pub open spec fn covered(
    m: Map<(Seq<char>, Seq<char>), Map<CellPoint, PaintedCell>>,
    layer_id: Seq<char>,
    blocks: Seq<SharedDocumentPropertyBlock>,
) -> Map<(Seq<char>, Seq<char>), Map<CellPoint, PaintedCell>> {
    Map::new(
        |k: (Seq<char>, Seq<char>)| m.contains_key(k) || (k.0 == layer_id && exists|i: int| 0 <= i < blocks.len() && (#[trigger] blocks[i]).id@ == k.1),
        |k: (Seq<char>, Seq<char>)| if k.0 == layer_id && exists|i: int| 0 <= i < blocks.len() && (#[trigger] blocks[i]).id@ == k.1 && blocks[i].is_blank {
            Map::empty()
        } else if m.contains_key(k) {
            m[k]
        } else {
            Map::empty()
        },
    )
}

/// The canvases after coverage of a layer, when its raster track exists.
pub open spec fn covered_opt(
    m: Map<(Seq<char>, Seq<char>), Map<CellPoint, PaintedCell>>,
    layer_id: Seq<char>,
    blocks: Option<Seq<SharedDocumentPropertyBlock>>,
) -> Map<(Seq<char>, Seq<char>), Map<CellPoint, PaintedCell>> {
    match blocks {
        Some(bs) => covered(m, layer_id, bs),
        None => m,
    }
}

/// The blocks with the first block of this id turned solid.
pub open spec fn unblanked(blocks: Seq<SharedDocumentPropertyBlock>, block_id: Seq<char>) -> Seq<SharedDocumentPropertyBlock> {
    match first_block(blocks, block_id) {
        Some(i) => blocks.update(i, SharedDocumentPropertyBlock { is_blank: false, ..blocks[i] }),
        None => blocks,
    }
}

/// The layers after painting into a raster block: the first layer with the
/// id has its raster track's block turned solid and the track re-tiled.
#[verifier::opaque]
pub open spec fn unblank_result(before: Seq<LayerView>, after: Seq<LayerView>, layer_id: Seq<char>, block_id: Seq<char>) -> bool {
    match first_layer(before, layer_id) {
        Some(li) => match first_track(before[li].tracks, "raster"@) {
            Some(ti) => {
                let out = after[li].tracks[ti].blocks;
                &&& after == before.update(li, with_blocks(before[li], ti, out))
                &&& retiled_from(out, unblanked(before[li].tracks[ti].blocks, block_id), before[li].start_breath, before[li].length_breaths)
            },
            None => after == before,
        },
        None => after == before,
    }
}

/// The canvas cells a key holds, or none.
pub open spec fn cells_or_empty(m: Map<(Seq<char>, Seq<char>), Map<CellPoint, PaintedCell>>, k: (Seq<char>, Seq<char>)) -> Map<CellPoint, PaintedCell> {
    if m.contains_key(k) { m[k] } else { Map::empty() }
}

/// The raster block a legacy record (one without a block id) replays into:
/// the layer's first solid raster block, else its first raster block.
pub open spec fn legacy_target(layers: Seq<LayerView>, layer_id: Seq<char>) -> Option<Seq<char>> {
    match track_blocks(layers, layer_id, "raster"@) {
        Some(bs) => if exists|i: int| 0 <= i < bs.len() && !(#[trigger] bs[i]).is_blank {
            Some(bs[choose|i: int| 0 <= i < bs.len() && !(#[trigger] bs[i]).is_blank && forall|k: int| 0 <= k < i ==> bs[k].is_blank].id@)
        } else if bs.len() > 0 {
            Some(bs[0].id@)
        } else {
            None
        },
        None => None,
    }
}

proof fn lemma_reach_update(layers: Seq<LayerView>, li: int, ti: int, out: Seq<SharedDocumentPropertyBlock>, bound: int)
    requires
        reach_within(layers, bound),
        0 <= li < layers.len(),
        0 <= ti < layers[li].tracks.len(),
        max_reach(out) <= bound + 1,
    ensures
        reach_within(layers.update(li, with_blocks(layers[li], ti, out)), bound + 1),
{
    reveal(reach_within);
    let after = layers.update(li, with_blocks(layers[li], ti, out));
    lemma_max_reach_bounds(out);
    assert forall|l: int, t: int, b: int|
        0 <= l < after.len() && 0 <= t < after[l].tracks.len() && 0 <= b < after[l].tracks[t].blocks.len()
        implies block_reach(#[trigger] after[l].tracks[t].blocks[b]) <= bound + 1 by {
        if l == li && t == ti {
            assert(after[l].tracks[t].blocks == out);
        } else {
            assert(after[l].tracks[t] == layers[l].tracks[t]);
            assert(block_reach(layers[l].tracks[t].blocks[b]) <= bound);
        }
    }
    assert forall|l: int| 0 <= l < after.len() implies span_end_spec((#[trigger] after[l]).start_breath, after[l].length_breaths) <= bound + 1 by {
        assert(after[l].start_breath == layers[l].start_breath && after[l].length_breaths == layers[l].length_breaths);
    }
}

proof fn lemma_reach_mono(layers: Seq<LayerView>, a: int, b: int)
    requires
        reach_within(layers, a),
        a <= b,
    ensures
        reach_within(layers, b),
{
    reveal(reach_within);
}

proof fn lemma_covered_step(
    m: Map<(Seq<char>, Seq<char>), Map<CellPoint, PaintedCell>>,
    layer_id: Seq<char>,
    pre: Seq<SharedDocumentPropertyBlock>,
    b: SharedDocumentPropertyBlock,
)
    ensures
        covered(m, layer_id, pre.push(b)) == covered(m, layer_id, pre).insert((layer_id, b.id@),
            if b.is_blank { Map::empty() } else { cells_or_empty(covered(m, layer_id, pre), (layer_id, b.id@)) }),
{
    let post = pre.push(b);
    let before = covered(m, layer_id, pre);
    let target = covered(m, layer_id, post);
    let key = (layer_id, b.id@);
    let after = before.insert(key, if b.is_blank { Map::empty() } else { cells_or_empty(before, key) });
    assert(post[pre.len() as int] == b);
    assert forall|k: (Seq<char>, Seq<char>)| #[trigger] target.contains_key(k) <==> after.contains_key(k) by {
        if k.0 == layer_id && exists|j: int| 0 <= j < pre.len() && (#[trigger] pre[j]).id@ == k.1 {
            let j = choose|j: int| 0 <= j < pre.len() && (#[trigger] pre[j]).id@ == k.1;
            assert(post[j] == pre[j]);
        }
        if k.0 == layer_id && exists|j: int| 0 <= j < post.len() && (#[trigger] post[j]).id@ == k.1 {
            let j = choose|j: int| 0 <= j < post.len() && (#[trigger] post[j]).id@ == k.1;
            if j < pre.len() {
                assert(pre[j] == post[j]);
            }
        }
    }
    assert forall|k: (Seq<char>, Seq<char>)| #[trigger] target.contains_key(k) implies target[k] == after[k] by {
        let pre_blank = k.0 == layer_id && exists|j: int| 0 <= j < pre.len() && (#[trigger] pre[j]).id@ == k.1 && pre[j].is_blank;
        let post_blank = k.0 == layer_id && exists|j: int| 0 <= j < post.len() && (#[trigger] post[j]).id@ == k.1 && post[j].is_blank;
        if pre_blank {
            let j = choose|j: int| 0 <= j < pre.len() && (#[trigger] pre[j]).id@ == k.1 && pre[j].is_blank;
            assert(post[j] == pre[j]);
        }
        if post_blank && !pre_blank {
            let j = choose|j: int| 0 <= j < post.len() && (#[trigger] post[j]).id@ == k.1 && post[j].is_blank;
            if j < pre.len() {
                assert(pre[j] == post[j]);
            }
        }
        if k == key && !b.is_blank && !pre_blank {
            assert(!post_blank) by {
                if post_blank {
                    let j = choose|j: int| 0 <= j < post.len() && (#[trigger] post[j]).id@ == k.1 && post[j].is_blank;
                    if j < pre.len() {
                        assert(pre[j] == post[j]);
                    }
                }
            }
        }
        if k == key && pre_blank {
            assert(before[k] == Map::<CellPoint, PaintedCell>::empty());
        }
    }
    assert(target =~= after);
}

/// Gives every block of a raster track a canvas and empties the canvases of
/// its blank blocks.
fn cover_blocks(v: &mut Vec<BlockCanvas>, layer_id: &str, blocks: &Vec<SharedDocumentPropertyBlock>)
    requires
        canvases_wf(old(v)@),
    ensures
        canvases_wf(final(v)@),
        canvas_view(final(v)@) == covered(canvas_view(old(v)@), layer_id@, blocks@),
{
    let ghost m = canvas_view(v@);
    let ghost bs = blocks@;
    proof {
        assert(covered(m, layer_id@, bs.subrange(0, 0)) =~= m);
    }
    let n = blocks.len();
    let mut bi: usize = 0;
    while bi < n
        invariant
            bs == blocks@,
            n == bs.len(),
            bi <= n,
            canvases_wf(v@),
            canvas_view(v@) == covered(m, layer_id@, bs.subrange(0, bi as int)),
        decreases n - bi,
    {
        let ghost before = canvas_view(v@);
        let blank = blocks[bi].is_blank;
        let i = canvas_entry(v, layer_id, blocks[bi].id.as_str());
        if blank {
            set_canvas_at(v, i, Canvas::new());
        }
        proof {
            let b = bs[bi as int];
            assert(bs.subrange(0, bi + 1) =~= bs.subrange(0, bi as int).push(b));
            lemma_covered_step(m, layer_id@, bs.subrange(0, bi as int), b);
            assert(canvas_view(v@) =~= before.insert((layer_id@, b.id@),
                if b.is_blank { Map::empty() } else { cells_or_empty(before, (layer_id@, b.id@)) }));
        }
        bi = bi + 1;
    }
    proof {
        assert(bs.subrange(0, n as int) =~= bs);
    }
}

impl SharedDocumentRuntime {
    /// Finds the first track with this property id on layer `li`.
    fn track_index(&self, li: usize, property_id: &str) -> (r: Option<usize>)
        requires
            li < self.document.layers@.len(),
        ensures
            r is Some <==> first_track(self.layers_spec()[li as int].tracks, property_id@) is Some,
            r is Some ==> first_track(self.layers_spec()[li as int].tracks, property_id@) == Some(r->0 as int),
            r is Some ==> r->0 < self.document.layers@[li as int].property_tracks@.len(),
    {
        let ghost tv = self.layers_spec()[li as int].tracks;
        let layer = &self.document.layers[li];
        proof {
            assert(tv == layer.property_tracks@.map_values(|t: SharedDocumentPropertyTrack| t@));
        }
        match find_track(&layer.property_tracks, property_id) {
            Some(ti) => {
                proof {
                    assert forall|k: int| 0 <= k < ti implies tv[k].property_id != property_id@ by {
                        assert(tv[k] == layer.property_tracks@[k]@);
                    }
                    lemma_first_track(tv, property_id@, ti as int);
                }
                Some(ti)
            },
            None => {
                proof {
                    assert forall|k: int| 0 <= k < tv.len() implies (#[trigger] tv[k]).property_id != property_id@ by {
                        assert(tv[k] == layer.property_tracks@[k]@);
                    }
                }
                None
            },
        }
    }

    /// Makes sure every raster block of the layer has a canvas and every
    /// blank raster block's canvas is empty.
    fn ensure_block_canvas_coverage(&mut self, layer_id: &str)
        requires
            old(self).wf(),
        ensures
            final(self).wf(),
            final(self).canvases() == covered_opt(old(self).canvases(), layer_id@, track_blocks(old(self).layers_spec(), layer_id@, "raster"@)),
            final(self).document == old(self).document,
            final(self).history_unchanged(&*old(self)),
    {
        proof {
            reveal_strlit("raster");
        }
        let li = match self.layer_index(layer_id) {
            Some(li) => li,
            None => {
                return;
            },
        };
        let ti = match self.track_index(li, "raster") {
            Some(ti) => ti,
            None => {
                return;
            },
        };
        proof {
            assert(self.layers_spec()[li as int].tracks[ti as int].blocks == self.document.layers@[li as int].property_tracks@[ti as int].blocks@);
        }
        cover_blocks(&mut self.block_canvases, layer_id, &self.document.layers[li].property_tracks[ti].blocks);
    }
}

/// The block a patch-set record paints into: its block id, or for a legacy
/// record the layer's legacy target; nothing for an empty patch set.
pub open spec fn patch_target(layers: Seq<LayerView>, rec: RecordView) -> Option<Seq<char>> {
    match rec.action {
        ActionView::CellPatchSet { patches, block_id, passive, reverts } => if patches.len() == 0 {
            None
        } else {
            match block_id {
                Some(b) => Some(b),
                None => legacy_target(layers, rec.layer_id),
            }
        },
        _ => None,
    }
}

/// The canvases after painting patches into one block of a layer whose
/// raster track now reads `raster`.
pub open spec fn painted(
    m: Map<(Seq<char>, Seq<char>), Map<CellPoint, PaintedCell>>,
    layer_id: Seq<char>,
    block_id: Seq<char>,
    raster: Option<Seq<SharedDocumentPropertyBlock>>,
    patches: Seq<SharedCellPatch>,
) -> Map<(Seq<char>, Seq<char>), Map<CellPoint, PaintedCell>> {
    let c = covered_opt(m, layer_id, raster);
    c.insert((layer_id, block_id), patched(cells_or_empty(c, (layer_id, block_id)), patches, PatchDirection::After))
}

proof fn lemma_unblanked_reach(orig: Seq<SharedDocumentPropertyBlock>, block_id: Seq<char>)
    ensures
        unblanked(orig, block_id).len() == orig.len(),
        forall|k: int| 0 <= k < orig.len() ==> block_reach(#[trigger] unblanked(orig, block_id)[k]) == block_reach(orig[k]),
{
    if exists|i: int| 0 <= i < orig.len() && (#[trigger] orig[i]).id@ == block_id {
        let i = choose|i: int| 0 <= i < orig.len() && (#[trigger] orig[i]).id@ == block_id;
        lemma_first_block_some(orig, block_id, i);
    }
}

/// The first layer with this id, over a layer list.
fn layer_index_in(layers: &Vec<SharedDocumentLayer>, layer_id: &str) -> (r: Option<usize>)
    ensures
        r is Some <==> first_layer(layers_view(layers@), layer_id@) is Some,
        r is Some ==> first_layer(layers_view(layers@), layer_id@) == Some(r->0 as int),
        r is Some ==> r->0 < layers@.len() && layers@[r->0 as int].layer_id@ == layer_id@,
{
    let ghost lv = layers_view(layers@);
    match find_layer(layers, layer_id) {
        Some(li) => {
            proof {
                assert forall|k: int| 0 <= k < li implies lv[k].layer_id != layer_id@ by {
                    assert(lv[k] == layers@[k]@);
                }
                lemma_first_layer(lv, layer_id@, li as int);
            }
            Some(li)
        },
        None => {
            proof {
                assert forall|k: int| 0 <= k < lv.len() implies (#[trigger] lv[k]).layer_id != layer_id@ by {
                    assert(lv[k] == layers@[k]@);
                }
            }
            None
        },
    }
}

/// The first track with this property id on layer `li` of a layer list.
fn track_index_in(layers: &Vec<SharedDocumentLayer>, li: usize, property_id: &str) -> (r: Option<usize>)
    requires
        li < layers@.len(),
    ensures
        r is Some <==> first_track(layers_view(layers@)[li as int].tracks, property_id@) is Some,
        r is Some ==> first_track(layers_view(layers@)[li as int].tracks, property_id@) == Some(r->0 as int),
        r is Some ==> r->0 < layers@[li as int].property_tracks@.len(),
{
    let ghost tv = layers_view(layers@)[li as int].tracks;
    let layer = &layers[li];
    match find_track(&layer.property_tracks, property_id) {
        Some(ti) => {
            proof {
                assert forall|k: int| 0 <= k < ti implies tv[k].property_id != property_id@ by {
                    assert(tv[k] == layer.property_tracks@[k]@);
                }
                lemma_first_track(tv, property_id@, ti as int);
            }
            Some(ti)
        },
        None => {
            proof {
                assert forall|k: int| 0 <= k < tv.len() implies (#[trigger] tv[k]).property_id != property_id@ by {
                    assert(tv[k] == layer.property_tracks@[k]@);
                }
            }
            None
        },
    }
}

#[verifier::spinoff_prover]
#[verifier::rlimit(40)]
fn unblank_blocks(blocks: &mut Vec<SharedDocumentPropertyBlock>, block_id: &str)
    ensures
        final(blocks)@ == unblanked(old(blocks)@, block_id@),
{
    match find_block(blocks, block_id) {
        Some(bi) => {
            let ghost orig = blocks@;
            let mut b = blocks.remove(bi);
            proof {
                assert(b == orig[bi as int]);
            }
            b.is_blank = false;
            let ghost nb = b;
            blocks.insert(bi, b);
            proof {
                assert(nb == SharedDocumentPropertyBlock { is_blank: false, ..orig[bi as int] });
                assert(blocks@ =~= orig.update(bi as int, nb));
            }
        },
        None => {},
    }
}

/// Turns the first raster block with this id of the first layer with this
/// id solid and re-tiles the raster track.
fn unblank_in_layers(layers: &mut Vec<SharedDocumentLayer>, layer_id: &str, block_id: &str)
    requires
        reach_within(layers_view(old(layers)@), u32::MAX - 1),
    ensures
        unblank_result(layers_view(old(layers)@), layers_view(final(layers)@), layer_id@, block_id@),
        forall|b: int| b < u32::MAX && #[trigger] reach_within(layers_view(old(layers)@), b) ==> reach_within(layers_view(final(layers)@), b + 1),
{
    proof {
        reveal_strlit("raster");
    }
    let ghost before = layers_view(layers@);
    proof {
        assert forall|b: int| b < u32::MAX && #[trigger] reach_within(before, b) implies reach_within(before, b + 1) by {
            lemma_reach_mono(before, b, b + 1);
        }
    }
    let li = match layer_index_in(layers, layer_id) {
        Some(li) => li,
        None => {
            proof {
                lemma_unblank_none(before, layer_id@, block_id@);
            }
            return;
        },
    };
    let ti = match track_index_in(layers, li, "raster") {
        Some(ti) => ti,
        None => {
            proof {
                lemma_unblank_none(before, layer_id@, block_id@);
            }
            return;
        },
    };
    let start = layers[li].start_breath;
    let length = layers[li].length_breaths;
    let mut blocks = take_track_blocks(layers, li, ti);
    let ghost mid = layers_view(layers@);
    let ghost orig = blocks@;
    proof {
        assert(orig == before[li as int].tracks[ti as int].blocks);
    }
    unblank_blocks(&mut blocks, block_id);
    proof {
        reveal(reach_within);
        assert(blocks@ == unblanked(orig, block_id@));
        lemma_unblanked_reach(orig, block_id@);
        assert forall|k: int| 0 <= k < blocks@.len() implies block_reach(#[trigger] blocks@[k]) <= u32::MAX - 1 by {
            assert(block_reach(before[li as int].tracks[ti as int].blocks[k]) <= u32::MAX - 1);
        }
        lemma_max_reach_le(blocks@, u32::MAX - 1);
    }
    let out = retile(blocks, start, length);
    let ghost outv = out@;
    put_track_blocks(layers, li, ti, out);
    proof {
        lemma_unblank_step(before, mid, layers_view(layers@), li as int, ti as int, block_id@, outv);
        lemma_unblank_result(before, layers_view(layers@), layer_id@, block_id@, li as int, ti as int, outv);
    }
}

proof fn lemma_unblank_result(
    before: Seq<LayerView>,
    after: Seq<LayerView>,
    layer_id: Seq<char>,
    block_id: Seq<char>,
    li: int,
    ti: int,
    out: Seq<SharedDocumentPropertyBlock>,
)
    requires
        0 <= li < before.len(),
        0 <= ti < before[li].tracks.len(),
        first_layer(before, layer_id) == Some(li),
        first_track(before[li].tracks, "raster"@) == Some(ti),
        after == before.update(li, with_blocks(before[li], ti, out)),
        retiled_from(out, unblanked(before[li].tracks[ti].blocks, block_id), before[li].start_breath, before[li].length_breaths),
    ensures
        unblank_result(before, after, layer_id, block_id),
{
    reveal(unblank_result);
    assert(after[li].tracks[ti].blocks == out);
}

proof fn lemma_unblank_none(layers: Seq<LayerView>, layer_id: Seq<char>, block_id: Seq<char>)
    requires
        first_layer(layers, layer_id) is None || first_track(layers[first_layer(layers, layer_id)->0].tracks, "raster"@) is None,
    ensures
        unblank_result(layers, layers, layer_id, block_id),
{
    reveal(unblank_result);
}

proof fn lemma_unblank_step(
    before: Seq<LayerView>,
    mid: Seq<LayerView>,
    after: Seq<LayerView>,
    li: int,
    ti: int,
    block_id: Seq<char>,
    out: Seq<SharedDocumentPropertyBlock>,
)
    requires
        0 <= li < before.len(),
        0 <= ti < before[li].tracks.len(),
        mid == before.update(li, with_blocks(before[li], ti, Seq::empty())),
        after == mid.update(li, with_blocks(mid[li], ti, out)),
        retiled_from(out, unblanked(before[li].tracks[ti].blocks, block_id), before[li].start_breath, before[li].length_breaths),
    ensures
        after == before.update(li, with_blocks(before[li], ti, out)),
        forall|b: int| b < u32::MAX && #[trigger] reach_within(before, b) ==> reach_within(after, b + 1),
{
    assert(mid[li] == with_blocks(before[li], ti, Seq::empty()));
    assert(with_blocks(with_blocks(before[li], ti, Seq::empty()), ti, out) =~= with_blocks(before[li], ti, out)) by {
        assert(with_blocks(with_blocks(before[li], ti, Seq::empty()), ti, out).tracks =~= with_blocks(before[li], ti, out).tracks);
    }
    assert(after =~= before.update(li, with_blocks(before[li], ti, out)));
    reveal(reach_within);
    reveal(retiled_from);
    let orig = before[li].tracks[ti].blocks;
    let ub = unblanked(orig, block_id);
    lemma_unblanked_reach(orig, block_id);
    assert forall|b: int| b < u32::MAX && #[trigger] reach_within(before, b) implies reach_within(after, b + 1) by {
        assert forall|k: int| 0 <= k < ub.len() implies block_reach(#[trigger] ub[k]) <= b by {
            assert(block_reach(before[li].tracks[ti].blocks[k]) <= b);
        }
        lemma_max_reach_le(ub, b);
        assert(span_end_spec(before[li].start_breath, before[li].length_breaths) <= b);
        lemma_reach_update(before, li, ti, out, b);
    }
}

impl SharedDocumentRuntime {
    /// The undo and redo stacks of every layer but one are unchanged.
    pub open spec fn other_stacks_unchanged(&self, before: &SharedDocumentRuntime, layer_id: Seq<char>) -> bool {
        forall|l: Seq<char>| l != layer_id ==> #[trigger] self.applied(l) == before.applied(l) && self.undone(l) == before.undone(l)
    }

    /// Every layer's undo and redo stacks are unchanged.
    pub open spec fn stacks_unchanged(&self, before: &SharedDocumentRuntime) -> bool {
        forall|l: Seq<char>| #[trigger] self.applied(l) == before.applied(l) && self.undone(l) == before.undone(l)
    }

    /// Applies patches to one block's canvas (creating it empty if missing).
    fn paint_canvas(&mut self, layer_id: &str, block_id: &str, patches: &Vec<SharedCellPatch>, direction: PatchDirection)
        requires
            old(self).wf(),
        ensures
            final(self).wf(),
            final(self).canvases() == old(self).canvases().insert((layer_id@, block_id@),
                patched(cells_or_empty(old(self).canvases(), (layer_id@, block_id@)), patches@, direction)),
            final(self).document == old(self).document,
            final(self).history_unchanged(&*old(self)),
    {
        let i = canvas_entry(&mut self.block_canvases, layer_id, block_id);
        let mut c = take_canvas_at(&mut self.block_canvases, i);
        apply_patches(&mut c, patches, direction);
        set_canvas_at(&mut self.block_canvases, i, c);
        proof {
            assert(self.canvases() =~= old(self).canvases().insert((layer_id@, block_id@),
                patched(cells_or_empty(old(self).canvases(), (layer_id@, block_id@)), patches@, direction)));
        }
    }

    /// Painting into a blank raster block turns it solid; the raster track
    /// re-tiles and the layer's canvases are covered again.
    fn unblank_raster_block(&mut self, layer_id: &str, block_id: &str)
        requires
            old(self).wf(),
            reach_within(old(self).layers_spec(), u32::MAX - 1),
        ensures
            final(self).wf(),
            forall|b: int| b < u32::MAX && #[trigger] reach_within(old(self).layers_spec(), b) ==> reach_within(final(self).layers_spec(), b + 1),
            unblank_result(old(self).layers_spec(), final(self).layers_spec(), layer_id@, block_id@),
            final(self).canvases() == covered_opt(old(self).canvases(), layer_id@, track_blocks(final(self).layers_spec(), layer_id@, "raster"@)),
            final(self).meta_unchanged(&*old(self)),
            final(self).history_unchanged(&*old(self)),
    {
        unblank_in_layers(&mut self.document.layers, layer_id, block_id);
        self.ensure_block_canvas_coverage(layer_id);
    }

    /// Paints patches onto a block canvas for a live stroke preview without
    /// a record or any change to the undo stacks.
    pub fn stage_canvas_patches(&mut self, layer_id: &str, block_id: &str, patches: &Vec<SharedCellPatch>)
        requires
            old(self).wf(),
            reach_within(old(self).layers_spec(), u32::MAX - 1),
        ensures
            final(self).wf(),
            patches@.len() == 0 ==> final(self).layers_spec() == old(self).layers_spec() && final(self).canvases() == old(self).canvases(),
            patches@.len() > 0 ==> {
                &&& unblank_result(old(self).layers_spec(), final(self).layers_spec(), layer_id@, block_id@)
                &&& final(self).canvases() == painted(old(self).canvases(), layer_id@, block_id@,
                    track_blocks(final(self).layers_spec(), layer_id@, "raster"@), patches@)
            },
            forall|b: int| b < u32::MAX && #[trigger] reach_within(old(self).layers_spec(), b) ==> reach_within(final(self).layers_spec(), b + 1),
            final(self).meta_unchanged(&*old(self)),
            final(self).history_unchanged(&*old(self)),
    {
        if patches.len() == 0 {
            proof {
                assert forall|b: int| b < u32::MAX && #[trigger] reach_within(old(self).layers_spec(), b) implies reach_within(self.layers_spec(), b + 1) by {
                    lemma_reach_mono(old(self).layers_spec(), b, b + 1);
                }
            }
            return;
        }
        self.unblank_raster_block(layer_id, block_id);
        self.paint_canvas(layer_id, block_id, patches, PatchDirection::After);
    }

    /// Appends an already-applied record to the history without applying it.
    pub fn push_history_record(&mut self, record: SharedDocumentActionRecord)
        requires
            old(self).wf(),
        ensures
            final(self).wf(),
            final(self).actions_spec() == old(self).actions_spec().push(record@),
            final(self).layers_spec() == old(self).layers_spec(),
            final(self).canvases() == old(self).canvases(),
            final(self).stacks_unchanged(&*old(self)),
            final(self).applied_patches() == old(self).applied_patches(),
            final(self).meta_unchanged(&*old(self)),
            final(self).baseline_spec() == old(self).baseline_spec(),
            final(self).squashed_spec() == old(self).squashed_spec(),
    {
        let ghost before = self.actions@;
        self.actions.push(record);
        proof {
            assert(self.actions_spec() =~= old(self).actions_spec().push(record@));
        }
    }
}

/// The stacks after replaying a revert record for action `rid`: an applied
/// action moves to the undone stack, else an undone one moves back.
pub open spec fn revert_stacks(a: Seq<Seq<char>>, u: Seq<Seq<char>>, a2: Seq<Seq<char>>, u2: Seq<Seq<char>>, rid: Seq<char>) -> bool {
    if a.contains(rid) {
        a2 == a.remove(first_index_of(a, rid)->0) && u2 == u.push(rid)
    } else if u.contains(rid) {
        u2 == u.remove(first_index_of(u, rid)->0) && a2 == a.push(rid)
    } else {
        a2 == a && u2 == u
    }
}

impl SharedDocumentRuntime {
    /// What replaying a patch-set record does.
    pub open spec fn patch_set_effect(
        &self,
        before: &SharedDocumentRuntime,
        rec: RecordView,
        patches: Seq<SharedCellPatch>,
        passive: bool,
        reverts: Option<Seq<char>>,
    ) -> bool {
        let l = rec.layer_id;
        match patch_target(before.layers_spec(), rec) {
            None => {
                &&& self.layers_spec() == before.layers_spec()
                &&& self.canvases() == before.canvases()
                &&& self.stacks_unchanged(before)
                &&& self.applied_patches() == before.applied_patches()
            },
            Some(tb) => {
                &&& unblank_result(before.layers_spec(), self.layers_spec(), l, tb)
                &&& self.canvases() == painted(before.canvases(), l, tb, track_blocks(self.layers_spec(), l, "raster"@), patches)
                &&& self.other_stacks_unchanged(before, l)
                &&& if !passive {
                    &&& self.applied(l) == before.applied(l).push(rec.action_id)
                    &&& self.undone(l) == Seq::<Seq<char>>::empty()
                    &&& self.applied_patches() == before.applied_patches().insert(rec.action_id, (l, tb, patches))
                } else {
                    &&& self.applied_patches() == before.applied_patches()
                    &&& match reverts {
                        Some(rid) => revert_stacks(before.applied(l), before.undone(l), self.applied(l), self.undone(l), rid),
                        None => self.applied(l) == before.applied(l) && self.undone(l) == before.undone(l),
                    }
                }
            },
        }
    }

    /// What replaying a legacy undo (`undo`) or redo record of a layer does.
    pub open spec fn legacy_effect(&self, before: &SharedDocumentRuntime, l: Seq<char>, undo: bool) -> bool {
        let from = if undo { before.applied(l) } else { before.undone(l) };
        let from_after = if undo { self.applied(l) } else { self.undone(l) };
        let to = if undo { before.undone(l) } else { before.applied(l) };
        let to_after = if undo { self.undone(l) } else { self.applied(l) };
        &&& self.layers_spec() == before.layers_spec()
        &&& self.applied_patches() == before.applied_patches()
        &&& self.other_stacks_unchanged(before, l)
        &&& if from.len() == 0 {
            self.canvases() == before.canvases() && from_after == from && to_after == to
        } else {
            &&& from_after == from.drop_last()
            &&& if before.applied_patches().contains_key(from.last()) {
                let (pl, pb, ps) = before.applied_patches()[from.last()];
                &&& self.canvases() == before.canvases().insert((pl, pb), patched(cells_or_empty(before.canvases(), (pl, pb)), ps,
                    if undo { PatchDirection::Before } else { PatchDirection::After }))
                &&& to_after == to.push(from.last())
            } else {
                self.canvases() == before.canvases() && to_after == to
            }
        }
    }

    /// What applying one record does to the layers, canvases and stacks.
    pub open spec fn applied_effect(&self, before: &SharedDocumentRuntime, rec: RecordView) -> bool {
        match rec.action {
            ActionView::CellPatchSet { patches, block_id, passive, reverts } => self.patch_set_effect(before, rec, patches, passive, reverts),
            ActionView::Undo => self.legacy_effect(before, rec.layer_id, true),
            ActionView::Redo => self.legacy_effect(before, rec.layer_id, false),
        }
    }

    /// Replays a legacy undo or redo record.
    fn apply_legacy(&mut self, layer_id: &str, undo: bool)
        requires
            old(self).wf(),
        ensures
            final(self).wf(),
            final(self).legacy_effect(&*old(self), layer_id@, undo),
            final(self).document == old(self).document,
            final(self).actions == old(self).actions,
            final(self).baseline == old(self).baseline,
            final(self).squashed_through == old(self).squashed_through,
            final(self).revision == old(self).revision,
    {
        let popped = if undo {
            stack_pop(&mut self.applied_action_ids_by_layer, layer_id)
        } else {
            stack_pop(&mut self.undone_action_ids_by_layer, layer_id)
        };
        if let Some(aid) = popped {
            if let Some(i) = find_applied(&self.patches_by_action_id, aid.as_str()) {
                let pl = self.patches_by_action_id[i].layer_id.clone();
                let pb = self.patches_by_action_id[i].block_id.clone();
                let ps = copy_patches(&self.patches_by_action_id[i].patches);
                let direction = if undo { PatchDirection::Before } else { PatchDirection::After };
                self.paint_canvas(pl.as_str(), pb.as_str(), &ps, direction);
                if undo {
                    stack_push(&mut self.undone_action_ids_by_layer, layer_id, aid);
                } else {
                    stack_push(&mut self.applied_action_ids_by_layer, layer_id, aid);
                }
            }
        }
    }

    /// Replays a patch-set record.
    fn apply_patch_set(
        &mut self,
        record: &SharedDocumentActionRecord,
        patches: &Vec<SharedCellPatch>,
        block_id: &Option<String>,
        passive: bool,
        reverts: &Option<String>,
    )
        requires
            old(self).wf(),
            reach_within(old(self).layers_spec(), u32::MAX - 1),
            record.action@ == (ActionView::CellPatchSet { patches: patches@, block_id: opt_str_view(*block_id), passive, reverts: opt_str_view(*reverts) }),
        ensures
            final(self).wf(),
            final(self).patch_set_effect(&*old(self), record@, patches@, passive, opt_str_view(*reverts)),
            forall|b: int| b < u32::MAX && #[trigger] reach_within(old(self).layers_spec(), b) ==> reach_within(final(self).layers_spec(), b + 1),
            final(self).meta_unchanged(&*old(self)),
            final(self).actions == old(self).actions,
            final(self).baseline == old(self).baseline,
            final(self).squashed_through == old(self).squashed_through,
            final(self).revision == old(self).revision,
    {
        let layer_id = record.layer_id.as_str();
        proof {
            assert forall|b: int| b < u32::MAX && #[trigger] reach_within(old(self).layers_spec(), b) implies reach_within(old(self).layers_spec(), b + 1) by {
                lemma_reach_mono(old(self).layers_spec(), b, b + 1);
            }
        }
        if patches.len() == 0 {
            return;
        }
        let target = match block_id {
            Some(b) => Some(b.clone()),
            None => self.legacy_raster_block_target(layer_id),
        };
        let tb = match target {
            Some(tb) => tb,
            None => {
                return;
            },
        };
        self.unblank_raster_block(layer_id, tb.as_str());
        self.paint_canvas(layer_id, tb.as_str(), patches, PatchDirection::After);
        self.record_patch_set(layer_id, &record.action_id, tb, patches, passive, reverts);
    }

    /// The stack bookkeeping of a replayed patch set that landed on block `tb`.
    fn record_patch_set(
        &mut self,
        layer_id: &str,
        action_id: &String,
        tb: String,
        patches: &Vec<SharedCellPatch>,
        passive: bool,
        reverts: &Option<String>,
    )
        requires
            old(self).wf(),
        ensures
            final(self).wf(),
            final(self).document == old(self).document,
            final(self).block_canvases == old(self).block_canvases,
            final(self).actions == old(self).actions,
            final(self).baseline == old(self).baseline,
            final(self).squashed_through == old(self).squashed_through,
            final(self).revision == old(self).revision,
            final(self).other_stacks_unchanged(&*old(self), layer_id@),
            !passive ==> {
                &&& final(self).applied(layer_id@) == old(self).applied(layer_id@).push(action_id@)
                &&& final(self).undone(layer_id@) == Seq::<Seq<char>>::empty()
                &&& final(self).applied_patches() == old(self).applied_patches().insert(action_id@, (layer_id@, tb@, patches@))
            },
            passive ==> {
                &&& final(self).applied_patches() == old(self).applied_patches()
                &&& match opt_str_view(*reverts) {
                    Some(rid) => revert_stacks(old(self).applied(layer_id@), old(self).undone(layer_id@), final(self).applied(layer_id@), final(self).undone(layer_id@), rid),
                    None => final(self).applied(layer_id@) == old(self).applied(layer_id@) && final(self).undone(layer_id@) == old(self).undone(layer_id@),
                }
            },
    {
        if !passive {
            stack_push(&mut self.applied_action_ids_by_layer, layer_id, action_id.clone());
            stack_clear(&mut self.undone_action_ids_by_layer, layer_id);
            insert_applied(&mut self.patches_by_action_id, AppliedPatches {
                action_id: action_id.clone(),
                layer_id: owned(layer_id),
                block_id: tb,
                patches: copy_patches(patches),
            });
        } else {
            match reverts {
                Some(rid) => {
                    if stack_remove_id(&mut self.applied_action_ids_by_layer, layer_id, rid.as_str()) {
                        stack_push(&mut self.undone_action_ids_by_layer, layer_id, rid.clone());
                    } else if stack_remove_id(&mut self.undone_action_ids_by_layer, layer_id, rid.as_str()) {
                        stack_push(&mut self.applied_action_ids_by_layer, layer_id, rid.clone());
                    }
                },
                None => {},
            }
        }
    }

    /// The legacy target of a layer: its first solid raster block, else its
    /// first raster block.
    fn legacy_raster_block_target(&self, layer_id: &str) -> (r: Option<String>)
        ensures
            match r {
                Some(b) => legacy_target(self.layers_spec(), layer_id@) == Some(b@),
                None => legacy_target(self.layers_spec(), layer_id@) is None,
            },
    {
        proof {
            reveal_strlit("raster");
        }
        let li = match layer_index_in(&self.document.layers, layer_id) {
            Some(li) => li,
            None => {
                return None;
            },
        };
        let ti = match track_index_in(&self.document.layers, li, "raster") {
            Some(ti) => ti,
            None => {
                return None;
            },
        };
        let blocks = &self.document.layers[li].property_tracks[ti].blocks;
        let ghost bs = blocks@;
        proof {
            assert(bs == self.layers_spec()[li as int].tracks[ti as int].blocks);
            assert(track_blocks(self.layers_spec(), layer_id@, "raster"@) == Some(bs));
        }
        let mut i: usize = 0;
        while i < blocks.len()
            invariant
                bs == blocks@,
                track_blocks(self.layers_spec(), layer_id@, "raster"@) == Some(bs),
                i <= bs.len(),
                forall|k: int| 0 <= k < i ==> bs[k].is_blank,
            decreases bs.len() - i,
        {
            if !blocks[i].is_blank {
                proof {
                    let j = choose|j: int| 0 <= j < bs.len() && !(#[trigger] bs[j]).is_blank && forall|k: int| 0 <= k < j ==> bs[k].is_blank;
                    if j < i {
                        assert(bs[j].is_blank);
                    } else if j > i {
                        assert(bs[i as int].is_blank);
                    }
                }
                return Some(blocks[i].id.clone());
            }
            i = i + 1;
        }
        if blocks.len() > 0 {
            Some(blocks[0].id.clone())
        } else {
            None
        }
    }

    /// Replays one action record: patch sets paint into their raster block
    /// (turning it solid) and, unless passive, join the layer's undo stack;
    /// passive revert records move the action they revert between the
    /// stacks; legacy undo and redo records pop one stack, revert or
    /// re-apply the action's patches and push the other stack. The record
    /// joins the history.
    pub fn apply_action_record(&mut self, record: SharedDocumentActionRecord)
        requires
            old(self).wf(),
            reach_within(old(self).layers_spec(), u32::MAX - 1),
        ensures
            final(self).wf(),
            final(self).actions_spec() == old(self).actions_spec().push(record@),
            final(self).applied_effect(&*old(self), record@),
            forall|b: int| b < u32::MAX && #[trigger] reach_within(old(self).layers_spec(), b) ==> reach_within(final(self).layers_spec(), b + 1),
            final(self).meta_unchanged(&*old(self)),
            final(self).baseline_spec() == old(self).baseline_spec(),
            final(self).squashed_spec() == old(self).squashed_spec(),
            final(self).revision_spec() == old(self).revision_spec(),
    {
        let ghost before = *self;
        match &record.action {
            SharedDocumentAction::CellPatchSet { patches, block_id, passive, reverts } => {
                self.apply_patch_set(&record, patches, block_id, *passive, reverts);
            },
            SharedDocumentAction::Undo => {
                self.apply_legacy(record.layer_id.as_str(), true);
                proof {
                    assert forall|b: int| b < u32::MAX && #[trigger] reach_within(before.layers_spec(), b) implies reach_within(self.layers_spec(), b + 1) by {
                        lemma_reach_mono(before.layers_spec(), b, b + 1);
                    }
                }
            },
            SharedDocumentAction::Redo => {
                self.apply_legacy(record.layer_id.as_str(), false);
                proof {
                    assert forall|b: int| b < u32::MAX && #[trigger] reach_within(before.layers_spec(), b) implies reach_within(self.layers_spec(), b + 1) by {
                        lemma_reach_mono(before.layers_spec(), b, b + 1);
                    }
                }
            },
        }
        let ghost mid = *self;
        let ghost rec = record@;
        proof {
            assert(mid.applied_effect(&before, rec));
        }
        self.actions.push(record);
        proof {
            assert(self.actions_spec() =~= before.actions_spec().push(rec));
            assert(self.layers_spec() == mid.layers_spec());
            assert(self.canvases() == mid.canvases());
            assert(self.applied_patches() == mid.applied_patches());
            lemma_effect_transfer(mid, *self, before, rec);
        }
    }
}

proof fn lemma_effect_transfer(a: SharedDocumentRuntime, b: SharedDocumentRuntime, before: SharedDocumentRuntime, rec: RecordView)
    requires
        a.document == b.document,
        a.block_canvases == b.block_canvases,
        a.applied_action_ids_by_layer == b.applied_action_ids_by_layer,
        a.undone_action_ids_by_layer == b.undone_action_ids_by_layer,
        a.patches_by_action_id == b.patches_by_action_id,
        a.applied_effect(&before, rec),
    ensures
        b.applied_effect(&before, rec),
{
    assert(a.layers_spec() == b.layers_spec());
    assert(a.canvases() == b.canvases());
    assert(a.applied_patches() == b.applied_patches());
    assert forall|l: Seq<char>| #[trigger] b.applied(l) == a.applied(l) by {}
    assert forall|l: Seq<char>| #[trigger] b.undone(l) == a.undone(l) by {}
    match rec.action {
        ActionView::CellPatchSet { patches, block_id, passive, reverts } => {
            assert(a.patch_set_effect(&before, rec, patches, passive, reverts));
            assert(b.patch_set_effect(&before, rec, patches, passive, reverts));
        },
        ActionView::Undo => {
            assert(b.legacy_effect(&before, rec.layer_id, true));
        },
        ActionView::Redo => {
            assert(b.legacy_effect(&before, rec.layer_id, false));
        },
    }
}

fn inverse_patches(patches: &Vec<SharedCellPatch>) -> (r: Vec<SharedCellPatch>)
    ensures
        r@ == patches@.map_values(|p: SharedCellPatch| p.inverse_spec()),
{
    let mut out: Vec<SharedCellPatch> = Vec::new();
    let mut i: usize = 0;
    while i < patches.len()
        invariant
            i <= patches@.len(),
            out@ == patches@.subrange(0, i as int).map_values(|p: SharedCellPatch| p.inverse_spec()),
        decreases patches@.len() - i,
    {
        out.push(patches[i].inverse());
        i = i + 1;
        assert(out@ =~= patches@.subrange(0, i as int).map_values(|p: SharedCellPatch| p.inverse_spec()));
    }
    assert(patches@.subrange(0, patches@.len() as int) =~= patches@);
    out
}

impl SharedDocumentRuntime {
    /// The revert patches an undo (`undo`) or redo of a layer returns.
    pub open spec fn history_revert(&self, l: Seq<char>, undo: bool, r: Option<HistoryRevertPatches>) -> bool {
        let from = if undo { self.applied(l) } else { self.undone(l) };
        if from.len() > 0 && self.applied_patches().contains_key(from.last()) {
            let (pl, pb, ps) = self.applied_patches()[from.last()];
            r matches Some(h) && h.block_id@ == pb && h.action_id@ == from.last()
                && h.patches@ == if undo { ps.map_values(|p: SharedCellPatch| p.inverse_spec()) } else { ps }
        } else {
            r is None
        }
    }

    fn top_action(&mut self, layer_id: &str, undo: bool) -> (r: Option<HistoryRevertPatches>)
        requires
            old(self).wf(),
        ensures
            final(self).wf(),
            final(self).legacy_effect(&*old(self), layer_id@, undo),
            old(self).history_revert(layer_id@, undo, r),
            final(self).document == old(self).document,
            final(self).actions == old(self).actions,
            final(self).baseline == old(self).baseline,
            final(self).squashed_through == old(self).squashed_through,
            final(self).revision == old(self).revision,
    {
        let popped = if undo {
            stack_pop(&mut self.applied_action_ids_by_layer, layer_id)
        } else {
            stack_pop(&mut self.undone_action_ids_by_layer, layer_id)
        };
        let aid = match popped {
            Some(aid) => aid,
            None => {
                return None;
            },
        };
        let i = match find_applied(&self.patches_by_action_id, aid.as_str()) {
            Some(i) => i,
            None => {
                return None;
            },
        };
        let pl = self.patches_by_action_id[i].layer_id.clone();
        let pb = self.patches_by_action_id[i].block_id.clone();
        let ps = copy_patches(&self.patches_by_action_id[i].patches);
        let direction = if undo { PatchDirection::Before } else { PatchDirection::After };
        self.paint_canvas(pl.as_str(), pb.as_str(), &ps, direction);
        let patches = if undo { inverse_patches(&ps) } else { ps };
        let revert = HistoryRevertPatches { block_id: pb, patches, action_id: aid.clone() };
        if undo {
            stack_push(&mut self.undone_action_ids_by_layer, layer_id, aid);
        } else {
            stack_push(&mut self.applied_action_ids_by_layer, layer_id, aid);
        }
        Some(revert)
    }

    /// Pops the layer's last applied action and reverts it on its canvas,
    /// returning the inverse patches for a passive revert record; the action
    /// joins the undone stack. One undo is one whole committed stroke.
    pub fn undo_top_action(&mut self, layer_id: &str) -> (r: Option<HistoryRevertPatches>)
        requires
            old(self).wf(),
        ensures
            final(self).wf(),
            final(self).legacy_effect(&*old(self), layer_id@, true),
            old(self).history_revert(layer_id@, true, r),
            final(self).layers_spec() == old(self).layers_spec(),
            final(self).actions_spec() == old(self).actions_spec(),
            final(self).meta_unchanged(&*old(self)),
    {
        self.top_action(layer_id, true)
    }

    /// Pops the layer's last undone action and re-applies it, returning the
    /// re-application patches for a passive revert record.
    pub fn redo_top_action(&mut self, layer_id: &str) -> (r: Option<HistoryRevertPatches>)
        requires
            old(self).wf(),
        ensures
            final(self).wf(),
            final(self).legacy_effect(&*old(self), layer_id@, false),
            old(self).history_revert(layer_id@, false, r),
            final(self).layers_spec() == old(self).layers_spec(),
            final(self).actions_spec() == old(self).actions_spec(),
            final(self).meta_unchanged(&*old(self)),
    {
        self.top_action(layer_id, false)
    }

    /// The records that belong in the saved log: the squash baselines, then
    /// every record not yet folded.
    pub fn actions_for_file(&self) -> (r: Vec<SharedDocumentActionRecord>)
        requires
            self.wf(),
        ensures
            r@.map_values(|x: SharedDocumentActionRecord| x@) == self.baseline_spec() + self.actions_spec().subrange(self.squashed_spec() as int, self.actions_spec().len() as int),
            forall|j: int| 0 <= j < self.baseline_spec().len() ==> #[trigger] squash_record(r@[j]@),
    {
        let mut out: Vec<SharedDocumentActionRecord> = Vec::new();
        let mut i: usize = 0;
        while i < self.baseline.len()
            invariant
                i <= self.baseline@.len(),
                out@.map_values(|x: SharedDocumentActionRecord| x@) == self.baseline_spec().subrange(0, i as int),
            decreases self.baseline@.len() - i,
        {
            let ghost prev = out@;
            let c = self.baseline[i].copy();
            out.push(c);
            proof {
                assert(self.baseline_spec()[i as int] == self.baseline@[i as int]@);
                assert(out@ == prev.push(c));
                assert(prev.push(c).map_values(|x: SharedDocumentActionRecord| x@) =~= prev.map_values(|x: SharedDocumentActionRecord| x@).push(c@));
            }
            i = i + 1;
            assert(out@.map_values(|x: SharedDocumentActionRecord| x@) =~= self.baseline_spec().subrange(0, i as int));
        }
        let mut j: usize = self.squashed_through;
        while j < self.actions.len()
            invariant
                self.squashed_through <= j <= self.actions@.len(),
                out@.map_values(|x: SharedDocumentActionRecord| x@) == self.baseline_spec() + self.actions_spec().subrange(self.squashed_through as int, j as int),
            decreases self.actions@.len() - j,
        {
            let ghost prev = out@;
            let c = self.actions[j].copy();
            out.push(c);
            proof {
                assert(self.actions_spec()[j as int] == self.actions@[j as int]@);
                assert(out@ == prev.push(c));
                assert(prev.push(c).map_values(|x: SharedDocumentActionRecord| x@) =~= prev.map_values(|x: SharedDocumentActionRecord| x@).push(c@));
            }
            j = j + 1;
            assert(out@.map_values(|x: SharedDocumentActionRecord| x@) =~= self.baseline_spec() + self.actions_spec().subrange(self.squashed_through as int, j as int));
        }
        proof {
            assert(self.baseline_spec().subrange(0, self.baseline@.len() as int) =~= self.baseline_spec());
            reveal(baseline_squashed);
            assert forall|k: int| 0 <= k < self.baseline_spec().len() implies #[trigger] squash_record(out@[k]@) by {
                assert(out@.map_values(|x: SharedDocumentActionRecord| x@)[k] == self.baseline_spec()[k]);
                assert(self.baseline_spec()[k] == self.baseline@[k]@);
            }
        }
        out
    }
}

/// `trace` runs from a runtime fresh from `document` through one applied
/// record per action to `r`.
pub open spec fn replays(r: SharedDocumentRuntime, trace: Seq<SharedDocumentRuntime>, document: SharedDocumentFile, actions: Seq<RecordView>) -> bool {
    &&& trace.len() == actions.len() + 1
    &&& trace[0].is_fresh(document)
    &&& trace.last() == r
    &&& forall|i: int| 0 <= i < actions.len() ==> {
        &&& (#[trigger] trace[i + 1]).applied_effect(&trace[i], actions[i])
        &&& trace[i + 1].actions_spec() == trace[i].actions_spec().push(actions[i])
        &&& trace[i + 1].meta_unchanged(&trace[i])
    }
}

/// Below the first breath only a document without layers fits.
pub proof fn lemma_reach_negative(layers: Seq<LayerView>, b: int)
    requires
        b < 0,
    ensures
        reach_within(layers, b) <==> layers.len() == 0,
{
    reveal(reach_within);
    if layers.len() > 0 {
        assert(span_end_spec(layers[0].start_breath, layers[0].length_breaths) >= 1);
    }
}

pub proof fn lemma_reach_ok(layers: Seq<LayerView>, b: int)
    requires
        reach_within(layers, b),
        b < u32::MAX,
    ensures
        reach_ok(layers),
{
    reveal(reach_within);
}

impl SharedDocumentRuntime {
    /// A runtime fresh from the document with every record applied in order.
    pub fn replay(document: SharedDocumentFile, actions: Vec<SharedDocumentActionRecord>) -> (r: SharedDocumentRuntime)
        requires
            reach_within(layers_view(document.layers@), u32::MAX - 2 - actions@.len()),
            document.selection.wf(),
        ensures
            r.wf(),
            exists|trace: Seq<SharedDocumentRuntime>| #[trigger] replays(r, trace, document, records_view(actions@)),
            r.actions_spec() == records_view(actions@),
    {
        let ghost views = records_view(actions@);
        let ghost n = actions@.len();
        let ghost doc = document;
        proof {
            lemma_reach_ok(layers_view(document.layers@), u32::MAX - 2 - n);
        }
        let mut rt = SharedDocumentRuntime::new(document);
        let ghost mut trace: Seq<SharedDocumentRuntime> = seq![rt];
        let mut actions = actions;
        let ghost all = actions@;
        let ghost mut i: int = 0;
        proof {
            assert(rt.actions_spec() =~= views.subrange(0, 0));
        }
        while actions.len() > 0
            invariant
                0 <= i <= n,
                n == all.len(),
                views == records_view(all),
                actions@ == all.subrange(i, n as int),
                rt.wf(),
                reach_within(rt.layers_spec(), u32::MAX - 1 - (n - i)),
                trace.len() == i + 1,
                trace[0].is_fresh(doc),
                trace.last() == rt,
                rt.actions_spec() == views.subrange(0, i),
                forall|k: int| 0 <= k < i ==> {
                    &&& (#[trigger] trace[k + 1]).applied_effect(&trace[k], views[k])
                    &&& trace[k + 1].actions_spec() == trace[k].actions_spec().push(views[k])
                    &&& trace[k + 1].meta_unchanged(&trace[k])
                },
            decreases actions@.len(),
        {
            let record = actions.remove(0);
            proof {
                assert(record == all[i]);
                assert(record@ == views[i]);
                lemma_reach_mono(rt.layers_spec(), u32::MAX - 1 - (n - i), u32::MAX - 1);
            }
            let ghost prev = rt;
            rt.apply_action_record(record);
            proof {
                trace = trace.push(rt);
                assert(trace[i] == prev);
                assert(trace[i + 1] == rt);
                assert(rt.actions_spec() =~= views.subrange(0, i + 1));
                i = i + 1;
                assert(actions@ =~= all.subrange(i, n as int));
            }
        }
        proof {
            assert(views.subrange(0, n as int) =~= views);
            assert(replays(rt, trace, doc, views));
        }
        rt
    }
}

/// The layers with one track's blocks replaced, and that track re-tiled
/// from `input` over its layer's span.
#[verifier::opaque]
pub open spec fn track_edited(before: Seq<LayerView>, after: Seq<LayerView>, li: int, ti: int, input: Seq<SharedDocumentPropertyBlock>) -> bool {
    let out = after[li].tracks[ti].blocks;
    &&& after == before.update(li, with_blocks(before[li], ti, out))
    &&& retiled_from(out, input, before[li].start_breath, before[li].length_breaths)
}

/// The first layer and track with these ids, when both exist.
pub open spec fn track_at(layers: Seq<LayerView>, layer_id: Seq<char>, property_id: Seq<char>) -> Option<(int, int)> {
    match first_layer(layers, layer_id) {
        Some(li) => match first_track(layers[li].tracks, property_id) {
            Some(ti) => Some((li, ti)),
            None => None,
        },
        None => None,
    }
}

/// `b1` is `b0`, or `b0` with a new binary-tiled track `ti` pushed onto layer `li`.
pub open spec fn ensured_from(b0: Seq<LayerView>, b1: Seq<LayerView>, li: int, ti: int) -> bool {
    &&& 0 <= li < b1.len()
    &&& 0 <= ti < b1[li].tracks.len()
    &&& (b1 == b0 || (b1 == b0.update(li, LayerView { tracks: b0[li].tracks.push(b1[li].tracks[ti]), ..b0[li] })
        && ti == b0[li].tracks.len() && is_binary_tiling(b1[li].tracks[ti].blocks) && b1.len() == b0.len()
        && b1[li].tracks[ti].blocks.len() == 2))
}

/// Finds the layer's track for a property, giving the layer a new default
/// track for it when it has none.
#[verifier::spinoff_prover]
#[verifier::rlimit(80)]
fn ensure_track_in(layers: &mut Vec<SharedDocumentLayer>, layer_id: &str, property_id: &str) -> (r: Option<(usize, usize)>)
    requires
        reach_within(layers_view(old(layers)@), u32::MAX - 1),
    ensures
        r is None <==> first_layer(layers_view(old(layers)@), layer_id@) is None,
        r is None ==> final(layers)@ == old(layers)@,
        r matches Some((li, ti)) ==> {
            let before = layers_view(old(layers)@);
            let after = layers_view(final(layers)@);
            &&& li < final(layers)@.len() && ti < final(layers)@[li as int].property_tracks@.len()
            &&& ensured_from(before, after, li as int, ti as int)
            &&& first_layer(before, layer_id@) == Some(li as int)
            &&& first_layer(after, layer_id@) == Some(li as int)
            &&& track_at(after, layer_id@, property_id@) == Some((li as int, ti as int))
            &&& (track_at(before, layer_id@, property_id@) is Some ==> after == before && track_at(before, layer_id@, property_id@) == Some((li as int, ti as int)))
            &&& (track_at(before, layer_id@, property_id@) is None ==> {
                &&& after == before.update(li as int, LayerView { tracks: before[li as int].tracks.push(after[li as int].tracks[ti as int]), ..before[li as int] })
                &&& ti == before[li as int].tracks.len()
                &&& after[li as int].tracks[ti as int].property_id == property_id@
                &&& is_binary_tiling(after[li as int].tracks[ti as int].blocks)
                &&& is_default_blocks(after[li as int].tracks[ti as int].blocks, before[li as int].start_breath, before[li as int].length_breaths)
            })
        },
        forall|b: int| b < u32::MAX && #[trigger] reach_within(layers_view(old(layers)@), b) ==> reach_within(layers_view(final(layers)@), b + 1),
{
    let ghost before = layers_view(layers@);
    proof {
        assert forall|b: int| b < u32::MAX && #[trigger] reach_within(before, b) implies reach_within(before, b + 1) by {
            lemma_reach_mono(before, b, b + 1);
        }
    }
    let li = match layer_index_in(layers, layer_id) {
        Some(li) => li,
        None => {
            return None;
        },
    };
    match track_index_in(layers, li, property_id) {
        Some(ti) => {
            proof {
                lemma_first_layer_range(before, layer_id@);
            }
            Some((li, ti))
        },
        None => {
            let start = layers[li].start_breath;
            let length = layers[li].length_breaths;
            proof {
                reveal(reach_within);
                assert(span_end_spec(before[li as int].start_breath, before[li as int].length_breaths) <= u32::MAX - 1);
            }
            let track = default_property_track(property_id, start, length);
            let ghost tv = track@;
            let mut layer = layers.remove(li);
            let ghost old_tracks = layer.property_tracks@;
            layer.property_tracks.push(track);
            let ti = layer.property_tracks.len() - 1;
            layers.insert(li, layer);
            proof {
                let after = layers_view(layers@);
                assert(after[li as int].tracks =~= before[li as int].tracks.push(tv));
                assert(after =~= before.update(li as int, LayerView { tracks: before[li as int].tracks.push(tv), ..before[li as int] }));
                assert forall|k: int| 0 <= k < li implies after[k].layer_id != layer_id@ by {
                    assert(after[k] == before[k]);
                    lemma_first_layer_range(before, layer_id@);
                }
                lemma_first_layer(after, layer_id@, li as int);
                assert forall|k: int| 0 <= k < ti implies after[li as int].tracks[k].property_id != property_id@ by {
                    assert(after[li as int].tracks[k] == before[li as int].tracks[k]);
                }
                lemma_first_track(after[li as int].tracks, property_id@, ti as int);
                assert forall|b: int| b < u32::MAX && #[trigger] reach_within(before, b) implies reach_within(after, b + 1) by {
                    reveal(reach_within);
                    assert forall|l2: int, t2: int, b2: int|
                        0 <= l2 < after.len() && 0 <= t2 < after[l2].tracks.len() && 0 <= b2 < after[l2].tracks[t2].blocks.len()
                        implies block_reach(#[trigger] after[l2].tracks[t2].blocks[b2]) <= b + 1 by {
                        if l2 == li && t2 == ti {
                            assert(span_end_spec(before[li as int].start_breath, before[li as int].length_breaths) <= b);
                        } else if l2 == li {
                            assert(after[l2].tracks[t2] == before[l2].tracks[t2]);
                            assert(block_reach(before[l2].tracks[t2].blocks[b2]) <= b);
                        } else {
                            assert(after[l2] == before[l2]);
                            assert(block_reach(before[l2].tracks[t2].blocks[b2]) <= b);
                        }
                    }
                    assert forall|l2: int| 0 <= l2 < after.len() implies span_end_spec((#[trigger] after[l2]).start_breath, after[l2].length_breaths) <= b + 1 by {
                        assert(after[l2].start_breath == before[l2].start_breath && after[l2].length_breaths == before[l2].length_breaths);
                    }
                }
            }
            Some((li, ti))
        },
    }
}

proof fn lemma_first_layer_range(layers: Seq<LayerView>, layer_id: Seq<char>)
    requires
        first_layer(layers, layer_id) is Some,
    ensures
        0 <= first_layer(layers, layer_id)->0 < layers.len(),
        layers[first_layer(layers, layer_id)->0].layer_id == layer_id,
        forall|k: int| 0 <= k < first_layer(layers, layer_id)->0 ==> layers[k].layer_id != layer_id,
{
    let i = choose|i: int| 0 <= i < layers.len() && (#[trigger] layers[i]).layer_id == layer_id;
    lemma_first_layer_exists(layers, layer_id, i);
}

proof fn lemma_first_layer_exists(layers: Seq<LayerView>, layer_id: Seq<char>, i: int)
    requires
        0 <= i < layers.len(),
        layers[i].layer_id == layer_id,
    ensures
        0 <= first_layer(layers, layer_id)->0 < layers.len(),
        layers[first_layer(layers, layer_id)->0].layer_id == layer_id,
        forall|k: int| 0 <= k < first_layer(layers, layer_id)->0 ==> layers[k].layer_id != layer_id,
    decreases i,
{
    if exists|k: int| 0 <= k < i && layers[k].layer_id == layer_id {
        let k = choose|k: int| 0 <= k < i && layers[k].layer_id == layer_id;
        lemma_first_layer_exists(layers, layer_id, k);
    } else {
        assert(forall|k: int| 0 <= k < i ==> layers[k].layer_id != layer_id);
    }
}

proof fn lemma_tiled_update(before: Seq<LayerView>, li: int, ti: int, out: Seq<SharedDocumentPropertyBlock>)
    requires
        tracks_tiled(before),
        0 <= li < before.len(),
        0 <= ti < before[li].tracks.len(),
        is_binary_tiling(out),
    ensures
        tracks_tiled(before.update(li, with_blocks(before[li], ti, out))),
{
    reveal(tracks_tiled);
    let after = before.update(li, with_blocks(before[li], ti, out));
    assert(before[li].start_breath < u32::MAX);
    assert forall|l: int| 0 <= l < after.len() && (#[trigger] after[l]).tracks.len() > 0 implies after[l].start_breath < u32::MAX by {
        if l != li {
            assert(after[l] == before[l]);
        }
    }
    assert forall|l: int, t: int| 0 <= l < after.len() && 0 <= t < after[l].tracks.len()
        implies #[trigger] is_binary_tiling(after[l].tracks[t].blocks) by {
        if l == li && t == ti {
            assert(after[l].tracks[t].blocks == out);
        } else if l == li {
            assert(after[l].tracks[t] == before[l].tracks[t]);
            assert(is_binary_tiling(before[l].tracks[t].blocks));
        } else {
            assert(after[l] == before[l]);
            assert(is_binary_tiling(before[l].tracks[t].blocks));
        }
    }
}

proof fn lemma_tiled_push(before: Seq<LayerView>, li: int, tv: TrackView)
    requires
        tracks_tiled(before),
        0 <= li < before.len(),
        before[li].start_breath < u32::MAX,
        is_binary_tiling(tv.blocks),
    ensures
        tracks_tiled(before.update(li, LayerView { tracks: before[li].tracks.push(tv), ..before[li] })),
{
    reveal(tracks_tiled);
    let after = before.update(li, LayerView { tracks: before[li].tracks.push(tv), ..before[li] });
    assert forall|l: int| 0 <= l < after.len() && (#[trigger] after[l]).tracks.len() > 0 implies after[l].start_breath < u32::MAX by {
        if l != li {
            assert(after[l] == before[l]);
        }
    }
    assert forall|l: int, t: int| 0 <= l < after.len() && 0 <= t < after[l].tracks.len()
        implies #[trigger] is_binary_tiling(after[l].tracks[t].blocks) by {
        if l == li && t == before[li].tracks.len() {
            assert(after[l].tracks[t] == tv);
        } else if l == li {
            assert(after[l].tracks[t] == before[l].tracks[t]);
            assert(is_binary_tiling(before[l].tracks[t].blocks));
        } else {
            assert(after[l] == before[l]);
            assert(is_binary_tiling(before[l].tracks[t].blocks));
        }
    }
}

/// Block reaches of a track under a bound, read off `reach_within`.
proof fn lemma_track_reach(layers: Seq<LayerView>, li: int, ti: int, b: int)
    requires
        reach_within(layers, b),
        0 <= li < layers.len(),
        0 <= ti < layers[li].tracks.len(),
    ensures
        forall|k: int| 0 <= k < layers[li].tracks[ti].blocks.len() ==> block_reach(#[trigger] layers[li].tracks[ti].blocks[k]) <= b,
        span_end_spec(layers[li].start_breath, layers[li].length_breaths) <= b,
{
    reveal(reach_within);
    assert forall|k: int| 0 <= k < layers[li].tracks[ti].blocks.len() implies block_reach(#[trigger] layers[li].tracks[ti].blocks[k]) <= b by {
        assert(block_reach(layers[li].tracks[ti].blocks[k]) <= b);
    }
}

/// After a re-tiling edit of one track whose input reaches at most `b`, the
/// layers reach at most one breath further.
proof fn lemma_edit_reach(before: Seq<LayerView>, after: Seq<LayerView>, li: int, ti: int, input: Seq<SharedDocumentPropertyBlock>, extra: int)
    requires
        0 <= li < before.len(),
        0 <= ti < before[li].tracks.len(),
        track_edited(before, after, li, ti, input),
        extra >= 0,
        forall|b: int| #[trigger] reach_within(before, b) ==> max_reach(input) <= b + extra,
    ensures
        forall|b: int| #[trigger] reach_within(before, b) ==> reach_within(after, b + 1 + extra),
{
    reveal(retiled_from);
    reveal(track_edited);
    assert forall|b: int| #[trigger] reach_within(before, b) implies reach_within(after, b + 1 + extra) by {
        lemma_track_reach(before, li, ti, b);
        lemma_reach_mono(before, b, b + extra);
        lemma_reach_update(before, li, ti, after[li].tracks[ti].blocks, b + extra);
    }
}

proof fn lemma_edit_from_taken(b1: Seq<LayerView>, taken: Seq<LayerView>, a: Seq<LayerView>, li: int, ti: int, input: Seq<SharedDocumentPropertyBlock>)
    requires
        0 <= li < b1.len(),
        0 <= ti < b1[li].tracks.len(),
        taken == b1.update(li, with_blocks(b1[li], ti, Seq::empty())),
        track_edited(taken, a, li, ti, input),
    ensures
        track_edited(b1, a, li, ti, input),
{
    reveal(track_edited);
    let out = a[li].tracks[ti].blocks;
    assert(with_blocks(taken[li], ti, out) =~= with_blocks(b1[li], ti, out)) by {
        assert(with_blocks(taken[li], ti, out).tracks =~= with_blocks(b1[li], ti, out).tracks);
    }
    assert(a =~= b1.update(li, with_blocks(b1[li], ti, out)));
}

proof fn lemma_edit_tiled(before: Seq<LayerView>, after: Seq<LayerView>, li: int, ti: int, input: Seq<SharedDocumentPropertyBlock>)
    requires
        tracks_tiled(before),
        0 <= li < before.len(),
        0 <= ti < before[li].tracks.len(),
        track_edited(before, after, li, ti, input),
        lengths_positive(input),
        ids_distinct(input),
    ensures
        tracks_tiled(after),
{
    reveal(track_edited);
    reveal(retiled_from);
    lemma_tiled_at(before, li, ti);
    lemma_tiled_update(before, li, ti, after[li].tracks[ti].blocks);
}

proof fn lemma_span_start(layers: Seq<LayerView>, li: int, b: int)
    requires
        reach_within(layers, b),
        0 <= li < layers.len(),
        b < u32::MAX,
    ensures
        layers[li].start_breath < u32::MAX,
        span_end_spec(layers[li].start_breath, layers[li].length_breaths) <= b,
{
    reveal(reach_within);
    assert(span_end_spec(layers[li].start_breath, layers[li].length_breaths) <= b);
}

proof fn lemma_ensured_tiled(b0: Seq<LayerView>, b1: Seq<LayerView>, li: int, ti: int)
    requires
        ensured_from(b0, b1, li, ti),
        reach_within(b0, u32::MAX - 1),
    ensures
        tracks_tiled(b0) ==> tracks_tiled(b1),
{
    if tracks_tiled(b0) && b1 != b0 {
        lemma_span_start(b0, li, u32::MAX - 1);
        lemma_tiled_push(b0, li, b1[li].tracks[ti]);
    }
}

/// What an edit of an ensured track keeps: reaches grow by a bounded
/// amount, and binary tilings stay binary tilings.
proof fn lemma_ensured_edit(
    b0: Seq<LayerView>,
    b1: Seq<LayerView>,
    a: Seq<LayerView>,
    li: int,
    ti: int,
    input: Seq<SharedDocumentPropertyBlock>,
    extra: int,
)
    requires
        ensured_from(b0, b1, li, ti),
        reach_within(b0, u32::MAX - 1),
        forall|b: int| b < u32::MAX && #[trigger] reach_within(b0, b) ==> reach_within(b1, b + 1),
        track_edited(b1, a, li, ti, input),
        extra >= 0,
        forall|b: int| #[trigger] reach_within(b1, b) ==> max_reach(input) <= b + extra,
        tracks_tiled(b1) ==> lengths_positive(input) && ids_distinct(input),
    ensures
        forall|b: int| b < u32::MAX && #[trigger] reach_within(b0, b) ==> reach_within(a, b + 2 + extra),
        tracks_tiled(b0) ==> tracks_tiled(a),
{
    lemma_edit_reach(b1, a, li, ti, input, extra);
    assert forall|b: int| b < u32::MAX && #[trigger] reach_within(b0, b) implies reach_within(a, b + 2 + extra) by {
        assert(reach_within(b1, b + 1));
    }
    lemma_ensured_tiled(b0, b1, li, ti);
    if tracks_tiled(b0) {
        lemma_edit_tiled(b1, a, li, ti, input);
    }
}

proof fn lemma_tiled_at(layers: Seq<LayerView>, li: int, ti: int)
    requires
        tracks_tiled(layers),
        0 <= li < layers.len(),
        0 <= ti < layers[li].tracks.len(),
    ensures
        is_binary_tiling(layers[li].tracks[ti].blocks),
        layers[li].start_breath < u32::MAX,
        lengths_positive(layers[li].tracks[ti].blocks),
        ids_distinct(layers[li].tracks[ti].blocks),
{
    reveal(tracks_tiled);
    assert(is_binary_tiling(layers[li].tracks[ti].blocks));
    assert(layers[li].tracks.len() > 0);
}

/// The swap on track `ti` of layer `li` in `b1`: `r` tells whether both
/// ids are in the track; then their timings are exchanged and the track
/// re-tiled, else the layers stay `b1`.
pub open spec fn swap_ran(b1: Seq<LayerView>, after: Seq<LayerView>, li: int, ti: int, source: Seq<char>, target: Seq<char>, r: bool) -> bool {
    let bs = b1[li].tracks[ti].blocks;
    &&& r == (first_block(bs, source) is Some && first_block(bs, target) is Some)
    &&& r ==> track_edited(b1, after, li, ti, swapped(bs, first_block(bs, source)->0, first_block(bs, target)->0))
    &&& !r ==> after == b1
}

/// The layer had no track for the property: it got a default one, and the
/// swap ran on that new track.
pub open spec fn swap_track_created(
    before: Seq<LayerView>,
    after: Seq<LayerView>,
    layer_id: Seq<char>,
    property_id: Seq<char>,
    source: Seq<char>,
    target: Seq<char>,
    r: bool,
) -> bool {
    let li = first_layer(before, layer_id)->0;
    exists|nt: TrackView| {
        &&& nt.property_id == property_id
        &&& #[trigger] is_default_blocks(nt.blocks, before[li].start_breath, before[li].length_breaths)
        &&& swap_ran(before.update(li, with_track_pushed(before[li], nt)), after, li, before[li].tracks.len() as int, source, target, r)
    }
}

proof fn lemma_swap_created(
    b0: Seq<LayerView>,
    b1: Seq<LayerView>,
    a: Seq<LayerView>,
    li: int,
    ti: int,
    layer_id: Seq<char>,
    property_id: Seq<char>,
    source: Seq<char>,
    target: Seq<char>,
    r: bool,
)
    requires
        first_layer(b0, layer_id) == Some(li),
        0 <= li < b0.len(),
        b1 == b0.update(li, LayerView { tracks: b0[li].tracks.push(b1[li].tracks[ti]), ..b0[li] }),
        ti == b0[li].tracks.len(),
        b1[li].tracks[ti].property_id == property_id,
        is_default_blocks(b1[li].tracks[ti].blocks, b0[li].start_breath, b0[li].length_breaths),
        swap_ran(b1, a, li, ti, source, target, r),
    ensures
        swap_track_created(b0, a, layer_id, property_id, source, target, r),
{
    let nt = b1[li].tracks[ti];
    assert(with_track_pushed(b0[li], nt) == b1[li]);
    assert(b0.update(li, with_track_pushed(b0[li], nt)) == b1);
    assert(is_default_blocks(nt.blocks, b0[li].start_breath, b0[li].length_breaths));
    assert(first_layer(b0, layer_id)->0 == li);
    assert(swap_ran(b0.update(li, with_track_pushed(b0[li], nt)), a, li, b0[li].tracks.len() as int, source, target, r));
    assert(nt.property_id == property_id);
}

impl SharedDocumentRuntime {
    /// Re-tiles `input` over layer `li`'s span into track `ti`.
    fn put_retiled(&mut self, li: usize, ti: usize, input: Vec<SharedDocumentPropertyBlock>)
        requires
            li < old(self).document.layers@.len(),
            ti < old(self).document.layers@[li as int].property_tracks@.len(),
            max_reach(input@) < u32::MAX,
        ensures
            track_edited(old(self).layers_spec(), final(self).layers_spec(), li as int, ti as int, input@),
            final(self).document.layers@.len() == old(self).document.layers@.len(),
            final(self).block_canvases == old(self).block_canvases,
            final(self).history_unchanged(&*old(self)),
            final(self).meta_unchanged(&*old(self)),
            final(self).wf() == old(self).wf(),
    {
        let ghost before = self.layers_spec();
        let ghost inv = input@;
        let start = self.document.layers[li].start_breath;
        let length = self.document.layers[li].length_breaths;
        let out = retile(input, start, length);
        let ghost outv = out@;
        put_track_blocks(&mut self.document.layers, li, ti, out);
        proof {
            reveal(track_edited);
            let after = self.layers_spec();
            assert(after[li as int].tracks[ti as int].blocks == outv);
            assert(after == before.update(li as int, with_blocks(before[li as int], ti as int, outv)));
        }
    }

    /// Exchanges the breath ranges of two blocks of a property track and
    /// re-tiles it; `false` when the two ids are the same or either block is
    /// missing. The track is created first when the layer has none.
    #[verifier::spinoff_prover]
    #[verifier::rlimit(100)]
    pub fn swap_property_blocks(&mut self, layer_id: &str, property_id: &str, source_block_id: &str, target_block_id: &str) -> (r: bool)
        requires
            old(self).wf(),
            reach_within(old(self).layers_spec(), u32::MAX - 2),
        ensures
            final(self).wf(),
            source_block_id@ == target_block_id@ || first_layer(old(self).layers_spec(), layer_id@) is None ==> !r
                && final(self).layers_spec() == old(self).layers_spec() && final(self).canvases() == old(self).canvases(),
            source_block_id@ != target_block_id@ ==> (track_at(old(self).layers_spec(), layer_id@, property_id@) matches Some((li, ti)) ==> {
                let bs = old(self).layers_spec()[li].tracks[ti].blocks;
                &&& r == (first_block(bs, source_block_id@) is Some && first_block(bs, target_block_id@) is Some)
                &&& r ==> track_edited(old(self).layers_spec(), final(self).layers_spec(), li, ti,
                    swapped(bs, first_block(bs, source_block_id@)->0, first_block(bs, target_block_id@)->0))
                &&& !r ==> final(self).layers_spec() == old(self).layers_spec()
            }),
            source_block_id@ != target_block_id@ && first_layer(old(self).layers_spec(), layer_id@) is Some
                && track_at(old(self).layers_spec(), layer_id@, property_id@) is None
                ==> swap_track_created(old(self).layers_spec(), final(self).layers_spec(), layer_id@, property_id@,
                    source_block_id@, target_block_id@, r),
            r ==> final(self).canvases() == covered_opt(old(self).canvases(), layer_id@, track_blocks(final(self).layers_spec(), layer_id@, "raster"@)),
            !r ==> final(self).canvases() == old(self).canvases(),
            tracks_tiled(old(self).layers_spec()) ==> tracks_tiled(final(self).layers_spec()),
            forall|b: int| b < u32::MAX && #[trigger] reach_within(old(self).layers_spec(), b) ==> reach_within(final(self).layers_spec(), b + 2),
            final(self).history_unchanged(&*old(self)),
            final(self).meta_unchanged(&*old(self)),
    {
        let ghost b0 = self.layers_spec();
        proof {
            assert forall|b: int| b < u32::MAX && #[trigger] reach_within(b0, b) implies reach_within(b0, b + 2) by {
                lemma_reach_mono(b0, b, b + 2);
            }
        }
        if str_eq(source_block_id, target_block_id) {
            return false;
        }
        proof {
            lemma_reach_mono(b0, u32::MAX - 2, u32::MAX - 1);
        }
        let (li, ti) = match ensure_track_in(&mut self.document.layers, layer_id, property_id) {
            Some(x) => x,
            None => {
                return false;
            },
        };
        let ghost b1 = self.layers_spec();
        proof {
            lemma_reach_mono(b0, u32::MAX - 2, u32::MAX - 1);
            lemma_ensured_tiled(b0, b1, li as int, ti as int);
            assert(reach_within(b1, u32::MAX - 1));
        }
        let mut blocks = take_track_blocks(&mut self.document.layers, li, ti);
        let ghost bs = blocks@;
        let ghost b_taken = self.layers_spec();
        let si = match find_block(&blocks, source_block_id) {
            Some(i) => i,
            None => {
                put_track_blocks(&mut self.document.layers, li, ti, blocks);
                proof {
                    assert(self.layers_spec() =~= b1) by {
                        assert(with_blocks(with_blocks(b1[li as int], ti as int, Seq::empty()), ti as int, bs) =~= b1[li as int]) by {
                            assert(with_blocks(with_blocks(b1[li as int], ti as int, Seq::empty()), ti as int, bs).tracks =~= b1[li as int].tracks);
                        }
                    }
                    assert forall|b: int| b < u32::MAX && #[trigger] reach_within(b0, b) implies reach_within(b1, b + 2) by {
                        lemma_reach_mono(b1, b + 1, b + 2);
                    }
                    if track_at(b0, layer_id@, property_id@) is None {
                        assert(swap_ran(b1, self.layers_spec(), li as int, ti as int, source_block_id@, target_block_id@, false));
                        lemma_swap_created(b0, b1, self.layers_spec(), li as int, ti as int, layer_id@, property_id@,
                            source_block_id@, target_block_id@, false);
                    }
                }
                return false;
            },
        };
        let tj = match find_block(&blocks, target_block_id) {
            Some(j) => j,
            None => {
                put_track_blocks(&mut self.document.layers, li, ti, blocks);
                proof {
                    assert(self.layers_spec() =~= b1) by {
                        assert(with_blocks(with_blocks(b1[li as int], ti as int, Seq::empty()), ti as int, bs) =~= b1[li as int]) by {
                            assert(with_blocks(with_blocks(b1[li as int], ti as int, Seq::empty()), ti as int, bs).tracks =~= b1[li as int].tracks);
                        }
                    }
                    assert forall|b: int| b < u32::MAX && #[trigger] reach_within(b0, b) implies reach_within(b1, b + 2) by {
                        lemma_reach_mono(b1, b + 1, b + 2);
                    }
                    if track_at(b0, layer_id@, property_id@) is None {
                        assert(swap_ran(b1, self.layers_spec(), li as int, ti as int, source_block_id@, target_block_id@, false));
                        lemma_swap_created(b0, b1, self.layers_spec(), li as int, ti as int, layer_id@, property_id@,
                            source_block_id@, target_block_id@, false);
                    }
                }
                return false;
            },
        };
        proof {
            assert(bs == b1[li as int].tracks[ti as int].blocks);
            lemma_track_reach(b1, li as int, ti as int, u32::MAX - 1);
            lemma_swapped_keeps(bs, si as int, tj as int, u32::MAX - 1);
            lemma_max_reach_le(swapped(bs, si as int, tj as int), u32::MAX - 1);
        }
        swap_timings(&mut blocks, si, tj);
        let ghost input = blocks@;
        self.put_retiled(li, ti, blocks);
        proof {
            let a = self.layers_spec();
            lemma_edit_from_taken(b1, b_taken, a, li as int, ti as int, input);
            assert forall|b: int| #[trigger] reach_within(b1, b) implies max_reach(input) <= b by {
                lemma_track_reach(b1, li as int, ti as int, b);
                lemma_swapped_keeps(bs, si as int, tj as int, b);
                lemma_max_reach_le(input, b);
            }
            if tracks_tiled(b1) {
                lemma_tiled_at(b1, li as int, ti as int);
                lemma_swapped_keeps(bs, si as int, tj as int, u32::MAX as int);
            }
            lemma_ensured_edit(b0, b1, a, li as int, ti as int, input, 0);
            if track_at(b0, layer_id@, property_id@) is None {
                assert(input == swapped(bs, first_block(bs, source_block_id@)->0, first_block(bs, target_block_id@)->0));
                assert(swap_ran(b1, a, li as int, ti as int, source_block_id@, target_block_id@, true));
                lemma_swap_created(b0, b1, a, li as int, ti as int, layer_id@, property_id@,
                    source_block_id@, target_block_id@, true);
            }
        }
        self.ensure_block_canvas_coverage(layer_id);
        true
    }
}

impl SharedDocumentRuntime {
    /// Reshapes one block by pushing its neighbors: the block takes the
    /// span the ripple gives it, the blocks it pushes take theirs, and the
    /// track re-tiles. The ripple is what the pushing span rule computed for
    /// the requested span; `false` when the layer or the block is missing.
    /// The track is created first when the layer has none.
    #[verifier::spinoff_prover]
    #[verifier::rlimit(100)]
    pub fn set_property_block_timing_pushed(&mut self, layer_id: &str, property_id: &str, block_id: &str, ripple: &BreathRipple) -> (r: bool)
        requires
            old(self).wf(),
            reach_within(old(self).layers_spec(), u32::MAX - 2),
            ripple_within(ripple.edited, ripple.shifted@, u32::MAX - 3),
            track_at(old(self).layers_spec(), layer_id@, property_id@) matches Some((li, ti))
                ==> shifts_in_range(ripple.shifted@, old(self).layers_spec()[li].tracks[ti].blocks.len() as int),
            track_at(old(self).layers_spec(), layer_id@, property_id@) is None ==> shifts_in_range(ripple.shifted@, 2),
        ensures
            final(self).wf(),
            first_layer(old(self).layers_spec(), layer_id@) is None ==> !r
                && final(self).layers_spec() == old(self).layers_spec() && final(self).canvases() == old(self).canvases(),
            track_at(old(self).layers_spec(), layer_id@, property_id@) matches Some((li, ti)) ==> {
                let bs = old(self).layers_spec()[li].tracks[ti].blocks;
                let idx = first_block(bs, block_id@);
                &&& r == (idx is Some)
                &&& r ==> track_edited(old(self).layers_spec(), final(self).layers_spec(), li, ti,
                    rippled(bs, idx->0, ripple.edited, ripple.shifted@))
                &&& !r ==> final(self).layers_spec() == old(self).layers_spec()
            },
            r ==> final(self).canvases() == covered_opt(old(self).canvases(), layer_id@, track_blocks(final(self).layers_spec(), layer_id@, "raster"@)),
            !r ==> final(self).canvases() == old(self).canvases(),
            tracks_tiled(old(self).layers_spec()) && ripple_positive(ripple.edited, ripple.shifted@) ==> tracks_tiled(final(self).layers_spec()),
            forall|b: int| b < u32::MAX - 3 && #[trigger] reach_within(old(self).layers_spec(), b) && ripple_within(ripple.edited, ripple.shifted@, b)
                ==> reach_within(final(self).layers_spec(), b + 2),
            final(self).history_unchanged(&*old(self)),
            final(self).meta_unchanged(&*old(self)),
    {
        let ghost b0 = self.layers_spec();
        proof {
            lemma_reach_mono(b0, u32::MAX - 2, u32::MAX - 1);
        }
        let (li, ti) = match ensure_track_in(&mut self.document.layers, layer_id, property_id) {
            Some(x) => x,
            None => {
                proof {
                    assert forall|b: int| b < u32::MAX - 3 && #[trigger] reach_within(b0, b) implies reach_within(b0, b + 2) by {
                        lemma_reach_mono(b0, b, b + 2);
                    }
                }
                return false;
            },
        };
        let ghost b1 = self.layers_spec();
        proof {
            lemma_ensured_tiled(b0, b1, li as int, ti as int);
        }
        let mut blocks = take_track_blocks(&mut self.document.layers, li, ti);
        let ghost bs = blocks@;
        let ghost b_taken = self.layers_spec();
        let idx = match find_block(&blocks, block_id) {
            Some(i) => i,
            None => {
                put_track_blocks(&mut self.document.layers, li, ti, blocks);
                proof {
                    lemma_put_back(b1, self.layers_spec(), li as int, ti as int);
                    if b1 != b0 {
                        assert(track_at(b0, layer_id@, property_id@) is None);
                    }
                    assert forall|b: int| b < u32::MAX - 3 && #[trigger] reach_within(b0, b) implies reach_within(b1, b + 2) by {
                        lemma_reach_mono(b1, b + 1, b + 2);
                    }
                }
                return false;
            },
        };
        proof {
            assert(bs == b1[li as int].tracks[ti as int].blocks);
            assert(shifts_in_range(ripple.shifted@, bs.len() as int)) by {
                if b1 != b0 {
                    assert(bs.len() == 2);
                } else {
                    assert(track_at(b0, layer_id@, property_id@) == Some((li as int, ti as int)));
                }
            }
            assert(max_reach(rippled(bs, idx as int, ripple.edited, ripple.shifted@)) <= u32::MAX - 1) by {
                lemma_track_reach(b1, li as int, ti as int, u32::MAX - 1);
                lemma_rippled_keeps(bs, idx as int, ripple.edited, ripple.shifted@, u32::MAX - 1);
                lemma_max_reach_le(rippled(bs, idx as int, ripple.edited, ripple.shifted@), u32::MAX - 1);
            }
        }
        apply_ripple(&mut blocks, idx, ripple);
        let ghost input = blocks@;
        self.put_retiled(li, ti, blocks);
        proof {
            let a = self.layers_spec();
            assert(track_edited(b1, a, li as int, ti as int, input)) by {
                lemma_edit_from_taken(b1, b_taken, a, li as int, ti as int, input);
            }
            assert(forall|b: int| b < u32::MAX - 3 && #[trigger] reach_within(b0, b) && ripple_within(ripple.edited, ripple.shifted@, b)
                ==> reach_within(a, b + 2)) by {
                lemma_pushed_reach(b0, b1, a, li as int, ti as int, bs, idx as int, ripple.edited, ripple.shifted@);
            }
            assert(tracks_tiled(b0) && ripple_positive(ripple.edited, ripple.shifted@) ==> tracks_tiled(a)) by {
                if tracks_tiled(b0) && ripple_positive(ripple.edited, ripple.shifted@) {
                    lemma_tiled_at(b1, li as int, ti as int);
                    lemma_track_reach(b1, li as int, ti as int, u32::MAX - 1);
                    lemma_rippled_keeps(bs, idx as int, ripple.edited, ripple.shifted@, u32::MAX - 1);
                    lemma_edit_tiled(b1, a, li as int, ti as int, input);
                }
            }
        }
        self.ensure_block_canvas_coverage(layer_id);
        true
    }
}

proof fn lemma_pushed_reach(
    b0: Seq<LayerView>,
    b1: Seq<LayerView>,
    a: Seq<LayerView>,
    li: int,
    ti: int,
    bs: Seq<SharedDocumentPropertyBlock>,
    idx: int,
    edited: (u32, u32),
    shifts: Seq<(usize, u32, u32)>,
)
    requires
        ensured_from(b0, b1, li, ti),
        reach_within(b0, u32::MAX - 1),
        forall|b: int| b < u32::MAX && #[trigger] reach_within(b0, b) ==> reach_within(b1, b + 1),
        bs == b1[li].tracks[ti].blocks,
        0 <= idx < bs.len(),
        shifts_in_range(shifts, bs.len() as int),
        track_edited(b1, a, li, ti, rippled(bs, idx, edited, shifts)),
    ensures
        forall|b: int| b < u32::MAX - 3 && #[trigger] reach_within(b0, b) && ripple_within(edited, shifts, b)
            ==> reach_within(a, b + 2),
{
    assert forall|b: int| b < u32::MAX - 3 && #[trigger] reach_within(b0, b) && ripple_within(edited, shifts, b)
        implies reach_within(a, b + 2) by {
        assert(reach_within(b1, b + 1));
        lemma_track_reach(b1, li, ti, b + 1);
        assert(ripple_within(edited, shifts, b + 1));
        lemma_rippled_keeps(bs, idx, edited, shifts, b + 1);
        let input = rippled(bs, idx, edited, shifts);
        lemma_max_reach_le(input, b + 1);
        reveal(track_edited);
        reveal(retiled_from);
        lemma_reach_update(b1, li, ti, a[li].tracks[ti].blocks, b + 1);
    }
}

/// The layer with one more track.
pub open spec fn with_track_pushed(layer: LayerView, nt: TrackView) -> LayerView {
    LayerView { tracks: layer.tracks.push(nt), ..layer }
}

/// The layer had no move track: it got a default one, which the drag keyed
/// and which then re-tiled.
pub open spec fn move_track_created(
    before: Seq<LayerView>,
    after: Seq<LayerView>,
    layer_id: Seq<char>,
    breath: u32,
    delta: MoveOffset,
    resolved: MoveOffset,
) -> bool {
    let li = first_layer(before, layer_id)->0;
    exists|nt: TrackView, input: Seq<SharedDocumentPropertyBlock>| {
        &&& nt.property_id == "move"@
        &&& is_default_blocks(nt.blocks, before[li].start_breath, before[li].length_breaths)
        &&& #[trigger] move_keyed(input, nt.blocks, breath, delta, resolved, before[li].start_breath, before[li].length_breaths)
        &&& track_edited(before.update(li, with_track_pushed(before[li], nt)), after, li, before[li].tracks.len() as int, input)
    }
}

impl SharedDocumentRuntime {
    /// Adds a drag's offset to the layer's move track at a breath (see
    /// `move_keyed` for the keyframe rules) and re-tiles the track. The move
    /// track is created first when the layer has none. `resolved` is the
    /// offset the move interpolation gives at the breath. `false`, and
    /// nothing changes, when the delta is zero or the layer is missing.
    #[verifier::spinoff_prover]
    #[verifier::rlimit(100)]
    pub fn add_move_offset(&mut self, layer_id: &str, breath: u32, delta: MoveOffset, resolved: MoveOffset) -> (changed: bool)
        requires
            old(self).wf(),
            reach_within(old(self).layers_spec(), u32::MAX - 2),
            blocks_fit(old(self).layers_spec()),
            breath < u32::MAX - 3,
            sum_fits(resolved, delta),
            track_at(old(self).layers_spec(), layer_id@, "move"@) matches Some((li, ti))
                ==> sum_fits(current_offset(old(self).layers_spec()[li].tracks[ti].blocks, breath, resolved), delta),
        ensures
            final(self).wf(),
            changed == (delta != zero_offset() && first_layer(old(self).layers_spec(), layer_id@) is Some),
            !changed ==> final(self).layers_spec() == old(self).layers_spec() && final(self).canvases() == old(self).canvases(),
            changed ==> (track_at(old(self).layers_spec(), layer_id@, "move"@) matches Some((li, ti)) ==> exists|input: Seq<SharedDocumentPropertyBlock>|
                move_keyed(input, old(self).layers_spec()[li].tracks[ti].blocks, breath, delta, resolved,
                    old(self).layers_spec()[li].start_breath, old(self).layers_spec()[li].length_breaths)
                && #[trigger] track_edited(old(self).layers_spec(), final(self).layers_spec(), li, ti, input)),
            changed && track_at(old(self).layers_spec(), layer_id@, "move"@) is None
                ==> move_track_created(old(self).layers_spec(), final(self).layers_spec(), layer_id@, breath, delta, resolved),
            changed ==> final(self).canvases() == covered_opt(old(self).canvases(), layer_id@, track_blocks(final(self).layers_spec(), layer_id@, "raster"@)),
            tracks_tiled(old(self).layers_spec()) ==> tracks_tiled(final(self).layers_spec()),
            forall|b: int| b < u32::MAX - 3 && #[trigger] reach_within(old(self).layers_spec(), b) && breath + 1 <= b
                ==> reach_within(final(self).layers_spec(), b + 2),
            final(self).history_unchanged(&*old(self)),
            final(self).meta_unchanged(&*old(self)),
    {
        let ghost b0 = self.layers_spec();
        proof {
            lemma_reach_mono(b0, u32::MAX - 2, u32::MAX - 1);
            assert forall|b: int| b < u32::MAX - 3 && #[trigger] reach_within(b0, b) implies reach_within(b0, b + 2) by {
                lemma_reach_mono(b0, b, b + 2);
            }
        }
        if delta.x == 0 && delta.y == 0 && delta.z == 0 {
            return false;
        }
        let (li, ti) = match ensure_track_in(&mut self.document.layers, layer_id, "move") {
            Some(x) => x,
            None => {
                return false;
            },
        };
        let ghost b1 = self.layers_spec();
        proof {
            lemma_ensured_tiled(b0, b1, li as int, ti as int);
        }
        let span_start = self.document.layers[li].start_breath;
        let span_length = self.document.layers[li].length_breaths;
        let mut blocks = take_track_blocks(&mut self.document.layers, li, ti);
        let ghost bs = blocks@;
        let ghost b_taken = self.layers_spec();
        proof {
            assert(bs == b1[li as int].tracks[ti as int].blocks);
            assert(span_start == b1[li as int].start_breath && span_length == b1[li as int].length_breaths);
            if track_at(b0, layer_id@, "move"@) is None {
                assert(is_default_blocks(bs, b0[li as int].start_breath, b0[li as int].length_breaths));
                assert forall|k: int| 0 <= k < bs.len() && !(#[trigger] bs[k]).is_blank implies bs[k].value is None by {
                    if k == 1 {
                        assert(bs[1].is_blank);
                    }
                }
                lemma_current_without_values(bs, breath, resolved, delta);
            } else {
                assert(b1 == b0);
            }
            lemma_track_reach(b1, li as int, ti as int, u32::MAX - 1);
            lemma_span_start(b1, li as int, u32::MAX - 1);
            assert(bs.len() < u32::MAX - 1) by {
                if b1 != b0 {
                } else {
                    assert(b0[li as int].tracks[ti as int].blocks.len() < u32::MAX - 2);
                }
            }
        }
        key_move_offset(&mut blocks, breath, delta, resolved, span_start, span_length);
        let ghost input = blocks@;
        proof {
            lemma_move_keyed_keeps(input, bs, breath, delta, resolved, span_start, span_length, u32::MAX - 1);
            lemma_max_reach_le(input, u32::MAX - 1);
        }
        self.put_retiled(li, ti, blocks);
        proof {
            let a = self.layers_spec();
            lemma_edit_from_taken(b1, b_taken, a, li as int, ti as int, input);
            lemma_moved_reach(b0, b1, a, li as int, ti as int, bs, breath, delta, resolved, input);
            if tracks_tiled(b0) {
                lemma_tiled_at(b1, li as int, ti as int);
                lemma_move_keyed_keeps(input, bs, breath, delta, resolved, span_start, span_length, u32::MAX - 1);
                lemma_edit_tiled(b1, a, li as int, ti as int, input);
            }
            if track_at(b0, layer_id@, "move"@) is Some {
                assert(track_edited(b0, a, li as int, ti as int, input));
            } else {
                let nt = b1[li as int].tracks[ti as int];
                assert(b1 == b0.update(li as int, LayerView { tracks: b0[li as int].tracks.push(nt), ..b0[li as int] }));
                assert(first_layer(b0, layer_id@) == Some(li as int));
                assert(track_edited(b0.update(li as int, with_track_pushed(b0[li as int], nt)), a,
                    li as int, b0[li as int].tracks.len() as int, input));
                assert(move_track_created(b0, a, layer_id@, breath, delta, resolved));
            }
        }
        self.ensure_block_canvas_coverage(layer_id);
        true
    }
}

proof fn lemma_moved_reach(
    b0: Seq<LayerView>,
    b1: Seq<LayerView>,
    a: Seq<LayerView>,
    li: int,
    ti: int,
    bs: Seq<SharedDocumentPropertyBlock>,
    breath: u32,
    delta: MoveOffset,
    resolved: MoveOffset,
    input: Seq<SharedDocumentPropertyBlock>,
)
    requires
        ensured_from(b0, b1, li, ti),
        forall|b: int| b < u32::MAX && #[trigger] reach_within(b0, b) ==> reach_within(b1, b + 1),
        bs == b1[li].tracks[ti].blocks,
        move_keyed(input, bs, breath, delta, resolved, b1[li].start_breath, b1[li].length_breaths),
        track_edited(b1, a, li, ti, input),
    ensures
        forall|b: int| b < u32::MAX - 3 && #[trigger] reach_within(b0, b) && breath + 1 <= b ==> reach_within(a, b + 2),
{
    assert forall|b: int| b < u32::MAX - 3 && #[trigger] reach_within(b0, b) && breath + 1 <= b implies reach_within(a, b + 2) by {
        assert(reach_within(b1, b + 1));
        lemma_track_reach(b1, li, ti, b + 1);
        lemma_move_keyed_keeps(input, bs, breath, delta, resolved, b1[li].start_breath, b1[li].length_breaths, b + 1);
        lemma_max_reach_le(input, b + 1);
        reveal(track_edited);
        reveal(retiled_from);
        lemma_reach_update(b1, li, ti, a[li].tracks[ti].blocks, b + 1);
    }
}

proof fn lemma_put_back(b1: Seq<LayerView>, after: Seq<LayerView>, li: int, ti: int)
    requires
        0 <= li < b1.len(),
        0 <= ti < b1[li].tracks.len(),
        after == b1.update(li, with_blocks(b1[li], ti, Seq::empty())).update(li,
            with_blocks(b1.update(li, with_blocks(b1[li], ti, Seq::empty()))[li], ti, b1[li].tracks[ti].blocks)),
    ensures
        after == b1,
{
    let e = with_blocks(b1[li], ti, Seq::empty());
    assert(with_blocks(e, ti, b1[li].tracks[ti].blocks) =~= b1[li]) by {
        assert(with_blocks(e, ti, b1[li].tracks[ti].blocks).tracks =~= b1[li].tracks);
    }
    assert(after =~= b1);
}

/// The layers with one track's blocks replaced, no re-tile.
pub open spec fn track_set(before: Seq<LayerView>, after: Seq<LayerView>, li: int, ti: int, blocks: Seq<SharedDocumentPropertyBlock>) -> bool {
    after == before.update(li, with_blocks(before[li], ti, blocks))
}

/// The merge target of the empty at `idx`: the left solid neighbor first
/// (or the right one first when `prefer_left` is false), else the other.
pub open spec fn merge_target(s: Seq<SharedDocumentPropertyBlock>, idx: int, prefer_left: bool) -> Option<int> {
    let left = if idx > 0 && !s[idx - 1].is_blank { Some(idx - 1) } else { None };
    let right = if idx + 1 < s.len() && !s[idx + 1].is_blank { Some(idx + 1) } else { None };
    if prefer_left {
        if left is Some { left } else { right }
    } else {
        if right is Some { right } else { left }
    }
}

/// Merging the empty at `idx` grows the neighbor on the asked side when
/// that neighbor is solid, and the other solid neighbor otherwise: with
/// `prefer_left` false and a solid block right of the empty, that right
/// block now starts where the empty started and spans both, keeps its id
/// and content, and every block left of the empty is unchanged; mirrored
/// for `prefer_left` true and a solid left block, which keeps its start
/// and spans both. With no solid neighbor nothing merges. Which side is
/// asked only matters when both neighbors are solid.
pub proof fn law_merge_grows_the_asked_neighbor(s: Seq<SharedDocumentPropertyBlock>, idx: int, prefer_left: bool)
    requires
        0 <= idx < s.len(),
        s[idx].is_blank,
        idx > 0 ==> s[idx - 1].length_breaths + s[idx].length_breaths <= u32::MAX,
        idx + 1 < s.len() ==> s[idx + 1].length_breaths + s[idx].length_breaths <= u32::MAX,
    ensures
        ({
            let left_solid = idx > 0 && !s[idx - 1].is_blank;
            let right_solid = idx + 1 < s.len() && !s[idx + 1].is_blank;
            let t = merge_target(s, idx, prefer_left);
            &&& (t is None <==> !left_solid && !right_solid)
            &&& (t is Some && t->0 == idx + 1 <==> right_solid && (!prefer_left || !left_solid))
            &&& (t is Some && t->0 == idx - 1 <==> left_solid && (prefer_left || !right_solid))
            &&& (!(left_solid && right_solid) ==> t == merge_target(s, idx, !prefer_left))
            &&& (right_solid && (!prefer_left || !left_solid) ==> {
                let m = merged(s, idx, t->0);
                &&& m.len() == s.len() - 1
                &&& m[idx].id == s[idx + 1].id
                &&& !m[idx].is_blank
                &&& m[idx].value == s[idx + 1].value
                &&& m[idx].interpretation == s[idx + 1].interpretation
                &&& m[idx].start_breath == s[idx].start_breath
                &&& m[idx].length_breaths == s[idx].length_breaths + s[idx + 1].length_breaths
                &&& forall|k: int| 0 <= k < idx ==> #[trigger] m[k] == s[k]
                &&& forall|k: int| idx < k < m.len() ==> #[trigger] m[k] == s[k + 1]
            })
            &&& (left_solid && (prefer_left || !right_solid) ==> {
                let m = merged(s, idx, t->0);
                &&& m.len() == s.len() - 1
                &&& m[idx - 1].id == s[idx - 1].id
                &&& !m[idx - 1].is_blank
                &&& m[idx - 1].value == s[idx - 1].value
                &&& m[idx - 1].interpretation == s[idx - 1].interpretation
                &&& m[idx - 1].start_breath == s[idx - 1].start_breath
                &&& m[idx - 1].length_breaths == s[idx - 1].length_breaths + s[idx].length_breaths
                &&& forall|k: int| 0 <= k < idx - 1 ==> #[trigger] m[k] == s[k]
                &&& forall|k: int| idx <= k < m.len() ==> #[trigger] m[k] == s[k + 1]
            })
        }),
{
}

impl SharedDocumentRuntime {
    /// Turns a block blank, discarding its painted content, and re-tiles
    /// the track; `false` when the layer or the block is missing.
    #[verifier::spinoff_prover]
    #[verifier::rlimit(100)]
    pub fn blank_property_block(&mut self, layer_id: &str, property_id: &str, block_id: &str) -> (r: bool)
        requires
            old(self).wf(),
            reach_within(old(self).layers_spec(), u32::MAX - 2),
        ensures
            final(self).wf(),
            first_layer(old(self).layers_spec(), layer_id@) is None ==> !r
                && final(self).layers_spec() == old(self).layers_spec() && final(self).canvases() == old(self).canvases(),
            track_at(old(self).layers_spec(), layer_id@, property_id@) matches Some((li, ti)) ==> {
                let bs = old(self).layers_spec()[li].tracks[ti].blocks;
                &&& r == (first_block(bs, block_id@) is Some)
                &&& r ==> track_edited(old(self).layers_spec(), final(self).layers_spec(), li, ti, blanked(bs, first_block(bs, block_id@)->0))
                &&& !r ==> final(self).layers_spec() == old(self).layers_spec()
            },
            r ==> final(self).canvases() == covered_opt(old(self).canvases().insert((layer_id@, block_id@), Map::empty()), layer_id@,
                track_blocks(final(self).layers_spec(), layer_id@, "raster"@)),
            !r ==> final(self).canvases() == old(self).canvases(),
            tracks_tiled(old(self).layers_spec()) ==> tracks_tiled(final(self).layers_spec()),
            forall|b: int| b < u32::MAX && #[trigger] reach_within(old(self).layers_spec(), b) ==> reach_within(final(self).layers_spec(), b + 2),
            final(self).history_unchanged(&*old(self)),
            final(self).meta_unchanged(&*old(self)),
    {
        let ghost b0 = self.layers_spec();
        proof {
            assert forall|b: int| b < u32::MAX && #[trigger] reach_within(b0, b) implies reach_within(b0, b + 2) by {
                lemma_reach_mono(b0, b, b + 2);
            }
            lemma_reach_mono(b0, u32::MAX - 2, u32::MAX - 1);
        }
        let (li, ti) = match ensure_track_in(&mut self.document.layers, layer_id, property_id) {
            Some(x) => x,
            None => {
                return false;
            },
        };
        let ghost b1 = self.layers_spec();
        proof {
            lemma_ensured_tiled(b0, b1, li as int, ti as int);
        }
        let mut blocks = take_track_blocks(&mut self.document.layers, li, ti);
        let ghost bs = blocks@;
        let ghost b_taken = self.layers_spec();
        let bi = match find_block(&blocks, block_id) {
            Some(i) => i,
            None => {
                put_track_blocks(&mut self.document.layers, li, ti, blocks);
                proof {
                    lemma_put_back(b1, self.layers_spec(), li as int, ti as int);
                    assert forall|b: int| b < u32::MAX && #[trigger] reach_within(b0, b) implies reach_within(b1, b + 2) by {
                        lemma_reach_mono(b1, b + 1, b + 2);
                    }
                }
                return false;
            },
        };
        proof {
            lemma_track_reach(b1, li as int, ti as int, u32::MAX - 1);
            lemma_blanked_keeps(bs, bi as int, u32::MAX - 1);
            lemma_max_reach_le(blanked(bs, bi as int), u32::MAX - 1);
        }
        set_blank(&mut blocks, bi);
        let ghost input = blocks@;
        self.put_retiled(li, ti, blocks);
        proof {
            let a = self.layers_spec();
            lemma_edit_from_taken(b1, b_taken, a, li as int, ti as int, input);
            assert forall|b: int| #[trigger] reach_within(b1, b) implies max_reach(input) <= b by {
                lemma_track_reach(b1, li as int, ti as int, b);
                lemma_blanked_keeps(bs, bi as int, b);
                lemma_max_reach_le(input, b);
            }
            if tracks_tiled(b1) {
                lemma_tiled_at(b1, li as int, ti as int);
                lemma_blanked_keeps(bs, bi as int, u32::MAX - 1);
            }
            lemma_ensured_edit(b0, b1, a, li as int, ti as int, input, 0);
        }
        let i = canvas_entry(&mut self.block_canvases, layer_id, block_id);
        set_canvas_at(&mut self.block_canvases, i, Canvas::new());
        proof {
            assert(self.canvases() =~= old(self).canvases().insert((layer_id@, block_id@), Map::empty()));
        }
        self.ensure_block_canvas_coverage(layer_id);
        true
    }

    /// Cycles an empty's interpolation mode (or, with `ease` set, one of its
    /// ease strengths: `ease_out` picks the left end) in place.
    #[verifier::spinoff_prover]
    #[verifier::rlimit(100)]
    fn cycle_block(&mut self, layer_id: &str, property_id: &str, block_id: &str, ease: bool, ease_out: bool) -> (r: bool)
        requires
            old(self).wf(),
            reach_within(old(self).layers_spec(), u32::MAX - 2),
        ensures
            final(self).wf(),
            first_layer(old(self).layers_spec(), layer_id@) is None ==> !r && final(self).layers_spec() == old(self).layers_spec(),
            track_at(old(self).layers_spec(), layer_id@, property_id@) matches Some((li, ti)) ==> {
                let bs = old(self).layers_spec()[li].tracks[ti].blocks;
                &&& (first_block(bs, block_id@) is None ==> !r && final(self).layers_spec() == old(self).layers_spec())
                &&& (first_block(bs, block_id@) matches Some(i) ==> {
                    &&& !ease ==> r == bs[i].is_blank
                    &&& ease ==> r == (bs[i].is_blank && mode_is_ease_adjustable_spec(block_mode(bs[i])))
                    &&& !r ==> final(self).layers_spec() == old(self).layers_spec()
                    &&& r ==> track_set(old(self).layers_spec(), final(self).layers_spec(), li, ti, final(self).layers_spec()[li].tracks[ti].blocks)
                    &&& r ==> mode_cycled(bs, final(self).layers_spec()[li].tracks[ti].blocks, i, ease, ease_out)
                })
            },
            final(self).canvases() == old(self).canvases(),
            tracks_tiled(old(self).layers_spec()) ==> tracks_tiled(final(self).layers_spec()),
            forall|b: int| b < u32::MAX && #[trigger] reach_within(old(self).layers_spec(), b) ==> reach_within(final(self).layers_spec(), b + 1),
            final(self).history_unchanged(&*old(self)),
            final(self).meta_unchanged(&*old(self)),
    {
        let ghost b0 = self.layers_spec();
        proof {
            lemma_reach_mono(b0, u32::MAX - 2, u32::MAX - 1);
        }
        let (li, ti) = match ensure_track_in(&mut self.document.layers, layer_id, property_id) {
            Some(x) => x,
            None => {
                proof {
                    assert forall|b: int| b < u32::MAX && #[trigger] reach_within(b0, b) implies reach_within(b0, b + 1) by {
                        lemma_reach_mono(b0, b, b + 1);
                    }
                }
                return false;
            },
        };
        let ghost b1 = self.layers_spec();
        proof {
            lemma_ensured_tiled(b0, b1, li as int, ti as int);
        }
        let mut blocks = take_track_blocks(&mut self.document.layers, li, ti);
        let ghost bs = blocks@;
        let r = match find_block(&blocks, block_id) {
            Some(i) => {
                if ease {
                    cycle_ease_at(&mut blocks, i, ease_out)
                } else {
                    cycle_mode_at(&mut blocks, i)
                }
            },
            None => false,
        };
        let ghost nbs = blocks@;
        put_track_blocks(&mut self.document.layers, li, ti, blocks);
        proof {
            let a = self.layers_spec();
            let e = with_blocks(b1[li as int], ti as int, Seq::empty());
            assert(with_blocks(e, ti as int, nbs) =~= with_blocks(b1[li as int], ti as int, nbs)) by {
                assert(with_blocks(e, ti as int, nbs).tracks =~= with_blocks(b1[li as int], ti as int, nbs).tracks);
            }
            assert(a =~= b1.update(li as int, with_blocks(b1[li as int], ti as int, nbs)));
            if !r {
                assert(nbs == bs);
                lemma_put_back(b1, a, li as int, ti as int);
            } else {
                let i = first_block(bs, block_id@)->0;
                lemma_cycled_timing(bs, nbs, i, ease, ease_out);
            }
            lemma_cycle_post(b0, b1, a, li as int, ti as int, bs, nbs, r, ease, ease_out, first_block(bs, block_id@));
        }
        r
    }

    /// Cycles an empty block's interpolation mode through the modes its
    /// place allows; `false` when the layer or block is missing or the block
    /// is solid.
    pub fn cycle_property_block_interp_mode(&mut self, layer_id: &str, property_id: &str, block_id: &str) -> (r: bool)
        requires
            old(self).wf(),
            reach_within(old(self).layers_spec(), u32::MAX - 2),
        ensures
            final(self).wf(),
            first_layer(old(self).layers_spec(), layer_id@) is None ==> !r && final(self).layers_spec() == old(self).layers_spec(),
            track_at(old(self).layers_spec(), layer_id@, property_id@) matches Some((li, ti)) ==> {
                let bs = old(self).layers_spec()[li].tracks[ti].blocks;
                &&& (first_block(bs, block_id@) is None ==> !r && final(self).layers_spec() == old(self).layers_spec())
                &&& (first_block(bs, block_id@) matches Some(i) ==> {
                    &&& r == bs[i].is_blank
                    &&& !r ==> final(self).layers_spec() == old(self).layers_spec()
                    &&& r ==> track_set(old(self).layers_spec(), final(self).layers_spec(), li, ti, final(self).layers_spec()[li].tracks[ti].blocks)
                    &&& r ==> mode_cycled(bs, final(self).layers_spec()[li].tracks[ti].blocks, i, false, false)
                })
            },
            final(self).canvases() == old(self).canvases(),
            tracks_tiled(old(self).layers_spec()) ==> tracks_tiled(final(self).layers_spec()),
            forall|b: int| b < u32::MAX && #[trigger] reach_within(old(self).layers_spec(), b) ==> reach_within(final(self).layers_spec(), b + 1),
            final(self).history_unchanged(&*old(self)),
            final(self).meta_unchanged(&*old(self)),
    {
        self.cycle_block(layer_id, property_id, block_id, false, false)
    }

    /// Cycles an empty block's ease-out strength (left end); `false` when
    /// the layer or block is missing, the block is solid, or its mode does
    /// not use the ease ends.
    pub fn cycle_property_block_ease_out(&mut self, layer_id: &str, property_id: &str, block_id: &str) -> (r: bool)
        requires
            old(self).wf(),
            reach_within(old(self).layers_spec(), u32::MAX - 2),
        ensures
            final(self).wf(),
            first_layer(old(self).layers_spec(), layer_id@) is None ==> !r && final(self).layers_spec() == old(self).layers_spec(),
            track_at(old(self).layers_spec(), layer_id@, property_id@) matches Some((li, ti)) ==> {
                let bs = old(self).layers_spec()[li].tracks[ti].blocks;
                &&& (first_block(bs, block_id@) is None ==> !r && final(self).layers_spec() == old(self).layers_spec())
                &&& (first_block(bs, block_id@) matches Some(i) ==> {
                    &&& r == (bs[i].is_blank && mode_is_ease_adjustable_spec(block_mode(bs[i])))
                    &&& !r ==> final(self).layers_spec() == old(self).layers_spec()
                    &&& r ==> track_set(old(self).layers_spec(), final(self).layers_spec(), li, ti, final(self).layers_spec()[li].tracks[ti].blocks)
                    &&& r ==> mode_cycled(bs, final(self).layers_spec()[li].tracks[ti].blocks, i, true, true)
                })
            },
            final(self).canvases() == old(self).canvases(),
            tracks_tiled(old(self).layers_spec()) ==> tracks_tiled(final(self).layers_spec()),
            forall|b: int| b < u32::MAX && #[trigger] reach_within(old(self).layers_spec(), b) ==> reach_within(final(self).layers_spec(), b + 1),
            final(self).history_unchanged(&*old(self)),
            final(self).meta_unchanged(&*old(self)),
    {
        self.cycle_block(layer_id, property_id, block_id, true, true)
    }

    /// Cycles an empty block's ease-in strength (right end), the ease-out
    /// mirror.
    pub fn cycle_property_block_ease_in(&mut self, layer_id: &str, property_id: &str, block_id: &str) -> (r: bool)
        requires
            old(self).wf(),
            reach_within(old(self).layers_spec(), u32::MAX - 2),
        ensures
            final(self).wf(),
            first_layer(old(self).layers_spec(), layer_id@) is None ==> !r && final(self).layers_spec() == old(self).layers_spec(),
            track_at(old(self).layers_spec(), layer_id@, property_id@) matches Some((li, ti)) ==> {
                let bs = old(self).layers_spec()[li].tracks[ti].blocks;
                &&& (first_block(bs, block_id@) is None ==> !r && final(self).layers_spec() == old(self).layers_spec())
                &&& (first_block(bs, block_id@) matches Some(i) ==> {
                    &&& r == (bs[i].is_blank && mode_is_ease_adjustable_spec(block_mode(bs[i])))
                    &&& !r ==> final(self).layers_spec() == old(self).layers_spec()
                    &&& r ==> track_set(old(self).layers_spec(), final(self).layers_spec(), li, ti, final(self).layers_spec()[li].tracks[ti].blocks)
                    &&& r ==> mode_cycled(bs, final(self).layers_spec()[li].tracks[ti].blocks, i, true, false)
                })
            },
            final(self).canvases() == old(self).canvases(),
            tracks_tiled(old(self).layers_spec()) ==> tracks_tiled(final(self).layers_spec()),
            forall|b: int| b < u32::MAX && #[trigger] reach_within(old(self).layers_spec(), b) ==> reach_within(final(self).layers_spec(), b + 1),
            final(self).history_unchanged(&*old(self)),
            final(self).meta_unchanged(&*old(self)),
    {
        self.cycle_block(layer_id, property_id, block_id, true, false)
    }
}

/// `nbs` is `bs` with the empty at `i` cycled: its mode (the ease strength
/// of one end when `ease`) moves on one step, nothing else changes.
pub open spec fn mode_cycled(bs: Seq<SharedDocumentPropertyBlock>, nbs: Seq<SharedDocumentPropertyBlock>, i: int, ease: bool, ease_out: bool) -> bool {
    &&& nbs.len() == bs.len()
    &&& forall|k: int| 0 <= k < bs.len() && k != i ==> #[trigger] nbs[k] == bs[k]
    &&& if ease {
        nbs[i] == if ease_out {
            SharedDocumentPropertyBlock { ease_out_percent: Some(next_ease_percent_spec(bs[i].ease_out_percent)), ..bs[i] }
        } else {
            SharedDocumentPropertyBlock { ease_in_percent: Some(next_ease_percent_spec(bs[i].ease_in_percent)), ..bs[i] }
        }
    } else {
        let m = cycled_mode(block_mode(bs[i]), i == 0, i + 1 == bs.len());
        &&& nbs[i].interpretation is Some && nbs[i].interpretation->0@ == mode_name_spec(m)
        &&& nbs[i].id == bs[i].id && nbs[i].start_breath == bs[i].start_breath && nbs[i].length_breaths == bs[i].length_breaths
        &&& nbs[i].is_blank == bs[i].is_blank && nbs[i].value == bs[i].value
        &&& (mode_is_ease_adjustable_spec(m) ==> nbs[i].ease_out_percent == bs[i].ease_out_percent && nbs[i].ease_in_percent == bs[i].ease_in_percent)
        &&& (!mode_is_ease_adjustable_spec(m) ==> nbs[i].ease_out_percent is None && nbs[i].ease_in_percent is None)
        &&& block_mode(nbs[i]) == m
    }
}

proof fn lemma_cycled_timing(bs: Seq<SharedDocumentPropertyBlock>, nbs: Seq<SharedDocumentPropertyBlock>, i: int, ease: bool, ease_out: bool)
    requires
        0 <= i < bs.len(),
        mode_cycled(bs, nbs, i, ease, ease_out),
    ensures
        forall|k: int| 0 <= k < bs.len() ==> block_reach(#[trigger] nbs[k]) == block_reach(bs[k]),
{
    assert forall|k: int| 0 <= k < bs.len() implies block_reach(#[trigger] nbs[k]) == block_reach(bs[k]) by {
        if k != i {
            assert(nbs[k] == bs[k]);
        }
    }
}

proof fn lemma_cycle_post(
    b0: Seq<LayerView>,
    b1: Seq<LayerView>,
    a: Seq<LayerView>,
    li: int,
    ti: int,
    bs: Seq<SharedDocumentPropertyBlock>,
    nbs: Seq<SharedDocumentPropertyBlock>,
    r: bool,
    ease: bool,
    ease_out: bool,
    found: Option<int>,
)
    requires
        ensured_from(b0, b1, li, ti),
        reach_within(b0, u32::MAX - 1),
        forall|b: int| b < u32::MAX && #[trigger] reach_within(b0, b) ==> reach_within(b1, b + 1),
        bs == b1[li].tracks[ti].blocks,
        a == b1.update(li, with_blocks(b1[li], ti, nbs)),
        !r ==> nbs == bs,
        r ==> (found matches Some(i) && 0 <= i < bs.len() && bs[i].is_blank && mode_cycled(bs, nbs, i, ease, ease_out)),
    ensures
        tracks_tiled(b0) ==> tracks_tiled(a),
        forall|b: int| b < u32::MAX && #[trigger] reach_within(b0, b) ==> reach_within(a, b + 1),
{
    lemma_ensured_tiled(b0, b1, li, ti);
    if r {
        let i = found->0;
        lemma_cycled_timing(bs, nbs, i, ease, ease_out);
        if tracks_tiled(b1) {
            lemma_tiled_at(b1, li, ti);
            if ease {
                lemma_ease_keeps_tiling(bs, nbs, i, ease_out);
            } else {
                lemma_cycle_mode_keeps_tiling(bs, nbs, i);
            }
            lemma_tiled_update(b1, li, ti, nbs);
        }
        assert forall|b: int| b < u32::MAX && #[trigger] reach_within(b0, b) implies reach_within(a, b + 1) by {
            assert(reach_within(b1, b + 1));
            reveal(reach_within);
            assert forall|l: int, t: int, k: int|
                0 <= l < a.len() && 0 <= t < a[l].tracks.len() && 0 <= k < a[l].tracks[t].blocks.len()
                implies block_reach(#[trigger] a[l].tracks[t].blocks[k]) <= b + 1 by {
                if l == li && t == ti {
                    assert(block_reach(b1[l].tracks[t].blocks[k]) <= b + 1);
                } else if l == li {
                    assert(a[l].tracks[t] == b1[l].tracks[t]);
                    assert(block_reach(b1[l].tracks[t].blocks[k]) <= b + 1);
                } else {
                    assert(a[l] == b1[l]);
                    assert(block_reach(b1[l].tracks[t].blocks[k]) <= b + 1);
                }
            }
            assert forall|l: int| 0 <= l < a.len() implies span_end_spec((#[trigger] a[l]).start_breath, a[l].length_breaths) <= b + 1 by {
                assert(a[l].start_breath == b1[l].start_breath && a[l].length_breaths == b1[l].length_breaths);
            }
        }
    } else {
        assert(a =~= b1) by {
            assert(with_blocks(b1[li], ti, nbs) =~= b1[li]) by {
                assert(with_blocks(b1[li], ti, nbs).tracks =~= b1[li].tracks);
            }
        }
        if tracks_tiled(b1) {
        }
    }
}

proof fn lemma_ease_keeps_tiling(s: Seq<SharedDocumentPropertyBlock>, t: Seq<SharedDocumentPropertyBlock>, i: int, ease_out: bool)
    requires
        is_binary_tiling(s),
        0 <= i < s.len(),
        s[i].is_blank,
        mode_cycled(s, t, i, true, ease_out),
    ensures
        is_binary_tiling(t),
{
    assert forall|k: int| 0 <= k < t.len() implies #[trigger] t[k].id == s[k].id && t[k].start_breath == s[k].start_breath
        && t[k].length_breaths == s[k].length_breaths && t[k].is_blank == s[k].is_blank && block_mode(t[k]) == block_mode(s[k]) by {
        if k != i {
            assert(t[k] == s[k]);
        }
    }
    assert forall|k: int| 0 < k < t.len() implies #[trigger] t[k].start_breath == block_end(t[k - 1]) by {
        assert(s[k].start_breath == block_end(s[k - 1]));
    }
    assert forall|k: int| 0 < k < t.len() implies !(t[k - 1].is_blank && #[trigger] t[k].is_blank) by {
        assert(!(s[k - 1].is_blank && s[k].is_blank));
    }
    assert forall|k: int| 0 <= k < t.len() implies #[trigger] t[k].length_breaths >= 1 by {
        assert(s[k].length_breaths >= 1);
    }
    assert forall|a: int, b: int| 0 <= a < b < t.len() implies #[trigger] t[a].id@ != #[trigger] t[b].id@ by {
        assert(s[a].id@ != s[b].id@);
    }
    assert forall|k: int| 0 <= k < t.len() implies {
        &&& (block_mode(#[trigger] t[k]) == InterpMode::LoopOut ==> k == t.len() - 1 && t[k].is_blank)
        &&& (block_mode(t[k]) == InterpMode::LoopIn ==> k == 0 && t[k].is_blank)
    } by {
        assert(block_mode(t[k]) == block_mode(s[k]));
    }
    assert forall|k: int| 0 <= k < t.len() && !(#[trigger] t[k]).is_blank implies {
        &&& t[k].interpretation is None
        &&& t[k].ease_out_percent is None
        &&& t[k].ease_in_percent is None
    } by {
        assert(k != i);
        assert(t[k] == s[k]);
    }
    assert(t.last().is_blank) by {
        assert(s.last().is_blank);
    }
}

/// Every track holds fewer blocks than the largest count.
pub open spec fn blocks_fit(layers: Seq<LayerView>) -> bool {
    forall|li: int, ti: int| 0 <= li < layers.len() && 0 <= ti < layers[li].tracks.len()
        ==> (#[trigger] layers[li].tracks[ti]).blocks.len() < u32::MAX - 2
}

impl SharedDocumentRuntime {
    /// Merges an empty block into its solid neighbor (the left one first,
    /// or the right one first when `prefer_left` is false): the neighbor
    /// grows over the empty, which disappears with its canvas, and the track
    /// re-tiles. `false` when the layer or block is missing, the block is
    /// solid, or no neighbor is solid.
    #[verifier::spinoff_prover]
    #[verifier::rlimit(100)]
    pub fn merge_empty_property_block(&mut self, layer_id: &str, property_id: &str, block_id: &str, prefer_left: bool) -> (r: bool)
        requires
            old(self).wf(),
            reach_within(old(self).layers_spec(), u32::MAX - 2),
            tracks_tiled(old(self).layers_spec()),
        ensures
            final(self).wf(),
            first_layer(old(self).layers_spec(), layer_id@) is None ==> !r
                && final(self).layers_spec() == old(self).layers_spec() && final(self).canvases() == old(self).canvases(),
            track_at(old(self).layers_spec(), layer_id@, property_id@) matches Some((li, ti)) ==> {
                let bs = old(self).layers_spec()[li].tracks[ti].blocks;
                let idx = first_block(bs, block_id@);
                &&& r == (idx is Some && bs[idx->0].is_blank && merge_target(bs, idx->0, prefer_left) is Some)
                &&& r ==> track_edited(old(self).layers_spec(), final(self).layers_spec(), li, ti,
                    merged(bs, idx->0, merge_target(bs, idx->0, prefer_left)->0))
                &&& !r ==> final(self).layers_spec() == old(self).layers_spec()
            },
            r ==> final(self).canvases() == covered_opt(old(self).canvases().remove((layer_id@, block_id@)), layer_id@,
                track_blocks(final(self).layers_spec(), layer_id@, "raster"@)),
            !r ==> final(self).canvases() == old(self).canvases(),
            tracks_tiled(final(self).layers_spec()),
            forall|b: int| b < u32::MAX && #[trigger] reach_within(old(self).layers_spec(), b) ==> reach_within(final(self).layers_spec(), b + 2),
            final(self).history_unchanged(&*old(self)),
            final(self).meta_unchanged(&*old(self)),
    {
        let ghost b0 = self.layers_spec();
        proof {
            assert forall|b: int| b < u32::MAX && #[trigger] reach_within(b0, b) implies reach_within(b0, b + 2) by {
                lemma_reach_mono(b0, b, b + 2);
            }
            lemma_reach_mono(b0, u32::MAX - 2, u32::MAX - 1);
        }
        let (li, ti) = match ensure_track_in(&mut self.document.layers, layer_id, property_id) {
            Some(x) => x,
            None => {
                return false;
            },
        };
        let ghost b1 = self.layers_spec();
        proof {
            lemma_ensured_tiled(b0, b1, li as int, ti as int);
            lemma_tiled_at(b1, li as int, ti as int);
        }
        let mut blocks = take_track_blocks(&mut self.document.layers, li, ti);
        let ghost bs = blocks@;
        let ghost b_taken = self.layers_spec();
        let idx = match find_block(&blocks, block_id) {
            Some(i) => i,
            None => {
                put_track_blocks(&mut self.document.layers, li, ti, blocks);
                proof {
                    lemma_put_back(b1, self.layers_spec(), li as int, ti as int);
                    assert forall|b: int| b < u32::MAX && #[trigger] reach_within(b0, b) implies reach_within(b1, b + 2) by {
                        lemma_reach_mono(b1, b + 1, b + 2);
                    }
                }
                return false;
            },
        };
        let n = blocks.len();
        let left_ok = idx > 0 && !blocks[idx - 1].is_blank;
        let right_ok = idx + 1 < n && !blocks[idx + 1].is_blank;
        let target = if !blocks[idx].is_blank {
            None
        } else if prefer_left {
            if left_ok { Some(idx - 1) } else if right_ok { Some(idx + 1) } else { None }
        } else {
            if right_ok { Some(idx + 1) } else if left_ok { Some(idx - 1) } else { None }
        };
        let t = match target {
            Some(t) => t,
            None => {
                put_track_blocks(&mut self.document.layers, li, ti, blocks);
                proof {
                    lemma_put_back(b1, self.layers_spec(), li as int, ti as int);
                    assert forall|b: int| b < u32::MAX && #[trigger] reach_within(b0, b) implies reach_within(b1, b + 2) by {
                        lemma_reach_mono(b1, b + 1, b + 2);
                    }
                }
                return false;
            },
        };
        proof {
            assert(Some(t as int) == merge_target(bs, idx as int, prefer_left));
            lemma_track_reach(b1, li as int, ti as int, u32::MAX - 1);
            lemma_merged_keeps(bs, idx as int, t as int, u32::MAX - 1);
            lemma_max_reach_le(merged(bs, idx as int, t as int), u32::MAX - 1);
        }
        merge_into(&mut blocks, idx, t);
        let ghost input = blocks@;
        self.put_retiled(li, ti, blocks);
        proof {
            let a = self.layers_spec();
            lemma_edit_from_taken(b1, b_taken, a, li as int, ti as int, input);
            assert forall|b: int| #[trigger] reach_within(b1, b) implies max_reach(input) <= b by {
                lemma_track_reach(b1, li as int, ti as int, b);
                if b < u32::MAX {
                    lemma_merged_keeps(bs, idx as int, t as int, b);
                    lemma_max_reach_le(input, b);
                } else {
                    lemma_reach_mono(b1, u32::MAX - 1, b);
                    lemma_merged_keeps(bs, idx as int, t as int, u32::MAX - 1);
                    lemma_max_reach_le(input, u32::MAX - 1);
                }
            }
            lemma_ensured_edit(b0, b1, a, li as int, ti as int, input, 0);
        }
        remove_canvas(&mut self.block_canvases, layer_id, block_id);
        self.ensure_block_canvas_coverage(layer_id);
        true
    }

    /// Splits a solid block at `split`: the left half keeps the id and the
    /// breaths before the split, a new right half with a fresh id and an
    /// empty canvas takes the rest. `None` when the layer or block is
    /// missing, the block is blank or one breath long, or the split is not
    /// strictly inside it.
    #[verifier::spinoff_prover]
    #[verifier::rlimit(100)]
    pub fn split_property_block(&mut self, layer_id: &str, property_id: &str, block_id: &str, split_breath: u32) -> (r: Option<String>)
        requires
            old(self).wf(),
            reach_within(old(self).layers_spec(), u32::MAX - 2),
            blocks_fit(old(self).layers_spec()),
        ensures
            final(self).wf(),
            first_layer(old(self).layers_spec(), layer_id@) is None ==> r is None
                && final(self).layers_spec() == old(self).layers_spec() && final(self).canvases() == old(self).canvases(),
            track_at(old(self).layers_spec(), layer_id@, property_id@) matches Some((li, ti)) ==> {
                let bs = old(self).layers_spec()[li].tracks[ti].blocks;
                let idx = first_block(bs, block_id@);
                &&& (r is Some <==> idx is Some && split_allowed(bs, idx->0, split_breath))
                &&& r is Some ==> {
                    let nbs = final(self).layers_spec()[li].tracks[ti].blocks;
                    &&& track_set(old(self).layers_spec(), final(self).layers_spec(), li, ti, nbs)
                    &&& nbs == split_blocks(bs, idx->0, split_breath, nbs[idx->0 + 1].id)
                    &&& nbs[idx->0 + 1].id@ == r->0@
                    &&& forall|k: int| 0 <= k < bs.len() ==> (#[trigger] bs[k]).id@ != r->0@
                    &&& is_next_block_id(bs, r->0@)
                }
                &&& r is None ==> final(self).layers_spec() == old(self).layers_spec()
            },
            r is Some ==> final(self).canvases() == old(self).canvases().insert((layer_id@, r->0@), Map::empty()),
            r is None ==> final(self).canvases() == old(self).canvases(),
            tracks_tiled(old(self).layers_spec()) ==> tracks_tiled(final(self).layers_spec()),
            forall|b: int| b < u32::MAX && #[trigger] reach_within(old(self).layers_spec(), b) ==> reach_within(final(self).layers_spec(), b + 1),
            final(self).history_unchanged(&*old(self)),
            final(self).meta_unchanged(&*old(self)),
    {
        let ghost b0 = self.layers_spec();
        proof {
            assert forall|b: int| b < u32::MAX && #[trigger] reach_within(b0, b) implies reach_within(b0, b + 1) by {
                lemma_reach_mono(b0, b, b + 1);
            }
            lemma_reach_mono(b0, u32::MAX - 2, u32::MAX - 1);
        }
        let (li, ti) = match ensure_track_in(&mut self.document.layers, layer_id, property_id) {
            Some(x) => x,
            None => {
                return None;
            },
        };
        let ghost b1 = self.layers_spec();
        proof {
            lemma_ensured_tiled(b0, b1, li as int, ti as int);
            lemma_fit_after_ensure_any(b0, b1, li as int, ti as int);
        }
        let mut blocks = take_track_blocks(&mut self.document.layers, li, ti);
        let ghost bs = blocks@;
        let idx = match find_block(&blocks, block_id) {
            Some(i) => i,
            None => {
                put_track_blocks(&mut self.document.layers, li, ti, blocks);
                proof {
                    lemma_put_back(b1, self.layers_spec(), li as int, ti as int);
                }
                return None;
            },
        };
        proof {
            lemma_track_reach(b1, li as int, ti as int, u32::MAX - 1);
        }
        let r = split_at(&mut blocks, idx, split_breath);
        let ghost nbs = blocks@;
        put_track_blocks(&mut self.document.layers, li, ti, blocks);
        proof {
            let a = self.layers_spec();
            let e = with_blocks(b1[li as int], ti as int, Seq::empty());
            assert(with_blocks(e, ti as int, nbs) =~= with_blocks(b1[li as int], ti as int, nbs)) by {
                assert(with_blocks(e, ti as int, nbs).tracks =~= with_blocks(b1[li as int], ti as int, nbs).tracks);
            }
            assert(a =~= b1.update(li as int, with_blocks(b1[li as int], ti as int, nbs)));
            if r is None {
                lemma_put_back(b1, a, li as int, ti as int);
            } else {
                lemma_split_post(b0, b1, a, li as int, ti as int, bs, idx as int, split_breath, nbs);
            }
        }
        match r {
            Some(id) => {
                let i = canvas_entry(&mut self.block_canvases, layer_id, id.as_str());
                set_canvas_at(&mut self.block_canvases, i, Canvas::new());
                proof {
                    assert(self.canvases() =~= old(self).canvases().insert((layer_id@, id@), Map::empty()));
                }
                Some(id)
            },
            None => None,
        }
    }
}

proof fn lemma_fit_after_ensure_any(b0: Seq<LayerView>, b1: Seq<LayerView>, li: int, ti: int)
    requires
        ensured_from(b0, b1, li, ti),
        blocks_fit(b0),
    ensures
        b1[li].tracks[ti].blocks.len() < u32::MAX - 2,
{
    if b1 == b0 {
        assert(b0[li].tracks[ti].blocks.len() < u32::MAX - 2);
    }
}

proof fn lemma_split_post(
    b0: Seq<LayerView>,
    b1: Seq<LayerView>,
    a: Seq<LayerView>,
    li: int,
    ti: int,
    bs: Seq<SharedDocumentPropertyBlock>,
    i: int,
    split: u32,
    nbs: Seq<SharedDocumentPropertyBlock>,
)
    requires
        ensured_from(b0, b1, li, ti),
        reach_within(b0, u32::MAX - 1),
        forall|b: int| b < u32::MAX && #[trigger] reach_within(b0, b) ==> reach_within(b1, b + 1),
        bs == b1[li].tracks[ti].blocks,
        0 <= i < bs.len(),
        split_allowed(bs, i, split),
        nbs == split_blocks(bs, i, split, nbs[i + 1].id),
        forall|k: int| 0 <= k < bs.len() ==> (#[trigger] bs[k]).id@ != nbs[i + 1].id@,
        a == b1.update(li, with_blocks(b1[li], ti, nbs)),
    ensures
        tracks_tiled(b0) ==> tracks_tiled(a),
        forall|b: int| b < u32::MAX && #[trigger] reach_within(b0, b) ==> reach_within(a, b + 1),
{
    lemma_ensured_tiled(b0, b1, li, ti);
    if tracks_tiled(b1) {
        lemma_tiled_at(b1, li, ti);
        lemma_split_keeps_tiling(bs, i, split, nbs[i + 1].id);
        lemma_tiled_update(b1, li, ti, nbs);
    }
    assert forall|b: int| b < u32::MAX && #[trigger] reach_within(b0, b) implies reach_within(a, b + 1) by {
        assert(reach_within(b1, b + 1));
        lemma_track_reach(b1, li, ti, b + 1);
        lemma_max_reach_le(bs, b + 1);
        lemma_split_reach(bs, i, split, nbs[i + 1].id);
        assert forall|k: int| 0 <= k < nbs.len() implies block_reach(#[trigger] nbs[k]) <= b + 1 by {}
        lemma_max_reach_le(nbs, b + 1);
        lemma_reach_set(b1, li, ti, nbs, b + 1);
    }
}

proof fn lemma_split_reach(s: Seq<SharedDocumentPropertyBlock>, i: int, split: u32, id: String)
    requires
        0 <= i < s.len(),
        split_allowed(s, i, split),
    ensures
        forall|k: int| 0 <= k < split_blocks(s, i, split, id).len() ==> block_reach(#[trigger] split_blocks(s, i, split, id)[k]) <= max_reach(s),
{
    let t = split_blocks(s, i, split, id);
    lemma_max_reach_bounds(s);
    assert forall|k: int| 0 <= k < t.len() implies block_reach(#[trigger] t[k]) <= max_reach(s) by {
        if k < i {
            assert(t[k] == s[k]);
        } else if k > i + 1 {
            assert(t[k] == s[k - 1]);
        } else {
            assert(block_reach(s[i]) <= max_reach(s));
        }
    }
}

proof fn lemma_reach_set(layers: Seq<LayerView>, li: int, ti: int, nbs: Seq<SharedDocumentPropertyBlock>, b: int)
    requires
        reach_within(layers, b),
        0 <= li < layers.len(),
        0 <= ti < layers[li].tracks.len(),
        max_reach(nbs) <= b,
    ensures
        reach_within(layers.update(li, with_blocks(layers[li], ti, nbs)), b),
{
    reveal(reach_within);
    let a = layers.update(li, with_blocks(layers[li], ti, nbs));
    lemma_max_reach_bounds(nbs);
    assert forall|l: int, t: int, k: int|
        0 <= l < a.len() && 0 <= t < a[l].tracks.len() && 0 <= k < a[l].tracks[t].blocks.len()
        implies block_reach(#[trigger] a[l].tracks[t].blocks[k]) <= b by {
        if l == li && t == ti {
            assert(a[l].tracks[t].blocks == nbs);
        } else if l == li {
            assert(a[l].tracks[t] == layers[l].tracks[t]);
            assert(block_reach(layers[l].tracks[t].blocks[k]) <= b);
        } else {
            assert(a[l] == layers[l]);
            assert(block_reach(layers[l].tracks[t].blocks[k]) <= b);
        }
    }
    assert forall|l: int| 0 <= l < a.len() implies span_end_spec((#[trigger] a[l]).start_breath, a[l].length_breaths) <= b by {
        assert(a[l].start_breath == layers[l].start_breath && a[l].length_breaths == layers[l].length_breaths);
    }
}

impl SharedDocumentRuntime {
    /// Duplicates a block right after itself: every block starting at or
    /// after the source's end moves right by its length, the copy takes a
    /// fresh id and an empty canvas, and the track re-tiles. `None` when the
    /// layer, track or block is missing; nothing is created then.
    #[verifier::spinoff_prover]
    #[verifier::rlimit(100)]
    pub fn duplicate_property_block(&mut self, layer_id: &str, property_id: &str, block_id: &str) -> (r: Option<String>)
        requires
            old(self).wf(),
            reach_within(old(self).layers_spec(), u32::MAX - 2),
            blocks_fit(old(self).layers_spec()),
            track_at(old(self).layers_spec(), layer_id@, property_id@) matches Some((li, ti)) ==> {
                let bs = old(self).layers_spec()[li].tracks[ti].blocks;
                first_block(bs, block_id@) matches Some(i) ==> max_reach(bs) + bs[i].length_breaths <= u32::MAX - 2
            },
        ensures
            final(self).wf(),
            track_at(old(self).layers_spec(), layer_id@, property_id@) is None ==> r is None
                && final(self).layers_spec() == old(self).layers_spec() && final(self).canvases() == old(self).canvases(),
            track_at(old(self).layers_spec(), layer_id@, property_id@) matches Some((li, ti)) ==> {
                let bs = old(self).layers_spec()[li].tracks[ti].blocks;
                let idx = first_block(bs, block_id@);
                &&& (r is Some <==> idx is Some)
                &&& r is Some ==> exists|id: String| id@ == r->0@
                    && #[trigger] track_edited(old(self).layers_spec(), final(self).layers_spec(), li, ti, duplicated(bs, idx->0, id))
                &&& r is Some ==> forall|k: int| 0 <= k < bs.len() ==> (#[trigger] bs[k]).id@ != r->0@
                &&& r is Some ==> is_next_block_id(bs, r->0@)
                &&& r is None ==> final(self).layers_spec() == old(self).layers_spec()
            },
            r is Some ==> final(self).canvases() == covered_opt(old(self).canvases().insert((layer_id@, r->0@), Map::empty()), layer_id@,
                track_blocks(final(self).layers_spec(), layer_id@, "raster"@)),
            r is None ==> final(self).canvases() == old(self).canvases(),
            tracks_tiled(old(self).layers_spec()) ==> tracks_tiled(final(self).layers_spec()),
            forall|b: int| b < u32::MAX / 2 && #[trigger] reach_within(old(self).layers_spec(), b) ==> reach_within(final(self).layers_spec(), 2 * b + 1),
            final(self).history_unchanged(&*old(self)),
            final(self).meta_unchanged(&*old(self)),
    {
        let ghost b0 = self.layers_spec();
        proof {
            lemma_reach_double(b0);
        }
        let li = match layer_index_in(&self.document.layers, layer_id) {
            Some(li) => li,
            None => {
                return None;
            },
        };
        let ti = match track_index_in(&self.document.layers, li, property_id) {
            Some(ti) => ti,
            None => {
                return None;
            },
        };
        proof {
            assert(track_at(b0, layer_id@, property_id@) == Some((li as int, ti as int)));
            lemma_track_reach(b0, li as int, ti as int, u32::MAX - 2);
            assert(b0[li as int].tracks[ti as int].blocks.len() < u32::MAX - 2);
        }
        let mut blocks = take_track_blocks(&mut self.document.layers, li, ti);
        let ghost bs = blocks@;
        let ghost b_taken = self.layers_spec();
        let idx = match find_block(&blocks, block_id) {
            Some(i) => i,
            None => {
                put_track_blocks(&mut self.document.layers, li, ti, blocks);
                proof {
                    lemma_put_back(b0, self.layers_spec(), li as int, ti as int);
                }
                return None;
            },
        };
        proof {
            assert(first_block(bs, block_id@) == Some(idx as int));
            lemma_max_reach_bounds(bs);
        }
        let new_id = duplicate_at(&mut blocks, idx);
        let ghost input = blocks@;
        proof {
            lemma_duplicated_keeps(bs, idx as int, input[idx + 1].id);
            lemma_max_reach_le(input, u32::MAX - 1);
        }
        self.put_retiled(li, ti, blocks);
        proof {
            lemma_dup_post(b0, b_taken, self.layers_spec(), li as int, ti as int, bs, idx as int, input);
        }
        let i = canvas_entry(&mut self.block_canvases, layer_id, new_id.as_str());
        set_canvas_at(&mut self.block_canvases, i, Canvas::new());
        proof {
            assert(self.canvases() =~= old(self).canvases().insert((layer_id@, new_id@), Map::empty()));
        }
        self.ensure_block_canvas_coverage(layer_id);
        proof {
            let a = self.layers_spec();
            assert(track_edited(b0, a, li as int, ti as int, duplicated(bs, idx as int, input[idx + 1].id)));
            assert(track_at(b0, layer_id@, property_id@) == Some((li as int, ti as int)));
            assert(bs == b0[li as int].tracks[ti as int].blocks);
            assert(first_block(bs, block_id@) == Some(idx as int));
            assert(new_id@ == input[idx + 1].id@);
            assert(forall|k: int| 0 <= k < bs.len() ==> (#[trigger] bs[k]).id@ != new_id@);
            let tr = track_at(old(self).layers_spec(), layer_id@, property_id@)->0;
            assert(tr.0 == li as int && tr.1 == ti as int);
            assert(old(self).layers_spec() == b0);
            let w = input[idx + 1].id;
            assert(w@ == new_id@);
            assert(track_edited(old(self).layers_spec(), self.layers_spec(), tr.0, tr.1,
                duplicated(old(self).layers_spec()[tr.0].tracks[tr.1].blocks, first_block(old(self).layers_spec()[tr.0].tracks[tr.1].blocks, block_id@)->0, w)));
        }
        Some(new_id)
    }
}

proof fn lemma_reach_double(layers: Seq<LayerView>)
    ensures
        forall|b: int| b < u32::MAX / 2 && #[trigger] reach_within(layers, b) ==> reach_within(layers, 2 * b + 1),
{
    assert forall|b: int| b < u32::MAX / 2 && #[trigger] reach_within(layers, b) implies reach_within(layers, 2 * b + 1) by {
        if b >= -1 {
            lemma_reach_mono(layers, b, 2 * b + 1);
        } else {
            reveal(reach_within);
            if layers.len() > 0 {
                assert(span_end_spec(layers[0].start_breath, layers[0].length_breaths) <= b);
            }
        }
    }
}

proof fn lemma_dup_post(
    b0: Seq<LayerView>,
    b_taken: Seq<LayerView>,
    a: Seq<LayerView>,
    li: int,
    ti: int,
    bs: Seq<SharedDocumentPropertyBlock>,
    idx: int,
    input: Seq<SharedDocumentPropertyBlock>,
)
    requires
        0 <= li < b0.len(),
        0 <= ti < b0[li].tracks.len(),
        bs == b0[li].tracks[ti].blocks,
        b_taken == b0.update(li, with_blocks(b0[li], ti, Seq::empty())),
        0 <= idx < bs.len(),
        forall|k: int| 0 <= k < bs.len() ==> (#[trigger] bs[k]).id@ != input[idx + 1].id@,
        input == duplicated(bs, idx, input[idx + 1].id),
        track_edited(b_taken, a, li, ti, input),
    ensures
        track_edited(b0, a, li, ti, duplicated(bs, idx, input[idx + 1].id)),
        forall|b: int| b < u32::MAX / 2 && #[trigger] reach_within(b0, b) ==> reach_within(a, 2 * b + 1),
        tracks_tiled(b0) ==> tracks_tiled(a),
{
    lemma_duplicated_keeps(bs, idx, input[idx + 1].id);
    lemma_edit_from_taken(b0, b_taken, a, li, ti, input);
    assert forall|b: int| #[trigger] reach_within(b0, b) implies max_reach(input) <= b + b by {
        lemma_track_reach(b0, li, ti, b);
        lemma_max_reach_le(bs, b);
        lemma_max_reach_bounds(bs);
        assert forall|k: int| 0 <= k < input.len() implies block_reach(#[trigger] input[k]) <= b + b by {}
        lemma_max_reach_le(input, b + b);
    }
    lemma_dup_reach(b0, a, li, ti, input);
    if tracks_tiled(b0) {
        lemma_tiled_at(b0, li, ti);
        lemma_edit_tiled(b0, a, li, ti, input);
    }
}

proof fn lemma_dup_reach(b0: Seq<LayerView>, a: Seq<LayerView>, li: int, ti: int, input: Seq<SharedDocumentPropertyBlock>)
    requires
        0 <= li < b0.len(),
        0 <= ti < b0[li].tracks.len(),
        track_edited(b0, a, li, ti, input),
        forall|b: int| #[trigger] reach_within(b0, b) ==> max_reach(input) <= b + b,
    ensures
        forall|b: int| b < u32::MAX / 2 && #[trigger] reach_within(b0, b) ==> reach_within(a, 2 * b + 1),
{
    reveal(retiled_from);
    reveal(track_edited);
    assert forall|b: int| b < u32::MAX / 2 && #[trigger] reach_within(b0, b) implies reach_within(a, 2 * b + 1) by {
        lemma_track_reach(b0, li, ti, b);
        lemma_reach_mono(b0, b, 2 * b);
        lemma_reach_update(b0, li, ti, a[li].tracks[ti].blocks, 2 * b);
    }
}

/// The layer view with new timing and every track re-tiled over it.
pub open spec fn timing_set(before: LayerView, after: LayerView, start_breath: u32, length_breaths: u32) -> bool {
    &&& after.layer_id == before.layer_id
    &&& after.name == before.name
    &&& after.visible == before.visible
    &&& after.locked == before.locked
    &&& after.start_breath == start_breath
    &&& after.length_breaths == length_breaths
    &&& after.tracks.len() == before.tracks.len()
    &&& forall|ti: int| 0 <= ti < after.tracks.len() ==> {
        &&& (#[trigger] after.tracks[ti]).property_id == before.tracks[ti].property_id
        &&& retiled_from(after.tracks[ti].blocks, before.tracks[ti].blocks, start_breath, length_breaths)
    }
}

impl SharedDocumentRuntime {
    /// Sets a layer's timing bar (a zero length counts as one breath) and
    /// re-tiles every track of the layer over the new span; `false` when
    /// there is no such layer.
    #[verifier::spinoff_prover]
    #[verifier::rlimit(100)]
    pub fn set_layer_timing(&mut self, layer_id: &str, start_breath: u32, length_breaths: u32) -> (r: bool)
        requires
            old(self).wf(),
            reach_within(old(self).layers_spec(), u32::MAX - 1),
        ensures
            final(self).wf(),
            r == (first_layer(old(self).layers_spec(), layer_id@) is Some),
            !r ==> final(self).layers_spec() == old(self).layers_spec() && final(self).canvases() == old(self).canvases(),
            r ==> {
                let li = first_layer(old(self).layers_spec(), layer_id@)->0;
                &&& final(self).layers_spec().len() == old(self).layers_spec().len()
                &&& forall|k: int| 0 <= k < old(self).layers_spec().len() && k != li ==> #[trigger] final(self).layers_spec()[k] == old(self).layers_spec()[k]
                &&& timing_set(old(self).layers_spec()[li], final(self).layers_spec()[li], start_breath,
                    if length_breaths == 0 { 1u32 } else { length_breaths })
            },
            r ==> final(self).canvases() == covered_opt(old(self).canvases(), layer_id@, track_blocks(final(self).layers_spec(), layer_id@, "raster"@)),
            tracks_tiled(old(self).layers_spec()) && start_breath < u32::MAX ==> tracks_tiled(final(self).layers_spec()),
            final(self).history_unchanged(&*old(self)),
            final(self).meta_unchanged(&*old(self)),
    {
        let li = match layer_index_in(&self.document.layers, layer_id) {
            Some(li) => li,
            None => {
                return false;
            },
        };
        let length = if length_breaths == 0 { 1 } else { length_breaths };
        let ghost b0 = self.layers_spec();
        let ghost l0 = b0[li as int];
        let mut layer = self.document.layers.remove(li);
        layer.start_breath = start_breath;
        layer.length_breaths = length;
        self.document.layers.insert(li, layer);
        let m = self.document.layers[li].property_tracks.len();
        proof {
            assert(self.layers_spec() =~= b0.update(li as int, LayerView { start_breath, length_breaths: length, ..l0 }));
        }
        let mut ti: usize = 0;
        while ti < m
            invariant
                li < self.document.layers@.len(),
                self.document.layers@.len() == b0.len(),
                m == l0.tracks.len(),
                ti <= m,
                reach_within(b0, u32::MAX - 1),
                l0 == b0[li as int],
                self.document.layers@[li as int].property_tracks@.len() == m,
                forall|k: int| 0 <= k < b0.len() && k != li ==> #[trigger] self.layers_spec()[k] == b0[k],
                ({
                    let cur = self.layers_spec()[li as int];
                    &&& cur.layer_id == l0.layer_id && cur.name == l0.name && cur.visible == l0.visible && cur.locked == l0.locked
                    &&& cur.start_breath == start_breath && cur.length_breaths == length
                    &&& cur.tracks.len() == m
                    &&& forall|t: int| 0 <= t < ti ==> {
                        &&& (#[trigger] cur.tracks[t]).property_id == l0.tracks[t].property_id
                        &&& retiled_from(cur.tracks[t].blocks, l0.tracks[t].blocks, start_breath, length)
                    }
                    &&& forall|t: int| ti <= t < m ==> #[trigger] cur.tracks[t] == l0.tracks[t]
                }),
                self.block_canvases == old(self).block_canvases,
                self.history_unchanged(&*old(self)),
                self.meta_unchanged(&*old(self)),
                self.wf() == old(self).wf(),
            decreases m - ti,
        {
            let ghost before = self.layers_spec();
            let blocks = take_track_blocks(&mut self.document.layers, li, ti);
            proof {
                assert(blocks@ == l0.tracks[ti as int].blocks);
                lemma_track_reach(b0, li as int, ti as int, u32::MAX - 1);
                lemma_max_reach_le(blocks@, u32::MAX - 1);
            }
            let out = retile(blocks, start_breath, length);
            put_track_blocks(&mut self.document.layers, li, ti, out);
            proof {
                let cur = self.layers_spec()[li as int];
                assert forall|t: int| 0 <= t < ti + 1 implies {
                    &&& (#[trigger] cur.tracks[t]).property_id == l0.tracks[t].property_id
                    &&& retiled_from(cur.tracks[t].blocks, l0.tracks[t].blocks, start_breath, length)
                } by {
                    if t < ti {
                        assert(cur.tracks[t] == before[li as int].tracks[t]);
                    }
                }
                assert forall|k: int| 0 <= k < b0.len() && k != li implies #[trigger] self.layers_spec()[k] == b0[k] by {
                    assert(self.layers_spec()[k] == before[k]);
                }
            }
            ti = ti + 1;
        }
        proof {
            lemma_first_layer_range(b0, layer_id@);
            if tracks_tiled(b0) && start_breath < u32::MAX {
                lemma_timing_tiled(b0, self.layers_spec(), li as int, start_breath, length);
            }
        }
        self.ensure_block_canvas_coverage(layer_id);
        true
    }
}

proof fn lemma_timing_tiled(b0: Seq<LayerView>, a: Seq<LayerView>, li: int, start: u32, length: u32)
    requires
        tracks_tiled(b0),
        start < u32::MAX,
        0 <= li < b0.len(),
        a.len() == b0.len(),
        forall|k: int| 0 <= k < b0.len() && k != li ==> #[trigger] a[k] == b0[k],
        timing_set(b0[li], a[li], start, length),
    ensures
        tracks_tiled(a),
{
    reveal(tracks_tiled);
    reveal(retiled_from);
    assert forall|l: int| 0 <= l < a.len() && (#[trigger] a[l]).tracks.len() > 0 implies a[l].start_breath < u32::MAX by {
        if l != li {
            assert(a[l] == b0[l]);
        }
    }
    assert forall|l: int, t: int| 0 <= l < a.len() && 0 <= t < a[l].tracks.len()
        implies #[trigger] is_binary_tiling(a[l].tracks[t].blocks) by {
        if l == li {
            assert(is_binary_tiling(b0[l].tracks[t].blocks));
            assert(a[l].tracks[t] == a[li].tracks[t]);
        } else {
            assert(a[l] == b0[l]);
            assert(is_binary_tiling(b0[l].tracks[t].blocks));
        }
    }
}


/// The canvases after a destructive edit of a layer's track: the `dropped`
/// blocks' canvases go, the `added` blocks get empty ones.
pub open spec fn canvases_cut(
    m: Map<(Seq<char>, Seq<char>), Map<CellPoint, PaintedCell>>,
    layer_id: Seq<char>,
    dropped: Seq<Seq<char>>,
    added: Seq<Seq<char>>,
) -> Map<(Seq<char>, Seq<char>), Map<CellPoint, PaintedCell>> {
    let kept = m.remove_keys(Set::new(|k: (Seq<char>, Seq<char>)| k.0 == layer_id && dropped.contains(k.1)));
    Map::new(
        |k: (Seq<char>, Seq<char>)| kept.contains_key(k) || (k.0 == layer_id && added.contains(k.1)),
        |k: (Seq<char>, Seq<char>)| if k.0 == layer_id && added.contains(k.1) { Map::empty() } else { kept[k] },
    )
}

/// Track `ti` of layer `li` went through a destructive edit of its block
/// `idx`, and the layer's canvases followed: the removed blocks' canvases
/// went, the split-off blocks got empty ones, and the raster blocks are
/// covered.
pub open spec fn destructive_done(
    before: Seq<LayerView>,
    after: Seq<LayerView>,
    canvases_before: Map<(Seq<char>, Seq<char>), Map<CellPoint, PaintedCell>>,
    canvases_after: Map<(Seq<char>, Seq<char>), Map<CellPoint, PaintedCell>>,
    li: int,
    ti: int,
    idx: int,
    layer_id: Seq<char>,
    edited: (u32, u32),
    trims: Seq<(usize, u32, u32)>,
    removed: Seq<usize>,
) -> bool {
    exists|input: Seq<SharedDocumentPropertyBlock>, dropped: Seq<Seq<char>>, added: Seq<Seq<char>>| {
        &&& cut_applied(before[li].tracks[ti].blocks, idx, edited, trims, removed, input, dropped, added)
        &&& track_edited(before, after, li, ti, input)
        &&& canvases_after == covered_opt(canvases_cut(canvases_before, layer_id, dropped, added),
            layer_id, track_blocks(after, layer_id, "raster"@))
    }
}

/// A destructive timing edit keeps the edited track a binary tiling: when
/// the track was one (contiguous from its first block, lengths positive,
/// ids distinct, no two blanks touching, ending blank), its layer starts
/// before the last breath, and the cut leaves every block it trims at
/// least one breath long, the track the edit leaves is one again, from the
/// layer's start, so no gap or tail blank takes a surviving block's id.
/// Other layers are untouched, and every block of the layer's raster track
/// has a canvas, an empty one when the block is blank.
pub proof fn law_destructive_keeps_the_track_tiled(
    before: Seq<LayerView>,
    after: Seq<LayerView>,
    canvases_before: Map<(Seq<char>, Seq<char>), Map<CellPoint, PaintedCell>>,
    canvases_after: Map<(Seq<char>, Seq<char>), Map<CellPoint, PaintedCell>>,
    li: int,
    ti: int,
    idx: int,
    layer_id: Seq<char>,
    edited: (u32, u32),
    trims: Seq<(usize, u32, u32)>,
    removed: Seq<usize>,
    bound: int,
)
    requires
        destructive_done(before, after, canvases_before, canvases_after, li, ti, idx, layer_id, edited, trims, removed),
        0 <= li < before.len(),
        0 <= ti < before[li].tracks.len(),
        0 <= idx < before[li].tracks[ti].blocks.len(),
        is_binary_tiling(before[li].tracks[ti].blocks),
        before[li].start_breath < u32::MAX,
        cut_fits(trims, removed, before[li].tracks[ti].blocks.len() as int),
        cut_within(edited, trims, bound),
        forall|k: int| 0 <= k < before[li].tracks[ti].blocks.len() ==> block_reach(#[trigger] before[li].tracks[ti].blocks[k]) <= bound,
        cut_positive(edited, trims),
    ensures
        is_binary_tiling(after[li].tracks[ti].blocks),
        after[li].tracks[ti].blocks[0].start_breath == before[li].start_breath,
        after.len() == before.len(),
        forall|j: int| 0 <= j < before.len() && j != li ==> after[j] == before[j],
        track_blocks(after, layer_id, "raster"@) matches Some(rb) ==> forall|k: int| 0 <= k < rb.len() ==> {
            &&& canvases_after.contains_key((layer_id, (#[trigger] rb[k]).id@))
            &&& rb[k].is_blank ==> canvases_after[(layer_id, rb[k].id@)] == Map::<CellPoint, PaintedCell>::empty()
        },
{
    let bs = before[li].tracks[ti].blocks;
    let (input, dropped, added) = choose|input: Seq<SharedDocumentPropertyBlock>, dropped: Seq<Seq<char>>, added: Seq<Seq<char>>| {
        &&& cut_applied(bs, idx, edited, trims, removed, input, dropped, added)
        &&& track_edited(before, after, li, ti, input)
        &&& canvases_after == covered_opt(canvases_cut(canvases_before, layer_id, dropped, added),
            layer_id, track_blocks(after, layer_id, "raster"@))
    };
    lemma_cut_keeps(bs, idx, edited, trims, removed, input, dropped, added, bound);
    reveal(track_edited);
    reveal(retiled_from);
    assert(after[li] == with_blocks(before[li], ti, after[li].tracks[ti].blocks));
    if track_blocks(after, layer_id, "raster"@) is Some {
        let rb = track_blocks(after, layer_id, "raster"@)->0;
        assert forall|k: int| 0 <= k < rb.len() implies {
            &&& canvases_after.contains_key((layer_id, (#[trigger] rb[k]).id@))
            &&& rb[k].is_blank ==> canvases_after[(layer_id, rb[k].id@)] == Map::<CellPoint, PaintedCell>::empty()
        } by {
            let key = (layer_id, rb[k].id@);
            assert(key.0 == layer_id && 0 <= k < rb.len() && rb[k].id@ == key.1);
        }
    }
}

/// A zero length counts as one breath.
pub open spec fn at_least_one(n: u32) -> u32 {
    if n == 0 { 1 } else { n }
}

proof fn lemma_contains_push(q: Seq<Seq<char>>, x: Seq<char>)
    ensures
        forall|y: Seq<char>| #[trigger] q.push(x).contains(y) <==> (q.contains(y) || y == x),
{
    assert forall|y: Seq<char>| #[trigger] q.push(x).contains(y) <==> (q.contains(y) || y == x) by {
        if q.push(x).contains(y) {
            let i = choose|i: int| 0 <= i < q.push(x).len() && q.push(x)[i] == y;
            if i < q.len() {
                assert(q[i] == y);
            }
        }
        if q.contains(y) {
            let i = choose|i: int| 0 <= i < q.len() && q[i] == y;
            assert(q.push(x)[i] == y);
        }
        if y == x {
            assert(q.push(x)[q.len() as int] == y);
        }
    }
}

proof fn lemma_cut_reach(
    b0: Seq<LayerView>,
    a: Seq<LayerView>,
    li: int,
    ti: int,
    bs: Seq<SharedDocumentPropertyBlock>,
    idx: int,
    edited: (u32, u32),
    cut: &DestructiveCut,
    input: Seq<SharedDocumentPropertyBlock>,
    dropped: Seq<Seq<char>>,
    added: Seq<Seq<char>>,
)
    requires
        0 <= li < b0.len(),
        0 <= ti < b0[li].tracks.len(),
        bs == b0[li].tracks[ti].blocks,
        0 <= idx < bs.len(),
        cut_fits(cut.trimmed@, cut.removed@, bs.len() as int),
        cut_applied(bs, idx, edited, cut.trimmed@, cut.removed@, input, dropped, added),
        track_edited(b0, a, li, ti, input),
    ensures
        forall|b: int| b < u32::MAX - 3 && #[trigger] reach_within(b0, b) && cut_within(edited, cut.trimmed@, b)
            ==> reach_within(a, b + 2),
{
    assert forall|b: int| b < u32::MAX - 3 && #[trigger] reach_within(b0, b) && cut_within(edited, cut.trimmed@, b)
        implies reach_within(a, b + 2) by {
        lemma_reach_mono(b0, b, b + 1);
        lemma_track_reach(b0, li, ti, b + 1);
        assert(cut_within(edited, cut.trimmed@, b + 1));
        lemma_cut_keeps(bs, idx, edited, cut.trimmed@, cut.removed@, input, dropped, added, b + 1);
        lemma_max_reach_le(input, b + 1);
        reveal(track_edited);
        reveal(retiled_from);
        lemma_reach_update(b0, li, ti, a[li].tracks[ti].blocks, b + 1);
    }
}

impl SharedDocumentRuntime {
    /// Drops the canvases of the `dropped` blocks of a layer, then gives the
    /// `added` blocks empty ones.
    fn cut_canvases(&mut self, layer_id: &str, dropped: &Vec<String>, added: &Vec<String>)
        requires
            old(self).wf(),
        ensures
            final(self).wf(),
            final(self).canvases() == canvases_cut(old(self).canvases(), layer_id@, ids_view(dropped@), ids_view(added@)),
            final(self).document == old(self).document,
            final(self).history_unchanged(&*old(self)),
    {
        let ghost m0 = self.canvases();
        let mut j: usize = 0;
        while j < dropped.len()
            invariant
                self.wf(),
                self.document == old(self).document,
                self.history_unchanged(&*old(self)),
                j <= dropped@.len(),
                self.canvases() == m0.remove_keys(Set::new(|k: (Seq<char>, Seq<char>)| k.0 == layer_id@ && ids_view(dropped@).take(j as int).contains(k.1))),
            decreases dropped@.len() - j,
        {
            let ghost before = self.canvases();
            remove_canvas(&mut self.block_canvases, layer_id, dropped[j].as_str());
            proof {
                let nxt = ids_view(dropped@).take(j + 1);
                assert(nxt =~= ids_view(dropped@).take(j as int).push(dropped@[j as int]@));
                lemma_contains_push(ids_view(dropped@).take(j as int), dropped@[j as int]@);
                assert(self.canvases() =~= m0.remove_keys(Set::new(|k: (Seq<char>, Seq<char>)| k.0 == layer_id@ && nxt.contains(k.1))));
            }
            j = j + 1;
        }
        proof {
            assert(ids_view(dropped@).take(j as int) =~= ids_view(dropped@));
        }
        let ghost m1 = self.canvases();
        let mut k: usize = 0;
        while k < added.len()
            invariant
                self.wf(),
                self.document == old(self).document,
                self.history_unchanged(&*old(self)),
                k <= added@.len(),
                self.canvases() == Map::new(
                    |key: (Seq<char>, Seq<char>)| m1.contains_key(key) || (key.0 == layer_id@ && ids_view(added@).take(k as int).contains(key.1)),
                    |key: (Seq<char>, Seq<char>)| if key.0 == layer_id@ && ids_view(added@).take(k as int).contains(key.1) { Map::empty() } else { m1[key] },
                ),
            decreases added@.len() - k,
        {
            let i = canvas_entry(&mut self.block_canvases, layer_id, added[k].as_str());
            set_canvas_at(&mut self.block_canvases, i, Canvas::new());
            proof {
                let nxt = ids_view(added@).take(k + 1);
                assert(nxt =~= ids_view(added@).take(k as int).push(added@[k as int]@));
                lemma_contains_push(ids_view(added@).take(k as int), added@[k as int]@);
                assert(self.canvases() =~= Map::new(
                    |key: (Seq<char>, Seq<char>)| m1.contains_key(key) || (key.0 == layer_id@ && nxt.contains(key.1)),
                    |key: (Seq<char>, Seq<char>)| if key.0 == layer_id@ && nxt.contains(key.1) { Map::empty() } else { m1[key] },
                ));
            }
            k = k + 1;
        }
        proof {
            assert(ids_view(added@).take(k as int) =~= ids_view(added@));
            assert(self.canvases() =~= canvases_cut(m0, layer_id@, ids_view(dropped@), ids_view(added@)));
        }
    }

    /// Reshapes a property block destructively: it takes the span it was
    /// given (a zero length counts as one breath), the neighbors it overlaps
    /// are cropped as `cut` says, keeping their content (a neighbor it
    /// straddles splits, the far remainder becoming a block with a fresh id
    /// and an empty canvas), the neighbors it covers go with their canvases,
    /// and the track re-tiles. `cut` is what the destructive span rule
    /// resolved for the requested span. `false`, and nothing changes, when
    /// the layer, the track or the block is missing.
    #[verifier::spinoff_prover]
    #[verifier::rlimit(60)]
    pub fn set_property_block_timing_destructive(
        &mut self,
        layer_id: &str,
        property_id: &str,
        block_id: &str,
        start_breath: u32,
        length_breaths: u32,
        cut: &DestructiveCut,
    ) -> (r: bool)
        requires
            old(self).wf(),
            reach_within(old(self).layers_spec(), u32::MAX - 2),
            cut_within((start_breath, at_least_one(length_breaths)), cut.trimmed@, u32::MAX - 3),
            track_at(old(self).layers_spec(), layer_id@, property_id@) matches Some((li, ti))
                ==> cut_fits(cut.trimmed@, cut.removed@, old(self).layers_spec()[li].tracks[ti].blocks.len() as int),
        ensures
            final(self).wf(),
            track_at(old(self).layers_spec(), layer_id@, property_id@) is None ==> !r,
            track_at(old(self).layers_spec(), layer_id@, property_id@) matches Some((li, ti)) ==> {
                let bs = old(self).layers_spec()[li].tracks[ti].blocks;
                let idx = first_block(bs, block_id@);
                &&& r == (idx is Some)
                &&& r ==> destructive_done(old(self).layers_spec(), final(self).layers_spec(), old(self).canvases(), final(self).canvases(),
                    li, ti, idx->0, layer_id@, (start_breath, at_least_one(length_breaths)), cut.trimmed@, cut.removed@)
            },
            !r ==> final(self).layers_spec() == old(self).layers_spec() && final(self).canvases() == old(self).canvases(),
            tracks_tiled(old(self).layers_spec()) && cut_positive((start_breath, at_least_one(length_breaths)), cut.trimmed@)
                ==> tracks_tiled(final(self).layers_spec()),
            forall|b: int| b < u32::MAX - 3 && #[trigger] reach_within(old(self).layers_spec(), b)
                && cut_within((start_breath, at_least_one(length_breaths)), cut.trimmed@, b)
                ==> reach_within(final(self).layers_spec(), b + 2),
            final(self).history_unchanged(&*old(self)),
            final(self).meta_unchanged(&*old(self)),
    {
        let ghost b0 = self.layers_spec();
        let ghost m0 = self.canvases();
        proof {
            assert forall|b: int| b < u32::MAX - 3 && #[trigger] reach_within(b0, b) implies reach_within(b0, b + 2) by {
                lemma_reach_mono(b0, b, b + 2);
            }
        }
        let li = match self.layer_index(layer_id) {
            Some(li) => li,
            None => {
                return false;
            },
        };
        let ti = match self.track_index(li, property_id) {
            Some(ti) => ti,
            None => {
                return false;
            },
        };
        proof {
            assert(track_at(b0, layer_id@, property_id@) == Some((li as int, ti as int)));
        }
        let edited = (start_breath, if length_breaths == 0 { 1 } else { length_breaths });
        let mut blocks = take_track_blocks(&mut self.document.layers, li, ti);
        let ghost bs = blocks@;
        let ghost b_taken = self.layers_spec();
        let idx = match find_block(&blocks, block_id) {
            Some(i) => i,
            None => {
                put_track_blocks(&mut self.document.layers, li, ti, blocks);
                proof {
                    lemma_put_back(b0, self.layers_spec(), li as int, ti as int);
                }
                return false;
            },
        };
        let (dropped, added) = apply_cut(&mut blocks, idx, edited, cut);
        let ghost input = blocks@;
        proof {
            lemma_track_reach(b0, li as int, ti as int, u32::MAX - 2);
            lemma_cut_keeps(bs, idx as int, edited, cut.trimmed@, cut.removed@, input, ids_view(dropped@), ids_view(added@), u32::MAX - 2);
            lemma_max_reach_le(input, u32::MAX - 2);
        }
        self.put_retiled(li, ti, blocks);
        proof {
            let a = self.layers_spec();
            lemma_edit_from_taken(b0, b_taken, a, li as int, ti as int, input);
            lemma_cut_reach(b0, a, li as int, ti as int, bs, idx as int, edited, cut, input, ids_view(dropped@), ids_view(added@));
            if tracks_tiled(b0) && cut_positive(edited, cut.trimmed@) {
                lemma_tiled_at(b0, li as int, ti as int);
                lemma_cut_keeps(bs, idx as int, edited, cut.trimmed@, cut.removed@, input, ids_view(dropped@), ids_view(added@), u32::MAX - 2);
                lemma_edit_tiled(b0, a, li as int, ti as int, input);
            }
        }
        let ghost a = self.layers_spec();
        self.cut_canvases(layer_id, &dropped, &added);
        self.ensure_block_canvas_coverage(layer_id);
        proof {
            assert(self.layers_spec() == a);
            assert(cut_applied(bs, idx as int, edited, cut.trimmed@, cut.removed@, input, ids_view(dropped@), ids_view(added@)));
            assert(track_edited(b0, a, li as int, ti as int, input));
            assert(self.canvases() == covered_opt(canvases_cut(m0, layer_id@, ids_view(dropped@), ids_view(added@)),
                layer_id@, track_blocks(a, layer_id@, "raster"@)));
            assert(edited == (start_breath, at_least_one(length_breaths)));
            assert(bs == b0[li as int].tracks[ti as int].blocks);
            assert(track_at(b0, layer_id@, property_id@) == Some((li as int, ti as int)));
            assert(first_block(bs, block_id@) == Some(idx as int));
            assert(destructive_done(b0, a, m0, self.canvases(), li as int, ti as int, idx as int, layer_id@,
                (start_breath, at_least_one(length_breaths)), cut.trimmed@, cut.removed@));
        }
        true
    }
}


/// The composite of the first `n` layers' resolved canvases: visible layers
/// with a canvas paint over the ones before them.
pub open spec fn composite_spec(layers: Seq<LayerView>, resolved: Seq<Option<Canvas>>, n: int) -> Map<CellPoint, PaintedCell>
    decreases n,
{
    if n <= 0 {
        Map::empty()
    } else {
        let below = composite_spec(layers, resolved, n - 1);
        if layers[n - 1].visible && resolved[n - 1] is Some {
            below.union_prefer_right(resolved[n - 1]->0.cells())
        } else {
            below
        }
    }
}

impl SharedDocumentRuntime {
    /// Flattens the visible layers' resolved canvases into one canvas in
    /// document layer order: later layers win where they overlap.
    /// `resolved` holds each layer's canvas at the breath, as the raster
    /// interpolation resolved it (`None` where the layer has none).
    pub fn composited_canvas_in_layer_order(&self, resolved: &Vec<Option<Canvas>>) -> (c: Canvas)
        requires
            resolved@.len() == self.layers_spec().len(),
            forall|i: int| 0 <= i < resolved@.len() && #[trigger] resolved@[i] is Some ==> resolved@[i]->0.wf(),
        ensures
            c.wf(),
            c.cells() == composite_spec(self.layers_spec(), resolved@, resolved@.len() as int),
    {
        let mut canvas = Canvas::new();
        let mut i: usize = 0;
        while i < resolved.len()
            invariant
                i <= resolved@.len(),
                resolved@.len() == self.layers_spec().len(),
                resolved@.len() == self.document.layers@.len(),
                canvas.wf(),
                canvas.cells() == composite_spec(self.layers_spec(), resolved@, i as int),
            decreases resolved@.len() - i,
        {
            assert(self.layers_spec()[i as int].visible == self.document.layers@[i as int].visible);
            if self.document.layers[i].visible {
                match &resolved[i] {
                    Some(layer_canvas) => {
                        canvas.overlay(layer_canvas);
                    },
                    None => {},
                }
            }
            i = i + 1;
        }
        canvas
    }
}

} // verus!
