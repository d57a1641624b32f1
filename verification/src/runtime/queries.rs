//! What the runtime answers about its document without changing it (the
//! raster block under the playhead, selection channels, a track's shape,
//! the records that carry a block's content to a new block), and the one
//! selection write.

use vstd::prelude::*;
use super::{SharedDocumentRuntime, first_layer, first_track, track_blocks, lemma_first_layer, lemma_first_track};
use crate::canvas::{Canvas, CanvasEntry, CellPoint};
use crate::records::{SharedCellPatch, SharedDocumentActionRecord, PersistedCellPoint, RecordView, ActionView, record_view, stores_opt, opt_str_view};
use crate::selection::{SharedDocumentSelectionChannel, SharedSelectionWriteMode, runtime_points, find_channel, points_contain, written_set, incoming_set};
use crate::track::{SharedDocumentPropertyBlock, min1};
use crate::layers_panel::{first_where, lemma_first_where, lemma_first_where_none};
use crate::store::{find_canvas, canvas_view};
use crate::text::{owned, str_eq, push_str, push_decimal, decimal};
use crate::document::layers_view;

verus! {

/// Whether a block covers a breath: from its start up to its end, a zero
/// length counting as one breath.
pub open spec fn covers(breath: u32) -> spec_fn(SharedDocumentPropertyBlock) -> bool {
    |b: SharedDocumentPropertyBlock| b.start_breath <= breath < b.start_breath + min1(b.length_breaths)
}

/// The id of the layer's raster block that covers a breath.
pub open spec fn active_block_spec(layers: Seq<crate::document::LayerView>, layer_id: Seq<char>, breath: u32) -> Option<Seq<char>> {
    match track_blocks(layers, layer_id, "raster"@) {
        Some(bs) => match first_where(bs, covers(breath)) {
            Some(i) => Some(bs[i].id@),
            None => None,
        },
        None => None,
    }
}

/// A selection channel with this id.
pub open spec fn channel_named(id: Seq<char>) -> spec_fn(SharedDocumentSelectionChannel) -> bool {
    |c: SharedDocumentSelectionChannel| c.channel_id@ == id
}

/// The patches that paint a canvas's entries into an empty canvas, in
/// point order.
pub open spec fn fill_patches(entries: Seq<CanvasEntry>, patches: Seq<SharedCellPatch>) -> bool {
    &&& patches.len() == entries.len()
    &&& forall|i: int| 0 <= i < entries.len() ==> {
        &&& (#[trigger] patches[i]).position == PersistedCellPoint::from_runtime_spec(entries[i].position)
        &&& patches[i].before is None
        &&& stores_opt(patches[i].after, Some(entries[i].cell))
    }
}

/// One block's span as the track shape prints it: `start..end`, with `/e`
/// after a blank.
pub open spec fn span_text(b: SharedDocumentPropertyBlock) -> Seq<char> {
    decimal(b.start_breath as nat) + ".."@ + decimal((b.start_breath + b.length_breaths) as nat)
        + (if b.is_blank { "/e"@ } else { Seq::empty() })
}

/// The spans of blocks joined by single spaces.
pub open spec fn spans_text(bs: Seq<SharedDocumentPropertyBlock>) -> Seq<char>
    decreases bs.len(),
{
    if bs.len() == 0 {
        Seq::empty()
    } else if bs.len() == 1 {
        span_text(bs[0])
    } else {
        spans_text(bs.drop_last()) + " "@ + span_text(bs.last())
    }
}

/// The one-line shape of a track: its spans in brackets, `[]` when the
/// layer or track is missing.
pub open spec fn track_shape_spec(layers: Seq<crate::document::LayerView>, layer_id: Seq<char>, property_id: Seq<char>) -> Seq<char> {
    match track_blocks(layers, layer_id, property_id) {
        Some(bs) => "["@ + spans_text(bs) + "]"@,
        None => "[]"@,
    }
}

fn fill_patches_of(canvas: &Canvas) -> (r: Vec<SharedCellPatch>)
    ensures
        fill_patches(canvas.entries_view(), r@),
{
    let entries = canvas.entries();
    let mut out: Vec<SharedCellPatch> = Vec::new();
    let mut i: usize = 0;
    while i < entries.len()
        invariant
            entries@ == canvas.entries_view(),
            i <= entries@.len(),
            fill_patches(entries@.take(i as int), out@),
        decreases entries@.len() - i,
    {
        let e = &entries[i];
        out.push(SharedCellPatch::new(e.position, None, Some(&e.cell)));
        proof {
            let t = entries@.take(i + 1);
            assert forall|k: int| 0 <= k < t.len() implies {
                &&& (#[trigger] out@[k]).position == PersistedCellPoint::from_runtime_spec(t[k].position)
                &&& out@[k].before is None
                &&& stores_opt(out@[k].after, Some(t[k].cell))
            } by {
                if k < i {
                    assert(t[k] == entries@.take(i as int)[k]);
                }
            }
        }
        i = i + 1;
    }
    proof {
        assert(entries@.take(i as int) =~= entries@);
    }
    out
}

impl SharedDocumentRuntime {
    /// The id of the layer's raster block covering `current_breath`; blank
    /// blocks count (painting into one un-blanks it).
    pub fn active_raster_block_id(&self, layer_id: &str, current_breath: u32) -> (r: Option<String>)
        ensures
            match r {
                Some(id) => active_block_spec(self.layers_spec(), layer_id@, current_breath) == Some(id@),
                None => active_block_spec(self.layers_spec(), layer_id@, current_breath) is None,
            },
    {
        proof {
            reveal_strlit("raster");
        }
        let track = match self.property_track(layer_id, "raster") {
            Some(t) => t,
            None => {
                return None;
            },
        };
        let blocks = &track.blocks;
        let mut i: usize = 0;
        while i < blocks.len()
            invariant
                i <= blocks@.len(),
                track_blocks(self.layers_spec(), layer_id@, "raster"@) == Some(blocks@),
                forall|k: int| 0 <= k < i ==> !covers(current_breath)(#[trigger] blocks@[k]),
            decreases blocks@.len() - i,
        {
            let b = &blocks[i];
            let len: u64 = if b.length_breaths == 0 { 1 } else { b.length_breaths as u64 };
            if b.start_breath <= current_breath && (current_breath as u64) < b.start_breath as u64 + len {
                proof {
                    lemma_first_where(blocks@, covers(current_breath), i as int);
                    assert(track_blocks(self.layers_spec(), layer_id@, "raster"@) == Some(blocks@));
                    assert(blocks@[i as int] == *b);
                }
                let id = b.id.clone();
                assert(id@ == blocks@[i as int].id@);
                return Some(id);
            }
            i = i + 1;
        }
        proof {
            lemma_first_where_none(blocks@, covers(current_breath));
        }
        None
    }

    /// The canvas of the layer's raster block covering `current_breath`;
    /// `None` when the layer is missing or the breath falls in no block.
    pub fn canvas_for_layer(&self, layer_id: &str, current_breath: u32) -> (r: Option<&Canvas>)
        requires
            self.wf(),
        ensures
            match active_block_spec(self.layers_spec(), layer_id@, current_breath) {
                Some(id) => {
                    &&& (r is Some <==> self.canvases().contains_key((layer_id@, id)))
                    &&& r is Some ==> r->0.wf() && r->0.cells() == self.canvases()[(layer_id@, id)]
                },
                None => r is None,
            },
    {
        match self.active_raster_block_id(layer_id, current_breath) {
            Some(id) => self.block_canvas(layer_id, id.as_str()),
            None => None,
        }
    }

    /// The first breath the layer's raster track covers, preferring the
    /// earliest block with content; `None` without a layer, a raster track
    /// or any block.
    pub fn first_breath_with_raster_block(&self, layer_id: &str) -> (r: Option<u32>)
        ensures
            match track_blocks(self.layers_spec(), layer_id@, "raster"@) {
                None => r is None,
                Some(bs) => {
                    &&& (r is None <==> bs.len() == 0)
                    &&& r is Some && (exists|i: int| 0 <= i < bs.len() && !(#[trigger] bs[i]).is_blank) ==> {
                        &&& exists|i: int| 0 <= i < bs.len() && !(#[trigger] bs[i]).is_blank && bs[i].start_breath == r->0
                        &&& forall|k: int| 0 <= k < bs.len() && !(#[trigger] bs[k]).is_blank ==> r->0 <= bs[k].start_breath
                    }
                    &&& r is Some && !(exists|i: int| 0 <= i < bs.len() && !(#[trigger] bs[i]).is_blank) ==> {
                        &&& exists|i: int| 0 <= i < bs.len() && (#[trigger] bs[i]).start_breath == r->0
                        &&& forall|k: int| 0 <= k < bs.len() ==> r->0 <= (#[trigger] bs[k]).start_breath
                    }
                },
            },
    {
        proof {
            reveal_strlit("raster");
        }
        let track = match self.property_track(layer_id, "raster") {
            Some(t) => t,
            None => {
                return None;
            },
        };
        let blocks = &track.blocks;
        let mut first: Option<u32> = None;
        let mut content: Option<u32> = None;
        let mut i: usize = 0;
        while i < blocks.len()
            invariant
                i <= blocks@.len(),
                track_blocks(self.layers_spec(), layer_id@, "raster"@) == Some(blocks@),
                first is None <==> i == 0,
                first is Some ==> (exists|j: int| 0 <= j < i && (#[trigger] blocks@[j]).start_breath == first->0)
                    && forall|k: int| 0 <= k < i ==> first->0 <= (#[trigger] blocks@[k]).start_breath,
                content is None <==> !(exists|j: int| 0 <= j < i && !(#[trigger] blocks@[j]).is_blank),
                content is Some ==> (exists|j: int| 0 <= j < i && !(#[trigger] blocks@[j]).is_blank && blocks@[j].start_breath == content->0)
                    && forall|k: int| 0 <= k < i && !(#[trigger] blocks@[k]).is_blank ==> content->0 <= blocks@[k].start_breath,
            decreases blocks@.len() - i,
        {
            let s = blocks[i].start_breath;
            let ghost bi = blocks@[i as int];
            match first {
                Some(f) => {
                    if s < f {
                        first = Some(s);
                    }
                },
                None => {
                    first = Some(s);
                },
            }
            if !blocks[i].is_blank {
                match content {
                    Some(c) => {
                        if s < c {
                            content = Some(s);
                        }
                    },
                    None => {
                        content = Some(s);
                    },
                }
            }
            proof {
                assert(blocks@[i as int] == bi);
            }
            i = i + 1;
        }
        match content {
            Some(c) => Some(c),
            None => first,
        }
    }

    /// The index of a selection channel, if there is one with this id.
    fn channel_index(&self, channel_id: &str) -> (r: Option<usize>)
        ensures
            match r {
                Some(i) => i < self.doc().selection.channels@.len()
                    && first_where(self.doc().selection.channels@, channel_named(channel_id@)) == Some(i as int),
                None => first_where(self.doc().selection.channels@, channel_named(channel_id@)) is None,
            },
    {
        let r = find_channel(&self.document.selection.channels, channel_id);
        proof {
            let cs = self.document.selection.channels@;
            match r {
                Some(i) => {
                    assert forall|k: int| 0 <= k < i implies !channel_named(channel_id@)(#[trigger] cs[k]) by {
                        assert(cs[k].channel_id@ != channel_id@);
                    }
                    lemma_first_where(cs, channel_named(channel_id@), i as int);
                },
                None => {
                    assert forall|k: int| 0 <= k < cs.len() implies !channel_named(channel_id@)(#[trigger] cs[k]) by {
                        assert(cs[k].channel_id@ != channel_id@);
                    }
                    lemma_first_where_none(cs, channel_named(channel_id@));
                },
            }
        }
        r
    }

    /// The points of a selection channel in point order; none for a channel
    /// that does not exist.
    pub fn selection_points(&self, channel_id: &str) -> (r: Vec<CellPoint>)
        ensures
            match first_where(self.doc().selection.channels@, channel_named(channel_id@)) {
                Some(i) => r@ == self.doc().selection.channels@[i].points@.map_values(|p: PersistedCellPoint| p.to_runtime_spec()),
                None => r@.len() == 0,
            },
    {
        match self.channel_index(channel_id) {
            Some(i) => runtime_points(&self.document.selection.channels[i].points),
            None => Vec::new(),
        }
    }

    /// Whether a selection channel holds a point.
    pub fn selection_contains(&self, channel_id: &str, point: CellPoint) -> (r: bool)
        requires
            self.wf(),
        ensures
            r == match first_where(self.doc().selection.channels@, channel_named(channel_id@)) {
                Some(i) => self.doc().selection.channels@[i].points@.contains(PersistedCellPoint::from_runtime_spec(point)),
                None => false,
            },
    {
        match self.channel_index(channel_id) {
            Some(i) => points_contain(&self.document.selection.channels[i].points, PersistedCellPoint::from_runtime(point)),
            None => false,
        }
    }

    /// Writes one batch of points into a selection channel, creating the
    /// channel first when it does not exist; returns whether the channel's
    /// points changed.
    pub fn apply_selection_points(&mut self, channel_id: &str, points: Vec<CellPoint>, mode: SharedSelectionWriteMode) -> (changed: bool)
        requires
            old(self).wf(),
        ensures
            final(self).wf(),
            final(self).layers_spec() == old(self).layers_spec(),
            final(self).canvases() == old(self).canvases(),
            final(self).history_unchanged(&*old(self)),
            final(self).doc().document_id == old(self).doc().document_id,
            final(self).doc().revision == old(self).doc().revision,
            final(self).doc().document_window == old(self).doc().document_window,
            final(self).doc().title == old(self).doc().title,
            final(self).doc().file_kind == old(self).doc().file_kind,
            final(self).doc().schema_version == old(self).doc().schema_version,
            final(self).actions_spec() == old(self).actions_spec(),
            final(self).revision_spec() == old(self).revision_spec(),
            final(self).baseline_spec() == old(self).baseline_spec(),
            final(self).squashed_spec() == old(self).squashed_spec(),
            forall|l: Seq<char>| #[trigger] final(self).applied(l) == old(self).applied(l) && final(self).undone(l) == old(self).undone(l),
            final(self).applied_patches() == old(self).applied_patches(),
            ({
                let before = old(self).doc().selection.channels@;
                let after = final(self).doc().selection.channels@;
                match first_where(before, channel_named(channel_id@)) {
                    Some(i) => {
                        &&& after.len() == before.len()
                        &&& forall|k: int| 0 <= k < before.len() && k != i ==> #[trigger] after[k] == before[k]
                        &&& after[i].channel_id == before[i].channel_id
                        &&& after[i].point_set() == written_set(before[i].point_set(), incoming_set(points@), mode)
                        &&& changed == (after[i].point_set() != before[i].point_set())
                    },
                    None => {
                        &&& after.len() == before.len() + 1
                        &&& forall|k: int| 0 <= k < before.len() ==> #[trigger] after[k] == before[k]
                        &&& after[before.len() as int].channel_id@ == channel_id@
                        &&& after[before.len() as int].point_set() == written_set(Set::empty(), incoming_set(points@), mode)
                        &&& changed == (after[before.len() as int].point_set() != Set::<PersistedCellPoint>::empty())
                    },
                }
            }),
    {
        let ghost before = self.document.selection.channels@;
        let i = match self.channel_index(channel_id) {
            Some(i) => i,
            None => {
                self.document.selection.channels.push(SharedDocumentSelectionChannel { channel_id: owned(channel_id), points: Vec::new() });
                proof {
                    assert(self.document.selection.channels@[before.len() as int].points@.to_set() =~= Set::<PersistedCellPoint>::empty());
                }
                self.document.selection.channels.len() - 1
            },
        };
        let ghost mid = self.document.selection.channels@;
        let mut channel = self.document.selection.channels.remove(i);
        let changed = channel.apply_points(&points, mode);
        self.document.selection.channels.insert(i, channel);
        proof {
            let after = self.document.selection.channels@;
            assert forall|k: int| 0 <= k < mid.len() && k != i implies #[trigger] after[k] == mid[k] by {
                if k < i {
                    assert(after[k] == mid.remove(i as int)[k]);
                } else {
                    assert(after[k] == mid.remove(i as int)[k - 1]);
                }
            }
            assert forall|k: int| 0 <= k < after.len() implies (#[trigger] after[k]).wf() by {
                if k != i {
                    assert(after[k] == mid[k]);
                }
            }
        }
        changed
    }

    /// The one-line shape of a property track for the interaction log: each
    /// block as `start..end`, `/e` after a blank — `[0..5 5..10/e]`.
    pub fn property_track_shape(&self, layer_id: &str, property_id: &str) -> (r: String)
        ensures
            r@ == track_shape_spec(self.layers_spec(), layer_id@, property_id@),
    {
        let track = match self.property_track(layer_id, property_id) {
            Some(t) => t,
            None => {
                return owned("[]");
            },
        };
        let blocks = &track.blocks;
        let mut s = owned("[");
        let mut i: usize = 0;
        while i < blocks.len()
            invariant
                i <= blocks@.len(),
                s@ == "["@ + spans_text(blocks@.take(i as int)),
            decreases blocks@.len() - i,
        {
            let b = &blocks[i];
            let ghost before = s@;
            if i > 0 {
                push_str(&mut s, " ");
            }
            push_decimal(&mut s, b.start_breath as u64);
            push_str(&mut s, "..");
            push_decimal(&mut s, b.start_breath as u64 + b.length_breaths as u64);
            if b.is_blank {
                push_str(&mut s, "/e");
            }
            proof {
                let t = blocks@.take(i + 1);
                assert(t.drop_last() =~= blocks@.take(i as int));
                assert(t.last() == *b);
                if i == 0 {
                    assert(t.len() == 1);
                    assert(s@ =~= "["@ + span_text(*b));
                } else {
                    assert(s@ =~= before + " "@ + span_text(*b));
                }
            }
            i = i + 1;
        }
        proof {
            assert(blocks@.take(i as int) =~= blocks@);
        }
        push_str(&mut s, "]");
        s
    }

    /// The record that carries a block's painted content onto a new block
    /// (after a split): one patch per painted cell of the source canvas,
    /// from nothing to that cell, aimed at `new_block_id`. `None` when the
    /// source has no canvas or an empty one.
    pub fn split_data_propagation_record(
        &self,
        layer_id: &str,
        source_block_id: &str,
        new_block_id: &str,
        action_id: &str,
        user_id: &str,
        timestamp: &str,
    ) -> (r: Option<SharedDocumentActionRecord>)
        requires
            self.wf(),
        ensures
            r is None <==> !self.canvases().contains_key((layer_id@, source_block_id@))
                || self.canvases()[(layer_id@, source_block_id@)].dom().len() == 0,
            r matches Some(rec) ==> propagation_record(rec@, self.doc().document_id@, layer_id@, new_block_id@, action_id@, user_id@, timestamp@)
                && exists|c: Canvas| c.wf() && c.cells() == self.canvases()[(layer_id@, source_block_id@)]
                    && #[trigger] propagated_from(rec@, c),
    {
        self.propagation_record(layer_id, source_block_id, new_block_id, action_id, user_id, timestamp)
    }

    /// The record that carries a block's painted content onto its
    /// duplicate; the same record a split propagates.
    pub fn duplicate_data_propagation_record(
        &self,
        layer_id: &str,
        source_block_id: &str,
        new_block_id: &str,
        action_id: &str,
        user_id: &str,
        timestamp: &str,
    ) -> (r: Option<SharedDocumentActionRecord>)
        requires
            self.wf(),
        ensures
            r is None <==> !self.canvases().contains_key((layer_id@, source_block_id@))
                || self.canvases()[(layer_id@, source_block_id@)].dom().len() == 0,
            r matches Some(rec) ==> propagation_record(rec@, self.doc().document_id@, layer_id@, new_block_id@, action_id@, user_id@, timestamp@)
                && exists|c: Canvas| c.wf() && c.cells() == self.canvases()[(layer_id@, source_block_id@)]
                    && #[trigger] propagated_from(rec@, c),
    {
        self.propagation_record(layer_id, source_block_id, new_block_id, action_id, user_id, timestamp)
    }

    fn propagation_record(
        &self,
        layer_id: &str,
        source_block_id: &str,
        new_block_id: &str,
        action_id: &str,
        user_id: &str,
        timestamp: &str,
    ) -> (r: Option<SharedDocumentActionRecord>)
        requires
            self.wf(),
        ensures
            r is None <==> !self.canvases().contains_key((layer_id@, source_block_id@))
                || self.canvases()[(layer_id@, source_block_id@)].dom().len() == 0,
            r matches Some(rec) ==> propagation_record(rec@, self.doc().document_id@, layer_id@, new_block_id@, action_id@, user_id@, timestamp@)
                && exists|c: Canvas| c.wf() && c.cells() == self.canvases()[(layer_id@, source_block_id@)]
                    && #[trigger] propagated_from(rec@, c),
    {
        let canvas = match self.block_canvas(layer_id, source_block_id) {
            Some(c) => c,
            None => {
                return None;
            },
        };
        if canvas.is_empty() {
            return None;
        }
        let patches = fill_patches_of(canvas);
        let rec = SharedDocumentActionRecord::cell_patch_set(
            action_id,
            self.document.document_id.as_str(),
            layer_id,
            user_id,
            timestamp,
            patches,
            Some(owned(new_block_id)),
        );
        proof {
            assert(propagated_from(rec@, *canvas));
        }
        Some(rec)
    }
}

/// A forward patch-set record with these header fields, aimed at `block_id`.
pub open spec fn propagation_record(
    rec: RecordView,
    document_id: Seq<char>,
    layer_id: Seq<char>,
    block_id: Seq<char>,
    action_id: Seq<char>,
    user_id: Seq<char>,
    created_at: Seq<char>,
) -> bool {
    &&& rec.action_id == action_id
    &&& rec.document_id == document_id
    &&& rec.layer_id == layer_id
    &&& rec.user_id == user_id
    &&& rec.created_at == created_at
    &&& rec.action matches ActionView::CellPatchSet { block_id: b, passive, reverts, .. }
        && b == Some(block_id) && !passive && reverts is None
}

/// The record's patches paint exactly the canvas's cells, in point order.
pub open spec fn propagated_from(rec: RecordView, canvas: Canvas) -> bool {
    rec.action matches ActionView::CellPatchSet { patches, .. } && fill_patches(canvas.entries_view(), patches)
}

} // verus!
