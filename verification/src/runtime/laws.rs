//! Laws of the runtime's history: an undo right after a stroke reverts it,
//! a redo undoes an undo and an undo undoes a redo, on the canvases and on
//! the layer's stacks.

use vstd::prelude::*;
use super::{SharedDocumentRuntime, cells_or_empty, covered_opt, track_blocks, patch_target};
use crate::records::{
    PatchDirection, patched, positions_distinct, befores_match, afters_match, law_undo_restores, law_redo_restores,
    RecordView, ActionView, HistoryRevertPatches, SharedCellPatch,
};

verus! {

/// Undoing a layer right after a stroke on it reverts that stroke. When a
/// non-passive patch set that lands on a block has just been applied
/// (`apply_action_record`) and its layer is undone next (`undo_top_action`,
/// whose `ensures` give this law's last two `requires`), the undo hands
/// back the stroke's block, its id and its patches inverted; the stroke's
/// id leaves the applied stack, which is again what it was before the
/// stroke, and is all the undone stack holds; and each patch's before value
/// is written back over the canvas the stroke painted on. When the patches
/// touch distinct cells and their before values are what that canvas held,
/// the block's cells are what they were before the stroke.
pub proof fn law_undo_reverts_last_apply(
    r0: SharedDocumentRuntime,
    r1: SharedDocumentRuntime,
    r2: SharedDocumentRuntime,
    rec: RecordView,
    h: Option<HistoryRevertPatches>,
)
    requires
        r1.applied_effect(&r0, rec),
        rec.action is CellPatchSet,
        !rec.action->passive,
        patch_target(r0.layers_spec(), rec) is Some,
        r1.history_revert(rec.layer_id, true, h),
        r2.legacy_effect(&r1, rec.layer_id, true),
    ensures
        ({
            let l = rec.layer_id;
            let tb = patch_target(r0.layers_spec(), rec)->0;
            let ps = rec.action->patches;
            let c = covered_opt(r0.canvases(), l, track_blocks(r1.layers_spec(), l, "raster"@));
            let c0 = cells_or_empty(c, (l, tb));
            &&& h matches Some(x) && x.block_id@ == tb && x.action_id@ == rec.action_id
                && x.patches@ == ps.map_values(|p: SharedCellPatch| p.inverse_spec())
            &&& r2.applied(l) == r0.applied(l)
            &&& r2.undone(l) == seq![rec.action_id]
            &&& r2.layers_spec() == r1.layers_spec()
            &&& r2.canvases() == c.insert((l, tb), patched(patched(c0, ps, PatchDirection::After), ps, PatchDirection::Before))
            &&& (positions_distinct(ps) && befores_match(c0, ps) ==> r2.canvases() == c.insert((l, tb), c0))
        }),
{
    let l = rec.layer_id;
    let tb = patch_target(r0.layers_spec(), rec)->0;
    let ps = rec.action->patches;
    let c = covered_opt(r0.canvases(), l, track_blocks(r1.layers_spec(), l, "raster"@));
    let c0 = cells_or_empty(c, (l, tb));
    let key = (l, tb);
    assert(r1.patch_set_effect(&r0, rec, ps, false, rec.action->reverts));
    assert(r1.applied(l) == r0.applied(l).push(rec.action_id));
    assert(r1.applied(l).last() == rec.action_id);
    assert(r1.applied(l).drop_last() =~= r0.applied(l));
    assert(r1.applied_patches().contains_key(rec.action_id));
    assert(r1.applied_patches()[rec.action_id] == (l, tb, ps));
    assert(r1.canvases() == c.insert(key, patched(c0, ps, PatchDirection::After)));
    assert(cells_or_empty(r1.canvases(), key) == patched(c0, ps, PatchDirection::After));
    assert(r2.canvases() =~= c.insert(key, patched(patched(c0, ps, PatchDirection::After), ps, PatchDirection::Before)));
    assert(r2.undone(l) =~= seq![rec.action_id]);
    if positions_distinct(ps) && befores_match(c0, ps) {
        law_undo_restores(c0, ps);
    }
}

/// Undoing a layer's last action and then redoing it gives back the
/// canvases and the layer's stacks, when the action's patches touch
/// distinct cells, its block has a canvas, and that canvas still shows what
/// the action left.
pub proof fn law_redo_after_undo_restores(r0: SharedDocumentRuntime, r1: SharedDocumentRuntime, r2: SharedDocumentRuntime, l: Seq<char>)
    requires
        r1.legacy_effect(&r0, l, true),
        r2.legacy_effect(&r1, l, false),
        r0.applied(l).len() > 0,
        r0.applied_patches().contains_key(r0.applied(l).last()),
        ({
            let (pl, pb, ps) = r0.applied_patches()[r0.applied(l).last()];
            &&& r0.canvases().contains_key((pl, pb))
            &&& positions_distinct(ps)
            &&& afters_match(r0.canvases()[(pl, pb)], ps)
        }),
    ensures
        r2.canvases() == r0.canvases(),
        r2.applied(l) == r0.applied(l),
        r2.undone(l) == r0.undone(l),
        r2.layers_spec() == r0.layers_spec(),
        r2.applied_patches() == r0.applied_patches(),
{
    let top = r0.applied(l).last();
    let (pl, pb, ps) = r0.applied_patches()[top];
    let key = (pl, pb);
    let c0 = r0.canvases()[key];
    assert(r1.undone(l) == r0.undone(l).push(top));
    assert(r1.canvases() == r0.canvases().insert(key, patched(c0, ps, PatchDirection::Before)));
    assert(r1.undone(l).last() == top);
    assert(cells_or_empty(r1.canvases(), key) == patched(c0, ps, PatchDirection::Before));
    law_redo_restores(c0, ps);
    assert(r2.canvases() =~= r0.canvases());
    assert(r2.applied(l) =~= r0.applied(l));
    assert(r2.undone(l) =~= r0.undone(l));
}

/// Redoing a layer's last undone action and then undoing it gives back the
/// canvases and the layer's stacks, when the action's patches touch
/// distinct cells, its block has a canvas, and that canvas still shows what
/// the action found.
pub proof fn law_undo_after_redo_restores(r0: SharedDocumentRuntime, r1: SharedDocumentRuntime, r2: SharedDocumentRuntime, l: Seq<char>)
    requires
        r1.legacy_effect(&r0, l, false),
        r2.legacy_effect(&r1, l, true),
        r0.undone(l).len() > 0,
        r0.applied_patches().contains_key(r0.undone(l).last()),
        ({
            let (pl, pb, ps) = r0.applied_patches()[r0.undone(l).last()];
            &&& r0.canvases().contains_key((pl, pb))
            &&& positions_distinct(ps)
            &&& befores_match(r0.canvases()[(pl, pb)], ps)
        }),
    ensures
        r2.canvases() == r0.canvases(),
        r2.applied(l) == r0.applied(l),
        r2.undone(l) == r0.undone(l),
        r2.layers_spec() == r0.layers_spec(),
        r2.applied_patches() == r0.applied_patches(),
{
    let top = r0.undone(l).last();
    let (pl, pb, ps) = r0.applied_patches()[top];
    let key = (pl, pb);
    let c0 = r0.canvases()[key];
    assert(r1.applied(l) == r0.applied(l).push(top));
    assert(r1.canvases() == r0.canvases().insert(key, patched(c0, ps, PatchDirection::After)));
    assert(r1.applied(l).last() == top);
    assert(cells_or_empty(r1.canvases(), key) == patched(c0, ps, PatchDirection::After));
    law_undo_restores(c0, ps);
    assert(r2.canvases() =~= r0.canvases());
    assert(r2.applied(l) =~= r0.applied(l));
    assert(r2.undone(l) =~= r0.undone(l));
}

} // verus!
