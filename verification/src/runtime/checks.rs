//! Checks callers make before replaying a document or folding its history:
//! that every breath the document reaches leaves room for the log, and that
//! every selection channel keeps its points sorted.

use vstd::prelude::*;
use super::{SharedDocumentRuntime, replays, reach_within};
use crate::records::{SharedDocumentActionRecord, records_view};
use crate::document::{SharedDocumentFile, SharedDocumentLayer, layers_view};
use crate::selection::{SharedDocumentSelection, SharedDocumentSelectionChannel, points_sorted, pp_lt};
use crate::records::PersistedCellPoint;
use crate::track::{block_reach, span_end_spec};

verus! {

fn span_end_u64(span_start: u32, span_length: u32) -> (end: u64)
    ensures
        end == span_end_spec(span_start, span_length),
{
    let len1: u64 = if span_length == 0 { 1 } else { span_length as u64 };
    let end = span_start as u64 + len1;
    if end > u32::MAX as u64 { u32::MAX as u64 } else { end }
}

/// Whether every layer span end and every block reach of `layers` is at
/// most `bound`.
pub fn layers_within(layers: &Vec<SharedDocumentLayer>, bound: u64) -> (r: bool)
    ensures
        r == reach_within(layers_view(layers@), bound as int),
{
    let ghost lv = layers_view(layers@);
    proof {
        reveal(reach_within);
    }
    let mut li: usize = 0;
    while li < layers.len()
        invariant
            lv == layers_view(layers@),
            li <= layers@.len(),
            forall|k: int| 0 <= k < li ==> span_end_spec((#[trigger] lv[k]).start_breath, lv[k].length_breaths) <= bound,
            forall|k: int, ti: int, bi: int|
                0 <= k < li && 0 <= ti < lv[k].tracks.len() && 0 <= bi < lv[k].tracks[ti].blocks.len()
                    ==> block_reach(#[trigger] lv[k].tracks[ti].blocks[bi]) <= bound,
        decreases layers@.len() - li,
    {
        let layer = &layers[li];
        proof {
            assert(lv[li as int] == layers@[li as int]@);
        }
        if span_end_u64(layer.start_breath, layer.length_breaths) > bound {
            proof {
                reveal(reach_within);
                assert(span_end_spec(lv[li as int].start_breath, lv[li as int].length_breaths) > bound);
            }
            return false;
        }
        let mut ti: usize = 0;
        while ti < layer.property_tracks.len()
            invariant
                lv == layers_view(layers@),
                li < layers@.len(),
                *layer == layers@[li as int],
                lv[li as int] == layer@,
                ti <= layer.property_tracks@.len(),
                forall|k: int, tj: int, bi: int|
                    0 <= k < li && 0 <= tj < lv[k].tracks.len() && 0 <= bi < lv[k].tracks[tj].blocks.len()
                        ==> block_reach(#[trigger] lv[k].tracks[tj].blocks[bi]) <= bound,
                forall|tj: int, bi: int|
                    0 <= tj < ti && 0 <= bi < lv[li as int].tracks[tj].blocks.len()
                        ==> block_reach(#[trigger] lv[li as int].tracks[tj].blocks[bi]) <= bound,
            decreases layer.property_tracks@.len() - ti,
        {
            let blocks = &layer.property_tracks[ti].blocks;
            proof {
                assert(lv[li as int].tracks[ti as int].blocks == blocks@);
            }
            let mut bi: usize = 0;
            while bi < blocks.len()
                invariant
                    lv == layers_view(layers@),
                    li < layers@.len(),
                    lv[li as int] == layer@,
                    ti < lv[li as int].tracks.len(),
                    lv[li as int].tracks[ti as int].blocks == blocks@,
                    bi <= blocks@.len(),
                    forall|bj: int| 0 <= bj < bi ==> block_reach(#[trigger] blocks@[bj]) <= bound,
                decreases blocks@.len() - bi,
            {
                let b = &blocks[bi];
                let len1: u64 = if b.length_breaths == 0 { 1 } else { b.length_breaths as u64 };
                if b.start_breath as u64 + len1 > bound {
                    proof {
                        reveal(reach_within);
                        assert(block_reach(lv[li as int].tracks[ti as int].blocks[bi as int]) > bound);
                    }
                    return false;
                }
                bi = bi + 1;
            }
            proof {
                assert forall|tj: int, bj: int|
                    0 <= tj <= ti && 0 <= bj < lv[li as int].tracks[tj].blocks.len()
                        implies block_reach(#[trigger] lv[li as int].tracks[tj].blocks[bj]) <= bound by {
                    if tj == ti {
                        assert(lv[li as int].tracks[tj].blocks[bj] == blocks@[bj]);
                    }
                }
            }
            ti = ti + 1;
        }
        li = li + 1;
    }
    true
}

fn points_in_order(points: &Vec<PersistedCellPoint>) -> (r: bool)
    ensures
        r == points_sorted(points@),
{
    if points.len() < 2 {
        return true;
    }
    let mut i: usize = 1;
    while i < points.len()
        invariant
            1 <= i <= points@.len(),
            points_sorted(points@.take(i as int)),
        decreases points@.len() - i,
    {
        let a = points[i - 1];
        let b = points[i];
        let lt = a.x < b.x || (a.x == b.x && (a.y < b.y || (a.y == b.y && a.z < b.z)));
        if !lt {
            proof {
                assert(!pp_lt(points@[i - 1], points@[i as int]));
            }
            return false;
        }
        proof {
            let s = points@.take(i + 1);
            assert forall|x: int, y: int| 0 <= x < y < s.len() implies pp_lt(#[trigger] s[x], #[trigger] s[y]) by {
                if y == i {
                    if x < i - 1 {
                        assert(pp_lt(points@.take(i as int)[x], points@.take(i as int)[i - 1]));
                    }
                } else {
                    assert(pp_lt(points@.take(i as int)[x], points@.take(i as int)[y]));
                }
            }
        }
        i = i + 1;
    }
    proof {
        assert(points@.take(i as int) =~= points@);
    }
    true
}

/// Whether every channel of a selection keeps its points sorted.
pub fn selection_in_order(selection: &SharedDocumentSelection) -> (r: bool)
    ensures
        r == selection.wf(),
{
    let mut i: usize = 0;
    while i < selection.channels.len()
        invariant
            i <= selection.channels@.len(),
            forall|k: int| 0 <= k < i ==> (#[trigger] selection.channels@[k]).wf(),
        decreases selection.channels@.len() - i,
    {
        if !points_in_order(&selection.channels[i].points) {
            return false;
        }
        i = i + 1;
    }
    true
}

impl SharedDocumentRuntime {
    /// Whether the document leaves room to fold this session's history.
    pub fn history_fits(&self) -> (r: bool)
        requires
            self.wf(),
        ensures
            r == reach_within(self.layers_spec(), u32::MAX - 2 - self.actions_spec().len()),
    {
        let n = self.actions_len();
        if n > (u32::MAX - 2) as usize {
            proof {
                super::lemma_reach_negative(self.layers_spec(), u32::MAX - 2 - self.actions_spec().len());
            }
            return self.layers().len() == 0;
        }
        layers_within(self.layers(), (u32::MAX - 2) as u64 - n as u64)
    }

    /// Replays the document's log when the document leaves room for it
    /// and its selection is in order; `None` otherwise.
    pub fn replay_checked(document: SharedDocumentFile, actions: Vec<SharedDocumentActionRecord>) -> (r: Option<SharedDocumentRuntime>)
        ensures
            r is Some <==> (reach_within(layers_view(document.layers@), u32::MAX - 2 - actions@.len()) && document.selection.wf()),
            r is Some ==> r->0.wf(),
            r is Some ==> exists|trace: Seq<SharedDocumentRuntime>| #[trigger] replays(r->0, trace, document, records_view(actions@)),
            r is Some ==> r->0.actions_spec() == records_view(actions@),
    {
        let fits = if actions.len() > (u32::MAX - 2) as usize {
            proof {
                super::lemma_reach_negative(layers_view(document.layers@), u32::MAX - 2 - actions@.len());
            }
            document.layers.len() == 0
        } else {
            layers_within(&document.layers, (u32::MAX - 2) as u64 - actions.len() as u64)
        };
        if !fits || !selection_in_order(&document.selection) {
            return None;
        }
        let rt = SharedDocumentRuntime::replay(document, actions);
        Some(rt)
    }
}

} // verus!
