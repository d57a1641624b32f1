//! Folding old history into baseline records, so the saved action log stays
//! bounded by the content plus the undo window.

use vstd::prelude::*;
use super::{SharedDocumentRuntime, replays, reach_within, lemma_reach_mono, squash_record, baseline_squashed};
use super::queries::{propagated_from, fill_patches};
use crate::canvas::{Canvas, CanvasEntry, CellPoint, PaintedCell};
use crate::records::{SharedCellPatch, SharedDocumentActionRecord, PersistedCellPoint, RecordView, ActionView, records_view, stores_opt};
use crate::store::{BlockCanvas, canvases_wf, canvas_view, canvas_matches, lemma_canvas_view_at};
use crate::document::{SharedDocumentFile, UNDO_HISTORY_DEPTH, same_document, layers_view};
use crate::text::{owned, push_str, push_decimal, decimal, str_eq, text_less, text_lt, lemma_text_lt_total};

verus! {

/// The raster block a patch-set record is aimed at (empty for others).
pub open spec fn record_block(rec: RecordView) -> Seq<char> {
    match rec.action {
        ActionView::CellPatchSet { block_id: Some(b), .. } => b,
        _ => Seq::empty(),
    }
}

/// A passive baseline record for one block canvas: id
/// `baseline-<layer>-<block>`, user `history-squash`, time `baseline`.
pub open spec fn baseline_record(rec: RecordView, key: (Seq<char>, Seq<char>), document_id: Seq<char>) -> bool {
    &&& rec.action_id == "baseline-"@ + key.0 + "-"@ + key.1
    &&& rec.document_id == document_id
    &&& rec.layer_id == key.0
    &&& rec.user_id == "history-squash"@
    &&& rec.created_at == "baseline"@
    &&& rec.action matches ActionView::CellPatchSet { block_id, passive, reverts, .. }
        && block_id == Some(key.1) && passive && reverts is None
}

/// The baseline records of a set of canvases: one passive record per
/// non-empty canvas, painting exactly its cells, and nothing else.
pub open spec fn baseline_of(
    records: Seq<RecordView>,
    m: Map<(Seq<char>, Seq<char>), Map<CellPoint, PaintedCell>>,
    document_id: Seq<char>,
) -> bool {
    &&& forall|j: int| 0 <= j < records.len() ==> {
        let key = ((#[trigger] records[j]).layer_id, record_block(records[j]));
        &&& m.contains_key(key)
        &&& m[key].dom().len() > 0
        &&& baseline_record(records[j], key, document_id)
        &&& exists|c: Canvas| c.wf() && c.cells() == m[key] && #[trigger] propagated_from(records[j], c)
    }
    &&& forall|key: (Seq<char>, Seq<char>)| #[trigger] m.contains_key(key) && m[key].dom().len() > 0
        ==> exists|j: int| 0 <= j < records.len() && (#[trigger] records[j]).layer_id == key.0 && record_block(records[j]) == key.1
    &&& forall|j1: int, j2: int| 0 <= j1 < j2 < records.len()
        ==> (#[trigger] records[j1]).layer_id != (#[trigger] records[j2]).layer_id || record_block(records[j1]) != record_block(records[j2])
}

fn baseline_record_for(entry: &BlockCanvas, document_id: &str) -> (r: SharedDocumentActionRecord)
    requires
        entry.canvas.wf(),
    ensures
        baseline_record(r@, (entry.layer_id@, entry.block_id@), document_id@),
        propagated_from(r@, entry.canvas),
{
    let mut action_id = owned("baseline-");
    push_str(&mut action_id, entry.layer_id.as_str());
    push_str(&mut action_id, "-");
    push_str(&mut action_id, entry.block_id.as_str());
    let patches = fill_patches_from(&entry.canvas);
    let rec = SharedDocumentActionRecord::cell_patch_set(
        action_id.as_str(),
        document_id,
        entry.layer_id.as_str(),
        "history-squash",
        "baseline",
        patches,
        Some(entry.block_id.clone()),
    );
    rec.as_passive()
}

fn fill_patches_from(canvas: &Canvas) -> (r: Vec<SharedCellPatch>)
    ensures
        fill_patches(canvas.entries_view(), r@),
{
    let entries = canvas.entries();
    let mut out: Vec<SharedCellPatch> = Vec::new();
    let mut i: usize = 0;
    while i < entries.len()
        invariant
            entries@ == canvas.entries_view(),
            i <= entries@.len(),
            fill_patches(entries@.take(i as int), out@),
        decreases entries@.len() - i,
    {
        let e = &entries[i];
        out.push(SharedCellPatch::new(e.position, None, Some(&e.cell)));
        proof {
            let t = entries@.take(i + 1);
            assert forall|k: int| 0 <= k < t.len() implies {
                &&& (#[trigger] out@[k]).position == PersistedCellPoint::from_runtime_spec(t[k].position)
                &&& out@[k].before is None
                &&& stores_opt(out@[k].after, Some(t[k].cell))
            } by {
                if k < i {
                    assert(t[k] == entries@.take(i as int)[k]);
                }
            }
        }
        i = i + 1;
    }
    proof {
        assert(entries@.take(i as int) =~= entries@);
    }
    out
}

/// The key a record is filed under: its layer and the block it aims at.
pub open spec fn key_of(rec: RecordView) -> (Seq<char>, Seq<char>) {
    (rec.layer_id, record_block(rec))
}

/// Key order: by layer id, then by block id, each in text order.
pub open spec fn key_lt(a: (Seq<char>, Seq<char>), b: (Seq<char>, Seq<char>)) -> bool {
    text_lt(a.0, b.0) || (a.0 == b.0 && text_lt(a.1, b.1))
}

/// Each record's key comes before the next record's.
pub open spec fn in_key_order(records: Seq<RecordView>) -> bool {
    forall|i: int, j: int| 0 <= i && j == i + 1 && j < records.len()
        ==> key_lt(key_of(#[trigger] records[i]), key_of(#[trigger] records[j]))
}

proof fn lemma_key_lt_total(a: (Seq<char>, Seq<char>), b: (Seq<char>, Seq<char>))
    requires
        a != b,
    ensures
        key_lt(a, b) || key_lt(b, a),
{
    if a.0 != b.0 {
        lemma_text_lt_total(a.0, b.0);
    } else {
        lemma_text_lt_total(a.1, b.1);
    }
}

fn key_less(a_layer: &str, a_block: &str, b_layer: &str, b_block: &str) -> (r: bool)
    ensures
        r == key_lt((a_layer@, a_block@), (b_layer@, b_block@)),
{
    if text_less(a_layer, b_layer) {
        return true;
    }
    if !str_eq(a_layer, b_layer) {
        return false;
    }
    text_less(a_block, b_block)
}

/// The key of a store entry.
pub open spec fn entry_key(e: BlockCanvas) -> (Seq<char>, Seq<char>) {
    (e.layer_id@, e.block_id@)
}

/// The baseline records of a canvas store, in key order.
fn baseline_records(store: &Vec<BlockCanvas>, document_id: &str) -> (r: Vec<SharedDocumentActionRecord>)
    requires
        canvases_wf(store@),
    ensures
        baseline_of(records_view(r@), canvas_view(store@), document_id@),
        in_key_order(records_view(r@)),
{
    let ghost s = store@;
    let mut out: Vec<SharedDocumentActionRecord> = Vec::new();
    let mut idx: Vec<usize> = Vec::new();
    let mut i: usize = 0;
    while i < store.len()
        invariant
            s == store@,
            canvases_wf(s),
            i <= s.len(),
            out@.len() == idx@.len(),
            forall|j: int| 0 <= j < idx@.len() ==> #[trigger] idx@[j] < i,
            forall|j1: int, j2: int| 0 <= j1 < idx@.len() && 0 <= j2 < idx@.len() && j1 != j2 ==> #[trigger] idx@[j1] != #[trigger] idx@[j2],
            forall|j: int| 0 <= j < idx@.len() ==> {
                &&& baseline_record((#[trigger] out@[j])@, entry_key(s[idx@[j] as int]), document_id@)
                &&& propagated_from(out@[j]@, s[idx@[j] as int].canvas)
                &&& s[idx@[j] as int].canvas.cells().dom().len() > 0
            },
            forall|k: int| 0 <= k < i && (#[trigger] s[k]).canvas.cells().dom().len() > 0 ==> exists|j: int| 0 <= j < idx@.len() && idx@[j] == k,
            forall|a: int, b: int| 0 <= a && b == a + 1 && b < idx@.len()
                ==> key_lt(entry_key(s[#[trigger] idx@[a] as int]), entry_key(s[#[trigger] idx@[b] as int])),
        decreases s.len() - i,
    {
        let entry = &store[i];
        proof {
            assert(s[i as int].canvas.wf());
        }
        let ghost idx0 = idx@;
        let ghost out0 = out@;
        if !entry.canvas.is_empty() {
            let rec = baseline_record_for(entry, document_id);
            let mut p: usize = 0;
            while p < idx.len()
                invariant
                    s == store@,
                    idx@ == idx0,
                    i < s.len(),
                    *entry == s[i as int],
                    p <= idx@.len(),
                    forall|j: int| 0 <= j < idx@.len() ==> #[trigger] idx@[j] < i,
                    forall|q: int| 0 <= q < p ==> !key_lt(entry_key(s[i as int]), entry_key(s[#[trigger] idx@[q] as int])),
                ensures
                    p <= idx@.len(),
                    forall|q: int| 0 <= q < p ==> !key_lt(entry_key(s[i as int]), entry_key(s[#[trigger] idx@[q] as int])),
                    p < idx@.len() ==> key_lt(entry_key(s[i as int]), entry_key(s[idx@[p as int] as int])),
                decreases idx@.len() - p,
            {
                let q = idx[p];
                if key_less(entry.layer_id.as_str(), entry.block_id.as_str(), store[q].layer_id.as_str(), store[q].block_id.as_str()) {
                    break;
                }
                p = p + 1;
            }
            out.insert(p, rec);
            idx.insert(p, i);
            proof {
                lemma_insert_sorted(s, idx0, idx@, p as int, i);
                out0.insert_ensures(p as int, rec);
                idx0.insert_ensures(p as int, i);
                assert forall|k: int| 0 <= k < i + 1 && (#[trigger] s[k]).canvas.cells().dom().len() > 0
                    implies exists|j: int| 0 <= j < idx@.len() && idx@[j] == k by {
                    if k < i {
                        let j = choose|j: int| 0 <= j < idx0.len() && idx0[j] == k;
                        if j < p {
                            assert(idx@[j] == k);
                        } else {
                            assert(idx@[j + 1] == k);
                        }
                    } else {
                        assert(idx@[p as int] == k);
                    }
                }
                assert forall|j: int| 0 <= j < idx@.len() implies {
                    &&& baseline_record((#[trigger] out@[j])@, entry_key(s[idx@[j] as int]), document_id@)
                    &&& propagated_from(out@[j]@, s[idx@[j] as int].canvas)
                    &&& s[idx@[j] as int].canvas.cells().dom().len() > 0
                } by {
                    if j < p {
                        assert(out@[j] == out0[j] && idx@[j] == idx0[j]);
                    } else if j > p {
                        assert(out@[j] == out0[j - 1] && idx@[j] == idx0[j - 1]);
                    }
                }
            }
        }
        i = i + 1;
    }
    proof {
        let ks = idx@.map_values(|x: usize| x as int);
        assert forall|j: int| 0 <= j < ks.len() implies #[trigger] ks[j] == idx@[j] as int by {}
        assert forall|j: int| 0 <= j < ks.len() implies {
            &&& baseline_record((#[trigger] out@[j])@, (s[ks[j]].layer_id@, s[ks[j]].block_id@), document_id@)
            &&& propagated_from(out@[j]@, s[ks[j]].canvas)
            &&& s[ks[j]].canvas.cells().dom().len() > 0
        } by {
            assert(ks[j] == idx@[j] as int);
        }
        assert forall|k: int| 0 <= k < s.len() && (#[trigger] s[k]).canvas.cells().dom().len() > 0
            implies exists|j: int| 0 <= j < ks.len() && ks[j] == k by {
            let j = choose|j: int| 0 <= j < idx@.len() && idx@[j] == k;
            assert(ks[j] == k);
        }
        lemma_baseline_of(s, out@, ks, document_id@);
        let recs = records_view(out@);
        assert forall|a: int, b: int| 0 <= a && b == a + 1 && b < recs.len()
            implies key_lt(key_of(#[trigger] recs[a]), key_of(#[trigger] recs[b])) by {
            assert(recs[a] == out@[a]@ && recs[b] == out@[b]@);
            assert(baseline_record(out@[a]@, entry_key(s[idx@[a] as int]), document_id@));
            assert(baseline_record(out@[b]@, entry_key(s[idx@[b] as int]), document_id@));
        }
    }
    out
}

/// Inserting an index at the first place whose key follows it keeps the
/// indices distinct, below the next one, and in key order.
proof fn lemma_insert_sorted(s: Seq<BlockCanvas>, before: Seq<usize>, after: Seq<usize>, p: int, i: usize)
    requires
        canvases_wf(s),
        i < s.len(),
        0 <= p <= before.len(),
        after == before.insert(p, i),
        forall|j: int| 0 <= j < before.len() ==> #[trigger] before[j] < i,
        forall|j1: int, j2: int| 0 <= j1 < before.len() && 0 <= j2 < before.len() && j1 != j2 ==> #[trigger] before[j1] != #[trigger] before[j2],
        forall|q: int| 0 <= q < p ==> !key_lt(entry_key(s[i as int]), entry_key(s[#[trigger] before[q] as int])),
        p < before.len() ==> key_lt(entry_key(s[i as int]), entry_key(s[before[p] as int])),
        forall|a: int, b: int| 0 <= a && b == a + 1 && b < before.len()
            ==> key_lt(entry_key(s[#[trigger] before[a] as int]), entry_key(s[#[trigger] before[b] as int])),
    ensures
        forall|j: int| 0 <= j < after.len() ==> #[trigger] after[j] < i + 1,
        forall|j1: int, j2: int| 0 <= j1 < after.len() && 0 <= j2 < after.len() && j1 != j2 ==> #[trigger] after[j1] != #[trigger] after[j2],
        forall|a: int, b: int| 0 <= a && b == a + 1 && b < after.len()
            ==> key_lt(entry_key(s[#[trigger] after[a] as int]), entry_key(s[#[trigger] after[b] as int])),
{
    before.insert_ensures(p, i);
    assert forall|j: int| 0 <= j < after.len() implies #[trigger] after[j] < i + 1 by {
        if j < p {
        } else if j > p {
            assert(after[j] == before[j - 1]);
        }
    }
    assert forall|j1: int, j2: int| 0 <= j1 < after.len() && 0 <= j2 < after.len() && j1 != j2
        implies #[trigger] after[j1] != #[trigger] after[j2] by {
        if j1 == p {
            assert(after[j1] == i);
            if j2 < p {
                assert(after[j2] == before[j2]);
            } else {
                assert(after[j2] == before[j2 - 1]);
            }
        } else if j2 == p {
            assert(after[j2] == i);
            if j1 < p {
                assert(after[j1] == before[j1]);
            } else {
                assert(after[j1] == before[j1 - 1]);
            }
        } else {
            let b1 = if j1 < p { j1 } else { j1 - 1 };
            let b2 = if j2 < p { j2 } else { j2 - 1 };
            assert(after[j1] == before[b1]);
            assert(after[j2] == before[b2]);
            assert(b1 != b2);
        }
    }
    assert forall|a: int, b: int| 0 <= a && b == a + 1 && b < after.len()
        implies key_lt(entry_key(s[#[trigger] after[a] as int]), entry_key(s[#[trigger] after[b] as int])) by {
        if b < p {
            assert(after[a] == before[a] && after[b] == before[b]);
        } else if b == p {
            let k = before[a] as int;
            assert(after[a] == before[a]);
            assert(after[b] == i);
            assert(k < i);
            assert(!canvas_matches(s[k], s[i as int].layer_id@, s[i as int].block_id@));
            assert(entry_key(s[k]) != entry_key(s[i as int]));
            lemma_key_lt_total(entry_key(s[k]), entry_key(s[i as int]));
        } else if a == p {
            assert(after[a] == i);
            assert(after[b] == before[p]);
        } else {
            assert(after[a] == before[a - 1] && after[b] == before[b - 1]);
        }
    }
}

proof fn lemma_baseline_of(s: Seq<BlockCanvas>, out: Seq<SharedDocumentActionRecord>, ks: Seq<int>, document_id: Seq<char>)
    requires
        canvases_wf(s),
        out.len() == ks.len(),
        forall|j: int| 0 <= j < ks.len() ==> 0 <= #[trigger] ks[j] < s.len(),
        forall|j1: int, j2: int| 0 <= j1 < ks.len() && 0 <= j2 < ks.len() && j1 != j2 ==> #[trigger] ks[j1] != #[trigger] ks[j2],
        forall|j: int| 0 <= j < ks.len() ==> {
            &&& baseline_record((#[trigger] out[j])@, (s[ks[j]].layer_id@, s[ks[j]].block_id@), document_id)
            &&& propagated_from(out[j]@, s[ks[j]].canvas)
            &&& s[ks[j]].canvas.cells().dom().len() > 0
        },
        forall|k: int| 0 <= k < s.len() && (#[trigger] s[k]).canvas.cells().dom().len() > 0 ==> exists|j: int| 0 <= j < ks.len() && ks[j] == k,
    ensures
        baseline_of(records_view(out), canvas_view(s), document_id),
{
    let recs = records_view(out);
    let m = canvas_view(s);
    assert forall|j: int| 0 <= j < recs.len() implies {
        let key = ((#[trigger] recs[j]).layer_id, record_block(recs[j]));
        &&& m.contains_key(key)
        &&& m[key].dom().len() > 0
        &&& baseline_record(recs[j], key, document_id)
        &&& exists|c: Canvas| c.wf() && c.cells() == m[key] && #[trigger] propagated_from(recs[j], c)
    } by {
        let k = ks[j];
        assert(recs[j] == out[j]@);
        assert(baseline_record(out[j]@, (s[k].layer_id@, s[k].block_id@), document_id));
        lemma_canvas_view_at(s, k);
        assert(s[k].canvas.wf());
        assert(propagated_from(recs[j], s[k].canvas));
    }
    assert forall|key: (Seq<char>, Seq<char>)| #[trigger] m.contains_key(key) && m[key].dom().len() > 0
        implies exists|j: int| 0 <= j < recs.len() && (#[trigger] recs[j]).layer_id == key.0 && record_block(recs[j]) == key.1 by {
        let k = choose|k: int| 0 <= k < s.len() && canvas_matches(#[trigger] s[k], key.0, key.1);
        lemma_canvas_view_at(s, k);
        assert(s[k].canvas.cells().dom().len() > 0);
        let j = choose|j: int| 0 <= j < ks.len() && ks[j] == k;
        assert(recs[j] == out[j]@);
        assert(baseline_record(out[j]@, (s[ks[j]].layer_id@, s[ks[j]].block_id@), document_id));
    }
    assert forall|j1: int, j2: int| 0 <= j1 < j2 < recs.len()
        implies (#[trigger] recs[j1]).layer_id != (#[trigger] recs[j2]).layer_id || record_block(recs[j1]) != record_block(recs[j2]) by {
        assert(recs[j1] == out[j1]@);
        assert(recs[j2] == out[j2]@);
        assert(baseline_record(out[j1]@, (s[ks[j1]].layer_id@, s[ks[j1]].block_id@), document_id));
        assert(baseline_record(out[j2]@, (s[ks[j2]].layer_id@, s[ks[j2]].block_id@), document_id));
        if ks[j1] < ks[j2] {
            assert(!canvas_matches(s[ks[j1]], s[ks[j2]].layer_id@, s[ks[j2]].block_id@));
        } else {
            assert(!canvas_matches(s[ks[j2]], s[ks[j1]].layer_id@, s[ks[j1]].block_id@));
        }
    }
}

impl SharedDocumentRuntime {
    /// Folds history older than the undo window into passive baseline
    /// records: when more than `UNDO_HISTORY_DEPTH` records are not yet
    /// folded, the oldest ones (all but the window) are replayed from the
    /// document and every non-empty canvas of that replay becomes one
    /// baseline record, in order of layer id then block id. The document, canvases, undo stacks and in-memory
    /// log are untouched, so this session can still undo past the fold.
    pub fn fold_history(&mut self)
        requires
            old(self).wf(),
            reach_within(old(self).layers_spec(), u32::MAX - 2 - old(self).actions_spec().len()),
        ensures
            final(self).wf(),
            final(self).doc() == old(self).doc(),
            final(self).actions_spec() == old(self).actions_spec(),
            final(self).canvases() == old(self).canvases(),
            forall|l: Seq<char>| #[trigger] final(self).applied(l) == old(self).applied(l) && final(self).undone(l) == old(self).undone(l),
            final(self).applied_patches() == old(self).applied_patches(),
            final(self).revision_spec() == old(self).revision_spec(),
            final(self).actions_spec().len() - final(self).squashed_spec() <= UNDO_HISTORY_DEPTH,
            old(self).actions_spec().len() - old(self).squashed_spec() <= UNDO_HISTORY_DEPTH ==> {
                &&& final(self).baseline_spec() == old(self).baseline_spec()
                &&& final(self).squashed_spec() == old(self).squashed_spec()
            },
            old(self).actions_spec().len() - old(self).squashed_spec() > UNDO_HISTORY_DEPTH ==> {
                let cut = old(self).actions_spec().len() - UNDO_HISTORY_DEPTH;
                &&& final(self).squashed_spec() == cut
                &&& exists|d: SharedDocumentFile, r: SharedDocumentRuntime, trace: Seq<SharedDocumentRuntime>|
                    same_document(d, old(self).doc())
                    && #[trigger] replays(r, trace, d, old(self).actions_spec().take(cut))
                    && baseline_of(final(self).baseline_spec(), r.canvases(), old(self).doc().document_id@)
                &&& in_key_order(final(self).baseline_spec())
            },
            forall|j: int| 0 <= j < final(self).baseline_spec().len() ==> #[trigger] squash_record(final(self).baseline_spec()[j]),
    {
        let len = self.actions.len();
        if len - self.squashed_through <= UNDO_HISTORY_DEPTH {
            proof {
                reveal(baseline_squashed);
                assert forall|j: int| 0 <= j < self.baseline_spec().len() implies #[trigger] squash_record(self.baseline_spec()[j]) by {
                    assert(self.baseline_spec()[j] == self.baseline@[j]@);
                }
            }
            return;
        }
        let new_cut = len - UNDO_HISTORY_DEPTH;
        let mut head: Vec<SharedDocumentActionRecord> = Vec::new();
        let mut i: usize = 0;
        while i < new_cut
            invariant
                new_cut <= self.actions@.len(),
                i <= new_cut,
                records_view(head@) == self.actions_spec().take(i as int),
            decreases new_cut - i,
        {
            let rec = self.actions[i].copy();
            let ghost prev = head@;
            head.push(rec);
            proof {
                assert(records_view(head@) =~= records_view(prev).push(rec@));
                assert(self.actions_spec().take(i + 1) =~= self.actions_spec().take(i as int).push(self.actions_spec()[i as int]));
            }
            i = i + 1;
        }
        let document = self.document.copy();
        proof {
            assert(layers_view(document.layers@) == self.layers_spec());
            lemma_reach_mono(self.layers_spec(), u32::MAX - 2 - self.actions_spec().len(), u32::MAX - 2 - head@.len());
        }
        let ghost d = document;
        let ghost head_view = records_view(head@);
        let replayed = SharedDocumentRuntime::replay(document, head);
        let baseline = baseline_records(&replayed.block_canvases, self.document.document_id.as_str());
        self.baseline = baseline;
        self.squashed_through = new_cut;
        proof {
            let trace = choose|trace: Seq<SharedDocumentRuntime>| #[trigger] replays(replayed, trace, d, head_view);
            assert(replays(replayed, trace, d, old(self).actions_spec().take(new_cut as int)));
            reveal(baseline_squashed);
            assert forall|j: int| 0 <= j < self.baseline@.len() implies #[trigger] squash_record(self.baseline@[j]@) by {
                assert(self.baseline_spec()[j] == self.baseline@[j]@);
                let k = (self.baseline_spec()[j].layer_id, record_block(self.baseline_spec()[j]));
                assert(baseline_record(self.baseline_spec()[j], k, self.document.document_id@));
            }
            assert(baseline_squashed(self.baseline@));
            assert forall|j: int| 0 <= j < self.baseline_spec().len() implies #[trigger] squash_record(self.baseline_spec()[j]) by {
                assert(self.baseline_spec()[j] == self.baseline@[j]@);
            }
        }
    }
}

/// Why a snapshot save refuses to overwrite the files on disk: another
/// writer bumped the document's revision, or appended records this session
/// never replayed.
#[derive(Debug, Clone, Copy, PartialEq, Eq)]
pub enum SnapshotConflict {
    DocumentChanged { disk_revision: u64, local_revision: u64 },
    ActionLogChanged { disk_records: usize, local_records: usize },
}

/// The text of a snapshot refusal.
pub open spec fn conflict_message_spec(c: SnapshotConflict) -> Seq<char> {
    match c {
        SnapshotConflict::DocumentChanged { disk_revision, local_revision } =>
            "shared document changed on disk (disk revision "@ + decimal(disk_revision as nat) + ", local revision "@
                + decimal(local_revision as nat) + "); refusing to overwrite \u{2014} reload the document to pick up the other writer's changes"@,
        SnapshotConflict::ActionLogChanged { disk_records, local_records } =>
            "shared action log changed on disk (disk has "@ + decimal(disk_records as nat) + " records, this session accounts for "@
                + decimal(local_records as nat) + "); refusing to overwrite \u{2014} reload the document to pick up the other writer's changes"@,
    }
}

impl SnapshotConflict {
    pub fn message(&self) -> (m: String)
        ensures
            m@ == conflict_message_spec(*self),
    {
        match self {
            SnapshotConflict::DocumentChanged { disk_revision, local_revision } => {
                let mut m = owned("shared document changed on disk (disk revision ");
                push_decimal(&mut m, *disk_revision);
                push_str(&mut m, ", local revision ");
                push_decimal(&mut m, *local_revision);
                push_str(&mut m, "); refusing to overwrite \u{2014} reload the document to pick up the other writer's changes");
                m
            },
            SnapshotConflict::ActionLogChanged { disk_records, local_records } => {
                let mut m = owned("shared action log changed on disk (disk has ");
                push_decimal(&mut m, *disk_records as u64);
                push_str(&mut m, " records, this session accounts for ");
                push_decimal(&mut m, *local_records as u64);
                push_str(&mut m, "); refusing to overwrite \u{2014} reload the document to pick up the other writer's changes");
                m
            },
        }
    }
}

impl SharedDocumentRuntime {
    /// How many records the saved log holds for this session: the
    /// baselines and every record not yet folded.
    pub fn saved_record_count(&self) -> (n: usize)
        requires
            self.wf(),
        ensures
            n == self.baseline_spec().len() + self.actions_spec().len() - self.squashed_spec(),
    {
        let records = self.actions_for_file();
        proof {
            assert(records@.map_values(|x: SharedDocumentActionRecord| x@).len() == records@.len());
            assert(self.squashed_through <= self.actions@.len());
        }
        records.len()
    }

    /// Whether a snapshot save may overwrite the files on disk: the saved
    /// document's revision (when there is one) must be this session's, and
    /// the saved log's record count (when there is one) must be what this
    /// session accounts for; the revision is compared first.
    pub fn snapshot_conflict(&self, disk_revision: Option<u64>, disk_record_count: Option<usize>) -> (r: Result<(), SnapshotConflict>)
        requires
            self.wf(),
        ensures
            match disk_revision {
                Some(d) if d != self.revision_spec() =>
                    r == Err::<(), SnapshotConflict>(SnapshotConflict::DocumentChanged { disk_revision: d, local_revision: self.revision_spec() }),
                _ => match disk_record_count {
                    Some(c) if c != self.baseline_spec().len() + self.actions_spec().len() - self.squashed_spec() =>
                        r == Err::<(), SnapshotConflict>(SnapshotConflict::ActionLogChanged {
                            disk_records: c,
                            local_records: (self.baseline_spec().len() + self.actions_spec().len() - self.squashed_spec()) as usize,
                        }),
                    _ => r is Ok,
                },
            },
    {
        if let Some(d) = disk_revision {
            if d != self.revision {
                return Err(SnapshotConflict::DocumentChanged { disk_revision: d, local_revision: self.revision });
            }
        }
        if let Some(c) = disk_record_count {
            let expected = self.saved_record_count();
            if c != expected {
                return Err(SnapshotConflict::ActionLogChanged { disk_records: c, local_records: expected });
            }
        }
        Ok(())
    }

    /// The document a snapshot save writes: this session's document with
    /// the next revision.
    pub fn next_snapshot_document(&self) -> (d: SharedDocumentFile)
        requires
            self.revision_spec() < u64::MAX,
        ensures
            same_document(d, SharedDocumentFile { revision: (self.revision_spec() + 1) as u64, ..self.doc() }),
            self.doc().selection.wf() ==> d.selection.wf(),
    {
        let mut d = self.document.copy();
        d.revision = self.revision + 1;
        d
    }

    /// Adopts the document a snapshot save wrote, and its revision, once
    /// both files are on disk.
    pub fn commit_snapshot(&mut self, document: SharedDocumentFile)
        requires
            old(self).wf(),
            document.selection.wf(),
        ensures
            final(self).wf(),
            final(self).doc() == document,
            final(self).revision_spec() == document.revision,
            final(self).actions_spec() == old(self).actions_spec(),
            final(self).canvases() == old(self).canvases(),
            final(self).baseline_spec() == old(self).baseline_spec(),
            final(self).squashed_spec() == old(self).squashed_spec(),
            forall|l: Seq<char>| #[trigger] final(self).applied(l) == old(self).applied(l) && final(self).undone(l) == old(self).undone(l),
    {
        self.revision = document.revision;
        self.document = document;
    }
}

} // verus!
