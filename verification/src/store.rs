//! The runtime's keyed bookkeeping: one canvas per raster block, the applied
//! and undone action stacks per layer, and the patches each applied action
//! landed. Each is a vector of entries with distinct keys, read as a map.

use vstd::prelude::*;
use crate::canvas::{Canvas, CellPoint, PaintedCell};
use crate::records::SharedCellPatch;
use crate::text::{owned, str_eq};

verus! {

/// The canvas of one raster block.
pub struct BlockCanvas {
    pub layer_id: String,
    pub block_id: String,
    pub canvas: Canvas,
}

pub open spec fn canvas_matches(e: BlockCanvas, layer: Seq<char>, block: Seq<char>) -> bool {
    e.layer_id@ == layer && e.block_id@ == block
}

/// No two entries share a key, and every canvas is well formed.
pub open spec fn canvases_wf(s: Seq<BlockCanvas>) -> bool {
    &&& forall|i: int, j: int| 0 <= i < j < s.len() ==> !canvas_matches(#[trigger] s[i], s[j].layer_id@, #[trigger] s[j].block_id@)
    &&& forall|i: int| 0 <= i < s.len() ==> (#[trigger] s[i]).canvas.wf()
}

/// The cells of every block canvas, by `(layer id, block id)`.
pub open spec fn canvas_view(s: Seq<BlockCanvas>) -> Map<(Seq<char>, Seq<char>), Map<CellPoint, PaintedCell>> {
    Map::new(
        |k: (Seq<char>, Seq<char>)| exists|i: int| 0 <= i < s.len() && canvas_matches(#[trigger] s[i], k.0, k.1),
        |k: (Seq<char>, Seq<char>)| s[choose|i: int| 0 <= i < s.len() && canvas_matches(#[trigger] s[i], k.0, k.1)].canvas.cells(),
    )
}

pub proof fn lemma_canvas_view_at(s: Seq<BlockCanvas>, i: int)
    requires
        canvases_wf(s),
        0 <= i < s.len(),
    ensures
        canvas_view(s).contains_key((s[i].layer_id@, s[i].block_id@)),
        canvas_view(s)[(s[i].layer_id@, s[i].block_id@)] == s[i].canvas.cells(),
{
    let k = (s[i].layer_id@, s[i].block_id@);
    assert(canvas_matches(s[i], k.0, k.1));
    let j = choose|j: int| 0 <= j < s.len() && canvas_matches(#[trigger] s[j], k.0, k.1);
    if j < i {
        assert(!canvas_matches(s[j], s[i].layer_id@, s[i].block_id@));
    } else if j > i {
        assert(!canvas_matches(s[i], s[j].layer_id@, s[j].block_id@));
    }
}

/// The index of the canvas keyed `(layer, block)`, if any.
pub fn find_canvas(v: &Vec<BlockCanvas>, layer: &str, block: &str) -> (r: Option<usize>)
    requires
        canvases_wf(v@),
    ensures
        r is Some ==> r->0 < v@.len() && canvas_matches(v@[r->0 as int], layer@, block@),
        r is Some <==> canvas_view(v@).contains_key((layer@, block@)),
        r is Some ==> canvas_view(v@)[(layer@, block@)] == v@[r->0 as int].canvas.cells(),
{
    let mut i: usize = 0;
    while i < v.len()
        invariant
            canvases_wf(v@),
            i <= v@.len(),
            forall|k: int| 0 <= k < i ==> !canvas_matches(#[trigger] v@[k], layer@, block@),
        decreases v@.len() - i,
    {
        if str_eq(v[i].layer_id.as_str(), layer) && str_eq(v[i].block_id.as_str(), block) {
            proof {
                lemma_canvas_view_at(v@, i as int);
            }
            return Some(i);
        }
        i = i + 1;
    }
    None
}

/// The index of the canvas keyed `(layer, block)`, adding an empty canvas
/// under that key when there is none.
pub fn canvas_entry(v: &mut Vec<BlockCanvas>, layer: &str, block: &str) -> (r: usize)
    requires
        canvases_wf(old(v)@),
    ensures
        canvases_wf(final(v)@),
        r < final(v)@.len(),
        canvas_matches(final(v)@[r as int], layer@, block@),
        final(v)@[r as int].canvas.cells() == canvas_view(final(v)@)[(layer@, block@)],
        canvas_view(old(v)@).contains_key((layer@, block@)) ==> final(v)@ == old(v)@,
        !canvas_view(old(v)@).contains_key((layer@, block@)) ==> final(v)@.len() == old(v)@.len() + 1
            && final(v)@.drop_last() == old(v)@ && final(v)@.last().canvas.cells() == Map::<CellPoint, PaintedCell>::empty(),
        canvas_view(final(v)@) == canvas_view(old(v)@).insert((layer@, block@),
            if canvas_view(old(v)@).contains_key((layer@, block@)) { canvas_view(old(v)@)[(layer@, block@)] } else { Map::empty() }),
{
    match find_canvas(v, layer, block) {
        Some(i) => {
            proof {
                assert(canvas_view(v@) =~= canvas_view(v@).insert((layer@, block@), canvas_view(v@)[(layer@, block@)]));
            }
            i
        },
        None => {
            let ghost before = v@;
            v.push(BlockCanvas { layer_id: owned(layer), block_id: owned(block), canvas: Canvas::new() });
            proof {
                let after = v@;
                assert(after.drop_last() =~= before);
                assert forall|i: int, j: int| 0 <= i < j < after.len() implies !canvas_matches(#[trigger] after[i], after[j].layer_id@, #[trigger] after[j].block_id@) by {
                    if j == after.len() - 1 {
                        assert(!canvas_matches(before[i], layer@, block@)) by {
                            if canvas_matches(before[i], layer@, block@) {
                                assert(canvas_view(before).contains_key((layer@, block@)));
                            }
                        }
                    } else {
                        assert(after[i] == before[i] && after[j] == before[j]);
                    }
                }
                assert forall|i: int| 0 <= i < after.len() implies (#[trigger] after[i]).canvas.wf() by {
                    if i < before.len() {
                        assert(after[i] == before[i]);
                    }
                }
                let m = canvas_view(before).insert((layer@, block@), Map::empty());
                assert forall|k: (Seq<char>, Seq<char>)| #[trigger] canvas_view(after).contains_key(k) <==> m.contains_key(k) by {
                    if canvas_view(after).contains_key(k) && k != (layer@, block@) {
                        let i = choose|i: int| 0 <= i < after.len() && canvas_matches(#[trigger] after[i], k.0, k.1);
                        assert(i < before.len());
                        assert(after[i] == before[i]);
                        assert(canvas_matches(before[i], k.0, k.1));
                    }
                    if m.contains_key(k) && k != (layer@, block@) {
                        let i = choose|i: int| 0 <= i < before.len() && canvas_matches(#[trigger] before[i], k.0, k.1);
                        assert(after[i] == before[i]);
                        assert(canvas_matches(after[i], k.0, k.1));
                    }
                    if k == (layer@, block@) {
                        assert(canvas_matches(after[after.len() - 1], k.0, k.1));
                    }
                }
                assert forall|k: (Seq<char>, Seq<char>)| #[trigger] canvas_view(after).contains_key(k) implies canvas_view(after)[k] == m[k] by {
                    let i = choose|i: int| 0 <= i < after.len() && canvas_matches(#[trigger] after[i], k.0, k.1);
                    lemma_canvas_view_at(after, i);
                    if i < before.len() {
                        assert(after[i] == before[i]);
                        lemma_canvas_view_at(before, i);
                    }
                }
                assert(canvas_view(after) =~= m);
                lemma_canvas_view_at(after, after.len() - 1);
            }
            v.len() - 1
        },
    }
}

/// Replaces the canvas at an index, keeping its key.
pub fn set_canvas_at(v: &mut Vec<BlockCanvas>, i: usize, canvas: Canvas)
    requires
        canvases_wf(old(v)@),
        i < old(v)@.len(),
        canvas.wf(),
    ensures
        canvases_wf(final(v)@),
        final(v)@.len() == old(v)@.len(),
        final(v)@[i as int].layer_id == old(v)@[i as int].layer_id,
        final(v)@[i as int].block_id == old(v)@[i as int].block_id,
        canvas_view(final(v)@) == canvas_view(old(v)@).insert((old(v)@[i as int].layer_id@, old(v)@[i as int].block_id@), canvas.cells()),
{
    let ghost before = v@;
    let mut e = v.remove(i);
    e.canvas = canvas;
    v.insert(i, e);
    proof {
        let after = v@;
        assert forall|a: int| 0 <= a < after.len() && a != i implies #[trigger] after[a] == before[a] by {}
        assert forall|a: int, b: int| 0 <= a < b < after.len() implies !canvas_matches(#[trigger] after[a], after[b].layer_id@, #[trigger] after[b].block_id@) by {
            assert(!canvas_matches(before[a], before[b].layer_id@, before[b].block_id@));
        }
        assert forall|a: int| 0 <= a < after.len() implies (#[trigger] after[a]).canvas.wf() by {
            if a != i {
                assert(after[a] == before[a]);
            }
        }
        let key = (before[i as int].layer_id@, before[i as int].block_id@);
        let m = canvas_view(before).insert(key, canvas.cells());
        lemma_canvas_view_at(before, i as int);
        lemma_canvas_view_at(after, i as int);
        assert forall|k: (Seq<char>, Seq<char>)| #[trigger] canvas_view(after).contains_key(k) <==> m.contains_key(k) by {
            if canvas_view(after).contains_key(k) {
                let a = choose|a: int| 0 <= a < after.len() && canvas_matches(#[trigger] after[a], k.0, k.1);
                assert(canvas_matches(before[a], k.0, k.1));
            }
            if canvas_view(before).contains_key(k) {
                let a = choose|a: int| 0 <= a < before.len() && canvas_matches(#[trigger] before[a], k.0, k.1);
                assert(canvas_matches(after[a], k.0, k.1));
            }
        }
        assert forall|k: (Seq<char>, Seq<char>)| #[trigger] canvas_view(after).contains_key(k) implies canvas_view(after)[k] == m[k] by {
            let a = choose|a: int| 0 <= a < after.len() && canvas_matches(#[trigger] after[a], k.0, k.1);
            lemma_canvas_view_at(after, a);
            if a != i {
                lemma_canvas_view_at(before, a);
            }
        }
        assert(canvas_view(after) =~= m);
    }
}

/// Takes the canvas at an index out, leaving an empty one under its key.
pub fn take_canvas_at(v: &mut Vec<BlockCanvas>, i: usize) -> (c: Canvas)
    requires
        canvases_wf(old(v)@),
        i < old(v)@.len(),
    ensures
        canvases_wf(final(v)@),
        final(v)@.len() == old(v)@.len(),
        c.wf(),
        c.cells() == old(v)@[i as int].canvas.cells(),
        final(v)@[i as int].layer_id == old(v)@[i as int].layer_id,
        final(v)@[i as int].block_id == old(v)@[i as int].block_id,
        canvas_view(final(v)@) == canvas_view(old(v)@).insert((old(v)@[i as int].layer_id@, old(v)@[i as int].block_id@), Map::empty()),
{
    let c = v[i].canvas.copy();
    proof {
        assert(c.cells() == v@[i as int].canvas.cells());
    }
    set_canvas_at(v, i, Canvas::new());
    c
}

/// Removes the canvas keyed `(layer, block)`, if any.
pub fn remove_canvas(v: &mut Vec<BlockCanvas>, layer: &str, block: &str)
    requires
        canvases_wf(old(v)@),
    ensures
        canvases_wf(final(v)@),
        canvas_view(final(v)@) == canvas_view(old(v)@).remove((layer@, block@)),
        final(v)@.len() == if canvas_view(old(v)@).contains_key((layer@, block@)) { old(v)@.len() - 1 } else { old(v)@.len() as int },
{
    match find_canvas(v, layer, block) {
        None => {
            proof {
                assert(canvas_view(v@) =~= canvas_view(v@).remove((layer@, block@)));
            }
        },
        Some(i) => {
            let ghost before = v@;
            v.remove(i);
            proof {
                let after = v@;
                assert forall|a: int| 0 <= a < after.len() implies #[trigger] after[a] == before[if a < i { a } else { a + 1 }] by {}
                assert forall|a: int, b: int| 0 <= a < b < after.len() implies !canvas_matches(#[trigger] after[a], after[b].layer_id@, #[trigger] after[b].block_id@) by {
                    let a2 = if a < i { a } else { a + 1 };
                    let b2 = if b < i { b } else { b + 1 };
                    assert(after[a] == before[a2] && after[b] == before[b2]);
                }
                assert forall|a: int| 0 <= a < after.len() implies (#[trigger] after[a]).canvas.wf() by {
                    let a2 = if a < i { a } else { a + 1 };
                    assert(after[a] == before[a2]);
                }
                let m = canvas_view(before).remove((layer@, block@));
                assert forall|k: (Seq<char>, Seq<char>)| #[trigger] canvas_view(after).contains_key(k) <==> m.contains_key(k) by {
                    if canvas_view(after).contains_key(k) {
                        let a = choose|a: int| 0 <= a < after.len() && canvas_matches(#[trigger] after[a], k.0, k.1);
                        let a2 = if a < i { a } else { a + 1 };
                        assert(after[a] == before[a2]);
                        assert(canvas_matches(before[a2], k.0, k.1));
                        if k == (layer@, block@) {
                            assert(a2 != i);
                            if a2 < i {
                                assert(!canvas_matches(before[a2], before[i as int].layer_id@, before[i as int].block_id@));
                            } else {
                                assert(!canvas_matches(before[i as int], before[a2].layer_id@, before[a2].block_id@));
                            }
                        }
                    }
                    if m.contains_key(k) {
                        let a = choose|a: int| 0 <= a < before.len() && canvas_matches(#[trigger] before[a], k.0, k.1);
                        assert(a != i);
                        let a2 = if a < i { a } else { a - 1 };
                        assert(after[a2] == before[a]);
                        assert(canvas_matches(after[a2], k.0, k.1));
                    }
                }
                assert forall|k: (Seq<char>, Seq<char>)| #[trigger] canvas_view(after).contains_key(k) implies canvas_view(after)[k] == m[k] by {
                    let a = choose|a: int| 0 <= a < after.len() && canvas_matches(#[trigger] after[a], k.0, k.1);
                    let a2 = if a < i { a } else { a + 1 };
                    lemma_canvas_view_at(after, a);
                    lemma_canvas_view_at(before, a2);
                }
                assert(canvas_view(after) =~= m);
            }
        },
    }
}

fn find_layer_canvas(v: &Vec<BlockCanvas>, layer: &str) -> (r: Option<usize>)
    ensures
        r is Some ==> r->0 < v@.len() && v@[r->0 as int].layer_id@ == layer@,
        r is None ==> forall|k: int| 0 <= k < v@.len() ==> (#[trigger] v@[k]).layer_id@ != layer@,
{
    let mut i: usize = 0;
    while i < v.len()
        invariant
            i <= v@.len(),
            forall|k: int| 0 <= k < i ==> (#[trigger] v@[k]).layer_id@ != layer@,
        decreases v@.len() - i,
    {
        if str_eq(v[i].layer_id.as_str(), layer) {
            return Some(i);
        }
        i = i + 1;
    }
    None
}

/// Removes every canvas of one layer.
pub fn remove_layer_canvases(v: &mut Vec<BlockCanvas>, layer: &str)
    requires
        canvases_wf(old(v)@),
    ensures
        canvases_wf(final(v)@),
        forall|k: (Seq<char>, Seq<char>)| #[trigger] canvas_view(final(v)@).contains_key(k)
            <==> canvas_view(old(v)@).contains_key(k) && k.0 != layer@,
        forall|k: (Seq<char>, Seq<char>)| #[trigger] canvas_view(final(v)@).contains_key(k)
            ==> canvas_view(final(v)@)[k] == canvas_view(old(v)@)[k],
{
    let ghost before = canvas_view(v@);
    loop
        invariant
            canvases_wf(v@),
            forall|k: (Seq<char>, Seq<char>)| k.0 != layer@ ==> (#[trigger] canvas_view(v@).contains_key(k) <==> before.contains_key(k)),
            forall|k: (Seq<char>, Seq<char>)| #[trigger] canvas_view(v@).contains_key(k) ==> before.contains_key(k) && canvas_view(v@)[k] == before[k],
        ensures
            canvases_wf(v@),
            forall|k: (Seq<char>, Seq<char>)| #[trigger] canvas_view(v@).contains_key(k) <==> before.contains_key(k) && k.0 != layer@,
            forall|k: (Seq<char>, Seq<char>)| #[trigger] canvas_view(v@).contains_key(k) ==> canvas_view(v@)[k] == before[k],
        decreases v@.len(),
    {
        match find_layer_canvas(v, layer) {
            None => {
                proof {
                    assert forall|k: (Seq<char>, Seq<char>)| #[trigger] canvas_view(v@).contains_key(k) implies k.0 != layer@ by {
                        let i = choose|i: int| 0 <= i < v@.len() && canvas_matches(#[trigger] v@[i], k.0, k.1);
                    }
                }
                break;
            },
            Some(i) => {
                let block = v[i].block_id.clone();
                proof {
                    lemma_canvas_view_at(v@, i as int);
                }
                remove_canvas(v, layer, block.as_str());
            },
        }
    }
}

/// The action ids of one layer's stack, oldest first.
pub struct LayerStack {
    pub layer_id: String,
    pub ids: Vec<String>,
}

pub open spec fn ids_view(ids: Seq<String>) -> Seq<Seq<char>> {
    ids.map_values(|x: String| x@)
}

/// No two stacks share a layer.
pub open spec fn stacks_wf(s: Seq<LayerStack>) -> bool {
    forall|i: int, j: int| 0 <= i < j < s.len() ==> (#[trigger] s[i]).layer_id@ != (#[trigger] s[j]).layer_id@
}

/// A layer's stack; a layer without one has an empty stack.
pub open spec fn stack_of(s: Seq<LayerStack>, layer: Seq<char>) -> Seq<Seq<char>> {
    if exists|i: int| 0 <= i < s.len() && (#[trigger] s[i]).layer_id@ == layer {
        ids_view(s[choose|i: int| 0 <= i < s.len() && (#[trigger] s[i]).layer_id@ == layer].ids@)
    } else {
        Seq::empty()
    }
}

proof fn lemma_stack_at(s: Seq<LayerStack>, i: int)
    requires
        stacks_wf(s),
        0 <= i < s.len(),
    ensures
        stack_of(s, s[i].layer_id@) == ids_view(s[i].ids@),
{
    let j = choose|j: int| 0 <= j < s.len() && (#[trigger] s[j]).layer_id@ == s[i].layer_id@;
    if j != i {
        if j < i {
            assert(s[j].layer_id@ != s[i].layer_id@);
        } else {
            assert(s[i].layer_id@ != s[j].layer_id@);
        }
    }
}

fn find_stack(v: &Vec<LayerStack>, layer: &str) -> (r: Option<usize>)
    requires
        stacks_wf(v@),
    ensures
        r is Some ==> r->0 < v@.len() && v@[r->0 as int].layer_id@ == layer@ && stack_of(v@, layer@) == ids_view(v@[r->0 as int].ids@),
        r is None ==> forall|k: int| 0 <= k < v@.len() ==> (#[trigger] v@[k]).layer_id@ != layer@,
        r is None ==> stack_of(v@, layer@) == Seq::<Seq<char>>::empty(),
{
    let mut i: usize = 0;
    while i < v.len()
        invariant
            stacks_wf(v@),
            i <= v@.len(),
            forall|k: int| 0 <= k < i ==> (#[trigger] v@[k]).layer_id@ != layer@,
        decreases v@.len() - i,
    {
        if str_eq(v[i].layer_id.as_str(), layer) {
            proof {
                lemma_stack_at(v@, i as int);
            }
            return Some(i);
        }
        i = i + 1;
    }
    None
}

/// Replaces the stack of one layer, adding an entry for it if needed.
fn set_stack(v: &mut Vec<LayerStack>, layer: &str, ids: Vec<String>)
    requires
        stacks_wf(old(v)@),
    ensures
        stacks_wf(final(v)@),
        stack_of(final(v)@, layer@) == ids_view(ids@),
        forall|l: Seq<char>| l != layer@ ==> #[trigger] stack_of(final(v)@, l) == stack_of(old(v)@, l),
{
    let ghost before = v@;
    let ghost new_ids = ids@;
    match find_stack(v, layer) {
        Some(i) => {
            let mut e = v.remove(i);
            e.ids = ids;
            v.insert(i, e);
            proof {
                let after = v@;
                assert forall|a: int| 0 <= a < after.len() && a != i implies #[trigger] after[a] == before[a] by {}
                assert forall|a: int, b: int| 0 <= a < b < after.len() implies (#[trigger] after[a]).layer_id@ != (#[trigger] after[b]).layer_id@ by {
                    assert(before[a].layer_id@ != before[b].layer_id@);
                }
                lemma_stack_at(after, i as int);
                assert forall|l: Seq<char>| l != layer@ implies #[trigger] stack_of(after, l) == stack_of(before, l) by {
                    if exists|a: int| 0 <= a < before.len() && (#[trigger] before[a]).layer_id@ == l {
                        let a = choose|a: int| 0 <= a < before.len() && (#[trigger] before[a]).layer_id@ == l;
                        lemma_stack_at(before, a);
                        lemma_stack_at(after, a);
                    } else {
                        assert forall|a: int| 0 <= a < after.len() implies (#[trigger] after[a]).layer_id@ != l by {
                            if a != i {
                                assert(after[a] == before[a]);
                            }
                        }
                    }
                }
            }
        },
        None => {
            v.push(LayerStack { layer_id: owned(layer), ids });
            proof {
                let after = v@;
                assert forall|a: int| 0 <= a < before.len() implies #[trigger] after[a] == before[a] by {}
                assert forall|a: int, b: int| 0 <= a < b < after.len() implies (#[trigger] after[a]).layer_id@ != (#[trigger] after[b]).layer_id@ by {
                    if b < before.len() {
                        assert(before[a].layer_id@ != before[b].layer_id@);
                    }
                }
                lemma_stack_at(after, before.len() as int);
                assert forall|l: Seq<char>| l != layer@ implies #[trigger] stack_of(after, l) == stack_of(before, l) by {
                    if exists|a: int| 0 <= a < before.len() && (#[trigger] before[a]).layer_id@ == l {
                        let a = choose|a: int| 0 <= a < before.len() && (#[trigger] before[a]).layer_id@ == l;
                        lemma_stack_at(before, a);
                        lemma_stack_at(after, a);
                    } else {
                        assert forall|a: int| 0 <= a < after.len() implies (#[trigger] after[a]).layer_id@ != l by {
                            if a < before.len() {
                                assert(after[a] == before[a]);
                            }
                        }
                    }
                }
            }
        },
    }
}

/// Takes one layer's stack out, leaving it empty.
fn take_stack(v: &mut Vec<LayerStack>, layer: &str) -> (ids: Vec<String>)
    requires
        stacks_wf(old(v)@),
    ensures
        stacks_wf(final(v)@),
        ids_view(ids@) == stack_of(old(v)@, layer@),
        stack_of(final(v)@, layer@) == Seq::<Seq<char>>::empty(),
        forall|l: Seq<char>| l != layer@ ==> #[trigger] stack_of(final(v)@, l) == stack_of(old(v)@, l),
{
    match find_stack(v, layer) {
        Some(i) => {
            let ids = copy_strings(&v[i].ids);
            set_stack(v, layer, Vec::new());
            proof {
                assert(ids_view(Seq::<String>::empty()) =~= Seq::<Seq<char>>::empty());
            }
            ids
        },
        None => {
            proof {
                assert(ids_view(Seq::<String>::empty()) =~= Seq::<Seq<char>>::empty());
            }
            Vec::new()
        },
    }
}

pub fn copy_strings(v: &Vec<String>) -> (r: Vec<String>)
    ensures
        r@ == v@,
{
    let mut out: Vec<String> = Vec::new();
    let mut i: usize = 0;
    while i < v.len()
        invariant
            i <= v@.len(),
            out@ == v@.subrange(0, i as int),
        decreases v@.len() - i,
    {
        out.push(v[i].clone());
        i = i + 1;
        assert(out@ =~= v@.subrange(0, i as int));
    }
    assert(out@ =~= v@);
    out
}

/// Pushes an action id onto one layer's stack.
pub fn stack_push(v: &mut Vec<LayerStack>, layer: &str, id: String)
    requires
        stacks_wf(old(v)@),
    ensures
        stacks_wf(final(v)@),
        stack_of(final(v)@, layer@) == stack_of(old(v)@, layer@).push(id@),
        forall|l: Seq<char>| l != layer@ ==> #[trigger] stack_of(final(v)@, l) == stack_of(old(v)@, l),
{
    let mut ids = take_stack(v, layer);
    let ghost before_ids = ids@;
    ids.push(id);
    proof {
        assert(ids_view(ids@) =~= ids_view(before_ids).push(id@));
    }
    set_stack(v, layer, ids);
}

/// Pops the newest action id off one layer's stack.
pub fn stack_pop(v: &mut Vec<LayerStack>, layer: &str) -> (r: Option<String>)
    requires
        stacks_wf(old(v)@),
    ensures
        stacks_wf(final(v)@),
        stack_of(old(v)@, layer@).len() == 0 ==> r is None && stack_of(final(v)@, layer@) == stack_of(old(v)@, layer@),
        stack_of(old(v)@, layer@).len() > 0 ==> r is Some && r->0@ == stack_of(old(v)@, layer@).last()
            && stack_of(final(v)@, layer@) == stack_of(old(v)@, layer@).drop_last(),
        forall|l: Seq<char>| l != layer@ ==> #[trigger] stack_of(final(v)@, l) == stack_of(old(v)@, l),
{
    let mut ids = take_stack(v, layer);
    let ghost before_ids = ids@;
    let r = ids.pop();
    proof {
        if before_ids.len() > 0 {
            assert(ids_view(ids@) =~= ids_view(before_ids).drop_last());
        }
    }
    set_stack(v, layer, ids);
    r
}

/// Empties one layer's stack.
pub fn stack_clear(v: &mut Vec<LayerStack>, layer: &str)
    requires
        stacks_wf(old(v)@),
    ensures
        stacks_wf(final(v)@),
        stack_of(final(v)@, layer@) == Seq::<Seq<char>>::empty(),
        forall|l: Seq<char>| l != layer@ ==> #[trigger] stack_of(final(v)@, l) == stack_of(old(v)@, l),
{
    let _ = take_stack(v, layer);
}

/// The first index of `id` in a sequence of ids.
pub open spec fn first_index_of(s: Seq<Seq<char>>, id: Seq<char>) -> Option<int> {
    if exists|i: int| 0 <= i < s.len() && s[i] == id {
        Some(choose|i: int| 0 <= i < s.len() && s[i] == id && forall|k: int| 0 <= k < i ==> s[k] != id)
    } else {
        None
    }
}

/// Removes the first occurrence of `id` from one layer's stack; returns
/// whether there was one.
pub fn stack_remove_id(v: &mut Vec<LayerStack>, layer: &str, id: &str) -> (found: bool)
    requires
        stacks_wf(old(v)@),
    ensures
        stacks_wf(final(v)@),
        found == stack_of(old(v)@, layer@).contains(id@),
        found ==> stack_of(final(v)@, layer@) == stack_of(old(v)@, layer@).remove(first_index_of(stack_of(old(v)@, layer@), id@)->0),
        !found ==> stack_of(final(v)@, layer@) == stack_of(old(v)@, layer@),
        forall|l: Seq<char>| l != layer@ ==> #[trigger] stack_of(final(v)@, l) == stack_of(old(v)@, l),
{
    let mut ids = take_stack(v, layer);
    let ghost before_ids = ids@;
    let ghost sv = ids_view(before_ids);
    let mut i: usize = 0;
    while i < ids.len()
        invariant
            ids@ == before_ids,
            sv == ids_view(before_ids),
            sv == stack_of(old(v)@, layer@),
            stacks_wf(v@),
            forall|l: Seq<char>| l != layer@ ==> #[trigger] stack_of(v@, l) == stack_of(old(v)@, l),
            i <= ids@.len(),
            forall|k: int| 0 <= k < i ==> sv[k] != id@,
        decreases ids@.len() - i,
    {
        if str_eq(ids[i].as_str(), id) {
            ids.remove(i);
            proof {
                assert(sv[i as int] == id@);
                let fi = first_index_of(sv, id@);
                assert(fi is Some);
                let j = fi->0;
                if j < i {
                    assert(sv[j] != id@);
                } else if j > i {
                    assert(sv[i as int] != id@);
                }
                assert(ids_view(ids@) =~= sv.remove(i as int));
                assert(sv.contains(id@));
            }
            set_stack(v, layer, ids);
            return true;
        }
        i = i + 1;
    }
    proof {
        assert(!sv.contains(id@)) by {
            if sv.contains(id@) {
                let k = choose|k: int| 0 <= k < sv.len() && sv[k] == id@;
            }
        }
    }
    set_stack(v, layer, ids);
    false
}

/// The patches one applied action landed, and where.
pub struct AppliedPatches {
    pub action_id: String,
    pub layer_id: String,
    pub block_id: String,
    pub patches: Vec<SharedCellPatch>,
}

/// The mathematical form of an applied action: its layer, block and patches.
pub type AppliedView = (Seq<char>, Seq<char>, Seq<SharedCellPatch>);

pub open spec fn applied_wf(s: Seq<AppliedPatches>) -> bool {
    forall|i: int, j: int| 0 <= i < j < s.len() ==> (#[trigger] s[i]).action_id@ != (#[trigger] s[j]).action_id@
}

/// The applied actions by action id.
pub open spec fn applied_view(s: Seq<AppliedPatches>) -> Map<Seq<char>, AppliedView> {
    Map::new(
        |k: Seq<char>| exists|i: int| 0 <= i < s.len() && (#[trigger] s[i]).action_id@ == k,
        |k: Seq<char>| {
            let e = s[choose|i: int| 0 <= i < s.len() && (#[trigger] s[i]).action_id@ == k];
            (e.layer_id@, e.block_id@, e.patches@)
        },
    )
}

proof fn lemma_applied_at(s: Seq<AppliedPatches>, i: int)
    requires
        applied_wf(s),
        0 <= i < s.len(),
    ensures
        applied_view(s).contains_key(s[i].action_id@),
        applied_view(s)[s[i].action_id@] == (s[i].layer_id@, s[i].block_id@, s[i].patches@),
{
    let j = choose|j: int| 0 <= j < s.len() && (#[trigger] s[j]).action_id@ == s[i].action_id@;
    if j != i {
        if j < i {
            assert(s[j].action_id@ != s[i].action_id@);
        } else {
            assert(s[i].action_id@ != s[j].action_id@);
        }
    }
}

pub fn find_applied(v: &Vec<AppliedPatches>, action_id: &str) -> (r: Option<usize>)
    requires
        applied_wf(v@),
    ensures
        r is Some <==> applied_view(v@).contains_key(action_id@),
        r is Some ==> r->0 < v@.len() && v@[r->0 as int].action_id@ == action_id@
            && applied_view(v@)[action_id@] == (v@[r->0 as int].layer_id@, v@[r->0 as int].block_id@, v@[r->0 as int].patches@),
{
    let mut i: usize = 0;
    while i < v.len()
        invariant
            applied_wf(v@),
            i <= v@.len(),
            forall|k: int| 0 <= k < i ==> (#[trigger] v@[k]).action_id@ != action_id@,
        decreases v@.len() - i,
    {
        if str_eq(v[i].action_id.as_str(), action_id) {
            proof {
                lemma_applied_at(v@, i as int);
            }
            return Some(i);
        }
        i = i + 1;
    }
    None
}

proof fn lemma_applied_view_ext(before: Seq<AppliedPatches>, after: Seq<AppliedPatches>, idx: int, key: Seq<char>, val: AppliedView)
    requires
        applied_wf(before),
        0 <= idx < after.len(),
        after[idx].action_id@ == key,
        (after[idx].layer_id@, after[idx].block_id@, after[idx].patches@) == val,
        after.len() == before.len() || (after.len() == before.len() + 1 && idx == before.len()),
        forall|a: int| 0 <= a < after.len() && a != idx ==> #[trigger] after[a] == before[a],
        after.len() == before.len() ==> before[idx].action_id@ == key,
        after.len() == before.len() + 1 ==> !applied_view(before).contains_key(key),
    ensures
        applied_wf(after),
        applied_view(after) == applied_view(before).insert(key, val),
{
    assert forall|a: int| 0 <= a < before.len() && before[a].action_id@ == key implies a == idx by {
        if after.len() == before.len() + 1 {
            lemma_applied_at(before, a);
        } else if a != idx {
            if a < idx {
                assert(before[a].action_id@ != before[idx].action_id@);
            } else {
                assert(before[idx].action_id@ != before[a].action_id@);
            }
        }
    }
    assert forall|a: int, b: int| 0 <= a < b < after.len() implies (#[trigger] after[a]).action_id@ != (#[trigger] after[b]).action_id@ by {
        if a != idx && b != idx {
            assert(before[a].action_id@ != before[b].action_id@);
        }
    }
    let m = applied_view(before).insert(key, val);
    assert forall|k: Seq<char>| #[trigger] applied_view(after).contains_key(k) <==> m.contains_key(k) by {
        if applied_view(after).contains_key(k) && k != key {
            let a = choose|a: int| 0 <= a < after.len() && (#[trigger] after[a]).action_id@ == k;
            assert(a != idx);
            assert(before[a].action_id@ == k);
        }
        if applied_view(before).contains_key(k) && k != key {
            let a = choose|a: int| 0 <= a < before.len() && (#[trigger] before[a]).action_id@ == k;
            assert(a != idx);
            assert(after[a].action_id@ == k);
        }
        if k == key {
            assert(after[idx].action_id@ == k);
        }
    }
    assert forall|k: Seq<char>| #[trigger] applied_view(after).contains_key(k) implies applied_view(after)[k] == m[k] by {
        let a = choose|a: int| 0 <= a < after.len() && (#[trigger] after[a]).action_id@ == k;
        lemma_applied_at(after, a);
        if a != idx {
            lemma_applied_at(before, a);
        }
    }
    assert(applied_view(after) =~= m);
}

/// Records (or replaces) the patches of one applied action.
pub fn insert_applied(v: &mut Vec<AppliedPatches>, entry: AppliedPatches)
    requires
        applied_wf(old(v)@),
    ensures
        applied_wf(final(v)@),
        applied_view(final(v)@) == applied_view(old(v)@).insert(entry.action_id@, (entry.layer_id@, entry.block_id@, entry.patches@)),
{
    let ghost before = v@;
    let ghost key = entry.action_id@;
    let ghost val = (entry.layer_id@, entry.block_id@, entry.patches@);
    match find_applied(v, entry.action_id.as_str()) {
        Some(i) => {
            v.remove(i);
            v.insert(i, entry);
            proof {
                lemma_applied_view_ext(before, v@, i as int, key, val);
            }
        },
        None => {
            v.push(entry);
            proof {
                lemma_applied_view_ext(before, v@, before.len() as int, key, val);
            }
        },
    }
}

} // verus!
