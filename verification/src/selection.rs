//! The document-owned selection: named channels, each a set of 3D cell
//! points kept in point order, and the four ways a point batch writes one.

use vstd::prelude::*;
use crate::canvas::CellPoint;
use crate::records::PersistedCellPoint;
use crate::text::{owned, str_eq};

verus! {

/// The one selection channel that exists until more channels arrive.
pub const DEFAULT_SELECTION_CHANNEL_ID: &'static str = "selection";

/// The strict order of stored points: by `x`, then `y`, then `z` (the order
/// the derived `Ord` gives).
pub open spec fn pp_lt(a: PersistedCellPoint, b: PersistedCellPoint) -> bool {
    a.x < b.x || (a.x == b.x && (a.y < b.y || (a.y == b.y && a.z < b.z)))
}

fn pp_less(a: PersistedCellPoint, b: PersistedCellPoint) -> (r: bool)
    ensures
        r == pp_lt(a, b),
{
    a.x < b.x || (a.x == b.x && (a.y < b.y || (a.y == b.y && a.z < b.z)))
}

proof fn lemma_pp_order()
    ensures
        forall|a: PersistedCellPoint| !pp_lt(a, a),
        forall|a: PersistedCellPoint, b: PersistedCellPoint, c: PersistedCellPoint| pp_lt(a, b) && pp_lt(b, c) ==> pp_lt(a, c),
        forall|a: PersistedCellPoint, b: PersistedCellPoint| pp_lt(a, b) ==> !pp_lt(b, a) && a != b,
        forall|a: PersistedCellPoint, b: PersistedCellPoint| a != b ==> pp_lt(a, b) || pp_lt(b, a),
{
}

/// Points strictly increase.
pub open spec fn points_sorted(s: Seq<PersistedCellPoint>) -> bool {
    forall|i: int, j: int| 0 <= i < j < s.len() ==> pp_lt(#[trigger] s[i], #[trigger] s[j])
}

/// How an incoming point batch writes a selection channel.
#[derive(Debug, Clone, Copy, PartialEq, Eq)]
pub enum SharedSelectionWriteMode {
    Replace,
    Additive,
    Subtract,
    Intersect,
}

/// One named selection bitmap.
#[derive(Debug, PartialEq, Eq)]
pub struct SharedDocumentSelectionChannel {
    pub channel_id: String,
    /// The selected points, strictly increasing.
    pub points: Vec<PersistedCellPoint>,
}

/// The document's selection channels.
#[derive(Debug, PartialEq, Eq)]
pub struct SharedDocumentSelection {
    pub channels: Vec<SharedDocumentSelectionChannel>,
}

impl SharedDocumentSelectionChannel {
    /// The selected points as a set.
    pub open spec fn point_set(&self) -> Set<PersistedCellPoint> {
        self.points@.to_set()
    }

    pub open spec fn wf(&self) -> bool {
        points_sorted(self.points@)
    }
}

impl SharedDocumentSelection {
    /// Every channel keeps its points sorted.
    pub open spec fn wf(&self) -> bool {
        forall|i: int| 0 <= i < self.channels@.len() ==> (#[trigger] self.channels@[i]).wf()
    }
}

impl Default for SharedDocumentSelection {
    /// One empty channel, the default one.
    fn default() -> (s: SharedDocumentSelection)
        ensures
            s.channels@.len() == 1,
            s.channels@[0].channel_id@ == DEFAULT_SELECTION_CHANNEL_ID@,
            s.channels@[0].points@.len() == 0,
            s.wf(),
    {
        let mut channels: Vec<SharedDocumentSelectionChannel> = Vec::new();
        channels.push(SharedDocumentSelectionChannel { channel_id: owned(DEFAULT_SELECTION_CHANNEL_ID), points: Vec::new() });
        SharedDocumentSelection { channels }
    }
}

/// Where `p` sits in sorted points: its index if present, else the index it
/// would be inserted at.
fn locate(points: &Vec<PersistedCellPoint>, p: PersistedCellPoint) -> (r: (usize, bool))
    requires
        points_sorted(points@),
    ensures
        r.0 <= points@.len(),
        r.1 ==> r.0 < points@.len() && points@[r.0 as int] == p,
        !r.1 ==> !points@.contains(p),
        forall|i: int| 0 <= i < r.0 ==> pp_lt(#[trigger] points@[i], p),
        !r.1 ==> forall|i: int| r.0 <= i < points@.len() ==> pp_lt(p, #[trigger] points@[i]),
{
    proof {
        lemma_pp_order();
    }
    let mut i: usize = 0;
    while i < points.len()
        invariant
            points_sorted(points@),
            i <= points@.len(),
            forall|k: int| 0 <= k < i ==> pp_lt(#[trigger] points@[k], p),
        decreases points@.len() - i,
    {
        let q = points[i];
        if !pp_less(q, p) {
            proof {
                lemma_pp_order();
            }
            if q == p {
                return (i, true);
            }
            proof {
                assert forall|k: int| i <= k < points@.len() implies pp_lt(p, #[trigger] points@[k]) by {
                    if k > i {
                        assert(pp_lt(points@[i as int], points@[k]));
                    }
                }
                assert forall|k: int| 0 <= k < points@.len() implies #[trigger] points@[k] != p by {
                    if k >= i {
                        assert(pp_lt(p, points@[k]));
                    }
                }
            }
            return (i, false);
        }
        i = i + 1;
    }
    proof {
        assert forall|k: int| 0 <= k < points@.len() implies #[trigger] points@[k] != p by {
            assert(pp_lt(points@[k], p));
        }
    }
    (i, false)
}

/// Whether the sorted points hold `p`.
pub fn points_contain(points: &Vec<PersistedCellPoint>, p: PersistedCellPoint) -> (r: bool)
    requires
        points_sorted(points@),
    ensures
        r == points@.contains(p),
{
    let (_, found) = locate(points, p);
    found
}

/// Adds `p` to sorted points.
fn insert_point(points: &mut Vec<PersistedCellPoint>, p: PersistedCellPoint)
    requires
        points_sorted(old(points)@),
    ensures
        points_sorted(final(points)@),
        final(points)@.to_set() == old(points)@.to_set().insert(p),
{
    let ghost before = points@;
    let (i, found) = locate(points, p);
    if !found {
        points.insert(i, p);
    }
    proof {
        lemma_pp_order();
        let after = points@;
        if !found {
            assert forall|a: int, b: int| 0 <= a < b < after.len() implies pp_lt(#[trigger] after[a], #[trigger] after[b]) by {
                if a < i && b > i {
                    assert(after[a] == before[a] && after[b] == before[b - 1]);
                } else if a < i && b < i {
                    assert(after[a] == before[a] && after[b] == before[b]);
                } else if a > i {
                    assert(after[a] == before[a - 1] && after[b] == before[b - 1]);
                }
            }
        }
        assert forall|q: PersistedCellPoint| after.contains(q) <==> before.contains(q) || q == p by {
            if before.contains(q) {
                let k = choose|k: int| 0 <= k < before.len() && before[k] == q;
                if found || k < i {
                    assert(after[k] == before[k]);
                } else {
                    assert(after[k + 1] == before[k]);
                }
            }
            if q == p && !found {
                assert(after[i as int] == p);
            }
            if after.contains(q) && q != p {
                let k = choose|k: int| 0 <= k < after.len() && after[k] == q;
                if found || k < i {
                    assert(after[k] == before[k]);
                } else {
                    assert(k != i);
                    assert(after[k] == before[k - 1]);
                }
            }
        }
        assert(after.to_set() =~= before.to_set().insert(p));
    }
}

/// Removes `p` from sorted points.
fn remove_point(points: &mut Vec<PersistedCellPoint>, p: PersistedCellPoint)
    requires
        points_sorted(old(points)@),
    ensures
        points_sorted(final(points)@),
        final(points)@.to_set() == old(points)@.to_set().remove(p),
{
    let ghost before = points@;
    let (i, found) = locate(points, p);
    if found {
        points.remove(i);
    }
    proof {
        lemma_pp_order();
        let after = points@;
        if found {
            assert forall|a: int, b: int| 0 <= a < b < after.len() implies pp_lt(#[trigger] after[a], #[trigger] after[b]) by {
                let a2 = if a < i { a } else { a + 1 };
                let b2 = if b < i { b } else { b + 1 };
                assert(after[a] == before[a2] && after[b] == before[b2]);
            }
        }
        assert forall|q: PersistedCellPoint| after.contains(q) <==> before.contains(q) && q != p by {
            if before.contains(q) && q != p {
                let k = choose|k: int| 0 <= k < before.len() && before[k] == q;
                if !found || k < i {
                    assert(after[k] == before[k]);
                } else {
                    assert(k != i);
                    assert(after[k - 1] == before[k]);
                }
            }
            if after.contains(q) {
                let k = choose|k: int| 0 <= k < after.len() && after[k] == q;
                if !found || k < i {
                    assert(after[k] == before[k]);
                } else {
                    assert(after[k] == before[k + 1]);
                }
                if found && q == p {
                    if k < i {
                        assert(pp_lt(before[k], before[i as int]));
                    } else {
                        assert(pp_lt(before[i as int], before[k + 1]));
                    }
                }
            }
        }
        assert(after.to_set() =~= before.to_set().remove(p));
    }
}

/// The stored form of runtime points, as a set.
pub open spec fn incoming_set(points: Seq<CellPoint>) -> Set<PersistedCellPoint> {
    points.map_values(|p: CellPoint| PersistedCellPoint::from_runtime_spec(p)).to_set()
}

/// The sorted stored points of a runtime point batch.
fn sorted_points_of(points: &Vec<CellPoint>) -> (r: Vec<PersistedCellPoint>)
    ensures
        points_sorted(r@),
        r@.to_set() == incoming_set(points@),
{
    let mut out: Vec<PersistedCellPoint> = Vec::new();
    let ghost mapped = points@.map_values(|p: CellPoint| PersistedCellPoint::from_runtime_spec(p));
    let mut i: usize = 0;
    while i < points.len()
        invariant
            i <= points@.len(),
            mapped == points@.map_values(|p: CellPoint| PersistedCellPoint::from_runtime_spec(p)),
            points_sorted(out@),
            out@.to_set() == mapped.subrange(0, i as int).to_set(),
        decreases points@.len() - i,
    {
        insert_point(&mut out, PersistedCellPoint::from_runtime(points[i]));
        proof {
            assert(mapped.subrange(0, i + 1) =~= mapped.subrange(0, i as int).push(mapped[i as int]));
            mapped.subrange(0, i as int).lemma_push_to_set_commute(mapped[i as int]);
        }
        i = i + 1;
    }
    proof {
        assert(mapped.subrange(0, points@.len() as int) =~= mapped);
    }
    out
}

/// The channel's point set after a write.
pub open spec fn written_set(
    current: Set<PersistedCellPoint>,
    incoming: Set<PersistedCellPoint>,
    mode: SharedSelectionWriteMode,
) -> Set<PersistedCellPoint> {
    match mode {
        SharedSelectionWriteMode::Replace => incoming,
        SharedSelectionWriteMode::Additive => current.union(incoming),
        SharedSelectionWriteMode::Subtract => current.difference(incoming),
        SharedSelectionWriteMode::Intersect => current.intersect(incoming),
    }
}

fn points_equal(a: &Vec<PersistedCellPoint>, b: &Vec<PersistedCellPoint>) -> (r: bool)
    ensures
        r == (a@ == b@),
{
    if a.len() != b.len() {
        return false;
    }
    let mut i: usize = 0;
    while i < a.len()
        invariant
            a@.len() == b@.len(),
            i <= a@.len(),
            forall|k: int| 0 <= k < i ==> a@[k] == b@[k],
        decreases a@.len() - i,
    {
        if a[i] != b[i] {
            return false;
        }
        i = i + 1;
    }
    assert(a@ =~= b@);
    true
}

/// Two sorted point sequences with the same points are the same sequence.
pub proof fn lemma_sorted_points_unique(a: Seq<PersistedCellPoint>, b: Seq<PersistedCellPoint>)
    requires
        points_sorted(a),
        points_sorted(b),
        a.to_set() == b.to_set(),
    ensures
        a == b,
    decreases a.len(),
{
    lemma_pp_order();
    if a.len() == 0 {
        if b.len() > 0 {
            assert(b.to_set().contains(b[0]));
        }
        assert(a =~= b);
    } else if b.len() == 0 {
        assert(a.to_set().contains(a[0]));
    } else {
        let la = a.last();
        let lb = b.last();
        assert(a.to_set().contains(la));
        assert(b.to_set().contains(lb));
        assert(la == lb) by {
            let j = choose|j: int| 0 <= j < b.len() && b[j] == la;
            let k = choose|k: int| 0 <= k < a.len() && a[k] == lb;
            if j < b.len() - 1 {
                assert(pp_lt(b[j], lb));
                if k < a.len() - 1 {
                    assert(pp_lt(a[k], la));
                }
            }
            if k < a.len() - 1 {
                assert(pp_lt(a[k], la));
            }
        }
        let ta = a.drop_last();
        let tb = b.drop_last();
        assert forall|q: PersistedCellPoint| ta.to_set().contains(q) <==> tb.to_set().contains(q) by {
            if ta.contains(q) {
                let k = choose|k: int| 0 <= k < ta.len() && ta[k] == q;
                assert(a[k] == q);
                assert(pp_lt(a[k], la));
                assert(a.contains(q));
                assert(a.to_set().contains(q));
                assert(b.to_set().contains(q));
                assert(b.contains(q));
                let j = choose|j: int| 0 <= j < b.len() && b[j] == q;
                assert(j != b.len() - 1);
                assert(tb[j] == q);
            }
            if tb.contains(q) {
                let k = choose|k: int| 0 <= k < tb.len() && tb[k] == q;
                assert(b[k] == q);
                assert(pp_lt(b[k], lb));
                assert(b.contains(q));
                assert(b.to_set().contains(q));
                assert(a.to_set().contains(q));
                assert(a.contains(q));
                let j = choose|j: int| 0 <= j < a.len() && a[j] == q;
                assert(j != a.len() - 1);
                assert(ta[j] == q);
            }
        }
        assert(ta.to_set() =~= tb.to_set());
        assert forall|i: int, j: int| 0 <= i < j < ta.len() implies pp_lt(#[trigger] ta[i], #[trigger] ta[j]) by {
            assert(ta[i] == a[i] && ta[j] == a[j]);
        }
        assert forall|i: int, j: int| 0 <= i < j < tb.len() implies pp_lt(#[trigger] tb[i], #[trigger] tb[j]) by {
            assert(tb[i] == b[i] && tb[j] == b[j]);
        }
        lemma_sorted_points_unique(ta, tb);
        assert(a =~= ta.push(la));
        assert(b =~= tb.push(lb));
    }
}

impl SharedDocumentSelectionChannel {
    /// Writes one batch of points into the channel; returns whether the
    /// channel's points changed.
    pub fn apply_points(&mut self, incoming: &Vec<CellPoint>, mode: SharedSelectionWriteMode) -> (changed: bool)
        requires
            old(self).wf(),
        ensures
            final(self).wf(),
            final(self).channel_id == old(self).channel_id,
            final(self).point_set() == written_set(old(self).point_set(), incoming_set(incoming@), mode),
            changed == (final(self).point_set() != old(self).point_set()),
    {
        let ghost before = self.points@;
        let batch = sorted_points_of(incoming);
        let mut next: Vec<PersistedCellPoint> = Vec::new();
        match mode {
            SharedSelectionWriteMode::Replace => {
                next = batch;
                proof {
                    assert(next@.to_set() =~= written_set(before.to_set(), incoming_set(incoming@), mode));
                }
            },
            SharedSelectionWriteMode::Additive => {
                next = copy_points(&self.points);
                let mut i: usize = 0;
                while i < batch.len()
                    invariant
                        i <= batch@.len(),
                        points_sorted(next@),
                        next@.to_set() == before.to_set().union(batch@.subrange(0, i as int).to_set()),
                    decreases batch@.len() - i,
                {
                    insert_point(&mut next, batch[i]);
                    proof {
                        assert(batch@.subrange(0, i + 1) =~= batch@.subrange(0, i as int).push(batch@[i as int]));
                        batch@.subrange(0, i as int).lemma_push_to_set_commute(batch@[i as int]);
                        assert(next@.to_set() =~= before.to_set().union(batch@.subrange(0, i + 1).to_set()));
                    }
                    i = i + 1;
                }
                proof {
                    assert(batch@.subrange(0, batch@.len() as int) =~= batch@);
                }
            },
            SharedSelectionWriteMode::Subtract => {
                next = copy_points(&self.points);
                let mut i: usize = 0;
                while i < batch.len()
                    invariant
                        i <= batch@.len(),
                        points_sorted(next@),
                        next@.to_set() == before.to_set().difference(batch@.subrange(0, i as int).to_set()),
                    decreases batch@.len() - i,
                {
                    remove_point(&mut next, batch[i]);
                    proof {
                        assert(batch@.subrange(0, i + 1) =~= batch@.subrange(0, i as int).push(batch@[i as int]));
                        batch@.subrange(0, i as int).lemma_push_to_set_commute(batch@[i as int]);
                        assert(next@.to_set() =~= before.to_set().difference(batch@.subrange(0, i + 1).to_set()));
                    }
                    i = i + 1;
                }
                proof {
                    assert(batch@.subrange(0, batch@.len() as int) =~= batch@);
                }
            },
            SharedSelectionWriteMode::Intersect => {
                let mut i: usize = 0;
                while i < self.points.len()
                    invariant
                        self.points@ == before,
                        points_sorted(before),
                        points_sorted(batch@),
                        i <= before.len(),
                        points_sorted(next@),
                        next@.to_set() == before.subrange(0, i as int).to_set().intersect(batch@.to_set()),
                    decreases before.len() - i,
                {
                    let p = self.points[i];
                    if points_contain(&batch, p) {
                        insert_point(&mut next, p);
                    }
                    proof {
                        assert(before.subrange(0, i + 1) =~= before.subrange(0, i as int).push(before[i as int]));
                        before.subrange(0, i as int).lemma_push_to_set_commute(before[i as int]);
                        assert(next@.to_set() =~= before.subrange(0, i + 1).to_set().intersect(batch@.to_set()));
                    }
                    i = i + 1;
                }
                proof {
                    assert(before.subrange(0, before.len() as int) =~= before);
                }
            },
        }
        let changed = !points_equal(&next, &self.points);
        proof {
            if next@.to_set() == before.to_set() {
                lemma_sorted_points_unique(next@, before);
            }
        }
        self.points = next;
        changed
    }
}

fn copy_points(points: &Vec<PersistedCellPoint>) -> (r: Vec<PersistedCellPoint>)
    ensures
        r@ == points@,
{
    let mut out: Vec<PersistedCellPoint> = Vec::new();
    let mut i: usize = 0;
    while i < points.len()
        invariant
            i <= points@.len(),
            out@ == points@.subrange(0, i as int),
        decreases points@.len() - i,
    {
        out.push(points[i]);
        i = i + 1;
        assert(out@ =~= points@.subrange(0, i as int));
    }
    assert(out@ =~= points@);
    out
}

/// The runtime points of a channel, in point order.
pub fn runtime_points(points: &Vec<PersistedCellPoint>) -> (r: Vec<CellPoint>)
    ensures
        r@ == points@.map_values(|p: PersistedCellPoint| p.to_runtime_spec()),
{
    let mut out: Vec<CellPoint> = Vec::new();
    let mut i: usize = 0;
    while i < points.len()
        invariant
            i <= points@.len(),
            out@ == points@.subrange(0, i as int).map_values(|p: PersistedCellPoint| p.to_runtime_spec()),
        decreases points@.len() - i,
    {
        out.push(points[i].to_runtime());
        i = i + 1;
        assert(out@ =~= points@.subrange(0, i as int).map_values(|p: PersistedCellPoint| p.to_runtime_spec()));
    }
    assert(points@.subrange(0, points@.len() as int) =~= points@);
    out
}

/// The index of the channel named `channel_id`, if any.
pub fn find_channel(channels: &Vec<SharedDocumentSelectionChannel>, channel_id: &str) -> (r: Option<usize>)
    ensures
        r is Some ==> r->0 < channels@.len() && channels@[r->0 as int].channel_id@ == channel_id@
            && forall|k: int| 0 <= k < r->0 ==> (#[trigger] channels@[k]).channel_id@ != channel_id@,
        r is None ==> forall|k: int| 0 <= k < channels@.len() ==> (#[trigger] channels@[k]).channel_id@ != channel_id@,
{
    let mut i: usize = 0;
    while i < channels.len()
        invariant
            i <= channels@.len(),
            forall|k: int| 0 <= k < i ==> (#[trigger] channels@[k]).channel_id@ != channel_id@,
        decreases channels@.len() - i,
    {
        if str_eq(channels[i].channel_id.as_str(), channel_id) {
            return Some(i);
        }
        i = i + 1;
    }
    None
}

} // verus!

verus! {

/// Two selections hold the same channels, each with the same id and points.
pub open spec fn same_selection(a: SharedDocumentSelection, b: SharedDocumentSelection) -> bool {
    &&& a.channels@.len() == b.channels@.len()
    &&& forall|i: int| 0 <= i < a.channels@.len() ==> {
        &&& (#[trigger] a.channels@[i]).channel_id@ == b.channels@[i].channel_id@
        &&& a.channels@[i].points@ == b.channels@[i].points@
    }
}

impl SharedDocumentSelection {
    /// A copy holding the same channels.
    pub fn copy(&self) -> (r: SharedDocumentSelection)
        ensures
            same_selection(r, *self),
            self.wf() ==> r.wf(),
    {
        let mut channels: Vec<SharedDocumentSelectionChannel> = Vec::new();
        let mut i: usize = 0;
        while i < self.channels.len()
            invariant
                i <= self.channels@.len(),
                channels@.len() == i,
                forall|k: int| 0 <= k < i ==> {
                    &&& (#[trigger] channels@[k]).channel_id@ == self.channels@[k].channel_id@
                    &&& channels@[k].points@ == self.channels@[k].points@
                },
            decreases self.channels@.len() - i,
        {
            let c = &self.channels[i];
            channels.push(SharedDocumentSelectionChannel { channel_id: c.channel_id.clone(), points: copy_points(&c.points) });
            i = i + 1;
        }
        let r = SharedDocumentSelection { channels };
        proof {
            if self.wf() {
                assert forall|k: int| 0 <= k < r.channels@.len() implies (#[trigger] r.channels@[k]).wf() by {
                    assert(self.channels@[k].wf());
                }
            }
        }
        r
    }
}

} // verus!
