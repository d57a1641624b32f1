//! Painted content: cell points, painted cells and the per-block canvas that
//! maps points to cells, plus the patches that edit a canvas.

use vstd::prelude::*;
use crate::text::str_eq;

verus! {

/// A 3D cell position on the canvas.
#[derive(Debug, Clone, Copy, PartialEq, Eq, Structural, Hash)]
pub struct CellPoint {
    pub x: i32,
    pub y: i32,
    pub z: i32,
}

/// The strict order of points: by `x`, then `y`, then `z`.
pub open spec fn point_lt(a: CellPoint, b: CellPoint) -> bool {
    a.x < b.x || (a.x == b.x && (a.y < b.y || (a.y == b.y && a.z < b.z)))
}

pub fn point_less(a: CellPoint, b: CellPoint) -> (r: bool)
    ensures
        r == point_lt(a, b),
{
    a.x < b.x || (a.x == b.x && (a.y < b.y || (a.y == b.y && a.z < b.z)))
}

/// The material a material color draws from.
#[derive(Debug, Clone, Copy, PartialEq, Eq)]
pub enum CellMaterialId {
    GrayScale,
}

/// The color of a painted cell.
#[derive(Debug, Clone, Copy, PartialEq, Eq)]
pub enum PaintColor {
    FlatRgb(u8, u8, u8),
    Material(CellMaterialId),
}

/// The color a cell falls back to when a stored color cannot be read.
pub open spec fn default_paint_color() -> PaintColor {
    PaintColor::FlatRgb(255, 255, 255)
}

impl PaintColor {
    pub fn flat_rgb(red: u8, green: u8, blue: u8) -> (c: PaintColor)
        ensures
            c == PaintColor::FlatRgb(red, green, blue),
    {
        PaintColor::FlatRgb(red, green, blue)
    }

    pub fn material(material: CellMaterialId) -> (c: PaintColor)
        ensures
            c == PaintColor::Material(material),
    {
        PaintColor::Material(material)
    }
}

impl Default for PaintColor {
    fn default() -> (c: PaintColor)
        ensures
            c == default_paint_color(),
    {
        PaintColor::FlatRgb(255, 255, 255)
    }
}

/// A sprite graphic, named by its atlas-relative path.
#[derive(Debug, PartialEq, Eq)]
pub struct SpriteGraphic {
    pub atlas_relative_path: String,
}

/// What a cell shows.
#[derive(Debug, PartialEq, Eq)]
pub enum CellGraphic {
    NoGraphic,
    Glyph(char),
    Sprite(SpriteGraphic),
}

impl CellGraphic {
    pub fn copy(&self) -> (r: CellGraphic)
        ensures
            r == *self,
    {
        match self {
            CellGraphic::NoGraphic => CellGraphic::NoGraphic,
            CellGraphic::Glyph(c) => CellGraphic::Glyph(*c),
            CellGraphic::Sprite(s) => CellGraphic::Sprite(SpriteGraphic { atlas_relative_path: s.atlas_relative_path.clone() }),
        }
    }
}

/// Two graphics show the same thing: no graphic, one glyph, or sprites
/// with one path.
pub open spec fn same_graphic_spec(a: CellGraphic, b: CellGraphic) -> bool {
    match (a, b) {
        (CellGraphic::NoGraphic, CellGraphic::NoGraphic) => true,
        (CellGraphic::Glyph(x), CellGraphic::Glyph(y)) => x == y,
        (CellGraphic::Sprite(x), CellGraphic::Sprite(y)) => x.atlas_relative_path@ == y.atlas_relative_path@,
        _ => false,
    }
}

/// Whether two graphics show the same thing.
pub fn same_graphic(a: &CellGraphic, b: &CellGraphic) -> (r: bool)
    ensures
        r == same_graphic_spec(*a, *b),
{
    match (a, b) {
        (CellGraphic::NoGraphic, CellGraphic::NoGraphic) => true,
        (CellGraphic::Glyph(x), CellGraphic::Glyph(y)) => *x == *y,
        (CellGraphic::Sprite(x), CellGraphic::Sprite(y)) => str_eq(x.atlas_relative_path.as_str(), y.atlas_relative_path.as_str()),
        _ => false,
    }
}

impl Clone for CellGraphic {
    fn clone(&self) -> (r: CellGraphic)
        ensures
            r == *self,
    {
        self.copy()
    }
}

/// One painted cell: its graphic, color and weight.
#[derive(Debug, PartialEq, Eq)]
pub struct PaintedCell {
    pub graphic: CellGraphic,
    pub color: PaintColor,
    pub weight_index: i64,
}

impl PaintedCell {
    pub fn copy(&self) -> (r: PaintedCell)
        ensures
            r == *self,
    {
        PaintedCell { graphic: self.graphic.copy(), color: self.color, weight_index: self.weight_index }
    }
}

impl Clone for PaintedCell {
    fn clone(&self) -> (r: PaintedCell)
        ensures
            r == *self,
    {
        self.copy()
    }
}

/// One canvas entry.
#[derive(Debug, PartialEq, Eq)]
pub struct CanvasEntry {
    pub position: CellPoint,
    pub cell: PaintedCell,
}

/// The painted cells of one block, kept in point order.
#[derive(Debug, PartialEq, Eq)]
pub struct Canvas {
    entries: Vec<CanvasEntry>,
}

/// The entries are strictly increasing by point.
pub open spec fn entries_sorted(s: Seq<CanvasEntry>) -> bool {
    forall|i: int, j: int| 0 <= i < j < s.len() ==> point_lt(#[trigger] s[i].position, #[trigger] s[j].position)
}

/// The map from points to cells that a sorted entry sequence holds.
pub open spec fn entries_map(s: Seq<CanvasEntry>) -> Map<CellPoint, PaintedCell>
    decreases s.len(),
{
    if s.len() == 0 {
        Map::empty()
    } else {
        entries_map(s.drop_last()).insert(s.last().position, s.last().cell)
    }
}

proof fn lemma_point_lt_irrefl_trans()
    ensures
        forall|a: CellPoint| !point_lt(a, a),
        forall|a: CellPoint, b: CellPoint, c: CellPoint| point_lt(a, b) && point_lt(b, c) ==> point_lt(a, c),
        forall|a: CellPoint, b: CellPoint| point_lt(a, b) ==> !point_lt(b, a) && a != b,
        forall|a: CellPoint, b: CellPoint| a != b ==> point_lt(a, b) || point_lt(b, a),
{
}

pub proof fn lemma_entries_map(s: Seq<CanvasEntry>)
    requires
        entries_sorted(s),
    ensures
        forall|p: CellPoint| #[trigger] entries_map(s).contains_key(p) <==> exists|i: int| 0 <= i < s.len() && s[i].position == p,
        forall|i: int| 0 <= i < s.len() ==> #[trigger] entries_map(s)[s[i].position] == s[i].cell,
        entries_map(s).dom().finite(),
        entries_map(s).dom().len() == s.len(),
    decreases s.len(),
{
    if s.len() > 0 {
        let t = s.drop_last();
        assert forall|i: int, j: int| 0 <= i < j < t.len() implies point_lt(#[trigger] t[i].position, #[trigger] t[j].position) by {
            assert(t[i] == s[i] && t[j] == s[j]);
        }
        lemma_entries_map(t);
        assert forall|i: int| 0 <= i < t.len() implies t[i].position != s.last().position by {
            assert(t[i] == s[i]);
            assert(point_lt(s[i].position, s[s.len() - 1].position));
            lemma_point_lt_irrefl_trans();
        }
        assert(!entries_map(t).contains_key(s.last().position));
        assert forall|p: CellPoint| #[trigger] entries_map(s).contains_key(p) <==> exists|i: int| 0 <= i < s.len() && s[i].position == p by {
            if entries_map(s).contains_key(p) && p != s.last().position {
                let i = choose|i: int| 0 <= i < t.len() && t[i].position == p;
                assert(s[i] == t[i]);
            }
            if exists|i: int| 0 <= i < s.len() && s[i].position == p {
                let i = choose|i: int| 0 <= i < s.len() && s[i].position == p;
                if i < t.len() {
                    assert(s[i] == t[i]);
                }
            }
        }
        assert forall|i: int| 0 <= i < s.len() implies #[trigger] entries_map(s)[s[i].position] == s[i].cell by {
            if i < t.len() {
                assert(s[i] == t[i]);
            }
        }
    }
}

impl Canvas {
    /// The canvas's entries, in point order.
    pub closed spec fn entries_view(&self) -> Seq<CanvasEntry> {
        self.entries@
    }

    /// Entries stay strictly ordered by point.
    pub closed spec fn wf(&self) -> bool {
        entries_sorted(self.entries@)
    }

    /// The cells by point.
    pub open spec fn cells(&self) -> Map<CellPoint, PaintedCell> {
        entries_map(self.entries_view())
    }

    pub fn new() -> (c: Canvas)
        ensures
            c.wf(),
            c.entries_view().len() == 0,
            c.cells() == Map::<CellPoint, PaintedCell>::empty(),
    {
        Canvas { entries: Vec::new() }
    }

    pub fn len(&self) -> (n: usize)
        requires
            self.wf(),
        ensures
            n == self.cells().dom().len(),
            n == self.entries_view().len(),
    {
        proof {
            lemma_entries_map(self.entries@);
        }
        self.entries.len()
    }

    pub fn is_empty(&self) -> (b: bool)
        requires
            self.wf(),
        ensures
            b == (self.cells().dom().len() == 0),
            b == (self.entries_view().len() == 0),
    {
        proof {
            lemma_entries_map(self.entries@);
        }
        self.entries.len() == 0
    }

    /// The entries in point order.
    pub fn entries(&self) -> (r: &Vec<CanvasEntry>)
        ensures
            r@ == self.entries_view(),
    {
        &self.entries
    }

    /// Where `position` sits: its index if present, else the index it would
    /// be inserted at.
    fn locate(&self, position: CellPoint) -> (r: (usize, bool))
        requires
            self.wf(),
        ensures
            r.0 <= self.entries@.len(),
            r.1 ==> r.0 < self.entries@.len() && self.entries@[r.0 as int].position == position,
            !r.1 ==> forall|i: int| 0 <= i < self.entries@.len() ==> #[trigger] self.entries@[i].position != position,
            forall|i: int| 0 <= i < r.0 ==> point_lt(#[trigger] self.entries@[i].position, position),
            !r.1 ==> forall|i: int| r.0 <= i < self.entries@.len() ==> point_lt(position, #[trigger] self.entries@[i].position),
    {
        let mut i: usize = 0;
        while i < self.entries.len()
            invariant
                entries_sorted(self.entries@),
                i <= self.entries@.len(),
                forall|k: int| 0 <= k < i ==> point_lt(#[trigger] self.entries@[k].position, position),
            decreases self.entries@.len() - i,
        {
            let p = self.entries[i].position;
            if !point_less(p, position) {
                proof {
                    lemma_point_lt_irrefl_trans();
                }
                if p == position {
                    return (i, true);
                }
                proof {
                    assert forall|k: int| 0 <= k < self.entries@.len() implies #[trigger] self.entries@[k].position != position by {
                        if k > i {
                            assert(point_lt(self.entries@[i as int].position, self.entries@[k].position));
                        }
                    }
                    assert forall|k: int| i <= k < self.entries@.len() implies point_lt(position, #[trigger] self.entries@[k].position) by {
                        if k > i {
                            assert(point_lt(self.entries@[i as int].position, self.entries@[k].position));
                        }
                    }
                }
                return (i, false);
            }
            i = i + 1;
        }
        proof {
            lemma_point_lt_irrefl_trans();
        }
        (i, false)
    }

    /// The cell at `position`, if painted.
    pub fn get(&self, position: CellPoint) -> (r: Option<&PaintedCell>)
        requires
            self.wf(),
        ensures
            r is Some <==> self.cells().contains_key(position),
            r is Some ==> *r->0 == self.cells()[position],
    {
        proof {
            lemma_entries_map(self.entries@);
        }
        let (i, found) = self.locate(position);
        if found {
            Some(&self.entries[i].cell)
        } else {
            None
        }
    }

    /// Paints `cell` at `position`, replacing what was there.
    pub fn insert(&mut self, position: CellPoint, cell: PaintedCell)
        requires
            old(self).wf(),
        ensures
            final(self).wf(),
            final(self).cells() == old(self).cells().insert(position, cell),
    {
        let ghost before = self.entries@;
        let (i, found) = self.locate(position);
        if found {
            self.entries.set(i, CanvasEntry { position, cell });
        } else {
            self.entries.insert(i, CanvasEntry { position, cell });
        }
        proof {
            lemma_point_lt_irrefl_trans();
            let after = self.entries@;
            assert forall|a: int, b: int| 0 <= a < b < after.len() implies point_lt(#[trigger] after[a].position, #[trigger] after[b].position) by {
                if found {
                } else {
                    if a < i && b > i {
                        assert(after[a] == before[a] && after[b] == before[b - 1]);
                    } else if a < i && b < i {
                        assert(after[a] == before[a] && after[b] == before[b]);
                    } else if a > i {
                        assert(after[a] == before[a - 1] && after[b] == before[b - 1]);
                    }
                }
            }
            lemma_entries_map(before);
            lemma_entries_map(after);
            let m = entries_map(before).insert(position, cell);
            assert forall|p: CellPoint| #[trigger] entries_map(after).contains_key(p) <==> m.contains_key(p) by {
                if m.contains_key(p) && p != position {
                    let k = choose|k: int| 0 <= k < before.len() && before[k].position == p;
                    if found || k < i {
                        assert(after[k] == before[k]);
                    } else {
                        assert(after[k + 1] == before[k]);
                    }
                }
                if entries_map(after).contains_key(p) && p != position {
                    let k = choose|k: int| 0 <= k < after.len() && after[k].position == p;
                    if found || k < i {
                        assert(after[k] == before[k]);
                    } else {
                        assert(k != i);
                        assert(after[k] == before[k - 1]);
                    }
                }
                if p == position {
                    assert(after[i as int].position == position);
                }
            }
            assert forall|p: CellPoint| #[trigger] entries_map(after).contains_key(p) implies entries_map(after)[p] == m[p] by {
                let k = choose|k: int| 0 <= k < after.len() && after[k].position == p;
                if p == position {
                    assert(k == i);
                } else if found || k < i {
                    assert(after[k] == before[k]);
                } else {
                    assert(after[k] == before[k - 1]);
                }
            }
            assert(entries_map(after) =~= m);
        }
    }

    /// Clears `position`.
    pub fn remove(&mut self, position: CellPoint)
        requires
            old(self).wf(),
        ensures
            final(self).wf(),
            final(self).cells() == old(self).cells().remove(position),
    {
        let ghost before = self.entries@;
        let (i, found) = self.locate(position);
        if found {
            self.entries.remove(i);
        }
        proof {
            lemma_point_lt_irrefl_trans();
            let after = self.entries@;
            if found {
                assert forall|a: int, b: int| 0 <= a < b < after.len() implies point_lt(#[trigger] after[a].position, #[trigger] after[b].position) by {
                    let a2 = if a < i { a } else { a + 1 };
                    let b2 = if b < i { b } else { b + 1 };
                    assert(after[a] == before[a2] && after[b] == before[b2]);
                }
            }
            lemma_entries_map(before);
            lemma_entries_map(after);
            let m = entries_map(before).remove(position);
            assert forall|p: CellPoint| #[trigger] entries_map(after).contains_key(p) <==> m.contains_key(p) by {
                if m.contains_key(p) {
                    let k = choose|k: int| 0 <= k < before.len() && before[k].position == p;
                    if !found || k < i {
                        assert(after[k] == before[k]);
                    } else {
                        assert(k != i);
                        assert(after[k - 1] == before[k]);
                    }
                }
                if entries_map(after).contains_key(p) {
                    let k = choose|k: int| 0 <= k < after.len() && after[k].position == p;
                    if !found || k < i {
                        assert(after[k] == before[k]);
                    } else {
                        assert(after[k] == before[k + 1]);
                    }
                }
            }
            assert forall|p: CellPoint| #[trigger] entries_map(after).contains_key(p) implies entries_map(after)[p] == m[p] by {
                let k = choose|k: int| 0 <= k < after.len() && after[k].position == p;
                if !found || k < i {
                    assert(after[k] == before[k]);
                } else {
                    assert(after[k] == before[k + 1]);
                }
            }
            assert(entries_map(after) =~= m);
        }
    }

    /// Removes every cell.
    pub fn clear(&mut self)
        ensures
            final(self).wf(),
            final(self).cells() == Map::<CellPoint, PaintedCell>::empty(),
            final(self).entries_view().len() == 0,
    {
        self.entries = Vec::new();
    }

    /// An exact copy of the canvas.
    /// Paints `top` over the canvas: its cells win where both have one.
    pub fn overlay(&mut self, top: &Canvas)
        requires
            old(self).wf(),
        ensures
            final(self).wf(),
            final(self).cells() == old(self).cells().union_prefer_right(top.cells()),
    {
        let ghost base = self.cells();
        let ghost es = top.entries@;
        let mut k: usize = 0;
        proof {
            assert(es.take(0) =~= Seq::<CanvasEntry>::empty());
            assert(base.union_prefer_right(entries_map(es.take(0))) =~= base);
        }
        while k < top.entries.len()
            invariant
                es == top.entries@,
                k <= es.len(),
                self.wf(),
                self.cells() == base.union_prefer_right(entries_map(es.take(k as int))),
            decreases es.len() - k,
        {
            let e = &top.entries[k];
            let position = e.position;
            let cell = e.cell.copy();
            let ghost before = self.cells();
            self.insert(position, cell);
            proof {
                assert(es.take(k + 1).drop_last() =~= es.take(k as int));
                assert(es.take(k + 1).last() == es[k as int]);
                assert(entries_map(es.take(k + 1)) == entries_map(es.take(k as int)).insert(position, cell));
                assert(self.cells() =~= base.union_prefer_right(entries_map(es.take(k + 1))));
            }
            k = k + 1;
        }
        proof {
            assert(es.take(k as int) =~= es);
        }
    }

    pub fn copy(&self) -> (r: Canvas)
        ensures
            r.entries_view() == self.entries_view(),
            r.wf() == self.wf(),
    {
        let mut out: Vec<CanvasEntry> = Vec::new();
        let mut i: usize = 0;
        while i < self.entries.len()
            invariant
                i <= self.entries@.len(),
                out@ == self.entries@.subrange(0, i as int),
            decreases self.entries@.len() - i,
        {
            out.push(CanvasEntry { position: self.entries[i].position, cell: self.entries[i].cell.copy() });
            i = i + 1;
            assert(out@ =~= self.entries@.subrange(0, i as int));
        }
        assert(out@ =~= self.entries@);
        Canvas { entries: out }
    }
}

} // verus!
