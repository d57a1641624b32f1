//! The persisted forms of painted content and the action records of the
//! shared document's log: cell patches, patch sets and legacy undo/redo.

use vstd::prelude::*;
use crate::canvas::{CellPoint, PaintColor, CellMaterialId, CellGraphic, SpriteGraphic, PaintedCell, Canvas, default_paint_color};
use crate::text::str_eq;

verus! {

/// A cell position as stored in files.
#[derive(Debug, Clone, Copy, PartialEq, Eq, Structural, PartialOrd, Ord, Hash)]
pub struct PersistedCellPoint {
    pub x: i32,
    pub y: i32,
    pub z: i32,
}

impl PersistedCellPoint {
    pub open spec fn to_runtime_spec(self) -> CellPoint {
        CellPoint { x: self.x, y: self.y, z: self.z }
    }

    pub fn to_runtime(&self) -> (p: CellPoint)
        ensures
            p == self.to_runtime_spec(),
    {
        CellPoint { x: self.x, y: self.y, z: self.z }
    }

    pub open spec fn from_runtime_spec(p: CellPoint) -> PersistedCellPoint {
        PersistedCellPoint { x: p.x, y: p.y, z: p.z }
    }

    pub fn from_runtime(p: CellPoint) -> (r: PersistedCellPoint)
        ensures
            r == Self::from_runtime_spec(p),
    {
        PersistedCellPoint { x: p.x, y: p.y, z: p.z }
    }
}

/// A paint color as stored in files.
#[derive(Debug, PartialEq, Eq)]
pub enum PersistedSharedPaintColor {
    FlatRgb { red: u8, green: u8, blue: u8 },
    Material { material: String },
}

/// A cell graphic as stored in files.
#[derive(Debug, PartialEq, Eq)]
pub enum PersistedSharedGraphic {
    NoGraphic,
    Glyph { glyph: char },
    Sprite { atlas_relative_path: String },
}

/// A painted cell as stored in files.
#[derive(Debug, PartialEq, Eq)]
pub struct PersistedSharedPaintedCell {
    pub graphic: PersistedSharedGraphic,
    pub color: PersistedSharedPaintColor,
    pub weight_index: i64,
}

/// The stored name of a material.
pub open spec fn material_name_spec(material: CellMaterialId) -> Seq<char> {
    match material {
        CellMaterialId::GrayScale => "gray-scale"@,
    }
}

/// The material a stored name names, if any.
pub open spec fn material_from_name_spec(name: Seq<char>) -> Option<CellMaterialId> {
    if name == "gray-scale"@ { Some(CellMaterialId::GrayScale) } else { None }
}

pub fn material_name(material: CellMaterialId) -> (name: &'static str)
    ensures
        name@ == material_name_spec(material),
{
    match material {
        CellMaterialId::GrayScale => "gray-scale",
    }
}

pub fn material_from_name(name: &str) -> (m: Option<CellMaterialId>)
    ensures
        m == material_from_name_spec(name@),
{
    if str_eq(name, "gray-scale") { Some(CellMaterialId::GrayScale) } else { None }
}

impl PersistedSharedPaintColor {
    pub fn copy(&self) -> (r: PersistedSharedPaintColor)
        ensures
            r == *self,
    {
        match self {
            PersistedSharedPaintColor::FlatRgb { red, green, blue } => PersistedSharedPaintColor::FlatRgb { red: *red, green: *green, blue: *blue },
            PersistedSharedPaintColor::Material { material } => PersistedSharedPaintColor::Material { material: material.clone() },
        }
    }

    /// Whether this stored color is the stored form of `color`.
    pub open spec fn stores(self, color: PaintColor) -> bool {
        match (self, color) {
            (PersistedSharedPaintColor::FlatRgb { red, green, blue }, PaintColor::FlatRgb(r, g, b)) => red == r && green == g && blue == b,
            (PersistedSharedPaintColor::Material { material }, PaintColor::Material(m)) => material@ == material_name_spec(m),
            _ => false,
        }
    }

    /// The runtime color a stored color reads as: an unknown material reads
    /// as the default color.
    pub open spec fn to_runtime_spec(self) -> PaintColor {
        match self {
            PersistedSharedPaintColor::FlatRgb { red, green, blue } => PaintColor::FlatRgb(red, green, blue),
            PersistedSharedPaintColor::Material { material } => match material_from_name_spec(material@) {
                Some(m) => PaintColor::Material(m),
                None => default_paint_color(),
            },
        }
    }

    pub fn from_runtime(color: PaintColor) -> (r: PersistedSharedPaintColor)
        ensures
            r.stores(color),
    {
        match color {
            PaintColor::FlatRgb(red, green, blue) => PersistedSharedPaintColor::FlatRgb { red, green, blue },
            PaintColor::Material(material) => PersistedSharedPaintColor::Material {
                material: material_name(material).to_owned(),
            },
        }
    }

    pub fn to_runtime(&self) -> (c: PaintColor)
        ensures
            c == self.to_runtime_spec(),
    {
        match self {
            PersistedSharedPaintColor::FlatRgb { red, green, blue } => PaintColor::flat_rgb(*red, *green, *blue),
            PersistedSharedPaintColor::Material { material } => match material_from_name(material.as_str()) {
                Some(m) => PaintColor::material(m),
                None => PaintColor::default(),
            },
        }
    }
}

impl PersistedSharedGraphic {
    pub fn copy(&self) -> (r: PersistedSharedGraphic)
        ensures
            r == *self,
    {
        match self {
            PersistedSharedGraphic::NoGraphic => PersistedSharedGraphic::NoGraphic,
            PersistedSharedGraphic::Glyph { glyph } => PersistedSharedGraphic::Glyph { glyph: *glyph },
            PersistedSharedGraphic::Sprite { atlas_relative_path } => PersistedSharedGraphic::Sprite { atlas_relative_path: atlas_relative_path.clone() },
        }
    }

    pub open spec fn to_runtime_spec(self) -> CellGraphic {
        match self {
            PersistedSharedGraphic::NoGraphic => CellGraphic::NoGraphic,
            PersistedSharedGraphic::Glyph { glyph } => CellGraphic::Glyph(glyph),
            PersistedSharedGraphic::Sprite { atlas_relative_path } => CellGraphic::Sprite(SpriteGraphic { atlas_relative_path }),
        }
    }

    pub open spec fn from_runtime_spec(graphic: CellGraphic) -> PersistedSharedGraphic {
        match graphic {
            CellGraphic::NoGraphic => PersistedSharedGraphic::NoGraphic,
            CellGraphic::Glyph(glyph) => PersistedSharedGraphic::Glyph { glyph },
            CellGraphic::Sprite(sprite) => PersistedSharedGraphic::Sprite { atlas_relative_path: sprite.atlas_relative_path },
        }
    }

    pub fn from_runtime(graphic: &CellGraphic) -> (r: PersistedSharedGraphic)
        ensures
            r == Self::from_runtime_spec(*graphic),
    {
        match graphic {
            CellGraphic::NoGraphic => PersistedSharedGraphic::NoGraphic,
            CellGraphic::Glyph(glyph) => PersistedSharedGraphic::Glyph { glyph: *glyph },
            CellGraphic::Sprite(sprite) => PersistedSharedGraphic::Sprite { atlas_relative_path: sprite.atlas_relative_path.clone() },
        }
    }

    pub fn to_runtime(&self) -> (g: CellGraphic)
        ensures
            g == self.to_runtime_spec(),
    {
        match self {
            PersistedSharedGraphic::NoGraphic => CellGraphic::NoGraphic,
            PersistedSharedGraphic::Glyph { glyph } => CellGraphic::Glyph(*glyph),
            PersistedSharedGraphic::Sprite { atlas_relative_path } => CellGraphic::Sprite(SpriteGraphic { atlas_relative_path: atlas_relative_path.clone() }),
        }
    }
}

impl PersistedSharedPaintedCell {
    pub fn copy(&self) -> (r: PersistedSharedPaintedCell)
        ensures
            r == *self,
    {
        PersistedSharedPaintedCell { graphic: self.graphic.copy(), color: self.color.copy(), weight_index: self.weight_index }
    }

    /// The runtime cell a stored cell reads as.
    pub open spec fn to_runtime_spec(self) -> PaintedCell {
        PaintedCell { graphic: self.graphic.to_runtime_spec(), color: self.color.to_runtime_spec(), weight_index: self.weight_index }
    }

    /// Whether this stored cell is the stored form of `cell`.
    pub open spec fn stores(self, cell: PaintedCell) -> bool {
        &&& self.graphic == PersistedSharedGraphic::from_runtime_spec(cell.graphic)
        &&& self.color.stores(cell.color)
        &&& self.weight_index == cell.weight_index
    }

    pub fn from_runtime(cell: &PaintedCell) -> (r: PersistedSharedPaintedCell)
        ensures
            r.stores(*cell),
    {
        PersistedSharedPaintedCell {
            graphic: PersistedSharedGraphic::from_runtime(&cell.graphic),
            color: PersistedSharedPaintColor::from_runtime(cell.color),
            weight_index: cell.weight_index,
        }
    }

    pub fn to_runtime(&self) -> (c: PaintedCell)
        ensures
            c == self.to_runtime_spec(),
    {
        PaintedCell { graphic: self.graphic.to_runtime(), color: self.color.to_runtime(), weight_index: self.weight_index }
    }
}

/// Storing a runtime cell and reading it back gives the same cell.
pub proof fn law_painted_cell_round_trip(stored: PersistedSharedPaintedCell, cell: PaintedCell)
    requires
        stored.stores(cell),
    ensures
        stored.to_runtime_spec() == cell,
{
    reveal_strlit("gray-scale");
    match cell.graphic {
        CellGraphic::Sprite(s) => {
            assert(stored.graphic.to_runtime_spec() == cell.graphic);
        },
        _ => {},
    }
}


/// One cell's change: the position and the cell before and after.
#[derive(Debug, PartialEq, Eq)]
pub struct SharedCellPatch {
    pub position: PersistedCellPoint,
    pub before: Option<PersistedSharedPaintedCell>,
    pub after: Option<PersistedSharedPaintedCell>,
}

fn copy_cell_opt(c: &Option<PersistedSharedPaintedCell>) -> (r: Option<PersistedSharedPaintedCell>)
    ensures
        r == *c,
{
    match c {
        Some(cell) => Some(cell.copy()),
        None => None,
    }
}

/// Whether an optional stored cell is the stored form of an optional runtime cell.
pub open spec fn stores_opt(stored: Option<PersistedSharedPaintedCell>, cell: Option<PaintedCell>) -> bool {
    match (stored, cell) {
        (Some(s), Some(c)) => s.stores(c),
        (None, None) => true,
        _ => false,
    }
}

impl SharedCellPatch {
    pub fn copy(&self) -> (r: SharedCellPatch)
        ensures
            r == *self,
    {
        SharedCellPatch { position: self.position, before: copy_cell_opt(&self.before), after: copy_cell_opt(&self.after) }
    }

    /// A patch recording that the cell at `position` went from `before` to `after`.
    pub fn new(position: CellPoint, before: Option<&PaintedCell>, after: Option<&PaintedCell>) -> (r: SharedCellPatch)
        ensures
            r.position == PersistedCellPoint::from_runtime_spec(position),
            stores_opt(r.before, match before { Some(c) => Some(*c), None => None }),
            stores_opt(r.after, match after { Some(c) => Some(*c), None => None }),
    {
        SharedCellPatch {
            position: PersistedCellPoint::from_runtime(position),
            before: match before {
                Some(c) => Some(PersistedSharedPaintedCell::from_runtime(c)),
                None => None,
            },
            after: match after {
                Some(c) => Some(PersistedSharedPaintedCell::from_runtime(c)),
                None => None,
            },
        }
    }

    /// Swaps the before/after values so applying this patch undoes the original.
    pub fn inverse(&self) -> (r: SharedCellPatch)
        ensures
            r == self.inverse_spec(),
    {
        SharedCellPatch { position: self.position, before: copy_cell_opt(&self.after), after: copy_cell_opt(&self.before) }
    }

    pub open spec fn inverse_spec(self) -> SharedCellPatch {
        SharedCellPatch { position: self.position, before: self.after, after: self.before }
    }
}

impl Clone for SharedCellPatch {
    fn clone(&self) -> (r: SharedCellPatch)
        ensures
            r == *self,
    {
        self.copy()
    }
}

/// Inverting a patch twice gives the patch back.
pub proof fn law_patch_inverse_involution(p: SharedCellPatch)
    ensures
        p.inverse_spec().inverse_spec() == p,
{
}

/// Which side of a patch is applied.
#[derive(Debug, Clone, Copy, PartialEq, Eq)]
pub enum PatchDirection {
    Before,
    After,
}

/// The runtime cell a stored optional cell reads as.
pub open spec fn runtime_opt(c: Option<PersistedSharedPaintedCell>) -> Option<PaintedCell> {
    match c {
        Some(cell) => Some(cell.to_runtime_spec()),
        None => None,
    }
}

/// The value a patch writes in a direction.
pub open spec fn patch_value(p: SharedCellPatch, direction: PatchDirection) -> Option<PaintedCell> {
    match direction {
        PatchDirection::Before => runtime_opt(p.before),
        PatchDirection::After => runtime_opt(p.after),
    }
}

/// Writes one optional cell into a cell map.
pub open spec fn write_cell(m: Map<CellPoint, PaintedCell>, at: CellPoint, value: Option<PaintedCell>) -> Map<CellPoint, PaintedCell> {
    match value {
        Some(c) => m.insert(at, c),
        None => m.remove(at),
    }
}

/// The cell map after applying the patches in order.
pub open spec fn patched(m: Map<CellPoint, PaintedCell>, patches: Seq<SharedCellPatch>, direction: PatchDirection) -> Map<CellPoint, PaintedCell>
    decreases patches.len(),
{
    if patches.len() == 0 {
        m
    } else {
        let p = patches.last();
        write_cell(patched(m, patches.drop_last(), direction), p.position.to_runtime_spec(), patch_value(p, direction))
    }
}

/// Applies the patches to a canvas, in order: each patch writes its
/// before or after value at its position (clearing the cell for none).
pub fn apply_patches(canvas: &mut Canvas, patches: &Vec<SharedCellPatch>, direction: PatchDirection)
    requires
        old(canvas).wf(),
    ensures
        final(canvas).wf(),
        final(canvas).cells() == patched(old(canvas).cells(), patches@, direction),
{
    let ghost start = canvas.cells();
    let mut i: usize = 0;
    while i < patches.len()
        invariant
            i <= patches@.len(),
            canvas.wf(),
            canvas.cells() == patched(start, patches@.subrange(0, i as int), direction),
        decreases patches@.len() - i,
    {
        let patch = &patches[i];
        let value = match direction {
            PatchDirection::Before => &patch.before,
            PatchDirection::After => &patch.after,
        };
        let position = patch.position.to_runtime();
        match value {
            Some(cell) => {
                canvas.insert(position, cell.to_runtime());
            },
            None => {
                canvas.remove(position);
            },
        }
        proof {
            assert(patches@.subrange(0, i + 1).drop_last() =~= patches@.subrange(0, i as int));
        }
        i = i + 1;
    }
    proof {
        assert(patches@.subrange(0, patches@.len() as int) =~= patches@);
    }
}

/// No two patches touch the same position.
pub open spec fn positions_distinct(patches: Seq<SharedCellPatch>) -> bool {
    forall|i: int, j: int| 0 <= i < j < patches.len() ==> #[trigger] patches[i].position != #[trigger] patches[j].position
}

/// Each patch's before value is what the map holds at its position.
pub open spec fn befores_match(m: Map<CellPoint, PaintedCell>, patches: Seq<SharedCellPatch>) -> bool {
    forall|i: int| 0 <= i < patches.len() ==> {
        let at = (#[trigger] patches[i]).position.to_runtime_spec();
        &&& (m.contains_key(at) <==> patches[i].before is Some)
        &&& (m.contains_key(at) ==> m[at] == patches[i].before->0.to_runtime_spec())
    }
}

proof fn lemma_point_injective(a: PersistedCellPoint, b: PersistedCellPoint)
    ensures
        a.to_runtime_spec() == b.to_runtime_spec() ==> a == b,
{
}

proof fn lemma_write_cell_other(m: Map<CellPoint, PaintedCell>, at: CellPoint, value: Option<PaintedCell>, q: CellPoint)
    requires
        at != q,
    ensures
        write_cell(m, at, value).contains_key(q) <==> m.contains_key(q),
        m.contains_key(q) ==> write_cell(m, at, value)[q] == m[q],
{
}

proof fn lemma_patched_untouched(m: Map<CellPoint, PaintedCell>, patches: Seq<SharedCellPatch>, direction: PatchDirection, q: CellPoint)
    requires
        forall|i: int| 0 <= i < patches.len() ==> (#[trigger] patches[i]).position.to_runtime_spec() != q,
    ensures
        patched(m, patches, direction).contains_key(q) <==> m.contains_key(q),
        m.contains_key(q) ==> patched(m, patches, direction)[q] == m[q],
    decreases patches.len(),
{
    if patches.len() > 0 {
        let t = patches.drop_last();
        assert forall|i: int| 0 <= i < t.len() implies (#[trigger] t[i]).position.to_runtime_spec() != q by {
            assert(t[i] == patches[i]);
        }
        lemma_patched_untouched(m, t, direction, q);
        let last = patches[patches.len() - 1];
        lemma_write_cell_other(patched(m, t, direction), last.position.to_runtime_spec(), patch_value(last, direction), q);
    }
}

/// With distinct positions, the patched map holds each patch's value at its
/// position and the original cell everywhere else.
pub proof fn lemma_patched_pointwise(m: Map<CellPoint, PaintedCell>, patches: Seq<SharedCellPatch>, direction: PatchDirection)
    requires
        positions_distinct(patches),
    ensures
        forall|i: int| 0 <= i < patches.len() ==> {
            let at = (#[trigger] patches[i]).position.to_runtime_spec();
            &&& (patched(m, patches, direction).contains_key(at) <==> patch_value(patches[i], direction) is Some)
            &&& (patch_value(patches[i], direction) is Some ==> patched(m, patches, direction)[at] == patch_value(patches[i], direction)->0)
        },
        forall|q: CellPoint| (forall|i: int| 0 <= i < patches.len() ==> (#[trigger] patches[i]).position.to_runtime_spec() != q) ==> {
            &&& (#[trigger] patched(m, patches, direction).contains_key(q) <==> m.contains_key(q))
            &&& (m.contains_key(q) ==> patched(m, patches, direction)[q] == m[q])
        },
    decreases patches.len(),
{
    assert forall|q: CellPoint| (forall|i: int| 0 <= i < patches.len() ==> (#[trigger] patches[i]).position.to_runtime_spec() != q) implies {
        &&& (#[trigger] patched(m, patches, direction).contains_key(q) <==> m.contains_key(q))
        &&& (m.contains_key(q) ==> patched(m, patches, direction)[q] == m[q])
    } by {
        lemma_patched_untouched(m, patches, direction, q);
    }
    if patches.len() > 0 {
        let t = patches.drop_last();
        assert forall|i: int, j: int| 0 <= i < j < t.len() implies #[trigger] t[i].position != #[trigger] t[j].position by {
            assert(t[i] == patches[i] && t[j] == patches[j]);
        }
        lemma_patched_pointwise(m, t, direction);
        let last = patches.last();
        assert forall|i: int| 0 <= i < patches.len() implies {
            let at = (#[trigger] patches[i]).position.to_runtime_spec();
            &&& (patched(m, patches, direction).contains_key(at) <==> patch_value(patches[i], direction) is Some)
            &&& (patch_value(patches[i], direction) is Some ==> patched(m, patches, direction)[at] == patch_value(patches[i], direction)->0)
        } by {
            if i < patches.len() - 1 {
                assert(t[i] == patches[i]);
                lemma_point_injective(patches[i].position, last.position);
            }
        }
    }
}

/// Undoing a patch set restores the cells it was recorded against: applying
/// the patches forward and then backward gives the original cells back, as
/// long as each patch's before value is what the cells held and no two
/// patches touch the same position.
pub proof fn law_undo_restores(m: Map<CellPoint, PaintedCell>, patches: Seq<SharedCellPatch>)
    requires
        positions_distinct(patches),
        befores_match(m, patches),
    ensures
        patched(patched(m, patches, PatchDirection::After), patches, PatchDirection::Before) == m,
{
    let fwd = patched(m, patches, PatchDirection::After);
    let back = patched(fwd, patches, PatchDirection::Before);
    lemma_patched_pointwise(m, patches, PatchDirection::After);
    lemma_patched_pointwise(fwd, patches, PatchDirection::Before);
    assert forall|q: CellPoint| #[trigger] back.contains_key(q) <==> m.contains_key(q) by {
        if exists|i: int| 0 <= i < patches.len() && patches[i].position.to_runtime_spec() == q {
            let i = choose|i: int| 0 <= i < patches.len() && patches[i].position.to_runtime_spec() == q;
            assert(back.contains_key(q) <==> patch_value(patches[i], PatchDirection::Before) is Some);
        }
    }
    assert forall|q: CellPoint| #[trigger] back.contains_key(q) implies back[q] == m[q] by {
        if exists|i: int| 0 <= i < patches.len() && patches[i].position.to_runtime_spec() == q {
            let i = choose|i: int| 0 <= i < patches.len() && patches[i].position.to_runtime_spec() == q;
            assert(back[q] == patch_value(patches[i], PatchDirection::Before)->0);
        }
    }
    assert(back =~= m);
}

/// Each patch's after value is what the map holds at its position.
pub open spec fn afters_match(m: Map<CellPoint, PaintedCell>, patches: Seq<SharedCellPatch>) -> bool {
    forall|i: int| 0 <= i < patches.len() ==> {
        let at = (#[trigger] patches[i]).position.to_runtime_spec();
        &&& (m.contains_key(at) <==> patches[i].after is Some)
        &&& (m.contains_key(at) ==> m[at] == patches[i].after->0.to_runtime_spec())
    }
}

/// Redoing a patch set restores the cells it left: applying the patches
/// backward and then forward gives the original cells back, as long as each
/// patch's after value is what the cells hold and no two patches touch the
/// same position.
pub proof fn law_redo_restores(m: Map<CellPoint, PaintedCell>, patches: Seq<SharedCellPatch>)
    requires
        positions_distinct(patches),
        afters_match(m, patches),
    ensures
        patched(patched(m, patches, PatchDirection::Before), patches, PatchDirection::After) == m,
{
    let back = patched(m, patches, PatchDirection::Before);
    let fwd = patched(back, patches, PatchDirection::After);
    lemma_patched_pointwise(m, patches, PatchDirection::Before);
    lemma_patched_pointwise(back, patches, PatchDirection::After);
    assert forall|q: CellPoint| #[trigger] fwd.contains_key(q) <==> m.contains_key(q) by {
        if exists|i: int| 0 <= i < patches.len() && patches[i].position.to_runtime_spec() == q {
            let i = choose|i: int| 0 <= i < patches.len() && patches[i].position.to_runtime_spec() == q;
            assert(fwd.contains_key(q) <==> patch_value(patches[i], PatchDirection::After) is Some);
        }
    }
    assert forall|q: CellPoint| #[trigger] fwd.contains_key(q) implies fwd[q] == m[q] by {
        if exists|i: int| 0 <= i < patches.len() && patches[i].position.to_runtime_spec() == q {
            let i = choose|i: int| 0 <= i < patches.len() && patches[i].position.to_runtime_spec() == q;
            assert(fwd[q] == patch_value(patches[i], PatchDirection::After)->0);
        }
    }
    assert(fwd =~= m);
}

/// Applying a patch set backward is applying its inverse patches forward.
pub proof fn law_before_is_inverse_after(m: Map<CellPoint, PaintedCell>, patches: Seq<SharedCellPatch>)
    ensures
        patched(m, patches, PatchDirection::Before)
            == patched(m, patches.map_values(|p: SharedCellPatch| p.inverse_spec()), PatchDirection::After),
    decreases patches.len(),
{
    if patches.len() > 0 {
        let inv = patches.map_values(|p: SharedCellPatch| p.inverse_spec());
        assert(inv.drop_last() =~= patches.drop_last().map_values(|p: SharedCellPatch| p.inverse_spec()));
        law_before_is_inverse_after(m, patches.drop_last());
        assert(inv.last() == patches.last().inverse_spec());
    }
}


/// One entry of the shared document's action log.
#[derive(Debug, PartialEq, Eq)]
pub enum SharedDocumentAction {
    /// Cell patches that landed on one raster block.
    CellPatchSet {
        patches: Vec<SharedCellPatch>,
        /// The raster block the patches landed on; `None` for legacy records,
        /// which replay into the layer's first non-blank raster block.
        block_id: Option<String>,
        /// Passive records paint content but never enter the undo/redo stacks.
        passive: bool,
        /// For passive revert records: the action this record undoes or redoes.
        reverts: Option<String>,
    },
    /// A legacy undo record.
    Undo,
    /// A legacy redo record.
    Redo,
}

/// One record of the shared document's action log.
#[derive(Debug, PartialEq, Eq)]
pub struct SharedDocumentActionRecord {
    pub action_id: String,
    pub document_id: String,
    pub layer_id: String,
    pub user_id: String,
    pub created_at: String,
    pub action: SharedDocumentAction,
}

pub fn copy_patches(patches: &Vec<SharedCellPatch>) -> (r: Vec<SharedCellPatch>)
    ensures
        r@ == patches@,
{
    let mut out: Vec<SharedCellPatch> = Vec::new();
    let mut i: usize = 0;
    while i < patches.len()
        invariant
            i <= patches.len(),
            out@ == patches@.subrange(0, i as int),
        decreases patches.len() - i,
    {
        out.push(patches[i].copy());
        i = i + 1;
        assert(out@ =~= patches@.subrange(0, i as int));
    }
    assert(out@ =~= patches@);
    out
}

fn copy_string_opt(s: &Option<String>) -> (r: Option<String>)
    ensures
        r == *s,
{
    match s {
        Some(v) => Some(v.clone()),
        None => None,
    }
}

/// The mathematical form of an action.
pub enum ActionView {
    CellPatchSet { patches: Seq<SharedCellPatch>, block_id: Option<Seq<char>>, passive: bool, reverts: Option<Seq<char>> },
    Undo,
    Redo,
}

/// The mathematical form of an action record.
pub struct RecordView {
    pub action_id: Seq<char>,
    pub document_id: Seq<char>,
    pub layer_id: Seq<char>,
    pub user_id: Seq<char>,
    pub created_at: Seq<char>,
    pub action: ActionView,
}

pub open spec fn opt_str_view(s: Option<String>) -> Option<Seq<char>> {
    match s {
        Some(v) => Some(v@),
        None => None,
    }
}

impl View for SharedDocumentAction {
    type V = ActionView;

    open spec fn view(&self) -> ActionView {
        match self {
            SharedDocumentAction::CellPatchSet { patches, block_id, passive, reverts } => ActionView::CellPatchSet {
                patches: patches@,
                block_id: opt_str_view(*block_id),
                passive: *passive,
                reverts: opt_str_view(*reverts),
            },
            SharedDocumentAction::Undo => ActionView::Undo,
            SharedDocumentAction::Redo => ActionView::Redo,
        }
    }
}

impl View for SharedDocumentActionRecord {
    type V = RecordView;

    open spec fn view(&self) -> RecordView {
        RecordView {
            action_id: self.action_id@,
            document_id: self.document_id@,
            layer_id: self.layer_id@,
            user_id: self.user_id@,
            created_at: self.created_at@,
            action: self.action@,
        }
    }
}

impl SharedDocumentAction {
    pub fn copy(&self) -> (r: SharedDocumentAction)
        ensures
            r@ == self@,
    {
        match self {
            SharedDocumentAction::CellPatchSet { patches, block_id, passive, reverts } => {
                SharedDocumentAction::CellPatchSet {
                    patches: copy_patches(patches),
                    block_id: copy_string_opt(block_id),
                    passive: *passive,
                    reverts: copy_string_opt(reverts),
                }
            },
            SharedDocumentAction::Undo => SharedDocumentAction::Undo,
            SharedDocumentAction::Redo => SharedDocumentAction::Redo,
        }
    }
}

/// The header of a record with the given field texts.
pub open spec fn record_view(
    action_id: Seq<char>,
    document_id: Seq<char>,
    layer_id: Seq<char>,
    user_id: Seq<char>,
    created_at: Seq<char>,
    action: ActionView,
) -> RecordView {
    RecordView { action_id, document_id, layer_id, user_id, created_at, action }
}

impl SharedDocumentActionRecord {
    pub fn copy(&self) -> (r: SharedDocumentActionRecord)
        ensures
            r@ == self@,
    {
        SharedDocumentActionRecord {
            action_id: self.action_id.clone(),
            document_id: self.document_id.clone(),
            layer_id: self.layer_id.clone(),
            user_id: self.user_id.clone(),
            created_at: self.created_at.clone(),
            action: self.action.copy(),
        }
    }

    /// A forward (non-passive) patch-set record.
    pub fn cell_patch_set(
        action_id: &str,
        document_id: &str,
        layer_id: &str,
        user_id: &str,
        created_at: &str,
        patches: Vec<SharedCellPatch>,
        block_id: Option<String>,
    ) -> (r: SharedDocumentActionRecord)
        ensures
            r@ == record_view(action_id@, document_id@, layer_id@, user_id@, created_at@,
                ActionView::CellPatchSet { patches: patches@, block_id: opt_str_view(block_id), passive: false, reverts: None }),
    {
        SharedDocumentActionRecord {
            action_id: action_id.to_owned(),
            document_id: document_id.to_owned(),
            layer_id: layer_id.to_owned(),
            user_id: user_id.to_owned(),
            created_at: created_at.to_owned(),
            action: SharedDocumentAction::CellPatchSet { patches, block_id, passive: false, reverts: None },
        }
    }

    /// A passive undo/redo revert record whose replay moves `reverts` between
    /// the applied and undone stacks.
    pub fn revert_patch_set(
        action_id: &str,
        document_id: &str,
        layer_id: &str,
        user_id: &str,
        created_at: &str,
        patches: Vec<SharedCellPatch>,
        block_id: Option<String>,
        reverts: &str,
    ) -> (r: SharedDocumentActionRecord)
        ensures
            r@ == record_view(action_id@, document_id@, layer_id@, user_id@, created_at@,
                ActionView::CellPatchSet { patches: patches@, block_id: opt_str_view(block_id), passive: true, reverts: Some(reverts@) }),
    {
        SharedDocumentActionRecord {
            action_id: action_id.to_owned(),
            document_id: document_id.to_owned(),
            layer_id: layer_id.to_owned(),
            user_id: user_id.to_owned(),
            created_at: created_at.to_owned(),
            action: SharedDocumentAction::CellPatchSet {
                patches,
                block_id,
                passive: true,
                reverts: Some(reverts.to_owned()),
            },
        }
    }

    /// The record marked passive: a patch set keeps everything but its
    /// `passive` flag, which becomes true; undo and redo records are unchanged.
    pub fn as_passive(self) -> (r: SharedDocumentActionRecord)
        ensures
            r@ == passive_view(self@),
    {
        let SharedDocumentActionRecord { action_id, document_id, layer_id, user_id, created_at, action } = self;
        let action = match action {
            SharedDocumentAction::CellPatchSet { patches, block_id, passive, reverts } =>
                SharedDocumentAction::CellPatchSet { patches, block_id, passive: true, reverts },
            other => other,
        };
        SharedDocumentActionRecord { action_id, document_id, layer_id, user_id, created_at, action }
    }

    /// A legacy undo record.
    pub fn undo(action_id: &str, document_id: &str, layer_id: &str, user_id: &str, created_at: &str) -> (r: SharedDocumentActionRecord)
        ensures
            r@ == record_view(action_id@, document_id@, layer_id@, user_id@, created_at@, ActionView::Undo),
    {
        SharedDocumentActionRecord {
            action_id: action_id.to_owned(),
            document_id: document_id.to_owned(),
            layer_id: layer_id.to_owned(),
            user_id: user_id.to_owned(),
            created_at: created_at.to_owned(),
            action: SharedDocumentAction::Undo,
        }
    }

    /// A legacy redo record.
    pub fn redo(action_id: &str, document_id: &str, layer_id: &str, user_id: &str, created_at: &str) -> (r: SharedDocumentActionRecord)
        ensures
            r@ == record_view(action_id@, document_id@, layer_id@, user_id@, created_at@, ActionView::Redo),
    {
        SharedDocumentActionRecord {
            action_id: action_id.to_owned(),
            document_id: document_id.to_owned(),
            layer_id: layer_id.to_owned(),
            user_id: user_id.to_owned(),
            created_at: created_at.to_owned(),
            action: SharedDocumentAction::Redo,
        }
    }
}

/// A record marked passive.
pub open spec fn passive_view(r: RecordView) -> RecordView {
    RecordView {
        action: match r.action {
            ActionView::CellPatchSet { patches, block_id, passive, reverts } =>
                ActionView::CellPatchSet { patches, block_id, passive: true, reverts },
            other => other,
        },
        ..r
    }
}

/// Marking a record passive twice is marking it once.
pub proof fn law_as_passive_idempotent(r: RecordView)
    ensures
        passive_view(passive_view(r)) == passive_view(r),
{
}

/// The inverse (undo) or re-application (redo) patches of one history
/// action, resolved to the raster block the action landed on.
#[derive(Debug, PartialEq, Eq)]
pub struct HistoryRevertPatches {
    pub block_id: String,
    pub patches: Vec<SharedCellPatch>,
    /// The history action this revert undoes or re-applies.
    pub action_id: String,
}

/// The records as mathematical values.
pub open spec fn records_view(s: Seq<SharedDocumentActionRecord>) -> Seq<RecordView> {
    s.map_values(|x: SharedDocumentActionRecord| x@)
}

} // verus!
