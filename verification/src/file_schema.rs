//! The saved painter file schema: its value types and the shape checks that
//! read them out of an already decoded JSON value. Each reader checks the
//! fields in a fixed order and reports the first one that is missing or
//! malformed.

use vstd::prelude::*;
use crate::json::{JsonValue, JsonNumber, JsonList, get_spec};
use crate::text::{owned, push_str, push_decimal, decimal, chars_of, str_eq};

verus! {

pub const FILE_SCHEMA_KIND: &'static str = "thaum-painter-file";
pub const FILE_SCHEMA_VERSION: u32 = 3;

#[derive(Debug, Clone, Copy, PartialEq, Eq, Structural, Default)]
pub struct GridPoint {
    pub x: i64,
    pub y: i64,
    pub z: i64,
}

#[derive(Debug, Clone, Copy, PartialEq, Eq, Structural)]
pub struct Rgb {
    pub r: u8,
    pub g: u8,
    pub b: u8,
}

/// One portable visual graphic; asset files are relative to the renderer's
/// asset root.
#[derive(Debug, Clone, PartialEq, Eq)]
pub enum CellGraphicValue {
    Glyph(char),
    Sprite { asset_file: String },
}

/// One source color assignment.
#[derive(Debug, Clone, PartialEq, Eq)]
pub enum CellColorValue {
    Flat(Rgb),
    Material { asset_file: String },
    Slots { a: CellColorSlotValue, b: CellColorSlotValue, c: CellColorSlotValue },
}

#[derive(Debug, Clone, PartialEq, Eq)]
pub enum CellColorSlotValue {
    Flat(Rgb),
    Material { asset_file: String },
}

/// The authored visual value of one non-empty cell.
#[derive(Debug, Clone, PartialEq, Eq)]
pub struct CellAppearance {
    pub graphic: CellGraphicValue,
    pub color: CellColorValue,
    pub weight_index: i64,
    pub shader_stack: Vec<String>,
}

#[derive(Debug, Clone, PartialEq, Eq)]
pub struct FileSchemaMetadata {
    pub document_id: String,
    pub title: String,
    pub description: String,
    pub tags: Vec<String>,
    pub created_at: String,
    pub modified_at: String,
    pub authoring_origin: String,
}

#[derive(Debug, Clone, Copy, PartialEq, Eq, Structural)]
pub struct DocumentBounds {
    pub min: GridPoint,
    pub width: i64,
    pub height: i64,
    pub depth: i64,
}

#[derive(Debug, Clone, Copy, PartialEq, Eq, Structural)]
pub struct BreathWindow {
    pub start_breath: u32,
    pub window_start_breath: u32,
    pub window_end_breath: u32,
}

#[derive(Debug, Clone, PartialEq, Eq)]
pub struct Voxel {
    pub position: GridPoint,
    pub appearance: CellAppearance,
}

#[derive(Debug, Clone, PartialEq, Eq)]
pub struct RasterSegment {
    pub id: String,
    pub start_breath: u32,
    pub end_breath: u32,
    pub voxels: Vec<Voxel>,
}

#[derive(Debug, Clone, Copy, PartialEq, Eq, Structural)]
pub struct PlaybackWindow {
    pub frames_per_breath: u32,
    pub loop_enabled: bool,
    pub document_window_start_breath: u32,
    pub document_window_end_breath: u32,
}

/// What the exporter is to write; never where or when it wrote it.
#[derive(Debug, Clone, PartialEq, Eq)]
pub struct FlatExport {
    pub file_name: String,
    pub name: String,
    pub facing: String,
    pub interpolation: String,
}

#[derive(Debug, Clone, PartialEq, Eq, Default)]
pub struct ExportSections {
    pub flat: Option<FlatExport>,
}

#[derive(Debug, Clone, PartialEq, Eq)]
pub struct ParticleEffectVisual {
    pub char: char,
    pub display_color: String,
    pub render_index: i64,
    pub weight_index: i64,
}

#[derive(Debug, Clone, PartialEq, Eq)]
pub struct ParticleEffect {
    pub id: String,
    pub kind: String,
    pub name: String,
    pub spawn_breath: u32,
    pub window_start: u32,
    pub window_end: u32,
    pub processed_breaths: u32,
    pub is_complete: bool,
    pub is_deleted: bool,
    pub visual: ParticleEffectVisual,
}

#[derive(Debug, Clone, PartialEq, Eq, Default)]
pub struct TimeAssets {
    pub particle_effects: Vec<ParticleEffect>,
}

#[derive(Debug, Clone, PartialEq, Eq)]
pub struct LastExport {
    pub profile: String,
    pub exported_at: String,
}

/// One block of a group property: its breath span and its per-kind payload,
/// kept as the JSON value it was saved as.
#[derive(Debug, PartialEq, Eq)]
pub struct PropertyBlock {
    pub id: String,
    pub start_breath: u32,
    pub end_breath: u32,
    pub value: JsonValue,
}

/// One animated property of a group and its blocks.
#[derive(Debug, PartialEq, Eq)]
pub struct GroupProperty {
    pub id: String,
    pub kind: String,
    pub blocks: Vec<PropertyBlock>,
}

/// What the file remembers of imports and exports.
#[derive(Debug, PartialEq, Eq)]
pub struct ImportExportBookkeeping {
    pub source_import: Option<JsonValue>,
    pub last_export: Option<LastExport>,
}

/// The type a field was expected to hold.
#[derive(Debug, Clone, Copy, PartialEq, Eq, Structural)]
pub enum ValueKind {
    Text,
    Boolean,
    Integer,
    NonNegativeInteger,
    Array,
    /// Any JSON number; the library reads none itself.
    Number,
}

/// Which tagged value had an unknown `kind`.
#[derive(Debug, Clone, Copy, PartialEq, Eq, Structural)]
pub enum KindOf {
    ColorSlot,
    Color,
    Graphic,
}

/// Why a value does not have the schema's shape.
#[derive(Debug, PartialEq, Eq)]
pub enum SchemaError {
    MissingField { field: String },
    WrongType { field: String, expected: ValueKind },
    OutOfRange { field: String },
    EmptyChar { field: String },
    NotOneChar { field: String, raw: String },
    ItemNotString { field: String, index: usize },
    ShaderNotString { index: usize },
    BadRgb { component: String },
    BadAssetFile { field: String },
    UnknownKind { of: KindOf, found: String },
    BadInterpolation { found: String },
    WrongSchemaKind { found: String },
    WrongSchemaVersion { found: u32 },
    /// A nested value failed; `context` names it.
    Invalid { context: String, cause: Box<SchemaError> },
}

/// A schema error as values.
pub enum ErrView {
    MissingField { field: Seq<char> },
    WrongType { field: Seq<char>, expected: ValueKind },
    OutOfRange { field: Seq<char> },
    EmptyChar { field: Seq<char> },
    NotOneChar { field: Seq<char>, raw: Seq<char> },
    ItemNotString { field: Seq<char>, index: usize },
    ShaderNotString { index: usize },
    BadRgb { component: Seq<char> },
    BadAssetFile { field: Seq<char> },
    UnknownKind { of: KindOf, found: Seq<char> },
    BadInterpolation { found: Seq<char> },
    WrongSchemaKind { found: Seq<char> },
    WrongSchemaVersion { found: u32 },
    Invalid { context: Seq<char>, cause: Box<ErrView> },
}

impl View for SchemaError {
    type V = ErrView;

    open spec fn view(&self) -> ErrView
        decreases self,
    {
        match self {
            SchemaError::MissingField { field } => ErrView::MissingField { field: field@ },
            SchemaError::WrongType { field, expected } => ErrView::WrongType { field: field@, expected: *expected },
            SchemaError::OutOfRange { field } => ErrView::OutOfRange { field: field@ },
            SchemaError::EmptyChar { field } => ErrView::EmptyChar { field: field@ },
            SchemaError::NotOneChar { field, raw } => ErrView::NotOneChar { field: field@, raw: raw@ },
            SchemaError::ItemNotString { field, index } => ErrView::ItemNotString { field: field@, index: *index },
            SchemaError::ShaderNotString { index } => ErrView::ShaderNotString { index: *index },
            SchemaError::BadRgb { component } => ErrView::BadRgb { component: component@ },
            SchemaError::BadAssetFile { field } => ErrView::BadAssetFile { field: field@ },
            SchemaError::UnknownKind { of, found } => ErrView::UnknownKind { of: *of, found: found@ },
            SchemaError::BadInterpolation { found } => ErrView::BadInterpolation { found: found@ },
            SchemaError::WrongSchemaKind { found } => ErrView::WrongSchemaKind { found: found@ },
            SchemaError::WrongSchemaVersion { found } => ErrView::WrongSchemaVersion { found: *found },
            SchemaError::Invalid { context, cause } => ErrView::Invalid { context: context@, cause: Box::new((**cause).view()) },
        }
    }
}

/// The words after `field '<name>' must be` for each expected type.
pub open spec fn kind_words(k: ValueKind) -> Seq<char> {
    match k {
        ValueKind::Text => "a string"@,
        ValueKind::Boolean => "a boolean"@,
        ValueKind::Integer => "an integer"@,
        ValueKind::NonNegativeInteger => "a non-negative integer"@,
        ValueKind::Array => "an array"@,
        ValueKind::Number => "a number"@,
    }
}

/// The one-line text of an error: for a nested failure, the name of what
/// failed.
pub open spec fn error_text(e: ErrView) -> Seq<char> {
    match e {
        ErrView::MissingField { field } => "missing field '"@ + field + "'"@,
        ErrView::WrongType { field, expected } => "field '"@ + field + "' must be "@ + kind_words(expected),
        ErrView::OutOfRange { field } => "field '"@ + field + "' is out of range"@,
        ErrView::EmptyChar { field } => "field '"@ + field + "' must not be empty"@,
        ErrView::NotOneChar { field, raw } => "field '"@ + field + "' must be exactly one character, got '"@ + raw + "'"@,
        ErrView::ItemNotString { field, index } => "field '"@ + field + "["@ + decimal(index as nat) + "]' must be a string"@,
        ErrView::ShaderNotString { index } => "shader_stack["@ + decimal(index as nat) + "] must be a string"@,
        ErrView::BadRgb { component } => "rgb component '"@ + component + "' must be 0-255"@,
        ErrView::BadAssetFile { field } => field + " must be a non-empty relative asset filename"@,
        ErrView::UnknownKind { of, found } => match of {
            KindOf::ColorSlot => "color slot kind must be 'flat' or 'material', got '"@ + found + "'"@,
            KindOf::Color => "color kind must be 'flat', 'material', or 'slots', got '"@ + found + "'"@,
            KindOf::Graphic => "graphic kind must be 'glyph' or 'sprite', got '"@ + found + "'"@,
        },
        ErrView::BadInterpolation { found } => "flat export interpolation must be 'preserve', got '"@ + found + "'"@,
        ErrView::WrongSchemaKind { found } => "file-schema kind must be '"@ + FILE_SCHEMA_KIND@ + "', got '"@ + found + "'"@,
        ErrView::WrongSchemaVersion { found } => "file schema version must be "@ + decimal(FILE_SCHEMA_VERSION as nat) + ", got "@ + decimal(found as nat),
        ErrView::Invalid { context, cause } => context,
    }
}

impl SchemaError {
    /// The error's one-line text.
    pub fn message(&self) -> (m: String)
        ensures
            m@ == error_text(self@),
    {
        match self {
            SchemaError::MissingField { field } => {
                let mut m = owned("missing field '");
                push_str(&mut m, field.as_str());
                push_str(&mut m, "'");
                m
            },
            SchemaError::WrongType { field, expected } => {
                let mut m = owned("field '");
                push_str(&mut m, field.as_str());
                push_str(&mut m, "' must be ");
                match expected {
                    ValueKind::Text => push_str(&mut m, "a string"),
                    ValueKind::Boolean => push_str(&mut m, "a boolean"),
                    ValueKind::Integer => push_str(&mut m, "an integer"),
                    ValueKind::NonNegativeInteger => push_str(&mut m, "a non-negative integer"),
                    ValueKind::Array => push_str(&mut m, "an array"),
                    ValueKind::Number => push_str(&mut m, "a number"),
                }
                m
            },
            SchemaError::OutOfRange { field } => {
                let mut m = owned("field '");
                push_str(&mut m, field.as_str());
                push_str(&mut m, "' is out of range");
                m
            },
            SchemaError::EmptyChar { field } => {
                let mut m = owned("field '");
                push_str(&mut m, field.as_str());
                push_str(&mut m, "' must not be empty");
                m
            },
            SchemaError::NotOneChar { field, raw } => {
                let mut m = owned("field '");
                push_str(&mut m, field.as_str());
                push_str(&mut m, "' must be exactly one character, got '");
                push_str(&mut m, raw.as_str());
                push_str(&mut m, "'");
                m
            },
            SchemaError::ItemNotString { field, index } => {
                let mut m = owned("field '");
                push_str(&mut m, field.as_str());
                push_str(&mut m, "[");
                push_decimal(&mut m, *index as u64);
                push_str(&mut m, "]' must be a string");
                m
            },
            SchemaError::ShaderNotString { index } => {
                let mut m = owned("shader_stack[");
                push_decimal(&mut m, *index as u64);
                push_str(&mut m, "] must be a string");
                m
            },
            SchemaError::BadRgb { component } => {
                let mut m = owned("rgb component '");
                push_str(&mut m, component.as_str());
                push_str(&mut m, "' must be 0-255");
                m
            },
            SchemaError::BadAssetFile { field } => {
                let mut m = field.clone();
                push_str(&mut m, " must be a non-empty relative asset filename");
                m
            },
            SchemaError::UnknownKind { of, found } => {
                let mut m = match of {
                    KindOf::ColorSlot => owned("color slot kind must be 'flat' or 'material', got '"),
                    KindOf::Color => owned("color kind must be 'flat', 'material', or 'slots', got '"),
                    KindOf::Graphic => owned("graphic kind must be 'glyph' or 'sprite', got '"),
                };
                push_str(&mut m, found.as_str());
                push_str(&mut m, "'");
                m
            },
            SchemaError::BadInterpolation { found } => {
                let mut m = owned("flat export interpolation must be 'preserve', got '");
                push_str(&mut m, found.as_str());
                push_str(&mut m, "'");
                m
            },
            SchemaError::WrongSchemaKind { found } => {
                let mut m = owned("file-schema kind must be '");
                push_str(&mut m, FILE_SCHEMA_KIND);
                push_str(&mut m, "', got '");
                push_str(&mut m, found.as_str());
                push_str(&mut m, "'");
                m
            },
            SchemaError::WrongSchemaVersion { found } => {
                let mut m = owned("file schema version must be ");
                push_decimal(&mut m, FILE_SCHEMA_VERSION as u64);
                push_str(&mut m, ", got ");
                push_decimal(&mut m, *found as u64);
                m
            },
            SchemaError::Invalid { context, cause } => context.clone(),
        }
    }
}

/// A result with its values viewed.
pub open spec fn result_view<T: View>(r: Result<T, SchemaError>) -> Result<T::V, ErrView> {
    match r {
        Ok(x) => Ok(x@),
        Err(e) => Err(e@),
    }
}

/// A field of an object value.
pub open spec fn field_spec(value: JsonValue, name: Seq<char>) -> Result<JsonValue, ErrView> {
    match get_spec(value, name) {
        Some(v) => Ok(v),
        None => Err(ErrView::MissingField { field: name }),
    }
}

/// A string field.
pub open spec fn str_spec(value: JsonValue, name: Seq<char>) -> Result<Seq<char>, ErrView> {
    match field_spec(value, name) {
        Err(e) => Err(e),
        Ok(JsonValue::String(s)) => Ok(s@),
        Ok(_) => Err(ErrView::WrongType { field: name, expected: ValueKind::Text }),
    }
}

/// A boolean field.
pub open spec fn bool_spec(value: JsonValue, name: Seq<char>) -> Result<bool, ErrView> {
    match field_spec(value, name) {
        Err(e) => Err(e),
        Ok(JsonValue::Bool(b)) => Ok(b),
        Ok(_) => Err(ErrView::WrongType { field: name, expected: ValueKind::Boolean }),
    }
}

/// An integer field that fits `i64`.
pub open spec fn i64_spec(value: JsonValue, name: Seq<char>) -> Result<i64, ErrView> {
    match field_spec(value, name) {
        Err(e) => Err(e),
        Ok(JsonValue::Number(JsonNumber::PosInt(n))) => if n <= i64::MAX { Ok(n as i64) } else {
            Err(ErrView::WrongType { field: name, expected: ValueKind::Integer })
        },
        Ok(JsonValue::Number(JsonNumber::NegInt(n))) => Ok(n),
        Ok(_) => Err(ErrView::WrongType { field: name, expected: ValueKind::Integer }),
    }
}

/// A non-negative integer field that fits `u32`.
pub open spec fn u32_spec(value: JsonValue, name: Seq<char>) -> Result<u32, ErrView> {
    let raw: Option<u64> = match field_spec(value, name) {
        Ok(JsonValue::Number(JsonNumber::PosInt(n))) => Some(n),
        Ok(JsonValue::Number(JsonNumber::NegInt(n))) => if n >= 0 { Some(n as u64) } else { None },
        _ => None,
    };
    match field_spec(value, name) {
        Err(e) => Err(e),
        Ok(_) => match raw {
            None => Err(ErrView::WrongType { field: name, expected: ValueKind::NonNegativeInteger }),
            Some(n) => if n <= u32::MAX { Ok(n as u32) } else { Err(ErrView::OutOfRange { field: name }) },
        },
    }
}

/// A string field that holds exactly one character.
pub open spec fn char_spec(value: JsonValue, name: Seq<char>) -> Result<char, ErrView> {
    match str_spec(value, name) {
        Err(e) => Err(e),
        Ok(s) => if s.len() == 0 {
            Err(ErrView::EmptyChar { field: name })
        } else if s.len() > 1 {
            Err(ErrView::NotOneChar { field: name, raw: s })
        } else {
            Ok(s[0])
        },
    }
}

/// The items of a JSON array, first first.
pub open spec fn list_items(l: JsonList) -> Seq<JsonValue>
    decreases l,
{
    match l {
        JsonList::Nil => Seq::empty(),
        JsonList::Cons(h, t) => seq![*h] + list_items(*t),
    }
}

/// An array field's items.
pub open spec fn array_spec(value: JsonValue, name: Seq<char>) -> Result<Seq<JsonValue>, ErrView> {
    match field_spec(value, name) {
        Err(e) => Err(e),
        Ok(JsonValue::Array(l)) => Ok(list_items(l)),
        Ok(_) => Err(ErrView::WrongType { field: name, expected: ValueKind::Array }),
    }
}

/// The named member of an object; missing when absent or not an object.
pub fn require_field<'a>(value: &'a JsonValue, name: &str) -> (r: Result<&'a JsonValue, SchemaError>)
    ensures
        match r {
            Ok(v) => field_spec(*value, name@) == Ok::<JsonValue, ErrView>(*v),
            Err(e) => field_spec(*value, name@) == Err::<JsonValue, ErrView>(e@),
        },
{
    match value.get(name) {
        Some(v) => Ok(v),
        None => Err(SchemaError::MissingField { field: owned(name) }),
    }
}

/// The named member, which must be a string.
pub fn require_str<'a>(value: &'a JsonValue, name: &str) -> (r: Result<&'a str, SchemaError>)
    ensures
        match r {
            Ok(s) => str_spec(*value, name@) == Ok::<Seq<char>, ErrView>(s@),
            Err(e) => str_spec(*value, name@) == Err::<Seq<char>, ErrView>(e@),
        },
{
    match require_field(value, name) {
        Err(e) => Err(e),
        Ok(JsonValue::String(s)) => Ok(s.as_str()),
        Ok(_) => Err(SchemaError::WrongType { field: owned(name), expected: ValueKind::Text }),
    }
}

/// The named member as an owned string.
pub fn require_string(value: &JsonValue, name: &str) -> (r: Result<String, SchemaError>)
    ensures
        match r {
            Ok(s) => str_spec(*value, name@) == Ok::<Seq<char>, ErrView>(s@),
            Err(e) => str_spec(*value, name@) == Err::<Seq<char>, ErrView>(e@),
        },
{
    match require_str(value, name) {
        Ok(s) => Ok(owned(s)),
        Err(e) => Err(e),
    }
}

/// The named member, which must be a boolean.
pub fn require_bool(value: &JsonValue, name: &str) -> (r: Result<bool, SchemaError>)
    ensures
        result_view(r) == bool_spec(*value, name@),
{
    match require_field(value, name) {
        Err(e) => Err(e),
        Ok(JsonValue::Bool(b)) => Ok(*b),
        Ok(_) => Err(SchemaError::WrongType { field: owned(name), expected: ValueKind::Boolean }),
    }
}

/// The named member, which must be an integer that fits in `i64`.
pub fn require_i64(value: &JsonValue, name: &str) -> (r: Result<i64, SchemaError>)
    ensures
        result_view(r) == i64_spec(*value, name@),
{
    match require_field(value, name) {
        Err(e) => Err(e),
        Ok(JsonValue::Number(JsonNumber::PosInt(n))) => if *n <= 9223372036854775807u64 {
            Ok(*n as i64)
        } else {
            Err(SchemaError::WrongType { field: owned(name), expected: ValueKind::Integer })
        },
        Ok(JsonValue::Number(JsonNumber::NegInt(n))) => Ok(*n),
        Ok(_) => Err(SchemaError::WrongType { field: owned(name), expected: ValueKind::Integer }),
    }
}

/// The named member, which must be a non-negative integer that fits in `u32`.
pub fn require_u32(value: &JsonValue, name: &str) -> (r: Result<u32, SchemaError>)
    ensures
        result_view(r) == u32_spec(*value, name@),
{
    let v = match require_field(value, name) {
        Err(e) => {
            return Err(e);
        },
        Ok(v) => v,
    };
    let raw: Option<u64> = match v {
        JsonValue::Number(JsonNumber::PosInt(n)) => Some(*n),
        JsonValue::Number(JsonNumber::NegInt(n)) => if *n >= 0 { Some(*n as u64) } else { None },
        _ => None,
    };
    match raw {
        None => Err(SchemaError::WrongType { field: owned(name), expected: ValueKind::NonNegativeInteger }),
        Some(n) => if n <= 4294967295u64 { Ok(n as u32) } else { Err(SchemaError::OutOfRange { field: owned(name) }) },
    }
}

fn require_char(value: &JsonValue, name: &str) -> (r: Result<char, SchemaError>)
    ensures
        result_view(r) == char_spec(*value, name@),
{
    let raw = match require_str(value, name) {
        Err(e) => {
            return Err(e);
        },
        Ok(s) => s,
    };
    let cs = chars_of(raw);
    if cs.len() == 0 {
        Err(SchemaError::EmptyChar { field: owned(name) })
    } else if cs.len() > 1 {
        Err(SchemaError::NotOneChar { field: owned(name), raw: owned(raw) })
    } else {
        Ok(cs[0])
    }
}

/// The items of a list, first first.
fn items_of(l: &JsonList) -> (r: Vec<&JsonValue>)
    ensures
        r@.len() == list_items(*l).len(),
        forall|i: int| 0 <= i < r@.len() ==> *#[trigger] r@[i] == list_items(*l)[i],
    decreases l,
{
    match l {
        JsonList::Nil => Vec::new(),
        JsonList::Cons(h, t) => {
            let rest = items_of(&**t);
            let mut out: Vec<&JsonValue> = Vec::new();
            out.push(&**h);
            let mut i: usize = 0;
            while i < rest.len()
                invariant
                    i <= rest@.len(),
                    out@.len() == i + 1,
                    *out@[0] == **h,
                    forall|k: int| 0 <= k < i ==> *#[trigger] out@[k + 1] == *rest@[k],
                decreases rest@.len() - i,
            {
                out.push(rest[i]);
                i = i + 1;
            }
            proof {
                let items = list_items(*l);
                assert(items == seq![**h] + list_items(**t));
                assert forall|k: int| 0 <= k < out@.len() implies *#[trigger] out@[k] == items[k] by {
                    if k > 0 {
                        assert(*out@[(k - 1) + 1] == *rest@[k - 1]);
                    }
                }
            }
            out
        },
    }
}

/// The items of the named member, which must be an array.
pub fn require_array<'a>(value: &'a JsonValue, name: &str) -> (r: Result<Vec<&'a JsonValue>, SchemaError>)
    ensures
        match r {
            Ok(items) => array_spec(*value, name@) matches Ok(s) && s.len() == items@.len()
                && forall|i: int| 0 <= i < s.len() ==> *#[trigger] items@[i] == s[i],
            Err(e) => array_spec(*value, name@) == Err::<Seq<JsonValue>, ErrView>(e@),
        },
{
    match require_field(value, name) {
        Err(e) => Err(e),
        Ok(JsonValue::Array(l)) => Ok(items_of(l)),
        Ok(_) => Err(SchemaError::WrongType { field: owned(name), expected: ValueKind::Array }),
    }
}


/// A graphic as values.
pub enum GraphicView {
    Glyph(char),
    Sprite(Seq<char>),
}

/// A color slot as values.
pub enum SlotView {
    Flat(Rgb),
    Material(Seq<char>),
}

/// A color as values.
pub enum ColorView {
    Flat(Rgb),
    Material(Seq<char>),
    Slots(SlotView, SlotView, SlotView),
}

/// A cell appearance as values.
pub struct AppearanceView {
    pub graphic: GraphicView,
    pub color: ColorView,
    pub weight_index: i64,
    pub shader_stack: Seq<Seq<char>>,
}

/// A voxel as values.
pub struct VoxelView {
    pub position: GridPoint,
    pub appearance: AppearanceView,
}

/// A raster segment as values.
pub struct SegmentView {
    pub id: Seq<char>,
    pub start_breath: u32,
    pub end_breath: u32,
    pub voxels: Seq<VoxelView>,
}

/// A flat export as values.
pub struct FlatExportView {
    pub file_name: Seq<char>,
    pub name: Seq<char>,
    pub facing: Seq<char>,
    pub interpolation: Seq<char>,
}

/// A particle visual as values.
pub struct VisualView {
    pub glyph: char,
    pub display_color: Seq<char>,
    pub render_index: i64,
    pub weight_index: i64,
}

/// A particle effect as values.
pub struct EffectView {
    pub id: Seq<char>,
    pub kind: Seq<char>,
    pub name: Seq<char>,
    pub spawn_breath: u32,
    pub window_start: u32,
    pub window_end: u32,
    pub processed_breaths: u32,
    pub is_complete: bool,
    pub is_deleted: bool,
    pub visual: VisualView,
}

/// The last export as values.
pub struct LastExportView {
    pub profile: Seq<char>,
    pub exported_at: Seq<char>,
}

/// A property block as values.
pub struct PropertyBlockView {
    pub id: Seq<char>,
    pub start_breath: u32,
    pub end_breath: u32,
    pub value: JsonValue,
}

/// A group property as values.
pub struct GroupPropertyView {
    pub id: Seq<char>,
    pub kind: Seq<char>,
    pub blocks: Seq<PropertyBlockView>,
}

/// The import and export bookkeeping as values.
pub struct BookkeepingView {
    pub source_import: Option<JsonValue>,
    pub last_export: Option<LastExportView>,
}

/// The file metadata as values.
pub struct MetadataView {
    pub document_id: Seq<char>,
    pub title: Seq<char>,
    pub description: Seq<char>,
    pub tags: Seq<Seq<char>>,
    pub created_at: Seq<char>,
    pub modified_at: Seq<char>,
    pub authoring_origin: Seq<char>,
}

impl View for GridPoint {
    type V = GridPoint;
    open spec fn view(&self) -> GridPoint { *self }
}

impl View for Rgb {
    type V = Rgb;
    open spec fn view(&self) -> Rgb { *self }
}

impl View for BreathWindow {
    type V = BreathWindow;
    open spec fn view(&self) -> BreathWindow { *self }
}

impl View for DocumentBounds {
    type V = DocumentBounds;
    open spec fn view(&self) -> DocumentBounds { *self }
}

impl View for PlaybackWindow {
    type V = PlaybackWindow;
    open spec fn view(&self) -> PlaybackWindow { *self }
}

impl View for CellGraphicValue {
    type V = GraphicView;
    open spec fn view(&self) -> GraphicView {
        match self {
            CellGraphicValue::Glyph(c) => GraphicView::Glyph(*c),
            CellGraphicValue::Sprite { asset_file } => GraphicView::Sprite(asset_file@),
        }
    }
}

impl View for CellColorSlotValue {
    type V = SlotView;
    open spec fn view(&self) -> SlotView {
        match self {
            CellColorSlotValue::Flat(c) => SlotView::Flat(*c),
            CellColorSlotValue::Material { asset_file } => SlotView::Material(asset_file@),
        }
    }
}

impl View for CellColorValue {
    type V = ColorView;
    open spec fn view(&self) -> ColorView {
        match self {
            CellColorValue::Flat(c) => ColorView::Flat(*c),
            CellColorValue::Material { asset_file } => ColorView::Material(asset_file@),
            CellColorValue::Slots { a, b, c } => ColorView::Slots(a@, b@, c@),
        }
    }
}

/// Strings as values.
pub open spec fn texts(v: Seq<String>) -> Seq<Seq<char>> {
    v.map_values(|s: String| s@)
}

impl View for CellAppearance {
    type V = AppearanceView;
    open spec fn view(&self) -> AppearanceView {
        AppearanceView {
            graphic: self.graphic@,
            color: self.color@,
            weight_index: self.weight_index,
            shader_stack: texts(self.shader_stack@),
        }
    }
}

impl View for Voxel {
    type V = VoxelView;
    open spec fn view(&self) -> VoxelView {
        VoxelView { position: self.position, appearance: self.appearance@ }
    }
}

impl View for RasterSegment {
    type V = SegmentView;
    open spec fn view(&self) -> SegmentView {
        SegmentView {
            id: self.id@,
            start_breath: self.start_breath,
            end_breath: self.end_breath,
            voxels: self.voxels@.map_values(|x: Voxel| x@),
        }
    }
}

impl View for FlatExport {
    type V = FlatExportView;
    open spec fn view(&self) -> FlatExportView {
        FlatExportView { file_name: self.file_name@, name: self.name@, facing: self.facing@, interpolation: self.interpolation@ }
    }
}

impl View for ExportSections {
    type V = Option<FlatExportView>;
    open spec fn view(&self) -> Option<FlatExportView> {
        match self.flat {
            Some(f) => Some(f@),
            None => None,
        }
    }
}

impl View for ParticleEffectVisual {
    type V = VisualView;
    open spec fn view(&self) -> VisualView {
        VisualView { glyph: self.char, display_color: self.display_color@, render_index: self.render_index, weight_index: self.weight_index }
    }
}

impl View for ParticleEffect {
    type V = EffectView;
    open spec fn view(&self) -> EffectView {
        EffectView {
            id: self.id@,
            kind: self.kind@,
            name: self.name@,
            spawn_breath: self.spawn_breath,
            window_start: self.window_start,
            window_end: self.window_end,
            processed_breaths: self.processed_breaths,
            is_complete: self.is_complete,
            is_deleted: self.is_deleted,
            visual: self.visual@,
        }
    }
}

impl View for TimeAssets {
    type V = Seq<EffectView>;
    open spec fn view(&self) -> Seq<EffectView> {
        self.particle_effects@.map_values(|e: ParticleEffect| e@)
    }
}

impl View for LastExport {
    type V = LastExportView;
    open spec fn view(&self) -> LastExportView {
        LastExportView { profile: self.profile@, exported_at: self.exported_at@ }
    }
}

impl View for PropertyBlock {
    type V = PropertyBlockView;
    open spec fn view(&self) -> PropertyBlockView {
        PropertyBlockView { id: self.id@, start_breath: self.start_breath, end_breath: self.end_breath, value: self.value }
    }
}

impl View for GroupProperty {
    type V = GroupPropertyView;
    open spec fn view(&self) -> GroupPropertyView {
        GroupPropertyView { id: self.id@, kind: self.kind@, blocks: self.blocks@.map_values(|b: PropertyBlock| b@) }
    }
}

impl View for ImportExportBookkeeping {
    type V = BookkeepingView;
    open spec fn view(&self) -> BookkeepingView {
        BookkeepingView {
            source_import: self.source_import,
            last_export: match self.last_export {
                Some(l) => Some(l@),
                None => None,
            },
        }
    }
}

impl View for FileSchemaMetadata {
    type V = MetadataView;
    open spec fn view(&self) -> MetadataView {
        MetadataView {
            document_id: self.document_id@,
            title: self.title@,
            description: self.description@,
            tags: texts(self.tags@),
            created_at: self.created_at@,
            modified_at: self.modified_at@,
            authoring_origin: self.authoring_origin@,
        }
    }
}

/// Whether `s` has `..` as a whole segment between `sep` separators.
pub open spec fn dotdot_segment(s: Seq<char>, sep: char) -> bool {
    exists|i: int| 0 <= i && i + 2 <= s.len() && #[trigger] s[i] == '.' && s[i + 1] == '.'
        && (i == 0 || s[i - 1] == sep) && (i + 2 == s.len() || s[i + 2] == sep)
}

/// An asset file name the schema accepts: non-empty, not absolute, and with
/// no `..` segment under either separator.
pub open spec fn asset_file_ok(s: Seq<char>) -> bool {
    &&& s.len() > 0
    &&& s[0] != '/'
    &&& s[0] != '\\'
    &&& !dotdot_segment(s, '/')
    &&& !dotdot_segment(s, '\\')
}

fn has_dotdot_segment(cs: &Vec<char>, sep: char) -> (r: bool)
    ensures
        r == dotdot_segment(cs@, sep),
{
    let n = cs.len();
    let mut i: usize = 0;
    while i < n && n - i >= 2
        invariant
            n == cs@.len(),
            i <= n,
            forall|k: int| 0 <= k < i && k + 2 <= n ==> !(#[trigger] cs@[k] == '.' && cs@[k + 1] == '.'
                && (k == 0 || cs@[k - 1] == sep) && (k + 2 == n || cs@[k + 2] == sep)),
        decreases n - i,
    {
        if cs[i] == '.' && cs[i + 1] == '.' && (i == 0 || cs[i - 1] == sep) && (i + 2 == n || cs[i + 2] == sep) {
            return true;
        }
        i = i + 1;
    }
    false
}

/// Refuses an asset file name that is empty, absolute, or climbs out with
/// a `..` segment; `field_name` names it in the error.
pub fn validate_asset_file(asset_file: &str, field_name: &str) -> (r: Result<(), SchemaError>)
    ensures
        r is Ok <==> asset_file_ok(asset_file@),
        r matches Err(e) ==> e@ == (ErrView::BadAssetFile { field: field_name@ }),
{
    let cs = chars_of(asset_file);
    if cs.len() == 0 || cs[0] == '/' || cs[0] == '\\' || has_dotdot_segment(&cs, '/') || has_dotdot_segment(&cs, '\\') {
        return Err(SchemaError::BadAssetFile { field: owned(field_name) });
    }
    Ok(())
}

/// An asset file field.
pub open spec fn asset_spec(value: JsonValue, name: Seq<char>) -> Result<Seq<char>, ErrView> {
    match str_spec(value, name) {
        Err(e) => Err(e),
        Ok(s) => if asset_file_ok(s) { Ok(s) } else { Err(ErrView::BadAssetFile { field: "field '"@ + name + "'"@ }) },
    }
}

fn require_asset_file(value: &JsonValue, name: &str) -> (r: Result<String, SchemaError>)
    ensures
        match r {
            Ok(s) => asset_spec(*value, name@) == Ok::<Seq<char>, ErrView>(s@),
            Err(e) => asset_spec(*value, name@) == Err::<Seq<char>, ErrView>(e@),
        },
{
    let asset_file = match require_str(value, name) {
        Err(e) => {
            return Err(e);
        },
        Ok(s) => s,
    };
    let mut described = owned("field '");
    push_str(&mut described, name);
    push_str(&mut described, "'");
    match validate_asset_file(asset_file, described.as_str()) {
        Err(e) => Err(e),
        Ok(()) => Ok(owned(asset_file)),
    }
}


/// A nested failure named by `context`.
pub open spec fn invalid(context: Seq<char>, cause: ErrView) -> ErrView {
    ErrView::Invalid { context, cause: Box::new(cause) }
}

fn wrap(context: &str, cause: SchemaError) -> (e: SchemaError)
    ensures
        e@ == invalid(context@, cause@),
{
    SchemaError::Invalid { context: owned(context), cause: Box::new(cause) }
}

/// The items of an array read one by one, in order; the first item that
/// fails decides the error.
pub open spec fn fold_items<T>(items: Seq<JsonValue>, f: spec_fn(JsonValue, int) -> Result<T, ErrView>) -> Result<Seq<T>, ErrView>
    decreases items.len(),
{
    if items.len() == 0 {
        Ok(Seq::empty())
    } else {
        match fold_items(items.drop_last(), f) {
            Err(e) => Err(e),
            Ok(pre) => match f(items.last(), items.len() - 1) {
                Err(e) => Err(e),
                Ok(x) => Ok(pre.push(x)),
            },
        }
    }
}

proof fn lemma_fold_err<T>(items: Seq<JsonValue>, f: spec_fn(JsonValue, int) -> Result<T, ErrView>, k: int)
    requires
        0 <= k <= items.len(),
        fold_items(items.take(k), f) is Err,
    ensures
        fold_items(items, f) == fold_items(items.take(k), f),
    decreases items.len() - k,
{
    if k == items.len() {
        assert(items.take(k) =~= items);
    } else {
        assert(items.take(k + 1).drop_last() =~= items.take(k));
        lemma_fold_err(items, f, k + 1);
    }
}

proof fn lemma_fold_step<T>(items: Seq<JsonValue>, f: spec_fn(JsonValue, int) -> Result<T, ErrView>, i: int)
    requires
        0 <= i < items.len(),
    ensures
        fold_items(items.take(i + 1), f) == (match fold_items(items.take(i), f) {
            Err(e) => Err(e),
            Ok(pre) => match f(items[i], i) {
                Err(e) => Err(e),
                Ok(x) => Ok(pre.push(x)),
            },
        }),
{
    assert(items.take(i + 1).drop_last() =~= items.take(i));
    assert(items.take(i + 1).last() == items[i]);
}

/// A grid point stored as `x`, `y`, `z`.
pub open spec fn grid_point_spec(v: JsonValue) -> Result<GridPoint, ErrView> {
    match (i64_spec(v, "x"@), i64_spec(v, "y"@), i64_spec(v, "z"@)) {
        (Err(e), _, _) => Err(e),
        (Ok(_), Err(e), _) => Err(e),
        (Ok(_), Ok(_), Err(e)) => Err(e),
        (Ok(x), Ok(y), Ok(z)) => Ok(GridPoint { x, y, z }),
    }
}

pub fn parse_grid_point(value: &JsonValue) -> (r: Result<GridPoint, SchemaError>)
    ensures
        result_view(r) == grid_point_spec(*value),
{
    let x = match require_i64(value, "x") { Ok(x) => x, Err(e) => { return Err(e); } };
    let y = match require_i64(value, "y") { Ok(y) => y, Err(e) => { return Err(e); } };
    let z = match require_i64(value, "z") { Ok(z) => z, Err(e) => { return Err(e); } };
    Ok(GridPoint { x, y, z })
}

/// One RGB component: an integer field in 0..=255.
pub open spec fn component_spec(v: JsonValue, name: Seq<char>) -> Result<u8, ErrView> {
    match i64_spec(v, name) {
        Err(e) => Err(e),
        Ok(c) => if 0 <= c <= 255 { Ok(c as u8) } else { Err(ErrView::BadRgb { component: name }) },
    }
}

/// A color stored as `r`, `g`, `b`.
pub open spec fn rgb_spec(v: JsonValue) -> Result<Rgb, ErrView> {
    match (component_spec(v, "r"@), component_spec(v, "g"@), component_spec(v, "b"@)) {
        (Err(e), _, _) => Err(e),
        (Ok(_), Err(e), _) => Err(e),
        (Ok(_), Ok(_), Err(e)) => Err(e),
        (Ok(r), Ok(g), Ok(b)) => Ok(Rgb { r, g, b }),
    }
}

fn require_component(value: &JsonValue, name: &str) -> (r: Result<u8, SchemaError>)
    ensures
        result_view(r) == component_spec(*value, name@),
{
    let c = match require_i64(value, name) { Ok(c) => c, Err(e) => { return Err(e); } };
    if 0 <= c && c <= 255 {
        Ok(c as u8)
    } else {
        Err(SchemaError::BadRgb { component: owned(name) })
    }
}

fn parse_rgb(value: &JsonValue) -> (r: Result<Rgb, SchemaError>)
    ensures
        result_view(r) == rgb_spec(*value),
{
    let red = match require_component(value, "r") { Ok(c) => c, Err(e) => { return Err(e); } };
    let green = match require_component(value, "g") { Ok(c) => c, Err(e) => { return Err(e); } };
    let blue = match require_component(value, "b") { Ok(c) => c, Err(e) => { return Err(e); } };
    Ok(Rgb { r: red, g: green, b: blue })
}

/// A flat color: the `rgb` field read as a color.
pub open spec fn flat_spec(v: JsonValue) -> Result<Rgb, ErrView> {
    match field_spec(v, "rgb"@) {
        Err(e) => Err(e),
        Ok(x) => rgb_spec(x),
    }
}

fn parse_flat(value: &JsonValue) -> (r: Result<Rgb, SchemaError>)
    ensures
        result_view(r) == flat_spec(*value),
{
    match require_field(value, "rgb") {
        Err(e) => Err(e),
        Ok(x) => parse_rgb(x),
    }
}

/// A color slot tagged `flat` or `material`.
pub open spec fn slot_spec(v: JsonValue) -> Result<SlotView, ErrView> {
    match str_spec(v, "kind"@) {
        Err(e) => Err(e),
        Ok(k) => if k == "flat"@ {
            match flat_spec(v) { Err(e) => Err(e), Ok(c) => Ok(SlotView::Flat(c)) }
        } else if k == "material"@ {
            match asset_spec(v, "asset_file"@) { Err(e) => Err(e), Ok(a) => Ok(SlotView::Material(a)) }
        } else {
            Err(ErrView::UnknownKind { of: KindOf::ColorSlot, found: k })
        },
    }
}

fn parse_color_slot(value: &JsonValue) -> (r: Result<CellColorSlotValue, SchemaError>)
    ensures
        result_view(r) == slot_spec(*value),
{
    let kind = match require_str(value, "kind") { Ok(k) => k, Err(e) => { return Err(e); } };
    if str_eq(kind, "flat") {
        match parse_flat(value) { Ok(c) => Ok(CellColorSlotValue::Flat(c)), Err(e) => Err(e) }
    } else if str_eq(kind, "material") {
        match require_asset_file(value, "asset_file") {
            Ok(a) => Ok(CellColorSlotValue::Material { asset_file: a }),
            Err(e) => Err(e),
        }
    } else {
        Err(SchemaError::UnknownKind { of: KindOf::ColorSlot, found: owned(kind) })
    }
}

/// One named slot of a slotted color; its own failures are named
/// `invalid color slot <name>`.
pub open spec fn named_slot_spec(v: JsonValue, name: Seq<char>) -> Result<SlotView, ErrView> {
    match field_spec(v, name) {
        Err(e) => Err(e),
        Ok(x) => match slot_spec(x) {
            Err(e) => Err(invalid("invalid color slot "@ + name, e)),
            Ok(s) => Ok(s),
        },
    }
}

fn parse_named_slot(value: &JsonValue, name: &str) -> (r: Result<CellColorSlotValue, SchemaError>)
    ensures
        result_view(r) == named_slot_spec(*value, name@),
{
    let x = match require_field(value, name) { Ok(x) => x, Err(e) => { return Err(e); } };
    match parse_color_slot(x) {
        Ok(s) => Ok(s),
        Err(e) => {
            let mut context = owned("invalid color slot ");
            push_str(&mut context, name);
            Err(wrap(context.as_str(), e))
        },
    }
}

/// A color tagged `flat`, `material` or `slots` (slots `a`, `b`, `c`).
pub open spec fn color_spec(v: JsonValue) -> Result<ColorView, ErrView> {
    match str_spec(v, "kind"@) {
        Err(e) => Err(e),
        Ok(k) => if k == "flat"@ {
            match flat_spec(v) { Err(e) => Err(e), Ok(c) => Ok(ColorView::Flat(c)) }
        } else if k == "material"@ {
            match asset_spec(v, "asset_file"@) { Err(e) => Err(e), Ok(a) => Ok(ColorView::Material(a)) }
        } else if k == "slots"@ {
            match (named_slot_spec(v, "a"@), named_slot_spec(v, "b"@), named_slot_spec(v, "c"@)) {
                (Err(e), _, _) => Err(e),
                (Ok(_), Err(e), _) => Err(e),
                (Ok(_), Ok(_), Err(e)) => Err(e),
                (Ok(a), Ok(b), Ok(c)) => Ok(ColorView::Slots(a, b, c)),
            }
        } else {
            Err(ErrView::UnknownKind { of: KindOf::Color, found: k })
        },
    }
}

fn parse_color(value: &JsonValue) -> (r: Result<CellColorValue, SchemaError>)
    ensures
        result_view(r) == color_spec(*value),
{
    let kind = match require_str(value, "kind") { Ok(k) => k, Err(e) => { return Err(e); } };
    if str_eq(kind, "flat") {
        match parse_flat(value) { Ok(c) => Ok(CellColorValue::Flat(c)), Err(e) => Err(e) }
    } else if str_eq(kind, "material") {
        match require_asset_file(value, "asset_file") {
            Ok(a) => Ok(CellColorValue::Material { asset_file: a }),
            Err(e) => Err(e),
        }
    } else if str_eq(kind, "slots") {
        let a = match parse_named_slot(value, "a") { Ok(s) => s, Err(e) => { return Err(e); } };
        let b = match parse_named_slot(value, "b") { Ok(s) => s, Err(e) => { return Err(e); } };
        let c = match parse_named_slot(value, "c") { Ok(s) => s, Err(e) => { return Err(e); } };
        Ok(CellColorValue::Slots { a, b, c })
    } else {
        Err(SchemaError::UnknownKind { of: KindOf::Color, found: owned(kind) })
    }
}

/// A graphic tagged `glyph` (one character) or `sprite` (an asset file).
pub open spec fn graphic_spec(v: JsonValue) -> Result<GraphicView, ErrView> {
    match str_spec(v, "kind"@) {
        Err(e) => Err(e),
        Ok(k) => if k == "glyph"@ {
            match char_spec(v, "glyph"@) { Err(e) => Err(e), Ok(c) => Ok(GraphicView::Glyph(c)) }
        } else if k == "sprite"@ {
            match asset_spec(v, "asset_file"@) { Err(e) => Err(e), Ok(a) => Ok(GraphicView::Sprite(a)) }
        } else {
            Err(ErrView::UnknownKind { of: KindOf::Graphic, found: k })
        },
    }
}

pub fn parse_graphic(value: &JsonValue) -> (r: Result<CellGraphicValue, SchemaError>)
    ensures
        result_view(r) == graphic_spec(*value),
{
    let kind = match require_str(value, "kind") { Ok(k) => k, Err(e) => { return Err(e); } };
    if str_eq(kind, "glyph") {
        match require_char(value, "glyph") { Ok(c) => Ok(CellGraphicValue::Glyph(c)), Err(e) => Err(e) }
    } else if str_eq(kind, "sprite") {
        match require_asset_file(value, "asset_file") {
            Ok(a) => Ok(CellGraphicValue::Sprite { asset_file: a }),
            Err(e) => Err(e),
        }
    } else {
        Err(SchemaError::UnknownKind { of: KindOf::Graphic, found: owned(kind) })
    }
}

/// One shader of a shader stack: a string naming an acceptable asset file.
pub open spec fn shader_item() -> spec_fn(JsonValue, int) -> Result<Seq<char>, ErrView> {
    |v: JsonValue, i: int| match v {
        JsonValue::String(s) => if asset_file_ok(s@) { Ok(s@) } else {
            Err(ErrView::BadAssetFile { field: "shader_stack["@ + decimal(i as nat) + "]"@ })
        },
        _ => Err(ErrView::ShaderNotString { index: i as usize }),
    }
}

/// The ordered shader stack of an appearance.
pub open spec fn shader_stack_spec(v: JsonValue) -> Result<Seq<Seq<char>>, ErrView> {
    match array_spec(v, "shader_stack"@) {
        Err(e) => Err(e),
        Ok(items) => fold_items(items, shader_item()),
    }
}

fn parse_shader(item: &JsonValue, index: usize) -> (r: Result<String, SchemaError>)
    ensures
        match r {
            Ok(s) => shader_item()(*item, index as int) == Ok::<Seq<char>, ErrView>(s@),
            Err(e) => shader_item()(*item, index as int) == Err::<Seq<char>, ErrView>(e@),
        },
{
    match item {
        JsonValue::String(s) => {
            let mut described = owned("shader_stack[");
            push_decimal(&mut described, index as u64);
            push_str(&mut described, "]");
            match validate_asset_file(s.as_str(), described.as_str()) {
                Ok(()) => Ok(s.clone()),
                Err(e) => Err(e),
            }
        },
        _ => Err(SchemaError::ShaderNotString { index }),
    }
}

fn parse_shader_stack(value: &JsonValue) -> (r: Result<Vec<String>, SchemaError>)
    ensures
        match r {
            Ok(v) => shader_stack_spec(*value) == Ok::<Seq<Seq<char>>, ErrView>(texts(v@)),
            Err(e) => shader_stack_spec(*value) == Err::<Seq<Seq<char>>, ErrView>(e@),
        },
{
    let items = match require_array(value, "shader_stack") { Ok(items) => items, Err(e) => { return Err(e); } };
    let ghost all = array_spec(*value, "shader_stack"@)->Ok_0;
    let mut out: Vec<String> = Vec::new();
    let mut i: usize = 0;
    proof {
        assert(all.take(0) =~= Seq::<JsonValue>::empty());
        assert(texts(out@) =~= Seq::<Seq<char>>::empty());
    }
    while i < items.len()
        invariant
            array_spec(*value, "shader_stack"@) == Ok::<Seq<JsonValue>, ErrView>(all),
            all.len() == items@.len(),
            forall|k: int| 0 <= k < all.len() ==> *#[trigger] items@[k] == all[k],
            i <= all.len(),
            fold_items(all.take(i as int), shader_item()) == Ok::<Seq<Seq<char>>, ErrView>(texts(out@)),
        decreases all.len() - i,
    {
        proof {
            lemma_fold_step(all, shader_item(), i as int);
        }
        match parse_shader(items[i], i) {
            Ok(s) => {
                let ghost pre = out@;
                out.push(s);
                proof {
                    assert(texts(out@) =~= texts(pre).push(s@));
                }
            },
            Err(e) => {
                proof {
                    assert(*items@[i as int] == all[i as int]);
                    assert(shader_item()(all[i as int], i as int) == Err::<Seq<char>, ErrView>(e@));
                    assert(fold_items(all.take(i + 1), shader_item()) == Err::<Seq<Seq<char>>, ErrView>(e@));
                    lemma_fold_err(all, shader_item(), i + 1);
                    assert(shader_stack_spec(*value) == fold_items(all, shader_item()));
                }
                return Err(e);
            },
        }
        i = i + 1;
    }
    proof {
        assert(all.take(i as int) =~= all);
    }
    Ok(out)
}


/// A nested value: the field, then its own reading, whose failures are
/// named by `context`.
pub open spec fn nested<T>(v: JsonValue, name: Seq<char>, context: Seq<char>, f: spec_fn(JsonValue) -> Result<T, ErrView>) -> Result<T, ErrView> {
    match field_spec(v, name) {
        Err(e) => Err(e),
        Ok(x) => match f(x) {
            Err(e) => Err(invalid(context, e)),
            Ok(t) => Ok(t),
        },
    }
}

/// A cell appearance: graphic, color, weight index, shader stack.
pub open spec fn appearance_spec(v: JsonValue) -> Result<AppearanceView, ErrView> {
    match nested(v, "graphic"@, "invalid cell graphic"@, |x: JsonValue| graphic_spec(x)) {
        Err(e) => Err(e),
        Ok(graphic) => match nested(v, "color"@, "invalid cell color"@, |x: JsonValue| color_spec(x)) {
            Err(e) => Err(e),
            Ok(color) => match (i64_spec(v, "weight_index"@), shader_stack_spec(v)) {
                (Err(e), _) => Err(e),
                (Ok(_), Err(e)) => Err(e),
                (Ok(weight_index), Ok(shader_stack)) => Ok(AppearanceView { graphic, color, weight_index, shader_stack }),
            },
        },
    }
}

fn parse_cell_appearance(value: &JsonValue) -> (r: Result<CellAppearance, SchemaError>)
    ensures
        result_view(r) == appearance_spec(*value),
{
    let g = match require_field(value, "graphic") { Ok(x) => x, Err(e) => { return Err(e); } };
    let graphic = match parse_graphic(g) { Ok(x) => x, Err(e) => { return Err(wrap("invalid cell graphic", e)); } };
    let c = match require_field(value, "color") { Ok(x) => x, Err(e) => { return Err(e); } };
    let color = match parse_color(c) { Ok(x) => x, Err(e) => { return Err(wrap("invalid cell color", e)); } };
    let weight_index = match require_i64(value, "weight_index") { Ok(x) => x, Err(e) => { return Err(e); } };
    let shader_stack = match parse_shader_stack(value) { Ok(x) => x, Err(e) => { return Err(e); } };
    Ok(CellAppearance { graphic, color, weight_index, shader_stack })
}

/// A breath window: start and the window's two ends.
pub open spec fn breath_window_spec(v: JsonValue) -> Result<BreathWindow, ErrView> {
    match (u32_spec(v, "start_breath"@), u32_spec(v, "window_start_breath"@), u32_spec(v, "window_end_breath"@)) {
        (Err(e), _, _) => Err(e),
        (Ok(_), Err(e), _) => Err(e),
        (Ok(_), Ok(_), Err(e)) => Err(e),
        (Ok(start_breath), Ok(window_start_breath), Ok(window_end_breath)) =>
            Ok(BreathWindow { start_breath, window_start_breath, window_end_breath }),
    }
}

pub fn parse_breath_window(value: &JsonValue) -> (r: Result<BreathWindow, SchemaError>)
    ensures
        result_view(r) == breath_window_spec(*value),
{
    let start_breath = match require_u32(value, "start_breath") { Ok(x) => x, Err(e) => { return Err(e); } };
    let window_start_breath = match require_u32(value, "window_start_breath") { Ok(x) => x, Err(e) => { return Err(e); } };
    let window_end_breath = match require_u32(value, "window_end_breath") { Ok(x) => x, Err(e) => { return Err(e); } };
    Ok(BreathWindow { start_breath, window_start_breath, window_end_breath })
}

/// A voxel: its position (`x`, `y`, `z`) and its appearance.
pub open spec fn voxel_spec(v: JsonValue) -> Result<VoxelView, ErrView> {
    match grid_point_spec(v) {
        Err(e) => Err(e),
        Ok(position) => match nested(v, "appearance"@, "invalid voxel appearance"@, |x: JsonValue| appearance_spec(x)) {
            Err(e) => Err(e),
            Ok(appearance) => Ok(VoxelView { position, appearance }),
        },
    }
}

fn parse_voxel(value: &JsonValue) -> (r: Result<Voxel, SchemaError>)
    ensures
        result_view(r) == voxel_spec(*value),
{
    let position = match parse_grid_point(value) { Ok(x) => x, Err(e) => { return Err(e); } };
    let a = match require_field(value, "appearance") { Ok(x) => x, Err(e) => { return Err(e); } };
    let appearance = match parse_cell_appearance(a) { Ok(x) => x, Err(e) => { return Err(wrap("invalid voxel appearance", e)); } };
    Ok(Voxel { position, appearance })
}

/// One voxel of a segment's voxel array.
pub open spec fn voxel_item() -> spec_fn(JsonValue, int) -> Result<VoxelView, ErrView> {
    |v: JsonValue, i: int| voxel_spec(v)
}

/// A raster segment: its voxels first (failures named `invalid raster
/// segment voxel`), then id, start and end.
pub open spec fn segment_spec(v: JsonValue) -> Result<SegmentView, ErrView> {
    match array_spec(v, "voxels"@) {
        Err(e) => Err(e),
        Ok(items) => match fold_items(items, voxel_item()) {
            Err(e) => Err(invalid("invalid raster segment voxel"@, e)),
            Ok(voxels) => match (str_spec(v, "id"@), u32_spec(v, "start_breath"@), u32_spec(v, "end_breath"@)) {
                (Err(e), _, _) => Err(e),
                (Ok(_), Err(e), _) => Err(e),
                (Ok(_), Ok(_), Err(e)) => Err(e),
                (Ok(id), Ok(start_breath), Ok(end_breath)) => Ok(SegmentView { id, start_breath, end_breath, voxels }),
            },
        },
    }
}

fn parse_voxels(value: &JsonValue) -> (r: Result<Vec<Voxel>, SchemaError>)
    ensures
        match r {
            Ok(vs) => array_spec(*value, "voxels"@) matches Ok(items)
                && fold_items(items, voxel_item()) == Ok::<Seq<VoxelView>, ErrView>(vs@.map_values(|x: Voxel| x@)),
            Err(e) => match array_spec(*value, "voxels"@) {
                Err(e0) => e@ == e0,
                Ok(items) => fold_items(items, voxel_item()) == Err::<Seq<VoxelView>, ErrView>(e@),
            },
        },
{
    let items = match require_array(value, "voxels") { Ok(items) => items, Err(e) => { return Err(e); } };
    let ghost all = array_spec(*value, "voxels"@)->Ok_0;
    let mut out: Vec<Voxel> = Vec::new();
    let mut i: usize = 0;
    proof {
        assert(all.take(0) =~= Seq::<JsonValue>::empty());
        assert(out@.map_values(|x: Voxel| x@) =~= Seq::<VoxelView>::empty());
    }
    while i < items.len()
        invariant
            array_spec(*value, "voxels"@) == Ok::<Seq<JsonValue>, ErrView>(all),
            all.len() == items@.len(),
            forall|k: int| 0 <= k < all.len() ==> *#[trigger] items@[k] == all[k],
            i <= all.len(),
            fold_items(all.take(i as int), voxel_item()) == Ok::<Seq<VoxelView>, ErrView>(out@.map_values(|x: Voxel| x@)),
        decreases all.len() - i,
    {
        proof {
            lemma_fold_step(all, voxel_item(), i as int);
            assert(*items@[i as int] == all[i as int]);
        }
        match parse_voxel(items[i]) {
            Ok(x) => {
                let ghost pre = out@;
                out.push(x);
                proof {
                    assert(out@.map_values(|x: Voxel| x@) =~= pre.map_values(|x: Voxel| x@).push(x@));
                }
            },
            Err(e) => {
                proof {
                    assert(fold_items(all.take(i + 1), voxel_item()) == Err::<Seq<VoxelView>, ErrView>(e@));
                    lemma_fold_err(all, voxel_item(), i + 1);
                }
                return Err(e);
            },
        }
        i = i + 1;
    }
    proof {
        assert(all.take(i as int) =~= all);
    }
    Ok(out)
}

pub fn parse_raster_segment(value: &JsonValue) -> (r: Result<RasterSegment, SchemaError>)
    ensures
        result_view(r) == segment_spec(*value),
{
    let voxels = match parse_voxels(value) {
        Ok(vs) => vs,
        Err(e) => {
            return match value.get("voxels") {
                Some(JsonValue::Array(_)) => Err(wrap("invalid raster segment voxel", e)),
                _ => Err(e),
            };
        },
    };
    let id = match require_string(value, "id") { Ok(x) => x, Err(e) => { return Err(e); } };
    let start_breath = match require_u32(value, "start_breath") { Ok(x) => x, Err(e) => { return Err(e); } };
    let end_breath = match require_u32(value, "end_breath") { Ok(x) => x, Err(e) => { return Err(e); } };
    Ok(RasterSegment { id, start_breath, end_breath, voxels })
}

/// Document bounds: the minimum corner and the three extents.
pub open spec fn bounds_spec(v: JsonValue) -> Result<DocumentBounds, ErrView> {
    match (i64_spec(v, "min_x"@), i64_spec(v, "min_y"@), i64_spec(v, "min_z"@)) {
        (Err(e), _, _) => Err(e),
        (Ok(_), Err(e), _) => Err(e),
        (Ok(_), Ok(_), Err(e)) => Err(e),
        (Ok(x), Ok(y), Ok(z)) => match (i64_spec(v, "width"@), i64_spec(v, "height"@), i64_spec(v, "depth"@)) {
            (Err(e), _, _) => Err(e),
            (Ok(_), Err(e), _) => Err(e),
            (Ok(_), Ok(_), Err(e)) => Err(e),
            (Ok(width), Ok(height), Ok(depth)) => Ok(DocumentBounds { min: GridPoint { x, y, z }, width, height, depth }),
        },
    }
}

pub fn parse_document_bounds(value: &JsonValue) -> (r: Result<DocumentBounds, SchemaError>)
    ensures
        result_view(r) == bounds_spec(*value),
{
    let x = match require_i64(value, "min_x") { Ok(x) => x, Err(e) => { return Err(e); } };
    let y = match require_i64(value, "min_y") { Ok(x) => x, Err(e) => { return Err(e); } };
    let z = match require_i64(value, "min_z") { Ok(x) => x, Err(e) => { return Err(e); } };
    let width = match require_i64(value, "width") { Ok(x) => x, Err(e) => { return Err(e); } };
    let height = match require_i64(value, "height") { Ok(x) => x, Err(e) => { return Err(e); } };
    let depth = match require_i64(value, "depth") { Ok(x) => x, Err(e) => { return Err(e); } };
    Ok(DocumentBounds { min: GridPoint { x, y, z }, width, height, depth })
}

/// The playback window: frames per breath, looping, and the window's ends.
pub open spec fn playback_spec(v: JsonValue) -> Result<PlaybackWindow, ErrView> {
    match (u32_spec(v, "frames_per_breath"@), bool_spec(v, "loop_enabled"@)) {
        (Err(e), _) => Err(e),
        (Ok(_), Err(e)) => Err(e),
        (Ok(frames_per_breath), Ok(loop_enabled)) =>
            match (u32_spec(v, "document_window_start_breath"@), u32_spec(v, "document_window_end_breath"@)) {
                (Err(e), _) => Err(e),
                (Ok(_), Err(e)) => Err(e),
                (Ok(s), Ok(t)) => Ok(PlaybackWindow {
                    frames_per_breath,
                    loop_enabled,
                    document_window_start_breath: s,
                    document_window_end_breath: t,
                }),
            },
    }
}

pub fn parse_playback_window(value: &JsonValue) -> (r: Result<PlaybackWindow, SchemaError>)
    ensures
        result_view(r) == playback_spec(*value),
{
    let frames_per_breath = match require_u32(value, "frames_per_breath") { Ok(x) => x, Err(e) => { return Err(e); } };
    let loop_enabled = match require_bool(value, "loop_enabled") { Ok(x) => x, Err(e) => { return Err(e); } };
    let s = match require_u32(value, "document_window_start_breath") { Ok(x) => x, Err(e) => { return Err(e); } };
    let t = match require_u32(value, "document_window_end_breath") { Ok(x) => x, Err(e) => { return Err(e); } };
    Ok(PlaybackWindow { frames_per_breath, loop_enabled, document_window_start_breath: s, document_window_end_breath: t })
}


/// A flat export; only the `preserve` interpolation is accepted, and it is
/// read before the other fields.
pub open spec fn flat_export_spec(v: JsonValue) -> Result<FlatExportView, ErrView> {
    match str_spec(v, "interpolation"@) {
        Err(e) => Err(e),
        Ok(interpolation) => if interpolation != "preserve"@ {
            Err(ErrView::BadInterpolation { found: interpolation })
        } else {
            match (asset_spec(v, "file_name"@), str_spec(v, "name"@), str_spec(v, "facing"@)) {
                (Err(e), _, _) => Err(e),
                (Ok(_), Err(e), _) => Err(e),
                (Ok(_), Ok(_), Err(e)) => Err(e),
                (Ok(file_name), Ok(name), Ok(facing)) => Ok(FlatExportView { file_name, name, facing, interpolation }),
            }
        },
    }
}

pub fn parse_flat_export(value: &JsonValue) -> (r: Result<FlatExport, SchemaError>)
    ensures
        result_view(r) == flat_export_spec(*value),
{
    let interpolation = match require_str(value, "interpolation") { Ok(x) => x, Err(e) => { return Err(e); } };
    if !str_eq(interpolation, "preserve") {
        return Err(SchemaError::BadInterpolation { found: owned(interpolation) });
    }
    let file_name = match require_asset_file(value, "file_name") { Ok(x) => x, Err(e) => { return Err(e); } };
    let name = match require_string(value, "name") { Ok(x) => x, Err(e) => { return Err(e); } };
    let facing = match require_string(value, "facing") { Ok(x) => x, Err(e) => { return Err(e); } };
    Ok(FlatExport { file_name, name, facing, interpolation: owned(interpolation) })
}

/// The export sections: `flat` is null or a flat export (failures named
/// `invalid flat export`).
pub open spec fn export_sections_spec(v: JsonValue) -> Result<Option<FlatExportView>, ErrView> {
    match field_spec(v, "flat"@) {
        Err(e) => Err(e),
        Ok(JsonValue::Null) => Ok(None),
        Ok(flat) => match flat_export_spec(flat) {
            Err(e) => Err(invalid("invalid flat export"@, e)),
            Ok(f) => Ok(Some(f)),
        },
    }
}

pub fn parse_export_sections(value: &JsonValue) -> (r: Result<ExportSections, SchemaError>)
    ensures
        result_view(r) == export_sections_spec(*value),
{
    let flat = match require_field(value, "flat") { Ok(x) => x, Err(e) => { return Err(e); } };
    match flat {
        JsonValue::Null => Ok(ExportSections { flat: None }),
        _ => match parse_flat_export(flat) {
            Ok(f) => Ok(ExportSections { flat: Some(f) }),
            Err(e) => Err(wrap("invalid flat export", e)),
        },
    }
}

/// A particle's visual: its character, display color and indices.
pub open spec fn visual_spec(v: JsonValue) -> Result<VisualView, ErrView> {
    match (char_spec(v, "char"@), str_spec(v, "display_color"@)) {
        (Err(e), _) => Err(e),
        (Ok(_), Err(e)) => Err(e),
        (Ok(glyph), Ok(display_color)) => match (i64_spec(v, "render_index"@), i64_spec(v, "weight_index"@)) {
            (Err(e), _) => Err(e),
            (Ok(_), Err(e)) => Err(e),
            (Ok(render_index), Ok(weight_index)) => Ok(VisualView { glyph, display_color, render_index, weight_index }),
        },
    }
}

fn parse_particle_effect_visual(value: &JsonValue) -> (r: Result<ParticleEffectVisual, SchemaError>)
    ensures
        result_view(r) == visual_spec(*value),
{
    let glyph = match require_char(value, "char") { Ok(x) => x, Err(e) => { return Err(e); } };
    let display_color = match require_string(value, "display_color") { Ok(x) => x, Err(e) => { return Err(e); } };
    let render_index = match require_i64(value, "render_index") { Ok(x) => x, Err(e) => { return Err(e); } };
    let weight_index = match require_i64(value, "weight_index") { Ok(x) => x, Err(e) => { return Err(e); } };
    Ok(ParticleEffectVisual { char: glyph, display_color, render_index, weight_index })
}

/// The text fields of a particle effect: id, kind, name.
pub open spec fn effect_names_spec(v: JsonValue) -> Result<(Seq<char>, Seq<char>, Seq<char>), ErrView> {
    match (str_spec(v, "id"@), str_spec(v, "kind"@), str_spec(v, "name"@)) {
        (Err(e), _, _) => Err(e),
        (Ok(_), Err(e), _) => Err(e),
        (Ok(_), Ok(_), Err(e)) => Err(e),
        (Ok(id), Ok(kind), Ok(name)) => Ok((id, kind, name)),
    }
}

/// The breath fields of a particle effect, in file order.
pub open spec fn effect_breaths_spec(v: JsonValue) -> Result<(u32, u32, u32, u32), ErrView> {
    match (u32_spec(v, "spawn_breath"@), u32_spec(v, "window_start"@), u32_spec(v, "window_end"@), u32_spec(v, "processed_breaths"@)) {
        (Err(e), _, _, _) => Err(e),
        (Ok(_), Err(e), _, _) => Err(e),
        (Ok(_), Ok(_), Err(e), _) => Err(e),
        (Ok(_), Ok(_), Ok(_), Err(e)) => Err(e),
        (Ok(a), Ok(b), Ok(c), Ok(d)) => Ok((a, b, c, d)),
    }
}

/// A particle effect: names, breaths, flags, then its visual.
pub open spec fn effect_spec(v: JsonValue) -> Result<EffectView, ErrView> {
    match effect_names_spec(v) {
        Err(e) => Err(e),
        Ok((id, kind, name)) => match effect_breaths_spec(v) {
            Err(e) => Err(e),
            Ok((spawn_breath, window_start, window_end, processed_breaths)) =>
                match (bool_spec(v, "is_complete"@), bool_spec(v, "is_deleted"@)) {
                    (Err(e), _) => Err(e),
                    (Ok(_), Err(e)) => Err(e),
                    (Ok(is_complete), Ok(is_deleted)) => match field_spec(v, "visual"@) {
                        Err(e) => Err(e),
                        Ok(x) => match visual_spec(x) {
                            Err(e) => Err(e),
                            Ok(visual) => Ok(EffectView {
                                id, kind, name, spawn_breath, window_start, window_end, processed_breaths, is_complete, is_deleted, visual,
                            }),
                        },
                    },
                },
        },
    }
}

/// A particle effect that parses takes each of its fields from the JSON
/// field of the same name: the breath fields are those fields read as
/// `u32` (so `window_start` is the number under `"window_start"` and
/// `window_end` the one under `"window_end"`), the names and flags are read
/// as text and booleans, and the visual is the `"visual"` object parsed.
/// An effect parses exactly when every one of these reads succeeds.
pub proof fn law_effect_fields_come_from_their_names(v: JsonValue)
    ensures
        effect_spec(v) is Ok <==> {
            &&& str_spec(v, "id"@) is Ok
            &&& str_spec(v, "kind"@) is Ok
            &&& str_spec(v, "name"@) is Ok
            &&& u32_spec(v, "spawn_breath"@) is Ok
            &&& u32_spec(v, "window_start"@) is Ok
            &&& u32_spec(v, "window_end"@) is Ok
            &&& u32_spec(v, "processed_breaths"@) is Ok
            &&& bool_spec(v, "is_complete"@) is Ok
            &&& bool_spec(v, "is_deleted"@) is Ok
            &&& field_spec(v, "visual"@) is Ok
            &&& visual_spec(field_spec(v, "visual"@)->Ok_0) is Ok
        },
        effect_spec(v) matches Ok(e) ==> {
            &&& e.id == str_spec(v, "id"@)->Ok_0
            &&& e.kind == str_spec(v, "kind"@)->Ok_0
            &&& e.name == str_spec(v, "name"@)->Ok_0
            &&& e.spawn_breath == u32_spec(v, "spawn_breath"@)->Ok_0
            &&& e.window_start == u32_spec(v, "window_start"@)->Ok_0
            &&& e.window_end == u32_spec(v, "window_end"@)->Ok_0
            &&& e.processed_breaths == u32_spec(v, "processed_breaths"@)->Ok_0
            &&& e.is_complete == bool_spec(v, "is_complete"@)->Ok_0
            &&& e.is_deleted == bool_spec(v, "is_deleted"@)->Ok_0
            &&& e.visual == visual_spec(field_spec(v, "visual"@)->Ok_0)->Ok_0
        },
        effect_spec(v) matches Ok(e) ==> {
            &&& (get_spec(v, "window_start"@) matches Some(JsonValue::Number(JsonNumber::PosInt(n))) ==> e.window_start == n)
            &&& (get_spec(v, "window_end"@) matches Some(JsonValue::Number(JsonNumber::PosInt(n))) ==> e.window_end == n)
            &&& (get_spec(v, "spawn_breath"@) matches Some(JsonValue::Number(JsonNumber::PosInt(n))) ==> e.spawn_breath == n)
            &&& (get_spec(v, "processed_breaths"@) matches Some(JsonValue::Number(JsonNumber::PosInt(n))) ==> e.processed_breaths == n)
        },
{
}

fn parse_particle_effect(value: &JsonValue) -> (r: Result<ParticleEffect, SchemaError>)
    ensures
        result_view(r) == effect_spec(*value),
{
    let id = match require_string(value, "id") { Ok(x) => x, Err(e) => { return Err(e); } };
    let kind = match require_string(value, "kind") { Ok(x) => x, Err(e) => { return Err(e); } };
    let name = match require_string(value, "name") { Ok(x) => x, Err(e) => { return Err(e); } };
    let spawn_breath = match require_u32(value, "spawn_breath") { Ok(x) => x, Err(e) => { return Err(e); } };
    let window_start = match require_u32(value, "window_start") { Ok(x) => x, Err(e) => { return Err(e); } };
    let window_end = match require_u32(value, "window_end") { Ok(x) => x, Err(e) => { return Err(e); } };
    let processed_breaths = match require_u32(value, "processed_breaths") { Ok(x) => x, Err(e) => { return Err(e); } };
    let is_complete = match require_bool(value, "is_complete") { Ok(x) => x, Err(e) => { return Err(e); } };
    let is_deleted = match require_bool(value, "is_deleted") { Ok(x) => x, Err(e) => { return Err(e); } };
    let x = match require_field(value, "visual") { Ok(x) => x, Err(e) => { return Err(e); } };
    let visual = match parse_particle_effect_visual(x) { Ok(x) => x, Err(e) => { return Err(e); } };
    Ok(ParticleEffect { id, kind, name, spawn_breath, window_start, window_end, processed_breaths, is_complete, is_deleted, visual })
}

/// One effect of the particle effect array.
pub open spec fn effect_item() -> spec_fn(JsonValue, int) -> Result<EffectView, ErrView> {
    |v: JsonValue, i: int| effect_spec(v)
}

/// The time assets: the particle effects (failures named `invalid time
/// asset particle effect`).
pub open spec fn time_assets_spec(v: JsonValue) -> Result<Seq<EffectView>, ErrView> {
    match array_spec(v, "particle_effects"@) {
        Err(e) => Err(e),
        Ok(items) => match fold_items(items, effect_item()) {
            Err(e) => Err(invalid("invalid time asset particle effect"@, e)),
            Ok(effects) => Ok(effects),
        },
    }
}

pub fn parse_time_assets(value: &JsonValue) -> (r: Result<TimeAssets, SchemaError>)
    ensures
        result_view(r) == time_assets_spec(*value),
{
    let items = match require_array(value, "particle_effects") { Ok(items) => items, Err(e) => { return Err(e); } };
    let ghost all = array_spec(*value, "particle_effects"@)->Ok_0;
    let mut out: Vec<ParticleEffect> = Vec::new();
    let mut i: usize = 0;
    proof {
        assert(all.take(0) =~= Seq::<JsonValue>::empty());
        assert(out@.map_values(|x: ParticleEffect| x@) =~= Seq::<EffectView>::empty());
    }
    while i < items.len()
        invariant
            array_spec(*value, "particle_effects"@) == Ok::<Seq<JsonValue>, ErrView>(all),
            all.len() == items@.len(),
            forall|k: int| 0 <= k < all.len() ==> *#[trigger] items@[k] == all[k],
            i <= all.len(),
            fold_items(all.take(i as int), effect_item()) == Ok::<Seq<EffectView>, ErrView>(out@.map_values(|x: ParticleEffect| x@)),
        decreases all.len() - i,
    {
        proof {
            lemma_fold_step(all, effect_item(), i as int);
            assert(*items@[i as int] == all[i as int]);
        }
        match parse_particle_effect(items[i]) {
            Ok(x) => {
                let ghost pre = out@;
                out.push(x);
                proof {
                    assert(out@.map_values(|x: ParticleEffect| x@) =~= pre.map_values(|x: ParticleEffect| x@).push(x@));
                }
            },
            Err(e) => {
                proof {
                    assert(fold_items(all.take(i + 1), effect_item()) == Err::<Seq<EffectView>, ErrView>(e@));
                    lemma_fold_err(all, effect_item(), i + 1);
                }
                return Err(wrap("invalid time asset particle effect", e));
            },
        }
        i = i + 1;
    }
    proof {
        assert(all.take(i as int) =~= all);
    }
    Ok(TimeAssets { particle_effects: out })
}

/// The last export: its profile and time.
pub open spec fn last_export_spec(v: JsonValue) -> Result<LastExportView, ErrView> {
    match (str_spec(v, "profile"@), str_spec(v, "exported_at"@)) {
        (Err(e), _) => Err(e),
        (Ok(_), Err(e)) => Err(e),
        (Ok(profile), Ok(exported_at)) => Ok(LastExportView { profile, exported_at }),
    }
}

pub fn parse_last_export(value: &JsonValue) -> (r: Result<LastExport, SchemaError>)
    ensures
        result_view(r) == last_export_spec(*value),
{
    let profile = match require_string(value, "profile") { Ok(x) => x, Err(e) => { return Err(e); } };
    let exported_at = match require_string(value, "exported_at") { Ok(x) => x, Err(e) => { return Err(e); } };
    Ok(LastExport { profile, exported_at })
}

/// One entry of a string array field.
pub open spec fn text_item(name: Seq<char>) -> spec_fn(JsonValue, int) -> Result<Seq<char>, ErrView> {
    |v: JsonValue, i: int| match v {
        JsonValue::String(s) => Ok(s@),
        _ => Err(ErrView::ItemNotString { field: name, index: i as usize }),
    }
}

/// A string array field.
pub open spec fn string_array_spec(v: JsonValue, name: Seq<char>) -> Result<Seq<Seq<char>>, ErrView> {
    match array_spec(v, name) {
        Err(e) => Err(e),
        Ok(items) => fold_items(items, text_item(name)),
    }
}

/// The named member, which must be an array of strings.
pub fn require_string_array(value: &JsonValue, name: &str) -> (r: Result<Vec<String>, SchemaError>)
    ensures
        match r {
            Ok(v) => string_array_spec(*value, name@) == Ok::<Seq<Seq<char>>, ErrView>(texts(v@)),
            Err(e) => string_array_spec(*value, name@) == Err::<Seq<Seq<char>>, ErrView>(e@),
        },
{
    let items = match require_array(value, name) { Ok(items) => items, Err(e) => { return Err(e); } };
    let ghost all = array_spec(*value, name@)->Ok_0;
    let mut out: Vec<String> = Vec::new();
    let mut i: usize = 0;
    proof {
        assert(all.take(0) =~= Seq::<JsonValue>::empty());
        assert(texts(out@) =~= Seq::<Seq<char>>::empty());
    }
    while i < items.len()
        invariant
            array_spec(*value, name@) == Ok::<Seq<JsonValue>, ErrView>(all),
            all.len() == items@.len(),
            forall|k: int| 0 <= k < all.len() ==> *#[trigger] items@[k] == all[k],
            i <= all.len(),
            fold_items(all.take(i as int), text_item(name@)) == Ok::<Seq<Seq<char>>, ErrView>(texts(out@)),
        decreases all.len() - i,
    {
        proof {
            lemma_fold_step(all, text_item(name@), i as int);
            assert(*items@[i as int] == all[i as int]);
        }
        match items[i] {
            JsonValue::String(s) => {
                let ghost pre = out@;
                out.push(s.clone());
                proof {
                    assert(texts(out@) =~= texts(pre).push(s@));
                }
            },
            _ => {
                let e = SchemaError::ItemNotString { field: owned(name), index: i };
                proof {
                    assert(fold_items(all.take(i + 1), text_item(name@)) == Err::<Seq<Seq<char>>, ErrView>(e@));
                    lemma_fold_err(all, text_item(name@), i + 1);
                }
                return Err(e);
            },
        }
        i = i + 1;
    }
    proof {
        assert(all.take(i as int) =~= all);
    }
    Ok(out)
}

/// The file's metadata: ids and texts, its tags, and its times.
pub open spec fn metadata_spec(v: JsonValue) -> Result<MetadataView, ErrView> {
    match (str_spec(v, "document_id"@), str_spec(v, "title"@), str_spec(v, "description"@), string_array_spec(v, "tags"@)) {
        (Err(e), _, _, _) => Err(e),
        (Ok(_), Err(e), _, _) => Err(e),
        (Ok(_), Ok(_), Err(e), _) => Err(e),
        (Ok(_), Ok(_), Ok(_), Err(e)) => Err(e),
        (Ok(document_id), Ok(title), Ok(description), Ok(tags)) =>
            match (str_spec(v, "created_at"@), str_spec(v, "modified_at"@), str_spec(v, "authoring_origin"@)) {
                (Err(e), _, _) => Err(e),
                (Ok(_), Err(e), _) => Err(e),
                (Ok(_), Ok(_), Err(e)) => Err(e),
                (Ok(created_at), Ok(modified_at), Ok(authoring_origin)) => Ok(MetadataView {
                    document_id, title, description, tags, created_at, modified_at, authoring_origin,
                }),
            },
    }
}

pub fn parse_metadata(value: &JsonValue) -> (r: Result<FileSchemaMetadata, SchemaError>)
    ensures
        result_view(r) == metadata_spec(*value),
{
    let document_id = match require_string(value, "document_id") { Ok(x) => x, Err(e) => { return Err(e); } };
    let title = match require_string(value, "title") { Ok(x) => x, Err(e) => { return Err(e); } };
    let description = match require_string(value, "description") { Ok(x) => x, Err(e) => { return Err(e); } };
    let tags = match require_string_array(value, "tags") { Ok(x) => x, Err(e) => { return Err(e); } };
    let created_at = match require_string(value, "created_at") { Ok(x) => x, Err(e) => { return Err(e); } };
    let modified_at = match require_string(value, "modified_at") { Ok(x) => x, Err(e) => { return Err(e); } };
    let authoring_origin = match require_string(value, "authoring_origin") { Ok(x) => x, Err(e) => { return Err(e); } };
    Ok(FileSchemaMetadata { document_id, title, description, tags, created_at, modified_at, authoring_origin })
}


/// The head of a saved painter file: its kind and version must be the ones
/// this library reads (kind first), then its metadata is read (failures
/// named `invalid metadata`).
pub open spec fn file_head_spec(v: JsonValue) -> Result<(u32, MetadataView), ErrView> {
    match str_spec(v, "kind"@) {
        Err(e) => Err(e),
        Ok(kind) => if kind != FILE_SCHEMA_KIND@ {
            Err(ErrView::WrongSchemaKind { found: kind })
        } else {
            match u32_spec(v, "version"@) {
                Err(e) => Err(e),
                Ok(version) => if version != FILE_SCHEMA_VERSION {
                    Err(ErrView::WrongSchemaVersion { found: version })
                } else {
                    match nested(v, "metadata"@, "invalid metadata"@, |x: JsonValue| metadata_spec(x)) {
                        Err(e) => Err(e),
                        Ok(m) => Ok((version, m)),
                    }
                },
            }
        },
    }
}

/// Reads the head of a saved painter file: kind, version and metadata.
pub fn parse_file_head(value: &JsonValue) -> (r: Result<(u32, FileSchemaMetadata), SchemaError>)
    ensures
        match r {
            Ok((version, m)) => file_head_spec(*value) == Ok::<(u32, MetadataView), ErrView>((version, m@)),
            Err(e) => file_head_spec(*value) == Err::<(u32, MetadataView), ErrView>(e@),
        },
{
    let kind = match require_str(value, "kind") { Ok(x) => x, Err(e) => { return Err(e); } };
    if !str_eq(kind, FILE_SCHEMA_KIND) {
        return Err(SchemaError::WrongSchemaKind { found: owned(kind) });
    }
    let version = match require_u32(value, "version") { Ok(x) => x, Err(e) => { return Err(e); } };
    if version != FILE_SCHEMA_VERSION {
        return Err(SchemaError::WrongSchemaVersion { found: version });
    }
    let x = match require_field(value, "metadata") { Ok(x) => x, Err(e) => { return Err(e); } };
    match parse_metadata(x) {
        Ok(m) => Ok((version, m)),
        Err(e) => Err(wrap("invalid metadata", e)),
    }
}

/// A property block: id, start and end, then its payload, whatever JSON
/// value it is.
pub open spec fn property_block_spec(v: JsonValue) -> Result<PropertyBlockView, ErrView> {
    match (str_spec(v, "id"@), u32_spec(v, "start_breath"@), u32_spec(v, "end_breath"@)) {
        (Err(e), _, _) => Err(e),
        (Ok(_), Err(e), _) => Err(e),
        (Ok(_), Ok(_), Err(e)) => Err(e),
        (Ok(id), Ok(start_breath), Ok(end_breath)) => match field_spec(v, "value"@) {
            Err(e) => Err(e),
            Ok(value) => Ok(PropertyBlockView { id, start_breath, end_breath, value }),
        },
    }
}

pub fn parse_property_block(value: &JsonValue) -> (r: Result<PropertyBlock, SchemaError>)
    ensures
        result_view(r) == property_block_spec(*value),
{
    let id = match require_string(value, "id") { Ok(x) => x, Err(e) => { return Err(e); } };
    let start_breath = match require_u32(value, "start_breath") { Ok(x) => x, Err(e) => { return Err(e); } };
    let end_breath = match require_u32(value, "end_breath") { Ok(x) => x, Err(e) => { return Err(e); } };
    let payload = match require_field(value, "value") { Ok(x) => x, Err(e) => { return Err(e); } };
    Ok(PropertyBlock { id, start_breath, end_breath, value: payload.copy() })
}

/// One block of a property's block array.
pub open spec fn block_item() -> spec_fn(JsonValue, int) -> Result<PropertyBlockView, ErrView> {
    |v: JsonValue, i: int| property_block_spec(v)
}

/// A group property: its blocks first (failures named `invalid property
/// block`), then id and kind.
pub open spec fn group_property_spec(v: JsonValue) -> Result<GroupPropertyView, ErrView> {
    match array_spec(v, "blocks"@) {
        Err(e) => Err(e),
        Ok(items) => match fold_items(items, block_item()) {
            Err(e) => Err(invalid("invalid property block"@, e)),
            Ok(blocks) => match (str_spec(v, "id"@), str_spec(v, "kind"@)) {
                (Err(e), _) => Err(e),
                (Ok(_), Err(e)) => Err(e),
                (Ok(id), Ok(kind)) => Ok(GroupPropertyView { id, kind, blocks }),
            },
        },
    }
}

pub fn parse_group_property(value: &JsonValue) -> (r: Result<GroupProperty, SchemaError>)
    ensures
        result_view(r) == group_property_spec(*value),
{
    let items = match require_array(value, "blocks") { Ok(items) => items, Err(e) => { return Err(e); } };
    let ghost all = array_spec(*value, "blocks"@)->Ok_0;
    let mut out: Vec<PropertyBlock> = Vec::new();
    let mut i: usize = 0;
    proof {
        assert(all.take(0) =~= Seq::<JsonValue>::empty());
        assert(out@.map_values(|x: PropertyBlock| x@) =~= Seq::<PropertyBlockView>::empty());
    }
    while i < items.len()
        invariant
            array_spec(*value, "blocks"@) == Ok::<Seq<JsonValue>, ErrView>(all),
            all.len() == items@.len(),
            forall|k: int| 0 <= k < all.len() ==> *#[trigger] items@[k] == all[k],
            i <= all.len(),
            fold_items(all.take(i as int), block_item()) == Ok::<Seq<PropertyBlockView>, ErrView>(out@.map_values(|x: PropertyBlock| x@)),
        decreases all.len() - i,
    {
        proof {
            lemma_fold_step(all, block_item(), i as int);
            assert(*items@[i as int] == all[i as int]);
        }
        match parse_property_block(items[i]) {
            Ok(x) => {
                let ghost pre = out@;
                out.push(x);
                proof {
                    assert(out@.map_values(|x: PropertyBlock| x@) =~= pre.map_values(|x: PropertyBlock| x@).push(x@));
                }
            },
            Err(e) => {
                proof {
                    assert(fold_items(all.take(i + 1), block_item()) == Err::<Seq<PropertyBlockView>, ErrView>(e@));
                    lemma_fold_err(all, block_item(), i + 1);
                }
                return Err(wrap("invalid property block", e));
            },
        }
        i = i + 1;
    }
    proof {
        assert(all.take(i as int) =~= all);
    }
    let id = match require_string(value, "id") { Ok(x) => x, Err(e) => { return Err(e); } };
    let kind = match require_string(value, "kind") { Ok(x) => x, Err(e) => { return Err(e); } };
    Ok(GroupProperty { id, kind, blocks: out })
}

/// The import and export bookkeeping: `source_import` is kept as the JSON
/// value it is unless null; `last_export` is null or a last export (failures
/// named `invalid last_export`).
pub open spec fn bookkeeping_spec(v: JsonValue) -> Result<BookkeepingView, ErrView> {
    match field_spec(v, "source_import"@) {
        Err(e) => Err(e),
        Ok(source) => {
            let source_import = match source {
                JsonValue::Null => None,
                other => Some(other),
            };
            match field_spec(v, "last_export"@) {
                Err(e) => Err(e),
                Ok(JsonValue::Null) => Ok(BookkeepingView { source_import, last_export: None }),
                Ok(last) => match last_export_spec(last) {
                    Err(e) => Err(invalid("invalid last_export"@, e)),
                    Ok(l) => Ok(BookkeepingView { source_import, last_export: Some(l) }),
                },
            }
        },
    }
}

pub fn parse_import_export_bookkeeping(value: &JsonValue) -> (r: Result<ImportExportBookkeeping, SchemaError>)
    ensures
        result_view(r) == bookkeeping_spec(*value),
{
    let source = match require_field(value, "source_import") { Ok(x) => x, Err(e) => { return Err(e); } };
    let source_import = match source {
        JsonValue::Null => None,
        other => Some(other.copy()),
    };
    let last = match require_field(value, "last_export") { Ok(x) => x, Err(e) => { return Err(e); } };
    match last {
        JsonValue::Null => Ok(ImportExportBookkeeping { source_import, last_export: None }),
        _ => match parse_last_export(last) {
            Ok(l) => Ok(ImportExportBookkeeping { source_import, last_export: Some(l) }),
            Err(e) => Err(wrap("invalid last_export", e)),
        },
    }
}

} // verus!
