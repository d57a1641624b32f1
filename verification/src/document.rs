//! The shared document file: layers with their property tracks, the
//! document-owned selection, the loop window, where the files live, and the
//! load-time schema guard.

use vstd::prelude::*;
use crate::json::{JsonValue, get_spec, as_str_spec, as_u64_spec, as_str, as_u64};
use crate::track::{SharedDocumentPropertyBlock, SharedDocumentPropertyTrack, is_binary_tiling, min1, plain_blank, new_blank, block_reach};
use crate::runtime::reach_ok;
use crate::interp_mode::{InterpMode, lemma_mode_name_round_trip};
use crate::selection::{SharedDocumentSelection, DEFAULT_SELECTION_CHANNEL_ID};
use crate::text::{push_str, push_decimal, decimal, str_eq, owned};

verus! {

/// The file kind a shared document declares.
pub const SHARED_DOCUMENT_KIND: &'static str = "thaum-painter-shared-document";

/// The schema version this library reads and writes.
pub const SHARED_DOCUMENT_SCHEMA_VERSION: u32 = 2;

/// How many recent edit records stay individually undoable before older ones
/// are squashed into the baseline on the next save.
pub const UNDO_HISTORY_DEPTH: usize = 20;

/// The first layer every new document starts with.
pub const INITIAL_LAYER_ID: &'static str = "layer-1";
pub const INITIAL_LAYER_NAME: &'static str = "Layer 1";

/// A layer's timing length when a file gives none.
pub const DEFAULT_LAYER_LENGTH_BREATHS: u32 = 24;

/// The document's active timeline span (the loop window).
#[derive(Debug, Clone, Copy, PartialEq, Eq, Structural)]
pub struct DocumentWindow {
    pub start_breath: u32,
    pub end_breath: u32,
}

impl Default for DocumentWindow {
    /// The panel's visible timeline span: breaths 0 through 23.
    fn default() -> (w: DocumentWindow)
        ensures
            w == (DocumentWindow { start_breath: 0, end_breath: 23 }),
    {
        DocumentWindow { start_breath: 0, end_breath: 23 }
    }
}

/// One layer of the document.
#[derive(Debug, PartialEq, Eq)]
pub struct SharedDocumentLayer {
    pub layer_id: String,
    pub name: String,
    pub visible: bool,
    pub locked: bool,
    /// The breath the layer's own timeline bar starts at.
    pub start_breath: u32,
    pub length_breaths: u32,
    pub property_tracks: Vec<SharedDocumentPropertyTrack>,
}

/// The shared document file.
#[derive(Debug, PartialEq, Eq)]
pub struct SharedDocumentFile {
    pub file_kind: String,
    pub schema_version: u32,
    pub document_id: String,
    /// Monotonic save counter.
    pub revision: u64,
    pub title: String,
    pub layers: Vec<SharedDocumentLayer>,
    /// Document-owned selection bitmaps, keyed by channel.
    pub selection: SharedDocumentSelection,
    pub document_window: DocumentWindow,
}

/// The blocks a new property track is born with.
pub open spec fn is_default_blocks(bs: Seq<SharedDocumentPropertyBlock>, start_breath: u32, length_breaths: u32) -> bool {
    &&& bs.len() == 2
    &&& bs[0].id@ == "block-1"@
    &&& bs[0].start_breath == start_breath
    &&& bs[0].length_breaths == min1(length_breaths)
    &&& !bs[0].is_blank
    &&& bs[0].value is None
    &&& bs[0].interpretation is None
    &&& bs[0].ease_out_percent is None
    &&& bs[0].ease_in_percent is None
    &&& bs[1].id@ == "tail"@
    &&& bs[1] == plain_blank(bs[1].id, (start_breath + min1(length_breaths)) as u32, 1)
}

/// A new property track: one solid block over the layer span followed by
/// the trailing blank, one breath long — the binary tiling a re-tile of the
/// lone solid block gives.
pub fn default_property_track(property_id: &str, start_breath: u32, length_breaths: u32) -> (t: SharedDocumentPropertyTrack)
    requires
        start_breath + min1(length_breaths) < u32::MAX,
    ensures
        t.property_id@ == property_id@,
        is_binary_tiling(t.blocks@),
        is_default_blocks(t.blocks@, start_breath, length_breaths),
        t.blocks@.len() == 2,
        t.blocks@[0].id@ == "block-1"@,
        t.blocks@[0].start_breath == start_breath,
        t.blocks@[0].length_breaths == min1(length_breaths),
        !t.blocks@[0].is_blank,
        t.blocks@[0].value is None,
        t.blocks@[1].id@ == "tail"@,
        t.blocks@[1] == plain_blank(t.blocks@[1].id, (start_breath + min1(length_breaths)) as u32, 1),
{
    let length = if length_breaths == 0 { 1 } else { length_breaths };
    let block = SharedDocumentPropertyBlock {
        id: owned("block-1"),
        start_breath,
        length_breaths: length,
        is_blank: false,
        value: None,
        interpretation: None,
        ease_out_percent: None,
        ease_in_percent: None,
    };
    let tail = new_blank(owned("tail"), start_breath + length, 1);
    let mut blocks: Vec<SharedDocumentPropertyBlock> = Vec::new();
    blocks.push(block);
    blocks.push(tail);
    proof {
        reveal_strlit("block-1");
        reveal_strlit("tail");
        assert(blocks@[0].id@ != blocks@[1].id@) by {
            assert(blocks@[0].id@[0] != blocks@[1].id@[0]);
        }
        lemma_mode_name_round_trip(InterpMode::Interpolate);
    }
    SharedDocumentPropertyTrack { property_id: owned(property_id), blocks }
}

/// A fresh layer with the default timing and the raster and move tracks.
pub fn new_layer(layer_id: &str, name: &str) -> (layer: SharedDocumentLayer)
    ensures
        layer.layer_id@ == layer_id@,
        layer.name@ == name@,
        layer.visible,
        !layer.locked,
        layer.start_breath == 0,
        layer.length_breaths == DEFAULT_LAYER_LENGTH_BREATHS,
        layer.property_tracks@.len() == 2,
        layer.property_tracks@[0].property_id@ == "raster"@,
        layer.property_tracks@[1].property_id@ == "move"@,
        is_binary_tiling(layer.property_tracks@[0].blocks@),
        is_binary_tiling(layer.property_tracks@[1].blocks@),
        layer.property_tracks@[0].blocks@.len() == 2,
        layer.property_tracks@[0].blocks@[0].id@ == "block-1"@,
        layer.property_tracks@[0].blocks@[1].id@ == "tail"@,
        is_default_blocks(layer.property_tracks@[0].blocks@, 0, DEFAULT_LAYER_LENGTH_BREATHS),
        is_default_blocks(layer.property_tracks@[1].blocks@, 0, DEFAULT_LAYER_LENGTH_BREATHS),
{
    let mut tracks: Vec<SharedDocumentPropertyTrack> = Vec::new();
    tracks.push(default_property_track("raster", 0, DEFAULT_LAYER_LENGTH_BREATHS));
    tracks.push(default_property_track("move", 0, DEFAULT_LAYER_LENGTH_BREATHS));
    SharedDocumentLayer {
        layer_id: owned(layer_id),
        name: owned(name),
        visible: true,
        locked: false,
        start_breath: 0,
        length_breaths: DEFAULT_LAYER_LENGTH_BREATHS,
        property_tracks: tracks,
    }
}

impl SharedDocumentFile {
    /// A new document with one layer.
    pub fn single_layer(document_id: &str, title: &str, layer_id: &str, layer_name: &str) -> (d: SharedDocumentFile)
        ensures
            d.file_kind@ == SHARED_DOCUMENT_KIND@,
            d.schema_version == SHARED_DOCUMENT_SCHEMA_VERSION,
            d.revision == 0,
            d.document_id@ == document_id@,
            d.title@ == title@,
            d.layers@.len() == 1,
            d.layers@[0].layer_id@ == layer_id@,
            d.layers@[0].name@ == layer_name@,
            d.layers@[0].visible && !d.layers@[0].locked,
            d.layers@[0].start_breath == 0,
            d.layers@[0].length_breaths == DEFAULT_LAYER_LENGTH_BREATHS,
            d.layers@[0].property_tracks@.len() == 2,
            d.layers@[0].property_tracks@[0].property_id@ == "raster"@,
            d.layers@[0].property_tracks@[1].property_id@ == "move"@,
            is_binary_tiling(d.layers@[0].property_tracks@[0].blocks@),
            is_binary_tiling(d.layers@[0].property_tracks@[1].blocks@),
            is_default_blocks(d.layers@[0].property_tracks@[0].blocks@, 0, DEFAULT_LAYER_LENGTH_BREATHS),
            is_default_blocks(d.layers@[0].property_tracks@[1].blocks@, 0, DEFAULT_LAYER_LENGTH_BREATHS),
            reach_ok(layers_view(d.layers@)),
            d.selection.channels@.len() == 1,
            d.selection.channels@[0].channel_id@ == DEFAULT_SELECTION_CHANNEL_ID@,
            d.selection.channels@[0].points@.len() == 0,
            d.selection.wf(),
            d.document_window == (DocumentWindow { start_breath: 0, end_breath: 23 }),
    {
        let mut layers: Vec<SharedDocumentLayer> = Vec::new();
        layers.push(new_layer(layer_id, layer_name));
        proof {
            let lv = layers_view(layers@);
            assert forall|li: int, ti: int, bi: int|
                0 <= li < lv.len() && 0 <= ti < lv[li].tracks.len() && 0 <= bi < lv[li].tracks[ti].blocks.len()
                    implies block_reach(#[trigger] lv[li].tracks[ti].blocks[bi]) < u32::MAX by {
                assert(li == 0);
                assert(lv[0].tracks[ti].blocks == layers@[0].property_tracks@[ti].blocks@);
            }
        }
        SharedDocumentFile {
            file_kind: owned(SHARED_DOCUMENT_KIND),
            schema_version: SHARED_DOCUMENT_SCHEMA_VERSION,
            revision: 0,
            document_id: owned(document_id),
            title: owned(title),
            layers,
            selection: SharedDocumentSelection::default(),
            document_window: DocumentWindow::default(),
        }
    }

    /// Whether a layer with this id exists.
    pub fn has_layer(&self, layer_id: &str) -> (r: bool)
        ensures
            r == exists|i: int| 0 <= i < self.layers@.len() && (#[trigger] self.layers@[i]).layer_id@ == layer_id@,
    {
        find_layer(&self.layers, layer_id).is_some()
    }

    /// The id of the first layer, if any.
    pub fn first_layer_id(&self) -> (r: Option<&str>)
        ensures
            self.layers@.len() == 0 ==> r is None,
            self.layers@.len() > 0 ==> r is Some && r->0@ == self.layers@[0].layer_id@,
    {
        if self.layers.len() == 0 {
            None
        } else {
            Some(self.layers[0].layer_id.as_str())
        }
    }
}

/// The index of the first layer with this id.
pub fn find_layer(layers: &Vec<SharedDocumentLayer>, layer_id: &str) -> (r: Option<usize>)
    ensures
        r is Some ==> r->0 < layers@.len() && layers@[r->0 as int].layer_id@ == layer_id@
            && forall|k: int| 0 <= k < r->0 ==> (#[trigger] layers@[k]).layer_id@ != layer_id@,
        r is None ==> forall|k: int| 0 <= k < layers@.len() ==> (#[trigger] layers@[k]).layer_id@ != layer_id@,
{
    let mut i: usize = 0;
    while i < layers.len()
        invariant
            i <= layers@.len(),
            forall|k: int| 0 <= k < i ==> (#[trigger] layers@[k]).layer_id@ != layer_id@,
        decreases layers@.len() - i,
    {
        if str_eq(layers[i].layer_id.as_str(), layer_id) {
            return Some(i);
        }
        i = i + 1;
    }
    None
}

/// The index of the first track with this property id.
pub fn find_track(tracks: &Vec<SharedDocumentPropertyTrack>, property_id: &str) -> (r: Option<usize>)
    ensures
        r is Some ==> r->0 < tracks@.len() && tracks@[r->0 as int].property_id@ == property_id@
            && forall|k: int| 0 <= k < r->0 ==> (#[trigger] tracks@[k]).property_id@ != property_id@,
        r is None ==> forall|k: int| 0 <= k < tracks@.len() ==> (#[trigger] tracks@[k]).property_id@ != property_id@,
{
    let mut i: usize = 0;
    while i < tracks.len()
        invariant
            i <= tracks@.len(),
            forall|k: int| 0 <= k < i ==> (#[trigger] tracks@[k]).property_id@ != property_id@,
        decreases tracks@.len() - i,
    {
        if str_eq(tracks[i].property_id.as_str(), property_id) {
            return Some(i);
        }
        i = i + 1;
    }
    None
}

/// The document every new document id starts as.
pub fn default_shared_document(document_id: &str) -> (d: SharedDocumentFile)
    ensures
        d.document_id@ == document_id@,
        d.title@ == "Untitled Document"@,
        d.layers@.len() == 1,
        d.layers@[0].layer_id@ == INITIAL_LAYER_ID@,
        d.layers@[0].name@ == INITIAL_LAYER_NAME@,
        d.revision == 0,
        d.file_kind@ == SHARED_DOCUMENT_KIND@,
        d.schema_version == SHARED_DOCUMENT_SCHEMA_VERSION,
        d.layers@[0].visible && !d.layers@[0].locked,
        d.layers@[0].start_breath == 0,
        d.layers@[0].length_breaths == DEFAULT_LAYER_LENGTH_BREATHS,
        d.layers@[0].property_tracks@.len() == 2,
        d.layers@[0].property_tracks@[0].property_id@ == "raster"@,
        d.layers@[0].property_tracks@[1].property_id@ == "move"@,
        is_default_blocks(d.layers@[0].property_tracks@[0].blocks@, 0, DEFAULT_LAYER_LENGTH_BREATHS),
        is_default_blocks(d.layers@[0].property_tracks@[1].blocks@, 0, DEFAULT_LAYER_LENGTH_BREATHS),
        reach_ok(layers_view(d.layers@)),
        d.selection.wf(),
        d.selection.channels@.len() == 1,
        d.selection.channels@[0].channel_id@ == DEFAULT_SELECTION_CHANNEL_ID@,
        d.selection.channels@[0].points@.len() == 0,
        d.document_window == (DocumentWindow { start_breath: 0, end_breath: 23 }),
{
    SharedDocumentFile::single_layer(document_id, "Untitled Document", INITIAL_LAYER_ID, INITIAL_LAYER_NAME)
}

/// `base` joined with the relative or absolute path `part`, as a Unix path
/// join does: an absolute part replaces the base; otherwise one `/` separates
/// them unless the base is empty or already ends with `/`.
pub open spec fn path_join_spec(base: Seq<char>, part: Seq<char>) -> Seq<char> {
    if part.len() > 0 && part[0] == '/' {
        part
    } else if base.len() == 0 || base.last() == '/' {
        base + part
    } else {
        base + seq!['/'] + part
    }
}

pub fn path_join(base: &str, part: &str) -> (r: String)
    ensures
        r@ == path_join_spec(base@, part@),
{
    let n = base.unicode_len();
    if part.unicode_len() > 0 && part.get_char(0) == '/' {
        return owned(part);
    }
    let mut out = owned(base);
    if !(n == 0 || base.get_char(n - 1) == '/') {
        push_str(&mut out, "/");
        proof {
            reveal_strlit("/");
        }
    }
    push_str(&mut out, part);
    proof {
        if !(n == 0 || base@.last() == '/') {
            assert(out@ =~= base@ + seq!['/'] + part@);
        }
    }
    out
}

/// Where a shared document's files live: the document snapshot and the
/// action log under one root.
#[derive(Debug, PartialEq, Eq)]
pub struct SharedDocumentPaths {
    pub root: String,
    pub document_file_path: String,
    pub actions_file_path: String,
}

impl SharedDocumentPaths {
    /// The paths under `root`: `document.json` and `actions.jsonl`.
    pub fn new(root: &str) -> (p: SharedDocumentPaths)
        ensures
            p.root@ == root@,
            p.document_file_path@ == path_join_spec(root@, "document.json"@),
            p.actions_file_path@ == path_join_spec(root@, "actions.jsonl"@),
    {
        SharedDocumentPaths {
            document_file_path: path_join(root, "document.json"),
            actions_file_path: path_join(root, "actions.jsonl"),
            root: owned(root),
        }
    }
}

/// The paths of a document under the painter's artifacts root:
/// `<artifacts_root>/shared-documents/<document_id>`.
pub fn painter_shared_document_paths(artifacts_root: &str, document_id: &str) -> (p: SharedDocumentPaths)
    ensures
        p.root@ == path_join_spec(path_join_spec(artifacts_root@, "shared-documents"@), document_id@),
        p.document_file_path@ == path_join_spec(p.root@, "document.json"@),
        p.actions_file_path@ == path_join_spec(p.root@, "actions.jsonl"@),
{
    let dir = path_join(artifacts_root, "shared-documents");
    let root = path_join(dir.as_str(), document_id);
    SharedDocumentPaths::new(root.as_str())
}

/// Why a saved file cannot be opened.
#[allow(inconsistent_fields)]
#[derive(Debug, PartialEq, Eq)]
pub enum UnsupportedFileReason {
    KindMismatch { found: String, supported: String },
    VersionMismatch { found: u32, supported: u32 },
}

/// A saved file exists but this library cannot open it: its kind or schema
/// version does not match what it reads.
#[derive(Debug, PartialEq, Eq)]
pub struct UnsupportedFileError {
    pub path: String,
    pub reason: UnsupportedFileReason,
}

/// The kind a refusal names: the file's kind, or `<missing>`.
pub open spec fn found_kind(value: JsonValue) -> Seq<char> {
    match as_str_spec(get_spec(value, "file_kind"@)) {
        Some(k) => k,
        None => "<missing>"@,
    }
}

/// The version a refusal names: the file's version as `u32` (truncated),
/// or 0 when there is none.
pub open spec fn found_version(value: JsonValue) -> u32 {
    match as_u64_spec(get_spec(value, "schema_version"@)) {
        Some(v) => v as u32,
        None => 0,
    }
}

/// Whether a file's kind and version are the ones this library reads.
pub open spec fn schema_supported(value: JsonValue) -> bool {
    &&& as_str_spec(get_spec(value, "file_kind"@)) == Some(SHARED_DOCUMENT_KIND@)
    &&& as_u64_spec(get_spec(value, "schema_version"@)) == Some(SHARED_DOCUMENT_SCHEMA_VERSION as u64)
}

/// The reason a refused file is given: a kind mismatch when the
/// kind is wrong or missing, else a version mismatch.
pub open spec fn refusal_reason(reason: UnsupportedFileReason, value: JsonValue) -> bool {
    if as_str_spec(get_spec(value, "file_kind"@)) != Some(SHARED_DOCUMENT_KIND@) {
        reason matches UnsupportedFileReason::KindMismatch { found, supported }
            && found@ == found_kind(value) && supported@ == SHARED_DOCUMENT_KIND@
    } else {
        reason == (UnsupportedFileReason::VersionMismatch { found: found_version(value), supported: SHARED_DOCUMENT_SCHEMA_VERSION })
    }
}

/// The load-time schema guard: kind first, then version, both read before
/// the body is read. A missing kind or version is unsupported, not malformed.
pub fn ensure_supported_file_schema(path: &str, value: &JsonValue) -> (r: Result<(), UnsupportedFileError>)
    ensures
        r is Ok <==> schema_supported(*value),
        r matches Err(e) ==> e.path@ == path@ && refusal_reason(e.reason, *value),
{
    let kind = as_str(value.get("file_kind"));
    let kind_ok = match kind {
        Some(k) => str_eq(k, SHARED_DOCUMENT_KIND),
        None => false,
    };
    if !kind_ok {
        let found = match kind {
            Some(k) => owned(k),
            None => owned("<missing>"),
        };
        return Err(UnsupportedFileError {
            path: owned(path),
            reason: UnsupportedFileReason::KindMismatch { found, supported: owned(SHARED_DOCUMENT_KIND) },
        });
    }
    let found = as_u64(value.get("schema_version"));
    match found {
        Some(v) => {
            if v == SHARED_DOCUMENT_SCHEMA_VERSION as u64 {
                return Ok(());
            }
            Err(UnsupportedFileError {
                path: owned(path),
                reason: UnsupportedFileReason::VersionMismatch { found: v as u32, supported: SHARED_DOCUMENT_SCHEMA_VERSION },
            })
        },
        None => Err(UnsupportedFileError {
            path: owned(path),
            reason: UnsupportedFileReason::VersionMismatch { found: 0, supported: SHARED_DOCUMENT_SCHEMA_VERSION },
        }),
    }
}

/// The message an unsupported-file error reads as.
pub open spec fn unsupported_message(path: Seq<char>, reason: UnsupportedFileReason) -> Seq<char> {
    "unsupported file at "@ + path + " \u{2014} "@ + match reason {
        UnsupportedFileReason::KindMismatch { found, supported } =>
            "file kind '"@ + found@ + "' is not '"@ + supported@ + "'"@,
        UnsupportedFileReason::VersionMismatch { found, supported } => if found == 0 {
            "file carries no schema version; this app reads v"@ + decimal(supported as nat)
        } else {
            "file is schema v"@ + decimal(found as nat) + ", this app reads v"@ + decimal(supported as nat)
        },
    }
}

impl UnsupportedFileError {
    /// The error's message.
    pub fn message(&self) -> (m: String)
        ensures
            m@ == unsupported_message(self.path@, self.reason),
    {
        let mut m = owned("unsupported file at ");
        push_str(&mut m, self.path.as_str());
        push_str(&mut m, " \u{2014} ");
        match &self.reason {
            UnsupportedFileReason::KindMismatch { found, supported } => {
                push_str(&mut m, "file kind '");
                push_str(&mut m, found.as_str());
                push_str(&mut m, "' is not '");
                push_str(&mut m, supported.as_str());
                push_str(&mut m, "'");
            },
            UnsupportedFileReason::VersionMismatch { found, supported } => {
                if *found == 0 {
                    push_str(&mut m, "file carries no schema version; this app reads v");
                    push_decimal(&mut m, *supported as u64);
                } else {
                    push_str(&mut m, "file is schema v");
                    push_decimal(&mut m, *found as u64);
                    push_str(&mut m, ", this app reads v");
                    push_decimal(&mut m, *supported as u64);
                }
            },
        }
        proof {
            assert(m@ =~= unsupported_message(self.path@, self.reason));
        }
        m
    }
}

/// The mathematical form of a property track.
pub struct TrackView {
    pub property_id: Seq<char>,
    pub blocks: Seq<SharedDocumentPropertyBlock>,
}

/// The mathematical form of a layer.
pub struct LayerView {
    pub layer_id: Seq<char>,
    pub name: Seq<char>,
    pub visible: bool,
    pub locked: bool,
    pub start_breath: u32,
    pub length_breaths: u32,
    pub tracks: Seq<TrackView>,
}

impl View for SharedDocumentPropertyTrack {
    type V = TrackView;

    open spec fn view(&self) -> TrackView {
        TrackView { property_id: self.property_id@, blocks: self.blocks@ }
    }
}

impl View for SharedDocumentLayer {
    type V = LayerView;

    open spec fn view(&self) -> LayerView {
        LayerView {
            layer_id: self.layer_id@,
            name: self.name@,
            visible: self.visible,
            locked: self.locked,
            start_breath: self.start_breath,
            length_breaths: self.length_breaths,
            tracks: self.property_tracks@.map_values(|t: SharedDocumentPropertyTrack| t@),
        }
    }
}

/// The layers as mathematical values.
pub open spec fn layers_view(layers: Seq<SharedDocumentLayer>) -> Seq<LayerView> {
    layers.map_values(|l: SharedDocumentLayer| l@)
}

/// The layer view with one track's blocks replaced.
pub open spec fn with_blocks(l: LayerView, ti: int, blocks: Seq<SharedDocumentPropertyBlock>) -> LayerView {
    LayerView { tracks: l.tracks.update(ti, TrackView { blocks, ..l.tracks[ti] }), ..l }
}

/// Takes one track's blocks out of a layer list, leaving the track empty.
pub fn take_track_blocks(layers: &mut Vec<SharedDocumentLayer>, li: usize, ti: usize) -> (blocks: Vec<SharedDocumentPropertyBlock>)
    requires
        li < old(layers)@.len(),
        ti < old(layers)@[li as int].property_tracks@.len(),
    ensures
        blocks@ == old(layers)@[li as int].property_tracks@[ti as int].blocks@,
        layers_view(final(layers)@) == layers_view(old(layers)@).update(li as int,
            with_blocks(layers_view(old(layers)@)[li as int], ti as int, Seq::empty())),
        final(layers)@.len() == old(layers)@.len(),
        final(layers)@[li as int].property_tracks@.len() == old(layers)@[li as int].property_tracks@.len(),
{
    let ghost before = layers@;
    let mut layer = layers.remove(li);
    let ghost lb = layer.property_tracks@;
    let mut track = layer.property_tracks.remove(ti);
    let mut blocks: Vec<SharedDocumentPropertyBlock> = Vec::new();
    std::mem::swap(&mut blocks, &mut track.blocks);
    layer.property_tracks.insert(ti, track);
    layers.insert(li, layer);
    proof {
        assert(layer.property_tracks@.map_values(|t: SharedDocumentPropertyTrack| t@) =~=
            lb.map_values(|t: SharedDocumentPropertyTrack| t@).update(ti as int, TrackView { blocks: Seq::empty(), ..lb[ti as int]@ }));
        assert(layers_view(layers@) =~= layers_view(before).update(li as int,
            with_blocks(layers_view(before)[li as int], ti as int, Seq::empty())));
    }
    blocks
}

/// Puts blocks into one track of a layer list.
pub fn put_track_blocks(layers: &mut Vec<SharedDocumentLayer>, li: usize, ti: usize, blocks: Vec<SharedDocumentPropertyBlock>)
    requires
        li < old(layers)@.len(),
        ti < old(layers)@[li as int].property_tracks@.len(),
    ensures
        layers_view(final(layers)@) == layers_view(old(layers)@).update(li as int,
            with_blocks(layers_view(old(layers)@)[li as int], ti as int, blocks@)),
        final(layers)@.len() == old(layers)@.len(),
        final(layers)@[li as int].property_tracks@.len() == old(layers)@[li as int].property_tracks@.len(),
        final(layers)@[li as int].property_tracks@[ti as int].blocks@ == blocks@,
{
    let ghost before = layers@;
    let ghost nb = blocks@;
    let mut layer = layers.remove(li);
    let ghost lb = layer.property_tracks@;
    let mut track = layer.property_tracks.remove(ti);
    track.blocks = blocks;
    layer.property_tracks.insert(ti, track);
    layers.insert(li, layer);
    proof {
        assert(layer.property_tracks@.map_values(|t: SharedDocumentPropertyTrack| t@) =~=
            lb.map_values(|t: SharedDocumentPropertyTrack| t@).update(ti as int, TrackView { blocks: nb, ..lb[ti as int]@ }));
        assert(layers_view(layers@) =~= layers_view(before).update(li as int,
            with_blocks(layers_view(before)[li as int], ti as int, nb)));
    }
}

} // verus!

verus! {

impl SharedDocumentPropertyTrack {
    /// A copy with the same id and blocks.
    pub fn copy(&self) -> (r: SharedDocumentPropertyTrack)
        ensures
            r@ == self@,
    {
        let mut blocks: Vec<SharedDocumentPropertyBlock> = Vec::new();
        let mut i: usize = 0;
        while i < self.blocks.len()
            invariant
                i <= self.blocks@.len(),
                blocks@ == self.blocks@.take(i as int),
            decreases self.blocks@.len() - i,
        {
            blocks.push(self.blocks[i].copy());
            proof {
                assert(self.blocks@.take(i + 1) =~= self.blocks@.take(i as int).push(self.blocks@[i as int]));
            }
            i = i + 1;
        }
        proof {
            assert(self.blocks@.take(i as int) =~= self.blocks@);
        }
        SharedDocumentPropertyTrack { property_id: self.property_id.clone(), blocks }
    }
}

impl SharedDocumentLayer {
    /// A copy with the same fields and tracks.
    pub fn copy(&self) -> (r: SharedDocumentLayer)
        ensures
            r@ == self@,
    {
        let mut tracks: Vec<SharedDocumentPropertyTrack> = Vec::new();
        let mut i: usize = 0;
        while i < self.property_tracks.len()
            invariant
                i <= self.property_tracks@.len(),
                tracks@.map_values(|t: SharedDocumentPropertyTrack| t@) == self.property_tracks@.take(i as int).map_values(|t: SharedDocumentPropertyTrack| t@),
            decreases self.property_tracks@.len() - i,
        {
            let t = self.property_tracks[i].copy();
            let ghost prev = tracks@;
            tracks.push(t);
            proof {
                assert(tracks@.map_values(|t: SharedDocumentPropertyTrack| t@) =~= prev.map_values(|t: SharedDocumentPropertyTrack| t@).push(t@));
                assert(self.property_tracks@.take(i + 1).map_values(|t: SharedDocumentPropertyTrack| t@)
                    =~= self.property_tracks@.take(i as int).map_values(|t: SharedDocumentPropertyTrack| t@).push(self.property_tracks@[i as int]@));
            }
            i = i + 1;
        }
        proof {
            assert(self.property_tracks@.take(i as int) =~= self.property_tracks@);
        }
        SharedDocumentLayer {
            layer_id: self.layer_id.clone(),
            name: self.name.clone(),
            visible: self.visible,
            locked: self.locked,
            start_breath: self.start_breath,
            length_breaths: self.length_breaths,
            property_tracks: tracks,
        }
    }
}

/// Two documents hold the same values: header, layers, selection, window.
pub open spec fn same_document(a: SharedDocumentFile, b: SharedDocumentFile) -> bool {
    &&& a.file_kind == b.file_kind
    &&& a.schema_version == b.schema_version
    &&& a.document_id == b.document_id
    &&& a.revision == b.revision
    &&& a.title == b.title
    &&& layers_view(a.layers@) == layers_view(b.layers@)
    &&& crate::selection::same_selection(a.selection, b.selection)
    &&& a.document_window == b.document_window
}

impl SharedDocumentFile {
    /// A copy holding the same values.
    pub fn copy(&self) -> (r: SharedDocumentFile)
        ensures
            same_document(r, *self),
            self.selection.wf() ==> r.selection.wf(),
    {
        let mut layers: Vec<SharedDocumentLayer> = Vec::new();
        let mut i: usize = 0;
        while i < self.layers.len()
            invariant
                i <= self.layers@.len(),
                layers_view(layers@) == layers_view(self.layers@.take(i as int)),
            decreases self.layers@.len() - i,
        {
            let l = self.layers[i].copy();
            let ghost prev = layers@;
            layers.push(l);
            proof {
                assert(layers_view(layers@) =~= layers_view(prev).push(l@));
                assert(layers_view(self.layers@.take(i + 1)) =~= layers_view(self.layers@.take(i as int)).push(self.layers@[i as int]@));
            }
            i = i + 1;
        }
        proof {
            assert(self.layers@.take(i as int) =~= self.layers@);
        }
        SharedDocumentFile {
            file_kind: self.file_kind.clone(),
            schema_version: self.schema_version,
            document_id: self.document_id.clone(),
            revision: self.revision,
            title: self.title.clone(),
            layers,
            selection: self.selection.copy(),
            document_window: self.document_window,
        }
    }
}

} // verus!

verus! {

/// New and loaded layers are visible unless saved otherwise.
pub fn default_layer_visible() -> (r: bool)
    ensures
        r,
{
    true
}

/// The length a layer gets when none is saved.
pub fn default_layer_length_breaths() -> (r: u32)
    ensures
        r == DEFAULT_LAYER_LENGTH_BREATHS,
{
    DEFAULT_LAYER_LENGTH_BREATHS
}

} // verus!
