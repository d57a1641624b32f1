use painter_domain::file_schema::{
    parse_breath_window, parse_document_bounds, parse_export_sections, parse_file_head, parse_flat_export, parse_graphic,
    parse_grid_point, parse_group_property, parse_import_export_bookkeeping, parse_last_export, parse_property_block, parse_metadata, parse_playback_window, parse_raster_segment, parse_time_assets,
    validate_asset_file, BreathWindow, CellColorValue, CellGraphicValue, DocumentBounds, GridPoint, PlaybackWindow,
    SchemaError, FILE_SCHEMA_KIND, FILE_SCHEMA_VERSION,
};
use painter_domain::json::{JsonList, JsonMembers, JsonNumber, JsonValue};

fn obj(members: Vec<(&str, JsonValue)>) -> JsonValue {
    let mut list = JsonMembers::Nil;
    for (key, value) in members.into_iter().rev() {
        list = JsonMembers::Cons(key.to_string(), Box::new(value), Box::new(list));
    }
    JsonValue::Object(list)
}

fn arr(items: Vec<JsonValue>) -> JsonValue {
    let mut list = JsonList::Nil;
    for item in items.into_iter().rev() {
        list = JsonList::Cons(Box::new(item), Box::new(list));
    }
    JsonValue::Array(list)
}

fn s(text: &str) -> JsonValue {
    JsonValue::String(text.to_string())
}

fn n(value: i64) -> JsonValue {
    if value >= 0 {
        JsonValue::Number(JsonNumber::PosInt(value as u64))
    } else {
        JsonValue::Number(JsonNumber::NegInt(value))
    }
}

fn metadata() -> JsonValue {
    obj(vec![
        ("document_id", s("doc_cell_language_001")),
        ("title", s("Cell Language")),
        ("description", s("")),
        ("tags", arr(vec![s("proof"), s("cells")])),
        ("created_at", s("2026-01-01")),
        ("modified_at", s("2026-01-02")),
        ("authoring_origin", s("painter")),
    ])
}

fn appearance(graphic: JsonValue, color: JsonValue) -> JsonValue {
    obj(vec![
        ("graphic", graphic),
        ("color", color),
        ("weight_index", n(2)),
        ("shader_stack", arr(vec![s("cell-shaders/weight-sin.json"), s("cell-shaders/texture-shimmer.json")])),
    ])
}

fn flat_color() -> JsonValue {
    obj(vec![("kind", s("flat")), ("rgb", obj(vec![("r", n(1)), ("g", n(2)), ("b", n(3))]))])
}

#[test]
fn rejects_a_file_schema_with_the_wrong_kind() {
    let value = obj(vec![("kind", s("not-thaum-painter-file")), ("version", n(FILE_SCHEMA_VERSION as i64))]);
    let error = parse_file_head(&value).unwrap_err();
    assert!(error.message().contains("kind"));
}

#[test]
fn rejects_a_file_schema_with_an_unsupported_version() {
    let value = obj(vec![("kind", s(FILE_SCHEMA_KIND)), ("version", n(1))]);
    let error = parse_file_head(&value).unwrap_err();
    assert!(error.message().contains("version"));
    let value = obj(vec![("kind", s(FILE_SCHEMA_KIND)), ("version", n(FILE_SCHEMA_VERSION as i64 + 1))]);
    let error = parse_file_head(&value).unwrap_err();
    assert!(error.message().contains("version"));
    let value = obj(vec![("kind", s(FILE_SCHEMA_KIND)), ("version", n(2))]);
    assert!(parse_file_head(&value).unwrap_err().message().contains("got 2"));
}

#[test]
fn rejects_a_file_schema_missing_a_required_field() {
    let value = obj(vec![("kind", s(FILE_SCHEMA_KIND)), ("version", n(FILE_SCHEMA_VERSION as i64))]);
    let error = parse_file_head(&value).unwrap_err();
    assert!(error.message().contains("metadata"));
}

#[test]
fn rejects_a_multi_character_glyph_and_absolute_asset_file() {
    let glyph = obj(vec![("kind", s("glyph")), ("glyph", s("ab"))]);
    assert!(parse_graphic(&glyph).unwrap_err().message().contains("exactly one character"));
    let sprite = obj(vec![("kind", s("sprite")), ("asset_file", s("/torch.png"))]);
    assert!(parse_graphic(&sprite).unwrap_err().message().contains("relative asset filename"));
}

#[test]
fn the_file_head_reads_kind_version_and_metadata() {
    let value = obj(vec![("kind", s(FILE_SCHEMA_KIND)), ("version", n(3)), ("metadata", metadata())]);
    let (version, meta) = parse_file_head(&value).unwrap();
    assert_eq!(version, 3);
    assert_eq!(meta.document_id, "doc_cell_language_001");
    assert_eq!(meta.tags, vec!["proof".to_string(), "cells".to_string()]);
}

#[test]
fn metadata_failures_are_named_and_tags_must_be_strings() {
    let bad = obj(vec![
        ("document_id", s("d")),
        ("title", s("t")),
        ("description", s("")),
        ("tags", arr(vec![s("ok"), n(4)])),
    ]);
    assert_eq!(parse_metadata(&bad).unwrap_err().message(), "field 'tags[1]' must be a string");
    let value = obj(vec![("kind", s(FILE_SCHEMA_KIND)), ("version", n(3)), ("metadata", bad)]);
    let error = parse_file_head(&value).unwrap_err();
    assert_eq!(error.message(), "invalid metadata");
    match error {
        SchemaError::Invalid { cause, .. } => assert_eq!(cause.message(), "field 'tags[1]' must be a string"),
        other => panic!("unexpected error {other:?}"),
    }
}

#[test]
fn asset_files_must_be_relative_and_stay_inside_the_root() {
    assert!(validate_asset_file("cell-sprites/torch.png", "f").is_ok());
    assert!(validate_asset_file("a..b/c", "f").is_ok());
    assert!(validate_asset_file("", "f").is_err());
    assert!(validate_asset_file("\\torch.png", "f").is_err());
    assert!(validate_asset_file("cell/../torch.png", "f").is_err());
    assert!(validate_asset_file("..", "f").is_err());
    assert!(validate_asset_file("x\\..\\y", "f").is_err());
    assert_eq!(
        validate_asset_file("/abs", "field 'asset_file'").unwrap_err().message(),
        "field 'asset_file' must be a non-empty relative asset filename"
    );
}

#[test]
fn points_bounds_windows_and_playback_read_their_fields() {
    assert_eq!(parse_grid_point(&obj(vec![("x", n(3)), ("y", n(2)), ("z", n(-1))])).unwrap(), GridPoint { x: 3, y: 2, z: -1 });
    assert_eq!(parse_grid_point(&obj(vec![("x", n(3))])).unwrap_err().message(), "missing field 'y'");
    let bounds = obj(vec![
        ("min_x", n(-4)), ("min_y", n(0)), ("min_z", n(1)), ("width", n(8)), ("height", n(9)), ("depth", n(10)),
    ]);
    assert_eq!(
        parse_document_bounds(&bounds).unwrap(),
        DocumentBounds { min: GridPoint { x: -4, y: 0, z: 1 }, width: 8, height: 9, depth: 10 }
    );
    let window = obj(vec![("start_breath", n(0)), ("window_start_breath", n(2)), ("window_end_breath", n(5))]);
    assert_eq!(
        parse_breath_window(&window).unwrap(),
        BreathWindow { start_breath: 0, window_start_breath: 2, window_end_breath: 5 }
    );
    let negative = obj(vec![("start_breath", n(-1))]);
    assert_eq!(parse_breath_window(&negative).unwrap_err().message(), "field 'start_breath' must be a non-negative integer");
    let huge = obj(vec![("start_breath", n(1 << 40))]);
    assert_eq!(parse_breath_window(&huge).unwrap_err().message(), "field 'start_breath' is out of range");
    let playback = obj(vec![
        ("frames_per_breath", n(12)),
        ("loop_enabled", JsonValue::Bool(true)),
        ("document_window_start_breath", n(0)),
        ("document_window_end_breath", n(23)),
    ]);
    assert_eq!(
        parse_playback_window(&playback).unwrap(),
        PlaybackWindow { frames_per_breath: 12, loop_enabled: true, document_window_start_breath: 0, document_window_end_breath: 23 }
    );
    let not_bool = obj(vec![("frames_per_breath", n(12)), ("loop_enabled", n(1))]);
    assert_eq!(parse_playback_window(&not_bool).unwrap_err().message(), "field 'loop_enabled' must be a boolean");
}

#[test]
fn raster_segments_read_glyph_sprite_material_slots_and_ordered_shaders() {
    let slots = obj(vec![
        ("kind", s("slots")),
        ("a", flat_color()),
        ("b", obj(vec![("kind", s("material")), ("asset_file", s("materials/gray-scale.json"))])),
        ("c", flat_color()),
    ]);
    let voxel = |x: i64, graphic: JsonValue, color: JsonValue| {
        obj(vec![("x", n(x)), ("y", n(0)), ("z", n(0)), ("appearance", appearance(graphic, color))])
    };
    let segment = obj(vec![
        (
            "voxels",
            arr(vec![
                voxel(0, obj(vec![("kind", s("glyph")), ("glyph", s("R"))]), flat_color()),
                voxel(1, obj(vec![("kind", s("glyph")), ("glyph", s("G"))]), obj(vec![("kind", s("material")), ("asset_file", s("materials/gray-scale.json"))])),
                voxel(2, obj(vec![("kind", s("sprite")), ("asset_file", s("cell-sprites/torch.png"))]), flat_color()),
                voxel(3, obj(vec![("kind", s("glyph")), ("glyph", s("B"))]), slots),
            ]),
        ),
        ("id", s("seg-1")),
        ("start_breath", n(0)),
        ("end_breath", n(4)),
    ]);
    let segment = parse_raster_segment(&segment).unwrap();
    assert_eq!(segment.id, "seg-1");
    assert_eq!(segment.voxels.len(), 4);
    assert_eq!(segment.voxels[0].appearance.graphic, CellGraphicValue::Glyph('R'));
    assert_eq!(
        segment.voxels[1].appearance.color,
        CellColorValue::Material { asset_file: "materials/gray-scale.json".to_owned() }
    );
    assert_eq!(
        segment.voxels[2].appearance.graphic,
        CellGraphicValue::Sprite { asset_file: "cell-sprites/torch.png".to_owned() }
    );
    assert!(matches!(segment.voxels[3].appearance.color, CellColorValue::Slots { .. }));
    assert_eq!(
        segment.voxels[0].appearance.shader_stack,
        vec!["cell-shaders/weight-sin.json".to_string(), "cell-shaders/texture-shimmer.json".to_string()]
    );
}

#[test]
fn a_bad_voxel_names_the_segment_voxel_and_bad_slots_name_the_slot() {
    let bad_color = obj(vec![
        ("kind", s("slots")),
        ("a", flat_color()),
        ("b", obj(vec![("kind", s("paint"))])),
        ("c", flat_color()),
    ]);
    let segment = obj(vec![(
        "voxels",
        arr(vec![obj(vec![
            ("x", n(0)), ("y", n(0)), ("z", n(0)),
            ("appearance", appearance(obj(vec![("kind", s("glyph")), ("glyph", s("A"))]), bad_color)),
        ])]),
    )]);
    let error = parse_raster_segment(&segment).unwrap_err();
    assert_eq!(error.message(), "invalid raster segment voxel");
    let mut chain = Vec::new();
    let mut current = &error;
    while let SchemaError::Invalid { context, cause } = current {
        chain.push(context.clone());
        current = cause;
    }
    assert_eq!(chain, vec!["invalid raster segment voxel", "invalid voxel appearance", "invalid cell color", "invalid color slot b"]);
    assert_eq!(current.message(), "color slot kind must be 'flat' or 'material', got 'paint'");
    // A missing voxel array is reported as it is.
    assert_eq!(parse_raster_segment(&obj(vec![])).unwrap_err().message(), "missing field 'voxels'");
}

#[test]
fn shader_entries_must_be_relative_strings() {
    let graphic = obj(vec![("kind", s("glyph")), ("glyph", s("A"))]);
    let with_shaders = |shaders: JsonValue| {
        obj(vec![(
            "voxels",
            arr(vec![obj(vec![
                ("x", n(0)), ("y", n(0)), ("z", n(0)),
                ("appearance", obj(vec![("graphic", graphic.clone()), ("color", flat_color()), ("weight_index", n(0)), ("shader_stack", shaders)])),
            ])]),
        ), ("id", s("x")), ("start_breath", n(0)), ("end_breath", n(1))])
    };
    let innermost = |value: &JsonValue| {
        let error = parse_raster_segment(value).unwrap_err();
        let mut current = &error;
        while let SchemaError::Invalid { cause, .. } = current {
            current = cause;
        }
        current.message()
    };
    assert_eq!(innermost(&with_shaders(arr(vec![s("ok.json"), n(3)]))), "shader_stack[1] must be a string");
    assert_eq!(
        innermost(&with_shaders(arr(vec![s("../up.json")]))),
        "shader_stack[0] must be a non-empty relative asset filename"
    );
    assert!(parse_raster_segment(&with_shaders(arr(vec![]))).is_ok());
}

#[test]
fn parses_flat_export_sections_and_last_export() {
    let flat = obj(vec![
        ("interpolation", s("preserve")),
        ("file_name", s("exports/cell-language-proof.taf")),
        ("name", s("Cell Language Proof")),
        ("facing", s("pos-z")),
    ]);
    let export = parse_flat_export(&flat).unwrap();
    assert_eq!(export.file_name, "exports/cell-language-proof.taf");
    assert_eq!(export.interpolation, "preserve");
    let sections = parse_export_sections(&obj(vec![("flat", flat)])).unwrap();
    assert_eq!(sections.flat.unwrap().facing, "pos-z");
    assert_eq!(parse_export_sections(&obj(vec![("flat", JsonValue::Null)])).unwrap().flat, None);
    let lerp = obj(vec![("interpolation", s("lerp"))]);
    assert_eq!(parse_flat_export(&lerp).unwrap_err().message(), "flat export interpolation must be 'preserve', got 'lerp'");
    assert_eq!(parse_export_sections(&obj(vec![("flat", lerp)])).unwrap_err().message(), "invalid flat export");
    let last = parse_last_export(&obj(vec![("profile", s("flat")), ("exported_at", s("t0"))])).unwrap();
    assert_eq!(last.profile, "flat");
    assert_eq!(last.exported_at, "t0");
}

#[test]
fn time_assets_read_particle_effects() {
    assert!(parse_time_assets(&obj(vec![("particle_effects", arr(vec![]))])).unwrap().particle_effects.is_empty());
    let effect = obj(vec![
        ("id", s("p1")), ("kind", s("spark")), ("name", s("Spark")),
        ("spawn_breath", n(1)), ("window_start", n(0)), ("window_end", n(4)), ("processed_breaths", n(2)),
        ("is_complete", JsonValue::Bool(false)), ("is_deleted", JsonValue::Bool(false)),
        ("visual", obj(vec![("char", s("*")), ("display_color", s("#fff")), ("render_index", n(0)), ("weight_index", n(1))])),
    ]);
    let assets = parse_time_assets(&obj(vec![("particle_effects", arr(vec![effect]))])).unwrap();
    assert_eq!(assets.particle_effects.len(), 1);
    assert_eq!(assets.particle_effects[0].visual.char, '*');
    let broken = obj(vec![("id", s("p2"))]);
    let error = parse_time_assets(&obj(vec![("particle_effects", arr(vec![broken]))])).unwrap_err();
    assert_eq!(error.message(), "invalid time asset particle effect");
    assert_eq!(parse_time_assets(&obj(vec![("particle_effects", s("x"))])).unwrap_err().message(), "field 'particle_effects' must be an array");
}

#[test]
fn group_properties_keep_block_payloads_as_saved() {
    let payload = obj(vec![("dx", n(2)), ("dy", n(-1))]);
    let block = obj(vec![("id", s("move-1")), ("start_breath", n(0)), ("end_breath", n(8)), ("value", payload)]);
    let parsed = parse_property_block(&block).unwrap();
    assert_eq!(parsed.id, "move-1");
    assert_eq!(parsed.end_breath, 8);
    assert_eq!(parsed.value, obj(vec![("dx", n(2)), ("dy", n(-1))]));
    let property = obj(vec![("id", s("prop-move")), ("kind", s("move")), ("blocks", arr(vec![block]))]);
    let parsed = parse_group_property(&property).unwrap();
    assert_eq!(parsed.kind, "move");
    assert_eq!(parsed.blocks.len(), 1);
    assert_eq!(parsed.blocks[0].start_breath, 0);
    let missing_value = obj(vec![("id", s("b")), ("start_breath", n(0)), ("end_breath", n(1))]);
    assert_eq!(parse_property_block(&missing_value).unwrap_err().message(), "missing field 'value'");
    let bad = obj(vec![("id", s("p")), ("kind", s("move")), ("blocks", arr(vec![missing_value]))]);
    assert_eq!(parse_group_property(&bad).unwrap_err().message(), "invalid property block");
}

#[test]
fn bookkeeping_keeps_the_source_import_and_reads_the_last_export() {
    let empty = obj(vec![("source_import", JsonValue::Null), ("last_export", JsonValue::Null)]);
    let parsed = parse_import_export_bookkeeping(&empty).unwrap();
    assert_eq!(parsed.source_import, None);
    assert_eq!(parsed.last_export, None);
    let full = obj(vec![
        ("source_import", obj(vec![("from", s("legacy.txt"))])),
        ("last_export", obj(vec![("profile", s("flat")), ("exported_at", s("t1"))])),
    ]);
    let parsed = parse_import_export_bookkeeping(&full).unwrap();
    assert_eq!(parsed.source_import, Some(obj(vec![("from", s("legacy.txt"))])));
    assert_eq!(parsed.last_export.unwrap().exported_at, "t1");
    let broken = obj(vec![("source_import", JsonValue::Null), ("last_export", obj(vec![("profile", s("flat"))]))]);
    assert_eq!(parse_import_export_bookkeeping(&broken).unwrap_err().message(), "invalid last_export");
}
