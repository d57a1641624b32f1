use painter_domain::canvas::{CellGraphic, SpriteGraphic};
use painter_domain::graphic_picker::{
    build_scroll_rows, display_glyph, format_section_title, note_recent, parse_supported_glyph_sections, supported_sprites,
    ContentRow, GlyphSection, RECENT_CAPACITY,
};

#[test]
fn supported_glyph_sections_preserve_the_leading_ascii_space() {
    let sections = parse_supported_glyph_sections("ascii:\n ABC\n");
    assert_eq!(sections[0].title, "ascii");
    assert_eq!(sections[0].glyphs, vec![' ', 'A', 'B', 'C']);
}

#[test]
fn glyph_sections_parse_glued_title_lines_like_the_renderer() {
    // A title glued to its glyph line is a whole section by itself.
    let sections = parse_supported_glyph_sections("ascii:\n ABC\n\nborders:━┃\n");
    assert_eq!(sections.len(), 2);
    assert_eq!(sections[1].title, "borders");
    assert_eq!(sections[1].glyphs, vec!['━', '┃']);
}

#[test]
fn glyph_lines_containing_colons_still_parse_as_glyphs() {
    // Only an identifier before the colon makes a title.
    let sections = parse_supported_glyph_sections("dots:\n.,:;·\n");
    assert_eq!(sections.len(), 1);
    assert_eq!(sections[0].title, "dots");
    assert_eq!(sections[0].glyphs, vec!['.', ',', ':', ';', '·']);
}

#[test]
fn glyph_lines_without_a_waiting_title_are_skipped() {
    let sections = parse_supported_glyph_sections("stray\nfaces:\n☺☻\nloose\n");
    assert_eq!(sections.len(), 1);
    assert_eq!(sections[0].title, "faces");
    assert_eq!(sections[0].glyphs, vec!['☺', '☻']);
}

#[test]
fn a_later_title_replaces_one_still_waiting() {
    let sections = parse_supported_glyph_sections("first:\nsecond:\nxy");
    assert_eq!(sections.len(), 1);
    assert_eq!(sections[0].title, "second");
    assert_eq!(sections[0].glyphs, vec!['x', 'y']);
}

#[test]
fn crlf_line_endings_are_stripped_but_a_final_carriage_return_stays() {
    let sections = parse_supported_glyph_sections("a:\r\nxy\r\nb:\nz\r");
    assert_eq!(sections.len(), 2);
    assert_eq!(sections[0].title, "a");
    assert_eq!(sections[0].glyphs, vec!['x', 'y']);
    assert_eq!(sections[1].glyphs, vec!['z', '\r']);
}

#[test]
fn empty_text_has_no_sections() {
    assert!(parse_supported_glyph_sections("").is_empty());
    assert!(parse_supported_glyph_sections("\n\n").is_empty());
}

#[test]
fn section_titles_print_in_ascii_upper_case() {
    assert_eq!(format_section_title("latinext"), "LATINEXT");
    assert_eq!(format_section_title("abc_9Z"), "ABC_9Z");
    assert_eq!(format_section_title("ñé"), "ñé");
}

#[test]
fn a_space_glyph_shows_as_a_middle_dot() {
    assert_eq!(display_glyph(' '), '·');
    assert_eq!(display_glyph('A'), 'A');
}

#[test]
fn sprite_options_are_labelled_by_file_name() {
    let sprites = supported_sprites();
    assert_eq!(sprites.len(), 2);
    assert_eq!(sprites[0].path, "proofs/channel-bands.png");
    assert_eq!(sprites[0].label, "channel-bands");
    assert_eq!(sprites[1].path, "proofs/grass.png");
    assert_eq!(sprites[1].label, "grass");
}

#[test]
fn the_recall_list_moves_a_repeat_to_the_front_and_keeps_ten() {
    let mut recent: Vec<CellGraphic> = Vec::new();
    note_recent(&mut recent, &CellGraphic::Glyph('a'));
    note_recent(&mut recent, &CellGraphic::Glyph('b'));
    note_recent(&mut recent, &CellGraphic::Glyph('a'));
    assert_eq!(recent, vec![CellGraphic::Glyph('a'), CellGraphic::Glyph('b')]);
    let torch = CellGraphic::Sprite(SpriteGraphic { atlas_relative_path: "cell-sprites/torch.png".to_string() });
    note_recent(&mut recent, &torch);
    assert_eq!(recent[0], torch);
    for glyph in "cdefghijklmn".chars() {
        note_recent(&mut recent, &CellGraphic::Glyph(glyph));
    }
    assert_eq!(recent.len(), RECENT_CAPACITY);
    assert_eq!(recent[0], CellGraphic::Glyph('n'));
    assert_eq!(recent[9], CellGraphic::Glyph('e'));
}

#[test]
fn scroll_rows_cut_sections_to_the_content_width_then_list_sprites() {
    let sections = vec![
        GlyphSection { title: "letters".to_string(), glyphs: "abcde".chars().collect() },
        GlyphSection { title: "empty".to_string(), glyphs: Vec::new() },
    ];
    let rows = build_scroll_rows(&sections, 2, 2);
    assert_eq!(
        rows,
        vec![
            ContentRow::SectionTitle("letters".to_string()),
            ContentRow::Glyphs(vec!['a', 'b']),
            ContentRow::Glyphs(vec!['c', 'd']),
            ContentRow::Glyphs(vec!['e']),
            ContentRow::SectionTitle("empty".to_string()),
            ContentRow::SectionTitle("sprites".to_string()),
            ContentRow::Sprite(0),
            ContentRow::Sprite(1),
        ]
    );
    // A width below one still lays one glyph per row.
    let narrow = build_scroll_rows(&sections[..1].to_vec(), 0, 0);
    assert_eq!(narrow.len(), 1 + 5 + 1);
}
