//! The graphic picker's text side: reading the glyph sections out of the
//! atlas section text, the sprite options it offers, and how section titles
//! and glyphs are shown.

use vstd::prelude::*;
use crate::text::{chars_of, string_of, owned};
use crate::canvas::{CellGraphic, same_graphic, same_graphic_spec};

verus! {

/// One titled run of glyphs.
#[derive(Debug, Clone, PartialEq, Eq)]
pub struct GlyphSection {
    pub title: String,
    pub glyphs: Vec<char>,
}

/// One sprite the picker offers: the asset path and its short label.
#[derive(Debug, Clone, PartialEq, Eq)]
pub struct SpriteOption {
    pub label: String,
    pub path: String,
}

/// How many leading characters of `s` satisfy `p`.
pub open spec fn run_len(s: Seq<char>, p: spec_fn(char) -> bool) -> nat
    decreases s.len(),
{
    if s.len() == 0 {
        0
    } else if p(s[0]) {
        1 + run_len(s.drop_first(), p)
    } else {
        0
    }
}

proof fn lemma_run_len(s: Seq<char>, p: spec_fn(char) -> bool, k: int)
    requires
        0 <= k <= s.len(),
        forall|j: int| 0 <= j < k ==> p(#[trigger] s[j]),
        k == s.len() || !p(s[k]),
    ensures
        run_len(s, p) == k,
    decreases k,
{
    if k > 0 {
        let t = s.drop_first();
        assert forall|j: int| 0 <= j < k - 1 implies p(#[trigger] t[j]) by {
            assert(t[j] == s[j + 1]);
        }
        if k < s.len() {
            assert(t[k - 1] == s[k]);
        }
        lemma_run_len(t, p, k - 1);
    }
}

/// Characters that are not a line feed.
pub open spec fn not_newline() -> spec_fn(char) -> bool {
    |c: char| c != '\n'
}

/// A line without the carriage return of a `\r\n` ending.
pub open spec fn strip_cr(l: Seq<char>) -> Seq<char> {
    if l.len() > 0 && l.last() == '\r' { l.drop_last() } else { l }
}

/// The lines of a text as `str::lines` yields them: split at `\n`, a
/// `\r` before the `\n` dropped, no empty line after a final `\n`, and a
/// last line without `\n` kept as it is.
pub open spec fn text_lines(s: Seq<char>) -> Seq<Seq<char>>
    decreases s.len(),
{
    if s.len() == 0 {
        Seq::empty()
    } else {
        let k = run_len(s, not_newline());
        if k >= s.len() {
            seq![s]
        } else {
            seq![strip_cr(s.take(k as int))] + text_lines(s.skip(k as int + 1))
        }
    }
}

/// Characters allowed in a section title.
pub open spec fn title_char() -> spec_fn(char) -> bool {
    |c: char| ('a' <= c && c <= 'z') || ('A' <= c && c <= 'Z') || ('0' <= c && c <= '9') || c == '_'
}

/// A section as values: its title and its glyphs.
pub open spec fn section_view(g: GlyphSection) -> (Seq<char>, Seq<char>) {
    (g.title@, g.glyphs@)
}

/// One line of the section text read against the sections so far and the
/// title waiting for its glyph line. Empty lines are skipped; a line whose
/// head before the first `:` is a non-empty run of title characters is a
/// title (waiting when nothing follows the `:`, a whole section when glyphs
/// do); any other line is the glyph line of the waiting title, or skipped
/// when no title waits.
pub open spec fn glyph_step(state: (Seq<(Seq<char>, Seq<char>)>, Option<Seq<char>>), line: Seq<char>)
    -> (Seq<(Seq<char>, Seq<char>)>, Option<Seq<char>>) {
    let (sections, pending) = state;
    let t = run_len(line, title_char());
    if line.len() == 0 {
        state
    } else if 0 < t < line.len() && line[t as int] == ':' {
        if t + 1 == line.len() {
            (sections, Some(line.take(t as int)))
        } else {
            (sections.push((line.take(t as int), line.skip(t as int + 1))), pending)
        }
    } else {
        match pending {
            Some(title) => (sections.push((title, line)), None),
            None => state,
        }
    }
}

/// The reading state after a run of lines.
pub open spec fn glyph_fold(lines: Seq<Seq<char>>) -> (Seq<(Seq<char>, Seq<char>)>, Option<Seq<char>>)
    decreases lines.len(),
{
    if lines.len() == 0 {
        (Seq::empty(), None)
    } else {
        glyph_step(glyph_fold(lines.drop_last()), lines.last())
    }
}

/// The glyph sections of a section text.
pub open spec fn glyph_sections_spec(text: Seq<char>) -> Seq<(Seq<char>, Seq<char>)> {
    glyph_fold(text_lines(text)).0
}

fn sub_chars(v: &Vec<char>, a: usize, b: usize) -> (r: Vec<char>)
    requires
        a <= b <= v@.len(),
    ensures
        r@ == v@.subrange(a as int, b as int),
{
    let mut out: Vec<char> = Vec::new();
    let mut i = a;
    while i < b
        invariant
            a <= i <= b <= v@.len(),
            out@ == v@.subrange(a as int, i as int),
        decreases b - i,
    {
        out.push(v[i]);
        i = i + 1;
    }
    out
}

fn is_title_char(c: char) -> (r: bool)
    ensures
        r == title_char()(c),
{
    ('a' <= c && c <= 'z') || ('A' <= c && c <= 'Z') || ('0' <= c && c <= '9') || c == '_'
}

/// Applies one line to the reading state.
fn read_line(sections: &mut Vec<GlyphSection>, pending: &mut Option<Vec<char>>, line: Vec<char>)
    ensures
        ({
            let before = (old(sections)@.map_values(|g: GlyphSection| section_view(g)), match *old(pending) {
                Some(t) => Some(t@),
                None => None,
            });
            let after = (final(sections)@.map_values(|g: GlyphSection| section_view(g)), match *final(pending) {
                Some(t) => Some(t@),
                None => None,
            });
            after == glyph_step(before, line@)
        }),
{
    let n = line.len();
    let mut t: usize = 0;
    while t < n && is_title_char(line[t])
        invariant
            t <= n == line@.len(),
            forall|j: int| 0 <= j < t ==> title_char()(#[trigger] line@[j]),
        decreases n - t,
    {
        t = t + 1;
    }
    proof {
        lemma_run_len(line@, title_char(), t as int);
    }
    let ghost s0 = sections@;
    if n == 0 {
        return;
    }
    if 0 < t && t < n && line[t] == ':' {
        let title = sub_chars(&line, 0, t);
        if t + 1 == n {
            *pending = Some(title);
            proof {
                assert(title@ == line@.take(t as int));
            }
        } else {
            let glyphs = sub_chars(&line, t + 1, n);
            sections.push(GlyphSection { title: string_of(&title), glyphs });
            proof {
                assert(sections@.map_values(|g: GlyphSection| section_view(g)) =~= s0.map_values(|g: GlyphSection| section_view(g)).push(
                    (line@.take(t as int), line@.skip(t as int + 1))));
            }
        }
        return;
    }
    match pending.take() {
        Some(title) => {
            sections.push(GlyphSection { title: string_of(&title), glyphs: line });
            proof {
                assert(sections@.map_values(|g: GlyphSection| section_view(g)) =~= s0.map_values(|g: GlyphSection| section_view(g)).push(
                    (title@, line@)));
            }
        },
        None => {},
    }
}

/// Reads the glyph sections out of the atlas section text. A title sits on
/// its own line (`symbols:`) or is glued to its glyph line (`borders:━┃`);
/// only an ASCII identifier before the `:` counts as a title, so glyph
/// lines that merely hold a `:` stay glyphs of the waiting section.
pub fn parse_supported_glyph_sections(text: &str) -> (r: Vec<GlyphSection>)
    ensures
        r@.map_values(|g: GlyphSection| section_view(g)) == glyph_sections_spec(text@),
{
    let cs = chars_of(text);
    let n = cs.len();
    let mut sections: Vec<GlyphSection> = Vec::new();
    let mut pending: Option<Vec<char>> = None;
    let mut pos: usize = 0;
    let ghost mut done: Seq<Seq<char>> = Seq::empty();
    proof {
        assert(cs@.skip(0) =~= cs@);
        assert(done + text_lines(cs@.skip(0)) =~= text_lines(cs@));
    }
    while pos < n
        invariant
            n == cs@.len(),
            pos <= n,
            cs@ == text@,
            done + text_lines(cs@.skip(pos as int)) == text_lines(cs@),
            (sections@.map_values(|g: GlyphSection| section_view(g)), match pending {
                Some(t) => Some(t@),
                None => None,
            }) == glyph_fold(done),
        decreases n - pos,
    {
        let mut j = pos;
        while j < n && cs[j] != '\n'
            invariant
                pos <= j <= n == cs@.len(),
                forall|k: int| pos <= k < j ==> cs@[k] != '\n',
            decreases n - j,
        {
            j = j + 1;
        }
        let ghost rest = cs@.skip(pos as int);
        proof {
            assert forall|k: int| 0 <= k < j - pos implies not_newline()(#[trigger] rest[k]) by {
                assert(rest[k] == cs@[pos + k]);
            }
            if j < n {
                assert(rest[j - pos] == cs@[j as int]);
            }
            lemma_run_len(rest, not_newline(), j - pos);
        }
        let mut line = sub_chars(&cs, pos, j);
        let ghost line_view = if j >= n { rest } else { strip_cr(rest.take(j - pos)) };
        if j < n && line.len() > 0 && line[line.len() - 1] == '\r' {
            line.pop();
        }
        proof {
            assert(rest.take(j - pos) =~= cs@.subrange(pos as int, j as int));
            if j >= n {
                assert(rest =~= cs@.subrange(pos as int, j as int));
            }
            assert(line@ == line_view);
            if j < n {
                assert(rest.skip(j - pos + 1) =~= cs@.skip(j + 1));
                assert(text_lines(rest) == seq![line_view] + text_lines(cs@.skip(j + 1)));
            } else {
                assert(text_lines(rest) == seq![line_view]);
                assert(cs@.skip(n as int) =~= Seq::<char>::empty());
            }
        }
        let ghost prev = done;
        read_line(&mut sections, &mut pending, line);
        proof {
            done = done.push(line_view);
            assert(done.drop_last() =~= prev);
            if j < n {
                assert(done + text_lines(cs@.skip(j + 1)) =~= prev + text_lines(rest));
            } else {
                assert(done + text_lines(cs@.skip(n as int)) =~= prev + text_lines(rest));
            }
        }
        pos = if j < n { j + 1 } else { n };
    }
    proof {
        assert(cs@.skip(pos as int) =~= Seq::<char>::empty());
        assert(done =~= text_lines(cs@));
    }
    sections
}

/// The ASCII upper-case form of a character.
pub open spec fn ascii_upper(c: char) -> char {
    if 'a' <= c && c <= 'z' { ((c as u32) - 32) as char } else { c }
}

fn upper_char(c: char) -> (r: char)
    ensures
        r == ascii_upper(c),
{
    if 'a' <= c && c <= 'z' {
        let code: u8 = (c as u32 - 32) as u8;
        code as char
    } else {
        c
    }
}

/// A section title as the picker prints it: ASCII letters in upper case.
pub fn format_section_title(title: &str) -> (r: String)
    ensures
        r@ == title@.map_values(|c: char| ascii_upper(c)),
{
    let cs = chars_of(title);
    let mut out: Vec<char> = Vec::new();
    let mut i: usize = 0;
    while i < cs.len()
        invariant
            i <= cs@.len(),
            cs@ == title@,
            out@ == cs@.take(i as int).map_values(|c: char| ascii_upper(c)),
        decreases cs@.len() - i,
    {
        out.push(upper_char(cs[i]));
        proof {
            assert(cs@.take(i + 1).map_values(|c: char| ascii_upper(c)) =~= cs@.take(i as int).map_values(|c: char| ascii_upper(c)).push(ascii_upper(cs@[i as int])));
        }
        i = i + 1;
    }
    proof {
        assert(cs@.take(i as int) =~= cs@);
    }
    string_of(&out)
}

/// How a glyph is shown in the picker: a space as a middle dot.
pub fn display_glyph(glyph: char) -> (r: char)
    ensures
        r == (if glyph == ' ' { '·' } else { glyph }),
{
    if glyph == ' ' {
        '·'
    } else {
        glyph
    }
}

/// Whether `s` ends with `.png`.
pub open spec fn ends_png(s: Seq<char>) -> bool {
    s.len() >= 4 && s.skip(s.len() - 4) == seq!['.', 'p', 'n', 'g']
}

/// `s` with every trailing `.png` removed.
pub open spec fn trim_png(s: Seq<char>) -> Seq<char>
    decreases s.len(),
{
    if ends_png(s) { trim_png(s.take(s.len() - 4)) } else { s }
}

/// The part of a path after its last `/` (the whole path when it has none).
pub open spec fn last_segment(s: Seq<char>) -> Seq<char> {
    if exists|i: int| 0 <= i < s.len() && s[i] == '/' {
        let i = choose|i: int| 0 <= i < s.len() && s[i] == '/' && forall|k: int| i < k < s.len() ==> s[k] != '/';
        s.skip(i + 1)
    } else {
        s
    }
}

/// The label of a sprite path: its file name without `.png`.
pub open spec fn sprite_label_spec(path: Seq<char>) -> Seq<char> {
    trim_png(last_segment(path))
}

proof fn lemma_last_segment(s: Seq<char>, i: int)
    requires
        -1 <= i < s.len(),
        i >= 0 ==> s[i] == '/',
        forall|k: int| i < k < s.len() ==> s[k] != '/',
    ensures
        last_segment(s) == s.skip(i + 1),
{
    if i >= 0 {
        let j = choose|j: int| 0 <= j < s.len() && s[j] == '/' && forall|k: int| j < k < s.len() ==> s[k] != '/';
        if j < i {
            assert(s[i] != '/');
        }
        if i < j {
            assert(s[j] != '/');
        }
    } else {
        assert(s.skip(0) =~= s);
    }
}

fn sprite_label(path: &str) -> (r: String)
    ensures
        r@ == sprite_label_spec(path@),
{
    let cs = chars_of(path);
    let n = cs.len();
    let mut i = n;
    while i > 0 && cs[i - 1] != '/'
        invariant
            i <= n == cs@.len(),
            forall|k: int| i <= k < n ==> cs@[k] != '/',
        decreases i,
    {
        i = i - 1;
    }
    proof {
        lemma_last_segment(cs@, i - 1);
    }
    let mut end = n;
    proof {
        assert(cs@.subrange(i as int, n as int) =~= cs@.skip(i as int));
    }
    while end - i >= 4 && cs[end - 4] == '.' && cs[end - 3] == 'p' && cs[end - 2] == 'n' && cs[end - 1] == 'g'
        invariant
            i <= end <= n == cs@.len(),
            trim_png(cs@.subrange(i as int, end as int)) == trim_png(cs@.skip(i as int)),
            path@ == cs@,
        decreases end,
    {
        let ghost seg = cs@.subrange(i as int, end as int);
        proof {
            assert(seg.skip(seg.len() - 4) =~= seq!['.', 'p', 'n', 'g']);
            assert(seg.take(seg.len() - 4) =~= cs@.subrange(i as int, end - 4));
        }
        end = end - 4;
    }
    proof {
        let seg = cs@.subrange(i as int, end as int);
        if ends_png(seg) {
            assert(seg.skip(seg.len() - 4)[0] == cs@[end - 4]);
            assert(seg.skip(seg.len() - 4)[1] == cs@[end - 3]);
            assert(seg.skip(seg.len() - 4)[2] == cs@[end - 2]);
            assert(seg.skip(seg.len() - 4)[3] == cs@[end - 1]);
        }
    }
    string_of(&sub_chars(&cs, i, end))
}

fn sprite_option(path: &str) -> (r: SpriteOption)
    ensures
        r.path@ == path@,
        r.label@ == sprite_label_spec(path@),
{
    SpriteOption { label: sprite_label(path), path: owned(path) }
}

/// The sprites the picker offers, labelled by file name.
pub fn supported_sprites() -> (r: Vec<SpriteOption>)
    ensures
        r@.len() == 2,
        r@[0].path@ == "proofs/channel-bands.png"@,
        r@[0].label@ == sprite_label_spec("proofs/channel-bands.png"@),
        r@[1].path@ == "proofs/grass.png"@,
        r@[1].label@ == sprite_label_spec("proofs/grass.png"@),
{
    let mut out: Vec<SpriteOption> = Vec::new();
    out.push(sprite_option("proofs/channel-bands.png"));
    out.push(sprite_option("proofs/grass.png"));
    out
}

/// How many recently assigned graphics the picker recalls.
pub const RECENT_CAPACITY: usize = 10;

/// Keeps every graphic that does not show the same thing as `g`.
pub open spec fn other_than(g: CellGraphic) -> spec_fn(CellGraphic) -> bool {
    |x: CellGraphic| !same_graphic_spec(x, g)
}

/// The recall list after `graphic` is assigned: it moves to the front,
/// any earlier entry showing the same thing leaves, and only the first
/// `RECENT_CAPACITY` stay.
pub open spec fn recent_after(recent: Seq<CellGraphic>, graphic: CellGraphic) -> Seq<CellGraphic> {
    let all = seq![graphic] + recent.filter(other_than(graphic));
    if all.len() > RECENT_CAPACITY { all.take(RECENT_CAPACITY as int) } else { all }
}

/// Notes an assigned graphic in the most-recent-first recall list.
pub fn note_recent(recent: &mut Vec<CellGraphic>, graphic: &CellGraphic)
    ensures
        final(recent)@ == recent_after(old(recent)@, *graphic),
{
    let ghost before = recent@;
    let mut out: Vec<CellGraphic> = Vec::new();
    out.push(graphic.copy());
    let mut i: usize = 0;
    proof {
        reveal(Seq::filter);
        assert(before.take(0) =~= Seq::<CellGraphic>::empty());
        assert(out@ =~= seq![*graphic] + before.take(0).filter(other_than(*graphic)));
    }
    while i < recent.len()
        invariant
            recent@ == before,
            i <= before.len(),
            out@ == seq![*graphic] + before.take(i as int).filter(other_than(*graphic)),
        decreases before.len() - i,
    {
        let ghost prev = out@;
        let keep = !same_graphic(&recent[i], graphic);
        if keep {
            out.push(recent[i].copy());
        }
        proof {
            reveal(Seq::filter);
            let t = before.take(i + 1);
            assert(t.drop_last() =~= before.take(i as int));
            assert(t.last() == before[i as int]);
            if keep {
                assert(out@ =~= seq![*graphic] + before.take(i + 1).filter(other_than(*graphic)));
            } else {
                assert(out@ =~= seq![*graphic] + before.take(i + 1).filter(other_than(*graphic)));
            }
        }
        i = i + 1;
    }
    proof {
        assert(before.take(i as int) =~= before);
    }
    if out.len() > RECENT_CAPACITY {
        out.truncate(RECENT_CAPACITY);
    }
    *recent = out;
}

/// The recall list keeps the newest graphic first, holds at most
/// `RECENT_CAPACITY` graphics, and never shows the newest one twice.
pub proof fn law_recent_most_recent_first(recent: Seq<CellGraphic>, graphic: CellGraphic)
    ensures
        recent_after(recent, graphic)[0] == graphic,
        recent_after(recent, graphic).len() <= RECENT_CAPACITY,
        forall|i: int| 1 <= i < recent_after(recent, graphic).len()
            ==> !same_graphic_spec(#[trigger] recent_after(recent, graphic)[i], graphic),
{
    let f = recent.filter(other_than(graphic));
    let all = seq![graphic] + f;
    assert forall|i: int| 1 <= i < all.len() implies !same_graphic_spec(#[trigger] all[i], graphic) by {
        assert(all[i] == f[i - 1]);
        recent.lemma_filter_pred(other_than(graphic), i - 1);
    }
}

/// One scrolling row of the picker, top to bottom.
#[derive(Debug, Clone, PartialEq, Eq)]
pub enum ContentRow {
    SectionTitle(String),
    Glyphs(Vec<char>),
    /// The sprite option at this index.
    Sprite(usize),
}

/// A content row as values.
pub enum RowView {
    SectionTitle(Seq<char>),
    Glyphs(Seq<char>),
    Sprite(usize),
}

impl View for ContentRow {
    type V = RowView;
    open spec fn view(&self) -> RowView {
        match self {
            ContentRow::SectionTitle(t) => RowView::SectionTitle(t@),
            ContentRow::Glyphs(g) => RowView::Glyphs(g@),
            ContentRow::Sprite(i) => RowView::Sprite(*i),
        }
    }
}

/// The glyphs from index `start` on, cut into rows of `cols`.
pub open spec fn glyph_rows_from(glyphs: Seq<char>, cols: nat, start: int) -> Seq<RowView>
    decreases glyphs.len() - start,
{
    if cols == 0 || start < 0 || start >= glyphs.len() {
        Seq::empty()
    } else {
        let end = if start + cols < glyphs.len() { start + cols } else { glyphs.len() as int };
        seq![RowView::Glyphs(glyphs.subrange(start, end))] + glyph_rows_from(glyphs, cols, end)
    }
}

/// A section's rows: its title, then its glyphs in rows of `cols`.
pub open spec fn section_rows(section: GlyphSection, cols: nat) -> Seq<RowView> {
    seq![RowView::SectionTitle(section.title@)] + glyph_rows_from(section.glyphs@, cols, 0)
}

/// The rows of every section in order.
pub open spec fn sections_rows(sections: Seq<GlyphSection>, cols: nat) -> Seq<RowView>
    decreases sections.len(),
{
    if sections.len() == 0 {
        Seq::empty()
    } else {
        sections_rows(sections.drop_last(), cols) + section_rows(sections.last(), cols)
    }
}

/// Glyph rows are as wide as the content, at least one column.
pub open spec fn row_columns(content_width: i32) -> nat {
    if content_width < 1 { 1 } else { content_width as nat }
}

/// Every scrolling row: each glyph section, then the sprites as one more
/// section titled `sprites` with a row per sprite.
pub open spec fn scroll_rows_spec(sections: Seq<GlyphSection>, sprite_count: usize, content_width: i32) -> Seq<RowView> {
    sections_rows(sections, row_columns(content_width)) + seq![RowView::SectionTitle("sprites"@)]
        + Seq::new(sprite_count as nat, |k: int| RowView::Sprite(k as usize))
}

fn push_glyph_rows(out: &mut Vec<ContentRow>, glyphs: &Vec<char>, cols: usize)
    requires
        cols > 0,
    ensures
        final(out)@.map_values(|r: ContentRow| r@) == old(out)@.map_values(|r: ContentRow| r@) + glyph_rows_from(glyphs@, cols as nat, 0),
{
    let ghost base = old(out)@.map_values(|r: ContentRow| r@);
    let ghost g = glyphs@;
    let mut start: usize = 0;
    proof {
        assert(out@.map_values(|r: ContentRow| r@) =~= base + Seq::<RowView>::empty());
    }
    while start < glyphs.len()
        invariant
            cols > 0,
            g == glyphs@,
            base == old(out)@.map_values(|r: ContentRow| r@),
            start <= glyphs@.len() || start == 0,
            base + glyph_rows_from(g, cols as nat, 0) == out@.map_values(|r: ContentRow| r@) + glyph_rows_from(g, cols as nat, start as int),
        decreases glyphs@.len() - start,
    {
        let end: usize = if glyphs.len() - start > cols { start + cols } else { glyphs.len() };
        let mut row: Vec<char> = Vec::new();
        let mut k: usize = start;
        while k < end
            invariant
                start <= k <= end,
                end <= glyphs@.len(),
                row@ == g.subrange(start as int, k as int),
                g == glyphs@,
            decreases end - k,
        {
            row.push(glyphs[k]);
            proof {
                assert(g.subrange(start as int, k + 1) =~= g.subrange(start as int, k as int).push(g[k as int]));
            }
            k = k + 1;
        }
        let ghost prev = out@.map_values(|r: ContentRow| r@);
        out.push(ContentRow::Glyphs(row));
        proof {
            assert(out@.map_values(|r: ContentRow| r@) =~= prev.push(RowView::Glyphs(g.subrange(start as int, end as int))));
            let rest = glyph_rows_from(g, cols as nat, end as int);
            assert(glyph_rows_from(g, cols as nat, start as int) == seq![RowView::Glyphs(g.subrange(start as int, end as int))] + rest);
            assert(prev + glyph_rows_from(g, cols as nat, start as int)
                =~= prev.push(RowView::Glyphs(g.subrange(start as int, end as int))) + rest);
        }
        if end == glyphs.len() {
            proof {
                assert(glyph_rows_from(g, cols as nat, end as int) =~= Seq::<RowView>::empty());
                assert(out@.map_values(|r: ContentRow| r@) + glyph_rows_from(g, cols as nat, end as int)
                    =~= out@.map_values(|r: ContentRow| r@));
                assert(base + glyph_rows_from(g, cols as nat, 0) == out@.map_values(|r: ContentRow| r@));
                assert(g == glyphs@);
            }
            return;
        }
        start = end;
    }
    proof {
        assert(glyph_rows_from(g, cols as nat, start as int) =~= Seq::<RowView>::empty());
        assert(out@.map_values(|r: ContentRow| r@) + glyph_rows_from(g, cols as nat, start as int)
            =~= out@.map_values(|r: ContentRow| r@));
    }
}

/// The picker's scrolling rows for a content width: each glyph section's
/// title and its glyphs cut into rows as wide as the content, then a
/// `sprites` title and one row per sprite.
pub fn build_scroll_rows(sections: &Vec<GlyphSection>, sprite_count: usize, content_width: i32) -> (r: Vec<ContentRow>)
    ensures
        r@.map_values(|x: ContentRow| x@) == scroll_rows_spec(sections@, sprite_count, content_width),
{
    let cols: usize = if content_width < 1 { 1 } else { content_width as usize };
    let ghost c = row_columns(content_width);
    let mut out: Vec<ContentRow> = Vec::new();
    let mut i: usize = 0;
    proof {
        assert(sections@.take(0) =~= Seq::<GlyphSection>::empty());
        assert(out@.map_values(|x: ContentRow| x@) =~= sections_rows(sections@.take(0), c));
    }
    while i < sections.len()
        invariant
            cols > 0,
            cols as nat == c,
            i <= sections@.len(),
            out@.map_values(|x: ContentRow| x@) == sections_rows(sections@.take(i as int), c),
        decreases sections@.len() - i,
    {
        let ghost prev = out@.map_values(|x: ContentRow| x@);
        out.push(ContentRow::SectionTitle(sections[i].title.clone()));
        proof {
            assert(out@.map_values(|x: ContentRow| x@) =~= prev + seq![RowView::SectionTitle(sections@[i as int].title@)]);
        }
        push_glyph_rows(&mut out, &sections[i].glyphs, cols);
        proof {
            let t = sections@.take(i + 1);
            assert(t.drop_last() =~= sections@.take(i as int));
            assert(t.last() == sections@[i as int]);
            assert(out@.map_values(|x: ContentRow| x@) =~= sections_rows(t, c));
        }
        i = i + 1;
    }
    proof {
        assert(sections@.take(i as int) =~= sections@);
    }
    out.push(ContentRow::SectionTitle(owned("sprites")));
    let ghost head = sections_rows(sections@, c) + seq![RowView::SectionTitle("sprites"@)];
    proof {
        assert(out@.map_values(|x: ContentRow| x@) =~= head);
    }
    let mut k: usize = 0;
    while k < sprite_count
        invariant
            k <= sprite_count,
            out@.map_values(|x: ContentRow| x@) == head + Seq::new(k as nat, |j: int| RowView::Sprite(j as usize)),
        decreases sprite_count - k,
    {
        let ghost prev = out@.map_values(|x: ContentRow| x@);
        out.push(ContentRow::Sprite(k));
        proof {
            let f = |j: int| RowView::Sprite(j as usize);
            assert(Seq::new((k + 1) as nat, f) =~= Seq::new(k as nat, f).push(RowView::Sprite(k)));
            assert(out@.map_values(|x: ContentRow| x@) =~= prev.push(RowView::Sprite(k)));
            assert(head + Seq::new((k + 1) as nat, f) =~= (head + Seq::new(k as nat, f)).push(RowView::Sprite(k)));
        }
        k = k + 1;
    }
    out
}

} // verus!
