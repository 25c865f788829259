use vector_text::borland::BorlandRenderer;
use vector_text::glyph::{FontTable, Glyph, PackedPoint, Point};
use vector_text::hershey::{HersheyFace, HersheyRenderer};
use vector_text::newstroke::NewstrokeRenderer;
use vector_text::render::Renderer;
use vector_text::{render_text, VectorFont};

fn small_table() -> FontTable {
    let mut table = FontTable::new(256);
    table.set(
        65,
        Glyph {
            left: 0,
            right: 10,
            strokes: vec![PackedPoint { x: 1, y: 1, pen: false }],
        },
    );
    table.set(
        66,
        Glyph {
            left: 2,
            right: 8,
            strokes: vec![
                PackedPoint { x: 3, y: 5, pen: false },
                PackedPoint { x: 4, y: 6, pen: true },
            ],
        },
    );
    table
}

#[test]
fn renderer_advance() {
    // glyph A has left=0, right=10; glyph B has left=2, right=8.
    // B's points land shifted by +10 relative to B's left-adjusted
    // origin, i.e. by 10-2=8 net relative to B's raw coordinates.
    let table = small_table();
    let points = BorlandRenderer::render_text("AB", &table);
    assert_eq!(
        points,
        vec![
            Point { x: 1, y: 1, pen: false },
            Point { x: 3 - 2 + 10, y: 5, pen: false },
            Point { x: 4 - 2 + 10, y: 6, pen: true },
        ]
    );
}

#[test]
fn renderer_skips_unknown_codepoints() {
    // a string with one unmapped character renders exactly like the
    // string with that character removed
    let table = small_table();
    let with_unknown = BorlandRenderer::render_text("A\u{7F}B", &table);
    let without = BorlandRenderer::render_text("AB", &table);
    assert_eq!(with_unknown, without);
    // codepoints beyond the table's domain are skipped the same way
    let far = BorlandRenderer::render_text("A\u{1F600}B", &table);
    assert_eq!(far, without);
}

#[test]
fn renderer_on_empty_text() {
    let table = small_table();
    let points = BorlandRenderer::render_text("", &table);
    assert!(points.is_empty());
}

#[test]
fn empty_table_renders_nothing() {
    let table = FontTable::new(0);
    let points = BorlandRenderer::render_text("anything at all", &table);
    assert!(points.is_empty());
}

#[test]
fn newstroke_renderer_matches_direct_lookup() {
    let table = small_table();
    let b = BorlandRenderer::render_text("BA", &table);
    let n = NewstrokeRenderer::render_text("BA", &table);
    assert_eq!(b, n);
}

#[test]
fn hershey_renderer_goes_through_mapping() {
    let mut glyphs = FontTable::new(4000);
    glyphs.set(
        7,
        Glyph {
            left: -1,
            right: 4,
            strokes: vec![PackedPoint { x: 2, y: 3, pen: false }],
        },
    );
    let mut mapping: Vec<u16> = vec![0; 256];
    mapping[65] = 7;
    let face = HersheyFace { glyphs: &glyphs, mapping: &mapping };
    let points = HersheyRenderer::render_text("AA", face);
    assert_eq!(
        points,
        vec![
            Point { x: 3, y: 3, pen: false },
            Point { x: 2 + 1 + 5, y: 3, pen: false },
        ]
    );
    // 'B' maps to ID 0: no glyph, no advance
    let skipped = HersheyRenderer::render_text("BA", face);
    assert_eq!(skipped, vec![Point { x: 3, y: 3, pen: false }]);
}

#[test]
fn dispatch_matches_each_renderer() {
    let table = small_table();
    let direct = BorlandRenderer::render_text("AB", &table);
    let via_borland = render_text("AB", VectorFont::BorlandFont(&table));
    let via_newstroke = render_text("AB", VectorFont::NewstrokeFont(&table));
    assert_eq!(direct, via_borland);
    assert_eq!(direct, via_newstroke);

    let mut glyphs = FontTable::new(4000);
    glyphs.set(
        7,
        Glyph {
            left: 0,
            right: 1,
            strokes: vec![PackedPoint { x: 0, y: 0, pen: false }],
        },
    );
    let mut mapping: Vec<u16> = vec![0; 256];
    mapping[88] = 7;
    let face = HersheyFace { glyphs: &glyphs, mapping: &mapping };
    let direct_h = HersheyRenderer::render_text("X", face);
    let via_h = render_text("X", VectorFont::HersheyFont(face));
    assert_eq!(direct_h, via_h);
}
