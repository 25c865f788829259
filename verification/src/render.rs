//! The format-agnostic renderer: given a text string and a per-character
//! glyph resolution, produce the final point sequence with horizontal
//! advance.
//!
//! For each character in input order, the glyph's stroke points are emitted
//! translated so that `x = point.x - glyph.left + running_x` and
//! `y = point.y`, and the pen then advances by `glyph.right - glyph.left`.
//! Characters that resolve to no glyph are skipped entirely: zero width, no
//! points. `running_x` starts at 0 and is never reset mid-string.

use vstd::prelude::*;
use vstd::string::StrSliceExecFns;

use crate::glyph::{FontTable, Glyph, GlyphView, PackedPoint, Point};

verus! {

/// How far the pen advances after drawing a glyph.
pub open spec fn spec_advance(g: GlyphView) -> int {
    g.right - g.left
}

/// The mathematical value of one output point: its coordinates as
/// unbounded integers, and the pen flag.
pub open spec fn point_view(p: Point) -> (int, int, bool) {
    (p.x as int, p.y as int, p.pen)
}

/// The mathematical value of an output point sequence.
pub open spec fn points_view(ps: Seq<Point>) -> Seq<(int, int, bool)> {
    ps.map(|i: int, p: Point| point_view(p))
}

/// The points one glyph contributes when drawn with the pen at `x_idx`:
/// each stroke point shifted so the glyph's left bearing lands on `x_idx`.
/// Coordinates are unbounded integers; fitting them into [`Point`] is the
/// renderer's proof obligation.
pub open spec fn spec_glyph_points(g: GlyphView, x_idx: int) -> Seq<(int, int, bool)> {
    g.strokes.map(|i: int, p: PackedPoint| (p.x - g.left + x_idx, p.y as int, p.pen))
}

/// The full rendering of a resolved glyph sequence, starting with the pen
/// at `x_idx`. Unresolved characters contribute nothing and advance nothing.
pub open spec fn spec_render_from(gs: Seq<Option<GlyphView>>, x_idx: int) -> Seq<(int, int, bool)>
    decreases gs.len(),
{
    if gs.len() == 0 {
        Seq::empty()
    } else {
        match gs[0] {
            None => spec_render_from(gs.drop_first(), x_idx),
            Some(g) => spec_glyph_points(g, x_idx) + spec_render_from(
                gs.drop_first(),
                x_idx + spec_advance(g),
            ),
        }
    }
}

/// The rendering of a resolved glyph sequence with the pen starting at 0.
pub open spec fn spec_render(gs: Seq<Option<GlyphView>>) -> Seq<(int, int, bool)> {
    spec_render_from(gs, 0)
}

/// The pen position after the first `k` resolved characters.
pub open spec fn spec_x_before(gs: Seq<Option<GlyphView>>, k: int) -> int
    decreases k,
{
    if k <= 0 {
        0
    } else {
        spec_x_before(gs, k - 1) + match gs[k - 1] {
            Some(g) => spec_advance(g),
            None => 0,
        }
    }
}

/// Every point this glyph would emit with the pen at `x_idx` has an x
/// coordinate representable as an `i16`.
pub open spec fn glyph_points_in_range(g: GlyphView, x_idx: int) -> bool {
    forall|j: int|
        0 <= j < g.strokes.len() ==> i16::MIN <= (#[trigger] g.strokes[j]).x - g.left + x_idx
            <= i16::MAX
}

/// The rendering of `gs` stays within `i16` range throughout: every running
/// pen position and every emitted x coordinate is representable. This is
/// the machine limit [`Point`] imposes; y coordinates always fit.
pub open spec fn resolved_in_range(gs: Seq<Option<GlyphView>>) -> bool {
    &&& forall|k: int|
        0 <= k <= gs.len() ==> i16::MIN <= #[trigger] spec_x_before(gs, k) <= i16::MAX
    &&& forall|k: int|
        0 <= k < gs.len() && gs[k] is Some ==> glyph_points_in_range(
            (#[trigger] gs[k])->0,
            spec_x_before(gs, k),
        )
}

/// The mathematical value of a borrowed resolution, slot by slot.
pub open spec fn view_resolved(v: Seq<Option<&Glyph>>) -> Seq<Option<GlyphView>> {
    v.map(|i: int, og: Option<&Glyph>| match og {
        Some(g) => Some(g@),
        None => None,
    })
}

/// A lenient table lookup: out-of-range codepoints and absent slots both
/// resolve to no glyph.
pub open spec fn spec_lookup(t: Seq<Option<GlyphView>>, cp: int) -> Option<GlyphView> {
    if 0 <= cp < t.len() {
        t[cp]
    } else {
        None
    }
}

/// The resolution a direct-indexed table performs: each character's
/// codepoint looked up as a slot index.
pub open spec fn spec_resolve_direct(text: Seq<char>, t: Seq<Option<GlyphView>>) -> Seq<
    Option<GlyphView>,
> {
    text.map(|i: int, c: char| spec_lookup(t, c as int))
}

/// Resolve each character of `text` by direct table lookup.
pub fn resolve_direct<'a>(text: &str, table: &'a FontTable) -> (r: Vec<Option<&'a Glyph>>)
    ensures
        view_resolved(r@) == spec_resolve_direct(text@, table@),
{
    let n = text.unicode_len();
    let mut r: Vec<Option<&'a Glyph>> = Vec::new();
    let mut i: usize = 0;
    proof {
        assert(view_resolved(r@) =~= spec_resolve_direct(text@, table@).take(0));
    }
    while i < n
        invariant
            n == text@.len(),
            i <= n,
            view_resolved(r@) == spec_resolve_direct(text@, table@).take(i as int),
        decreases n - i,
    {
        let c = text.get_char(i);
        let cp = c as u32;
        let g = table.lookup(cp as usize);
        let ghost old_r = r@;
        r.push(g);
        proof {
            assert(r@ =~= old_r.push(g));
            assert(view_resolved(r@) =~= view_resolved(old_r).push(match g {
                Some(gl) => Some(gl@),
                None => None,
            }));
            assert(spec_lookup(table@, c as int) == (match g {
                Some(gl) => Some(gl@),
                None => None,
            }));
            assert(view_resolved(r@) =~= spec_resolve_direct(text@, table@).take(i as int + 1));
        }
        i = i + 1;
    }
    proof {
        assert(spec_resolve_direct(text@, table@).take(n as int) =~= spec_resolve_direct(
            text@,
            table@,
        ));
    }
    r
}

/// Allows rendering text into vector points.
///
/// Implementors define their own font mapping; `spec_resolved` is the
/// per-character glyph resolution that mapping performs, and `render_text`
/// returns exactly the rendering of that resolution.
pub trait Renderer<Mapping> {
    /// The sequence of optional glyphs the mapping assigns to the text, one
    /// per character in input order.
    spec fn spec_resolved(text: Seq<char>, mapping: Mapping) -> Seq<Option<GlyphView>>;

    /// Render the given text string to a series of points, using the given
    /// font mapping.
    fn render_text(text: &str, mapping: Mapping) -> (r: Vec<Point>)
        requires
            resolved_in_range(Self::spec_resolved(text@, mapping)),
        ensures
            points_view(r@) == spec_render(Self::spec_resolved(text@, mapping)),
    ;
}

/// Rendering one resolved glyph after another places the second glyph's
/// points with the pen advanced by exactly the first glyph's advance
/// width: for glyphs A and B, B's points land shifted by
/// `A.right - A.left` on the x axis, relative to B's own left-adjusted
/// origin.
pub proof fn lemma_render_two(a: GlyphView, b: GlyphView)
    ensures
        spec_render(seq![Some(a), Some(b)]) == spec_glyph_points(a, 0) + spec_glyph_points(
            b,
            spec_advance(a),
        ),
{
    reveal_with_fuel(spec_render_from, 4);
    let gs = seq![Some(a), Some(b)];
    assert(gs.drop_first() =~= seq![Some(b)]);
    assert(seq![Some(b)].drop_first() =~= Seq::<Option<GlyphView>>::empty());
    assert(spec_render_from(seq![Some(b)], spec_advance(a)) =~= spec_glyph_points(
        b,
        spec_advance(a),
    ) + Seq::<(int, int, bool)>::empty());
    assert(spec_glyph_points(b, spec_advance(a)) + Seq::<(int, int, bool)>::empty()
        =~= spec_glyph_points(b, spec_advance(a)));
}

/// An unresolved character contributes nothing anywhere in the string:
/// rendering a sequence whose `i`-th character resolves to no glyph gives
/// exactly the rendering of the sequence with that character removed.
pub proof fn lemma_render_skip_none(gs: Seq<Option<GlyphView>>, i: int)
    requires
        0 <= i < gs.len(),
        gs[i] is None,
    ensures
        spec_render(gs.remove(i)) == spec_render(gs),
{
    lemma_render_from_remove_none(gs, i, 0);
}

/// Rendering a text with one unmapped character through a direct-indexed
/// table is exactly rendering the text with that character removed:
/// unknown codepoints have zero width and contribute no points.
pub proof fn lemma_render_unmapped_char(text: Seq<char>, t: Seq<Option<GlyphView>>, i: int)
    requires
        0 <= i < text.len(),
        spec_lookup(t, text[i] as int) is None,
    ensures
        spec_render(spec_resolve_direct(text.remove(i), t)) == spec_render(
            spec_resolve_direct(text, t),
        ),
{
    let gs = spec_resolve_direct(text, t);
    assert(spec_resolve_direct(text.remove(i), t) =~= gs.remove(i)) by {
        assert forall|k: int|
            0 <= k < text.len() - 1 implies spec_resolve_direct(text.remove(i), t)[k]
            == gs.remove(i)[k] by {
            if k < i {
                assert(text.remove(i)[k] == text[k]);
            } else {
                assert(text.remove(i)[k] == text[k + 1]);
            }
        }
    }
    assert(gs[i] is None);
    lemma_render_skip_none(gs, i);
}

/// The helper behind [`lemma_render_skip_none`]: removing an unresolved
/// slot changes nothing from any starting pen position.
proof fn lemma_render_from_remove_none(gs: Seq<Option<GlyphView>>, i: int, x: int)
    requires
        0 <= i < gs.len(),
        gs[i] is None,
    ensures
        spec_render_from(gs.remove(i), x) == spec_render_from(gs, x),
    decreases i,
{
    if i == 0 {
        assert(gs.remove(0) =~= gs.drop_first());
    } else {
        assert(gs.remove(i)[0] == gs[0]);
        assert(gs.remove(i).drop_first() =~= gs.drop_first().remove(i - 1));
        assert(gs.drop_first()[i - 1] == gs[i]);
        match gs[0] {
            None => {
                lemma_render_from_remove_none(gs.drop_first(), i - 1, x);
            },
            Some(g) => {
                lemma_render_from_remove_none(gs.drop_first(), i - 1, x + spec_advance(g));
            },
        }
    }
}

/// Mapping a sequence of output points commutes with appending one point.
proof fn lemma_points_view_push(ps: Seq<Point>, p: Point)
    ensures
        points_view(ps.push(p)) =~= points_view(ps).push(point_view(p)),
{
}

/// Render an already-resolved glyph sequence: the shared loop behind every
/// [`Renderer`] implementation.
pub fn render_resolved(resolved: &Vec<Option<&Glyph>>) -> (r: Vec<Point>)
    requires
        resolved_in_range(view_resolved(resolved@)),
    ensures
        points_view(r@) == spec_render(view_resolved(resolved@)),
{
    let ghost gs = view_resolved(resolved@);
    let mut result: Vec<Point> = Vec::new();
    let mut x_idx: i16 = 0;
    let n = resolved.len();
    let mut i: usize = 0;
    proof {
        assert(gs.skip(0) =~= gs);
        assert(points_view(result@) =~= Seq::<(int, int, bool)>::empty());
        assert(points_view(result@) + spec_render_from(gs, 0) =~= spec_render_from(gs, 0));
    }
    while i < n
        invariant
            n == resolved@.len(),
            gs == view_resolved(resolved@),
            resolved_in_range(gs),
            i <= n,
            x_idx == spec_x_before(gs, i as int),
            spec_render(gs) == points_view(result@) + spec_render_from(
                gs.skip(i as int),
                x_idx as int,
            ),
        decreases n - i,
    {
        let ghost pre = gs.skip(i as int);
        proof {
            assert(pre[0] == gs[i as int]);
            assert(pre.drop_first() =~= gs.skip(i as int + 1));
        }
        let ghost x0 = x_idx as int;
        match resolved[i] {
            None => {
                proof {
                    assert(gs[i as int] is None);
                    assert(spec_render_from(pre, x0) == spec_render_from(
                        gs.skip(i as int + 1),
                        x0,
                    ));
                    assert(spec_x_before(gs, i as int + 1) == spec_x_before(gs, i as int));
                }
            }
            Some(glyph) => {
                let ghost g = glyph@;
                proof {
                    assert(gs[i as int] == Some(g));
                    assert(glyph_points_in_range(g, x0));
                }
                let ghost old_points = points_view(result@);
                let m = glyph.strokes.len();
                let mut j: usize = 0;
                proof {
                    assert(old_points + spec_glyph_points(g, x0).take(0) =~= old_points);
                }
                while j < m
                    invariant
                        m == glyph.strokes@.len(),
                        j <= m,
                        glyph_points_in_range(g, x0),
                        g == glyph@,
                        x0 == x_idx as int,
                        points_view(result@) =~= old_points + spec_glyph_points(g, x0).take(
                            j as int,
                        ),
                    decreases m - j,
                {
                    let p = glyph.strokes[j];
                    proof {
                        assert(g.strokes[j as int] == p);
                        assert(spec_glyph_points(g, x0)[j as int] == (
                            p.x - g.left + x0,
                            p.y as int,
                            p.pen,
                        ));
                    }
                    let dx = p.x as i16 - glyph.left as i16;
                    let x = dx + x_idx;
                    let np = Point { x, y: p.y as i16, pen: p.pen };
                    proof {
                        lemma_points_view_push(result@, np);
                        assert(spec_glyph_points(g, x0).take(j + 1) =~= spec_glyph_points(
                            g,
                            x0,
                        ).take(j as int).push(spec_glyph_points(g, x0)[j as int]));
                        assert(points_view(result@.push(np)) =~= old_points + spec_glyph_points(
                            g,
                            x0,
                        ).take(j + 1));
                    }
                    result.push(np);
                    j = j + 1;
                }
                proof {
                    assert(spec_glyph_points(g, x0).take(m as int) =~= spec_glyph_points(g, x0));
                    assert(spec_render_from(pre, x0) == spec_glyph_points(g, x0)
                        + spec_render_from(gs.skip(i as int + 1), x0 + spec_advance(g)));
                    assert(spec_x_before(gs, i as int + 1) == x0 + spec_advance(g));
                    assert(i16::MIN <= spec_x_before(gs, i as int + 1) <= i16::MAX);
                    assert((old_points + spec_glyph_points(g, x0)) + spec_render_from(
                        gs.skip(i as int + 1),
                        x0 + spec_advance(g),
                    ) =~= old_points + (spec_glyph_points(g, x0) + spec_render_from(
                        gs.skip(i as int + 1),
                        x0 + spec_advance(g),
                    )));
                }
                let adv = glyph.right as i16 - glyph.left as i16;
                x_idx = x_idx + adv;
            }
        }
        i = i + 1;
    }
    proof {
        assert(gs.skip(n as int) =~= Seq::<Option<GlyphView>>::empty());
        assert(points_view(result@) + Seq::<(int, int, bool)>::empty() =~= points_view(result@));
    }
    result
}

} // verus!
