//! `vector_text` draws text as sequences of 2-D pen-up/pen-down points
//! ("vector strokes"), suitable for plotters, laser projectors, or
//! oscilloscope displays.
//!
//! The crate decodes three unrelated stroke-font storage formats into one
//! uniform in-memory glyph representation:
//!
//! - the Borland Graphics Interface binary container (`.CHR` files),
//! - the Hershey stroke-font text format plus its codepoint-range mapping
//!   files,
//! - the NewStroke symbol-library format, whose glyphs are assembled from
//!   primitive strokes, named anchor points and algebraic transforms.
//!
//! Each decoder produces a [`glyph::FontTable`]; the renderers then turn a
//! text string and a table into a point sequence with horizontal advance.

use vstd::prelude::*;

pub mod borland;
pub mod glyph;
pub mod hershey;
pub mod newstroke;
pub mod render;
pub mod text;

use crate::glyph::{FontTable, GlyphView, Point};
use crate::hershey::HersheyFace;
use crate::render::{points_view, resolved_in_range, spec_render, Renderer};

verus! {

/// A font using any of the supported vector font formats, paired with the
/// decoded tables it draws from.
pub enum VectorFont<'a> {
    /// A Hershey glyph table together with one face's codepoint mapping.
    HersheyFont(HersheyFace<'a>),
    /// A Borland glyph table, indexed directly by codepoint.
    BorlandFont(&'a FontTable),
    /// A NewStroke glyph table, indexed directly by codepoint.
    NewstrokeFont(&'a FontTable),
}

impl<'a> VectorFont<'a> {
    /// The per-character glyph resolution this font performs: the sequence
    /// of optional glyphs the renderer walks, one per input character.
    pub open spec fn spec_resolved(self, text: Seq<char>) -> Seq<Option<GlyphView>> {
        match self {
            VectorFont::HersheyFont(face) => crate::hershey::spec_resolve_text(text, face),
            VectorFont::BorlandFont(table) => crate::render::spec_resolve_direct(text, table@),
            VectorFont::NewstrokeFont(table) => crate::render::spec_resolve_direct(text, table@),
        }
    }
}

/// Render the given text string to a list of points using the specified
/// font.
pub fn render_text(text: &str, font: VectorFont<'_>) -> (r: Vec<Point>)
    requires
        resolved_in_range(font.spec_resolved(text@)),
    ensures
        points_view(r@) == spec_render(font.spec_resolved(text@)),
{
    match font {
        VectorFont::HersheyFont(face) => crate::hershey::HersheyRenderer::render_text(text, face),
        VectorFont::BorlandFont(table) => crate::borland::BorlandRenderer::render_text(
            text,
            table,
        ),
        VectorFont::NewstrokeFont(table) => crate::newstroke::NewstrokeRenderer::render_text(
            text,
            table,
        ),
    }
}

} // verus!
