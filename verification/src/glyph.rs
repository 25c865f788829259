//! The shared glyph model: the data types every decoder produces and the
//! renderers consume.

use vstd::prelude::*;

verus! {

/// A stroke vertex in a compact, glyph-local coordinate space.
/// Used to store the points which make up an individual glyph.
#[derive(Debug, Copy, Clone, PartialEq, Eq, Structural)]
pub struct PackedPoint {
    /// X coordinate of this point
    pub x: i8,
    /// Y coordinate of this point
    pub y: i8,
    /// Should a line be drawn (i.e., "pen down") when moving to this point?
    pub pen: bool,
}

/// A single glyph (character) contained within a font: its strokes plus the
/// left/right side-bearings used to compute the horizontal advance.
#[derive(Debug, Clone)]
pub struct Glyph {
    /// Left coordinate boundary of this glyph
    pub left: i8,
    /// Right coordinate boundary of this glyph
    pub right: i8,
    /// Series of points which make up this glyph
    pub strokes: Vec<PackedPoint>,
}

/// The mathematical value of a [`Glyph`]: its bearings and the sequence of
/// its stroke points.
pub ghost struct GlyphView {
    pub left: i8,
    pub right: i8,
    pub strokes: Seq<PackedPoint>,
}

impl View for Glyph {
    type V = GlyphView;

    open spec fn view(&self) -> GlyphView {
        GlyphView { left: self.left, right: self.right, strokes: self.strokes@ }
    }
}

/// The mathematical value of a [`FontTable`]: one optional glyph per
/// codepoint slot.
pub open spec fn table_view(slots: Seq<Option<Glyph>>) -> Seq<Option<GlyphView>> {
    slots.map(|i: int, og: Option<Glyph>| match og {
        Some(g) => Some(g@),
        None => None,
    })
}

/// A fixed-size mapping from codepoint to optional glyph. Absence means "no
/// glyph defined for this codepoint"; lookups outside the table's range are
/// treated the same as absent slots.
pub struct FontTable {
    slots: Vec<Option<Glyph>>,
}

impl View for FontTable {
    type V = Seq<Option<GlyphView>>;

    closed spec fn view(&self) -> Seq<Option<GlyphView>> {
        table_view(self.slots@)
    }
}

impl FontTable {
    /// A table of `n` empty slots.
    pub fn new(n: usize) -> (r: FontTable)
        ensures
            r@.len() == n,
            forall|i: int| 0 <= i < n ==> r@[i] is None,
    {
        let mut slots: Vec<Option<Glyph>> = Vec::new();
        let mut k: usize = 0;
        while k < n
            invariant
                k <= n,
                slots@.len() == k,
                forall|i: int| 0 <= i < k ==> slots@[i] is None,
            decreases n - k,
        {
            slots.push(None);
            k = k + 1;
        }
        let r = FontTable { slots };
        assert forall|i: int| 0 <= i < n implies r@[i] is None by {
            assert(r@[i] == table_view(slots@)[i]);
        }
        r
    }

    /// The number of codepoint slots.
    pub fn len(&self) -> (n: usize)
        ensures
            n == self@.len(),
    {
        self.slots.len()
    }

    /// Store a glyph at codepoint `cp`, replacing whatever the slot held.
    pub fn set(&mut self, cp: usize, g: Glyph)
        requires
            cp < old(self)@.len(),
        ensures
            final(self)@ =~= old(self)@.update(cp as int, Some(g@)),
    {
        self.slots.set(cp, Some(g));
    }

    /// Look up the glyph for a codepoint. Out-of-range codepoints and empty
    /// slots both yield `None`; a lookup never fails.
    pub fn lookup(&self, cp: usize) -> (r: Option<&Glyph>)
        ensures
            match r {
                Some(g) => cp < self@.len() && self@[cp as int] == Some(g@),
                None => cp >= self@.len() || self@[cp as int] is None,
            },
    {
        if cp < self.slots.len() {
            match &self.slots[cp] {
                Some(g) => Some(g),
                None => None,
            }
        } else {
            None
        }
    }
}

/// Representation of a point with higher range than [`PackedPoint`].
/// Used for the output of text rendering, where successive glyphs'
/// coordinates accumulate along the advance axis.
#[derive(Debug, Copy, Clone, PartialEq, Eq, Structural)]
pub struct Point {
    pub x: i16,
    pub y: i16,
    pub pen: bool,
}

impl Default for Point {
    /// The origin, with the pen up.
    fn default() -> (r: Self)
        ensures
            r.x == 0,
            r.y == 0,
            !r.pen,
    {
        Self { x: 0, y: 0, pen: false }
    }
}

} // verus!
