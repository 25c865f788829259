//! Composer for the NewStroke font: symbol-library parsing, sigil-selected
//! transforms, anchor-based accent placement, the character-list script
//! that builds the final glyph table, and the renderer over it.
//!
//! A library file defines named symbols (`DEF .. P .. X .. ENDDEF`) whose
//! raw coordinates are scaled down by 50 and clamped into the 8-bit glyph
//! space. The character-list script then assigns glyphs to codepoints,
//! either from a single (possibly transformed) symbol or by composing a
//! base symbol with an accent symbol aligned at named anchor points.

use vstd::prelude::*;

use crate::glyph::{FontTable, Glyph, GlyphView, PackedPoint, Point};
use crate::render::{render_resolved, resolve_direct, spec_resolve_direct, Renderer};
use crate::text::{
    bytes_eq, copy_range, find_byte, find_byte_from, kw, parse_i32, parse_sint, parse_u64_from,
    parse_uint, spec_join, spec_lines, spec_tokens, spec_trim, split_lines, token_is, tokenize,
    trim,
};

verus! {

/// How many codepoint slots the NewStroke table has.
pub const NEWSTROKE_SLOTS: usize = 0x2800;

/// The fixed divisor between library coordinates and glyph coordinates.
pub const SCALE: i32 = 50;

/// The fixed baseline shift added to every rendered Y coordinate.
pub const BASE: i8 = 9;

/// Vertical flip offset at x-height.
pub const X_HEIGHT: i8 = -14;

/// Vertical flip offset at cap-height.
pub const CAP_HEIGHT: i8 = -21;

/// Vertical flip offset at symbol-height.
pub const SYM_HEIGHT: i8 = -16;

/// Vertical offset for superscripts.
pub const SUP_OFFSET: i8 = -13;

/// Vertical offset for subscripts.
pub const SUB_OFFSET: i8 = 6;

/// Why building the NewStroke table failed. The `usize` is the 1-based
/// line number of the offending input line.
#[derive(Debug, Clone, Copy, PartialEq, Eq, Structural)]
pub enum NsError {
    /// A `DEF` opened while another symbol was still open.
    NestedDef(usize),
    /// A `DEF` without a symbol name.
    MalformedDef(usize),
    /// A `P` stroke line outside any `DEF` block.
    StrayPoint(usize),
    /// A `P` line without a point count.
    MalformedPoint(usize),
    /// A `P` line without a parsable point count.
    InvalidCount(usize),
    /// A `P` or `X` line ran out of coordinate fields.
    MissingCoord(usize),
    /// A `P` or `X` coordinate field did not parse as an integer.
    InvalidCoord(usize),
    /// An `X` anchor line without a pin name.
    MalformedAnchor(usize),
    /// An `X` anchor line outside any `DEF` block.
    StrayAnchor(usize),
    /// An `ENDDEF` without an open `DEF` block.
    StrayEnd(usize),
    /// A library file ended inside an open `DEF` block.
    UnterminatedDef,
    /// A `startchar` without a value.
    MissingStartchar(usize),
    /// A `startchar` whose value did not parse.
    InvalidStartchar(usize),
    /// A `startchar` outside the table range.
    StartcharOutOfRange(usize),
    /// A `+` command without a symbol name.
    MissingGlyphName(usize),
    /// A composition's base symbol is not in the library.
    UnknownBaseSymbol(usize),
    /// A composition's accent symbol is not in the library.
    UnknownAccentSymbol(usize),
    /// The anchor named by a composition is missing on the base symbol.
    MissingBaseAnchor(usize),
    /// A built glyph's coordinates left the 8-bit glyph space.
    GlyphRange(usize),
    /// A `skipcodes` without a value.
    MissingSkipcodes(usize),
    /// A `skipcodes` whose value did not parse.
    InvalidSkipcodes(usize),
    /// A script line opening with an unknown command.
    UnsupportedCommand(usize),
}

/// A soft, recoverable issue met while building the table: the affected
/// slot is left absent and the build goes on.
#[derive(Debug, Clone, Copy, PartialEq, Eq, Structural)]
pub enum NsDiag {
    /// A recognized but unimplemented `+` command form was skipped.
    UnsupportedForm(usize),
    /// A single-symbol glyph named a symbol the library does not hold.
    UnknownSymbol(usize),
}

/// A named primitive symbol: its strokes as raw scaled-down coordinate
/// pairs, its side-bearings, and its named anchor points.
pub struct RawSymbol {
    /// Symbol name, as written after `DEF`.
    pub name: Vec<u8>,
    /// Vector strokes: one inner vector of points per stroke.
    pub strokes: Vec<Vec<(i8, i8)>>,
    /// Left side bearing.
    pub left: i8,
    /// Right side bearing.
    pub right: i8,
    /// Anchor points (`ABOVE`, `BELOW`, and the like), latest first on
    /// name collisions.
    pub anchors: Vec<(Vec<u8>, (i8, i8))>,
}

/// The mathematical value of a [`RawSymbol`].
pub ghost struct SymbolView {
    pub name: Seq<u8>,
    pub strokes: Seq<Seq<(i8, i8)>>,
    pub left: i8,
    pub right: i8,
    pub anchors: Seq<(Seq<u8>, (i8, i8))>,
}

impl View for RawSymbol {
    type V = SymbolView;

    open spec fn view(&self) -> SymbolView {
        SymbolView {
            name: self.name@,
            strokes: self.strokes.deep_view(),
            left: self.left,
            right: self.right,
            anchors: self.anchors.deep_view(),
        }
    }
}

/// The mathematical value of a symbol table.
pub open spec fn table_view(tbl: Seq<RawSymbol>) -> Seq<SymbolView> {
    tbl.map(|i: int, s: RawSymbol| s@)
}

/// The symbol a name selects: the latest definition wins, as a later
/// library file or a later `DEF` overrides an earlier one.
pub open spec fn sym_lookup(tbl: Seq<SymbolView>, name: Seq<u8>) -> Option<SymbolView>
    decreases tbl.len(),
{
    if tbl.len() == 0 {
        None
    } else if tbl.last().name == name {
        Some(tbl.last())
    } else {
        sym_lookup(tbl.drop_last(), name)
    }
}

/// The coordinates an anchor name selects, latest definition first.
pub open spec fn anchor_lookup(anchors: Seq<(Seq<u8>, (i8, i8))>, name: Seq<u8>) -> Option<
    (i8, i8),
>
    decreases anchors.len(),
{
    if anchors.len() == 0 {
        None
    } else if anchors.last().0 == name {
        Some(anchors.last().1)
    } else {
        anchor_lookup(anchors.drop_last(), name)
    }
}

/// Look up a symbol by name, latest definition first.
fn lookup_symbol<'a>(tbl: &'a Vec<RawSymbol>, name: &[u8]) -> (r: Option<&'a RawSymbol>)
    ensures
        match r {
            Some(s) => sym_lookup(table_view(tbl@), name@) == Some(s@),
            None => sym_lookup(table_view(tbl@), name@) is None,
        },
{
    let ghost tv = table_view(tbl@);
    proof {
        assert(tv.take(tbl@.len() as int) =~= tv);
    }
    let mut i = tbl.len();
    while i > 0
        invariant
            tv == table_view(tbl@),
            i <= tbl@.len(),
            sym_lookup(tv, name@) == sym_lookup(tv.take(i as int), name@),
        decreases i,
    {
        i = i - 1;
        let cand = &tbl[i];
        proof {
            assert(tv.take(i + 1).last() == tv[i as int]);
            assert(tv.take(i + 1).drop_last() =~= tv.take(i as int));
        }
        if bytes_eq(cand.name.as_slice(), name) {
            return Some(cand);
        }
    }
    proof {
        assert(tv.take(0) =~= Seq::<SymbolView>::empty());
    }
    None
}

/// Look up an anchor by pin name, latest definition first.
fn lookup_anchor(anchors: &Vec<(Vec<u8>, (i8, i8))>, name: &[u8]) -> (r: Option<(i8, i8)>)
    ensures
        r == anchor_lookup(anchors.deep_view(), name@),
{
    let ghost av = anchors.deep_view();
    proof {
        assert(av.len() == anchors@.len());
        assert(forall|k: int|
            0 <= k < anchors@.len() ==> av[k] == ((#[trigger] anchors@[k]).0@, anchors@[k].1));
    }
    proof {
        assert(av.take(anchors@.len() as int) =~= av);
    }
    let mut i = anchors.len();
    while i > 0
        invariant
            av == anchors.deep_view(),
            av.len() == anchors@.len(),
            forall|k: int|
                0 <= k < anchors@.len() ==> av[k] == ((#[trigger] anchors@[k]).0@, anchors@[k].1),
            i <= anchors@.len(),
            anchor_lookup(av, name@) == anchor_lookup(av.take(i as int), name@),
        decreases i,
    {
        i = i - 1;
        let cand = &anchors[i];
        proof {
            assert(av.take(i + 1).last() == av[i as int]);
            assert(av.take(i + 1).drop_last() =~= av.take(i as int));
        }
        if bytes_eq(cand.0.as_slice(), name) {
            return Some(cand.1);
        }
    }
    proof {
        assert(av.take(0) =~= Seq::<(Seq<u8>, (i8, i8))>::empty());
    }
    None
}

/// Truncating division of a library coordinate by the scale factor.
pub open spec fn div_scale(v: int) -> int {
    if v >= 0 {
        v / 50
    } else {
        -((-v) / 50)
    }
}

/// Clamp a value into the signed 8-bit range.
pub open spec fn clamp_i8(v: int) -> i8 {
    if v < -128 {
        -128i8
    } else if v > 127 {
        127i8
    } else {
        v as i8
    }
}

/// The glyph-space X coordinate of a raw library X coordinate.
pub open spec fn conv_x_spec(x: int) -> i8 {
    clamp_i8(div_scale(x))
}

/// The glyph-space Y coordinate of a raw library Y coordinate: the
/// library's Y axis points the other way.
pub open spec fn conv_y_spec(y: int) -> i8 {
    clamp_i8(div_scale(-y))
}

/// Scale and clamp a raw X coordinate.
pub fn conv_x(x: i32) -> (r: i8)
    ensures
        r == conv_x_spec(x as int),
{
    let v: i64 = x as i64;
    let q: i64 = if v >= 0 {
        v / (SCALE as i64)
    } else {
        -((-v) / (SCALE as i64))
    };
    if q < -128 {
        -128
    } else if q > 127 {
        127
    } else {
        q as i8
    }
}

/// Scale, negate and clamp a raw Y coordinate.
pub fn conv_y(y: i32) -> (r: i8)
    ensures
        r == conv_y_spec(y as int),
{
    let v: i64 = -(y as i64);
    let q: i64 = if v >= 0 {
        v / (SCALE as i64)
    } else {
        -((-v) / (SCALE as i64))
    };
    if q < -128 {
        -128
    } else if q > 127 {
        127
    } else {
        q as i8
    }
}

/// A transformation that may be applied to a symbol when it is composed
/// into a glyph: axis mirroring and a vertical offset.
#[derive(Debug, Clone, Copy, PartialEq, Eq, Structural)]
pub struct Transform {
    /// X-direction scale: 1 or -1.
    pub scale_x: i8,
    /// Y-direction scale: 1 or -1.
    pub scale_y: i8,
    /// Y-direction offset.
    pub offset_y: i8,
}

/// The identity transform.
pub open spec fn identity_transform() -> Transform {
    Transform { scale_x: 1, scale_y: 1, offset_y: 0 }
}

/// The transform a sigil character selects, if it is one of the fixed set.
pub open spec fn transform_of(c: u8) -> Option<Transform> {
    if c == 33 {  // '!': mirror horizontally
        Some(Transform { scale_x: -1i8, scale_y: 1, offset_y: 0 })
    } else if c == 45 {  // '-': flip vertically at x-height
        Some(Transform { scale_x: 1, scale_y: -1i8, offset_y: X_HEIGHT })
    } else if c == 61 {  // '=': flip vertically at cap-height
        Some(Transform { scale_x: 1, scale_y: -1i8, offset_y: CAP_HEIGHT })
    } else if c == 126 {  // '~': flip vertically at symbol-height
        Some(Transform { scale_x: 1, scale_y: -1i8, offset_y: SYM_HEIGHT })
    } else if c == 43 {  // '+': rotate at x-height
        Some(Transform { scale_x: -1i8, scale_y: -1i8, offset_y: X_HEIGHT })
    } else if c == 37 {  // '%': rotate at cap-height
        Some(Transform { scale_x: -1i8, scale_y: -1i8, offset_y: CAP_HEIGHT })
    } else if c == 42 {  // '*': rotate at symbol-height
        Some(Transform { scale_x: -1i8, scale_y: -1i8, offset_y: SYM_HEIGHT })
    } else if c == 94 {  // '^': superscript
        Some(Transform { scale_x: 1, scale_y: 1, offset_y: SUP_OFFSET })
    } else if c == 96 {  // '`': mirrored superscript
        Some(Transform { scale_x: -1i8, scale_y: 1, offset_y: SUP_OFFSET })
    } else if c == 46 {  // '.': subscript
        Some(Transform { scale_x: 1, scale_y: 1, offset_y: SUB_OFFSET })
    } else if c == 44 {  // ',': mirrored subscript
        Some(Transform { scale_x: -1i8, scale_y: 1, offset_y: SUB_OFFSET })
    } else {
        None
    }
}

/// Split the transform prefix from a symbol reference: a recognized sigil
/// selects its transform and is stripped; anything else leaves the name
/// whole under the identity transform.
pub open spec fn spec_split_transform(name: Seq<u8>) -> (Transform, Seq<u8>) {
    if name.len() > 0 && transform_of(name[0]) is Some {
        (transform_of(name[0])->0, name.drop_first())
    } else {
        (identity_transform(), name)
    }
}

/// Split the transform prefix from a symbol name.
/// For instance, `!PARENTHESIS` becomes `!` and `PARENTHESIS`.
pub fn split_transform(name: &[u8]) -> (r: (Transform, Vec<u8>))
    ensures
        r.0 == spec_split_transform(name@).0,
        r.1@ == spec_split_transform(name@).1,
{
    if name.len() == 0 {
        return (Transform { scale_x: 1, scale_y: 1, offset_y: 0 }, Vec::new());
    }
    let c = name[0];
    let t: Option<Transform> = if c == 33 {
        Some(Transform { scale_x: -1i8, scale_y: 1, offset_y: 0 })
    } else if c == 45 {
        Some(Transform { scale_x: 1, scale_y: -1i8, offset_y: X_HEIGHT })
    } else if c == 61 {
        Some(Transform { scale_x: 1, scale_y: -1i8, offset_y: CAP_HEIGHT })
    } else if c == 126 {
        Some(Transform { scale_x: 1, scale_y: -1i8, offset_y: SYM_HEIGHT })
    } else if c == 43 {
        Some(Transform { scale_x: -1i8, scale_y: -1i8, offset_y: X_HEIGHT })
    } else if c == 37 {
        Some(Transform { scale_x: -1i8, scale_y: -1i8, offset_y: CAP_HEIGHT })
    } else if c == 42 {
        Some(Transform { scale_x: -1i8, scale_y: -1i8, offset_y: SYM_HEIGHT })
    } else if c == 94 {
        Some(Transform { scale_x: 1, scale_y: 1, offset_y: SUP_OFFSET })
    } else if c == 96 {
        Some(Transform { scale_x: -1i8, scale_y: 1, offset_y: SUP_OFFSET })
    } else if c == 46 {
        Some(Transform { scale_x: 1, scale_y: 1, offset_y: SUB_OFFSET })
    } else if c == 44 {
        Some(Transform { scale_x: -1i8, scale_y: 1, offset_y: SUB_OFFSET })
    } else {
        None
    };
    match t {
        Some(tr) => {
            let rest = copy_range(name, 1, name.len());
            proof {
                assert(rest@ =~= name@.drop_first());
            }
            (tr, rest)
        },
        None => {
            let whole = copy_range(name, 0, name.len());
            proof {
                assert(whole@ =~= name@);
            }
            (Transform { scale_x: 1, scale_y: 1, offset_y: 0 }, whole)
        },
    }
}

/// Does a value fit the signed 8-bit glyph space?
pub open spec fn fits_i8(v: int) -> bool {
    -128 <= v <= 127
}

/// The points one stroke contributes under a transform and offset: the
/// first point moves with the pen up, the rest draw. A coordinate outside
/// the 8-bit space fails the build.
pub open spec fn stroke_points(
    stroke: Seq<(i8, i8)>,
    tr: Transform,
    ox: int,
    oy: int,
    first: bool,
) -> Result<Seq<PackedPoint>, ()>
    decreases stroke.len(),
{
    if stroke.len() == 0 {
        Ok(Seq::empty())
    } else {
        let px = stroke[0].0 * tr.scale_x + ox;
        let py = stroke[0].1 * tr.scale_y + oy + BASE;
        if !fits_i8(px) || !fits_i8(py) {
            Err(())
        } else {
            match stroke_points(stroke.drop_first(), tr, ox, oy, false) {
                Ok(rest) => Ok(
                    seq![PackedPoint { x: px as i8, y: py as i8, pen: !first }] + rest,
                ),
                Err(()) => Err(()),
            }
        }
    }
}

/// The points a whole symbol contributes: its strokes in order.
pub open spec fn sym_points(
    strokes: Seq<Seq<(i8, i8)>>,
    tr: Transform,
    ox: int,
    oy: int,
) -> Result<Seq<PackedPoint>, ()>
    decreases strokes.len(),
{
    if strokes.len() == 0 {
        Ok(Seq::empty())
    } else {
        match stroke_points(strokes[0], tr, ox, oy, true) {
            Err(()) => Err(()),
            Ok(head) => match sym_points(strokes.drop_first(), tr, ox, oy) {
                Err(()) => Err(()),
                Ok(rest) => Ok(head + rest),
            },
        }
    }
}

/// Render the given symbol, with provided transform and offset applied.
pub fn render_glyph(raw: &RawSymbol, tr: &Transform, offset_x: i8, offset_y: i8) -> (r: Result<
    Vec<PackedPoint>,
    (),
>)
    ensures
        match r {
            Ok(v) => sym_points(raw@.strokes, *tr, offset_x as int, offset_y as int) == Ok::<
                Seq<PackedPoint>,
                (),
            >(v@),
            Err(()) => sym_points(raw@.strokes, *tr, offset_x as int, offset_y as int) is Err,
        },
{
    let ghost sv = raw@.strokes;
    let ghost ox = offset_x as int;
    let ghost oy = offset_y as int;
    let mut out: Vec<PackedPoint> = Vec::new();
    let n = raw.strokes.len();
    let mut i: usize = 0;
    proof {
        assert(sv.len() == n);
        assert(forall|k: int| 0 <= k < n ==> sv[k] == (#[trigger] raw.strokes@[k])@);
        assert(Seq::<PackedPoint>::empty() + Seq::<PackedPoint>::empty()
            =~= Seq::<PackedPoint>::empty());
        assert(sv.skip(0) =~= sv);
    }
    while i < n
        invariant
            sv == raw@.strokes,
            n == raw.strokes@.len(),
            sv.len() == n,
            forall|k: int| 0 <= k < n ==> sv[k] == (#[trigger] raw.strokes@[k])@,
            i <= n,
            ox == offset_x as int,
            oy == offset_y as int,
            match sym_points(sv.skip(i as int), *tr, ox, oy) {
                Ok(rest) => sym_points(sv, *tr, ox, oy) == Ok::<Seq<PackedPoint>, ()>(
                    out@ + rest,
                ),
                Err(()) => sym_points(sv, *tr, ox, oy) is Err,
            },
        decreases n - i,
    {
        let stroke = &raw.strokes[i];
        let ghost st = sv[i as int];
        let m = stroke.len();
        let mut j: usize = 0;
        let ghost out0 = out@;
        proof {
            assert(sv.skip(i as int)[0] == sv[i as int]);
            assert(sv.skip(i as int).drop_first() =~= sv.skip(i as int + 1));
            assert(st.len() == m);
            assert(st.skip(0) =~= st);
            assert(out0 + Seq::<PackedPoint>::empty() =~= out0);
            assert(stroke_points(st, *tr, ox, oy, true) is Err ==> sym_points(
                sv,
                *tr,
                ox,
                oy,
            ) is Err);
        }
        while j < m
            invariant
                sv == raw@.strokes,
                st == stroke@,
                m == stroke@.len(),
                st.len() == m,
                j <= m,
                ox == offset_x as int,
                oy == offset_y as int,
                match stroke_points(st.skip(j as int), *tr, ox, oy, j == 0) {
                    Ok(rest) => stroke_points(st, *tr, ox, oy, true) == Ok::<
                        Seq<PackedPoint>,
                        (),
                    >(out@.skip(out0.len() as int) + rest),
                    Err(()) => stroke_points(st, *tr, ox, oy, true) is Err,
                },
                out0 == out@.take(out0.len() as int),
                out0.len() <= out@.len(),
                stroke_points(st, *tr, ox, oy, true) is Err ==> sym_points(
                    sv,
                    *tr,
                    ox,
                    oy,
                ) is Err,
            decreases m - j,
        {
            let (x, y) = stroke[j];
            proof {
                assert(-16384 <= (x as int) * (tr.scale_x as int) <= 16384) by (nonlinear_arith)
                    requires
                        -128 <= x as int <= 127,
                        -128 <= tr.scale_x as int <= 127,
                ;
                assert(-16384 <= (y as int) * (tr.scale_y as int) <= 16384) by (nonlinear_arith)
                    requires
                        -128 <= y as int <= 127,
                        -128 <= tr.scale_y as int <= 127,
                ;
            }
            let px: i32 = (x as i32) * (tr.scale_x as i32) + (offset_x as i32);
            let py: i32 = (y as i32) * (tr.scale_y as i32) + (offset_y as i32) + (BASE as i32);
            proof {
                assert(st.skip(j as int)[0] == st[j as int]);
                assert(st.skip(j as int).drop_first() =~= st.skip(j as int + 1));
                assert(st[j as int] == (x, y));
            }
            if px < -128 || px > 127 || py < -128 || py > 127 {
                proof {
                    assert(stroke_points(st.skip(j as int), *tr, ox, oy, j == 0) is Err);
                    assert(sym_points(sv, *tr, ox, oy) is Err);
                }
                return Err(());
            }
            let pt = PackedPoint { x: px as i8, y: py as i8, pen: j != 0 };
            let ghost before = out@;
            out.push(pt);
            proof {
                assert(out@ =~= before.push(pt));
                assert(out@.skip(out0.len() as int) =~= before.skip(out0.len() as int).push(pt));
                assert(out@.take(out0.len() as int) =~= before.take(out0.len() as int));
                match stroke_points(st.skip(j as int + 1), *tr, ox, oy, false) {
                    Ok(rest) => {
                        assert(before.skip(out0.len() as int).push(pt) + rest =~= before.skip(
                            out0.len() as int,
                        ) + (seq![pt] + rest));
                    },
                    Err(()) => {},
                }
            }
            j = j + 1;
        }
        proof {
            assert(st.skip(m as int) =~= Seq::<(i8, i8)>::empty());
            assert(out@.skip(out0.len() as int) + Seq::<PackedPoint>::empty() =~= out@.skip(
                out0.len() as int,
            ));
            assert(stroke_points(st, *tr, ox, oy, true) == Ok::<Seq<PackedPoint>, ()>(
                out@.skip(out0.len() as int),
            ));
            assert(out0 + out@.skip(out0.len() as int) =~= out@);
            match sym_points(sv.skip(i as int + 1), *tr, ox, oy) {
                Ok(rest) => {
                    assert(out0 + (out@.skip(out0.len() as int) + rest) =~= out@ + rest);
                },
                Err(()) => {},
            }
        }
        i = i + 1;
    }
    proof {
        assert(sv.skip(n as int) =~= Seq::<Seq<(i8, i8)>>::empty());
        assert(out@ + Seq::<PackedPoint>::empty() =~= out@);
    }
    Ok(out)
}

/// The transformed left and right metrics of a symbol: a horizontal
/// mirror swaps and negates the side-bearings.
pub open spec fn spec_metrics(left: i8, right: i8, tr: Transform) -> Result<(i8, i8), ()> {
    if tr.scale_x >= 0 {
        Ok((left, right))
    } else if fits_i8(-(right as int)) && fits_i8(-(left as int)) {
        Ok(((0 - right as int) as i8, (0 - left as int) as i8))
    } else {
        Err(())
    }
}

/// Transform the left and right metrics of the given symbol.
pub fn transform_metrics(raw: &RawSymbol, tr: &Transform) -> (r: Result<(i8, i8), ()>)
    ensures
        r == spec_metrics(raw@.left, raw@.right, *tr),
{
    if tr.scale_x >= 0 {
        Ok((raw.left, raw.right))
    } else if raw.right == i8::MIN || raw.left == i8::MIN {
        Err(())
    } else {
        Ok((-raw.right, -raw.left))
    }
}

/// Why a coordinate field of a `P` or `X` line failed.
#[derive(Debug, Clone, Copy, PartialEq, Eq, Structural)]
pub enum CoordErr {
    /// The field is not there.
    Missing,
    /// The field does not parse as an integer.
    Invalid,
}

/// The stroke a `P` line's coordinate fields hold, points `i` up to `n`:
/// raw pairs at token positions `5 + 2*i` and `6 + 2*i`, scaled and
/// clamped into glyph space.
pub open spec fn p_points(parts: Seq<Seq<u8>>, n: int, i: int) -> Result<Seq<(i8, i8)>, CoordErr>
    decreases n - i,
{
    if i >= n {
        Ok(Seq::empty())
    } else {
        let xi = 5 + 2 * i;
        let yi = 6 + 2 * i;
        if xi >= parts.len() {
            Err(CoordErr::Missing)
        } else {
            match parse_sint(parts[xi], i32::MIN as int, i32::MAX as int) {
                None => Err(CoordErr::Invalid),
                Some(x) => if yi >= parts.len() {
                    Err(CoordErr::Missing)
                } else {
                    match parse_sint(parts[yi], i32::MIN as int, i32::MAX as int) {
                        None => Err(CoordErr::Invalid),
                        Some(y) => match p_points(parts, n, i + 1) {
                            Err(e) => Err(e),
                            Ok(rest) => Ok(seq![(conv_x_spec(x), conv_y_spec(y))] + rest),
                        },
                    }
                },
            }
        }
    }
}

/// Parse the coordinate fields of a `P` line into one stroke.
fn parse_p_points(parts: &Vec<Vec<u8>>, n: u64) -> (r: Result<Vec<(i8, i8)>, CoordErr>)
    ensures
        match r {
            Ok(v) => p_points(parts.deep_view(), n as int, 0) == Ok::<Seq<(i8, i8)>, CoordErr>(
                v@,
            ),
            Err(e) => p_points(parts.deep_view(), n as int, 0) == Err::<Seq<(i8, i8)>, CoordErr>(
                e,
            ),
        },
{
    let ghost pv = parts.deep_view();
    proof {
        crate::text::lemma_deep_view_is_views(parts);
    }
    let mut stroke: Vec<(i8, i8)> = Vec::new();
    let mut i: u64 = 0;
    proof {
        assert(Seq::<(i8, i8)>::empty() + Seq::<(i8, i8)>::empty() =~= Seq::<(i8, i8)>::empty());
    }
    while i < n
        invariant
            pv == parts.deep_view(),
            pv.len() == parts@.len(),
            forall|k: int| 0 <= k < parts@.len() ==> pv[k] == (#[trigger] parts@[k])@,
            i <= n,
            match p_points(pv, n as int, i as int) {
                Ok(rest) => p_points(pv, n as int, 0) == Ok::<Seq<(i8, i8)>, CoordErr>(
                    stroke@ + rest,
                ),
                Err(e) => p_points(pv, n as int, 0) == Err::<Seq<(i8, i8)>, CoordErr>(e),
            },
        decreases n - i,
    {
        let xi128: u128 = 5 + 2 * (i as u128);
        if xi128 >= parts.len() as u128 {
            return Err(CoordErr::Missing);
        }
        let xi = xi128 as usize;
        let yi = xi + 1;
        let x = match parse_i32(parts[xi].as_slice()) {
            Some(v) => v,
            None => {
                return Err(CoordErr::Invalid);
            },
        };
        if yi >= parts.len() {
            return Err(CoordErr::Missing);
        }
        let y = match parse_i32(parts[yi].as_slice()) {
            Some(v) => v,
            None => {
                return Err(CoordErr::Invalid);
            },
        };
        let pt = (conv_x(x), conv_y(y));
        let ghost before = stroke@;
        stroke.push(pt);
        proof {
            assert(stroke@ =~= before.push(pt));
            match p_points(pv, n as int, i as int + 1) {
                Ok(rest) => {
                    assert(before + (seq![pt] + rest) =~= stroke@ + rest);
                },
                Err(e) => {},
            }
        }
        i = i + 1;
    }
    proof {
        assert(stroke@ + Seq::<(i8, i8)>::empty() =~= stroke@);
    }
    Ok(stroke)
}

/// The symbol an `X` anchor line leaves behind: the pin recorded among
/// the anchors, and, for the pins that stand for the side-bearings, the
/// bearing updated. The unnamed pin `~` sets the right bearing when its
/// X is positive and the left bearing otherwise; `P` always sets the
/// left, `S` always the right.
pub open spec fn apply_anchor(sym: SymbolView, pin: Seq<u8>, ax: i8, ay: i8) -> SymbolView {
    let with_anchor = SymbolView {
        name: sym.name,
        strokes: sym.strokes,
        left: sym.left,
        right: sym.right,
        anchors: sym.anchors.push((pin, (ax, ay))),
    };
    if pin == kw("~"@) {
        if ax > 0 {
            SymbolView { right: ax, ..with_anchor }
        } else {
            SymbolView { left: ax, ..with_anchor }
        }
    } else if pin == kw("P"@) {
        SymbolView { left: ax, ..with_anchor }
    } else if pin == kw("S"@) {
        SymbolView { right: ax, ..with_anchor }
    } else {
        with_anchor
    }
}

/// What one library line does to the open symbol and the symbol table.
/// `DEF` opens a symbol, `P` appends one stroke, `X` records an anchor,
/// `ENDDEF` closes the symbol into the table; anything else is ignored.
pub open spec fn spec_lib_step(
    line: Seq<u8>,
    lineno: usize,
    cur: Option<SymbolView>,
    syms: Seq<SymbolView>,
) -> Result<(Option<SymbolView>, Seq<SymbolView>), NsError> {
    let parts = spec_tokens(line);
    if parts.len() == 0 {
        Ok((cur, syms))
    } else if parts[0] == kw("DEF"@) {
        if cur is Some {
            Err(NsError::NestedDef(lineno))
        } else if parts.len() < 2 {
            Err(NsError::MalformedDef(lineno))
        } else {
            Ok(
                (
                    Some(
                        SymbolView {
                            name: parts[1],
                            strokes: Seq::empty(),
                            left: 0,
                            right: 0,
                            anchors: Seq::empty(),
                        },
                    ),
                    syms,
                ),
            )
        }
    } else if parts[0] == kw("P"@) {
        match cur {
            None => Err(NsError::StrayPoint(lineno)),
            Some(sym) => if parts.len() < 2 {
                Err(NsError::MalformedPoint(lineno))
            } else {
                match parse_uint(parts[1], u64::MAX as int) {
                    None => Err(NsError::InvalidCount(lineno)),
                    Some(n) => match p_points(parts, n, 0) {
                        Err(CoordErr::Missing) => Err(NsError::MissingCoord(lineno)),
                        Err(CoordErr::Invalid) => Err(NsError::InvalidCoord(lineno)),
                        Ok(stroke) => Ok(
                            (Some(SymbolView { strokes: sym.strokes.push(stroke), ..sym }), syms),
                        ),
                    },
                }
            },
        }
    } else if parts[0] == kw("X"@) {
        match cur {
            None => Err(NsError::StrayAnchor(lineno)),
            Some(sym) => if parts.len() < 2 {
                Err(NsError::MalformedAnchor(lineno))
            } else if parts.len() <= 3 {
                Err(NsError::MissingCoord(lineno))
            } else {
                match parse_sint(parts[3], i32::MIN as int, i32::MAX as int) {
                    None => Err(NsError::InvalidCoord(lineno)),
                    Some(x) => if parts.len() <= 4 {
                        Err(NsError::MissingCoord(lineno))
                    } else {
                        match parse_sint(parts[4], i32::MIN as int, i32::MAX as int) {
                            None => Err(NsError::InvalidCoord(lineno)),
                            Some(y) => Ok(
                                (
                                    Some(
                                        apply_anchor(
                                            sym,
                                            parts[1],
                                            conv_x_spec(x),
                                            conv_y_spec(y),
                                        ),
                                    ),
                                    syms,
                                ),
                            ),
                        }
                    },
                }
            },
        }
    } else if parts[0] == kw("ENDDEF"@) {
        match cur {
            None => Err(NsError::StrayEnd(lineno)),
            Some(sym) => Ok((None, syms.push(sym))),
        }
    } else {
        Ok((cur, syms))
    }
}

/// The symbol table the library lines from `i` on build. A file that ends
/// inside an open `DEF` block fails.
pub open spec fn spec_lib_lines(
    ls: Seq<Seq<u8>>,
    i: int,
    cur: Option<SymbolView>,
    syms: Seq<SymbolView>,
) -> Result<Seq<SymbolView>, NsError>
    decreases ls.len() - i,
{
    if i < 0 || i >= ls.len() {
        if cur is Some {
            Err(NsError::UnterminatedDef)
        } else {
            Ok(syms)
        }
    } else {
        match spec_lib_step(ls[i], (i + 1) as usize, cur, syms) {
            Err(e) => Err(e),
            Ok(st) => spec_lib_lines(ls, i + 1, st.0, st.1),
        }
    }
}

/// The symbol table a whole library file defines.
pub open spec fn spec_parse_lib(s: Seq<u8>) -> Result<Seq<SymbolView>, NsError> {
    spec_lib_lines(spec_lines(s), 0, None, Seq::empty())
}

/// The mathematical value of an optional open symbol.
pub open spec fn opt_sym_view(c: Option<&RawSymbol>) -> Option<SymbolView> {
    match c {
        Some(s) => Some(s@),
        None => None,
    }
}

/// Load a library file defining NewStroke font symbols.
pub fn parse_lib_file(input: &[u8]) -> (r: Result<Vec<RawSymbol>, NsError>)
    ensures
        match r {
            Ok(tbl) => spec_parse_lib(input@) == Ok::<Seq<SymbolView>, NsError>(table_view(tbl@)),
            Err(e) => spec_parse_lib(input@) == Err::<Seq<SymbolView>, NsError>(e),
        },
{
    let lines = split_lines(input);
    let ghost ls = lines.deep_view();
    let n = lines.len();
    let mut glyphs: Vec<RawSymbol> = Vec::new();
    let mut current: Option<RawSymbol> = None;
    proof {
        crate::text::lemma_deep_view_is_views(&lines);
        assert(table_view(glyphs@) =~= Seq::<SymbolView>::empty());
    }
    let mut i: usize = 0;
    while i < n
        invariant
            ls == lines.deep_view(),
            n == lines@.len(),
            ls.len() == n,
            forall|k: int| 0 <= k < n ==> ls[k] == (#[trigger] lines@[k])@,
            i <= n,
            spec_parse_lib(input@) == spec_lib_lines(
                ls,
                i as int,
                opt_sym_view(match current {
                    Some(ref s) => Some(s),
                    None => None,
                }),
                table_view(glyphs@),
            ),
        decreases n - i,
    {
        let ghost cur0 = opt_sym_view(match current {
            Some(ref s) => Some(s),
            None => None,
        });
        let ghost syms0 = table_view(glyphs@);
        let ghost lineno: usize = ((i + 1) as usize);
        let line = &lines[i];
        let parts = tokenize(line.as_slice());
        let ghost pv = parts.deep_view();
        proof {
            crate::text::lemma_deep_view_is_views(&parts);
            assert(pv == spec_tokens(ls[i as int]));
        }
        if parts.len() == 0 {
            i = i + 1;
            continue ;
        }
        if token_is(parts[0].as_slice(), "DEF") {
            if current.is_some() {
                return Err(NsError::NestedDef(i + 1));
            }
            if parts.len() < 2 {
                return Err(NsError::MalformedDef(i + 1));
            }
            let name = copy_range(parts[1].as_slice(), 0, parts[1].len());
            proof {
                assert(name@ =~= pv[1]);
            }
            current = Some(
                RawSymbol {
                    name,
                    strokes: Vec::new(),
                    left: 0,
                    right: 0,
                    anchors: Vec::new(),
                },
            );
            proof {
                let cur1 = opt_sym_view(match current {
                    Some(ref s) => Some(s),
                    None => None,
                });
                assert(cur1->0.strokes =~= Seq::<Seq<(i8, i8)>>::empty());
                assert(cur1->0.anchors =~= Seq::<(Seq<u8>, (i8, i8))>::empty());
                assert(spec_lib_step(ls[i as int], lineno, cur0, syms0) == Ok::<
                    (Option<SymbolView>, Seq<SymbolView>),
                    NsError,
                >((cur1, syms0)));
            }
        } else if token_is(parts[0].as_slice(), "P") {
            let taken = current;
            current = None;
            let mut sym = match taken {
                None => {
                    return Err(NsError::StrayPoint(i + 1));
                },
                Some(s) => s,
            };
            if parts.len() < 2 {
                return Err(NsError::MalformedPoint(i + 1));
            }
            proof {
                assert(parts@[1]@ == pv[1]);
                assert(parts@[1]@.skip(0) =~= pv[1]);
            }
            let count = match parse_u64_from(parts[1].as_slice(), 0) {
                Some(v) => v,
                None => {
                    return Err(NsError::InvalidCount(i + 1));
                },
            };
            let stroke = match parse_p_points(&parts, count) {
                Ok(v) => v,
                Err(CoordErr::Missing) => {
                    return Err(NsError::MissingCoord(i + 1));
                },
                Err(CoordErr::Invalid) => {
                    return Err(NsError::InvalidCoord(i + 1));
                },
            };
            let ghost symv = sym@;
            let ghost strokev = stroke@;
            let ghost sdeep = stroke.deep_view();
            let ghost old_sv = sym.strokes@;
            proof {
                assert(sdeep =~= strokev);
            }
            sym.strokes.push(stroke);
            proof {
                assert(sym.strokes@ =~= old_sv.push(stroke));
                assert forall|t: int|
                    0 <= t < sym.strokes@.len() implies #[trigger] sym.strokes.deep_view()[t]
                    == symv.strokes.push(strokev)[t] by {
                    if t < old_sv.len() {
                        assert(sym.strokes@[t] == old_sv[t]);
                    } else {
                        assert(sym.strokes@[t].deep_view() == sdeep);
                    }
                }
                assert(sym@.strokes =~= symv.strokes.push(strokev));
                assert(sym@ == SymbolView { strokes: symv.strokes.push(strokev), ..symv });
            }
            current = Some(sym);
        } else if token_is(parts[0].as_slice(), "X") {
            let taken = current;
            current = None;
            let mut sym = match taken {
                None => {
                    return Err(NsError::StrayAnchor(i + 1));
                },
                Some(s) => s,
            };
            if parts.len() < 2 {
                return Err(NsError::MalformedAnchor(i + 1));
            }
            if parts.len() <= 3 {
                return Err(NsError::MissingCoord(i + 1));
            }
            let x = match parse_i32(parts[3].as_slice()) {
                Some(v) => v,
                None => {
                    return Err(NsError::InvalidCoord(i + 1));
                },
            };
            if parts.len() <= 4 {
                return Err(NsError::MissingCoord(i + 1));
            }
            let y = match parse_i32(parts[4].as_slice()) {
                Some(v) => v,
                None => {
                    return Err(NsError::InvalidCoord(i + 1));
                },
            };
            let ax = conv_x(x);
            let ay = conv_y(y);
            let pin = copy_range(parts[1].as_slice(), 0, parts[1].len());
            proof {
                assert(pin@ =~= pv[1]);
            }
            let ghost symv = sym@;
            sym.anchors.push((pin, (ax, ay)));
            proof {
                assert(sym@.anchors =~= symv.anchors.push((pv[1], (ax, ay))));
            }
            // detect if this pin represents the left or right boundary
            let pin2 = &sym.anchors[sym.anchors.len() - 1].0;
            if token_is(pin2.as_slice(), "~") {
                // the unnamed pin: right or left based on sign
                if ax > 0 {
                    sym.right = ax;
                } else {
                    sym.left = ax;
                }
            } else if token_is(pin2.as_slice(), "P") {
                // P always means left
                sym.left = ax;
            } else if token_is(pin2.as_slice(), "S") {
                // S always means right
                sym.right = ax;
            }
            proof {
                assert(sym@ == apply_anchor(symv, pv[1], ax, ay));
            }
            current = Some(sym);
        } else if token_is(parts[0].as_slice(), "ENDDEF") {
            let taken = current;
            current = None;
            let sym = match taken {
                None => {
                    return Err(NsError::StrayEnd(i + 1));
                },
                Some(s) => s,
            };
            let ghost symv = sym@;
            glyphs.push(sym);
            proof {
                assert(table_view(glyphs@) =~= syms0.push(symv));
            }
        }
        proof {
            let cur1 = opt_sym_view(match current {
                Some(ref s) => Some(s),
                None => None,
            });
            let syms1 = table_view(glyphs@);
            assert(spec_lib_step(ls[i as int], lineno, cur0, syms0) == Ok::<
                (Option<SymbolView>, Seq<SymbolView>),
                NsError,
            >((cur1, syms1)));
        }
        i = i + 1;
    }
    if current.is_some() {
        return Err(NsError::UnterminatedDef);
    }
    Ok(glyphs)
}

/// Why a mandatory glyph composition failed: these abort the whole table
/// build.
#[derive(Debug, Clone, Copy, PartialEq, Eq, Structural)]
pub enum ComposeErr {
    /// The base symbol reference names no library symbol.
    UnknownBase,
    /// The accent symbol reference names no library symbol.
    UnknownAccent,
    /// The named anchor is missing on the base symbol.
    MissingAnchor,
    /// A computed coordinate or bearing left the 8-bit glyph space.
    Range,
}

/// The mathematical value of an optional borrowed byte string.
pub open spec fn opt_bytes_view(o: Option<&[u8]>) -> Option<Seq<u8>> {
    match o {
        Some(s) => Some(s@),
        None => None,
    }
}

/// The placement offset of an accent on a base: the difference between
/// the transformed base anchor and the transformed accent anchor. With no
/// anchor name the offset is zero; the base anchor must exist, while a
/// missing accent anchor defaults to the origin. The anchor reference may
/// name distinct base and accent anchors as `BASE=ACCENT`.
pub open spec fn spec_anchor_offset(
    base: SymbolView,
    accent: SymbolView,
    anchor: Option<Seq<u8>>,
    base_tr: Transform,
    accent_tr: Transform,
) -> Result<(i8, i8), ComposeErr> {
    match anchor {
        None => Ok((0i8, 0i8)),
        Some(a) => {
            let eq = find_byte(a, 61, 0);
            let base_key = a.subrange(0, eq);
            let accent_key = if eq < a.len() {
                a.subrange(eq + 1, a.len() as int)
            } else {
                base_key
            };
            match anchor_lookup(base.anchors, base_key) {
                None => Err(ComposeErr::MissingAnchor),
                Some(bp) => {
                    let ap = match anchor_lookup(accent.anchors, accent_key) {
                        Some(p) => p,
                        None => (0i8, 0i8),
                    };
                    let ox = bp.0 * base_tr.scale_x - ap.0 * accent_tr.scale_x;
                    let oy = bp.1 * base_tr.scale_y + base_tr.offset_y - ap.1 * accent_tr.scale_y
                        - accent_tr.offset_y;
                    if fits_i8(ox) && fits_i8(oy) {
                        Ok((ox as i8, oy as i8))
                    } else {
                        Err(ComposeErr::Range)
                    }
                },
            }
        },
    }
}

/// Compute the offset used when placing an accent character on a base
/// character.
pub fn anchor_offset(
    base: &RawSymbol,
    accent: &RawSymbol,
    anchor: Option<&[u8]>,
    base_tr: &Transform,
    accent_tr: &Transform,
) -> (r: Result<(i8, i8), ComposeErr>)
    ensures
        r == spec_anchor_offset(base@, accent@, opt_bytes_view(anchor), *base_tr, *accent_tr),
{
    let a = match anchor {
        None => {
            return Ok((0, 0));
        },
        Some(a) => a,
    };
    // Split at '=' if present: left names the base anchor, right the
    // accent anchor; with no '=' the same name serves both sides.
    let eq = find_byte_from(a, 61, 0);
    let base_key = copy_range(a, 0, eq);
    let accent_key = if eq < a.len() {
        copy_range(a, eq + 1, a.len())
    } else {
        copy_range(a, 0, eq)
    };
    let bp = match lookup_anchor(&base.anchors, base_key.as_slice()) {
        None => {
            return Err(ComposeErr::MissingAnchor);
        },
        Some(p) => p,
    };
    let ap = match lookup_anchor(&accent.anchors, accent_key.as_slice()) {
        Some(p) => p,
        None => (0, 0),
    };
    proof {
        assert(-16384 <= (bp.0 as int) * (base_tr.scale_x as int) <= 16384) by (nonlinear_arith)
            requires
                -128 <= bp.0 as int <= 127,
                -128 <= base_tr.scale_x as int <= 127,
        ;
        assert(-16384 <= (ap.0 as int) * (accent_tr.scale_x as int) <= 16384) by (nonlinear_arith)
            requires
                -128 <= ap.0 as int <= 127,
                -128 <= accent_tr.scale_x as int <= 127,
        ;
        assert(-16384 <= (bp.1 as int) * (base_tr.scale_y as int) <= 16384) by (nonlinear_arith)
            requires
                -128 <= bp.1 as int <= 127,
                -128 <= base_tr.scale_y as int <= 127,
        ;
        assert(-16384 <= (ap.1 as int) * (accent_tr.scale_y as int) <= 16384) by (nonlinear_arith)
            requires
                -128 <= ap.1 as int <= 127,
                -128 <= accent_tr.scale_y as int <= 127,
        ;
    }
    let ox: i32 = (bp.0 as i32) * (base_tr.scale_x as i32) - (ap.0 as i32) * (accent_tr.scale_x
        as i32);
    let oy: i32 = (bp.1 as i32) * (base_tr.scale_y as i32) + (base_tr.offset_y as i32) - (ap.1
        as i32) * (accent_tr.scale_y as i32) - (accent_tr.offset_y as i32);
    if -128 <= ox && ox <= 127 && -128 <= oy && oy <= 127 {
        Ok((ox as i8, oy as i8))
    } else {
        Err(ComposeErr::Range)
    }
}

/// The glyph a single symbol reference builds: the transform applied to
/// every stroke point and to the side-bearings. A reference to a symbol
/// the library does not hold builds nothing, without failing; a
/// coordinate outside the glyph space fails.
pub open spec fn spec_build_single(tbl: Seq<SymbolView>, name: Seq<u8>) -> Result<
    Option<GlyphView>,
    (),
> {
    let tr = spec_split_transform(name).0;
    let base_name = spec_split_transform(name).1;
    match sym_lookup(tbl, base_name) {
        None => Ok(None),
        Some(sym) => match sym_points(sym.strokes, tr, 0, 0) {
            Err(()) => Err(()),
            Ok(pts) => match spec_metrics(sym.left, sym.right, tr) {
                Err(()) => Err(()),
                Ok(lr) => Ok(Some(GlyphView { left: lr.0, right: lr.1, strokes: pts })),
            },
        },
    }
}

/// Build a glyph from a single symbol reference.
pub fn build_single(raw: &Vec<RawSymbol>, name: &[u8]) -> (r: Result<Option<Glyph>, ()>)
    ensures
        match r {
            Ok(Some(g)) => spec_build_single(table_view(raw@), name@) == Ok::<
                Option<GlyphView>,
                (),
            >(Some(g@)),
            Ok(None) => spec_build_single(table_view(raw@), name@) == Ok::<
                Option<GlyphView>,
                (),
            >(None),
            Err(()) => spec_build_single(table_view(raw@), name@) is Err,
        },
{
    let (tr, base_name) = split_transform(name);
    let base = match lookup_symbol(raw, base_name.as_slice()) {
        Some(s) => s,
        None => {
            return Ok(None);
        },
    };
    let strokes = match render_glyph(base, &tr, 0, 0) {
        Ok(v) => v,
        Err(()) => {
            return Err(());
        },
    };
    let (left, right) = match transform_metrics(base, &tr) {
        Ok(lr) => lr,
        Err(()) => {
            return Err(());
        },
    };
    Ok(Some(Glyph { left, right, strokes }))
}

/// The glyph a base reference and an accent reference compose: the base
/// drawn in place, the accent translated by the anchor offset, and the
/// bearings widened to cover both.
pub open spec fn spec_compose_two(tbl: Seq<SymbolView>, a: Seq<u8>, b: Seq<u8>) -> Result<
    GlyphView,
    ComposeErr,
> {
    let sp = find_byte(b, 32, 0);
    let acc_ref = b.subrange(0, sp);
    let anchor = if sp < b.len() {
        Some(b.subrange(sp + 1, b.len() as int))
    } else {
        None
    };
    let ta = spec_split_transform(a).0;
    let a_name = spec_split_transform(a).1;
    let tb = spec_split_transform(acc_ref).0;
    let b_name = spec_split_transform(acc_ref).1;
    match sym_lookup(tbl, a_name) {
        None => Err(ComposeErr::UnknownBase),
        Some(base) => match sym_lookup(tbl, b_name) {
            None => Err(ComposeErr::UnknownAccent),
            Some(acc) => match spec_anchor_offset(base, acc, anchor, ta, tb) {
                Err(e) => Err(e),
                Ok(off) => match sym_points(base.strokes, ta, 0, 0) {
                    Err(()) => Err(ComposeErr::Range),
                    Ok(bpts) => match sym_points(acc.strokes, tb, off.0 as int, off.1 as int) {
                        Err(()) => Err(ComposeErr::Range),
                        Ok(apts) => match spec_metrics(base.left, base.right, ta) {
                            Err(()) => Err(ComposeErr::Range),
                            Ok(m1) => match spec_metrics(acc.left, acc.right, tb) {
                                Err(()) => Err(ComposeErr::Range),
                                Ok(m2) => {
                                    let l2 = m2.0 + off.0;
                                    let r2 = m2.1 + off.0;
                                    if fits_i8(l2) && fits_i8(r2) {
                                        Ok(
                                            GlyphView {
                                                left: if m1.0 <= l2 {
                                                    m1.0
                                                } else {
                                                    l2 as i8
                                                },
                                                right: if m1.1 >= r2 {
                                                    m1.1
                                                } else {
                                                    r2 as i8
                                                },
                                                strokes: bpts + apts,
                                            },
                                        )
                                    } else {
                                        Err(ComposeErr::Range)
                                    }
                                },
                            },
                        },
                    },
                },
            },
        },
    }
}

/// Create a glyph by composing two symbol references: `b` holds the
/// accent reference and, after a space, an optional anchor reference.
pub fn compose_two(raw: &Vec<RawSymbol>, a: &[u8], b: &[u8]) -> (r: Result<Glyph, ComposeErr>)
    ensures
        match r {
            Ok(g) => spec_compose_two(table_view(raw@), a@, b@) == Ok::<GlyphView, ComposeErr>(
                g@,
            ),
            Err(e) => spec_compose_two(table_view(raw@), a@, b@) == Err::<GlyphView, ComposeErr>(
                e,
            ),
        },
{
    let sp = find_byte_from(b, 32, 0);
    let acc_ref = copy_range(b, 0, sp);
    let anchor: Option<Vec<u8>> = if sp < b.len() {
        Some(copy_range(b, sp + 1, b.len()))
    } else {
        None
    };
    let (ta, a_name) = split_transform(a);
    let (tb, b_name) = split_transform(acc_ref.as_slice());
    let base = match lookup_symbol(raw, a_name.as_slice()) {
        Some(s) => s,
        None => {
            return Err(ComposeErr::UnknownBase);
        },
    };
    let acc = match lookup_symbol(raw, b_name.as_slice()) {
        Some(s) => s,
        None => {
            return Err(ComposeErr::UnknownAccent);
        },
    };
    let anchor_slice: Option<&[u8]> = match &anchor {
        Some(v) => Some(v.as_slice()),
        None => None,
    };
    let (ox, oy) = match anchor_offset(base, acc, anchor_slice, &ta, &tb) {
        Ok(p) => p,
        Err(e) => {
            return Err(e);
        },
    };
    let mut strokes = match render_glyph(base, &ta, 0, 0) {
        Ok(v) => v,
        Err(()) => {
            return Err(ComposeErr::Range);
        },
    };
    let ghost bpts = strokes@;
    let accent_strokes = match render_glyph(acc, &tb, ox, oy) {
        Ok(v) => v,
        Err(()) => {
            return Err(ComposeErr::Range);
        },
    };
    let ghost apts = accent_strokes@;
    let mut k: usize = 0;
    let an = accent_strokes.len();
    while k < an
        invariant
            k <= an,
            an == apts.len(),
            apts == accent_strokes@,
            strokes@ == bpts + apts.take(k as int),
        decreases an - k,
    {
        let pt = accent_strokes[k];
        strokes.push(pt);
        proof {
            assert(apts.take(k + 1) =~= apts.take(k as int).push(apts[k as int]));
            assert(strokes@ =~= bpts + apts.take(k + 1));
        }
        k = k + 1;
    }
    proof {
        assert(apts.take(an as int) =~= apts);
    }
    let (l1, r1) = match transform_metrics(base, &ta) {
        Ok(m) => m,
        Err(()) => {
            return Err(ComposeErr::Range);
        },
    };
    let (l2, r2) = match transform_metrics(acc, &tb) {
        Ok(m) => m,
        Err(()) => {
            return Err(ComposeErr::Range);
        },
    };
    let l2o: i32 = l2 as i32 + ox as i32;
    let r2o: i32 = r2 as i32 + ox as i32;
    if l2o < -128 || l2o > 127 || r2o < -128 || r2o > 127 {
        return Err(ComposeErr::Range);
    }
    let left = if l1 <= l2o as i8 {
        l1
    } else {
        l2o as i8
    };
    let right = if r1 >= r2o as i8 {
        r1
    } else {
        r2o as i8
    };
    Ok(Glyph { left, right, strokes })
}

/// The state the character-list script threads from line to line: the
/// codepoint cursor, the table built so far, and the soft diagnostics
/// reported so far.
pub ghost struct CharState {
    pub cp: int,
    pub table: Seq<Option<GlyphView>>,
    pub diags: Seq<NsDiag>,
}

/// Advance the codepoint cursor. It saturates at the table size: every
/// slot at or past the end is out of reach either way, so a saturated
/// cursor assigns exactly the same slots as an unbounded one.
pub open spec fn sat_add(cp: int, k: int) -> int {
    if cp + k >= NEWSTROKE_SLOTS {
        NEWSTROKE_SLOTS as int
    } else {
        cp + k
    }
}

/// What one character-list line does. `startchar` moves the cursor, `+`
/// builds one glyph (single or composed) at the cursor and advances it,
/// `skipcodes` advances it without building, comments and `font` do
/// nothing, the recognized but unimplemented `+` forms report a
/// diagnostic, and any other command fails the build.
pub open spec fn spec_char_step(
    line: Seq<u8>,
    lineno: usize,
    syms: Seq<SymbolView>,
    st: CharState,
) -> Result<CharState, NsError> {
    let t = spec_trim(line);
    if t.len() == 0 || t[0] == 35 || (t.len() >= 2 && t[0] == 47 && t[1] == 47) {
        Ok(st)
    } else {
        let cut = find_byte(t, 35, 0);
        let body = spec_trim(t.subrange(0, cut));
        let parts = spec_tokens(body);
        if parts.len() == 0 {
            Ok(st)
        } else if parts[0] == kw("startchar"@) {
            if parts.len() < 2 {
                Err(NsError::MissingStartchar(lineno))
            } else {
                match parse_uint(parts[1], u64::MAX as int) {
                    None => Err(NsError::InvalidStartchar(lineno)),
                    Some(v) => if v >= NEWSTROKE_SLOTS {
                        Err(NsError::StartcharOutOfRange(lineno))
                    } else {
                        Ok(CharState { cp: v, ..st })
                    },
                }
            }
        } else if parts[0] == kw("font"@) {
            Ok(st)
        } else if parts[0] == kw("+"@) {
            if st.cp >= NEWSTROKE_SLOTS {
                Ok(st)
            } else if parts.len() < 2 {
                Err(NsError::MissingGlyphName(lineno))
            } else if parts.len() == 2 {
                match spec_build_single(syms, parts[1]) {
                    Err(()) => Err(NsError::GlyphRange(lineno)),
                    Ok(None) => Ok(
                        CharState {
                            cp: sat_add(st.cp, 1),
                            table: st.table,
                            diags: st.diags.push(NsDiag::UnknownSymbol(lineno)),
                        },
                    ),
                    Ok(Some(g)) => Ok(
                        CharState {
                            cp: sat_add(st.cp, 1),
                            table: st.table.update(st.cp, Some(g)),
                            diags: st.diags,
                        },
                    ),
                }
            } else {
                match spec_compose_two(syms, parts[1], spec_join(parts, 2)) {
                    Err(ComposeErr::UnknownBase) => Err(NsError::UnknownBaseSymbol(lineno)),
                    Err(ComposeErr::UnknownAccent) => Err(NsError::UnknownAccentSymbol(lineno)),
                    Err(ComposeErr::MissingAnchor) => Err(NsError::MissingBaseAnchor(lineno)),
                    Err(ComposeErr::Range) => Err(NsError::GlyphRange(lineno)),
                    Ok(g) => Ok(
                        CharState {
                            cp: sat_add(st.cp, 1),
                            table: st.table.update(st.cp, Some(g)),
                            diags: st.diags,
                        },
                    ),
                }
            }
        } else if parts[0] == kw("+w"@) || parts[0] == kw("+p"@) || parts[0] == kw("+("@) {
            Ok(
                CharState {
                    cp: sat_add(st.cp, 1),
                    table: st.table,
                    diags: st.diags.push(NsDiag::UnsupportedForm(lineno)),
                },
            )
        } else if parts[0] == kw("+|"@) || parts[0] == kw("+)"@) {
            Ok(
                CharState {
                    cp: st.cp,
                    table: st.table,
                    diags: st.diags.push(NsDiag::UnsupportedForm(lineno)),
                },
            )
        } else if parts[0] == kw("//"@) {
            Ok(st)
        } else if parts[0] == kw("skipcodes"@) {
            if parts.len() < 2 {
                Err(NsError::MissingSkipcodes(lineno))
            } else {
                match parse_uint(parts[1], u64::MAX as int) {
                    None => Err(NsError::InvalidSkipcodes(lineno)),
                    Some(k) => Ok(CharState { cp: sat_add(st.cp, k), ..st }),
                }
            }
        } else {
            Err(NsError::UnsupportedCommand(lineno))
        }
    }
}

/// The table and diagnostics the script lines from `i` on produce.
pub open spec fn spec_charlist_lines(
    ls: Seq<Seq<u8>>,
    i: int,
    syms: Seq<SymbolView>,
    st: CharState,
) -> Result<(Seq<Option<GlyphView>>, Seq<NsDiag>), NsError>
    decreases ls.len() - i,
{
    if i < 0 || i >= ls.len() {
        Ok((st.table, st.diags))
    } else {
        match spec_char_step(ls[i], (i + 1) as usize, syms, st) {
            Err(e) => Err(e),
            Ok(st2) => spec_charlist_lines(ls, i + 1, syms, st2),
        }
    }
}

/// The glyph table a whole character-list script builds over a symbol
/// table, together with the soft diagnostics reported along the way.
pub open spec fn spec_parse_charlist(s: Seq<u8>, syms: Seq<SymbolView>) -> Result<
    (Seq<Option<GlyphView>>, Seq<NsDiag>),
    NsError,
> {
    spec_parse_charlist_from(
        s,
        syms,
        CharState { cp: 0, table: Seq::new(NEWSTROKE_SLOTS as nat, |i: int| None), diags: Seq::empty() },
    )
}

/// The glyph table a character-list script builds from a given state.
pub open spec fn spec_parse_charlist_from(s: Seq<u8>, syms: Seq<SymbolView>, st: CharState) -> Result<
    (Seq<Option<GlyphView>>, Seq<NsDiag>),
    NsError,
> {
    spec_charlist_lines(spec_lines(s), 0, syms, st)
}

/// Parse the character-list script, containing the mapping from codepoint
/// to library symbol, into the final glyph table. Fatal script errors
/// abort the build; soft issues come back as diagnostics beside the
/// table.
pub fn parse_charlist(input: &[u8], font: &Vec<RawSymbol>) -> (r: Result<
    (FontTable, Vec<NsDiag>),
    NsError,
>)
    ensures
        match r {
            Ok(td) => spec_parse_charlist(input@, table_view(font@)) == Ok::<
                (Seq<Option<GlyphView>>, Seq<NsDiag>),
                NsError,
            >((td.0@, td.1@)),
            Err(e) => spec_parse_charlist(input@, table_view(font@)) == Err::<
                (Seq<Option<GlyphView>>, Seq<NsDiag>),
                NsError,
            >(e),
        },
{
    let ghost syms = table_view(font@);
    let lines = split_lines(input);
    let ghost ls = lines.deep_view();
    let n = lines.len();
    let mut table = FontTable::new(NEWSTROKE_SLOTS);
    let mut diags: Vec<NsDiag> = Vec::new();
    let mut codepoint: usize = 0;
    proof {
        crate::text::lemma_deep_view_is_views(&lines);
        assert(table@ =~= Seq::new(NEWSTROKE_SLOTS as nat, |i: int| None::<GlyphView>));
        assert(diags@ =~= Seq::<NsDiag>::empty());
    }
    let mut i: usize = 0;
    while i < n
        invariant
            syms == table_view(font@),
            ls == lines.deep_view(),
            n == lines@.len(),
            ls.len() == n,
            forall|k: int| 0 <= k < n ==> ls[k] == (#[trigger] lines@[k])@,
            i <= n,
            codepoint <= NEWSTROKE_SLOTS,
            table@.len() == NEWSTROKE_SLOTS,
            spec_parse_charlist(input@, syms) == spec_charlist_lines(
                ls,
                i as int,
                syms,
                CharState { cp: codepoint as int, table: table@, diags: diags@ },
            ),
        decreases n - i,
    {
        let ghost st0 = CharState { cp: codepoint as int, table: table@, diags: diags@ };
        let ghost lineno: usize = ((i + 1) as usize);
        let line = &lines[i];
        let trimmed = trim(line.as_slice());
        if trimmed.len() == 0 {
            i = i + 1;
            continue ;
        }
        let t0 = trimmed[0];
        if t0 == 35 || (trimmed.len() >= 2 && t0 == 47 && trimmed[1] == 47) {
            i = i + 1;
            continue ;
        }
        // remove a trailing comment if present
        let cut = find_byte_from(trimmed.as_slice(), 35, 0);
        let body_raw = copy_range(trimmed.as_slice(), 0, cut);
        let body = trim(body_raw.as_slice());
        let parts = tokenize(body.as_slice());
        let ghost pv = parts.deep_view();
        proof {
            crate::text::lemma_deep_view_is_views(&parts);
        }
        if parts.len() == 0 {
            i = i + 1;
            continue ;
        }
        if token_is(parts[0].as_slice(), "startchar") {
            if parts.len() < 2 {
                return Err(NsError::MissingStartchar(i + 1));
            }
            proof {
                assert(parts@[1]@.skip(0) =~= pv[1]);
            }
            let v = match parse_u64_from(parts[1].as_slice(), 0) {
                Some(v) => v,
                None => {
                    return Err(NsError::InvalidStartchar(i + 1));
                },
            };
            if v >= NEWSTROKE_SLOTS as u64 {
                return Err(NsError::StartcharOutOfRange(i + 1));
            }
            codepoint = v as usize;
        } else if token_is(parts[0].as_slice(), "font") {
            // only one font comes out; the command carries nothing
        } else if token_is(parts[0].as_slice(), "+") {
            if codepoint >= NEWSTROKE_SLOTS {
                i = i + 1;
                continue ;
            }
            if parts.len() < 2 {
                return Err(NsError::MissingGlyphName(i + 1));
            }
            if parts.len() == 2 {
                match build_single(font, parts[1].as_slice()) {
                    Err(()) => {
                        return Err(NsError::GlyphRange(i + 1));
                    },
                    Ok(None) => {
                        diags.push(NsDiag::UnknownSymbol(i + 1));
                        codepoint = codepoint + 1;
                    },
                    Ok(Some(g)) => {
                        table.set(codepoint, g);
                        codepoint = codepoint + 1;
                    },
                }
            } else {
                let b = crate::text::join_tokens(&parts, 2);
                match compose_two(font, parts[1].as_slice(), b.as_slice()) {
                    Err(ComposeErr::UnknownBase) => {
                        return Err(NsError::UnknownBaseSymbol(i + 1));
                    },
                    Err(ComposeErr::UnknownAccent) => {
                        return Err(NsError::UnknownAccentSymbol(i + 1));
                    },
                    Err(ComposeErr::MissingAnchor) => {
                        return Err(NsError::MissingBaseAnchor(i + 1));
                    },
                    Err(ComposeErr::Range) => {
                        return Err(NsError::GlyphRange(i + 1));
                    },
                    Ok(g) => {
                        table.set(codepoint, g);
                        codepoint = codepoint + 1;
                    },
                }
            }
        } else if token_is(parts[0].as_slice(), "+w") || token_is(parts[0].as_slice(), "+p")
            || token_is(parts[0].as_slice(), "+(") {
            diags.push(NsDiag::UnsupportedForm(i + 1));
            if codepoint < NEWSTROKE_SLOTS {
                codepoint = codepoint + 1;
            }
        } else if token_is(parts[0].as_slice(), "+|") || token_is(parts[0].as_slice(), "+)") {
            diags.push(NsDiag::UnsupportedForm(i + 1));
        } else if token_is(parts[0].as_slice(), "//") {
            // a comment line
        } else if token_is(parts[0].as_slice(), "skipcodes") {
            if parts.len() < 2 {
                return Err(NsError::MissingSkipcodes(i + 1));
            }
            proof {
                assert(parts@[1]@.skip(0) =~= pv[1]);
            }
            let k = match parse_u64_from(parts[1].as_slice(), 0) {
                Some(v) => v,
                None => {
                    return Err(NsError::InvalidSkipcodes(i + 1));
                },
            };
            if k >= (NEWSTROKE_SLOTS - codepoint) as u64 {
                codepoint = NEWSTROKE_SLOTS;
            } else {
                codepoint = codepoint + k as usize;
            }
        } else {
            return Err(NsError::UnsupportedCommand(i + 1));
        }
        proof {
            let st1 = CharState { cp: codepoint as int, table: table@, diags: diags@ };
            assert(spec_char_step(ls[i as int], lineno, syms, st0) == Ok::<CharState, NsError>(
                st1,
            ));
        }
        i = i + 1;
    }
    Ok((table, diags))
}

/// Merge two symbol tables: the second file's definitions follow the
/// first's, and the last-wins lookup rule makes the second override the
/// first on a name collision.
pub fn merge_symbol_tables(first: Vec<RawSymbol>, second: Vec<RawSymbol>) -> (r: Vec<RawSymbol>)
    ensures
        table_view(r@) == table_view(first@) + table_view(second@),
{
    let ghost fv = table_view(first@);
    let ghost sv = table_view(second@);
    let mut r = first;
    let mut rest = second;
    proof {
        assert(table_view(r@) =~= fv + sv.take(0));
        assert(table_view(rest@) =~= sv.skip(0));
    }
    let ghost total = sv.len() as int;
    let ghost mut i: int = 0;
    while rest.len() > 0
        invariant
            total == sv.len(),
            0 <= i <= total,
            rest@.len() == total - i,
            table_view(rest@) == sv.skip(i),
            table_view(r@) == fv + sv.take(i),
        decreases rest@.len(),
    {
        let ghost before = table_view(r@);
        let ghost rest_before = table_view(rest@);
        let s = rest.remove(0);
        proof {
            assert(s@ == rest_before[0]);
            assert(sv.skip(i)[0] == sv[i]);
            assert(rest_before[0] == sv[i]);
            assert(table_view(rest@) =~= rest_before.skip(1));
            assert(sv.skip(i).skip(1) =~= sv.skip(i + 1));
            assert(rest_before.skip(1) =~= sv.skip(i + 1));
        }
        r.push(s);
        proof {
            assert(table_view(r@) =~= before.push(sv[i]));
            assert(before.push(sv[i]) =~= fv + sv.take(i + 1));
            i = i + 1;
        }
    }
    proof {
        assert(sv.take(total) =~= sv);
    }
    r
}

/// Looking a name up in a merged table finds the second table's
/// definition when it has one, and the first table's otherwise: the
/// second library file overrides the first on a name collision.
pub proof fn lemma_merge_lookup(a: Seq<SymbolView>, b: Seq<SymbolView>, name: Seq<u8>)
    ensures
        sym_lookup(a + b, name) == match sym_lookup(b, name) {
            Some(s) => Some(s),
            None => sym_lookup(a, name),
        },
    decreases b.len(),
{
    if b.len() == 0 {
        assert(a + b =~= a);
    } else {
        assert((a + b).last() == b.last());
        assert((a + b).drop_last() =~= a + b.drop_last());
        lemma_merge_lookup(a, b.drop_last(), name);
    }
}

/// Building a symbol under the horizontal-mirror sigil `!` swaps and
/// negates its side-bearings: a symbol with bearings `(left, right)`
/// comes out with bearings `(-right, -left)`.
pub proof fn lemma_mirror_metrics(tbl: Seq<SymbolView>, name: Seq<u8>, g: GlyphView)
    requires
        name.len() > 0,
        name[0] == 33,
        spec_build_single(tbl, name) == Ok::<Option<GlyphView>, ()>(Some(g)),
    ensures
        sym_lookup(tbl, name.drop_first()) is Some,
        g.left as int == -(sym_lookup(tbl, name.drop_first())->0.right as int),
        g.right as int == -(sym_lookup(tbl, name.drop_first())->0.left as int),
{
}

/// With both symbols under the identity transform, the composition
/// offset is exactly the difference between the base anchor and the
/// accent anchor: `(bx - ax, by - ay)`.
pub proof fn lemma_identity_anchor_offset(
    base: SymbolView,
    accent: SymbolView,
    anchor: Seq<u8>,
    off: (i8, i8),
)
    requires
        find_byte(anchor, 61, 0) == anchor.len(),
        spec_anchor_offset(base, accent, Some(anchor), identity_transform(), identity_transform())
            == Ok::<(i8, i8), ComposeErr>(off),
    ensures
        anchor_lookup(base.anchors, anchor) is Some,
        ({
            let bp = anchor_lookup(base.anchors, anchor)->0;
            let ap = match anchor_lookup(accent.anchors, anchor) {
                Some(p) => p,
                None => (0i8, 0i8),
            };
            off.0 == bp.0 - ap.0 && off.1 == bp.1 - ap.1
        }),
{
    assert(anchor.subrange(0, anchor.len() as int) =~= anchor);
}

/// Under the identity transform, rendering a symbol's strokes at an
/// offset gives exactly the points rendered at the origin, translated by
/// that offset, point for point. This is how a composed glyph places its
/// accent: translated by the anchor difference, nothing more.
pub proof fn lemma_identity_points_translate(
    strokes: Seq<Seq<(i8, i8)>>,
    ox: int,
    oy: int,
)
    requires
        sym_points(strokes, identity_transform(), 0, 0) is Ok,
        sym_points(strokes, identity_transform(), ox, oy) is Ok,
    ensures
        ({
            let p0 = sym_points(strokes, identity_transform(), 0, 0)->Ok_0;
            let p1 = sym_points(strokes, identity_transform(), ox, oy)->Ok_0;
            &&& p1.len() == p0.len()
            &&& forall|j: int|
                0 <= j < p0.len() ==> (#[trigger] p1[j]).x == p0[j].x + ox && p1[j].y == p0[j].y
                    + oy && p1[j].pen == p0[j].pen
        }),
    decreases strokes.len(),
{
    if strokes.len() > 0 {
        lemma_identity_stroke_translate(strokes[0], ox, oy, true);
        lemma_identity_points_translate(strokes.drop_first(), ox, oy);
        let h0 = stroke_points(strokes[0], identity_transform(), 0, 0, true)->Ok_0;
        let h1 = stroke_points(strokes[0], identity_transform(), ox, oy, true)->Ok_0;
        let r0 = sym_points(strokes.drop_first(), identity_transform(), 0, 0)->Ok_0;
        let r1 = sym_points(strokes.drop_first(), identity_transform(), ox, oy)->Ok_0;
        assert forall|j: int|
            0 <= j < (h0 + r0).len() implies (#[trigger] (h1 + r1)[j]).x == (h0 + r0)[j].x + ox
            && (h1 + r1)[j].y == (h0 + r0)[j].y + oy && (h1 + r1)[j].pen == (h0 + r0)[j].pen by {
            if j < h0.len() {
                assert((h1 + r1)[j] == h1[j]);
                assert((h0 + r0)[j] == h0[j]);
            } else {
                assert((h1 + r1)[j] == r1[j - h0.len()]);
                assert((h0 + r0)[j] == r0[j - h0.len()]);
            }
        }
    }
}

/// One stroke's points translate with the offset under the identity
/// transform.
proof fn lemma_identity_stroke_translate(stroke: Seq<(i8, i8)>, ox: int, oy: int, first: bool)
    requires
        stroke_points(stroke, identity_transform(), 0, 0, first) is Ok,
        stroke_points(stroke, identity_transform(), ox, oy, first) is Ok,
    ensures
        ({
            let p0 = stroke_points(stroke, identity_transform(), 0, 0, first)->Ok_0;
            let p1 = stroke_points(stroke, identity_transform(), ox, oy, first)->Ok_0;
            &&& p1.len() == p0.len()
            &&& forall|j: int|
                0 <= j < p0.len() ==> (#[trigger] p1[j]).x == p0[j].x + ox && p1[j].y == p0[j].y
                    + oy && p1[j].pen == p0[j].pen
        }),
    decreases stroke.len(),
{
    if stroke.len() > 0 {
        lemma_identity_stroke_translate(stroke.drop_first(), ox, oy, false);
    }
}

/// Building the table is a pure function of the library and script
/// bytes: two successful builds over the same inputs yield identical
/// tables, slot for slot.
pub proof fn lemma_build_pure(
    script: Seq<u8>,
    syms: Seq<SymbolView>,
    r1: (Seq<Option<GlyphView>>, Seq<NsDiag>),
    r2: (Seq<Option<GlyphView>>, Seq<NsDiag>),
)
    requires
        spec_parse_charlist(script, syms) == Ok::<(Seq<Option<GlyphView>>, Seq<NsDiag>), NsError>(
            r1,
        ),
        spec_parse_charlist(script, syms) == Ok::<(Seq<Option<GlyphView>>, Seq<NsDiag>), NsError>(
            r2,
        ),
    ensures
        r1 == r2,
{
}

/// A [`Renderer`] which draws text using the NewStroke font: each
/// character's codepoint indexes the composed table directly.
pub struct NewstrokeRenderer;

impl<'a> Renderer<&'a FontTable> for NewstrokeRenderer {
    open spec fn spec_resolved(text: Seq<char>, table: &'a FontTable) -> Seq<Option<GlyphView>> {
        spec_resolve_direct(text, table@)
    }

    fn render_text(text: &str, table: &'a FontTable) -> (r: Vec<Point>) {
        let resolved = resolve_direct(text, table);
        render_resolved(&resolved)
    }
}

} // verus!
