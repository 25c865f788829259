//! Decoder for the Hershey stroke-font text format and its codepoint
//! mapping files, and the renderer over its 4000-slot tables.
//!
//! Each glyph record is one logical line: a 5-character right-justified
//! glyph ID, one space, a 2-character vertex count (unused: the stream's
//! own length decides), then character pairs. Each character encodes one
//! coordinate axis as its byte value less `'R'`. The first pair is the
//! left/right side-bearings; the pair `" R"` is a pen-lift marker. A
//! physical line of exactly 72 characters continues on the next line.

use vstd::prelude::*;

use crate::glyph::{FontTable, Glyph, GlyphView, PackedPoint, Point};
use crate::render::{render_resolved, view_resolved, Renderer};
use crate::text::{
    copy_range, find_byte, find_byte_from, parse_u64_from, parse_uint, spec_lines, spec_trim,
    split_lines, trim,
};

verus! {

/// How many glyph slots a Hershey table has.
pub const HERSHEY_SLOTS: usize = 4000;

/// The coordinate value a Hershey character encodes: its byte value less
/// `'R'`, truncated to the glyph's 8-bit coordinate space.
pub open spec fn hershey_val(b: u8) -> i8 {
    let v = b - 82;
    if v > 127 {
        (v - 256) as i8
    } else {
        v as i8
    }
}

/// Decode one Hershey coordinate character.
fn hershey_coord(b: u8) -> (r: i8)
    ensures
        r == hershey_val(b),
{
    if b > 209 {
        ((b as i16) - 82 - 256) as i8
    } else {
        ((b as i16) - 82) as i8
    }
}

/// The stroke points encoded by the coordinate characters of `cs` from
/// position `i` on, with the pen initially as given. The pair `" R"`
/// emits nothing and lifts the pen, so the next pair becomes a move; any
/// other pair emits a point and puts the pen down for its successors. A
/// trailing unpaired character is dropped.
pub open spec fn hershey_points(cs: Seq<u8>, i: int, pen: bool) -> Seq<PackedPoint>
    decreases cs.len() - i,
{
    if i < 0 || i + 2 > cs.len() {
        Seq::empty()
    } else if cs[i] == 32 && cs[i + 1] == 82 {
        hershey_points(cs, i + 2, false)
    } else {
        seq![PackedPoint { x: hershey_val(cs[i]), y: hershey_val(cs[i + 1]), pen }]
            + hershey_points(cs, i + 2, true)
    }
}

/// The glyph one logical record line holds, with its ID: the first five
/// characters, trimmed, must parse as an ID up to 65535, and the line must
/// reach the side-bearing pair; anything else drops the record.
pub open spec fn spec_from_line(line: Seq<u8>) -> Result<(int, GlyphView), ()> {
    let lim = if line.len() < 5 {
        line.len() as int
    } else {
        5
    };
    match parse_uint(spec_trim(line.subrange(0, lim)), 65535) {
        None => Err(()),
        Some(id) => if line.len() < 10 {
            Err(())
        } else {
            let cs = line.skip(8);
            Ok(
                (
                    id,
                    GlyphView {
                        left: hershey_val(cs[0]),
                        right: hershey_val(cs[1]),
                        strokes: hershey_points(cs, 2, false),
                    },
                ),
            )
        },
    }
}

/// Parse a single logical line of the Hershey format into a glyph.
pub fn from_line(line: &[u8]) -> (r: Result<(u16, Glyph), ()>)
    ensures
        match r {
            Ok((id, g)) => spec_from_line(line@) == Ok::<(int, GlyphView), ()>((id as int, g@)),
            Err(()) => spec_from_line(line@) == Err::<(int, GlyphView), ()>(()),
        },
{
    let lim: usize = if line.len() < 5 {
        line.len()
    } else {
        5
    };
    let id_field = copy_range(line, 0, lim);
    let id_trimmed = trim(id_field.as_slice());
    let id = match parse_u64_from(id_trimmed.as_slice(), 0) {
        Some(v) if v <= 65535 => v as u16,
        _ => {
            proof {
                assert(id_trimmed@.skip(0) =~= id_trimmed@);
            }
            return Err(());
        },
    };
    proof {
        assert(id_trimmed@.skip(0) =~= id_trimmed@);
    }
    if line.len() < 10 {
        return Err(());
    }
    let ghost cs = line@.skip(8);
    let left = hershey_coord(line[8]);
    let right = hershey_coord(line[9]);
    let mut strokes: Vec<PackedPoint> = Vec::new();
    let mut pen = false;
    let mut i: usize = 10;
    proof {
        assert(cs[0] == line@[8]);
        assert(cs[1] == line@[9]);
        assert(Seq::<PackedPoint>::empty() + hershey_points(cs, 2, false) =~= hershey_points(
            cs,
            2,
            false,
        ));
    }
    while i < line.len() - 1
        invariant
            cs == line@.skip(8),
            line@.len() >= 10,
            10 <= i,
            i <= line@.len() + 1,
            i - 8 <= cs.len() + 2,
            hershey_points(cs, 2, false) == strokes@ + hershey_points(cs, i - 8, pen),
        decreases line@.len() - i,
    {
        let xch = line[i];
        let ych = line[i + 1];
        proof {
            assert(cs[i - 8] == line@[i as int]);
            assert(cs[i - 8 + 1] == line@[i + 1]);
        }
        if xch == 32 && ych == 82 {
            // lift pen for the next stroke
            pen = false;
        } else {
            let pt = PackedPoint { x: hershey_coord(xch), y: hershey_coord(ych), pen };
            let ghost old_strokes = strokes@;
            strokes.push(pt);
            proof {
                assert(strokes@ =~= old_strokes.push(pt));
                assert(old_strokes + (seq![pt] + hershey_points(cs, i - 8 + 2, true)) =~= strokes@
                    + hershey_points(cs, i - 8 + 2, true));
            }
            // the pen stays down for the rest of this stroke
            pen = true;
        }
        i = i + 2;
    }
    proof {
        assert(hershey_points(cs, i - 8, pen) =~= Seq::<PackedPoint>::empty());
        assert(strokes@ + Seq::<PackedPoint>::empty() =~= strokes@);
    }
    Ok((id, Glyph { left, right, strokes }))
}

/// The index just past the last physical line of the record starting at
/// line `i`: lines of exactly 72 characters chain to their successor.
pub open spec fn rec_end(ls: Seq<Seq<u8>>, i: int) -> int
    decreases ls.len() - i,
{
    if i < 0 || i >= ls.len() {
        i
    } else if ls[i].len() == 72 {
        rec_end(ls, i + 1)
    } else {
        i + 1
    }
}

/// The logical record starting at line `i`: its physical lines joined.
pub open spec fn rec_joined(ls: Seq<Seq<u8>>, i: int) -> Seq<u8>
    decreases ls.len() - i,
{
    if i < 0 || i >= ls.len() {
        Seq::empty()
    } else if ls[i].len() == 72 {
        ls[i] + rec_joined(ls, i + 1)
    } else {
        ls[i]
    }
}

/// A record always spans at least one line and never runs past the end.
pub proof fn lemma_rec_end_bounds(ls: Seq<Seq<u8>>, i: int)
    requires
        0 <= i <= ls.len(),
    ensures
        i <= rec_end(ls, i) <= ls.len(),
        i < ls.len() ==> i < rec_end(ls, i),
    decreases ls.len() - i,
{
    if i < ls.len() && ls[i].len() == 72 {
        lemma_rec_end_bounds(ls, i + 1);
    }
}

/// The table the lines of a Hershey file build, from line `i` on: each
/// logical record parsed, records with IDs outside the table dropped.
pub open spec fn spec_load(ls: Seq<Seq<u8>>, i: int, acc: Seq<Option<GlyphView>>) -> Seq<
    Option<GlyphView>,
>
    decreases ls.len() - i,
    via spec_load_decreases
{
    if i < 0 || i >= ls.len() {
        acc
    } else if ls[i].len() == 0 {
        spec_load(ls, i + 1, acc)
    } else {
        let acc2 = match spec_from_line(rec_joined(ls, i)) {
            Ok((id, g)) => if id < HERSHEY_SLOTS {
                acc.update(id, Some(g))
            } else {
                acc
            },
            Err(()) => acc,
        };
        spec_load(ls, rec_end(ls, i), acc2)
    }
}

#[via_fn]
proof fn spec_load_decreases(ls: Seq<Seq<u8>>, i: int, acc: Seq<Option<GlyphView>>) {
    if 0 <= i < ls.len() {
        lemma_rec_end_bounds(ls, i);
    }
}

/// The 4000-slot table a whole Hershey file decodes to.
pub open spec fn spec_load_file(s: Seq<u8>) -> Seq<Option<GlyphView>> {
    spec_load(spec_lines(s), 0, Seq::new(HERSHEY_SLOTS as nat, |i: int| None))
}

/// Load a file of glyph definitions in Hershey format. Malformed records
/// and out-of-range IDs are dropped; loading never fails.
pub fn load_file(file: &[u8]) -> (t: FontTable)
    ensures
        t@ == spec_load_file(file@),
{
    let lines = split_lines(file);
    let ghost ls = lines.deep_view();
    let n = lines.len();
    let mut table = FontTable::new(HERSHEY_SLOTS);
    proof {
        crate::text::lemma_deep_view_is_views(&lines);
        assert(table@ =~= Seq::new(HERSHEY_SLOTS as nat, |i: int| None::<GlyphView>));
    }
    let mut i: usize = 0;
    while i < n
        invariant
            ls == lines.deep_view(),
            n == lines@.len(),
            ls.len() == n,
            forall|k: int| 0 <= k < n ==> ls[k] == (#[trigger] lines@[k])@,
            i <= n,
            table@.len() == HERSHEY_SLOTS,
            spec_load_file(file@) == spec_load(ls, i as int, table@),
            spec_lines(file@) == ls,
        decreases n - i,
    {
        let line = &lines[i];
        if line.len() == 0 {
            i = i + 1;
            continue ;
        }
        // Gather continuation lines: a 72-character line joins its
        // successor.
        let mut full = copy_range(line.as_slice(), 0, line.len());
        proof {
            assert(full@ =~= ls[i as int]);
        }
        let mut j = i;
        let mut next_i = i + 1;
        while lines[j].len() == 72 && next_i < n
            invariant
                ls == lines.deep_view(),
                n == lines@.len(),
                ls.len() == n,
                forall|k: int| 0 <= k < n ==> ls[k] == (#[trigger] lines@[k])@,
                0 <= i as int <= j < n,
                next_i == j + 1,
                ls[j as int].len() == 72 ==> rec_joined(ls, i as int) == full@ + rec_joined(
                    ls,
                    j + 1,
                ) && rec_end(ls, i as int) == rec_end(ls, j + 1),
                ls[j as int].len() != 72 ==> rec_joined(ls, i as int) == full@ && rec_end(
                    ls,
                    i as int,
                ) == j + 1,
            decreases n - j,
        {
            j = next_i;
            let cont = &lines[j];
            let ghost full_before = full@;
            let mut k: usize = 0;
            while k < cont.len()
                invariant
                    k <= cont@.len(),
                    full@ == full_before + cont@.take(k as int),
                decreases cont@.len() - k,
            {
                full.push(cont[k]);
                proof {
                    assert(full@ =~= full_before + cont@.take(k + 1));
                }
                k = k + 1;
            }
            proof {
                assert(cont@.take(cont@.len() as int) =~= cont@);
                assert(full@ == full_before + ls[j as int]);
            }
            next_i = j + 1;
        }
        if lines[j].len() == 72 {
            // the final line still asked for a continuation: the record
            // ends with the file
            next_i = n;
            proof {
                assert(rec_joined(ls, j + 1) =~= Seq::<u8>::empty());
                assert(full@ + Seq::<u8>::empty() =~= full@);
                assert(rec_end(ls, j + 1) == n);
            }
        }
        proof {
            assert(rec_joined(ls, i as int) == full@);
            assert(rec_end(ls, i as int) == next_i);
        }

        let ghost pre_table = table@;
        match from_line(full.as_slice()) {
            Ok((id, glyph)) => {
                if (id as usize) < HERSHEY_SLOTS {
                    table.set(id as usize, glyph);
                }
            },
            Err(()) => (),
        }
        proof {
            assert(spec_load(ls, i as int, pre_table) == spec_load(ls, next_i as int, table@));
        }
        i = next_i;
    }
    table
}

/// A 256-entry array mapping output codepoint to Hershey glyph ID, where
/// ID 0 means "no glyph".
pub type FontMapping = Vec<u16>;

/// The ID stored for one assigned codepoint: the Hershey ID truncated to
/// 16 bits.
pub open spec fn map_id(f: int, off: int) -> u16 {
    ((f + off) % 65536) as u16
}

/// `acc` with `cnt` consecutive IDs starting at `f` assigned to
/// codepoints from `cp` on; assignments outside the 256-entry range fall
/// away.
pub open spec fn assign_range(acc: Seq<u16>, cp: int, f: int, cnt: int) -> Seq<u16> {
    Seq::new(
        256,
        |t: int|
            if cp <= t < cp + cnt {
                map_id(f, t - cp)
            } else {
                acc[t]
            },
    )
}

/// What one mapping line does to the codepoint cursor and the table: two
/// space-separated integers `first last` assign the inclusive ID range
/// (`last == 0` meaning the single ID `first`) to consecutive codepoints;
/// a malformed line assigns nothing and moves nothing.
pub open spec fn spec_mapping_line(l: Seq<u8>, cp: int, acc: Seq<u16>) -> (int, Seq<u16>) {
    let sp1 = find_byte(l, 32, 0);
    if sp1 >= l.len() {
        (cp, acc)
    } else {
        let sp2 = find_byte(l, 32, sp1 + 1);
        let first = parse_uint(l.subrange(0, sp1), u64::MAX as int);
        let second = parse_uint(l.subrange(sp1 + 1, sp2), u64::MAX as int);
        match (first, second) {
            (Some(f), Some(snd)) => {
                let last = if snd == 0 {
                    f
                } else {
                    snd
                };
                if last < f {
                    (cp, acc)
                } else {
                    (cp + (last - f + 1), assign_range(acc, cp, f, last - f + 1))
                }
            },
            _ => (cp, acc),
        }
    }
}

/// The mapping table the lines from `i` on build, with the codepoint
/// cursor at `cp`.
pub open spec fn spec_mapping_lines(ls: Seq<Seq<u8>>, i: int, cp: int, acc: Seq<u16>) -> Seq<u16>
    decreases ls.len() - i,
{
    if i < 0 || i >= ls.len() {
        acc
    } else if ls[i].len() == 0 {
        spec_mapping_lines(ls, i + 1, cp, acc)
    } else {
        let step = spec_mapping_line(ls[i], cp, acc);
        spec_mapping_lines(ls, i + 1, step.0, step.1)
    }
}

/// The mapping a whole file decodes to: assignments start at codepoint 32
/// over an all-zero table.
pub open spec fn spec_load_mapping(s: Seq<u8>) -> Seq<u16> {
    spec_mapping_lines(spec_lines(s), 0, 32, Seq::new(256, |i: int| 0u16))
}

/// Load a mapping file describing the symbols contained within a font.
/// Malformed lines are skipped; loading never fails.
pub fn load_mapping(file: &[u8]) -> (r: FontMapping)
    ensures
        r@.len() == 256,
        r@ == spec_load_mapping(file@),
{
    let lines = split_lines(file);
    let ghost ls = lines.deep_view();
    let n = lines.len();
    let mut result: Vec<u16> = Vec::new();
    let mut z: usize = 0;
    while z < 256
        invariant
            z <= 256,
            result@.len() == z,
            forall|t: int| 0 <= t < z ==> result@[t] == 0u16,
        decreases 256 - z,
    {
        result.push(0);
        z = z + 1;
    }
    proof {
        crate::text::lemma_deep_view_is_views(&lines);
        assert(result@ =~= Seq::new(256, |i: int| 0u16));
    }
    let mut codepoint: usize = 32;
    let ghost mut cp_spec: int = 32;
    let mut i: usize = 0;
    while i < n
        invariant
            ls == lines.deep_view(),
            n == lines@.len(),
            ls.len() == n,
            forall|k: int| 0 <= k < n ==> ls[k] == (#[trigger] lines@[k])@,
            i <= n,
            result@.len() == 256,
            codepoint <= 256,
            codepoint as int == if cp_spec <= 256 {
                cp_spec
            } else {
                256
            },
            spec_load_mapping(file@) == spec_mapping_lines(ls, i as int, cp_spec, result@),
            spec_lines(file@) == ls,
        decreases n - i,
    {
        let line = &lines[i];
        let ghost l = ls[i as int];
        if line.len() == 0 {
            i = i + 1;
            continue ;
        }
        let sp1 = find_byte_from(line.as_slice(), 32, 0);
        if sp1 >= line.len() {
            i = i + 1;
            continue ;
        }
        let sp2 = find_byte_from(line.as_slice(), 32, sp1 + 1);
        let first_tok = copy_range(line.as_slice(), 0, sp1);
        let second_tok = copy_range(line.as_slice(), sp1 + 1, sp2);
        proof {
            assert(first_tok@.skip(0) =~= first_tok@);
            assert(second_tok@.skip(0) =~= second_tok@);
        }
        let f = match parse_u64_from(first_tok.as_slice(), 0) {
            Some(v) => v,
            None => {
                i = i + 1;
                continue ;
            },
        };
        let snd = match parse_u64_from(second_tok.as_slice(), 0) {
            Some(v) => v,
            None => {
                i = i + 1;
                continue ;
            },
        };
        let last: u64 = if snd == 0 {
            f
        } else {
            snd
        };
        if last < f {
            i = i + 1;
            continue ;
        }
        let cnt: u128 = last as u128 - f as u128 + 1;
        let ghost cp0 = cp_spec;
        let ghost acc0 = result@;
        let mut k: u128 = 0;
        while codepoint < 256 && k < cnt
            invariant
                0 <= k <= cnt,
                cnt == last - f + 1,
                f <= last,
                result@.len() == 256,
                codepoint as int == if cp0 + k <= 256 {
                    cp0 + k
                } else {
                    256
                },
                cp0 >= 0,
                codepoint <= 256,
                result@ =~= Seq::new(
                    256,
                    |t: int|
                        if cp0 <= t < cp0 + k {
                            map_id(f as int, t - cp0)
                        } else {
                            acc0[t]
                        },
                ),
            decreases cnt - k,
        {
            let id: u64 = ((f as u128 + k) % 65536) as u64;
            result.set(codepoint, id as u16);
            proof {
                assert(f as u128 + k <= last as u128);
                assert(result@ =~= Seq::new(
                    256,
                    |t: int|
                        if cp0 <= t < cp0 + (k + 1) {
                            map_id(f as int, t - cp0)
                        } else {
                            acc0[t]
                        },
                ));
            }
            codepoint = codepoint + 1;
            k = k + 1;
        }
        proof {
            if k == cnt {
                assert(result@ =~= assign_range(acc0, cp0, f as int, cnt as int));
            } else {
                assert(codepoint == 256);
                assert(cp0 + k >= 256);
                assert(result@ =~= assign_range(acc0, cp0, f as int, cnt as int));
            }
            cp_spec = cp0 + cnt;
            assert(codepoint as int == if cp_spec <= 256 {
                cp_spec
            } else {
                256
            });
            assert(spec_mapping_line(l, cp0, acc0) == (cp_spec, result@));
            assert(spec_mapping_lines(ls, i as int, cp0, acc0) == spec_mapping_lines(
                ls,
                i + 1,
                cp_spec,
                result@,
            ));
        }
        i = i + 1;
    }
    result
}

/// Loading is a pure function of the input bytes: two loads of the same
/// glyph file yield identical tables, slot for slot, and likewise for
/// mapping files.
pub proof fn lemma_load_pure(
    s: Seq<u8>,
    t1: Seq<Option<GlyphView>>,
    t2: Seq<Option<GlyphView>>,
    m1: Seq<u16>,
    m2: Seq<u16>,
)
    requires
        t1 == spec_load_file(s),
        t2 == spec_load_file(s),
        m1 == spec_load_mapping(s),
        m2 == spec_load_mapping(s),
    ensures
        t1 == t2,
        m1 == m2,
{
}

/// The glyph a Hershey face assigns to one character: the codepoint
/// selects a glyph ID through the face's mapping, and the ID selects a
/// glyph from the shared table; codepoints past the mapping, ID 0, and
/// IDs outside the table all yield no glyph.
pub open spec fn hershey_lookup(t: Seq<Option<GlyphView>>, m: Seq<u16>, c: char) -> Option<
    GlyphView,
> {
    if c as int > 255 || c as int >= m.len() {
        None
    } else {
        let id = m[c as int] as int;
        if id == 0 || id >= t.len() {
            None
        } else {
            t[id]
        }
    }
}

/// A decoded Hershey glyph table paired with one installable face's
/// codepoint mapping (the decoded form of one mapping file).
#[derive(Clone, Copy)]
pub struct HersheyFace<'a> {
    /// The shared glyph table.
    pub glyphs: &'a FontTable,
    /// The 256-entry codepoint-to-ID mapping; ID 0 means "no glyph".
    pub mapping: &'a FontMapping,
}

/// The resolution a Hershey face performs, character by character.
pub open spec fn spec_resolve_text<'a>(text: Seq<char>, face: HersheyFace<'a>) -> Seq<
    Option<GlyphView>,
> {
    text.map(|i: int, c: char| hershey_lookup(face.glyphs@, face.mapping@, c))
}

/// A [`Renderer`] which draws text using Hershey fonts.
pub struct HersheyRenderer;

impl<'a> Renderer<HersheyFace<'a>> for HersheyRenderer {
    open spec fn spec_resolved(text: Seq<char>, face: HersheyFace<'a>) -> Seq<Option<GlyphView>> {
        spec_resolve_text(text, face)
    }

    fn render_text(text: &str, face: HersheyFace<'a>) -> (r: Vec<Point>) {
        let n = text.unicode_len();
        let mut resolved: Vec<Option<&Glyph>> = Vec::new();
        let mut i: usize = 0;
        proof {
            assert(view_resolved(resolved@) =~= spec_resolve_text(text@, face).take(0));
        }
        while i < n
            invariant
                n == text@.len(),
                i <= n,
                view_resolved(resolved@) == spec_resolve_text(text@, face).take(i as int),
            decreases n - i,
        {
            let c = text.get_char(i);
            let cp = c as u32;
            let g: Option<&Glyph> = if cp > 255 || cp as usize >= face.mapping.len() {
                None
            } else {
                let id = face.mapping[cp as usize] as usize;
                if id == 0 {
                    None
                } else {
                    face.glyphs.lookup(id)
                }
            };
            let ghost old_r = resolved@;
            resolved.push(g);
            proof {
                assert(resolved@ =~= old_r.push(g));
                assert(view_resolved(resolved@) =~= view_resolved(old_r).push(match g {
                    Some(gl) => Some(gl@),
                    None => None,
                }));
                assert(hershey_lookup(face.glyphs@, face.mapping@, c) == (match g {
                    Some(gl) => Some(gl@),
                    None => None,
                }));
                assert(view_resolved(resolved@) =~= spec_resolve_text(text@, face).take(
                    i as int + 1,
                ));
            }
            i = i + 1;
        }
        proof {
            assert(spec_resolve_text(text@, face).take(n as int) =~= spec_resolve_text(
                text@,
                face,
            ));
        }
        render_resolved(&resolved)
    }
}

} // verus!
