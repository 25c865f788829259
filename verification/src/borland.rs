//! Decoder for the Borland Graphics Interface stroked-font container
//! format (`.CHR` files), and the renderer over its 256-slot tables.
//!
//! The container holds an 8-byte magic signature, a terminator-delimited
//! description, a small header, per-character stroke-data offsets and
//! widths, and then one stroke path per character. Stroke paths are
//! sequences of 2-byte packed coordinates: the top bits of the two bytes
//! form a 2-bit opcode, and the low 7 bits of each byte are a signed
//! 7-bit two's-complement coordinate.

use vstd::prelude::*;

use crate::glyph::{FontTable, Glyph, GlyphView, PackedPoint, Point};
use crate::render::{render_resolved, resolve_direct, spec_resolve_direct, Renderer};
use crate::text::{find_byte, lemma_find_byte_at};

verus! {

broadcast use vstd::std_specs::control_flow::group_control_flow_axioms;

/// Why decoding a Borland container failed. Decode-time errors are strict:
/// any of these aborts table construction entirely.
#[derive(Debug, Clone, Copy, PartialEq, Eq, Structural)]
pub enum DecodeError {
    /// A read or seek reached past the end of the buffer.
    UnexpectedEnd,
    /// The 8-byte magic signature did not match.
    BadMagic,
    /// The 16-bit header-end marker was not 0x0001.
    BadHeaderEnd,
    /// The one-byte data-section signature was not `+`.
    BadSignature,
    /// The cursor did not sit at offset 0x90 after the header fields.
    BadHeaderLayout,
    /// A stroke definition used the unsupported raster-scan opcode.
    ScanCommand,
    /// A character's codepoint fell outside the 256-slot table.
    CharOutOfRange,
}

/// The value of a 7-bit two's-complement field, reinterpreted as a signed
/// 8-bit integer: bit 6 is the sign bit; the top bit of the byte is
/// ignored.
pub open spec fn decode7(b: u8) -> i8 {
    let v = (b % 128) as int;
    if v >= 64 {
        (v - 128) as i8
    } else {
        v as i8
    }
}

/// Parse the "7-bit signed integer" format used for X and Y coordinates.
pub fn parse_7bit_signed(input: u8) -> (r: i8)
    ensures
        r == decode7(input),
        -64 <= r <= 63,
{
    let masked = input & 0x7F;
    proof {
        assert(input & 0x7F == input % 128) by (bit_vector);
    }
    if masked >= 64 {
        (masked as i16 - 128) as i8
    } else {
        masked as i8
    }
}

/// A decoded 7-bit value is in `[-64, 63]`, it round-trips through its own
/// 7-bit encoding, and decoding is idempotent on its output range: for any
/// value in `[-64, 63]`, decoding its 7-bit two's-complement form gives the
/// value back, so decoding what a decode produced changes nothing.
pub proof fn lemma_decode7_round_trip(v: i8, b: u8)
    requires
        -64 <= v <= 63,
    ensures
        decode7((v as u8) % 128) == v,
        -64 <= decode7(b) <= 63,
        decode7((decode7(b) as u8) % 128) == decode7(b),
{
    assert(decode7((v as u8) % 128) == v) by (bit_vector)
        requires
            -64 <= v <= 63,
    ;
    assert(-64 <= decode7(b) <= 63) by (bit_vector);
    let d = decode7(b);
    assert(decode7((d as u8) % 128) == d) by (bit_vector)
        requires
            -64 <= d <= 63,
    ;
}

/// The 16-bit little-endian value stored at position `p`.
pub open spec fn u16_le_at(s: Seq<u8>, p: int) -> int {
    s[p] + 256 * s[p + 1]
}

/// The 2-bit opcode packed into a coordinate pair: the top bit of the
/// first byte is the high opcode bit, the top bit of the second the low.
pub open spec fn coord_opcode(b0: u8, b1: u8) -> u8 {
    ((b0 / 128) * 2 + b1 / 128) as u8
}

/// The X coordinate of a packed coordinate pair.
pub open spec fn coord_x(b0: u8) -> i8 {
    decode7(b0)
}

/// The Y coordinate of a packed coordinate pair: the format's Y axis is
/// inverted relative to the output convention, so the stored value is
/// negated.
pub open spec fn coord_y(b1: u8) -> i8 {
    (0 - decode7(b1)) as i8
}

/// A packed coordinate: a 2-bit opcode plus a signed position.
struct PackedCoord {
    opcode: u8,
    x: i8,
    y: i8,
}

/// A byte value reinterpreted as a signed 8-bit integer.
pub open spec fn as_signed8(w: u8) -> i8 {
    if w < 128 {
        w as i8
    } else {
        (w - 256) as i8
    }
}

/// Reinterpret a byte as a signed 8-bit integer.
fn to_signed8(w: u8) -> (r: i8)
    ensures
        r == as_signed8(w),
{
    if w < 128 {
        w as i8
    } else {
        (w as i16 - 256) as i8
    }
}

/// One stroke path decoded from position `pos`: packed coordinates up to
/// an end-of-character opcode. The move-to opcode appends a pen-up point,
/// the draw-to opcode a pen-down point; the raster-scan opcode is
/// unsupported and fatal.
pub open spec fn spec_path(s: Seq<u8>, pos: int) -> Result<Seq<PackedPoint>, DecodeError>
    decreases s.len() - pos,
{
    if pos < 0 || pos + 2 > s.len() {
        Err(DecodeError::UnexpectedEnd)
    } else {
        let op = coord_opcode(s[pos], s[pos + 1]);
        let pt = PackedPoint { x: coord_x(s[pos]), y: coord_y(s[pos + 1]), pen: op == 3 };
        if op == 0 {
            Ok(Seq::empty())
        } else if op == 1 {
            Err(DecodeError::ScanCommand)
        } else {
            match spec_path(s, pos + 2) {
                Ok(rest) => Ok(seq![pt] + rest),
                Err(e) => Err(e),
            }
        }
    }
}

/// The glyph of one character: its stroke path decoded at the given
/// offset into the data section, zero left bearing, and its stored width
/// as the right bearing.
pub open spec fn spec_chr_glyph(s: Seq<u8>, data_start: int, off: int, width: u8) -> Result<
    GlyphView,
    DecodeError,
> {
    if data_start + off > s.len() {
        Err(DecodeError::UnexpectedEnd)
    } else {
        match spec_path(s, data_start + off) {
            Ok(pts) => Ok(GlyphView { left: 0, right: as_signed8(width), strokes: pts }),
            Err(e) => Err(e),
        }
    }
}

/// Decode characters `i` up to `nc`, filling table slots starting at the
/// starting character code `sc`. Offsets sit at `0x90`, widths at
/// `0x90 + 2*nc`, and the data section starts at `0x90 + 3*nc`.
pub open spec fn spec_chr_chars(
    s: Seq<u8>,
    nc: int,
    sc: int,
    i: int,
    acc: Seq<Option<GlyphView>>,
) -> Result<Seq<Option<GlyphView>>, DecodeError>
    decreases nc - i,
{
    if i >= nc {
        Ok(acc)
    } else {
        let off = u16_le_at(s, 0x90 + 2 * i);
        let width = s[0x90 + 2 * nc + i];
        match spec_chr_glyph(s, 0x90 + 3 * nc, off, width) {
            Err(e) => Err(e),
            Ok(g) => if i + sc >= 256 {
                Err(DecodeError::CharOutOfRange)
            } else {
                spec_chr_chars(s, nc, sc, i + 1, acc.update(i + sc, Some(g)))
            },
        }
    }
}

/// Does `s` open with the 8-byte magic signature `PK\x08\x08BGI `?
pub open spec fn chr_magic_ok(s: Seq<u8>) -> bool {
    s[0] == 80 && s[1] == 75 && s[2] == 8 && s[3] == 8 && s[4] == 66 && s[5] == 71 && s[6] == 73
        && s[7] == 32
}

/// Everything the container header pins down once it has validated:
/// the magic, the description terminator at `e`, the header-end marker,
/// the header length `hl`, the data-section signature, the fixed 0x90
/// layout, and the character count and start code.
pub open spec fn chr_header_ok(s: Seq<u8>, e: int, hl: int, nc: int, sc: int) -> bool {
    &&& s.len() >= 8
    &&& chr_magic_ok(s)
    &&& e == find_byte(s, 26, 8)
    &&& e < s.len()
    &&& e + 13 <= s.len()
    &&& u16_le_at(s, e + 11) == 1
    &&& hl == u16_le_at(s, e + 1)
    &&& hl + 16 <= s.len()
    &&& s[hl] == 43
    &&& hl + 16 == 0x90
    &&& nc == u16_le_at(s, hl + 1)
    &&& sc == s[hl + 4]
}

/// With a validated header, the whole decoding reduces to the character
/// loop, or to a truncation error where the offset and width arrays do
/// not fit.
proof fn lemma_parse_after_header(s: Seq<u8>, e: int, hl: int, nc: int, sc: int)
    requires
        chr_header_ok(s, e, hl, nc, sc),
    ensures
        spec_parse_chr(s) == if 0x90 + 3 * nc > s.len() {
            Err::<Seq<Option<GlyphView>>, DecodeError>(DecodeError::UnexpectedEnd)
        } else {
            spec_chr_chars(s, nc, sc, 0, empty_table())
        },
{
}

/// The empty 256-slot table.
pub open spec fn empty_table() -> Seq<Option<GlyphView>> {
    Seq::new(256, |i: int| None)
}

/// The complete decoding of a Borland stroked-font container: the
/// mathematical value [`parse_chrfile`] realizes, error for error.
///
/// After the magic signature and the terminator-delimited description
/// come the header fields; the 16-bit header-end marker must equal
/// 0x0001 (the format's own documentation says 0x0100, but the on-disk
/// value is byte-swapped relative to the published description). The
/// cursor then seeks to the header length, reads the data-section
/// signature `+` and the character count, start code and metric fields,
/// and must land exactly at offset 0x90.
pub open spec fn spec_parse_chr(s: Seq<u8>) -> Result<Seq<Option<GlyphView>>, DecodeError> {
    if s.len() < 8 {
        Err(DecodeError::UnexpectedEnd)
    } else if !chr_magic_ok(s) {
        Err(DecodeError::BadMagic)
    } else {
        let e = find_byte(s, 26, 8);
        if e >= s.len() {
            Err(DecodeError::UnexpectedEnd)
        } else if e + 13 > s.len() {
            Err(DecodeError::UnexpectedEnd)
        } else if u16_le_at(s, e + 11) != 1 {
            Err(DecodeError::BadHeaderEnd)
        } else {
            let hl = u16_le_at(s, e + 1);
            if hl > s.len() {
                Err(DecodeError::UnexpectedEnd)
            } else if hl + 1 > s.len() {
                Err(DecodeError::UnexpectedEnd)
            } else if s[hl] != 43 {
                Err(DecodeError::BadSignature)
            } else if hl + 16 > s.len() {
                Err(DecodeError::UnexpectedEnd)
            } else if hl + 16 != 0x90 {
                Err(DecodeError::BadHeaderLayout)
            } else {
                let nc = u16_le_at(s, hl + 1);
                let sc = s[hl + 4];
                if 0x90 + 3 * nc > s.len() {
                    Err(DecodeError::UnexpectedEnd)
                } else {
                    spec_chr_chars(s, nc, sc as int, 0, empty_table())
                }
            }
        }
    }
}

/// A position that may be advanced within a byte buffer. Every read is
/// bounds-checked and reports [`DecodeError::UnexpectedEnd`] rather than
/// reading past the end.
struct Cursor<'a> {
    buf: &'a [u8],
    pos: usize,
}

impl<'a> Cursor<'a> {
    spec fn wf(self) -> bool {
        self.pos <= self.buf@.len()
    }

    fn new(buf: &'a [u8]) -> (c: Cursor<'a>)
        ensures
            c.buf@ == buf@,
            c.pos == 0,
            c.wf(),
    {
        Cursor { buf, pos: 0 }
    }

    /// Read a single byte from the input.
    fn read_u8(&mut self) -> (r: Result<u8, DecodeError>)
        requires
            old(self).wf(),
        ensures
            final(self).buf == old(self).buf,
            final(self).wf(),
            match r {
                Ok(b) => old(self).pos + 1 <= old(self).buf@.len() && final(self).pos == old(
                    self,
                ).pos + 1 && b == old(self).buf@[old(self).pos as int],
                Err(e) => e == DecodeError::UnexpectedEnd && old(self).pos + 1 > old(
                    self,
                ).buf@.len() && *final(self) == *old(self),
            },
    {
        if self.pos < self.buf.len() {
            let b = self.buf[self.pos];
            self.pos = self.pos + 1;
            Ok(b)
        } else {
            Err(DecodeError::UnexpectedEnd)
        }
    }

    /// Read a 16-bit little-endian integer ("word" in the format
    /// description).
    fn read_u16_le(&mut self) -> (r: Result<u16, DecodeError>)
        requires
            old(self).wf(),
        ensures
            final(self).buf == old(self).buf,
            final(self).wf(),
            match r {
                Ok(v) => old(self).pos + 2 <= old(self).buf@.len() && final(self).pos == old(
                    self,
                ).pos + 2 && v as int == u16_le_at(old(self).buf@, old(self).pos as int),
                Err(e) => e == DecodeError::UnexpectedEnd && old(self).pos + 2 > old(
                    self,
                ).buf@.len() && *final(self) == *old(self),
            },
    {
        if self.buf.len() - self.pos >= 2 {
            let b0 = self.buf[self.pos];
            let b1 = self.buf[self.pos + 1];
            self.pos = self.pos + 2;
            Ok(b0 as u16 + 256 * (b1 as u16))
        } else {
            Err(DecodeError::UnexpectedEnd)
        }
    }

    /// Skip past the following number of bytes.
    fn skip(&mut self, n: usize) -> (r: Result<(), DecodeError>)
        requires
            old(self).wf(),
        ensures
            final(self).buf == old(self).buf,
            final(self).wf(),
            match r {
                Ok(()) => old(self).pos + n <= old(self).buf@.len() && final(self).pos == old(
                    self,
                ).pos + n,
                Err(e) => e == DecodeError::UnexpectedEnd && old(self).pos + n > old(
                    self,
                ).buf@.len() && *final(self) == *old(self),
            },
    {
        if n <= self.buf.len() - self.pos {
            self.pos = self.pos + n;
            Ok(())
        } else {
            Err(DecodeError::UnexpectedEnd)
        }
    }

    /// Skip to the provided location in the file.
    fn skip_to(&mut self, n: usize) -> (r: Result<(), DecodeError>)
        requires
            old(self).wf(),
        ensures
            final(self).buf == old(self).buf,
            final(self).wf(),
            match r {
                Ok(()) => n <= old(self).buf@.len() && final(self).pos == n,
                Err(e) => e == DecodeError::UnexpectedEnd && n > old(self).buf@.len()
                    && *final(self) == *old(self),
            },
    {
        if n <= self.buf.len() {
            self.pos = n;
            Ok(())
        } else {
            Err(DecodeError::UnexpectedEnd)
        }
    }

    /// Read a packed coordinate (two-byte structure containing X, Y, and a
    /// 2-bit opcode).
    fn read_coord(&mut self) -> (r: Result<PackedCoord, DecodeError>)
        requires
            old(self).wf(),
        ensures
            final(self).buf == old(self).buf,
            final(self).wf(),
            match r {
                Ok(c) => {
                    let s = old(self).buf@;
                    let p = old(self).pos as int;
                    &&& p + 2 <= s.len()
                    &&& final(self).pos == p + 2
                    &&& c.opcode == coord_opcode(s[p], s[p + 1])
                    &&& c.x == coord_x(s[p])
                    &&& c.y == coord_y(s[p + 1])
                },
                Err(e) => e == DecodeError::UnexpectedEnd && old(self).pos + 2 > old(
                    self,
                ).buf@.len(),
            },
    {
        let b0 = match self.read_u8() {
            Ok(b) => b,
            Err(e) => {
                return Err(e);
            },
        };
        let b1 = match self.read_u8() {
            Ok(b) => b,
            Err(e) => {
                return Err(e);
            },
        };
        let op1 = b0 / 128;
        let op2 = b1 / 128;
        let x = parse_7bit_signed(b0);
        let y = parse_7bit_signed(b1);
        Ok(PackedCoord { opcode: op1 * 2 + op2, x, y: -y })
    }
}

/// Parse a `.CHR` format font file into its 256-slot table. The result is
/// exactly [`spec_parse_chr`] of the input bytes, success and failure
/// alike.
/// Parse everything before the offset table: magic, description,
/// header fields, the seek to the header end, and the fixed-layout check.
/// On success the cursor sits at 0x90 and the character count and start
/// code are returned.
#[verifier::rlimit(100)]
fn parse_header(input: &[u8], cur: &mut Cursor<'_>) -> (r: Result<(u16, u8), DecodeError>)
    requires
        old(cur).wf(),
        old(cur).pos == 0,
        old(cur).buf@ == input@,
    ensures
        final(cur).buf@ == input@,
        final(cur).wf(),
        match r {
            Ok((nc, sc)) => {
                let s = input@;
                let e = find_byte(s, 26, 8);
                &&& chr_header_ok(s, e, u16_le_at(s, e + 1), nc as int, sc as int)
                &&& final(cur).pos == 0x90
            },
            Err(err) => spec_parse_chr(input@) == Err::<Seq<Option<GlyphView>>, DecodeError>(
                err,
            ),
        },
{
    let ghost sv = input@;
    // Read file magic
    let m0 = match cur.read_u8() {
        Ok(b) => b,
        Err(e) => {
            return Err(e);
        },
    };
    let m1 = match cur.read_u8() {
        Ok(b) => b,
        Err(e) => {
            return Err(e);
        },
    };
    let m2 = match cur.read_u8() {
        Ok(b) => b,
        Err(e) => {
            return Err(e);
        },
    };
    let m3 = match cur.read_u8() {
        Ok(b) => b,
        Err(e) => {
            return Err(e);
        },
    };
    let m4 = match cur.read_u8() {
        Ok(b) => b,
        Err(e) => {
            return Err(e);
        },
    };
    let m5 = match cur.read_u8() {
        Ok(b) => b,
        Err(e) => {
            return Err(e);
        },
    };
    let m6 = match cur.read_u8() {
        Ok(b) => b,
        Err(e) => {
            return Err(e);
        },
    };
    let m7 = match cur.read_u8() {
        Ok(b) => b,
        Err(e) => {
            return Err(e);
        },
    };
    if !(m0 == 80 && m1 == 75 && m2 == 8 && m3 == 8 && m4 == 66 && m5 == 71 && m6 == 73 && m7
        == 32) {
        return Err(DecodeError::BadMagic);
    }

    // Read font description until the terminator byte 26
    loop
        invariant_except_break
            forall|j: int| 8 <= j < cur.pos ==> sv[j] != 26,
        invariant
            sv == input@,
            cur.buf@ == sv,
            cur.wf(),
            8 <= cur.pos <= sv.len(),
            chr_magic_ok(sv),
            sv.len() >= 8,
        ensures
            cur.buf@ == sv,
            cur.wf(),
            9 <= cur.pos <= sv.len(),
            sv[cur.pos - 1] == 26,
            forall|j: int| 8 <= j < cur.pos - 1 ==> sv[j] != 26,
        decreases sv.len() - cur.pos,
    {
        let b = match cur.read_u8() {
            Ok(b) => b,
            Err(e) => {
                proof {
                    lemma_find_byte_at(sv, 26, 8, sv.len() as int);
                }
                return Err(e);
            },
        };
        if b == 26 {
            break;
        }
    }
    let ghost desc_end = cur.pos - 1;
    proof {
        lemma_find_byte_at(sv, 26, 8, desc_end);
        assert(find_byte(sv, 26, 8) == desc_end);
    }

    // Header length
    let header_len = match cur.read_u16_le() {
        Ok(v) => v,
        Err(e) => {
            return Err(e);
        },
    };
    // Short font name (4 bytes), file size, driver versions
    match cur.skip(4) {
        Ok(()) => (),
        Err(e) => {
            return Err(e);
        },
    }
    let _file_size = match cur.read_u16_le() {
        Ok(v) => v,
        Err(e) => {
            return Err(e);
        },
    };
    let _driver_major_version = match cur.read_u8() {
        Ok(v) => v,
        Err(e) => {
            return Err(e);
        },
    };
    let _driver_minor_version = match cur.read_u8() {
        Ok(v) => v,
        Err(e) => {
            return Err(e);
        },
    };
    let header_end = match cur.read_u16_le() {
        Ok(v) => v,
        Err(e) => {
            return Err(e);
        },
    };
    // The format description lists this as 0x0100, but the on-disk value
    // is byte-swapped relative to it.
    if header_end != 0x0001 {
        return Err(DecodeError::BadHeaderEnd);
    }

    // Seek to end of header
    match cur.skip_to(header_len as usize) {
        Ok(()) => (),
        Err(e) => {
            return Err(e);
        },
    }

    // Parse font details
    let signature = match cur.read_u8() {
        Ok(v) => v,
        Err(e) => {
            return Err(e);
        },
    };
    if signature != 43 {
        return Err(DecodeError::BadSignature);
    }
    let num_characters = match cur.read_u16_le() {
        Ok(v) => v,
        Err(e) => {
            return Err(e);
        },
    };
    match cur.skip(1) {
        Ok(()) => (),
        Err(e) => {
            return Err(e);
        },
    }
    let start_char = match cur.read_u8() {
        Ok(v) => v,
        Err(e) => {
            return Err(e);
        },
    };
    let _stroke_offset = match cur.read_u16_le() {
        Ok(v) => v,
        Err(e) => {
            return Err(e);
        },
    };
    let _scan_flag = match cur.read_u8() {
        Ok(v) => v,
        Err(e) => {
            return Err(e);
        },
    };
    // Font metrics: origin to capital top, baseline, and descender bottom
    let _origin_to_top = match cur.read_u8() {
        Ok(v) => v,
        Err(e) => {
            return Err(e);
        },
    };
    let _origin_to_baseline = match cur.read_u8() {
        Ok(v) => v,
        Err(e) => {
            return Err(e);
        },
    };
    let _origin_to_descender = match cur.read_u8() {
        Ok(v) => v,
        Err(e) => {
            return Err(e);
        },
    };
    // Reserved bytes where the description promises the short name again,
    // plus one byte the description leaves out
    match cur.skip(4) {
        Ok(()) => (),
        Err(e) => {
            return Err(e);
        },
    }
    match cur.skip(1) {
        Ok(()) => (),
        Err(e) => {
            return Err(e);
        },
    }
    if cur.pos != 0x90 {
        return Err(DecodeError::BadHeaderLayout);
    }

    let ghost hl = header_len as int;
    let ghost nc_g = num_characters as int;
    let ghost sc_g = start_char as int;
    proof {
        assert(chr_header_ok(sv, desc_end, hl, nc_g, sc_g));
    }
    Ok((num_characters, start_char))
}

#[verifier::rlimit(100)]
pub fn parse_chrfile(input: &[u8]) -> (r: Result<FontTable, DecodeError>)
    ensures
        match r {
            Ok(t) => spec_parse_chr(input@) == Ok::<Seq<Option<GlyphView>>, DecodeError>(t@),
            Err(e) => spec_parse_chr(input@) == Err::<Seq<Option<GlyphView>>, DecodeError>(e),
        },
{
    let ghost sv = input@;
    let mut cur = Cursor::new(input);
    let (num_characters, start_char) = match parse_header(input, &mut cur) {
        Ok(v) => v,
        Err(e) => {
            return Err(e);
        },
    };
    let ghost desc_end = find_byte(sv, 26, 8);
    let ghost hl = u16_le_at(sv, desc_end + 1);
    let ghost nc_g = num_characters as int;
    let ghost sc_g = start_char as int;
    let nc = num_characters as usize;

    // Offsets to stroke data for each character
    let mut chr_offsets: Vec<u16> = Vec::new();
    let mut i: usize = 0;
    while i < nc
        invariant
            sv == input@,
            cur.buf@ == sv,
            cur.wf(),
            i <= nc,
            nc == nc_g,
            nc <= 0xFFFF,
            chr_header_ok(sv, desc_end, hl, nc_g, sc_g),
            cur.pos == 0x90 + 2 * i,
            chr_offsets@.len() == i,
            forall|j: int|
                0 <= j < i ==> #[trigger] chr_offsets@[j] as int == u16_le_at(sv, 0x90 + 2 * j),
        decreases nc - i,
    {
        let offset = match cur.read_u16_le() {
            Ok(v) => v,
            Err(e) => {
                proof {
                    lemma_parse_after_header(sv, desc_end, hl, nc_g, sc_g);
                }
                return Err(e);
            },
        };
        chr_offsets.push(offset);
        i = i + 1;
    }

    // Width of each character
    let mut chr_widths: Vec<u8> = Vec::new();
    let mut i2: usize = 0;
    while i2 < nc
        invariant
            sv == input@,
            cur.buf@ == sv,
            cur.wf(),
            i2 <= nc,
            nc == nc_g,
            nc <= 0xFFFF,
            chr_header_ok(sv, desc_end, hl, nc_g, sc_g),
            cur.pos == 0x90 + 2 * nc + i2,
            chr_widths@.len() == i2,
            forall|j: int| 0 <= j < i2 ==> #[trigger] chr_widths@[j] == sv[0x90 + 2 * nc + j],
        decreases nc - i2,
    {
        let width = match cur.read_u8() {
            Ok(v) => v,
            Err(e) => {
                proof {
                    lemma_parse_after_header(sv, desc_end, hl, nc_g, sc_g);
                }
                return Err(e);
            },
        };
        chr_widths.push(width);
        i2 = i2 + 1;
    }

    // The rest of the file is character definitions
    let data_section_start = cur.pos;
    proof {
        assert(data_section_start == 0x90 + 3 * nc_g);
        assert(0x90 + 3 * nc_g <= sv.len());
        lemma_parse_after_header(sv, desc_end, hl, nc_g, sc_g);
    }

    let mut table = FontTable::new(256);
    proof {
        assert(table@ =~= empty_table());
        assert(spec_parse_chr(sv) == spec_chr_chars(sv, nc_g, sc_g, 0, table@));
    }
    let mut ci: usize = 0;
    while ci < nc
        invariant
            sv == input@,
            cur.buf@ == sv,
            cur.wf(),
            ci <= nc,
            nc == nc_g,
            nc <= 0xFFFF,
            sc_g == start_char as int,
            sv.len() >= 0x90 + 3 * nc_g,
            data_section_start == 0x90 + 3 * nc_g,
            table@.len() == 256,
            chr_offsets@.len() == nc,
            chr_widths@.len() == nc,
            forall|j: int|
                0 <= j < nc ==> #[trigger] chr_offsets@[j] as int == u16_le_at(sv, 0x90 + 2 * j),
            forall|j: int| 0 <= j < nc ==> #[trigger] chr_widths@[j] == sv[0x90 + 2 * nc + j],
            spec_parse_chr(sv) == spec_chr_chars(sv, nc_g, sc_g, ci as int, table@),
        decreases nc - ci,
    {
        let ghost off_g = chr_offsets@[ci as int] as int;
        let ghost width_g = sv[0x90 + 2 * nc_g + ci as int];
        let ghost gres = spec_chr_glyph(sv, 0x90 + 3 * nc_g, off_g, width_g);
        proof {
            assert(spec_chr_chars(sv, nc_g, sc_g, ci as int, table@) == (match gres {
                Err(e) => Err::<Seq<Option<GlyphView>>, DecodeError>(e),
                Ok(g) => if ci as int + sc_g >= 256 {
                    Err::<Seq<Option<GlyphView>>, DecodeError>(DecodeError::CharOutOfRange)
                } else {
                    spec_chr_chars(sv, nc_g, sc_g, ci as int + 1, table@.update(
                        ci as int + sc_g,
                        Some(g),
                    ))
                },
            }));
        }

        let off64: u64 = chr_offsets[ci] as u64 + data_section_start as u64;
        if off64 > input.len() as u64 {
            proof {
                assert(gres == Err::<GlyphView, DecodeError>(DecodeError::UnexpectedEnd));
            }
            return Err(DecodeError::UnexpectedEnd);
        }
        let offset = off64 as usize;
        match cur.skip_to(offset) {
            Ok(()) => (),
            Err(e) => {
                proof {
                    assert(false);
                }
                return Err(e);
            },
        }

        let path = match decode_path(&mut cur) {
            Ok(v) => v,
            Err(e) => {
                proof {
                    assert(gres == Err::<GlyphView, DecodeError>(e));
                }
                return Err(e);
            },
        };

        let ascii_value = ci + start_char as usize;
        let ghost gl = GlyphView {
            left: 0,
            right: as_signed8(chr_widths@[ci as int]),
            strokes: path@,
        };
        proof {
            assert(chr_widths@[ci as int] == width_g);
            assert(gres == Ok::<GlyphView, DecodeError>(gl));
        }
        if ascii_value >= 256 {
            return Err(DecodeError::CharOutOfRange);
        }
        let width = chr_widths[ci];
        let glyph = Glyph { left: 0, right: to_signed8(width), strokes: path };
        let ghost pre_table = table@;
        table.set(ascii_value, glyph);
        proof {
            assert(glyph@ == gl);
            assert(table@ =~= pre_table.update(ci as int + sc_g, Some(gl)));
        }
        ci = ci + 1;
    }
    proof {
        assert(spec_chr_chars(sv, nc_g, sc_g, nc_g, table@) == Ok::<
            Seq<Option<GlyphView>>,
            DecodeError,
        >(table@));
    }
    Ok(table)
}

/// Decode one stroke path at the cursor: packed coordinates up to the
/// end-of-character opcode, exactly as [`spec_path`] reads them.
fn decode_path(cur: &mut Cursor<'_>) -> (r: Result<Vec<PackedPoint>, DecodeError>)
    requires
        old(cur).wf(),
    ensures
        final(cur).buf@ == old(cur).buf@,
        final(cur).wf(),
        match r {
            Ok(v) => spec_path(old(cur).buf@, old(cur).pos as int) == Ok::<
                Seq<PackedPoint>,
                DecodeError,
            >(v@),
            Err(e) => spec_path(old(cur).buf@, old(cur).pos as int) == Err::<
                Seq<PackedPoint>,
                DecodeError,
            >(e),
        },
{
    let ghost sv = cur.buf@;
    let ghost p0 = cur.pos as int;
    let mut path: Vec<PackedPoint> = Vec::new();
    proof {
        assert(path@ =~= Seq::<PackedPoint>::empty());
    }
    loop
        invariant_except_break
            match spec_path(sv, cur.pos as int) {
                Ok(rest) => spec_path(sv, p0) == Ok::<Seq<PackedPoint>, DecodeError>(
                    path@ + rest,
                ),
                Err(e) => spec_path(sv, p0) == Err::<Seq<PackedPoint>, DecodeError>(e),
            },
        invariant
            sv == old(cur).buf@,
            p0 == old(cur).pos as int,
            cur.buf@ == sv,
            cur.wf(),
            p0 <= cur.pos <= sv.len(),
        ensures
            cur.buf@ == sv,
            cur.wf(),
            spec_path(sv, p0) == Ok::<Seq<PackedPoint>, DecodeError>(path@),
        decreases sv.len() - cur.pos,
    {
        let ghost pos_before = cur.pos as int;
        let coord = match cur.read_coord() {
            Ok(c) => c,
            Err(e) => {
                return Err(e);
            },
        };
        if coord.opcode == 0 {
            // End of character definition
            proof {
                assert(spec_path(sv, pos_before) == Ok::<Seq<PackedPoint>, DecodeError>(
                    Seq::empty(),
                ));
                assert(path@ + Seq::<PackedPoint>::empty() =~= path@);
            }
            break;
        } else if coord.opcode == 1 {
            // "Do scan": not supported
            proof {
                assert(spec_path(sv, pos_before) == Err::<Seq<PackedPoint>, DecodeError>(
                    DecodeError::ScanCommand,
                ));
            }
            return Err(DecodeError::ScanCommand);
        } else {
            // Move or draw to X, Y
            proof {
                assert(coord.opcode <= 3);
            }
            let pt = PackedPoint { x: coord.x, y: coord.y, pen: coord.opcode == 3 };
            let ghost old_path = path@;
            path.push(pt);
            proof {
                assert(path@ =~= old_path.push(pt));
                let op = coord_opcode(sv[pos_before], sv[pos_before + 1]);
                assert(op == coord.opcode);
                match spec_path(sv, cur.pos as int) {
                    Ok(rest) => {
                        assert(spec_path(sv, pos_before) == Ok::<Seq<PackedPoint>, DecodeError>(
                            seq![pt] + rest,
                        ));
                        assert(old_path + (seq![pt] + rest) =~= path@ + rest);
                    },
                    Err(e) => {
                        assert(spec_path(sv, pos_before) == Err::<Seq<PackedPoint>, DecodeError>(
                            e,
                        ));
                    },
                }
            }
        }
    }
    Ok(path)
}

/// Decoding is a pure function of the input bytes: two successful
/// decodes of the same buffer yield identical tables, slot for slot.
pub proof fn lemma_parse_chr_pure(
    s: Seq<u8>,
    t1: Seq<Option<GlyphView>>,
    t2: Seq<Option<GlyphView>>,
)
    requires
        spec_parse_chr(s) == Ok::<Seq<Option<GlyphView>>, DecodeError>(t1),
        spec_parse_chr(s) == Ok::<Seq<Option<GlyphView>>, DecodeError>(t2),
    ensures
        t1 == t2,
{
}

/// A [`Renderer`] which draws text using Borland fonts: each character's
/// codepoint indexes the decoded 256-slot table directly.
pub struct BorlandRenderer;

impl<'a> Renderer<&'a FontTable> for BorlandRenderer {
    open spec fn spec_resolved(text: Seq<char>, table: &'a FontTable) -> Seq<Option<GlyphView>> {
        spec_resolve_direct(text, table@)
    }

    fn render_text(text: &str, table: &'a FontTable) -> (r: Vec<Point>) {
        let resolved = resolve_direct(text, table);
        render_resolved(&resolved)
    }
}

} // verus!
