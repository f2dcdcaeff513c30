//! Frame codec: a down-sampled RGB image becomes a grid of (glyph, color)
//! cells picked from a luminance-ranked character ramp, and that grid is
//! serialized to and parsed from a fixed-layout byte buffer.

use vstd::prelude::*;
use vstd::bytes::*;
use vstd::string::StrSliceExecFns;
use vstd::arithmetic::mul::*;
use vstd::arithmetic::div_mod::*;

verus! {

/// One grid cell: glyph plus the red, green and blue channels.
pub type Cell = (char, u8, u8, u8);

/// The ordered glyph ramp, darkest first; 69 printable ASCII characters.
pub open spec fn ramp() -> Seq<char> {
    " .'`^\",:;Il!i><~+_-?][}{1)(|\\tfjrxnuvczXYUJCLQ0OZmwqpdbkhao*#MW&8%B@$"@
}

/// The ramp holds 69 printable one-byte characters.
pub proof fn lemma_ramp_shape()
    ensures
        ramp().len() == 69,
        forall|i: int| 0 <= i < 69 ==> 32 <= #[trigger] (ramp()[i] as int) <= 126,
{
    reveal_strlit(" .'`^\",:;Il!i><~+_-?][}{1)(|\\tfjrxnuvczXYUJCLQ0OZmwqpdbkhao*#MW&8%B@$");
}

/// Integer luminance of an RGB sample: (299 R + 587 G + 114 B) / 1000,
/// the usual Rec. 601 weights in thousandths, truncated.
pub open spec fn spec_luminance(r: u8, g: u8, b: u8) -> u8 {
    ((299 * (r as int) + 587 * (g as int) + 114 * (b as int)) / 1000) as u8
}

/// Index into the ramp for a luminance value: `(l * 68) / 255`.
pub open spec fn ramp_index(l: u8) -> int {
    ((l as int) * 68) / 255
}

/// The glyph chosen for an RGB sample.
pub open spec fn spec_glyph(r: u8, g: u8, b: u8) -> char {
    ramp()[ramp_index(spec_luminance(r, g, b))]
}

/// The cell produced for one pixel; in `mono` mode the three color channels
/// all carry the luminance, desaturating the cell while keeping the glyph.
pub open spec fn spec_cell(r: u8, g: u8, b: u8, mono: bool) -> Cell {
    let l = spec_luminance(r, g, b);
    if mono {
        (spec_glyph(r, g, b), l, l, l)
    } else {
        (spec_glyph(r, g, b), r, g, b)
    }
}

pub fn luminance(r: u8, g: u8, b: u8) -> (l: u8)
    ensures
        l == spec_luminance(r, g, b),
{
    let weighted: u32 = 299 * (r as u32) + 587 * (g as u32) + 114 * (b as u32);
    (weighted / 1000) as u8
}

/// The ramp index always lands inside the 69-glyph ramp.
pub proof fn lemma_ramp_index_bounds(l: u8)
    ensures
        0 <= ramp_index(l) <= 68,
{
    assert((l as int) * 68 <= 255 * 68) by (nonlinear_arith)
        requires l <= 255;
    assert(0 <= (l as int) * 68) by (nonlinear_arith);
}

/// Monotonicity of the luminance-to-glyph mapping: a brighter sample never
/// picks an earlier ramp position.
pub proof fn lemma_ramp_index_monotonic(l1: u8, l2: u8)
    requires
        l1 <= l2,
    ensures
        ramp_index(l1) <= ramp_index(l2),
{
    lemma_mul_inequality(l1 as int, l2 as int, 68);
    lemma_div_is_ordered((l1 as int) * 68, (l2 as int) * 68, 255);
}

pub fn ascii_for_rgb(r: u8, g: u8, b: u8) -> (c: char)
    ensures
        c == spec_glyph(r, g, b),
{
    let s: &str = " .'`^\",:;Il!i><~+_-?][}{1)(|\\tfjrxnuvczXYUJCLQ0OZmwqpdbkhao*#MW&8%B@$";
    let lum = luminance(r, g, b);
    let idx: usize = ((lum as usize) * 68) / 255;
    proof {
        lemma_ramp_index_bounds(lum);
        lemma_ramp_shape();
        assert(s@ == ramp());
    }
    s.get_char(idx)
}

/// The abstract value of an [`AsciiFrame`]: its dimensions and cell sequence.
#[verifier::ext_equal]
pub struct FrameView {
    pub width: u16,
    pub height: u16,
    pub cells: Seq<Cell>,
}

impl FrameView {
    /// Well-formed frames hold exactly width x height cells, each glyph a
    /// one-byte character, so the fixed serialized layout is lossless.
    pub open spec fn wf(self) -> bool {
        &&& self.cells.len() == (self.width as int) * (self.height as int)
        &&& forall|i: int|
            0 <= i < self.cells.len() ==> 0 <= (#[trigger] (self.cells[i].0 as int)) < 256
    }
}

/// A width x height grid of glyph/color cells in row-major order.
///
/// Invariant (see [`FrameView::wf`]): the cell count always equals
/// width x height.
#[derive(Clone, Debug)]
pub struct AsciiFrame {
    pub width: u16,
    pub height: u16,
    pub cells: Vec<Cell>,
}

impl View for AsciiFrame {
    type V = FrameView;

    open spec fn view(&self) -> FrameView {
        FrameView { width: self.width, height: self.height, cells: self.cells@ }
    }
}

impl AsciiFrame {
    /// A blank frame: every cell is a space glyph with black color.
    pub fn new(width: u16, height: u16) -> (f: AsciiFrame)
        ensures
            f@.wf(),
            f@.width == width,
            f@.height == height,
            forall|i: int| 0 <= i < f@.cells.len() ==> f@.cells[i] == (' ', 0u8, 0u8, 0u8),
    {
        proof {
            lemma_mul_upper_bound(width as int, 0xffff, height as int, 0xffff);
            lemma_mul_nonnegative(width as int, height as int);
        }
        let count: usize = (width as usize) * (height as usize);
        let mut cells: Vec<Cell> = Vec::new();
        let mut i: usize = 0;
        while i < count
            invariant
                i <= count,
                count == (width as int) * (height as int),
                cells@.len() == i,
                forall|k: int| 0 <= k < i ==> cells@[k] == (' ', 0u8, 0u8, 0u8),
            decreases count - i,
        {
            cells.push((' ', 0, 0, 0));
            i += 1;
        }
        proof {
            assert(0 <= (' ' as int) < 256);
        }
        AsciiFrame { width, height, cells }
    }

    /// A copy whose abstract value is identical.
    pub fn duplicate(&self) -> (f: AsciiFrame)
        ensures
            f@ == self@,
    {
        let mut cells: Vec<Cell> = Vec::new();
        let mut i: usize = 0;
        while i < self.cells.len()
            invariant
                i <= self.cells@.len(),
                cells@ == self.cells@.take(i as int),
            decreases self.cells@.len() - i,
        {
            cells.push(self.cells[i]);
            proof {
                assert(self.cells@.take(i as int + 1) =~= self.cells@.take(i as int).push(
                    self.cells@[i as int],
                ));
            }
            i += 1;
        }
        proof {
            assert(self.cells@.take(self.cells@.len() as int) =~= self.cells@);
        }
        let f = AsciiFrame { width: self.width, height: self.height, cells };
        proof {
            assert(f@ =~= self@);
        }
        f
    }

    /// Builds a frame from an interleaved RGB byte buffer. A buffer shorter
    /// than width x height x 3 is a soft error: the missing pixels become
    /// blank black cells instead of failing the whole frame.
    pub fn from_rgb_data(data: &[u8], width: u16, height: u16, mono: bool) -> (r: Result<
        AsciiFrame,
        FrameFormatError,
    >)
        ensures
            r is Ok,
            r matches Ok(f) ==> f@.wf() && f@ == spec_encode_rgb(data@, width, height, mono),
    {
        proof {
            lemma_mul_upper_bound(width as int, 0xffff, height as int, 0xffff);
            lemma_mul_nonnegative(width as int, height as int);
        }
        let count: usize = (width as usize) * (height as usize);
        // A pixel is complete exactly when all three of its samples are
        // inside the buffer: 3i + 2 < len, that is, i < len / 3.
        let n: usize = data.len();
        let limit: usize = n / 3;
        let mut cells: Vec<Cell> = Vec::new();
        let mut i: usize = 0;
        while i < count
            invariant
                i <= count,
                count == (width as int) * (height as int),
                n == data@.len(),
                limit == data@.len() / 3,
                cells@.len() == i,
                forall|k: int|
                    0 <= k < i ==> #[trigger] cells@[k] == (if 3 * k + 2 < data@.len() {
                        spec_cell(data@[3 * k], data@[3 * k + 1], data@[3 * k + 2], mono)
                    } else {
                        (' ', 0u8, 0u8, 0u8)
                    }),
                forall|k: int| 0 <= k < i ==> 0 <= (#[trigger] (cells@[k].0 as int)) < 256,
            decreases count - i,
        {
            proof {
                lemma_fundamental_div_mod(data@.len() as int, 3);
                lemma_mod_bound(data@.len() as int, 3);
            }
            if i >= limit {
                proof {
                    assert(!(3 * (i as int) + 2 < data@.len()));
                }
                cells.push((' ', 0, 0, 0));
            } else {
                proof {
                    assert(3 * (limit as int) <= data@.len());
                    assert(3 * (i as int) + 2 < data@.len());
                }
                let p: usize = i * 3;
                let r = data[p];
                let g = data[p + 1];
                let b = data[p + 2];
                let ch = ascii_for_rgb(r, g, b);
                proof {
                    lemma_ramp_index_bounds(spec_luminance(r, g, b));
                    lemma_ramp_shape();
                }
                if mono {
                    let lum = luminance(r, g, b);
                    cells.push((ch, lum, lum, lum));
                } else {
                    cells.push((ch, r, g, b));
                }
            }
            i += 1;
        }
        let f = AsciiFrame { width, height, cells };
        proof {
            assert(f@.cells =~= spec_encode_rgb(data@, width, height, mono).cells);
            assert(f@ =~= spec_encode_rgb(data@, width, height, mono));
        }
        Ok(f)
    }
}

/// The serialized layout of a cell sequence: 4 bytes per cell, glyph byte
/// first, then the three color channels, in row-major order.
pub open spec fn enc_cells(cells: Seq<Cell>) -> Seq<u8>
    decreases cells.len(),
{
    if cells.len() == 0 {
        Seq::empty()
    } else {
        let c = cells[0];
        seq![c.0 as u8, c.1, c.2, c.3] + enc_cells(cells.skip(1))
    }
}

/// The serialized layout of a whole frame: little-endian width, little-endian
/// height, then the cells.
pub open spec fn spec_serialize(f: FrameView) -> Seq<u8> {
    spec_u16_to_le_bytes(f.width) + spec_u16_to_le_bytes(f.height) + enc_cells(f.cells)
}

/// The parse of a serialized frame buffer. A buffer is accepted exactly when
/// it has the 4 header bytes and its total length equals
/// 4 + width x height x 4 for the header's dimensions.
pub open spec fn spec_deserialize(b: Seq<u8>) -> Result<FrameView, FrameFormatError> {
    if b.len() < 4 {
        Err(FrameFormatError::TooShort)
    } else {
        let w = spec_u16_from_le_bytes(b.subrange(0, 2));
        let h = spec_u16_from_le_bytes(b.subrange(2, 4));
        if b.len() != 4 + 4 * (w as int) * (h as int) {
            Err(FrameFormatError::LengthMismatch)
        } else {
            Ok(
                FrameView {
                    width: w,
                    height: h,
                    cells: Seq::new(
                        ((w as int) * (h as int)) as nat,
                        |k: int|
                            (
                                b[4 + 4 * k] as char,
                                b[4 + 4 * k + 1],
                                b[4 + 4 * k + 2],
                                b[4 + 4 * k + 3],
                            ),
                    ),
                },
            )
        }
    }
}

proof fn lemma_enc_cells_len(cells: Seq<Cell>)
    ensures
        enc_cells(cells).len() == 4 * cells.len(),
    decreases cells.len(),
{
    if cells.len() > 0 {
        lemma_enc_cells_len(cells.skip(1));
    }
}

proof fn lemma_enc_cells_index(cells: Seq<Cell>, k: int)
    requires
        0 <= k < cells.len(),
    ensures
        enc_cells(cells).len() == 4 * cells.len(),
        enc_cells(cells)[4 * k] == cells[k].0 as u8,
        enc_cells(cells)[4 * k + 1] == cells[k].1,
        enc_cells(cells)[4 * k + 2] == cells[k].2,
        enc_cells(cells)[4 * k + 3] == cells[k].3,
    decreases k,
{
    lemma_enc_cells_len(cells);
    lemma_enc_cells_len(cells.skip(1));
    if k > 0 {
        lemma_enc_cells_index(cells.skip(1), k - 1);
    }
}

proof fn lemma_enc_cells_snoc(cells: Seq<Cell>, c: Cell)
    ensures
        enc_cells(cells.push(c)) == enc_cells(cells) + seq![c.0 as u8, c.1, c.2, c.3],
    decreases cells.len(),
{
    if cells.len() == 0 {
        let p = cells.push(c);
        assert(p[0] == c);
        assert(p.skip(1) =~= Seq::<Cell>::empty());
        assert(enc_cells(p.skip(1)) =~= Seq::<u8>::empty());
        assert(enc_cells(cells) =~= Seq::<u8>::empty());
        assert(enc_cells(cells.push(c)) =~= enc_cells(cells) + seq![c.0 as u8, c.1, c.2, c.3]);
    } else {
        assert(cells.push(c).skip(1) =~= cells.skip(1).push(c));
        lemma_enc_cells_snoc(cells.skip(1), c);
        assert(enc_cells(cells.push(c)) =~= enc_cells(cells) + seq![c.0 as u8, c.1, c.2, c.3]);
    }
}

/// Serializing a well-formed frame and parsing the result gives the frame
/// back unchanged: the byte layout is an exact round trip.
pub proof fn lemma_serialize_deserialize(f: FrameView)
    requires
        f.wf(),
    ensures
        spec_deserialize(spec_serialize(f)) == Ok::<FrameView, FrameFormatError>(f),
{
    let b = spec_serialize(f);
    lemma_auto_spec_u16_to_from_le_bytes();
    lemma_enc_cells_len(f.cells);
    assert(b.subrange(0, 2) =~= spec_u16_to_le_bytes(f.width));
    assert(b.subrange(2, 4) =~= spec_u16_to_le_bytes(f.height));
    assert(b.len() == 4 + 4 * (f.width as int) * (f.height as int)) by {
        lemma_mul_is_associative(4, f.width as int, f.height as int);
    }
    let parsed = spec_deserialize(b);
    assert(parsed is Ok);
    let g = parsed->Ok_0;
    assert forall|k: int| 0 <= k < f.cells.len() implies g.cells[k] == f.cells[k] by {
        lemma_enc_cells_index(f.cells, k);
        assert(b[4 + 4 * k] == f.cells[k].0 as u8);
        let c = f.cells[k].0;
        assert(0 <= (c as int) < 256);
        assert(c as u8 as int == c as int);
        assert(c as u8 as char as int == c as int);
        assert(((c as u8) as char) == c);
    }
    assert(g.cells =~= f.cells);
    assert(g =~= f);
}

/// A buffer with fewer than 4 bytes, or whose length differs from
/// 4 + width x height x 4 for its own header, is rejected; one with exactly
/// that length is accepted. Zero width or height demands exactly 4 bytes.
pub proof fn lemma_deserialize_length(b: Seq<u8>)
    ensures
        b.len() < 4 ==> spec_deserialize(b) == Err::<FrameView, FrameFormatError>(FrameFormatError::TooShort),
        b.len() >= 4 ==> {
            let w = spec_u16_from_le_bytes(b.subrange(0, 2));
            let h = spec_u16_from_le_bytes(b.subrange(2, 4));
            &&& (b.len() != 4 + 4 * (w as int) * (h as int) <==> spec_deserialize(b) == Err::<FrameView, FrameFormatError>(
                FrameFormatError::LengthMismatch,
            ))
            &&& (b.len() == 4 + 4 * (w as int) * (h as int) <==> spec_deserialize(b) is Ok)
        },
{
}

impl AsciiFrame {
    /// Serializes the frame into the fixed byte layout.
    pub fn serialize(&self) -> (out: Vec<u8>)
        requires
            self@.wf(),
        ensures
            out@ == spec_serialize(self@),
    {
        let mut out: Vec<u8> = u16_to_le_bytes(self.width);
        let mut hb: Vec<u8> = u16_to_le_bytes(self.height);
        out.append(&mut hb);
        let header = Ghost(out@);
        proof {
            assert(enc_cells(self.cells@.take(0)) =~= Seq::<u8>::empty());
            assert(out@ =~= header@ + enc_cells(self.cells@.take(0)));
        }
        let mut i: usize = 0;
        while i < self.cells.len()
            invariant
                i <= self.cells@.len(),
                header@ == spec_u16_to_le_bytes(self@.width) + spec_u16_to_le_bytes(self@.height),
                out@ == header@ + enc_cells(self.cells@.take(i as int)),
            decreases self.cells@.len() - i,
        {
            let (ch, r, g, b) = self.cells[i];
            out.push(ch as u8);
            out.push(r);
            out.push(g);
            out.push(b);
            proof {
                let taken = self.cells@.take(i as int);
                let c = self.cells@[i as int];
                assert(self.cells@.take(i as int + 1) =~= taken.push(c));
                lemma_enc_cells_snoc(taken, c);
                assert(out@ =~= header@ + enc_cells(self.cells@.take(i as int + 1)));
            }
            i += 1;
        }
        proof {
            assert(self.cells@.take(self.cells@.len() as int) =~= self.cells@);
        }
        out
    }

    /// Parses the fixed byte layout back into a frame. A short or wrongly
    /// sized buffer is rejected outright, never best-effort parsed.
    pub fn deserialize(data: &[u8]) -> (r: Result<AsciiFrame, FrameFormatError>)
        ensures
            r matches Ok(f) ==> spec_deserialize(data@) == Ok::<FrameView, FrameFormatError>(f@) && f@.wf(),
            r matches Err(e) ==> spec_deserialize(data@) == Err::<FrameView, FrameFormatError>(e),
    {
        let n: usize = data.len();
        if n < 4 {
            return Err(FrameFormatError::TooShort);
        }
        let mut wb: Vec<u8> = Vec::new();
        wb.push(data[0]);
        wb.push(data[1]);
        proof {
            assert(wb@ =~= data@.subrange(0, 2));
        }
        let width = u16_from_le_bytes(wb.as_slice());
        let mut hb: Vec<u8> = Vec::new();
        hb.push(data[2]);
        hb.push(data[3]);
        proof {
            assert(hb@ =~= data@.subrange(2, 4));
        }
        let height = u16_from_le_bytes(hb.as_slice());
        proof {
            lemma_mul_upper_bound(width as int, 0xffff, height as int, 0xffff);
            lemma_mul_nonnegative(width as int, height as int);
        }
        let count: usize = (width as usize) * (height as usize);
        let body: usize = n - 4;
        if body / 4 != count || body % 4 != 0 {
            proof {
                lemma_fundamental_div_mod(body as int, 4);
                assert(data@.len() != 4 + 4 * (width as int) * (height as int)) by {
                    lemma_mul_is_associative(4, width as int, height as int);
                }
            }
            return Err(FrameFormatError::LengthMismatch);
        }
        proof {
            lemma_fundamental_div_mod(body as int, 4);
            assert(data@.len() == 4 + 4 * (width as int) * (height as int)) by {
                lemma_mul_is_associative(4, width as int, height as int);
            }
        }
        let mut cells: Vec<Cell> = Vec::new();
        let mut k: usize = 0;
        while k < count
            invariant
                k <= count,
                n == data@.len(),
                count == (width as int) * (height as int),
                n == 4 + 4 * count,
                cells@.len() == k,
                forall|j: int|
                    0 <= j < k ==> #[trigger] cells@[j] == (
                        data@[4 + 4 * j] as char,
                        data@[4 + 4 * j + 1],
                        data@[4 + 4 * j + 2],
                        data@[4 + 4 * j + 3],
                    ),
            decreases count - k,
        {
            let p: usize = 4 + 4 * k;
            let ch = data[p] as char;
            cells.push((ch, data[p + 1], data[p + 2], data[p + 3]));
            k += 1;
        }
        let frame = AsciiFrame { width, height, cells };
        proof {
            let parsed = spec_deserialize(data@);
            assert(parsed is Ok);
            assert(frame@.cells =~= parsed->Ok_0.cells);
            assert(frame@ =~= parsed->Ok_0);
            assert forall|i: int| 0 <= i < frame@.cells.len() implies 0 <= (
            #[trigger] (frame@.cells[i].0 as int)) < 256 by {
                assert(frame@.cells[i].0 == data@[4 + 4 * i] as char);
            }
        }
        Ok(frame)
    }
}

/// The frame built from an interleaved RGB buffer: one cell per pixel,
/// missing pixels blank.
pub open spec fn spec_encode_rgb(data: Seq<u8>, width: u16, height: u16, mono: bool) -> FrameView {
    FrameView {
        width,
        height,
        cells: Seq::new(
            ((width as int) * (height as int)) as nat,
            |i: int|
                if 3 * i + 2 < data.len() {
                    spec_cell(data[3 * i], data[3 * i + 1], data[3 * i + 2], mono)
                } else {
                    (' ', 0u8, 0u8, 0u8)
                },
        ),
    }
}

/// Encoding any pixel buffer gives a well-formed frame, and that frame
/// survives serialization exactly: the parse returns the same width, the
/// same height, and the same width x height cells.
pub proof fn lemma_encode_round_trip(data: Seq<u8>, width: u16, height: u16, mono: bool)
    ensures
        ({
            let f = spec_encode_rgb(data, width, height, mono);
            &&& f.wf()
            &&& f.width == width
            &&& f.height == height
            &&& f.cells.len() == (width as int) * (height as int)
            &&& spec_deserialize(spec_serialize(f)) == Ok::<FrameView, FrameFormatError>(f)
        }),
{
    let f = spec_encode_rgb(data, width, height, mono);
    lemma_mul_nonnegative(width as int, height as int);
    assert forall|i: int| 0 <= i < f.cells.len() implies 0 <= (
    #[trigger] (f.cells[i].0 as int)) < 256 by {
        if 3 * i + 2 < data.len() {
            lemma_ramp_index_bounds(
                spec_luminance(data[3 * i], data[3 * i + 1], data[3 * i + 2]),
            );
            lemma_ramp_shape();
        } else {
            assert(f.cells[i].0 == ' ');
        }
    }
    lemma_serialize_deserialize(f);
}

/// The character for one decimal digit.
pub open spec fn digit_char(d: int) -> char {
    (48 + d) as u8 as char
}

/// The decimal digits of a nonnegative number, most significant first.
pub open spec fn dec_digits(n: int) -> Seq<char>
    decreases n,
{
    if n < 10 {
        seq![digit_char(n)]
    } else {
        dec_digits(n / 10).push(digit_char(n % 10))
    }
}

/// The escape sequence painting one cell: select its RGB foreground color,
/// then print its glyph.
pub open spec fn cell_text(c: Cell) -> Seq<char> {
    seq!['\u{1b}', '[', '3', '8', ';', '2', ';'] + dec_digits(c.1 as int) + seq![';']
        + dec_digits(c.2 as int) + seq![';'] + dec_digits(c.3 as int) + seq!['m', c.0]
}

/// The text of a run of cells.
pub open spec fn cells_text(cells: Seq<Cell>) -> Seq<char>
    decreases cells.len(),
{
    if cells.len() == 0 {
        Seq::empty()
    } else {
        cell_text(cells[0]) + cells_text(cells.skip(1))
    }
}

/// The color reset and line break closing each row.
pub open spec fn row_end() -> Seq<char> {
    seq!['\u{1b}', '[', '0', 'm', '\n']
}

/// The text of the first `rows` rows of a row-major cell grid.
pub open spec fn rows_text(cells: Seq<Cell>, width: int, rows: int) -> Seq<char>
    decreases rows,
{
    if rows <= 0 {
        Seq::empty()
    } else {
        rows_text(cells, width, rows - 1) + cells_text(
            cells.subrange((rows - 1) * width, rows * width),
        ) + row_end()
    }
}

/// The full colored rendering of a frame.
pub open spec fn colored_text(f: FrameView) -> Seq<char> {
    rows_text(f.cells, f.width as int, f.height as int)
}

proof fn lemma_cells_text_snoc(cells: Seq<Cell>, c: Cell)
    ensures
        cells_text(cells.push(c)) == cells_text(cells) + cell_text(c),
    decreases cells.len(),
{
    if cells.len() == 0 {
        let p = cells.push(c);
        assert(p[0] == c);
        assert(p.skip(1) =~= Seq::<Cell>::empty());
        assert(cells_text(p.skip(1)) =~= Seq::<char>::empty());
        assert(cells_text(cells) =~= Seq::<char>::empty());
        assert(cells_text(cells.push(c)) =~= cells_text(cells) + cell_text(c));
    } else {
        assert(cells.push(c).skip(1) =~= cells.skip(1).push(c));
        lemma_cells_text_snoc(cells.skip(1), c);
        assert(cells_text(cells.push(c)) =~= cells_text(cells) + cell_text(c));
    }
}

fn push_decimal(s: &mut String, v: u8)
    ensures
        final(s)@ == old(s)@ + dec_digits(v as int),
{
    if v >= 100 {
        proof {
            lemma_div_denominator(v as int, 10, 10);
        }
        crate::push_char(s, (48 + v / 100) as char);
        crate::push_char(s, (48 + (v / 10) % 10) as char);
        crate::push_char(s, (48 + v % 10) as char);
        proof {
            assert(dec_digits(v as int / 100) =~= seq![digit_char(v as int / 100)]);
            assert(dec_digits(v as int / 10) =~= seq![
                digit_char(v as int / 100),
                digit_char((v as int / 10) % 10),
            ]);
            assert(dec_digits(v as int) =~= seq![
                digit_char(v as int / 100),
                digit_char((v as int / 10) % 10),
                digit_char(v as int % 10),
            ]);
            assert(final(s)@ =~= old(s)@ + dec_digits(v as int));
        }
    } else if v >= 10 {
        crate::push_char(s, (48 + v / 10) as char);
        crate::push_char(s, (48 + v % 10) as char);
        proof {
            assert(dec_digits(v as int / 10) =~= seq![digit_char(v as int / 10)]);
            assert(dec_digits(v as int) =~= seq![
                digit_char(v as int / 10),
                digit_char(v as int % 10),
            ]);
            assert(final(s)@ =~= old(s)@ + dec_digits(v as int));
        }
    } else {
        crate::push_char(s, (48 + v) as char);
        proof {
            assert(final(s)@ =~= old(s)@ + dec_digits(v as int));
        }
    }
}

fn push_cell_text(s: &mut String, c: Cell)
    ensures
        final(s)@ == old(s)@ + cell_text(c),
{
    crate::push_char(s, '\u{1b}');
    crate::push_char(s, '[');
    crate::push_char(s, '3');
    crate::push_char(s, '8');
    crate::push_char(s, ';');
    crate::push_char(s, '2');
    crate::push_char(s, ';');
    push_decimal(s, c.1);
    crate::push_char(s, ';');
    push_decimal(s, c.2);
    crate::push_char(s, ';');
    push_decimal(s, c.3);
    crate::push_char(s, 'm');
    crate::push_char(s, c.0);
    proof {
        assert(final(s)@ =~= old(s)@ + cell_text(c));
    }
}

impl AsciiFrame {
    /// Renders the frame as terminal text: each cell as a truecolor escape
    /// and its glyph, each row closed by a color reset and a line break.
    pub fn to_string_colored(&self) -> (r: String)
        requires
            self@.wf(),
        ensures
            r@ == colored_text(self@),
    {
        let mut s = String::new();
        let mut idx: usize = 0;
        let mut y: u16 = 0;
        let n: usize = self.cells.len();
        proof {
            lemma_mul_nonnegative(self@.width as int, self@.height as int);
        }
        while y < self.height
            invariant
                self@.wf(),
                y <= self@.height,
                n == self@.cells.len(),
                idx == (y as int) * (self@.width as int),
                idx <= self@.cells.len(),
                s@ == rows_text(self@.cells, self@.width as int, y as int),
            decreases self@.height - y,
        {
            let row_base = Ghost(idx as int);
            let mut x: u16 = 0;
            proof {
                lemma_mul_upper_bound(y as int + 1, 0xffff, self@.width as int, 0xffff);
                lemma_mul_is_distributive_add_other_way(self@.width as int, y as int, 1);
                lemma_mul_inequality(y as int + 1, self@.height as int, self@.width as int);
                assert((y as int) * (self@.width as int) + self@.width as int <= self@.cells.len())
                    by {
                    lemma_mul_is_commutative(self@.width as int, self@.height as int);
                };
            }
            while x < self.width
                invariant
                    self@.wf(),
                    y < self@.height,
                    x <= self@.width,
                    n == self@.cells.len(),
                    row_base@ == (y as int) * (self@.width as int),
                    idx == row_base@ + x as int,
                    row_base@ + self@.width as int <= self@.cells.len(),
                    s@ == rows_text(self@.cells, self@.width as int, y as int) + cells_text(
                        self@.cells.subrange(row_base@, idx as int),
                    ),
                decreases self@.width - x,
            {
                let cell = self.cells[idx];
                push_cell_text(&mut s, cell);
                proof {
                    let part = self@.cells.subrange(row_base@, idx as int);
                    assert(self@.cells.subrange(row_base@, idx as int + 1) =~= part.push(
                        self@.cells[idx as int],
                    ));
                    lemma_cells_text_snoc(part, self@.cells[idx as int]);
                    assert(s@ =~= rows_text(self@.cells, self@.width as int, y as int)
                        + cells_text(self@.cells.subrange(row_base@, idx as int + 1)));
                }
                idx += 1;
                x += 1;
            }
            crate::push_char(&mut s, '\u{1b}');
            crate::push_char(&mut s, '[');
            crate::push_char(&mut s, '0');
            crate::push_char(&mut s, 'm');
            crate::push_char(&mut s, '\n');
            proof {
                assert(s@ =~= rows_text(self@.cells, self@.width as int, y as int + 1));
            }
            y += 1;
        }
        proof {
            assert(s@ == colored_text(self@));
        }
        s
    }
}

/// Rejection reasons for a serialized frame buffer.
#[derive(Clone, Copy, Debug, PartialEq, Eq, Structural)]
pub enum FrameFormatError {
    /// Fewer than the 4 header bytes are present.
    TooShort,
    /// The total length differs from 4 + width x height x 4.
    LengthMismatch,
}

} // verus!
