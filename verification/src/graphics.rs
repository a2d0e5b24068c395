//! A text console drawn into a linear framebuffer.
use vstd::prelude::*;
use vstd::arithmetic::div_mod::{lemma_fundamental_div_mod, lemma_fundamental_div_mod_converse};
use vstd::string::StringSliceAdditionalSpecFns;

verus! {

/// Colour layout of one pixel in the framebuffer.
#[derive(Clone, Copy)]
pub enum PixelFormat {
    /// Red, green, blue bytes, then padding.
    Rgb,
    /// Blue, green, red bytes, then padding.
    Bgr,
    /// One grey byte, then padding.
    U8,
    /// A layout given by the bit offsets of the three colours.
    Unknown { red_position: u8, green_position: u8, blue_position: u8 },
}

/// Shape and pixel format of a framebuffer.
#[derive(Clone, Copy)]
pub struct FrameBufferInfo {
    /// Size of the framebuffer in bytes.
    pub byte_len: usize,
    /// Visible pixels per line.
    pub width: usize,
    /// Visible lines.
    pub height: usize,
    /// Colour layout of a pixel.
    pub pixel_format: PixelFormat,
    /// Bytes per pixel.
    pub bytes_per_pixel: usize,
    /// Pixels from the start of one line to the start of the next.
    pub stride: usize,
}

/// A colour as red, green and blue intensities.
pub type Color = (u8, u8, u8);

/// Colour of a number's text that lacks its `{}`.
pub const PURPLE: Color = (180, 120, 240);
/// Colour of the warning about a missing `{}`.
pub const YELLOW: Color = (240, 220, 90);
/// Colour of ordinary console output.
pub const WHITE: Color = (230, 230, 230);

/// The console's background colour.
pub const BACKGROUND: Color = (30, 30, 36);

/// Width of a character cell in font pixels (an 8 pixel glyph and a gap).
pub const CELL_WIDTH: usize = 9;
/// Height of a character cell in font pixels (a 16 pixel glyph and a gap).
pub const CELL_HEIGHT: usize = 17;

/// The newline byte.
pub const NEWLINE: u8 = 10;

/// Byte that fills unused places of a number's text.
pub const CHAR_NONE: u8 = 0;

/// One glyph: sixteen rows of eight pixels, the leftmost in the top bit.
pub type Glyph = [u8; 16];

/// Printed when a number's text has no `{}` to put the number in.
pub const FORMAT_WARNING: &'static str = "warning: formatted text has no valid symbol\n\n";

/// The ASCII digit of `d`.
pub open spec fn digit_char(d: int) -> u8 {
    (48 + d) as u8
}

/// The decimal digits of `n` without leading zeros (none for zero).
pub open spec fn digits(n: nat) -> Seq<u8>
    decreases n,
{
    if n == 0 {
        seq![]
    } else {
        digits(n / 10).push(digit_char((n % 10) as int))
    }
}

/// The decimal text of `n`.
pub open spec fn decimal(n: nat) -> Seq<u8> {
    if n == 0 {
        seq![digit_char(0)]
    } else {
        digits(n)
    }
}

/// Ten to the power `k`.
pub open spec fn pow10(k: nat) -> nat
    decreases k,
{
    if k == 0 {
        1
    } else {
        10 * pow10((k - 1) as nat)
    }
}

/// The first place at or after `from` where `text` holds `{}`.
pub open spec fn find_placeholder(text: Seq<u8>, from: int) -> Option<int>
    decreases text.len() - from,
{
    if from < 0 || from + 1 >= text.len() {
        None
    } else if text[from] == 123u8 && text[from + 1] == 125u8 {
        Some(from)
    } else {
        find_placeholder(text, from + 1)
    }
}

/// The number that a text of ASCII digits spells in decimal.
pub open spec fn decimal_value(text: Seq<u8>) -> int
    decreases text.len(),
{
    if text.len() == 0 {
        0
    } else {
        decimal_value(text.drop_last()) * 10 + (text.last() - 48)
    }
}

/// `decimal` spells its number: it is a non-empty text of ASCII digits whose
/// decimal value is the number.
pub proof fn lemma_decimal_spells(n: nat)
    ensures
        decimal(n).len() > 0,
        forall|i: int| 0 <= i < decimal(n).len() ==> 48 <= #[trigger] decimal(n)[i] <= 57,
        decimal_value(decimal(n)) == n,
{
    if n == 0 {
        assert(decimal(n).drop_last() =~= Seq::<u8>::empty());
        assert(decimal_value(decimal(n).drop_last()) == 0);
        assert(decimal(n).last() == 48);
    } else {
        lemma_digits_spell(n);
    }
}

/// The decimal text ends with the ones digit, has no leading zero, and has
/// at most ten digits for a `u32`.
pub proof fn lemma_decimal_digits(n: nat)
    ensures
        decimal(n).last() == 48 + n % 10,
        n >= 10 ==> decimal(n).first() != 48u8,
        n <= u32::MAX ==> decimal(n).len() <= 10,
{
    if n > 0 {
        lemma_digits_leading(n);
    }
    if n <= u32::MAX && n > 0 {
        lemma_u32_has_ten_digits();
        lemma_digits_len(n, 10);
    }
}

proof fn lemma_digits_leading(n: nat)
    requires
        n > 0,
    ensures
        digits(n).len() > 0,
        digits(n).first() != 48u8,
    decreases n,
{
    if n / 10 > 0 {
        lemma_digits_leading(n / 10);
    } else {
        assert(digits(n / 10) =~= Seq::<u8>::empty());
        assert(n % 10 == n);
    }
}

proof fn lemma_digits_spell(n: nat)
    ensures
        forall|i: int| 0 <= i < digits(n).len() ==> 48 <= #[trigger] digits(n)[i] <= 57,
        decimal_value(digits(n)) == n,
        n > 0 ==> digits(n).len() > 0,
    decreases n,
{
    if n > 0 {
        lemma_digits_spell(n / 10);
        assert(digits(n).drop_last() =~= digits(n / 10));
    }
}

/// Every `u32` is below `10^10`.
proof fn lemma_u32_has_ten_digits()
    ensures
        4294967295 < pow10(10),
{
    assert(pow10(0) == 1);
    assert(pow10(1) == 10);
    assert(pow10(2) == 100);
    assert(pow10(3) == 1000);
    assert(pow10(4) == 10000);
    assert(pow10(5) == 100000);
    assert(pow10(6) == 1000000);
    assert(pow10(7) == 10000000);
    assert(pow10(8) == 100000000);
    assert(pow10(9) == 1000000000);
    assert(pow10(10) == 10000000000);
}

/// A number below `10^k` has at most `k` digits.
proof fn lemma_digits_len(n: nat, k: nat)
    requires
        n < pow10(k),
    ensures
        digits(n).len() <= k,
    decreases k,
{
    if n > 0 {
        if k == 0 {
            assert(false);
        } else {
            assert(n / 10 < pow10((k - 1) as nat));
            lemma_digits_len(n / 10, (k - 1) as nat);
        }
    }
}

/// How many screen pixels one font pixel takes on a display `width` wide.
pub open spec fn scaling_for(width: usize) -> usize {
    if width <= 720 {
        1
    } else if width <= 1440 {
        2
    } else {
        3
    }
}

/// The fixed geometry of a console: the framebuffer, the scaling, the
/// background and how many character cells fit across and down.
pub struct Layout {
    pub info: FrameBufferInfo,
    pub scaling: usize,
    pub background_color: Color,
    pub char_space: (usize, usize),
}

/// The geometry that a new console takes for a framebuffer.
pub open spec fn layout_for(info: FrameBufferInfo) -> Layout {
    let s = scaling_for(info.width);
    Layout {
        info,
        scaling: s,
        background_color: BACKGROUND,
        char_space: (
            (info.width as int / (CELL_WIDTH as int * s as int)) as usize,
            (info.height as int / (CELL_HEIGHT as int * s as int)) as usize,
        ),
    }
}

/// Whether `byte_len` bytes hold the three colour bytes of every pixel that
/// starts inside them, pixels being `bpp` bytes apart in a buffer of `len`.
pub open spec fn fill_fits(byte_len: int, bpp: int, len: int) -> bool {
    byte_len == 0 || ((byte_len - 1) / bpp) * bpp + 3 <= len
}

/// What a console's display shows: the framebuffer bytes and the cursor
/// (column, line) in character cells.
pub type Screen = (Seq<u8>, (usize, usize));

impl Layout {
    pub open spec fn bpp(self) -> int {
        self.info.bytes_per_pixel as int
    }

    pub open spec fn stride(self) -> int {
        self.info.stride as int
    }

    /// Whether the pixel format is one that the console draws in.
    pub open spec fn is_color(self) -> bool {
        self.info.pixel_format is Rgb || self.info.pixel_format is Bgr
    }

    /// The `k`-th byte of a pixel of colour `color`.
    pub open spec fn channel(self, color: Color, k: int) -> u8 {
        match self.info.pixel_format {
            PixelFormat::Bgr => if k == 0 {
                color.2
            } else if k == 1 {
                color.1
            } else {
                color.0
            },
            _ => if k == 0 {
                color.0
            } else if k == 1 {
                color.1
            } else {
                color.2
            },
        }
    }

    /// Column of the pixel that byte `j` belongs to.
    pub open spec fn px(self, j: int) -> int {
        (j / self.bpp()) % self.stride()
    }

    /// Line of the pixel that byte `j` belongs to.
    pub open spec fn py(self, j: int) -> int {
        (j / self.bpp()) / self.stride()
    }

    /// `bytes` with every pixel in `region` set to its colour in `color`.
    /// Only the three colour bytes of a pixel are written, and only in the
    /// Rgb and Bgr formats.
    pub open spec fn paint(
        self,
        bytes: Seq<u8>,
        region: spec_fn(int, int) -> bool,
        color: spec_fn(int, int) -> Color,
    ) -> Seq<u8> {
        Seq::new(
            bytes.len(),
            |j: int|
                if self.is_color() && j % self.bpp() < 3 && region(self.px(j), self.py(j)) {
                    self.channel(color(self.px(j), self.py(j)), j % self.bpp())
                } else {
                    bytes[j]
                },
        )
    }

    /// `bytes` with every pixel that starts before `byte_len` set to `color`.
    pub open spec fn fill(self, bytes: Seq<u8>, color: Color) -> Seq<u8> {
        Seq::new(
            bytes.len(),
            |j: int|
                if self.is_color() && j % self.bpp() < 3 && (j / self.bpp()) * self.bpp()
                    < self.info.byte_len {
                    self.channel(color, j % self.bpp())
                } else {
                    bytes[j]
                },
        )
    }

    /// `bytes` scrolled up by `rows` pixel lines: everything moves `rows`
    /// lines towards the start and the freed end gets the background colour.
    pub open spec fn chop(self, bytes: Seq<u8>, rows: int) -> Seq<u8> {
        let offset = rows * self.stride() * self.bpp();
        let end = bytes.len() - offset;
        Seq::new(
            bytes.len(),
            |j: int|
                if j < end {
                    bytes[j + offset]
                } else if self.is_color() && (j - end) % self.bpp() < 3 {
                    self.channel(self.background_color, (j - end) % self.bpp())
                } else {
                    bytes[j]
                },
        )
    }

    /// First byte of pixel (`x`, `y`), counting pixels line by line.
    pub open spec fn pixel_index(self, x: int, y: int) -> int {
        (y * self.stride() + x) * self.bpp()
    }

    /// `bytes` with the colour bytes of pixel (`x`, `y`) set to `color`: in
    /// the Rgb and Bgr formats the three bytes from `pixel_index(x, y)` on,
    /// in other formats none.
    pub open spec fn put_pixel(self, bytes: Seq<u8>, x: int, y: int, color: Color) -> Seq<u8> {
        let i = self.pixel_index(x, y);
        if self.is_color() {
            bytes.update(i, self.channel(color, 0)).update(i + 1, self.channel(color, 1)).update(
                i + 2,
                self.channel(color, 2),
            )
        } else {
            bytes
        }
    }

    /// The colour of font pixel `col` of a glyph row `bits` drawn in `fg`:
    /// the leftmost pixel is the top bit.
    pub open spec fn glyph_color(self, bits: u8, col: int, fg: Color) -> Color {
        if (bits >> ((7 - col) as usize)) & 1u8 != 0 {
            fg
        } else {
            self.background_color
        }
    }

    /// Pixels (`x`, `y`) .. (`x`, `y + n - 1`) set to `color`, top down.
    pub open spec fn blit_column(self, bytes: Seq<u8>, x: int, y: int, n: int, color: Color) -> Seq<u8>
        decreases n,
    {
        if n <= 0 {
            bytes
        } else {
            self.put_pixel(self.blit_column(bytes, x, y, n - 1, color), x, y + n - 1, color)
        }
    }

    /// The first `n` columns of a `scaling` by `scaling` square with its top
    /// left pixel at (`x`, `y`), set to `color`, left to right.
    pub open spec fn blit_square(self, bytes: Seq<u8>, x: int, y: int, n: int, color: Color) -> Seq<u8>
        decreases n,
    {
        if n <= 0 {
            bytes
        } else {
            self.blit_column(
                self.blit_square(bytes, x, y, n - 1, color),
                x + n - 1,
                y,
                self.scaling as int,
                color,
            )
        }
    }

    /// The first `n` font pixels of a glyph row `bits`, each a square, drawn
    /// from pixel (`x`, `y`) on, left to right.
    pub open spec fn blit_row(self, bytes: Seq<u8>, x: int, y: int, bits: u8, fg: Color, n: int) -> Seq<u8>
        decreases n,
    {
        if n <= 0 {
            bytes
        } else {
            self.blit_square(
                self.blit_row(bytes, x, y, bits, fg, n - 1),
                x + (n - 1) * self.scaling,
                y,
                self.scaling as int,
                self.glyph_color(bits, n - 1, fg),
            )
        }
    }

    /// The first `n` rows of `bitmap` drawn from pixel `offset` on, top down.
    pub open spec fn blit_rows(self, bytes: Seq<u8>, offset: (int, int), bitmap: Glyph, fg: Color, n: int) -> Seq<u8>
        decreases n,
    {
        if n <= 0 {
            bytes
        } else {
            self.blit_row(
                self.blit_rows(bytes, offset, bitmap, fg, n - 1),
                offset.0,
                offset.1 + (n - 1) * self.scaling,
                bitmap@[n - 1],
                fg,
                8,
            )
        }
    }

    /// `bytes` with `bitmap` drawn at pixel `offset`: row by row and font
    /// pixel by font pixel, each font pixel a `scaling` by `scaling` square
    /// in `fg` when set and in the background colour when clear.
    pub open spec fn blit(self, bytes: Seq<u8>, offset: (int, int), bitmap: Glyph, fg: Color) -> Seq<u8> {
        self.blit_rows(bytes, offset, bitmap, fg, 16)
    }

    /// Whether a glyph drawn at `offset` can be addressed: its coordinates
    /// and pixel indices fit a `usize`, and in the Rgb and Bgr formats the
    /// colour bytes of its last pixel, which has the highest index, lie in
    /// a buffer of `len` bytes.
    pub open spec fn blit_fits(self, offset: (int, int), len: int) -> bool {
        let s = self.scaling as int;
        let last_x = offset.0 + 8 * s - 1;
        let last_y = offset.1 + 16 * s - 1;
        &&& offset.0 + 8 * s <= usize::MAX
        &&& offset.1 + 16 * s <= usize::MAX
        &&& s > 0 ==> {
            &&& last_y * self.stride() + last_x <= usize::MAX
            &&& self.pixel_index(last_x, last_y) <= usize::MAX
            &&& self.is_color() ==> self.pixel_index(last_x, last_y) + 3 <= len
        }
    }

    /// Top left pixel of the character cell at `cursor`.
    pub open spec fn cursor_to_pixel(self, cursor: (usize, usize)) -> (int, int) {
        let s = self.scaling as int;
        (cursor.0 * (CELL_WIDTH as int * s), cursor.1 * (CELL_HEIGHT as int * s))
    }

    /// The cursor moved to the first column of the next line; on the last
    /// line the display scrolls up by one line of cells instead.
    pub open spec fn newline(self, st: Screen) -> Screen {
        if st.1.1 == self.char_space.1 - 1 {
            (
                self.chop(st.0, CELL_HEIGHT as int * self.scaling as int),
                (1usize, (self.char_space.1 - 1) as usize),
            )
        } else {
            (st.0, (1usize, (st.1.1 + 1) as usize))
        }
    }

    /// The cursor moved one cell right, or to the next line when it reaches
    /// the last column.
    pub open spec fn cursor_right(self, st: Screen) -> Screen {
        let col = (st.1.0 + 1) as usize;
        if col >= self.char_space.0 - 1 {
            self.newline((st.0, (col, st.1.1)))
        } else {
            (st.0, (col, st.1.1))
        }
    }

    /// The cursor moved one cell left, but not past the first column.
    pub open spec fn cursor_left(self, st: Screen) -> Screen {
        if st.1.0 > 1 {
            (st.0, ((st.1.0 - 1) as usize, st.1.1))
        } else {
            st
        }
    }

    /// The screen after writing byte `c` in `fg`: a newline moves to the
    /// next line; any other byte draws its glyph at the cursor and moves
    /// right.
    pub open spec fn put_char(self, font: Seq<Glyph>, st: Screen, c: u8, fg: Color) -> Screen {
        if c == NEWLINE {
            self.newline(st)
        } else {
            let drawn = self.blit(st.0, self.cursor_to_pixel(st.1), font[c as int], fg);
            self.cursor_right((drawn, st.1))
        }
    }

    /// The screen after writing `text` in `fg`, byte by byte.
    pub open spec fn write(self, font: Seq<Glyph>, st: Screen, text: Seq<u8>, fg: Color) -> Screen
        decreases text.len(),
    {
        if text.len() == 0 {
            st
        } else {
            self.put_char(font, self.write(font, st, text.drop_last(), fg), text.last(), fg)
        }
    }

    /// Whether moving to the next line stays within the machine, for a
    /// buffer of `len` bytes and the cursor `cursor`: there is a line to
    /// count down from, and either the scroll by one cell line fits the
    /// buffer (with three-byte pixels in the colour formats when it paints)
    /// or the next line number fits a `usize`.
    pub open spec fn newline_ok(self, len: int, cursor: (usize, usize)) -> bool {
        let rows = CELL_HEIGHT as int * self.scaling as int;
        &&& self.char_space.1 >= 1
        &&& if cursor.1 == self.char_space.1 - 1 {
            &&& rows <= usize::MAX
            &&& self.bpp() > 0
            &&& rows * self.stride() * self.bpp() <= len
            &&& self.is_color() && rows * self.stride() > 0 ==> self.bpp() >= 3
        } else {
            cursor.1 + 1 <= usize::MAX
        }
    }

    /// Whether moving one cell right stays within the machine.
    pub open spec fn right_ok(self, len: int, cursor: (usize, usize)) -> bool {
        &&& cursor.0 + 1 <= usize::MAX
        &&& self.char_space.0 >= 1
        &&& cursor.0 + 1 >= self.char_space.0 - 1 ==> self.newline_ok(len, ((cursor.0 + 1) as usize, cursor.1))
    }

    /// Whether writing byte `c` stays within the machine: the font has its
    /// glyph, the cell's pixel coordinates fit a `usize`, the glyph can be
    /// drawn there (see `blit_fits`) and the cursor can move on.
    pub open spec fn put_ok(self, font: Seq<Glyph>, len: int, cursor: (usize, usize), c: u8) -> bool {
        if c == NEWLINE {
            self.newline_ok(len, cursor)
        } else {
            let s = self.scaling as int;
            &&& (c as int) < font.len()
            &&& CELL_WIDTH as int * s <= usize::MAX
            &&& CELL_HEIGHT as int * s <= usize::MAX
            &&& cursor.0 * (CELL_WIDTH as int * s) <= usize::MAX
            &&& cursor.1 * (CELL_HEIGHT as int * s) <= usize::MAX
            &&& self.blit_fits(self.cursor_to_pixel(cursor), len)
            &&& self.right_ok(len, cursor)
        }
    }

    /// Whether writing `text` byte by byte from the screen `st` stays within
    /// the machine.
    pub open spec fn write_ok(self, font: Seq<Glyph>, st: Screen, text: Seq<u8>, fg: Color) -> bool
        decreases text.len(),
    {
        text.len() == 0 || {
            let before = self.write(font, st, text.drop_last(), fg);
            self.write_ok(font, st, text.drop_last(), fg) && self.put_ok(font, before.0.len() as int, before.1, text.last())
        }
    }

    /// The geometry's own well-formedness, for a buffer of `len` bytes.
    pub open spec fn wf(self, len: int) -> bool {
        let s = self.scaling as int;
        &&& self.bpp() > 0
        &&& self.is_color() ==> self.bpp() >= 3 && fill_fits(self.info.byte_len as int, self.bpp(), len)
        &&& self.info.stride >= self.info.width
        &&& self.info.height as int * self.stride() * self.bpp() <= len
        &&& 1 <= s <= 3
        &&& self.char_space.0 >= 2
        &&& self.char_space.1 >= 2
        &&& self.char_space.0 as int * (CELL_WIDTH as int * s) <= self.info.width
        &&& self.char_space.1 as int * (CELL_HEIGHT as int * s) <= self.info.height
    }

    /// Whether a cursor lies inside the console's cells.
    pub open spec fn cursor_ok(self, cursor: (usize, usize)) -> bool {
        &&& 1 <= cursor.0 <= self.char_space.0 - 1
        &&& 1 <= cursor.1 <= self.char_space.1 - 1
    }
}

/// Byte `k` of pixel (`x`, `y`) is byte `(y * stride + x) * bpp + k`, and
/// every byte is such a byte.
proof fn lemma_pixel_byte(l: Layout, x: int, y: int, k: int)
    requires
        l.bpp() > 0,
        l.stride() > 0,
        0 <= x < l.stride(),
        0 <= y,
        0 <= k < l.bpp(),
    ensures
        ((y * l.stride() + x) * l.bpp() + k) / l.bpp() == y * l.stride() + x,
        ((y * l.stride() + x) * l.bpp() + k) % l.bpp() == k,
        l.px((y * l.stride() + x) * l.bpp() + k) == x,
        l.py((y * l.stride() + x) * l.bpp() + k) == y,
{
    let q = y * l.stride() + x;
    lemma_fundamental_div_mod_converse(q * l.bpp() + k, l.bpp(), q, k);
    lemma_fundamental_div_mod_converse(q, l.stride(), y, x);
}

/// Every byte `j` is byte `j % (bpp as int)` of pixel (`px(j)`, `py(j)`).
proof fn lemma_byte_pixel(l: Layout, j: int)
    requires
        l.bpp() > 0,
        l.stride() > 0,
        0 <= j,
    ensures
        j == (l.py(j) * l.stride() + l.px(j)) * l.bpp() + j % l.bpp(),
        0 <= l.px(j) < l.stride(),
        0 <= l.py(j),
        0 <= j % l.bpp() < l.bpp(),
{
    let q = j / l.bpp();
    lemma_fundamental_div_mod(j, l.bpp());
    lemma_fundamental_div_mod(q, l.stride());
    assert(j == q * l.bpp() + j % l.bpp()) by (nonlinear_arith)
        requires j == l.bpp() * q + j % l.bpp();
    assert(q == l.py(j) * l.stride() + l.px(j)) by (nonlinear_arith)
        requires q == l.stride() * (q / l.stride()) + q % l.stride(), l.py(j) == q / l.stride(), l.px(j) == q % l.stride();
    assert(0 <= q) by (nonlinear_arith) requires 0 <= j, l.bpp() > 0, q == j / l.bpp();
    assert(0 <= l.py(j)) by (nonlinear_arith) requires 0 <= q, l.stride() > 0, l.py(j) == q / l.stride();
}

/// A text console on a framebuffer: characters are drawn cell by cell from
/// the cursor on, and the display scrolls up when the last line is full.
pub struct GraphicsManager {
    info: FrameBufferInfo,
    buffer: &'static mut [u8],
    scaling: usize,
    background_color: Color,
    char_space: (usize, usize),
    cursor: (usize, usize),
    font: Vec<Glyph>,
}

/// Pixel `q` starts before `byte_len` exactly when `q` is below the number
/// of pixels that start there.
proof fn lemma_pixel_count(q: int, bpp: int, byte_len: int)
    requires
        0 <= q,
        0 < bpp,
        0 <= byte_len,
    ensures
        (q < byte_len / bpp + if byte_len % bpp == 0 { 0int } else { 1int }) == (q * bpp < byte_len),
{
    let d = byte_len / bpp;
    let r = byte_len % bpp;
    lemma_fundamental_div_mod(byte_len, bpp);
    assert(0 <= r < bpp);
    if q < d {
        assert(q * bpp < byte_len) by (nonlinear_arith)
            requires q < d, byte_len == bpp * d + r, 0 <= r, 0 < bpp;
    } else if q == d {
        assert(q * bpp == byte_len - r) by (nonlinear_arith)
            requires q == d, byte_len == bpp * d + r;
    } else {
        assert(q * bpp >= byte_len + bpp - r) by (nonlinear_arith)
            requires q >= d + 1, byte_len == bpp * d + r, 0 < bpp;
    }
}

/// Every pixel that starts before `byte_len` has its colour bytes in the
/// buffer.
proof fn lemma_fill_fits(q: int, bpp: int, byte_len: int, len: int)
    requires
        0 <= q,
        0 < bpp,
        q * bpp < byte_len,
        fill_fits(byte_len, bpp, len),
    ensures
        q * bpp + 3 <= len,
{
    let m = (byte_len - 1) / bpp;
    lemma_fundamental_div_mod(byte_len - 1, bpp);
    assert(q <= m) by (nonlinear_arith)
        requires q * bpp <= byte_len - 1, byte_len - 1 == bpp * m + (byte_len - 1) % bpp,
            (byte_len - 1) % bpp < bpp, 0 < bpp;
    assert(q * bpp <= m * bpp) by (nonlinear_arith) requires q <= m, 0 < bpp;
}

/// Byte `j` of the buffer is byte `j % (bpp as int)` of pixel `j / bpp`.
proof fn lemma_split(j: int, q: int, k: int, bpp: int)
    requires
        0 < bpp,
        0 <= k < bpp,
        j == q * bpp + k,
    ensures
        j / bpp == q,
        j % (bpp as int) == k,
{
    lemma_fundamental_div_mod_converse(j, bpp, q, k);
}

/// Writing two texts one after the other draws the same as writing them
/// joined.
pub proof fn lemma_write_concat(l: Layout, font: Seq<Glyph>, st: Screen, a: Seq<u8>, b: Seq<u8>, fg: Color)
    ensures
        l.write(font, st, a + b, fg) == l.write(font, l.write(font, st, a, fg), b, fg),
    decreases b.len(),
{
    if b.len() == 0 {
        assert(a + b =~= a);
    } else {
        assert((a + b).drop_last() =~= a + b.drop_last());
        assert((a + b).last() == b.last());
        lemma_write_concat(l, font, st, a, b.drop_last(), fg);
    }
}

/// Painting is the same for regions that hold the same pixels.
proof fn lemma_paint_same_region(
    l: Layout,
    bytes: Seq<u8>,
    r1: spec_fn(int, int) -> bool,
    r2: spec_fn(int, int) -> bool,
    color: spec_fn(int, int) -> Color,
)
    requires
        forall|px: int, py: int| #[trigger] r1(px, py) == r2(px, py),
    ensures
        l.paint(bytes, r1, color) == l.paint(bytes, r2, color),
{
    assert(l.paint(bytes, r1, color) =~= l.paint(bytes, r2, color));
}

/// Setting one more pixel to its colour paints one more pixel.
proof fn lemma_put_painted(
    l: Layout,
    bytes: Seq<u8>,
    region: spec_fn(int, int) -> bool,
    color: spec_fn(int, int) -> Color,
    x: int,
    y: int,
)
    requires
        l.is_color() ==> l.bpp() >= 3,
        0 <= x < l.stride(),
        0 <= y,
        l.is_color() ==> l.pixel_index(x, y) + 3 <= bytes.len(),
    ensures
        l.put_pixel(l.paint(bytes, region, color), x, y, color(x, y)) == l.paint(
            bytes,
            |px: int, py: int| region(px, py) || (px == x && py == y),
            color,
        ),
{
    let before = l.paint(bytes, region, color);
    let after = l.put_pixel(before, x, y, color(x, y));
    let target = l.paint(bytes, |px: int, py: int| region(px, py) || (px == x && py == y), color);
    let i = l.pixel_index(x, y);
    assert forall|j: int| 0 <= j < bytes.len() implies #[trigger] after[j] == target[j] by {
        if l.is_color() {
            lemma_byte_pixel(l, j);
            if l.px(j) == x && l.py(j) == y {
                assert(j == i + j % l.bpp());
            }
            if i <= j < i + 3 {
                lemma_pixel_byte(l, x, y, j - i);
            }
        }
    }
    assert(after =~= target);
}

/// Drawing a column of pixels of one colour paints them.
proof fn lemma_column_painted(
    l: Layout,
    bytes: Seq<u8>,
    region: spec_fn(int, int) -> bool,
    color: spec_fn(int, int) -> Color,
    x: int,
    y: int,
    n: int,
    c: Color,
)
    requires
        l.is_color() ==> l.bpp() >= 3,
        0 <= x < l.stride(),
        0 <= y,
        0 <= n,
        n > 0 && l.is_color() ==> l.pixel_index(x, y + n - 1) + 3 <= bytes.len(),
        forall|k: int| 0 <= k < n ==> #[trigger] color(x, y + k) == c,
    ensures
        l.blit_column(l.paint(bytes, region, color), x, y, n, c) == l.paint(
            bytes,
            |px: int, py: int| region(px, py) || (px == x && y <= py < y + n),
            color,
        ),
    decreases n,
{
    let r0 = |px: int, py: int| region(px, py) || (px == x && y <= py < y + n - 1);
    if n == 0 {
        lemma_paint_same_region(l, bytes, region, |px: int, py: int| region(px, py) || (px == x && y <= py < y + n), color);
    } else {
        if n > 1 {
            lemma_index_monotone(l, x, y + n - 2, x, y + n - 1);
        }
        lemma_column_painted(l, bytes, region, color, x, y, n - 1, c);
        assert(color(x, y + (n - 1)) == c);
        lemma_put_painted(l, bytes, r0, color, x, y + n - 1);
        lemma_paint_same_region(
            l,
            bytes,
            |px: int, py: int| r0(px, py) || (px == x && py == y + n - 1),
            |px: int, py: int| region(px, py) || (px == x && y <= py < y + n),
            color,
        );
    }
}

/// Drawing the first `n` columns of a square of one colour paints them.
proof fn lemma_square_painted(
    l: Layout,
    bytes: Seq<u8>,
    region: spec_fn(int, int) -> bool,
    color: spec_fn(int, int) -> Color,
    x: int,
    y: int,
    n: int,
    c: Color,
)
    requires
        l.is_color() ==> l.bpp() >= 3,
        l.scaling >= 1,
        0 <= x,
        0 <= y,
        0 <= n,
        x + n <= l.stride(),
        n > 0 && l.is_color() ==> l.pixel_index(x + n - 1, y + l.scaling - 1) + 3 <= bytes.len(),
        forall|px: int, py: int| x <= px < x + n && y <= py < y + l.scaling ==> #[trigger] color(px, py) == c,
    ensures
        l.blit_square(l.paint(bytes, region, color), x, y, n, c) == l.paint(
            bytes,
            |px: int, py: int| region(px, py) || (x <= px < x + n && y <= py < y + l.scaling),
            color,
        ),
    decreases n,
{
    let s = l.scaling as int;
    if n == 0 {
        lemma_paint_same_region(l, bytes, region,
            |px: int, py: int| region(px, py) || (x <= px < x + n && y <= py < y + s), color);
    } else {
        let r0 = |px: int, py: int| region(px, py) || (x <= px < x + n - 1 && y <= py < y + s);
        if n > 1 {
            lemma_index_monotone(l, x + n - 2, y + s - 1, x + n - 1, y + s - 1);
        }
        lemma_square_painted(l, bytes, region, color, x, y, n - 1, c);
        assert forall|k: int| 0 <= k < s implies #[trigger] color(x + n - 1, y + k) == c by {}
        lemma_column_painted(l, bytes, r0, color, x + n - 1, y, s, c);
        lemma_paint_same_region(
            l,
            bytes,
            |px: int, py: int| r0(px, py) || (px == x + n - 1 && y <= py < y + s),
            |px: int, py: int| region(px, py) || (x <= px < x + n && y <= py < y + s),
            color,
        );
    }
}

/// Drawing the first `n` font pixels of a glyph row paints their squares in
/// their colours.
proof fn lemma_row_painted(
    l: Layout,
    bytes: Seq<u8>,
    region: spec_fn(int, int) -> bool,
    color: spec_fn(int, int) -> Color,
    x: int,
    y: int,
    bits: u8,
    fg: Color,
    n: int,
)
    requires
        l.is_color() ==> l.bpp() >= 3,
        l.scaling >= 1,
        0 <= x,
        0 <= y,
        0 <= n,
        x + n * l.scaling <= l.stride(),
        n > 0 && l.is_color() ==> l.pixel_index(x + n * l.scaling - 1, y + l.scaling - 1) + 3 <= bytes.len(),
        forall|px: int, py: int| x <= px < x + n * l.scaling && y <= py < y + l.scaling
            ==> #[trigger] color(px, py) == l.glyph_color(bits, (px - x) / (l.scaling as int), fg),
    ensures
        l.blit_row(l.paint(bytes, region, color), x, y, bits, fg, n) == l.paint(
            bytes,
            |px: int, py: int| region(px, py) || (x <= px < x + n * l.scaling && y <= py < y + l.scaling),
            color,
        ),
    decreases n,
{
    let s = l.scaling as int;
    if n == 0 {
        assert(n * s == 0) by (nonlinear_arith) requires n == 0;
        lemma_paint_same_region(l, bytes, region,
            |px: int, py: int| region(px, py) || (x <= px < x + n * s && y <= py < y + s), color);
    } else {
        let r0 = |px: int, py: int| region(px, py) || (x <= px < x + (n - 1) * s && y <= py < y + s);
        let x0 = x + (n - 1) * s;
        assert(x0 + s == x + n * s) by (nonlinear_arith) requires x0 == x + (n - 1) * s;
        assert(0 <= (n - 1) * s) by (nonlinear_arith) requires n >= 1, s >= 1;
        if n > 1 {
            assert(x0 >= 1) by (nonlinear_arith) requires x0 == x + (n - 1) * s, n > 1, s >= 1, x >= 0;
            lemma_index_monotone(l, x0 - 1, y + s - 1, x0 + s - 1, y + s - 1);
        }
        lemma_row_painted(l, bytes, region, color, x, y, bits, fg, n - 1);
        let c = l.glyph_color(bits, n - 1, fg);
        assert forall|px: int, py: int| x0 <= px < x0 + s && y <= py < y + s implies #[trigger] color(px, py) == c by {
            lemma_fundamental_div_mod_converse(px - x, s, n - 1, px - x0);
        }
        lemma_square_painted(l, bytes, r0, color, x0, y, s, c);
        lemma_paint_same_region(
            l,
            bytes,
            |px: int, py: int| r0(px, py) || (x0 <= px < x0 + s && y <= py < y + s),
            |px: int, py: int| region(px, py) || (x <= px < x + n * s && y <= py < y + s),
            color,
        );
    }
}

/// Drawing the first `n` rows of a glyph paints their pixels.
proof fn lemma_rows_painted(
    l: Layout,
    bytes: Seq<u8>,
    region: spec_fn(int, int) -> bool,
    color: spec_fn(int, int) -> Color,
    offset: (int, int),
    bitmap: Glyph,
    fg: Color,
    n: int,
)
    requires
        l.is_color() ==> l.bpp() >= 3,
        l.scaling >= 1,
        0 <= offset.0,
        0 <= offset.1,
        0 <= n <= 16,
        offset.0 + 8 * l.scaling <= l.stride(),
        n > 0 && l.is_color() ==> l.pixel_index(offset.0 + 8 * l.scaling - 1, offset.1 + n * l.scaling - 1) + 3
            <= bytes.len(),
        forall|px: int, py: int|
            offset.0 <= px < offset.0 + 8 * l.scaling && offset.1 <= py < offset.1 + n * l.scaling
                ==> #[trigger] color(px, py) == l.glyph_color(
                    bitmap@[(py - offset.1) / (l.scaling as int)],
                    (px - offset.0) / (l.scaling as int),
                    fg,
                ),
    ensures
        l.blit_rows(l.paint(bytes, region, color), offset, bitmap, fg, n) == l.paint(
            bytes,
            |px: int, py: int| region(px, py) || (offset.0 <= px < offset.0 + 8 * l.scaling
                && offset.1 <= py < offset.1 + n * l.scaling),
            color,
        ),
    decreases n,
{
    let s = l.scaling as int;
    let (ox, oy) = offset;
    if n == 0 {
        assert(n * s == 0) by (nonlinear_arith) requires n == 0;
        lemma_paint_same_region(l, bytes, region,
            |px: int, py: int| region(px, py) || (ox <= px < ox + 8 * s && oy <= py < oy + n * s), color);
    } else {
        let r0 = |px: int, py: int| region(px, py) || (ox <= px < ox + 8 * s && oy <= py < oy + (n - 1) * s);
        let y0 = oy + (n - 1) * s;
        assert(y0 + s == oy + n * s) by (nonlinear_arith) requires y0 == oy + (n - 1) * s;
        assert(0 <= (n - 1) * s) by (nonlinear_arith) requires n >= 1, s >= 1;
        if n > 1 {
            assert(y0 >= 1) by (nonlinear_arith) requires y0 == oy + (n - 1) * s, n > 1, s >= 1, oy >= 0;
            lemma_index_monotone(l, ox + 8 * s - 1, y0 - 1, ox + 8 * s - 1, y0 + s - 1);
        }
        lemma_rows_painted(l, bytes, region, color, offset, bitmap, fg, n - 1);
        let bits = bitmap@[n - 1];
        assert forall|px: int, py: int| ox <= px < ox + 8 * s && y0 <= py < y0 + s
            implies #[trigger] color(px, py) == l.glyph_color(bits, (px - ox) / s, fg) by {
            lemma_fundamental_div_mod_converse(py - oy, s, n - 1, py - y0);
        }
        lemma_row_painted(l, bytes, r0, color, ox, y0, bits, fg, 8);
        lemma_paint_same_region(
            l,
            bytes,
            |px: int, py: int| r0(px, py) || (ox <= px < ox + 8 * s && y0 <= py < y0 + s),
            |px: int, py: int| region(px, py) || (ox <= px < ox + 8 * s && oy <= py < oy + n * s),
            color,
        );
    }
}

/// A glyph that lies within one line of the framebuffer paints exactly its
/// cell: each pixel of the cell gets the colour of the font pixel that it
/// enlarges, in its three colour bytes, and every other byte stays.
pub proof fn lemma_glyph_paints_cell(l: Layout, bytes: Seq<u8>, offset: (int, int), bitmap: Glyph, fg: Color)
    requires
        l.is_color() ==> l.bpp() >= 3,
        l.scaling >= 1,
        0 <= offset.0,
        0 <= offset.1,
        offset.0 + 8 * l.scaling <= l.stride(),
        l.is_color() ==> l.pixel_index(offset.0 + 8 * l.scaling - 1, offset.1 + 16 * l.scaling - 1) + 3
            <= bytes.len(),
    ensures
        l.blit(bytes, offset, bitmap, fg) == l.paint(
            bytes,
            |px: int, py: int| offset.0 <= px < offset.0 + 8 * l.scaling && offset.1 <= py < offset.1 + 16
                * l.scaling,
            |px: int, py: int| l.glyph_color(
                bitmap@[(py - offset.1) / (l.scaling as int)],
                (px - offset.0) / (l.scaling as int),
                fg,
            ),
        ),
{
    let s = l.scaling as int;
    let color = |px: int, py: int| l.glyph_color(bitmap@[(py - offset.1) / s], (px - offset.0) / s, fg);
    let nothing = |px: int, py: int| false;
    assert(l.paint(bytes, nothing, color) =~= bytes);
    lemma_rows_painted(l, bytes, nothing, color, offset, bitmap, fg, 16);
    lemma_paint_same_region(
        l,
        bytes,
        |px: int, py: int| nothing(px, py) || (offset.0 <= px < offset.0 + 8 * s && offset.1 <= py < offset.1 + 16 * s),
        |px: int, py: int| offset.0 <= px < offset.0 + 8 * s && offset.1 <= py < offset.1 + 16 * s,
        color,
    );
}

/// The cell under a cursor that is on the screen lies inside the grid of
/// cells, and the grid inside the visible display.
pub proof fn lemma_cell_in_grid(l: Layout, len: int, cursor: (usize, usize))
    requires
        l.wf(len),
        l.cursor_ok(cursor),
    ensures
        0 <= l.cursor_to_pixel(cursor).0,
        0 <= l.cursor_to_pixel(cursor).1,
        l.cursor_to_pixel(cursor).0 + 8 * l.scaling <= l.char_space.0 * (CELL_WIDTH as int * l.scaling),
        l.cursor_to_pixel(cursor).1 + 16 * l.scaling <= l.char_space.1 * (CELL_HEIGHT as int * l.scaling),
        l.char_space.0 * (CELL_WIDTH as int * l.scaling) <= l.info.width,
        l.char_space.1 * (CELL_HEIGHT as int * l.scaling) <= l.info.height,
{
    let s = l.scaling as int;
    assert(0 <= cursor.0 * (CELL_WIDTH as int * s) && 0 <= cursor.1 * (CELL_HEIGHT as int * s)) by (nonlinear_arith)
        requires s >= 1;
    assert(cursor.0 * (CELL_WIDTH as int * s) + 8 * s <= l.char_space.0 * (CELL_WIDTH as int * s)) by (nonlinear_arith)
        requires cursor.0 + 1 <= l.char_space.0, s >= 1;
    assert(cursor.1 * (CELL_HEIGHT as int * s) + 16 * s <= l.char_space.1 * (CELL_HEIGHT as int * s)) by (nonlinear_arith)
        requires cursor.1 + 1 <= l.char_space.1, s >= 1;
}

/// On a well-formed console the glyph at a cursor on the screen can be drawn,
/// and it lies within one line of the framebuffer.
proof fn lemma_cell_fits(l: Layout, len: int, cursor: (usize, usize))
    requires
        l.wf(len),
        l.cursor_ok(cursor),
        len <= usize::MAX,
    ensures
        l.blit_fits(l.cursor_to_pixel(cursor), len),
        l.cursor_to_pixel(cursor).0 + 8 * l.scaling <= l.stride(),
        l.is_color() ==> l.pixel_index(
            l.cursor_to_pixel(cursor).0 + 8 * l.scaling - 1,
            l.cursor_to_pixel(cursor).1 + 16 * l.scaling - 1,
        ) + 3 <= len,
{
    lemma_cell_in_grid(l, len, cursor);
    let s = l.scaling as int;
    let p = l.cursor_to_pixel(cursor);
    let lx = p.0 + 8 * s - 1;
    let ly = p.1 + 16 * s - 1;
    let h = l.info.height as int;
    assert(ly * l.stride() + lx + 1 <= h * l.stride()) by (nonlinear_arith)
        requires 0 <= lx < l.stride(), 0 <= ly, ly + 1 <= h;
    assert(ly * l.stride() + lx <= len) by (nonlinear_arith)
        requires ly * l.stride() + lx + 1 <= h * l.stride(), h * l.stride() * l.bpp() <= len, l.bpp() >= 1,
            h >= 0, l.stride() >= 0;
    assert(l.pixel_index(lx, ly) + l.bpp() <= len) by (nonlinear_arith)
        requires ly * l.stride() + lx + 1 <= h * l.stride(), h * l.stride() * l.bpp() <= len, l.bpp() >= 1,
            l.pixel_index(lx, ly) == (ly * l.stride() + lx) * l.bpp(), h >= 0, l.stride() >= 0;
}

/// On a well-formed console a line feed can be done, keeps the buffer's
/// length and leaves the cursor on the screen.
proof fn lemma_wf_newline(l: Layout, st: Screen)
    requires
        l.wf(st.0.len() as int),
        1 <= st.1.1 <= l.char_space.1 - 1,
    ensures
        l.newline_ok(st.0.len() as int, st.1),
        l.newline(st).0.len() == st.0.len(),
        l.cursor_ok(l.newline(st).1),
{
    let s = l.scaling as int;
    assert(CELL_HEIGHT as int * s * l.stride() * l.bpp() <= st.0.len()) by (nonlinear_arith)
        requires
            l.char_space.1 >= 2,
            l.char_space.1 as int * (CELL_HEIGHT as int * s) <= l.info.height,
            l.info.height as int * l.stride() * l.bpp() <= st.0.len(),
            l.bpp() > 0, l.stride() >= 0, s >= 1;
}

/// On a well-formed console with the cursor on the screen, any byte can be
/// written: it keeps the buffer's length and leaves the cursor on the screen.
proof fn lemma_wf_put_char(l: Layout, font: Seq<Glyph>, st: Screen, c: u8, fg: Color)
    requires
        l.wf(st.0.len() as int),
        l.cursor_ok(st.1),
        font.len() == 256,
        st.0.len() <= usize::MAX,
    ensures
        l.put_ok(font, st.0.len() as int, st.1, c),
        l.put_char(font, st, c, fg).0.len() == st.0.len(),
        l.cursor_ok(l.put_char(font, st, c, fg).1),
{
    let len = st.0.len() as int;
    if c == NEWLINE {
        lemma_wf_newline(l, st);
    } else {
        lemma_cell_fits(l, len, st.1);
        lemma_cell_in_grid(l, len, st.1);
        let p = l.cursor_to_pixel(st.1);
        lemma_glyph_paints_cell(l, st.0, p, font[c as int], fg);
        let drawn = l.blit(st.0, p, font[c as int], fg);
        assert(drawn.len() == st.0.len());
        let col = (st.1.0 + 1) as usize;
        lemma_wf_newline(l, (drawn, (col, st.1.1)));
    }
}

/// A well-formed console can write any text: writing never leaves the
/// machine's limits, never draws outside the cells of the screen (see
/// `lemma_cell_in_grid`), keeps the buffer's length and leaves the cursor
/// on the screen.
pub proof fn lemma_wf_write(l: Layout, font: Seq<Glyph>, st: Screen, text: Seq<u8>, fg: Color)
    requires
        l.wf(st.0.len() as int),
        l.cursor_ok(st.1),
        font.len() == 256,
        st.0.len() <= usize::MAX,
    ensures
        l.write_ok(font, st, text, fg),
        l.write(font, st, text, fg).0.len() == st.0.len(),
        l.cursor_ok(l.write(font, st, text, fg).1),
    decreases text.len(),
{
    if text.len() > 0 {
        lemma_wf_write(l, font, st, text.drop_last(), fg);
        lemma_wf_put_char(l, font, l.write(font, st, text.drop_last(), fg), text.last(), fg);
    }
}

/// Text that can be written has prefixes that can be written.
proof fn lemma_write_ok_prefix(l: Layout, font: Seq<Glyph>, st: Screen, text: Seq<u8>, fg: Color, k: int)
    requires
        l.write_ok(font, st, text, fg),
        0 <= k <= text.len(),
    ensures
        l.write_ok(font, st, text.subrange(0, k), fg),
    decreases text.len(),
{
    if k == text.len() {
        assert(text.subrange(0, k) =~= text);
    } else {
        assert(text.drop_last().subrange(0, k) =~= text.subrange(0, k));
        lemma_write_ok_prefix(l, font, st, text.drop_last(), fg, k);
    }
}

/// On a well-formed console, writing a byte other than a newline paints
/// exactly the cursor's cell in the colours of the byte's glyph, then
/// moves the cursor right.
pub proof fn lemma_put_char_paints_cell(l: Layout, font: Seq<Glyph>, st: Screen, c: u8, fg: Color)
    requires
        l.wf(st.0.len() as int),
        l.cursor_ok(st.1),
        font.len() == 256,
        st.0.len() <= usize::MAX,
        c != NEWLINE,
    ensures
        ({
            let p = l.cursor_to_pixel(st.1);
            let s = l.scaling as int;
            l.put_char(font, st, c, fg) == l.cursor_right((
                l.paint(
                    st.0,
                    |px: int, py: int| p.0 <= px < p.0 + 8 * s && p.1 <= py < p.1 + 16 * s,
                    |px: int, py: int| l.glyph_color(font[c as int]@[(py - p.1) / s], (px - p.0) / s, fg),
                ),
                st.1,
            ))
        }),
{
    lemma_cell_fits(l, st.0.len() as int, st.1);
    lemma_cell_in_grid(l, st.0.len() as int, st.1);
    lemma_glyph_paints_cell(l, st.0, l.cursor_to_pixel(st.1), font[c as int], fg);
}

/// A new console's scaling grows with the display's width (1 up to 720
/// pixels, 2 up to 1440, 3 beyond), and its cell grid is as many 9 by 17
/// cells, scaled, as fit across and down: one more would not fit.
pub proof fn lemma_new_grid(info: FrameBufferInfo)
    ensures
        ({
            let l = layout_for(info);
            let s = l.scaling as int;
            &&& info.width <= 720 ==> s == 1
            &&& 720 < info.width <= 1440 ==> s == 2
            &&& 1440 < info.width ==> s == 3
            &&& l.char_space.0 * (9 * s) <= info.width < (l.char_space.0 + 1) * (9 * s)
            &&& l.char_space.1 * (17 * s) <= info.height < (l.char_space.1 + 1) * (17 * s)
            &&& l.background_color == (30u8, 30u8, 36u8)
        }),
{
    let l = layout_for(info);
    let s = l.scaling as int;
    let w = info.width as int;
    let h = info.height as int;
    lemma_fundamental_div_mod(w, 9 * s);
    lemma_fundamental_div_mod(h, 17 * s);
    let cw = w / (9 * s);
    let ch = h / (17 * s);
    assert(0 <= w % (9 * s) < 9 * s && 0 <= h % (17 * s) < 17 * s) by {
        vstd::arithmetic::div_mod::lemma_mod_pos_bound(w, 9 * s);
        vstd::arithmetic::div_mod::lemma_mod_pos_bound(h, 17 * s);
    }
    assert(0 <= cw && 0 <= ch) by (nonlinear_arith)
        requires cw == w / (9 * s), ch == h / (17 * s), w >= 0, h >= 0, s >= 1;
    assert(cw * (9 * s) <= w < (cw + 1) * (9 * s)) by (nonlinear_arith)
        requires w == (9 * s) * cw + w % (9 * s), 0 <= w % (9 * s) < 9 * s;
    assert(ch * (17 * s) <= h < (ch + 1) * (17 * s)) by (nonlinear_arith)
        requires h == (17 * s) * ch + h % (17 * s), 0 <= h % (17 * s) < 17 * s;
}

/// The `{}` that a number replaces is the first one: `find_placeholder`
/// gives the least index `p` with `text[p] == '{'` and `text[p + 1] == '}'`,
/// and none when the text holds no `{}` at all.
pub proof fn lemma_placeholder_is_first(text: Seq<u8>, from: int)
    requires
        0 <= from,
    ensures
        match find_placeholder(text, from) {
            Some(p) => {
                &&& from <= p
                &&& p + 1 < text.len()
                &&& text[p] == 123u8 && text[p + 1] == 125u8
                &&& forall|q: int| from <= q < p ==> !(text[q] == 123u8 && #[trigger] text[q + 1] == 125u8)
            },
            None => forall|q: int| from <= q && q + 1 < text.len() ==> !(text[q] == 123u8 && #[trigger] text[q + 1] == 125u8),
        },
    decreases text.len() - from,
{
    if from + 1 < text.len() && !(text[from] == 123u8 && text[from + 1] == 125u8) {
        lemma_placeholder_is_first(text, from + 1);
    }
}

/// Wiping sets the three colour bytes of every pixel that starts before
/// `byte_len`, whatever the width and height: red, green, blue in the Rgb
/// format and blue, green, red in the Bgr format.
pub proof fn lemma_fill_paints_every_pixel(l: Layout, bytes: Seq<u8>, color: Color, q: int)
    requires
        l.is_color(),
        l.bpp() >= 3,
        0 <= q,
        q * l.bpp() < l.info.byte_len,
        q * l.bpp() + 3 <= bytes.len(),
    ensures
        ({
            let f = l.fill(bytes, color);
            let i = q * l.bpp();
            &&& l.info.pixel_format is Rgb ==> f[i] == color.0 && f[i + 1] == color.1 && f[i + 2] == color.2
            &&& l.info.pixel_format is Bgr ==> f[i] == color.2 && f[i + 1] == color.1 && f[i + 2] == color.0
        }),
{
    let i = q * l.bpp();
    lemma_split(i, q, 0, l.bpp());
    lemma_split(i + 1, q, 1, l.bpp());
    lemma_split(i + 2, q, 2, l.bpp());
}

/// Wiping in a format other than Rgb and Bgr changes no byte.
pub proof fn lemma_fill_other_formats(l: Layout, bytes: Seq<u8>, color: Color)
    requires
        !(l.info.pixel_format is Rgb),
        !(l.info.pixel_format is Bgr),
    ensures
        l.fill(bytes, color) == bytes,
{
    assert(l.fill(bytes, color) =~= bytes);
}

/// A line feed below the last line changes no byte and moves the cursor
/// to the first column of the next line.
pub proof fn lemma_line_feed(l: Layout, font: Seq<Glyph>, st: Screen, fg: Color)
    requires
        st.1.1 + 1 < l.char_space.1,
    ensures
        l.write(font, st, seq![10u8], fg) == (st.0, (1usize, (st.1.1 + 1) as usize)),
{
    assert(seq![10u8].drop_last() =~= Seq::<u8>::empty());
    assert(l.write(font, st, Seq::<u8>::empty(), fg) == st);
}

/// A line feed on the last line scrolls: every byte moves up by one cell
/// line (17 times the scaling pixel lines), and the cursor goes to the
/// first column of the same, last line.
pub proof fn lemma_line_feed_scrolls(l: Layout, font: Seq<Glyph>, st: Screen, fg: Color)
    requires
        l.char_space.1 >= 1,
        st.1.1 == l.char_space.1 - 1,
        17 * l.scaling * l.stride() * l.bpp() <= st.0.len(),
    ensures
        ({
            let r = l.write(font, st, seq![10u8], fg);
            let shift = 17 * l.scaling * l.stride() * l.bpp();
            &&& r.1 == (1usize, (l.char_space.1 - 1) as usize)
            &&& r.0.len() == st.0.len()
            &&& forall|j: int| 0 <= j < st.0.len() - shift ==> #[trigger] r.0[j] == st.0[j + shift]
        }),
{
    assert(seq![10u8].drop_last() =~= Seq::<u8>::empty());
    assert(l.write(font, st, Seq::<u8>::empty(), fg) == st);
}

/// Writing a byte other than a newline on a well-formed console moves the
/// cursor one column right, or, from the last usable column, to the first
/// column of the next line (scrolling on the last line).
pub proof fn lemma_char_advances(l: Layout, font: Seq<Glyph>, st: Screen, c: u8, fg: Color)
    requires
        l.wf(st.0.len() as int),
        l.cursor_ok(st.1),
        font.len() == 256,
        st.0.len() <= usize::MAX,
        c != 10u8,
    ensures
        ({
            let r = l.write(font, st, seq![c], fg);
            &&& st.1.0 + 2 < l.char_space.0 ==> r.1 == ((st.1.0 + 1) as usize, st.1.1)
            &&& st.1.0 + 2 >= l.char_space.0 && st.1.1 + 1 < l.char_space.1 ==> r.1 == (1usize, (st.1.1 + 1) as usize)
            &&& st.1.0 + 2 >= l.char_space.0 && st.1.1 + 1 == l.char_space.1 ==> r.1 == (1usize, st.1.1)
        }),
{
    assert(seq![c].drop_last() =~= Seq::<u8>::empty());
    assert(l.write(font, st, Seq::<u8>::empty(), fg) == st);
}

/// Writing a byte other than a newline draws its glyph in the cursor's
/// cell: the cell starts at pixel (9 s x, 17 s y) for cursor (x, y) and
/// scaling s, and font pixel (`col`, `row`) becomes the s by s square at
/// (9 s x + s col, 17 s y + s row), in `fg` where the glyph row has bit
/// `0x80 >> col` set and in the background (30, 30, 36) where it is clear,
/// written red, green, blue in Rgb and blue, green, red in Bgr. (When the
/// cursor leaves the last cell of the last line the display then scrolls;
/// that case is left out here.)
pub proof fn lemma_char_draws_glyph(
    l: Layout,
    font: Seq<Glyph>,
    st: Screen,
    c: u8,
    fg: Color,
    row: int,
    col: int,
    dx: int,
    dy: int,
)
    requires
        l.wf(st.0.len() as int),
        l.cursor_ok(st.1),
        l.background_color == BACKGROUND,
        font.len() == 256,
        st.0.len() <= usize::MAX,
        c != 10u8,
        l.is_color(),
        !(st.1.0 + 2 >= l.char_space.0 && st.1.1 + 1 == l.char_space.1),
        0 <= row < 16,
        0 <= col < 8,
        0 <= dx < l.scaling,
        0 <= dy < l.scaling,
    ensures
        ({
            let s = l.scaling as int;
            let x = 9 * s * st.1.0 + s * col + dx;
            let y = 17 * s * st.1.1 + s * row + dy;
            let i = (y * l.stride() + x) * l.bpp();
            let color = if font[c as int]@[row] & (0x80u8 >> (col as u8)) != 0 { fg } else { (30u8, 30u8, 36u8) };
            let r = l.write(font, st, seq![c], fg).0;
            &&& l.info.pixel_format is Rgb ==> r[i] == color.0 && r[i + 1] == color.1 && r[i + 2] == color.2
            &&& l.info.pixel_format is Bgr ==> r[i] == color.2 && r[i + 1] == color.1 && r[i + 2] == color.0
        }),
{
    let s = l.scaling as int;
    let p = l.cursor_to_pixel(st.1);
    assert(p.0 == 9 * s * st.1.0 && p.1 == 17 * s * st.1.1) by (nonlinear_arith)
        requires p.0 == st.1.0 * (9 * s), p.1 == st.1.1 * (17 * s);
    let x = p.0 + s * col + dx;
    let y = p.1 + s * row + dy;
    assert(seq![c].drop_last() =~= Seq::<u8>::empty());
    assert(l.write(font, st, Seq::<u8>::empty(), fg) == st);
    lemma_put_char_paints_cell(l, font, st, c, fg);
    lemma_cell_in_grid(l, st.0.len() as int, st.1);
    lemma_cell_fits(l, st.0.len() as int, st.1);
    let painted = l.paint(
        st.0,
        |px: int, py: int| p.0 <= px < p.0 + 8 * s && p.1 <= py < p.1 + 16 * s,
        |px: int, py: int| l.glyph_color(font[c as int]@[(py - p.1) / s], (px - p.0) / s, fg),
    );
    assert(l.write(font, st, seq![c], fg).0 == painted);
    assert(s * col + dx < 8 * s && s * row + dy < 16 * s && 0 <= s * col && 0 <= s * row) by (nonlinear_arith)
        requires col < 8, row < 16, dx < s, dy < s, col >= 0, row >= 0, s >= 1;
    lemma_fundamental_div_mod_converse(x - p.0, s, col, dx);
    lemma_fundamental_div_mod_converse(y - p.1, s, row, dy);
    let i = (y * l.stride() + x) * l.bpp();
    lemma_pixel_byte(l, x, y, 0);
    lemma_pixel_byte(l, x, y, 1);
    lemma_pixel_byte(l, x, y, 2);
    lemma_index_monotone(l, x, y, p.0 + 8 * s - 1, p.1 + 16 * s - 1);
    let bits = font[c as int]@[row];
    let cu = col as u8;
    assert(((bits >> ((7 - cu) as usize)) & 1u8 != 0) == (bits & (0x80u8 >> cu) != 0)) by (bit_vector)
        requires cu < 8;
    assert(((7 - col) as usize) == ((7 - cu) as usize));
}

/// A line feed on the last line paints the freed end of the buffer: every
/// pixel there, counted from where the moved bytes end, gets the background
/// (30, 30, 36) in its three colour bytes.
pub proof fn lemma_line_feed_clears_bottom(l: Layout, font: Seq<Glyph>, st: Screen, fg: Color, q: int)
    requires
        l.char_space.1 >= 1,
        st.1.1 == l.char_space.1 - 1,
        l.background_color == BACKGROUND,
        l.is_color(),
        l.bpp() >= 3,
        17 * l.scaling * l.stride() * l.bpp() <= st.0.len(),
        0 <= q,
        st.0.len() - 17 * l.scaling * l.stride() * l.bpp() + q * l.bpp() + 3 <= st.0.len(),
    ensures
        ({
            let r = l.write(font, st, seq![10u8], fg).0;
            let i = st.0.len() - 17 * l.scaling * l.stride() * l.bpp() + q * l.bpp();
            &&& l.info.pixel_format is Rgb ==> r[i] == 30 && r[i + 1] == 30 && r[i + 2] == 36
            &&& l.info.pixel_format is Bgr ==> r[i] == 36 && r[i + 1] == 30 && r[i + 2] == 30
        }),
{
    assert(seq![10u8].drop_last() =~= Seq::<u8>::empty());
    assert(l.write(font, st, Seq::<u8>::empty(), fg) == st);
    let end = st.0.len() - 17 * l.scaling * l.stride() * l.bpp();
    let i = end + q * l.bpp();
    assert(0 <= q * l.bpp()) by (nonlinear_arith) requires q >= 0, l.bpp() >= 3;
    lemma_split(i - end, q, 0, l.bpp());
    lemma_split(i + 1 - end, q, 1, l.bpp());
    lemma_split(i + 2 - end, q, 2, l.bpp());
}

impl GraphicsManager {
    /// The console's fixed geometry.
    pub closed spec fn layout(&self) -> Layout {
        Layout {
            info: self.info,
            scaling: self.scaling,
            background_color: self.background_color,
            char_space: self.char_space,
        }
    }

    /// The framebuffer's bytes.
    pub closed spec fn bytes(&self) -> Seq<u8> {
        self.buffer@
    }

    /// The cursor, in character cells.
    pub closed spec fn cursor(&self) -> (usize, usize) {
        self.cursor
    }

    /// The glyphs, one per byte value.
    pub closed spec fn font(&self) -> Seq<Glyph> {
        self.font@
    }

    /// What the display shows.
    pub open spec fn screen(&self) -> Screen {
        (self.bytes(), self.cursor())
    }

    /// Whether the console can draw: its geometry fits its buffer, the
    /// cursor is on the screen, the background is the console's own and the
    /// font has a glyph for every byte.
    pub open spec fn wf(&self) -> bool {
        &&& self.layout().wf(self.bytes().len() as int)
        &&& self.layout().cursor_ok(self.cursor())
        &&& self.layout().background_color == BACKGROUND
        &&& self.font().len() == 256
    }

    /// Writes the colour bytes of `color` at `i` in the pixel format.
    fn write_channels(&mut self, i: usize, color: Color)
        requires
            old(self).layout().is_color() ==> i + 3 <= old(self).bytes().len(),
        ensures
            final(self).layout() == old(self).layout(),
            final(self).cursor() == old(self).cursor(),
            final(self).font() == old(self).font(),
            final(self).bytes() == if old(self).layout().is_color() {
                old(self).bytes()
                    .update(i as int, old(self).layout().channel(color, 0))
                    .update(i + 1, old(self).layout().channel(color, 1))
                    .update(i + 2, old(self).layout().channel(color, 2))
            } else {
                old(self).bytes()
            },
    {
        match self.info.pixel_format {
            PixelFormat::Rgb => {
                self.buffer[i] = color.0;
                self.buffer[i + 1] = color.1;
                self.buffer[i + 2] = color.2;
            },
            PixelFormat::Bgr => {
                self.buffer[i] = color.2;
                self.buffer[i + 1] = color.1;
                self.buffer[i + 2] = color.0;
            },
            _ => {
                // other pixel formats are not drawn
            },
        }
    }

    /// Sets every pixel that starts before `byte_len` to `color`.
    fn fill_buffer(&mut self, color: Color)
        requires
            old(self).layout().bpp() > 0,
            old(self).layout().is_color() ==> old(self).layout().bpp() >= 3 && fill_fits(
                old(self).layout().info.byte_len as int,
                old(self).layout().bpp(),
                old(self).bytes().len() as int,
            ),
        ensures
            final(self).layout() == old(self).layout(),
            final(self).cursor() == old(self).cursor(),
            final(self).font() == old(self).font(),
            final(self).bytes() == old(self).layout().fill(old(self).bytes(), color),
    {
        let ghost l = self.layout();
        let ghost old_bytes = self.bytes();
        let ghost len = old_bytes.len() as int;
        let bpp = self.info.bytes_per_pixel;
        let byte_len = self.info.byte_len;
        proof {
            lemma_fundamental_div_mod(byte_len as int, bpp as int);
            if bpp == 1 {
                assert(byte_len % bpp == 0);
            } else {
                assert(byte_len / bpp < usize::MAX) by (nonlinear_arith)
                    requires byte_len as int == bpp * (byte_len / bpp) + byte_len % bpp, bpp >= 2,
                        byte_len % bpp >= 0, byte_len <= usize::MAX;
            }
        }
        let n_pixels = byte_len / bpp + if byte_len % bpp == 0 { 0 } else { 1 };
        let mut p: usize = 0;
        while p < n_pixels
            invariant
                self.layout() == l,
                self.cursor() == old(self).cursor(),
                self.font() == old(self).font(),
                l.bpp() > 0,
                l.is_color() ==> l.bpp() >= 3 && fill_fits(l.info.byte_len as int, l.bpp(), len),
                bpp == l.bpp(),
                byte_len == l.info.byte_len,
                n_pixels == byte_len / bpp + if byte_len % bpp == 0 { 0int } else { 1int },
                p <= n_pixels,
                self.bytes().len() == len,
                forall|j: int| 0 <= j < len ==> #[trigger] self.bytes()[j] == if l.is_color() && j % (bpp as int) < 3 && j / (bpp as int) < p {
                    l.channel(color, j % (bpp as int))
                } else {
                    old_bytes[j]
                },
            decreases n_pixels - p,
        {
            proof {
                lemma_pixel_count(p as int, bpp as int, byte_len as int);
                if l.is_color() {
                    lemma_fill_fits(p as int, bpp as int, byte_len as int, len);
                }
            }
            assert(p * bpp <= byte_len) by (nonlinear_arith) requires p * bpp < byte_len;
            let i = p * bpp;
            let ghost before = self.bytes();
            self.write_channels(i, color);
            proof {
                assert forall|j: int| 0 <= j < len implies #[trigger] self.bytes()[j] == if l.is_color() && j % (bpp as int) < 3 && j / (bpp as int) < p + 1 {
                    l.channel(color, j % (bpp as int))
                } else {
                    old_bytes[j]
                } by {
                    if l.is_color() && i <= j < i + 3 {
                        lemma_split(j, p as int, j - i, bpp as int);
                    } else {
                        lemma_fundamental_div_mod(j, bpp as int);
                        if j / (bpp as int) == p {
                            assert(j == p * bpp + j % (bpp as int)) by (nonlinear_arith)
                                requires j == bpp * (j / (bpp as int)) + j % (bpp as int), j / (bpp as int) == p;
                        }
                        assert(self.bytes()[j] == before[j]);
                    }
                }
            }
            p = p + 1;
        }
        proof {
            assert forall|j: int| 0 <= j < len implies #[trigger] self.bytes()[j] == l.fill(old_bytes, color)[j] by {
                lemma_fundamental_div_mod(j, bpp as int);
                assert(0 <= j / (bpp as int)) by (nonlinear_arith) requires 0 <= j, bpp > 0;
                lemma_pixel_count(j / (bpp as int), bpp as int, byte_len as int);
            }
            assert(self.bytes() =~= l.fill(old_bytes, color));
        }
    }

    /// Paints the whole framebuffer in the background colour.
    pub fn wipe(&mut self)
        requires
            old(self).layout().bpp() > 0,
            old(self).layout().is_color() ==> old(self).layout().bpp() >= 3 && fill_fits(
                old(self).layout().info.byte_len as int,
                old(self).layout().bpp(),
                old(self).bytes().len() as int,
            ),
        ensures
            old(self).wf() ==> final(self).wf(),
            final(self).layout() == old(self).layout(),
            final(self).cursor() == old(self).cursor(),
            final(self).font() == old(self).font(),
            final(self).bytes() == old(self).layout().fill(old(self).bytes(), old(self).layout().background_color),
    {
        self.fill_buffer(self.background_color);
    }

    /// Scrolls the framebuffer up by `rows` pixel lines.
    fn chop_frame_buffer(&mut self, rows: usize)
        requires
            old(self).layout().bpp() > 0,
            old(self).layout().is_color() && rows * old(self).layout().stride() > 0 ==> old(self).layout().bpp() >= 3,
            rows * old(self).layout().stride() * old(self).layout().bpp() <= old(self).bytes().len(),
        ensures
            final(self).layout() == old(self).layout(),
            final(self).cursor() == old(self).cursor(),
            final(self).font() == old(self).font(),
            final(self).bytes() == old(self).layout().chop(old(self).bytes(), rows as int),
    {
        let ghost l = self.layout();
        let ghost old_bytes = self.bytes();
        let bpp = self.info.bytes_per_pixel;
        let buffer_size = self.buffer.len();
        assert(0 <= rows * self.info.stride <= rows * self.info.stride * bpp) by (nonlinear_arith)
            requires bpp >= 1;
        let pixels = rows * self.info.stride;
        let offset = pixels * bpp;
        let end = buffer_size - offset;
        // move everything `offset` bytes towards the start
        let mut i: usize = offset;
        while i < buffer_size
            invariant
                self.layout() == l,
                self.cursor() == old(self).cursor(),
                self.font() == old(self).font(),
                offset <= i <= buffer_size,
                buffer_size == old_bytes.len(),
                self.bytes().len() == buffer_size,
                forall|j: int| 0 <= j < buffer_size ==> #[trigger] self.bytes()[j] == if j < i - offset {
                    old_bytes[j + offset]
                } else {
                    old_bytes[j]
                },
            decreases buffer_size - i,
        {
            let b = self.buffer[i];
            self.buffer[i - offset] = b;
            i = i + 1;
        }
        // paint the freed end in the background colour
        let mut p: usize = 0;
        while p < pixels
            invariant
                self.layout() == l,
                self.cursor() == old(self).cursor(),
                self.font() == old(self).font(),
                l.bpp() > 0,
                l.is_color() && pixels > 0 ==> l.bpp() >= 3,
                bpp == l.bpp(),
                offset == pixels * bpp,
                end == buffer_size - offset,
                p <= pixels,
                buffer_size == old_bytes.len(),
                self.bytes().len() == buffer_size,
                forall|j: int| 0 <= j < buffer_size ==> #[trigger] self.bytes()[j] == if j < end {
                    old_bytes[j + offset]
                } else if l.is_color() && (j - end) % (bpp as int) < 3 && (j - end) / (bpp as int) < p {
                    l.channel(l.background_color, (j - end) % (bpp as int))
                } else {
                    old_bytes[j]
                },
            decreases pixels - p,
        {
            assert(end + p * bpp + bpp <= buffer_size) by (nonlinear_arith)
                requires p < pixels, offset == pixels * bpp, end == buffer_size - offset, bpp > 0;
            let k = end + p * bpp;
            let ghost before = self.bytes();
            self.write_channels(k, self.background_color);
            proof {
                assert forall|j: int| 0 <= j < buffer_size implies #[trigger] self.bytes()[j] == if j < end {
                    old_bytes[j + offset]
                } else if l.is_color() && (j - end) % (bpp as int) < 3 && (j - end) / (bpp as int) < p + 1 {
                    l.channel(l.background_color, (j - end) % (bpp as int))
                } else {
                    old_bytes[j]
                } by {
                    if l.is_color() && k <= j < k + 3 {
                        lemma_split(j - end, p as int, j - k, bpp as int);
                    } else if j >= end {
                        lemma_fundamental_div_mod(j - end, bpp as int);
                        if (j - end) / (bpp as int) == p {
                            assert(j == k + (j - end) % (bpp as int)) by (nonlinear_arith)
                                requires j - end == bpp * ((j - end) / (bpp as int)) + (j - end) % (bpp as int),
                                    (j - end) / (bpp as int) == p, k == end + p * bpp;
                        }
                        assert(self.bytes()[j] == before[j]);
                    }
                }
            }
            p = p + 1;
        }
        proof {
            let target = l.chop(old_bytes, rows as int);
            assert forall|j: int| 0 <= j < buffer_size implies #[trigger] self.bytes()[j] == target[j] by {
                if j >= end {
                    lemma_fundamental_div_mod(j - end, bpp as int);
                    assert((j - end) / (bpp as int) < pixels) by (nonlinear_arith)
                        requires j - end == bpp * ((j - end) / (bpp as int)) + (j - end) % (bpp as int),
                            0 <= (j - end) % (bpp as int), j - end < offset, offset == pixels * bpp, bpp > 0;
                }
            }
            assert(self.bytes() =~= target);
        }
    }

    /// A console on `buffer`, described by `info`, drawing with `font`: the
    /// scaling follows the width, the cell grid is what fits on the display
    /// and the cursor starts at cell (1, 1).
    pub fn new(info: FrameBufferInfo, buffer: &'static mut [u8], font: Vec<Glyph>) -> (gm: Self)
        ensures
            gm.layout() == layout_for(info),
            gm.bytes() == old(buffer)@,
            gm.cursor() == (1usize, 1usize),
            gm.font() == font@,
    {
        let background_color = BACKGROUND;
        let scaling: usize;
        if info.width <= 720 {
            scaling = 1;
        } else if info.width <= 1440 {
            scaling = 2;
        } else {
            scaling = 3;
        }
        let char_space = (info.width / (CELL_WIDTH * scaling), info.height / (CELL_HEIGHT * scaling));
        let cursor = (1, 1);
        Self { info, buffer, scaling, background_color, char_space, cursor, font }
    }

    /// Whether the console is ready to draw (see `wf`).
    pub fn fits(&self) -> (ok: bool)
        ensures
            ok == self.wf(),
    {
        let bpp = self.info.bytes_per_pixel;
        let len = self.buffer.len();
        let s = self.scaling;
        let color = match self.info.pixel_format {
            PixelFormat::Rgb => true,
            PixelFormat::Bgr => true,
            _ => false,
        };
        if bpp == 0 || self.info.stride < self.info.width || s < 1 || s > 3 {
            return false;
        }
        if color {
            if bpp < 3 {
                return false;
            }
            let byte_len = self.info.byte_len;
            if byte_len != 0 {
                let last = (byte_len - 1) / bpp;
                assert(last * bpp <= byte_len - 1) by (nonlinear_arith)
                    requires last == (byte_len - 1) as int / (bpp as int), bpp > 0, byte_len >= 1;
                let start = last * bpp;
                if len < 3 || start > len - 3 {
                    return false;
                }
            }
        }
        let pixels = match self.info.height.checked_mul(self.info.stride) {
            Some(v) => v,
            None => {
                assert(self.info.height as int * self.info.stride * bpp > len) by (nonlinear_arith)
                    requires self.info.height as int * self.info.stride > usize::MAX, bpp >= 1, len <= usize::MAX;
                return false;
            },
        };
        let bytes = match pixels.checked_mul(bpp) {
            Some(v) => v,
            None => return false,
        };
        if bytes > len {
            return false;
        }
        if self.background_color.0 != BACKGROUND.0 || self.background_color.1 != BACKGROUND.1
            || self.background_color.2 != BACKGROUND.2 {
            return false;
        }
        let cs = self.char_space;
        if cs.0 < 2 || cs.1 < 2 {
            return false;
        }
        let across = match cs.0.checked_mul(CELL_WIDTH * s) {
            Some(v) => v,
            None => return false,
        };
        let down = match cs.1.checked_mul(CELL_HEIGHT * s) {
            Some(v) => v,
            None => return false,
        };
        if across > self.info.width || down > self.info.height {
            return false;
        }
        let c = self.cursor;
        c.0 >= 1 && c.0 <= cs.0 - 1 && c.1 >= 1 && c.1 <= cs.1 - 1 && self.font.len() == 256
    }

    /// The framebuffer's bytes.
    pub fn buffer(&self) -> (b: &[u8])
        ensures
            b@ == self.bytes(),
    {
        self.buffer
    }

    /// The cursor, in character cells.
    pub fn cursor_position(&self) -> (c: (usize, usize))
        ensures
            c == self.cursor(),
    {
        self.cursor
    }

    /// Writes `text` in the colour `fg`; see `Layout::write`. A console
    /// that satisfies `wf` can write any text (`lemma_wf_write`) and still
    /// satisfies it afterwards.
    pub fn write_text(&mut self, fg: Color, text: &[u8])
        requires
            old(self).layout().write_ok(old(self).font(), old(self).screen(), text@, fg),
        ensures
            old(self).wf() ==> final(self).wf(),
            final(self).layout() == old(self).layout(),
            final(self).font() == old(self).font(),
            final(self).bytes().len() == old(self).bytes().len(),
            final(self).screen() == old(self).layout().write(old(self).font(), old(self).screen(), text@, fg),
    {
        let ghost l = self.layout();
        let ghost start = self.screen();
        let ghost len = self.bytes().len();
        // reading the length tells the proof that it fits a `usize`
        let _buffer_len = self.buffer.len();
        let mut i: usize = 0;
        while i < text.len()
            invariant
                len <= usize::MAX,
                self.layout() == l,
                self.font() == old(self).font(),
                self.bytes().len() == len,
                start == old(self).screen(),
                len == start.0.len(),
                l.write_ok(old(self).font(), start, text@, fg),
                i <= text.len(),
                self.screen() == l.write(old(self).font(), start, text@.subrange(0, i as int), fg),
            decreases text.len() - i,
        {
            proof {
                lemma_write_ok_prefix(l, old(self).font(), start, text@, fg, i + 1);
                assert(text@.subrange(0, i + 1).drop_last() =~= text@.subrange(0, i as int));
            }
            let c = text[i];
            self.put_char(fg, c);
            i = i + 1;
        }
        assert(text@.subrange(0, text.len() as int) =~= text@);
        proof {
            if old(self).wf() {
                lemma_wf_write(l, old(self).font(), start, text@, fg);
            }
        }
    }

    /// Writes `text` in `color` with its first `{}` replaced by the decimal
    /// text of `number`. Text without `{}` is written in purple, followed by
    /// a warning in yellow.
    pub fn write_formated_text_u32(&mut self, color: Color, text: &[u8], number: u32)
        requires
            match find_placeholder(text@, 0) {
                Some(p) => {
                    let l = old(self).layout();
                    let f = old(self).font();
                    let before = l.write(f, old(self).screen(), text@.subrange(0, p), color);
                    let with_number = l.write(f, before, decimal(number as nat), color);
                    &&& l.write_ok(f, old(self).screen(), text@.subrange(0, p), color)
                    &&& l.write_ok(f, before, decimal(number as nat), color)
                    &&& l.write_ok(f, with_number, text@.subrange(p + 2, text@.len() as int), color)
                },
                None => {
                    let l = old(self).layout();
                    let f = old(self).font();
                    &&& l.write_ok(f, old(self).screen(), text@, PURPLE)
                    &&& l.write_ok(f, l.write(f, old(self).screen(), text@, PURPLE), FORMAT_WARNING.spec_bytes(), YELLOW)
                },
            },
        ensures
            old(self).wf() ==> final(self).wf(),
            final(self).layout() == old(self).layout(),
            final(self).font() == old(self).font(),
            final(self).screen() == match find_placeholder(text@, 0) {
                Some(p) => {
                    let l = old(self).layout();
                    let f = old(self).font();
                    let before = l.write(f, old(self).screen(), text@.subrange(0, p), color);
                    let with_number = l.write(f, before, decimal(number as nat), color);
                    l.write(f, with_number, text@.subrange(p + 2, text@.len() as int), color)
                },
                None => {
                    let l = old(self).layout();
                    let f = old(self).font();
                    l.write(f, l.write(f, old(self).screen(), text@, PURPLE), FORMAT_WARNING.spec_bytes(), YELLOW)
                },
            },
    {
        // find the first "{}"
        let mut position: usize = 0;
        let mut found = false;
        while !found && text.len() - position >= 2
            invariant
                position <= text.len(),
                found ==> position + 2 <= text.len() && find_placeholder(text@, 0) == Some(position as int),
                !found ==> find_placeholder(text@, 0) == find_placeholder(text@, position as int),
            decreases text.len() - position + if found { 0int } else { 1int },
        {
            if text[position] == 123u8 && text[position + 1] == 125u8 {
                found = true;
            } else {
                position = position + 1;
            }
        }
        if found {
            let mut buff = [CHAR_NONE; 10];
            let mut i: usize = 10;
            let mut number = number;
            let ghost original = number as nat;
            if number == 0 {
                i -= 1;
                let c = self.u32_digit_to_text(0);
                buff[i] = c;
                assert(buff@.subrange(i as int, 10) =~= decimal(original));
            } else {
                proof {
                    lemma_u32_has_ten_digits();
                    lemma_digits_len(original, 10);
                    assert(buff@.subrange(10, 10) =~= Seq::<u8>::empty());
                    assert(digits(original) + buff@.subrange(10, 10) =~= digits(original));
                }
                while number > 0
                    invariant
                        i <= 10,
                        original > 0,
                        digits(original) == digits(number as nat) + buff@.subrange(i as int, 10),
                        digits(number as nat).len() <= i,
                    decreases number,
                {
                    let ghost old_buff = buff;
                    assert(digits(number as nat) == digits((number / 10) as nat).push(digit_char((number % 10) as int)));
                    i -= 1;
                    buff[i] = self.u32_digit_to_text(number % 10);
                    assert(buff@.subrange(i as int, 10) =~= seq![digit_char((number % 10) as int)] + old_buff@.subrange(i + 1, 10));
                    assert(digits((number / 10) as nat).push(digit_char((number % 10) as int)) + old_buff@.subrange(i + 1, 10)
                        =~= digits((number / 10) as nat) + buff@.subrange(i as int, 10));
                    number = number / 10;
                }
                assert(digits(0) =~= Seq::<u8>::empty());
                assert(Seq::<u8>::empty() + buff@.subrange(i as int, 10) =~= buff@.subrange(i as int, 10));
            }
            self.write_text(color, &text[0..position]);
            self.write_text(color, &buff[i..10]);
            self.write_text(color, &text[position + 2..text.len()]);
        } else {
            self.write_text(PURPLE, text);
            self.write_text(YELLOW, FORMAT_WARNING.as_bytes());
        }
    }

    /// The ASCII digit of a number below ten.
    fn u32_digit_to_text(&self, number: u32) -> (c: u8)
        requires
            number < 10,
        ensures
            c == digit_char(number as int),
    {
        match number {
            1 => 49u8, // '1'
            2 => 50u8, // '2'
            3 => 51u8, // '3'
            4 => 52u8, // '4'
            5 => 53u8, // '5'
            6 => 54u8, // '6'
            7 => 55u8, // '7'
            8 => 56u8, // '8'
            9 => 57u8, // '9'
            _ => 48u8, // '0'
        }
    }

    /// Writes one byte in `fg`; see `Layout::put_char`.
    fn put_char(&mut self, fg: Color, c: u8)
        requires
            old(self).layout().put_ok(old(self).font(), old(self).bytes().len() as int, old(self).cursor(), c),
        ensures
            final(self).layout() == old(self).layout(),
            final(self).font() == old(self).font(),
            final(self).bytes().len() == old(self).bytes().len(),
            final(self).screen() == old(self).layout().put_char(old(self).font(), old(self).screen(), c, fg),
    {
        if c == NEWLINE {
            self.cursor_newline();
        } else {
            let bitmap = self.font[c as usize];
            let at = self.cursor_to_pixel_coords();
            self.blit_charecter(at, bitmap, fg);
            self.cursor_right();
        }
    }

    /// Moves the cursor one cell left, but not past the first column.
    #[allow(dead_code)]
    fn cursor_left(&mut self)
        ensures
            final(self).layout() == old(self).layout(),
            final(self).font() == old(self).font(),
            final(self).screen() == old(self).layout().cursor_left(old(self).screen()),
    {
        if self.cursor.0 > 1 {
            self.cursor.0 -= 1;
        }
    }

    /// Moves the cursor one cell right, wrapping to the next line.
    fn cursor_right(&mut self)
        requires
            old(self).layout().right_ok(old(self).bytes().len() as int, old(self).cursor()),
        ensures
            final(self).layout() == old(self).layout(),
            final(self).font() == old(self).font(),
            final(self).bytes().len() == old(self).bytes().len(),
            final(self).screen() == old(self).layout().cursor_right(old(self).screen()),
    {
        self.cursor.0 += 1;
        if self.cursor.0 >= self.char_space.0 - 1 {
            self.cursor_newline();
        }
    }

    /// Moves the cursor to the start of the next line, scrolling on the last.
    fn cursor_newline(&mut self)
        requires
            old(self).layout().newline_ok(old(self).bytes().len() as int, old(self).cursor()),
        ensures
            final(self).layout() == old(self).layout(),
            final(self).font() == old(self).font(),
            final(self).bytes().len() == old(self).bytes().len(),
            final(self).screen() == old(self).layout().newline(old(self).screen()),
    {
        self.cursor.0 = 1;
        if self.cursor.1 == self.char_space.1 - 1 {
            self.chop_frame_buffer(CELL_HEIGHT * self.scaling);
            self.cursor.1 = self.char_space.1 - 1;
        } else {
            self.cursor.1 += 1;
        }
    }

    /// Top left pixel of the cursor's cell.
    fn cursor_to_pixel_coords(&self) -> (p: (usize, usize))
        requires
            CELL_WIDTH * self.scaling <= usize::MAX,
            CELL_HEIGHT * self.scaling <= usize::MAX,
            self.cursor.0 * (CELL_WIDTH * self.scaling) <= usize::MAX,
            self.cursor.1 * (CELL_HEIGHT * self.scaling) <= usize::MAX,
        ensures
            p.0 as int == self.layout().cursor_to_pixel(self.cursor()).0,
            p.1 as int == self.layout().cursor_to_pixel(self.cursor()).1,
    {
        let s = self.scaling;
        (self.cursor.0 * (CELL_WIDTH * s), self.cursor.1 * (CELL_HEIGHT * s))
    }

    /// Draws `bitmap` with its top left corner at pixel `offset`.
    fn blit_charecter(&mut self, offset: (usize, usize), bitmap: Glyph, fg: Color)
        requires
            old(self).layout().blit_fits((offset.0 as int, offset.1 as int), old(self).bytes().len() as int),
        ensures
            final(self).layout() == old(self).layout(),
            final(self).cursor() == old(self).cursor(),
            final(self).font() == old(self).font(),
            final(self).bytes().len() == old(self).bytes().len(),
            final(self).bytes() == old(self).layout().blit(
                old(self).bytes(),
                (offset.0 as int, offset.1 as int),
                bitmap,
                fg,
            ),
    {
        let ghost l = self.layout();
        let ghost len = self.bytes().len() as int;
        let ghost off = (offset.0 as int, offset.1 as int);
        let ghost start = self.bytes();
        let s = self.scaling;
        let mut row_local_i: usize = 0;
        while row_local_i < 16
            invariant
                self.layout() == l,
                self.cursor() == old(self).cursor(),
                self.font() == old(self).font(),
                s == l.scaling,
                off == (offset.0 as int, offset.1 as int),
                l.blit_fits(off, len),
                self.bytes().len() == len,
                row_local_i <= 16,
                self.bytes() == l.blit_rows(start, off, bitmap, fg, row_local_i as int),
            decreases 16 - row_local_i,
        {
            let ghost row_start = self.bytes();
            let row_value = bitmap[row_local_i];
            assert(row_local_i * s <= 15 * s) by (nonlinear_arith) requires row_local_i <= 15;
            let row_global_i = offset.1 + row_local_i * s;
            let mut column_local_i: usize = 0;
            while column_local_i < 8
                invariant
                    self.layout() == l,
                    self.cursor() == old(self).cursor(),
                    self.font() == old(self).font(),
                    s == l.scaling,
                    off == (offset.0 as int, offset.1 as int),
                    l.blit_fits(off, len),
                    self.bytes().len() == len,
                    row_local_i < 16,
                    row_global_i == offset.1 + row_local_i * s,
                    row_value == bitmap@[row_local_i as int],
                    column_local_i <= 8,
                    self.bytes() == l.blit_row(row_start, offset.0 as int, row_global_i as int, row_value, fg, column_local_i as int),
                decreases 8 - column_local_i,
            {
                let ghost column_start = self.bytes();
                assert(column_local_i * s <= 7 * s) by (nonlinear_arith) requires column_local_i <= 7;
                let column_global_i = offset.0 + column_local_i * s;
                let pixel = ((row_value >> (7 - column_local_i)) & 1) != 0;
                let color = if pixel { fg } else { self.background_color };
                let mut x: usize = 0;
                while x < s
                    invariant
                        self.layout() == l,
                        self.cursor() == old(self).cursor(),
                        self.font() == old(self).font(),
                        s == l.scaling,
                        off == (offset.0 as int, offset.1 as int),
                        l.blit_fits(off, len),
                        self.bytes().len() == len,
                        row_local_i < 16,
                        column_local_i < 8,
                        row_global_i == offset.1 + row_local_i * s,
                        column_global_i == offset.0 + column_local_i * s,
                        x <= s,
                        self.bytes() == l.blit_square(column_start, column_global_i as int, row_global_i as int, x as int, color),
                    decreases s - x,
                {
                    let ghost x_start = self.bytes();
                    let mut y: usize = 0;
                    while y < s
                        invariant
                            self.layout() == l,
                            self.cursor() == old(self).cursor(),
                            self.font() == old(self).font(),
                            s == l.scaling,
                            off == (offset.0 as int, offset.1 as int),
                            l.blit_fits(off, len),
                            self.bytes().len() == len,
                            row_local_i < 16,
                            column_local_i < 8,
                            row_global_i == offset.1 + row_local_i * s,
                            column_global_i == offset.0 + column_local_i * s,
                            x < s,
                            y <= s,
                            self.bytes() == l.blit_column(x_start, column_global_i + x, row_global_i as int, y as int, color),
                        decreases s - y,
                    {
                        assert(column_local_i * s + x <= 8 * s - 1 && row_local_i * s + y <= 16 * s - 1)
                            by (nonlinear_arith)
                            requires column_local_i < 8, x < s, row_local_i < 16, y < s;
                        let px = column_global_i + x;
                        let py = row_global_i + y;
                        proof {
                            lemma_index_monotone(l, px as int, py as int, offset.0 + 8 * s - 1, offset.1 + 16 * s - 1);
                        }
                        self.set_pixel_color(px, py, color);
                        y = y + 1;
                    }
                    x = x + 1;
                }
                column_local_i = column_local_i + 1;
                assert(color == l.glyph_color(row_value, column_local_i - 1, fg));
            }
            row_local_i = row_local_i + 1;
        }
    }

    /// Sets the colour bytes of pixel (`x`, `y`), addressed by its index
    /// `(y * stride + x) * bytes_per_pixel`.
    fn set_pixel_color(&mut self, x: usize, y: usize, color: Color)
        requires
            y * old(self).layout().stride() + x <= usize::MAX,
            old(self).layout().pixel_index(x as int, y as int) <= usize::MAX,
            old(self).layout().is_color() ==> old(self).layout().pixel_index(x as int, y as int) + 3
                <= old(self).bytes().len(),
        ensures
            final(self).layout() == old(self).layout(),
            final(self).cursor() == old(self).cursor(),
            final(self).font() == old(self).font(),
            final(self).bytes() == old(self).layout().put_pixel(old(self).bytes(), x as int, y as int, color),
    {
        let width = self.info.stride;
        let bpp = self.info.bytes_per_pixel;
        let pixel_i = ((y * width) + x) * bpp;
        self.write_channels(pixel_i, color);
    }
}

/// Pixel indices grow with the line and, within a line, with the column.
proof fn lemma_index_monotone(l: Layout, x: int, y: int, x1: int, y1: int)
    requires
        0 <= x <= x1,
        0 <= y <= y1,
    ensures
        y * l.stride() + x <= y1 * l.stride() + x1,
        l.pixel_index(x, y) <= l.pixel_index(x1, y1),
{
    assert(y * l.stride() + x <= y1 * l.stride() + x1) by (nonlinear_arith)
        requires 0 <= x <= x1, 0 <= y <= y1, l.stride() >= 0;
    assert(l.pixel_index(x, y) <= l.pixel_index(x1, y1)) by (nonlinear_arith)
        requires y * l.stride() + x <= y1 * l.stride() + x1, l.bpp() >= 0,
            l.pixel_index(x, y) == (y * l.stride() + x) * l.bpp(),
            l.pixel_index(x1, y1) == (y1 * l.stride() + x1) * l.bpp();
}

} // verus!
