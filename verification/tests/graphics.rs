use bronze_kernel::graphics::{
    FrameBufferInfo, Glyph, GraphicsManager, PixelFormat, BACKGROUND, PURPLE, WHITE,
};

const W: usize = 40;
const H: usize = 40;
const BPP: usize = 4;

fn info(format: PixelFormat) -> FrameBufferInfo {
    FrameBufferInfo {
        byte_len: W * H * BPP,
        width: W,
        height: H,
        pixel_format: format,
        bytes_per_pixel: BPP,
        stride: W,
    }
}

/// Every glyph blank but `A` (left column lit), `7` and `a` (fully lit).
fn font() -> Vec<Glyph> {
    let mut f = vec![[0u8; 16]; 256];
    f[b'A' as usize] = [0x80; 16];
    f[b'7' as usize] = [0xFF; 16];
    f[b'a' as usize] = [0xFF; 16];
    f
}

fn console(format: PixelFormat, fill: u8) -> GraphicsManager {
    let buffer: &'static mut [u8] = Box::leak(vec![fill; W * H * BPP].into_boxed_slice());
    GraphicsManager::new(info(format), buffer, font())
}

fn pixel(gm: &GraphicsManager, x: usize, y: usize) -> [u8; 4] {
    let i = (y * W + x) * BPP;
    let b = gm.buffer();
    [b[i], b[i + 1], b[i + 2], b[i + 3]]
}

#[test]
fn new_console_geometry() {
    let gm = console(PixelFormat::Rgb, 0);
    assert!(gm.fits());
    assert_eq!(gm.cursor_position(), (1, 1));
    assert_eq!(gm.buffer().len(), W * H * BPP);
}

#[test]
fn too_small_display_does_not_fit() {
    let buffer: &'static mut [u8] = Box::leak(vec![0u8; 16 * 16 * 4].into_boxed_slice());
    let small = FrameBufferInfo { byte_len: 1024, width: 16, height: 16, pixel_format: PixelFormat::Rgb, bytes_per_pixel: 4, stride: 16 };
    let gm = GraphicsManager::new(small, buffer, font());
    assert!(!gm.fits());
}

#[test]
fn wipe_paints_background_and_keeps_padding() {
    let mut gm = console(PixelFormat::Rgb, 0xAA);
    gm.wipe();
    assert_eq!(pixel(&gm, 0, 0), [BACKGROUND.0, BACKGROUND.1, BACKGROUND.2, 0xAA]);
    assert_eq!(pixel(&gm, W - 1, H - 1), [BACKGROUND.0, BACKGROUND.1, BACKGROUND.2, 0xAA]);
    assert_eq!(gm.cursor_position(), (1, 1));
}

#[test]
fn wipe_in_bgr_reverses_channels() {
    let mut gm = console(PixelFormat::Bgr, 0);
    gm.wipe();
    assert_eq!(pixel(&gm, 3, 5), [BACKGROUND.2, BACKGROUND.1, BACKGROUND.0, 0]);
}

#[test]
fn u8_format_is_not_drawn() {
    let mut gm = console(PixelFormat::U8, 7);
    assert!(gm.fits());
    gm.wipe();
    gm.write_text(WHITE, b"A");
    assert!(gm.buffer().iter().all(|b| *b == 7));
    assert_eq!(gm.cursor_position(), (2, 1));
}

#[test]
fn glyph_drawn_at_cursor_cell() {
    let mut gm = console(PixelFormat::Rgb, 0);
    let fg = (1, 2, 3);
    gm.write_text(fg, b"A");
    // cell (1, 1) starts at pixel (9, 17); the glyph's left column is lit
    for y in 17..33 {
        assert_eq!(pixel(&gm, 9, y), [1, 2, 3, 0]);
        assert_eq!(pixel(&gm, 10, y), [BACKGROUND.0, BACKGROUND.1, BACKGROUND.2, 0]);
    }
    // outside the glyph nothing changed
    assert_eq!(pixel(&gm, 9, 33), [0, 0, 0, 0]);
    assert_eq!(pixel(&gm, 8, 17), [0, 0, 0, 0]);
    assert_eq!(gm.cursor_position(), (2, 1));
}

#[test]
fn last_column_wraps_and_last_line_scrolls() {
    let mut gm = console(PixelFormat::Rgb, 0);
    gm.write_text(WHITE, b"AB");
    // four cells across: the second character reaches the last usable
    // column, so the cursor wraps; two lines down: the screen scrolls
    assert_eq!(gm.cursor_position(), (1, 1));
    // the `A` drawn at line 17 moved up by 17 lines
    assert_eq!(pixel(&gm, 9, 0), [WHITE.0, WHITE.1, WHITE.2, 0]);
    // the freed bottom is background
    assert_eq!(pixel(&gm, 9, 39), [BACKGROUND.0, BACKGROUND.1, BACKGROUND.2, 0]);
}

#[test]
fn newline_moves_to_first_column() {
    let mut gm = console(PixelFormat::Rgb, 0);
    gm.write_text(WHITE, b"A\n");
    assert_eq!(gm.cursor_position(), (1, 1));
    assert_eq!(pixel(&gm, 9, 0), [WHITE.0, WHITE.1, WHITE.2, 0]);
}

#[test]
fn writing_in_pieces_draws_the_same() {
    let mut whole = console(PixelFormat::Rgb, 0);
    let mut pieces = console(PixelFormat::Rgb, 0);
    whole.write_text(WHITE, b"A7a\nA");
    pieces.write_text(WHITE, b"A7");
    pieces.write_text(WHITE, b"a\nA");
    assert_eq!(whole.buffer(), pieces.buffer());
    assert_eq!(whole.cursor_position(), pieces.cursor_position());
}

#[test]
fn formatted_number_replaces_placeholder() {
    let mut formatted = console(PixelFormat::Rgb, 0);
    let mut plain = console(PixelFormat::Rgb, 0);
    formatted.write_formated_text_u32(WHITE, b"x{}y{}", 7);
    plain.write_text(WHITE, b"x7y{}");
    assert_eq!(formatted.buffer(), plain.buffer());
    assert_eq!(formatted.cursor_position(), plain.cursor_position());
}

#[test]
fn formatted_number_with_many_digits() {
    let mut formatted = console(PixelFormat::Rgb, 0);
    let mut plain = console(PixelFormat::Rgb, 0);
    formatted.write_formated_text_u32(WHITE, b"{}", 4294967295);
    plain.write_text(WHITE, b"4294967295");
    assert_eq!(formatted.buffer(), plain.buffer());
    let mut zero = console(PixelFormat::Rgb, 0);
    let mut zero_plain = console(PixelFormat::Rgb, 0);
    zero.write_formated_text_u32(WHITE, b"[{}]", 0);
    zero_plain.write_text(WHITE, b"[0]");
    assert_eq!(zero.buffer(), zero_plain.buffer());
}

#[test]
fn missing_placeholder_writes_warning() {
    let mut formatted = console(PixelFormat::Rgb, 0);
    let mut plain = console(PixelFormat::Rgb, 0);
    formatted.write_formated_text_u32(WHITE, b"a", 3);
    plain.write_text(PURPLE, b"a");
    plain.write_text((240, 220, 90), b"warning: formatted text has no valid symbol\n\n");
    assert_eq!(formatted.buffer(), plain.buffer());
    assert_eq!(formatted.cursor_position(), (1, 1));
}
