use vishyos::cmd::{show_key, KeyShown};
use vishyos::drivers::colors::{get_color, Color};
use vishyos::keyboard::KeyAction;
use vishyos::drivers::framebuffer::Framebuffer;
use vishyos::font::psf::{Psf, FONT_MIN_LEN};

/// A font whose glyphs are solid blocks, except the space, which is blank,
/// and 'x' (0x78), whose rows light only the leftmost pixel.
fn test_font() -> Vec<u8> {
    let mut f = vec![0u8; FONT_MIN_LEN];
    for c in 0..256usize {
        for r in 0..16usize {
            f[32 + c * 16 + r] = match c {
                0x20 => 0x00,
                0x78 => 0x80,
                _ => 0xFF,
            };
        }
    }
    f
}

fn screen() -> Framebuffer {
    let mut fb = Framebuffer::new(test_font());
    // 16 pixels per line, 40 lines
    fb.init(64, 16, 40, vec![0; 16 * 40]);
    fb
}

fn px(fb: &Framebuffer, x: usize, y: usize) -> u32 {
    fb.pixel_buffer()[y * 16 + x]
}

#[test]
fn print_draws_glyph_and_moves_cursor() {
    let mut fb = screen();
    assert_eq!(fb.pixel_buffer().len(), 640);
    let red = get_color(Color::Red);
    assert!(fb.print_fits("A"));
    fb.print("A", red);
    assert_eq!(fb.cursor_position(), (8, 0));
    for y in 0..16 {
        for x in 0..8 {
            assert_eq!(px(&fb, x, y), red);
        }
        for x in 8..16 {
            assert_eq!(px(&fb, x, y), 0);
        }
    }
    assert_eq!(px(&fb, 0, 16), 0);
}

#[test]
fn glyph_bits_choose_foreground_or_background() {
    let mut fb = screen();
    fb.print("x", 0x00112233);
    for y in 0..16 {
        assert_eq!(px(&fb, 0, y), 0x00112233);
        for x in 1..8 {
            assert_eq!(px(&fb, x, y), 0);
        }
    }
}

#[test]
fn newline_then_backspace_returns_to_line_end() {
    let mut fb = screen();
    fb.print("A\n", 0xFFFFFFFF);
    assert_eq!(fb.cursor_position(), (0, 16));
    fb.backspace();
    // back at the end of the first line, cell blanked
    assert_eq!(fb.cursor_position(), (8, 0));
    fb.backspace();
    assert_eq!(fb.cursor_position(), (0, 0));
    assert_eq!(px(&fb, 3, 3), 0);
    // at the top left corner backspace does nothing
    fb.backspace();
    assert_eq!(fb.cursor_position(), (0, 0));
}

#[test]
fn cursor_toggle_draws_and_erases_underline() {
    let mut fb = screen();
    assert!(fb.cursor_fits());
    fb.cursor_toggle();
    for x in 0..8 {
        assert_eq!(px(&fb, x, 14), 0x00FFFFFF);
        assert_eq!(px(&fb, x, 15), 0x00FFFFFF);
        assert_eq!(px(&fb, x, 13), 0);
    }
    fb.cursor_toggle();
    for x in 0..8 {
        assert_eq!(px(&fb, x, 14), 0);
        assert_eq!(px(&fb, x, 15), 0);
    }
    fb.cursor_draw();
    fb.cursor_erase();
    assert!(fb.pixel_buffer().iter().all(|&p| p == 0));
}

#[test]
fn clear_blanks_and_resets_cursor() {
    let mut fb = screen();
    fb.print("AB\nC", 0xFFFFFFFF);
    assert_eq!(fb.cursor_position(), (8, 16));
    fb.clear();
    assert_eq!(fb.cursor_position(), (0, 0));
    assert!(fb.pixel_buffer().iter().all(|&p| p == 0));
    fb.print("A", 1);
    fb.reset_cursor();
    assert_eq!(fb.cursor_position(), (0, 0));
}

#[test]
fn without_buffer_nothing_is_drawn() {
    let mut fb = Framebuffer::new(test_font());
    fb.print("hello", 0xFFFFFFFF);
    assert_eq!(fb.cursor_position(), (0, 0));
    assert!(fb.pixel_buffer().is_empty());
    fb.clear();
    fb.backspace();
    fb.cursor_toggle();
    assert_eq!(fb.cursor_position(), (0, 0));
}

#[test]
fn narrow_buffer_rows_overlap() {
    // 4 pixels per line: the glyph's rows overlap, later rows win
    let mut pixels = vec![0u32; 80];
    let psf = Psf::new(test_font());
    psf.draw_char(&mut pixels, 16, 0, 0, 0x78, 7, 9);
    // pixel 0 is row 0 column 0 only: set bit
    assert_eq!(pixels[0], 7);
    // pixel 4 is row 1 col 0 (set), the last writer
    assert_eq!(pixels[4], 7);
    // pixel 1 is row 0 col 1, overwritten by nothing later except... row r col c with 4r+c == 1: only (0,1)
    assert_eq!(pixels[1], 9);
    // pixel 64 is row 15 col 4: clear bit
    assert_eq!(pixels[64], 9);
    // beyond the glyph nothing changes
    assert_eq!(pixels[68], 0);
}

#[test]
fn set_screen_width_counts_columns() {
    let mut psf = Psf::new(test_font());
    psf.set_screen_width(1024);
    let mut pixels = vec![0u32; 16 * 32];
    psf.draw_str(&mut pixels, 64, "x\nx", 5, 6);
    assert_eq!(pixels[0], 5);
    assert_eq!(pixels[16 * 16], 5);
    psf.backspace(&mut pixels, 64);
    assert_eq!(pixels[16 * 16], 0);
}

#[test]
fn char_then_backspace_returns_and_blanks() {
    let mut fb = screen();
    fb.print("A", 0xFFFFFFFF);
    assert_eq!(fb.cursor_position(), (8, 0));
    assert!(fb.backspace_fits());
    fb.backspace();
    assert_eq!(fb.cursor_position(), (0, 0));
    // the space glyph is blank: drawn in the background colour
    assert!(fb.pixel_buffer().iter().all(|&p| p == 0));
}

#[test]
fn print_fits_detects_overflowing_cursor() {
    let mut fb = Framebuffer::new(test_font());
    // a buffer so wide that one glyph cell's last offset passes the address space
    fb.init(usize::MAX - 3, 8, 0, vec![]);
    assert!(fb.print_fits("\n\n"));
    assert!(!fb.print_fits("A"));
    assert!(!fb.cursor_fits());
    assert!(fb.backspace_fits());
}

#[test]
fn printing_in_pieces_equals_printing_at_once() {
    let mut a = screen();
    let mut b = screen();
    a.print("Ax\nB", 0x00ABCDEF);
    b.print("Ax", 0x00ABCDEF);
    b.print("\nB", 0x00ABCDEF);
    assert_eq!(a.cursor_position(), b.cursor_position());
    assert_eq!(a.pixel_buffer(), b.pixel_buffer());
}

#[test]
fn init_keeps_screen_contents_outside_drawn_cells() {
    let mut fb = Framebuffer::new(test_font());
    fb.init(64, 16, 40, vec![0x0012_3456; 16 * 40]);
    assert_eq!(px(&fb, 3, 3), 0x0012_3456);
    fb.print("A", 0x00FF_0000);
    assert_eq!(px(&fb, 0, 0), 0x00FF_0000);
    assert_eq!(px(&fb, 8, 0), 0x0012_3456);
    assert_eq!(px(&fb, 0, 16), 0x0012_3456);
}

#[test]
fn clear_blanks_every_byte_of_an_odd_pitch() {
    let mut fb = Framebuffer::new(test_font());
    // 10 bytes per line, 2 lines: 20 bytes, five whole pixels
    fb.init(10, 2, 2, vec![7; 5]);
    assert_eq!(fb.pixel_buffer().len(), 5);
    fb.clear();
    assert_eq!(fb.pixel_buffer(), &[0, 0, 0, 0, 0]);
}

#[test]
fn show_key_echoes_and_redraws_cursor() {
    let mut fb = Framebuffer::new(test_font());
    fb.init(4096, 1024, 200, vec![0; 1024 * 200]);
    assert_eq!(show_key(&mut fb, &KeyAction::Ignore), KeyShown::Shown);
    assert_eq!(fb.cursor_position(), (0, 0));
    assert_eq!(show_key(&mut fb, &KeyAction::Echo(b'A')), KeyShown::Shown);
    assert_eq!(fb.cursor_position(), (8, 0));
    // the cursor underline sits on rows 14 and 15 of the cell
    assert_eq!(fb.pixel_buffer()[14 * 1024 + 8], 0x00FF_FFFF);
    assert_eq!(show_key(&mut fb, &KeyAction::Backspace), KeyShown::Shown);
    assert_eq!(fb.cursor_position(), (0, 0));
}

#[test]
fn show_key_runs_commands_and_prompts() {
    let mut fb = Framebuffer::new(test_font());
    fb.init(4096, 1024, 200, vec![0; 1024 * 200]);
    assert_eq!(show_key(&mut fb, &KeyAction::Submit(b"nope".to_vec())), KeyShown::Shown);
    // "\nUnknown command\n" then "\n> "
    assert_eq!(fb.cursor_position(), (16, 48));
    assert_eq!(show_key(&mut fb, &KeyAction::Submit(b"clear".to_vec())), KeyShown::Shown);
    assert_eq!(fb.cursor_position(), (16, 16));
    assert_eq!(show_key(&mut fb, &KeyAction::Submit(b"donut".to_vec())), KeyShown::Donut);
    assert_eq!(fb.cursor_position(), (16, 16));
}

#[test]
fn show_key_reports_overflow() {
    let mut fb = Framebuffer::new(test_font());
    fb.init(usize::MAX - 3, 8, 0, vec![]);
    assert_eq!(show_key(&mut fb, &KeyAction::Echo(b'A')), KeyShown::Overflow);
    assert_eq!(fb.cursor_position(), (0, 0));
}
