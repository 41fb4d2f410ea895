use terminal_renders::color::ColorRGB;
use terminal_renders::renderers::{get_char_bytes, push_decimal, push_escape, Char, RGBChar, FULL, RGB};
use terminal_renders::term_framebuffer::Render;

fn esc(r: u8, g: u8, b: u8) -> Vec<u8> {
    format!("\x1b[38;2;{r};{g};{b}m").into_bytes()
}

#[test]
fn char_bytes_match_utf8() {
    assert_eq!(get_char_bytes('X'), vec![0x58]);
    assert_eq!(get_char_bytes('\u{0}'), vec![0x00]);
    assert_eq!(get_char_bytes('\u{e9}'), vec![0xC3, 0xA9]);
    assert_eq!(get_char_bytes(FULL), vec![0xE2, 0x96, 0x88]);
    assert_eq!(get_char_bytes('\u{1F600}'), vec![0xF0, 0x9F, 0x98, 0x80]);
    for ch in ['a', 'Z', '#', '\u{7f}', '\u{80}', '\u{7ff}', '\u{800}', '\u{10FFFF}'] {
        assert_eq!(get_char_bytes(ch), ch.to_string().into_bytes());
    }
}

#[test]
fn decimal_digits_are_shortest_form() {
    for (n, s) in [(0u8, "0"), (9, "9"), (10, "10"), (99, "99"), (100, "100"), (255, "255")] {
        let mut out = Vec::new();
        push_decimal(&mut out, n);
        assert_eq!(out, s.as_bytes());
    }
}

#[test]
fn escape_sequence_is_exact() {
    let mut out = Vec::new();
    push_escape(&mut out, ColorRGB::new(255, 0, 10));
    assert_eq!(out, b"\x1b[38;2;255;0;10m");
}

#[test]
fn color_channel_accessors() {
    let c = ColorRGB::new(1, 2, 3);
    assert_eq!(c.r(), 1);
    assert_eq!(c.g(), 2);
    assert_eq!(c.b(), 3);
    assert_eq!(c.parts(), (1, 2, 3));
    assert_eq!(ColorRGB::white().parts(), (255, 255, 255));
    assert_eq!(ColorRGB::black().parts(), (0, 0, 0));
}

#[test]
fn char_cell_renders_utf8_bytes() {
    let mut cell = Char::default_cell();
    cell.edit('A');
    let mut out = Vec::new();
    let mut carry = ();
    cell.render(&mut out, &mut carry);
    assert_eq!(out, vec![0x41]);
}

#[test]
fn rgb_cell_emits_escape_only_on_color_change() {
    let mut cell = RGB::default_cell();
    cell.edit(ColorRGB::white());
    let mut out = Vec::new();
    let mut carry = RGB::fresh_carry();

    cell.render(&mut out, &mut carry);
    let mut expected = esc(255, 255, 255);
    expected.extend_from_slice(&get_char_bytes(FULL));
    assert_eq!(out, expected, "first white cell emits escape and glyph");
    assert_eq!(carry, ColorRGB::white());

    out.clear();
    cell.render(&mut out, &mut carry);
    assert_eq!(out, get_char_bytes(FULL), "repeated color emits the glyph alone");
}

#[test]
fn rgbchar_cell_emits_stored_character() {
    let mut cell = RGBChar::default_cell();
    cell.edit(RGBChar { col: ColorRGB::new(7, 8, 9), ch: 'q' });
    let mut out = Vec::new();
    let mut carry = RGBChar::fresh_carry();
    cell.render(&mut out, &mut carry);
    let mut expected = esc(7, 8, 9);
    expected.push(b'q');
    assert_eq!(out, expected);

    out.clear();
    cell.render(&mut out, &mut carry);
    assert_eq!(out, vec![b'q']);
}

#[test]
fn render_pass_dedups_runs_of_equal_colors() {
    // Cell colors WHITE WHITE BLACK BLACK BLACK WHITE WHITE WHITE with glyph
    // 'X': exactly 3 escape sequences (before positions 0, 2, 5) and 8 glyphs.
    let white = ColorRGB::white();
    let black = ColorRGB::black();
    let colors = [white, white, black, black, black, white, white, white];

    let mut fb = terminal_renders::term_framebuffer::TerminalFramebuffer::<RGBChar>::new(8, 1, 3);
    fb.iterate_xy(&move |x: usize, _y: usize| RGBChar { col: colors[x], ch: 'X' });
    let out = fb.render_pass();

    let escapes = out.iter().filter(|&&b| b == 0x1b).count();
    assert_eq!(escapes, 3);
    let glyphs = out.iter().filter(|&&b| b == b'X').count();
    assert_eq!(glyphs, 8);

    let mut expected = Vec::new();
    expected.extend_from_slice(&esc(255, 255, 255));
    expected.extend_from_slice(b"XX");
    expected.extend_from_slice(&esc(0, 0, 0));
    expected.extend_from_slice(b"XXX");
    expected.extend_from_slice(&esc(255, 255, 255));
    expected.extend_from_slice(b"XXX");
    assert_eq!(out, expected);
}
