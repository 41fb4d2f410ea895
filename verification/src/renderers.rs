//! The cell variants and their byte emission.
//!
//! `Char` emits a character's UTF-8 bytes; `RGB` and `RGBChar` first compare
//! their color against the carried-over last emitted color and prepend a
//! truecolor escape sequence only when it differs, updating the carry-over.

use vstd::prelude::*;
use vstd::utf8::encode_scalar;

use crate::color::ColorRGB;
use crate::term_framebuffer::Render;

verus! {

/// The filled-block glyph colored cells emit.
pub const FULL: char = '\u{2588}';

/// The shortest decimal digits of `n`, as ASCII bytes.
pub open spec fn dec_seq(n: int) -> Seq<u8>
    recommends
        0 <= n <= 255,
{
    if n < 10 {
        seq![(48 + n) as u8]
    } else if n < 100 {
        seq![(48 + n / 10) as u8, (48 + n % 10) as u8]
    } else {
        seq![(48 + n / 100) as u8, (48 + (n / 10) % 10) as u8, (48 + n % 10) as u8]
    }
}

/// The ANSI SGR truecolor foreground sequence `ESC[38;2;{r};{g};{b}m`.
pub open spec fn escape_seq(col: ColorRGB) -> Seq<u8> {
    seq![0x1bu8, 91u8, 51u8, 56u8, 59u8, 50u8, 59u8] + dec_seq(col.red as int) + seq![59u8]
        + dec_seq(col.green as int) + seq![59u8] + dec_seq(col.blue as int) + seq![109u8]
}

/// The UTF-8 bytes of one character.
pub open spec fn char_seq(ch: char) -> Seq<u8> {
    encode_scalar(ch as u32)
}

/// Appends the decimal digits of `n` to `out`.
pub fn push_decimal(out: &mut Vec<u8>, n: u8)
    ensures
        final(out)@ == old(out)@ + dec_seq(n as int),
{
    if n >= 100 {
        out.push(48 + n / 100);
        out.push(48 + (n / 10) % 10);
        out.push(48 + n % 10);
    } else if n >= 10 {
        out.push(48 + n / 10);
        out.push(48 + n % 10);
    } else {
        out.push(48 + n);
    }
    proof {
        assert(final(out)@ =~= old(out)@ + dec_seq(n as int));
    }
}

/// Appends the truecolor escape sequence for `col` to `out`.
pub fn push_escape(out: &mut Vec<u8>, col: ColorRGB)
    ensures
        final(out)@ == old(out)@ + escape_seq(col),
{
    out.push(0x1b);
    out.push(91);
    out.push(51);
    out.push(56);
    out.push(59);
    out.push(50);
    out.push(59);
    push_decimal(out, col.red);
    out.push(59);
    push_decimal(out, col.green);
    out.push(59);
    push_decimal(out, col.blue);
    out.push(109);
    proof {
        assert(final(out)@ =~= old(out)@ + escape_seq(col));
    }
}

/// The UTF-8 encoding of `ch`, one to four bytes.
pub fn get_char_bytes(ch: char) -> (r: Vec<u8>)
    ensures
        r@ == char_seq(ch),
        1 <= r@.len() <= 4,
{
    proof {
        vstd::utf8::char_is_scalar(ch);
    }
    let v: u32 = ch as u32;
    let mut r: Vec<u8> = Vec::new();
    if v <= 0x7F {
        r.push((v & 0x7F) as u8);
    } else if v <= 0x7FF {
        r.push(0xC0u8 | ((v >> 6) & 0x1F) as u8);
        r.push(0x80u8 | (v & 0x3F) as u8);
    } else if v <= 0xFFFF {
        r.push(0xE0u8 | ((v >> 12) & 0x0F) as u8);
        r.push(0x80u8 | ((v >> 6) & 0x3F) as u8);
        r.push(0x80u8 | (v & 0x3F) as u8);
    } else {
        r.push(0xF0u8 | ((v >> 18) & 0x7) as u8);
        r.push(0x80u8 | ((v >> 12) & 0x3F) as u8);
        r.push(0x80u8 | ((v >> 6) & 0x3F) as u8);
        r.push(0x80u8 | (v & 0x3F) as u8);
    }
    proof {
        assert(r@ =~= char_seq(ch));
    }
    r
}

/// A cell holding one character, rendered as its UTF-8 bytes. The carry-over
/// is an unused unit value.
#[derive(Clone, Copy, Debug, PartialEq, Eq, Structural)]
pub struct Char(pub char);

impl Render for Char {
    type CarryOver = ();

    type Input = char;

    open spec fn initial_carry() -> () {
        ()
    }

    open spec fn edited(self, change: char) -> Char {
        Char(change)
    }

    open spec fn default_spec() -> Char {
        Char('\u{0}')
    }

    open spec fn rendered(self, c: ()) -> Seq<u8> {
        char_seq(self.0)
    }

    open spec fn carry_after(self, c: ()) -> () {
        ()
    }

    fn fresh_carry() -> (r: ()) {
        ()
    }

    fn default_cell() -> (r: Char) {
        Char('\u{0}')
    }

    fn render(&self, out: &mut Vec<u8>, c: &mut ()) {
        let mut bytes = get_char_bytes(self.0);
        out.append(&mut bytes);
    }

    fn edit(&mut self, change: char) {
        self.0 = change;
    }
}

/// A cell holding one color, rendered as the filled-block glyph, preceded by
/// a truecolor escape sequence when the color differs from the carry-over.
#[derive(Clone, Copy, Debug, PartialEq, Eq, Structural)]
pub struct RGB {
    pub col: ColorRGB,
}

impl Render for RGB {
    type CarryOver = ColorRGB;

    type Input = ColorRGB;

    open spec fn initial_carry() -> ColorRGB {
        ColorRGB { red: 0, green: 0, blue: 0 }
    }

    open spec fn edited(self, change: ColorRGB) -> RGB {
        RGB { col: change }
    }

    open spec fn default_spec() -> RGB {
        RGB { col: ColorRGB { red: 0, green: 0, blue: 0 } }
    }

    open spec fn rendered(self, c: ColorRGB) -> Seq<u8> {
        if self.col == c {
            char_seq(FULL)
        } else {
            escape_seq(self.col) + char_seq(FULL)
        }
    }

    open spec fn carry_after(self, c: ColorRGB) -> ColorRGB {
        self.col
    }

    fn fresh_carry() -> (r: ColorRGB) {
        ColorRGB::black()
    }

    fn default_cell() -> (r: RGB) {
        RGB { col: ColorRGB::black() }
    }

    fn render(&self, out: &mut Vec<u8>, c: &mut ColorRGB) {
        if !(self.col.r() == c.r() && self.col.g() == c.g() && self.col.b() == c.b()) {
            push_escape(out, self.col);
            *c = self.col;
        }
        let mut bytes = get_char_bytes(FULL);
        out.append(&mut bytes);
    }

    fn edit(&mut self, change: ColorRGB) {
        self.col = change;
    }
}

/// A cell holding a color and a character: the same dedup logic as [`RGB`],
/// but the stored character is emitted instead of the fixed glyph.
#[derive(Clone, Copy, Debug, PartialEq, Eq, Structural)]
pub struct RGBChar {
    pub col: ColorRGB,
    pub ch: char,
}

impl Render for RGBChar {
    type CarryOver = ColorRGB;

    type Input = RGBChar;

    open spec fn initial_carry() -> ColorRGB {
        ColorRGB { red: 0, green: 0, blue: 0 }
    }

    open spec fn edited(self, change: RGBChar) -> RGBChar {
        change
    }

    open spec fn default_spec() -> RGBChar {
        RGBChar { col: ColorRGB { red: 0, green: 0, blue: 0 }, ch: '\u{0}' }
    }

    open spec fn rendered(self, c: ColorRGB) -> Seq<u8> {
        if self.col == c {
            char_seq(self.ch)
        } else {
            escape_seq(self.col) + char_seq(self.ch)
        }
    }

    open spec fn carry_after(self, c: ColorRGB) -> ColorRGB {
        self.col
    }

    fn fresh_carry() -> (r: ColorRGB) {
        ColorRGB::black()
    }

    fn default_cell() -> (r: RGBChar) {
        RGBChar { col: ColorRGB::black(), ch: '\u{0}' }
    }

    fn render(&self, out: &mut Vec<u8>, c: &mut ColorRGB) {
        if !(self.col.r() == c.r() && self.col.g() == c.g() && self.col.b() == c.b()) {
            push_escape(out, self.col);
            *c = self.col;
        }
        let mut bytes = get_char_bytes(self.ch);
        out.append(&mut bytes);
    }

    fn edit(&mut self, change: RGBChar) {
        self.col = change.col;
        self.ch = change.ch;
    }
}

} // verus!
