//! Caption text: a font of small bitmaps, drawn at a whole-number scale.

use vstd::prelude::*;
use crate::raster::{opaque, pixel_of, Canvas, Image};
use crate::text::characters;

verus! {

/// The bitmap of one character: seven rows of five columns, the leftmost column
/// in the highest of five bits. The next character starts six columns on.
#[derive(Clone, Copy)]
pub struct Glyph {
    pub symbol: char,
    pub rows: [u8; 7],
}

/// A set of glyphs. A character without one leaves its space blank.
pub struct Font {
    pub glyphs: Vec<Glyph>,
}

/// The first glyph for a character.
pub open spec fn glyph_for(glyphs: Seq<Glyph>, symbol: char) -> Option<Glyph>
    decreases glyphs.len(),
{
    if glyphs.len() == 0 {
        None
    } else if glyphs[0].symbol == symbol {
        Some(glyphs[0])
    } else {
        glyph_for(glyphs.drop_first(), symbol)
    }
}

/// The bit of a column in a row of a glyph.
pub open spec fn column_bit(row: u8, column: int) -> bool {
    let weight = if column == 0 {
        16int
    } else if column == 1 {
        8
    } else if column == 2 {
        4
    } else if column == 3 {
        2
    } else {
        1
    };
    (row as int / weight) % 2 == 1
}

/// A dot of a character's glyph is set.
pub open spec fn dot(font: Font, symbol: char, column: int, row: int) -> bool {
    match glyph_for(font.glyphs@, symbol) {
        Some(glyph) => 0 <= column < 5 && 0 <= row < 7 && column_bit(glyph.rows@[row], column),
        None => false,
    }
}

/// A pixel is lit by a text, by its offset from the text's top left corner.
pub open spec fn lit(font: Font, text: Seq<char>, scale: int, dx: int, dy: int) -> bool {
    &&& scale > 0
    &&& dx >= 0
    &&& dy >= 0
    &&& dx / (6 * scale) < text.len()
    &&& dot(font, text[dx / (6 * scale)], (dx % (6 * scale)) / scale, dy / scale)
}

/// An image with a text drawn over it.
pub open spec fn with_text(
    image: Image,
    font: Font,
    text: Seq<char>,
    x: int,
    y: int,
    scale: int,
    color: [u8; 3],
) -> Image {
    |px: int, py: int|
        if lit(font, text, scale, px - x, py - y) {
            opaque(color)
        } else {
            image(px, py)
        }
}

/// The width of `count` glyphs in pixels, without the space after the last.
pub open spec fn text_width(count: int, scale: int) -> int {
    (6 * count - 1) * scale
}

/// A text lights pixels within its width only.
pub proof fn lemma_text_keeps_to_its_width(
    font: Font,
    text: Seq<char>,
    scale: int,
    dx: int,
    dy: int,
)
    requires
        lit(font, text, scale, dx, dy),
    ensures
        0 <= dx < text_width(text.len() as int, scale),
        0 <= dy < 7 * scale,
{
    let step = 6 * scale;
    let at = dx / step;
    let rest = dx % step;
    let count = text.len() as int;
    vstd::arithmetic::div_mod::lemma_fundamental_div_mod(dx, step);
    assert(rest < 5 * scale) by (nonlinear_arith)
        requires
            rest / scale < 5,
            scale > 0,
    ;
    assert(dx < (6 * count - 1) * scale) by (nonlinear_arith)
        requires
            dx == step * at + rest,
            step == 6 * scale,
            rest < 5 * scale,
            at <= count - 1,
            scale > 0,
    ;
    assert(dy < 7 * scale) by (nonlinear_arith)
        requires
            dy / scale < 7,
            scale > 0,
    ;
}

impl Font {
    /// The glyph for a character.
    fn find(&self, symbol: char) -> (r: Option<Glyph>)
        ensures
            r == glyph_for(self.glyphs@, symbol),
    {
        let mut i: usize = 0;
        assert(self.glyphs@.skip(0) =~= self.glyphs@);
        while i < self.glyphs.len()
            invariant
                i <= self.glyphs.len(),
                glyph_for(self.glyphs@, symbol) == glyph_for(self.glyphs@.skip(i as int), symbol),
            decreases self.glyphs.len() - i,
        {
            let glyph = self.glyphs[i];
            if glyph.symbol == symbol {
                return Some(glyph);
            }
            assert(self.glyphs@.skip(i as int).drop_first() =~= self.glyphs@.skip(i + 1));
            i = i + 1;
        }
        None
    }

    /// Whether a pixel is lit by a text.
    fn lights(&self, text: &Vec<char>, scale: u32, dx: i128, dy: i128) -> (r: bool)
        requires
            scale > 0,
        ensures
            r == lit(*self, text@, scale as int, dx as int, dy as int),
    {
        if dx < 0 || dy < 0 {
            return false;
        }
        let step: i128 = 6 * scale as i128;
        let at: i128 = dx / step;
        if at >= text.len() as i128 {
            return false;
        }
        let column: i128 = (dx % step) / scale as i128;
        let row: i128 = dy / scale as i128;
        let glyph = match self.find(text[at as usize]) {
            Some(glyph) => glyph,
            None => {
                return false;
            },
        };
        if column >= 5 || row >= 7 {
            return false;
        }
        let bits: u8 = glyph.rows[row as usize];
        if column == 0 {
            (bits / 16) % 2 == 1
        } else if column == 1 {
            (bits / 8) % 2 == 1
        } else if column == 2 {
            (bits / 4) % 2 == 1
        } else if column == 3 {
            (bits / 2) % 2 == 1
        } else {
            bits % 2 == 1
        }
    }
}

/// Draw a text, clipped to the canvas.
pub fn draw(
    canvas: &mut Canvas,
    font: &Font,
    x: i64,
    y: i64,
    text: &str,
    scale: u32,
    color: [u8; 3],
)
    requires
        old(canvas).wf(),
    ensures
        final(canvas).wf(),
        final(canvas).width == old(canvas).width,
        final(canvas).height == old(canvas).height,
        forall|px: int, py: int|
            old(canvas).has(px, py) ==> #[trigger] final(canvas).pixel(px, py) == (if lit(
                *font,
                text@,
                scale as int,
                px - x,
                py - y,
            ) {
                opaque(color)
            } else {
                old(canvas).pixel(px, py)
            }),
{
    if scale == 0 {
        return;
    }
    let letters = characters(text);
    let ghost before = *canvas;
    let width: u32 = canvas.width;
    let height: u32 = canvas.height;
    let ink = [color[0], color[1], color[2], 255u8];
    // Rows outside the text's band are left alone.
    let top: i128 = y as i128;
    let bottom: i128 = y as i128 + 7 * scale as i128;
    let mut py: u32 = 0;
    while py < height
        invariant
            py <= height,
            scale > 0,
            letters@ == text@,
            height == before.height,
            width == before.width,
            pixel_of(ink) == opaque(color),
            top == y,
            bottom == y + 7 * scale,
            canvas.wf(),
            canvas.width == before.width,
            canvas.height == before.height,
            forall|qx: int, qy: int|
                before.has(qx, qy) ==> #[trigger] canvas.pixel(qx, qy) == (if qy < py && lit(
                    *font,
                    text@,
                    scale as int,
                    qx - x,
                    qy - y,
                ) {
                    opaque(color)
                } else {
                    before.pixel(qx, qy)
                }),
        decreases height - py,
    {
        if (py as i128) < top || (py as i128) >= bottom {
            assert forall|qx: int| !lit(
                *font,
                text@,
                scale as int,
                #[trigger] (qx - x),
                py as int - y,
            ) by {
                if lit(*font, text@, scale as int, qx - x, py as int - y) {
                    lemma_text_keeps_to_its_width(
                        *font,
                        text@,
                        scale as int,
                        qx - x,
                        py as int - y,
                    );
                }
            }
        } else {
            let mut px: u32 = 0;
            while px < width
                invariant
                    px <= width,
                    py < height,
                    scale > 0,
                    letters@ == text@,
                    height == before.height,
                    width == before.width,
                    pixel_of(ink) == opaque(color),
                    canvas.wf(),
                    canvas.width == before.width,
                    canvas.height == before.height,
                    forall|qx: int, qy: int|
                        before.has(qx, qy) ==> #[trigger] canvas.pixel(qx, qy) == (if (qy < py || (qy
                            == py && qx < px)) && lit(
                            *font,
                            text@,
                            scale as int,
                            qx - x,
                            qy - y,
                        ) {
                            opaque(color)
                        } else {
                            before.pixel(qx, qy)
                        }),
                decreases width - px,
            {
                if font.lights(&letters, scale, px as i128 - x as i128, py as i128 - y as i128) {
                    canvas.set(px, py, ink);
                }
                px = px + 1;
            }
        }
        py = py + 1;
    }
}

/// The five columns of a row are its five lowest bits, the leftmost column the highest.
pub proof fn lemma_columns_are_bits(row: u8)
    ensures
        row as int % 32 == (if column_bit(row, 0) {
            16int
        } else {
            0
        }) + (if column_bit(row, 1) {
            8int
        } else {
            0
        }) + (if column_bit(row, 2) {
            4int
        } else {
            0
        }) + (if column_bit(row, 3) {
            2int
        } else {
            0
        }) + (if column_bit(row, 4) {
            1int
        } else {
            0
        }),
{
    let (a, b, c) = ((row / 16) % 2, (row / 8) % 2, (row / 4) % 2);
    let (d, e) = ((row / 2) % 2, row % 2);
    assert(row % 32 == 16 * ((row / 16) % 2) + 8 * ((row / 8) % 2) + 4 * ((row / 4) % 2) + 2 * ((row
        / 2) % 2) + row % 2) by (bit_vector);
    assert(column_bit(row, 0) == (a == 1) && a <= 1);
    assert(column_bit(row, 1) == (b == 1) && b <= 1);
    assert(column_bit(row, 2) == (c == 1) && c <= 1);
    assert(column_bit(row, 3) == (d == 1) && d <= 1);
    assert(column_bit(row, 4) == (e == 1) && e <= 1);
}

/// A character is drawn with the first glyph for it, and with none where there is none.
pub proof fn lemma_first_glyph_counts(glyphs: Seq<Glyph>, symbol: char, k: int)
    ensures
        0 <= k < glyphs.len() && glyphs[k].symbol == symbol && (forall|j: int|
            0 <= j < k ==> (#[trigger] glyphs[j]).symbol != symbol) ==> glyph_for(glyphs, symbol)
            == Some(glyphs[k]),
        (forall|j: int| 0 <= j < glyphs.len() ==> (#[trigger] glyphs[j]).symbol != symbol)
            ==> glyph_for(glyphs, symbol) is None,
    decreases glyphs.len(),
{
    if glyphs.len() > 0 {
        let rest = glyphs.drop_first();
        lemma_first_glyph_counts(rest, symbol, k - 1);
        assert(forall|j: int| 0 <= j < rest.len() ==> #[trigger] rest[j] == glyphs[j + 1]);
        if glyphs[0].symbol != symbol {
            if 0 <= k < glyphs.len() && glyphs[k].symbol == symbol && (forall|j: int|
                0 <= j < k ==> (#[trigger] glyphs[j]).symbol != symbol) {
                assert(k > 0);
                assert(rest[k - 1] == glyphs[k]);
                assert forall|j: int| 0 <= j < k - 1 implies (#[trigger] rest[j]).symbol
                    != symbol by {
                    assert(glyphs[j + 1].symbol != symbol);
                }
            }
        }
    }
}

/// Each dot of a glyph is a square of pixels as large as the scale: the square of the dot in
/// some column and row of the character at some place in the text is lit exactly where the
/// dot is set, and the characters stand six columns apart.
pub proof fn lemma_dots_are_squares(
    font: Font,
    text: Seq<char>,
    scale: int,
    place: int,
    column: int,
    row: int,
    a: int,
    b: int,
)
    requires
        scale > 0,
        0 <= place < text.len(),
        0 <= column < 6,
        0 <= row,
        0 <= a < scale,
        0 <= b < scale,
    ensures
        lit(font, text, scale, 6 * scale * place + scale * column + a, scale * row + b) <==> (
        match glyph_for(font.glyphs@, text[place]) {
            Some(glyph) => column < 5 && row < 7 && column_bit(glyph.rows@[row], column),
            None => false,
        }),
{
    let step = 6 * scale;
    let dx = 6 * scale * place + scale * column + a;
    let dy = scale * row + b;
    let rest = scale * column + a;
    assert(0 <= rest < step) by (nonlinear_arith)
        requires
            rest == scale * column + a,
            0 <= column <= 5,
            0 <= a < scale,
            step == 6 * scale,
    ;
    assert(dx == place * step + rest) by (nonlinear_arith)
        requires
            dx == 6 * scale * place + rest,
            step == 6 * scale,
    ;
    assert(dx >= 0 && dy >= 0) by (nonlinear_arith)
        requires
            dx == place * step + rest,
            rest >= 0,
            place >= 0,
            step > 0,
            dy == scale * row + b,
            scale > 0,
            row >= 0,
            b >= 0,
    ;
    vstd::arithmetic::div_mod::lemma_fundamental_div_mod_converse(dx, step, place, rest);
    assert(rest == column * scale + a) by (nonlinear_arith)
        requires
            rest == scale * column + a,
    ;
    assert(dy == row * scale + b) by (nonlinear_arith)
        requires
            dy == scale * row + b,
    ;
    vstd::arithmetic::div_mod::lemma_fundamental_div_mod_converse(rest, scale, column, a);
    vstd::arithmetic::div_mod::lemma_fundamental_div_mod_converse(dy, scale, row, b);
}

} // verus!
