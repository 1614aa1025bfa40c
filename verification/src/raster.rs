//! A small RGBA8 raster.
//!
//! An image is modelled by the pixel at each position, so each operation says of
//! every pixel what it is afterwards.

use vstd::prelude::*;
use crate::error::{failure, Error};

verus! {

/// The red, green, blue and opacity of a pixel.
pub type Pixel = (u8, u8, u8, u8);

/// An image: the pixel at each column and row.
pub type Image = spec_fn(int, int) -> Pixel;

/// Four bytes as a pixel.
pub open spec fn pixel_of(rgba: [u8; 4]) -> Pixel {
    (rgba@[0], rgba@[1], rgba@[2], rgba@[3])
}

/// An opaque pixel.
pub open spec fn opaque(color: [u8; 3]) -> Pixel {
    (color@[0], color@[1], color@[2], 255)
}

/// An image of one pixel.
pub open spec fn plain(pixel: Pixel) -> Image {
    |x: int, y: int| pixel
}

/// A position lies in a rectangle.
pub open spec fn in_rect(px: int, py: int, x: int, y: int, w: int, h: int) -> bool {
    x <= px < x + w && y <= py < y + h
}

/// An image with a rectangle filled.
pub open spec fn with_rect(image: Image, x: int, y: int, w: int, h: int, pixel: Pixel) -> Image {
    |px: int, py: int|
        if in_rect(px, py, x, y, w, h) {
            pixel
        } else {
            image(px, py)
        }
}

/// An image with the pixels of another that are not clear laid over it.
pub open spec fn with_picture(image: Image, picture: Canvas, x: int, y: int) -> Image {
    |px: int, py: int|
        if in_rect(px, py, x, y, picture.width as int, picture.height as int) && picture.pixel(
            px - x,
            py - y,
        ).3 != 0 {
            picture.pixel(px - x, py - y)
        } else {
            image(px, py)
        }
}

/// A row-major RGBA8 buffer.
///
/// Deliberately not a full image library's type: this tool only ever produces
/// pixels and encodes them as PNG.
pub struct Canvas {
    pub width: u32,
    pub height: u32,
    pub pixels: Vec<u8>,
}

/// The place of a pixel among the pixels of a row-major buffer.
pub open spec fn place(width: int, x: int, y: int) -> int {
    y * width + x
}

/// A pixel of a row-major buffer has a place in it.
pub proof fn lemma_place_in_range(width: int, height: int, x: int, y: int)
    requires
        0 <= x < width,
        0 <= y < height,
    ensures
        0 <= y * width,
        0 <= place(width, x, y) < width * height,
{
    assert(0 <= y * width && y * width + x < width * height) by (nonlinear_arith)
        requires
            0 <= x < width,
            0 <= y < height,
    ;
}

/// No two pixels of a row-major buffer share a place.
pub proof fn lemma_places_differ(width: int, ax: int, ay: int, bx: int, by_: int)
    requires
        0 <= ax < width,
        0 <= bx < width,
        place(width, ax, ay) == place(width, bx, by_),
    ensures
        ax == bx,
        ay == by_,
{
    assert(ax == bx && ay == by_) by (nonlinear_arith)
        requires
            ay * width + ax == by_ * width + bx,
            0 <= ax < width,
            0 <= bx < width,
    ;
}

impl Canvas {
    /// The canvas has four bytes for each pixel.
    pub open spec fn wf(self) -> bool {
        self.pixels@.len() == self.width * self.height * 4
    }

    /// A position lies on the canvas.
    pub open spec fn has(self, x: int, y: int) -> bool {
        0 <= x < self.width && 0 <= y < self.height
    }

    /// The pixel at a place.
    pub open spec fn texel(self, i: int) -> Pixel {
        (
            self.pixels@[4 * i],
            self.pixels@[4 * i + 1],
            self.pixels@[4 * i + 2],
            self.pixels@[4 * i + 3],
        )
    }

    /// The pixel at a position.
    pub open spec fn pixel(self, x: int, y: int) -> Pixel {
        self.texel(place(self.width as int, x, y))
    }

    /// The canvas shows an image.
    pub open spec fn shows(self, image: Image) -> bool {
        forall|x: int, y: int| self.has(x, y) ==> #[trigger] self.pixel(x, y) == image(x, y)
    }

    /// A fully transparent canvas.
    pub fn new(width: u32, height: u32) -> (r: Self)
        requires
            width * height * 4 <= isize::MAX,
        ensures
            r.wf(),
            r.width == width,
            r.height == height,
            r.shows(plain((0u8, 0u8, 0u8, 0u8))),
    {
        proof {
            assert(0 <= width * height) by (nonlinear_arith)
                requires
                    0 <= width,
                    0 <= height,
            ;
        }
        let count: usize = (width as usize) * (height as usize) * 4;
        let canvas = Canvas { width, height, pixels: vec![0u8; count] };
        assert forall|x: int, y: int| canvas.has(x, y) implies #[trigger] canvas.pixel(x, y) == (
            0u8,
            0u8,
            0u8,
            0u8,
        ) by {
            lemma_place_in_range(width as int, height as int, x, y);
        }
        canvas
    }

    /// A canvas filled with an opaque colour.
    pub fn filled(width: u32, height: u32, color: [u8; 3]) -> (r: Self)
        requires
            width * height * 4 <= isize::MAX,
        ensures
            r.wf(),
            r.width == width,
            r.height == height,
            r.shows(plain(opaque(color))),
    {
        let mut canvas = Self::new(width, height);
        canvas.fill_rect(0, 0, width, height, [color[0], color[1], color[2], 255]);
        canvas
    }

    /// The place of a pixel.
    fn find(&self, x: u32, y: u32) -> (r: usize)
        requires
            self.wf(),
            self.has(x as int, y as int),
        ensures
            r == place(self.width as int, x as int, y as int),
            4 * r + 3 < self.pixels.len(),
    {
        let size: usize = self.pixels.len();
        proof {
            lemma_place_in_range(self.width as int, self.height as int, x as int, y as int);
            assert(size == self.width * self.height * 4);
        }
        (y as usize) * (self.width as usize) + x as usize
    }

    /// Change one pixel.
    fn put(&mut self, x: u32, y: u32, rgba: [u8; 4])
        requires
            old(self).wf(),
            old(self).has(x as int, y as int),
        ensures
            final(self).wf(),
            final(self).width == old(self).width,
            final(self).height == old(self).height,
            forall|px: int, py: int|
                old(self).has(px, py) ==> #[trigger] final(self).pixel(px, py) == (if px == x && py
                    == y {
                    pixel_of(rgba)
                } else {
                    old(self).pixel(px, py)
                }),
    {
        let i: usize = self.find(x, y);
        let ghost before = *self;
        self.pixels.set(4 * i, rgba[0]);
        self.pixels.set(4 * i + 1, rgba[1]);
        self.pixels.set(4 * i + 2, rgba[2]);
        self.pixels.set(4 * i + 3, rgba[3]);
        assert forall|px: int, py: int| before.has(px, py) implies #[trigger] self.pixel(px, py) == (
        if px == x && py == y {
            pixel_of(rgba)
        } else {
            before.pixel(px, py)
        }) by {
            let w = before.width as int;
            lemma_place_in_range(w, before.height as int, px, py);
            if place(w, px, py) == i {
                lemma_places_differ(w, px, py, x as int, y as int);
            }
        }
    }

    /// Change one pixel. Nothing happens to a position off the canvas.
    pub fn set(&mut self, x: u32, y: u32, rgba: [u8; 4])
        requires
            old(self).wf(),
        ensures
            final(self).wf(),
            final(self).width == old(self).width,
            final(self).height == old(self).height,
            forall|px: int, py: int|
                old(self).has(px, py) ==> #[trigger] final(self).pixel(px, py) == (if px == x && py
                    == y {
                    pixel_of(rgba)
                } else {
                    old(self).pixel(px, py)
                }),
    {
        if x >= self.width || y >= self.height {
            return;
        }
        self.put(x, y, rgba);
    }

    /// The pixel at a position.
    pub fn get(&self, x: u32, y: u32) -> (r: [u8; 4])
        requires
            self.wf(),
            self.has(x as int, y as int),
        ensures
            pixel_of(r) == self.pixel(x as int, y as int),
    {
        let i: usize = self.find(x, y);
        [
            self.pixels[4 * i],
            self.pixels[4 * i + 1],
            self.pixels[4 * i + 2],
            self.pixels[4 * i + 3],
        ]
    }

    /// Fill an axis-aligned rectangle, clipped to the canvas.
    pub fn fill_rect(&mut self, x: i64, y: i64, w: u32, h: u32, texel: [u8; 4])
        requires
            old(self).wf(),
        ensures
            final(self).wf(),
            final(self).width == old(self).width,
            final(self).height == old(self).height,
            forall|px: int, py: int|
                old(self).has(px, py) ==> #[trigger] final(self).pixel(px, py) == (if in_rect(
                    px,
                    py,
                    x as int,
                    y as int,
                    w as int,
                    h as int,
                ) {
                    pixel_of(texel)
                } else {
                    old(self).pixel(px, py)
                }),
    {
        let ghost before = *self;
        let x0: u32 = clip(x as i128, self.width);
        let y0: u32 = clip(y as i128, self.height);
        let x1: u32 = clip(x as i128 + w as i128, self.width);
        let y1: u32 = clip(y as i128 + h as i128, self.height);
        let mut py: u32 = y0;
        while py < y1
            invariant
                y0 <= py,
                py <= y1 || py == y0,
                y1 <= before.height,
                x1 <= before.width,
                self.wf(),
                self.width == before.width,
                self.height == before.height,
                forall|qx: int, qy: int|
                    before.has(qx, qy) ==> #[trigger] self.pixel(qx, qy) == (if x0 <= qx < x1 && y0
                        <= qy < py {
                        pixel_of(texel)
                    } else {
                        before.pixel(qx, qy)
                    }),
            decreases y1 - py,
        {
            let mut px: u32 = x0;
            while px < x1
                invariant
                    x0 <= px,
                    px <= x1 || px == x0,
                    y0 <= py < y1,
                    y1 <= before.height,
                    x1 <= before.width,
                    self.wf(),
                    self.width == before.width,
                    self.height == before.height,
                    forall|qx: int, qy: int|
                        before.has(qx, qy) ==> #[trigger] self.pixel(qx, qy) == (if (x0 <= qx < x1
                            && y0 <= qy < py) || (x0 <= qx < px && qy == py) {
                            pixel_of(texel)
                        } else {
                            before.pixel(qx, qy)
                        }),
                decreases x1 - px,
            {
                self.put(px, py, texel);
                px = px + 1;
            }
            py = py + 1;
        }
    }

    /// Copy the opaque pixels of `src` in at `(x, y)`, clipped.
    ///
    /// Transparent pixels are skipped so the background shows through, which is
    /// what leaves the empty space around a build looking like the theme rather
    /// than like a second, darker rectangle.
    pub fn blit(&mut self, src: &Canvas, x: i64, y: i64)
        requires
            old(self).wf(),
            src.wf(),
        ensures
            final(self).wf(),
            final(self).width == old(self).width,
            final(self).height == old(self).height,
            forall|px: int, py: int|
                old(self).has(px, py) ==> #[trigger] final(self).pixel(px, py) == (if in_rect(
                    px,
                    py,
                    x as int,
                    y as int,
                    src.width as int,
                    src.height as int,
                ) && src.pixel(px - x, py - y).3 != 0 {
                    src.pixel(px - x, py - y)
                } else {
                    old(self).pixel(px, py)
                }),
    {
        let ghost before = *self;
        let x0: u32 = clip(x as i128, self.width);
        let y0: u32 = clip(y as i128, self.height);
        let x1: u32 = clip(x as i128 + src.width as i128, self.width);
        let y1: u32 = clip(y as i128 + src.height as i128, self.height);
        let mut py: u32 = y0;
        while py < y1
            invariant
                y0 <= py,
                py <= y1 || py == y0,
                y1 <= before.height,
                x1 <= before.width,
                x <= x0 || x0 == before.width,
                y <= y0 || y0 == before.height,
                x1 <= x + src.width || x1 == 0,
                y1 <= y + src.height || y1 == 0,
                src.wf(),
                self.wf(),
                self.width == before.width,
                self.height == before.height,
                forall|qx: int, qy: int|
                    before.has(qx, qy) ==> #[trigger] self.pixel(qx, qy) == (if x0 <= qx < x1 && y0
                        <= qy < py && src.pixel(qx - x, qy - y).3 != 0 {
                        src.pixel(qx - x, qy - y)
                    } else {
                        before.pixel(qx, qy)
                    }),
            decreases y1 - py,
        {
            let mut px: u32 = x0;
            while px < x1
                invariant
                    x0 <= px,
                    px <= x1 || px == x0,
                    y0 <= py < y1,
                    y1 <= before.height,
                    x1 <= before.width,
                    x <= x0 || x0 == before.width,
                    y <= y0 || y0 == before.height,
                    x1 <= x + src.width || x1 == 0,
                    y1 <= y + src.height || y1 == 0,
                    src.wf(),
                    self.wf(),
                    self.width == before.width,
                    self.height == before.height,
                    forall|qx: int, qy: int|
                        before.has(qx, qy) ==> #[trigger] self.pixel(qx, qy) == (if ((x0 <= qx < x1
                            && y0 <= qy < py) || (x0 <= qx < px && qy == py)) && src.pixel(
                            qx - x,
                            qy - y,
                        ).3 != 0 {
                            src.pixel(qx - x, qy - y)
                        } else {
                            before.pixel(qx, qy)
                        }),
                decreases x1 - px,
            {
                let texel = src.get((px as i64 - x) as u32, (py as i64 - y) as u32);
                if texel[3] != 0 {
                    self.put(px, py, texel);
                }
                px = px + 1;
            }
            py = py + 1;
        }
    }
}

/// A coordinate held to the canvas.
fn clip(v: i128, most: u32) -> (r: u32)
    ensures
        r == (if v < 0 {
            0
        } else if v > most {
            most as int
        } else {
            v as int
        }),
{
    if v < 0 {
        0
    } else if v > most as i128 {
        most
    } else {
        v as u32
    }
}

/// The bytes of an image as a PNG file, or the words in which the encoder refuses
/// it.
pub uninterp spec fn png_file(width: u32, height: u32, pixels: Seq<u8>) -> Result<
    Seq<u8>,
    Seq<char>,
>;

/// Encodes an image by `png::Encoder`, as eight-bit RGBA with fast compression:
/// the header by `write_header` and the data by `write_image_data`. An image
/// without rows or columns is refused, and at the header; any other is encoded.
/// The outcome goes by the size and the bytes alone. A refusal says whether it
/// came at the header.
#[verifier::external_body]
fn write_png_file(width: u32, height: u32, pixels: &Vec<u8>) -> (r: Result<
    Vec<u8>,
    (bool, String),
>)
    requires
        pixels@.len() == width * height * 4,
    ensures
        match r {
            Ok(file) => png_file(width, height, pixels@) == Ok::<Seq<u8>, Seq<char>>(file@),
            Err((at_header, words)) => png_file(width, height, pixels@) == Err::<
                Seq<u8>,
                Seq<char>,
            >(words@) && at_header,
        },
        r is Err <==> width == 0 || height == 0,
{
    let mut out = Vec::new();
    let mut encoder = png::Encoder::new(&mut out, width, height);
    encoder.set_color(png::ColorType::Rgba);
    encoder.set_depth(png::BitDepth::Eight);
    encoder.set_compression(png::Compression::Fast);
    let mut writer = encoder.write_header().map_err(|error| (true, error.to_string()))?;
    writer.write_image_data(pixels).map_err(|error| (false, error.to_string()))?;
    drop(writer);
    Ok(out)
}

/// Encode a canvas as PNG. That fails exactly where it has no pixels.
pub fn encode_png(canvas: &Canvas) -> (r: Result<Vec<u8>, Error>)
    requires
        canvas.wf(),
    ensures
        match png_file(canvas.width, canvas.height, canvas.pixels@) {
            Ok(file) => r is Ok && r->Ok_0@ == file,
            Err(words) => failure(r) == Some("PNG header failed: "@ + words),
        },
        r is Err <==> canvas.width == 0 || canvas.height == 0,
{
    match write_png_file(canvas.width, canvas.height, &canvas.pixels) {
        Ok(file) => Ok(file),
        Err((at_header, words)) => {
            let mut text = if at_header {
                "PNG header failed: ".to_owned()
            } else {
                "PNG encoding failed: ".to_owned()
            };
            text.append(words.as_str());
            Err(Error::message(text))
        },
    }
}

/// A filled rectangle takes the pixels from its corner on, as many columns and rows as it is
/// wide and high, and leaves all others.
pub proof fn lemma_rect_fills_its_own(
    image: Image,
    x: int,
    y: int,
    w: int,
    h: int,
    pixel: Pixel,
    i: int,
    j: int,
)
    ensures
        0 <= i < w && 0 <= j < h ==> with_rect(image, x, y, w, h, pixel)(x + i, y + j) == pixel,
        i < 0 || i >= w || j < 0 || j >= h ==> with_rect(image, x, y, w, h, pixel)(x + i, y + j)
            == image(x + i, y + j),
{
}

/// A picture that is laid over an image brings each of its pixels that is not clear to the
/// place that it has in the picture, counted from where the picture is laid; the rest of the
/// image stays.
pub proof fn lemma_picture_keeps_its_pixels(
    image: Image,
    picture: Canvas,
    x: int,
    y: int,
    i: int,
    j: int,
)
    ensures
        0 <= i < picture.width && 0 <= j < picture.height && picture.pixel(i, j).3 != 0
            ==> with_picture(image, picture, x, y)(x + i, y + j) == picture.pixel(i, j),
        0 <= i < picture.width && 0 <= j < picture.height && picture.pixel(i, j).3 == 0
            ==> with_picture(image, picture, x, y)(x + i, y + j) == image(x + i, y + j),
        i < 0 || i >= picture.width || j < 0 || j >= picture.height ==> with_picture(
            image,
            picture,
            x,
            y,
        )(x + i, y + j) == image(x + i, y + j),
{
}

/// Pixels stand row by row in a canvas, four bytes each: red, green, blue and opacity, in this
/// order; and a canvas that is read gives them as they stand.
pub proof fn lemma_pixels_stand_row_by_row(canvas: &Canvas, x: u32, y: u32, r: [u8; 4], i: int)
    requires
        call_ensures(Canvas::get, (canvas, x, y), r),
        0 <= i < 4,
    ensures
        r@[i] == canvas.pixels@[4 * (y * canvas.width + x) + i],
{
    assert(i == 0 || i == 1 || i == 2 || i == 3);
}

} // verus!
