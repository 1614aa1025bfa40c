//! Drawing a mesh: a depth-buffered target, and which triangles and texels reach
//! it.
//!
//! With a resource pack the build arrives as triangles, so drawing it is an
//! ordinary z-buffered rasterization. Projecting and interpolating are a matter
//! of floating point; what is decided here is what a fragment does to its pixel.
//!
//! A depth is held as the bits of a positive single-precision number. For such
//! numbers the order of the bits is the order of the numbers, and infinity comes
//! after all others.

use vstd::prelude::*;
use crate::raster::{lemma_place_in_range, lemma_places_differ, pixel_of, place, Canvas, Pixel};
use crate::single::{
    grain, is_power, lemma_grain_divides, lemma_nearest_bound, lemma_single_is_near,
    lemma_single_keeps, nearest, round, round_ratio, single, single_ratio,
};

verus! {

/// Farther than anything can be: the bits of infinity.
pub const FARTHEST: u32 = 0x7f80_0000;

/// A pixel of a target: what was drawn there, and how far away it is.
pub struct Spot {
    pub color: Pixel,
    pub depth: u32,
}

/// What is drawn at one pixel of a triangle.
#[derive(Clone, Copy, Debug)]
pub struct Fragment {
    /// How far away it is.
    pub depth: u32,
    /// Its colour, lit.
    pub lit: [u8; 3],
    /// The opacity of its texel, where it has one.
    pub alpha: Option<u8>,
    /// Whether it belongs to a layer that blends with what is already drawn.
    pub blend: bool,
}

/// One in the units that opacities are counted in: 2 to the 31st.
pub open spec fn unit() -> nat {
    0x8000_0000
}

/// An opacity of `alpha` in 255 parts, in single precision.
pub open spec fn opacity(alpha: u8) -> nat {
    single_ratio((alpha * unit()) as nat, 255)
}

/// One channel of a blended colour: the weighted sum in single precision, cut to a
/// whole number.
pub open spec fn blended(under: u8, over: u8, alpha: u8) -> nat {
    let share = opacity(alpha);
    let rest = single((unit() - share) as nat);
    let sum = single(single((under * rest) as nat) + single((over * share) as nat)) / unit();
    if sum > 255 {
        255
    } else {
        sum
    }
}

/// A blended colour. Where nothing is drawn behind it, blending against the backdrop
/// would leave a faint square, so the texel's own colour is used at its own opacity.
pub open spec fn blended_pixel(under: Pixel, lit: [u8; 3], alpha: u8) -> Pixel {
    if under.3 == 0 {
        (lit@[0], lit@[1], lit@[2], alpha)
    } else {
        (
            blended(under.0, lit@[0], alpha) as u8,
            blended(under.1, lit@[1], alpha) as u8,
            blended(under.2, lit@[2], alpha) as u8,
            blended(under.3, 255, alpha) as u8,
        )
    }
}

/// A texel is drawn. In a blended layer all but a clear one are, and let what is
/// behind show through; in an alpha-tested one it is either drawn or discarded
/// outright.
pub open spec fn passes(alpha: u8, blend: bool) -> bool {
    if blend {
        alpha != 0
    } else {
        alpha >= 128
    }
}

/// A pixel once a fragment was drawn at it. A nearer one hides it. A fragment of a
/// blended layer leaves the depth as it is, so that it does not occlude what is
/// drawn behind it.
pub open spec fn overdrawn(spot: Spot, fragment: Fragment) -> Spot {
    if fragment.depth >= spot.depth || (fragment.alpha is Some && !passes(
        fragment.alpha->0,
        fragment.blend,
    )) {
        spot
    } else if fragment.blend {
        let alpha = if fragment.alpha is Some {
            fragment.alpha->0
        } else {
            255
        };
        Spot { color: blended_pixel(spot.color, fragment.lit, alpha), depth: spot.depth }
    } else {
        Spot {
            color: (fragment.lit@[0], fragment.lit@[1], fragment.lit@[2], 255),
            depth: fragment.depth,
        }
    }
}

/// Two fragments that do not blend, at different depths, may be drawn in either
/// order.
pub proof fn lemma_draw_order_does_not_matter(spot: Spot, a: Fragment, b: Fragment)
    requires
        !a.blend,
        !b.blend,
        a.depth != b.depth,
    ensures
        overdrawn(overdrawn(spot, a), b) == overdrawn(overdrawn(spot, b), a),
{
}

/// Drawing never makes a pixel farther away.
pub proof fn lemma_depth_never_grows(spot: Spot, fragment: Fragment)
    ensures
        overdrawn(spot, fragment).depth <= spot.depth,
{
}

/// A fragment that blends leaves the depth as it is.
pub proof fn lemma_blending_keeps_the_depth(spot: Spot, fragment: Fragment)
    requires
        fragment.blend,
    ensures
        overdrawn(spot, fragment).depth == spot.depth,
{
}

/// A fragment that blends at full opacity takes the pixel, and one at none leaves it.
pub proof fn lemma_blend_ends(under: u8, over: u8)
    ensures
        blended(under, over, 255) == over,
        blended(under, over, 0) == under,
{
    reveal_with_fuel(is_power, 17);
    assert(is_power(0x8000));
    assert(opacity(0) == 0) by {
        assert(grain(0) == 1);
        assert(nearest(0, 255) == 0);
    }
    assert(opacity(255) == unit()) by {
        reveal_with_fuel(grain, 10);
        assert(grain(0x8000_0000) == 256);
        assert((255u8 * unit()) as nat == 547608330240nat);
        assert(nearest(547608330240, 65280) == 547608330240);
    }
    lemma_single_keeps(unit(), 0x8000);
    lemma_single_keeps(0, 0x8000);
    lemma_single_keeps((under * unit()) as nat, 0x8000);
    lemma_single_keeps((over * unit()) as nat, 0x8000);
    let none = single(0);
    assert(under * none == 0 && over * none == 0) by (nonlinear_arith)
        requires
            none == 0,
    ;
}

/// An opacity is at most one.
proof fn lemma_opacity_bound(alpha: u8)
    ensures
        opacity(alpha) <= unit(),
{
    let n = (alpha * unit()) as nat;
    let g = grain(n / 255);
    reveal_with_fuel(is_power, 17);
    assert(is_power(256));
    assert(n / 255 <= unit());
    lemma_grain_divides(n / 255, 256);
    let step = 255 * g;
    let bound = 255 * unit();
    assert(bound % step == 0) by {
        let q = 256nat / g;
        vstd::arithmetic::div_mod::lemma_fundamental_div_mod(256, g as int);
        assert(bound == (q * 0x80_0000) * step) by (nonlinear_arith)
            requires
                256 == g * q,
                step == 255 * g,
                bound == 255 * 0x8000_0000,
        ;
        vstd::arithmetic::div_mod::lemma_mod_multiples_basic((q * 0x80_0000) as int, step as int);
    }
    lemma_nearest_bound(n, step, bound);
}

/// Blend one channel.
fn blend_channel(under: u8, over: u8, alpha: u8) -> (r: u8)
    ensures
        r == blended(under, over, alpha),
{
    proof {
        lemma_opacity_bound(alpha);
        reveal_with_fuel(is_power, 20);
        assert(is_power(0x8_0000));
    }
    let share: u64 = round_ratio(alpha as u64 * 0x8000_0000, 255);
    let rest: u64 = round(0x8000_0000 - share);
    proof {
        lemma_single_is_near((unit() - share) as nat, 0x8_0000);
        assert(0 <= under * rest <= 255 * (0x8000_0000 + 0x8_0000)) by (nonlinear_arith)
            requires
                0 <= under <= 255,
                0 <= rest <= 0x8000_0000 + 0x8_0000,
        ;
        assert(0 <= over * share <= 255 * 0x8000_0000) by (nonlinear_arith)
            requires
                0 <= over <= 255,
                0 <= share <= 0x8000_0000,
        ;
        lemma_single_is_near((under * rest) as nat, 0x8_0000);
        lemma_single_is_near((over * share) as nat, 0x8_0000);
    }
    let first: u64 = round(under as u64 * rest);
    let second: u64 = round(over as u64 * share);
    let sum: u64 = round(first + second) / 0x8000_0000;
    if sum > 255 {
        255
    } else {
        sum as u8
    }
}

/// An image being drawn into, with a depth buffer.
pub struct Target {
    pub width: u32,
    pub height: u32,
    pub color: Vec<[u8; 4]>,
    pub depth: Vec<u32>,
}

impl Target {
    /// The target has a colour and a depth for each pixel.
    pub open spec fn wf(self) -> bool {
        self.color@.len() == self.width * self.height && self.depth@.len() == self.width
            * self.height
    }

    /// A position lies on the target.
    pub open spec fn has(self, x: int, y: int) -> bool {
        0 <= x < self.width && 0 <= y < self.height
    }

    /// The pixel at a position.
    pub open spec fn spot(self, x: int, y: int) -> Spot {
        let i = place(self.width as int, x, y);
        Spot { color: pixel_of(self.color@[i]), depth: self.depth@[i] }
    }

    /// A target on which nothing is drawn.
    pub fn new(width: u32, height: u32) -> (r: Self)
        requires
            width * height * 4 <= isize::MAX,
        ensures
            r.wf(),
            r.width == width,
            r.height == height,
            forall|x: int, y: int|
                r.has(x, y) ==> #[trigger] r.spot(x, y) == (Spot {
                    color: (0u8, 0u8, 0u8, 0u8),
                    depth: FARTHEST,
                }),
    {
        proof {
            assert(0 <= width * height) by (nonlinear_arith)
                requires
                    0 <= width,
                    0 <= height,
            ;
        }
        let count: usize = (width as usize) * (height as usize);
        let mut color: Vec<[u8; 4]> = Vec::new();
        let mut depth: Vec<u32> = Vec::new();
        let mut i: usize = 0;
        while i < count
            invariant
                i <= count,
                color@.len() == i,
                depth@.len() == i,
                forall|k: int| 0 <= k < i ==> pixel_of(#[trigger] color@[k]) == (0u8, 0u8, 0u8, 0u8),
                forall|k: int| 0 <= k < i ==> #[trigger] depth@[k] == FARTHEST,
            decreases count - i,
        {
            color.push([0, 0, 0, 0]);
            depth.push(FARTHEST);
            i = i + 1;
        }
        let target = Target { width, height, color, depth };
        assert forall|x: int, y: int| target.has(x, y) implies #[trigger] target.spot(x, y) == (
        Spot { color: (0u8, 0u8, 0u8, 0u8), depth: FARTHEST }) by {
            lemma_place_in_range(width as int, height as int, x, y);
        }
        target
    }

    fn index(&self, x: u32, y: u32) -> (r: usize)
        requires
            self.wf(),
            self.has(x as int, y as int),
        ensures
            r == place(self.width as int, x as int, y as int),
            r < self.color@.len(),
            r < self.depth@.len(),
    {
        let size: usize = self.color.len();
        proof {
            lemma_place_in_range(self.width as int, self.height as int, x as int, y as int);
            assert(size == self.width * self.height);
        }
        (y as usize) * (self.width as usize) + x as usize
    }

    /// Whether a fragment is nearer than what is drawn at a pixel.
    pub fn is_nearer(&self, x: u32, y: u32, depth: u32) -> (r: bool)
        requires
            self.wf(),
            self.has(x as int, y as int),
        ensures
            r == (depth < self.spot(x as int, y as int).depth),
    {
        depth < self.depth[self.index(x, y)]
    }

    /// What is drawn at a pixel.
    pub fn under(&self, x: u32, y: u32) -> (r: [u8; 4])
        requires
            self.wf(),
            self.has(x as int, y as int),
        ensures
            pixel_of(r) == self.spot(x as int, y as int).color,
    {
        self.color[self.index(x, y)]
    }

    /// Draw a fragment.
    pub fn draw(&mut self, x: u32, y: u32, fragment: &Fragment)
        requires
            old(self).wf(),
            old(self).has(x as int, y as int),
        ensures
            final(self).wf(),
            final(self).width == old(self).width,
            final(self).height == old(self).height,
            forall|px: int, py: int|
                old(self).has(px, py) ==> #[trigger] final(self).spot(px, py) == (if px == x && py
                    == y {
                    overdrawn(old(self).spot(px, py), *fragment)
                } else {
                    old(self).spot(px, py)
                }),
    {
        let i: usize = self.index(x, y);
        let ghost before = *self;
        if fragment.depth >= self.depth[i] {
            return;
        }
        let alpha: u8 = match fragment.alpha {
            Some(alpha) => {
                if !texel_passes(alpha, fragment.blend) {
                    return;
                }
                alpha
            },
            None => 255,
        };
        if fragment.blend {
            let under = self.color[i];
            let mixed = if under[3] == 0 {
                [fragment.lit[0], fragment.lit[1], fragment.lit[2], alpha]
            } else {
                [
                    blend_channel(under[0], fragment.lit[0], alpha),
                    blend_channel(under[1], fragment.lit[1], alpha),
                    blend_channel(under[2], fragment.lit[2], alpha),
                    blend_channel(under[3], 255, alpha),
                ]
            };
            self.color.set(i, mixed);
        } else {
            self.depth.set(i, fragment.depth);
            self.color.set(i, [fragment.lit[0], fragment.lit[1], fragment.lit[2], 255]);
        }
        proof {
            lemma_one_spot(before, *self, x as int, y as int);
        }
    }

    /// Copy into a canvas, leaving untouched pixels transparent.
    pub fn into_canvas(self) -> (r: Canvas)
        requires
            self.wf(),
            self.width * self.height * 4 <= isize::MAX,
        ensures
            r.wf(),
            r.width == self.width,
            r.height == self.height,
            forall|x: int, y: int|
                self.has(x, y) ==> #[trigger] r.pixel(x, y) == (if self.spot(x, y).color.3 != 0 {
                    self.spot(x, y).color
                } else {
                    (0u8, 0u8, 0u8, 0u8)
                }),
    {
        let mut canvas = Canvas::new(self.width, self.height);
        let mut y: u32 = 0;
        while y < self.height
            invariant
                y <= self.height,
                self.wf(),
                canvas.wf(),
                canvas.width == self.width,
                canvas.height == self.height,
                forall|px: int, py: int|
                    self.has(px, py) ==> #[trigger] canvas.pixel(px, py) == (if py < y && self.spot(
                        px,
                        py,
                    ).color.3 != 0 {
                        self.spot(px, py).color
                    } else {
                        (0u8, 0u8, 0u8, 0u8)
                    }),
            decreases self.height - y,
        {
            let mut x: u32 = 0;
            while x < self.width
                invariant
                    x <= self.width,
                    y < self.height,
                    self.wf(),
                    canvas.wf(),
                    canvas.width == self.width,
                    canvas.height == self.height,
                    forall|px: int, py: int|
                        self.has(px, py) ==> #[trigger] canvas.pixel(px, py) == (if (py < y || (py
                            == y && px < x)) && self.spot(px, py).color.3 != 0 {
                            self.spot(px, py).color
                        } else {
                            (0u8, 0u8, 0u8, 0u8)
                        }),
                decreases self.width - x,
            {
                let texel = self.under(x, y);
                if texel[3] != 0 {
                    canvas.set(x, y, texel);
                }
                x = x + 1;
            }
            y = y + 1;
        }
        canvas
    }
}

proof fn lemma_one_spot(before: Target, after: Target, x: int, y: int)
    requires
        before.wf(),
        before.has(x, y),
        after.width == before.width,
        after.height == before.height,
        forall|i: int|
            0 <= i < before.color@.len() && i != place(before.width as int, x, y)
                ==> #[trigger] after.color@[i] == before.color@[i],
        forall|i: int|
            0 <= i < before.color@.len() && i != place(before.width as int, x, y)
                ==> #[trigger] after.depth@[i] == before.depth@[i],
    ensures
        forall|px: int, py: int|
            before.has(px, py) && !(px == x && py == y) ==> #[trigger] after.spot(px, py)
                == before.spot(px, py),
{
    assert forall|px: int, py: int|
        before.has(px, py) && !(px == x && py == y) implies #[trigger] after.spot(px, py)
        == before.spot(px, py) by {
        let w = before.width as int;
        lemma_place_in_range(w, before.height as int, px, py);
        if place(w, px, py) == place(w, x, y) {
            lemma_places_differ(w, px, py, x, y);
        }
    }
}

/// Whether a texel is drawn.
pub fn texel_passes(alpha: u8, blend: bool) -> (r: bool)
    ensures
        r == passes(alpha, blend),
{
    if blend {
        alpha != 0
    } else {
        alpha >= 128
    }
}

/// The whole triangles of an index list: the `k`th is made of its indices from
/// `3 * k` on.
pub open spec fn triangle_at(indices: Seq<u32>, k: int) -> (u32, u32, u32) {
    (indices[3 * k], indices[3 * k + 1], indices[3 * k + 2])
}

/// All corners of a triangle are there.
pub open spec fn has_corners(triangle: (u32, u32, u32), vertices: int) -> bool {
    triangle.0 < vertices && triangle.1 < vertices && triangle.2 < vertices
}

/// The triangles that are drawn of an index list: the first `n` whole ones, but
/// for those with a corner that is not there.
pub open spec fn drawable(indices: Seq<u32>, n: int, vertices: int) -> Seq<(u32, u32, u32)>
    decreases n,
{
    if n <= 0 {
        Seq::empty()
    } else if has_corners(triangle_at(indices, n - 1), vertices) {
        drawable(indices, n - 1, vertices).push(triangle_at(indices, n - 1))
    } else {
        drawable(indices, n - 1, vertices)
    }
}

/// The triangles that are drawn of a layer with the given indices and number of
/// vertices.
pub fn triangles(indices: &Vec<u32>, vertices: usize) -> (r: Vec<(u32, u32, u32)>)
    ensures
        r@ == drawable(indices@, indices@.len() as int / 3, vertices as int),
{
    let count: usize = indices.len() / 3;
    let mut out: Vec<(u32, u32, u32)> = Vec::new();
    let mut k: usize = 0;
    while k < count
        invariant
            k <= count,
            count == indices@.len() as int / 3,
            3 * count <= indices.len(),
            out@ == drawable(indices@, k as int, vertices as int),
        decreases count - k,
    {
        let a: u32 = indices[3 * k];
        let b: u32 = indices[3 * k + 1];
        let c: u32 = indices[3 * k + 2];
        if (a as usize) < vertices && (b as usize) < vertices && (c as usize) < vertices {
            out.push((a, b, c));
        }
        k = k + 1;
    }
    out
}

/// Where the colour of a vertex stands among those of its layer. One that has none there
/// is drawn in plain white.
pub fn color_source(vertex: u32, colors: usize) -> (r: Option<usize>)
    ensures
        r == (if vertex < colors {
            Some(vertex as usize)
        } else {
            None
        }),
{
    if (vertex as u64) < colors as u64 {
        Some(vertex as usize)
    } else {
        None
    }
}

/// Every triangle that is drawn has its corners.
pub proof fn lemma_drawable_has_corners(indices: Seq<u32>, n: int, vertices: int, i: int)
    requires
        0 <= i < drawable(indices, n, vertices).len(),
    ensures
        has_corners(drawable(indices, n, vertices)[i], vertices),
    decreases n,
{
    if n > 0 {
        let rest = drawable(indices, n - 1, vertices);
        if i < rest.len() {
            lemma_drawable_has_corners(indices, n - 1, vertices, i);
        }
    }
}

/// The indices of the triangles that are drawn of the first `n` whole ones, one after
/// another.
pub open spec fn usable(indices: Seq<u32>, n: int, vertices: int) -> Seq<u32>
    decreases n,
{
    if n <= 0 {
        Seq::empty()
    } else if has_corners(triangle_at(indices, n - 1), vertices) {
        let (a, b, c) = triangle_at(indices, n - 1);
        usable(indices, n - 1, vertices) + seq![a, b, c]
    } else {
        usable(indices, n - 1, vertices)
    }
}

/// Only the indices that come before count for the first triangles of a list.
proof fn lemma_drawable_of_start(indices: Seq<u32>, longer: Seq<u32>, n: int, vertices: int)
    requires
        0 <= 3 * n <= indices.len() <= longer.len(),
        forall|i: int| 0 <= i < indices.len() ==> longer[i] == #[trigger] indices[i],
    ensures
        drawable(longer, n, vertices) == drawable(indices, n, vertices),
    decreases n,
{
    if n > 0 {
        lemma_drawable_of_start(indices, longer, n - 1, vertices);
        assert(triangle_at(longer, n - 1) == triangle_at(indices, n - 1));
    }
}

proof fn lemma_usable_is_drawable(indices: Seq<u32>, n: int, vertices: int)
    ensures
        usable(indices, n, vertices).len() == 3 * drawable(indices, n, vertices).len(),
        drawable(
            usable(indices, n, vertices),
            drawable(indices, n, vertices).len() as int,
            vertices,
        ) == drawable(indices, n, vertices),
    decreases n,
{
    if n > 0 {
        lemma_usable_is_drawable(indices, n - 1, vertices);
        let rest = usable(indices, n - 1, vertices);
        let all = usable(indices, n, vertices);
        let count = drawable(indices, n - 1, vertices).len() as int;
        if has_corners(triangle_at(indices, n - 1), vertices) {
            lemma_drawable_of_start(rest, all, count, vertices);
            assert(triangle_at(all, count) == triangle_at(indices, n - 1));
        }
    }
}

/// Indices that make no triangle may as well not be there: without the triples that name a
/// missing corner, and without the one or two indices behind the last whole triple, the
/// same triangles are drawn.
pub proof fn lemma_unusable_indices_do_not_matter(indices: Seq<u32>, vertices: int)
    ensures
        ({
            let kept = usable(indices, indices.len() as int / 3, vertices);
            &&& kept.len() % 3 == 0
            &&& drawable(kept, kept.len() as int / 3, vertices) == drawable(
                indices,
                indices.len() as int / 3,
                vertices,
            )
        }),
{
    lemma_usable_is_drawable(indices, indices.len() as int / 3, vertices);
}

/// Which end of a cube along each axis a corner is at.
pub type Corner = (bool, bool, bool);

/// The four corners of a cube's face, in order around it. The faces towards
/// greater x, y and z come first, then those towards lesser.
pub open spec fn face_corners(face: int) -> Seq<Corner> {
    if face == 0 {
        seq![(true, false, false), (true, true, false), (true, true, true), (true, false, true)]
    } else if face == 1 {
        seq![(false, true, false), (false, true, true), (true, true, true), (true, true, false)]
    } else if face == 2 {
        seq![(false, false, true), (true, false, true), (true, true, true), (false, true, true)]
    } else if face == 3 {
        seq![(false, false, false), (false, true, false), (false, true, true), (false, false, true)]
    } else if face == 4 {
        seq![(false, false, false), (true, false, false), (true, false, true), (false, false, true)]
    } else {
        seq![(false, false, false), (false, true, false), (true, true, false), (true, false, false)]
    }
}

/// The coordinate of a corner along the axis of a face.
pub open spec fn along_face(face: int, corner: Corner) -> bool {
    if face % 3 == 0 {
        corner.0
    } else if face % 3 == 1 {
        corner.1
    } else {
        corner.2
    }
}

/// The corners of a face all lie in it, no two are the same, and each differs from
/// the next in one coordinate, so the two triangles of a face cover it.
pub proof fn lemma_faces_are_flat(face: int, i: int)
    requires
        0 <= face < 6,
        0 <= i < 4,
    ensures
        face_corners(face).len() == 4,
        along_face(face, face_corners(face)[i]) == (face < 3),
        face_corners(face).no_duplicates(),
        ({
            let a = face_corners(face)[i];
            let b = face_corners(face)[(i + 1) % 4];
            (a.0 != b.0 && a.1 == b.1 && a.2 == b.2) || (a.0 == b.0 && a.1 != b.1 && a.2 == b.2)
                || (a.0 == b.0 && a.1 == b.1 && a.2 != b.2)
        }),
{
}

/// The two triangles of each face of a cube: the first three of its corners, and
/// the first with the last two.
pub open spec fn cube_triangles() -> Seq<(Corner, Corner, Corner)> {
    Seq::new(
        12,
        |i: int|
            {
                let p = face_corners(i / 2);
                if i % 2 == 0 {
                    (p[0], p[1], p[2])
                } else {
                    (p[0], p[2], p[3])
                }
            },
    )
}

/// The corners of one face of a cube.
fn list_face(face: usize) -> (r: [Corner; 4])
    requires
        face < 6,
    ensures
        r@ == face_corners(face as int),
{
    let r: [Corner; 4] = if face == 0 {
        [(true, false, false), (true, true, false), (true, true, true), (true, false, true)]
    } else if face == 1 {
        [(false, true, false), (false, true, true), (true, true, true), (true, true, false)]
    } else if face == 2 {
        [(false, false, true), (true, false, true), (true, true, true), (false, true, true)]
    } else if face == 3 {
        [(false, false, false), (false, true, false), (false, true, true), (false, false, true)]
    } else if face == 4 {
        [(false, false, false), (true, false, false), (true, false, true), (false, false, true)]
    } else {
        [(false, false, false), (false, true, false), (true, true, false), (true, false, false)]
    };
    assert(r@ =~= face_corners(face as int));
    r
}

/// The triangles that a cube is drawn with.
pub fn cube() -> (r: Vec<(Corner, Corner, Corner)>)
    ensures
        r@ == cube_triangles(),
{
    let mut out: Vec<(Corner, Corner, Corner)> = Vec::new();
    let mut face: usize = 0;
    while face < 6
        invariant
            face <= 6,
            out@ == cube_triangles().take(2 * face),
        decreases 6 - face,
    {
        let p = list_face(face);
        out.push((p[0], p[1], p[2]));
        out.push((p[0], p[2], p[3]));
        assert(out@ =~= cube_triangles().take(2 * face + 2));
        face = face + 1;
    }
    assert(cube_triangles().take(12) =~= cube_triangles());
    out
}

/// The texel of an atlas nearest to a column and row, both clamped to its bounds.
/// White where there is none.
pub open spec fn nearest_texel(pixels: Seq<u8>, width: u32, height: u32, x: u32, y: u32) -> Pixel {
    if width == 0 || height == 0 {
        (255u8, 255u8, 255u8, 255u8)
    } else {
        let column = if x < width {
            x as int
        } else {
            width - 1
        };
        let row = if y < height {
            y as int
        } else {
            height - 1
        };
        let at = (row * width + column) * 4;
        if at + 4 <= pixels.len() {
            (pixels[at], pixels[at + 1], pixels[at + 2], pixels[at + 3])
        } else {
            (255u8, 255u8, 255u8, 255u8)
        }
    }
}

/// Nearest-texel sample from an atlas, clamped to its bounds.
///
/// An atlas has a margin around each tile, so clamping cannot pull in a
/// neighbouring texture.
pub fn sample_atlas(pixels: &Vec<u8>, width: u32, height: u32, x: u32, y: u32) -> (r: [u8; 4])
    ensures
        pixel_of(r) == nearest_texel(pixels@, width, height, x, y),
{
    if width == 0 || height == 0 {
        return [255, 255, 255, 255];
    }
    let column: u32 = if x < width {
        x
    } else {
        width - 1
    };
    let row: u32 = if y < height {
        y
    } else {
        height - 1
    };
    proof {
        assert(0 <= row * width <= 0xffff_ffff * 0xffff_ffff) by (nonlinear_arith)
            requires
                0 <= row <= 0xffff_ffff,
                0 <= width <= 0xffff_ffff,
        ;
    }
    let at: u128 = (row as u128 * width as u128 + column as u128) * 4;
    if at + 4 <= pixels.len() as u128 {
        let i: usize = at as usize;
        [pixels[i], pixels[i + 1], pixels[i + 2], pixels[i + 3]]
    } else {
        [255, 255, 255, 255]
    }
}

/// A fragment that does not blend takes its pixel exactly where it is nearer than what is
/// drawn there and at least half opaque: its colour stands there then, fully opaque, at its
/// depth. Otherwise nothing changes.
pub proof fn lemma_nearer_fragment_takes_the_pixel(spot: Spot, fragment: Fragment)
    requires
        !fragment.blend,
    ensures
        ({
            let after = overdrawn(spot, fragment);
            if fragment.depth < spot.depth && (fragment.alpha is None || fragment.alpha->0 >= 128) {
                &&& after.depth == fragment.depth
                &&& after.color == (
                    fragment.lit@[0],
                    fragment.lit@[1],
                    fragment.lit@[2],
                    255u8,
                )
            } else {
                after == spot
            }
        }),
{
}

/// A fragment that blends over a clear pixel is drawn in its own colour at its own opacity;
/// one that is hidden or clear itself changes nothing.
pub proof fn lemma_blend_over_nothing_is_the_fragment(spot: Spot, fragment: Fragment)
    requires
        fragment.blend,
    ensures
        ({
            let after = overdrawn(spot, fragment);
            let alpha = if fragment.alpha is Some {
                fragment.alpha->0
            } else {
                255u8
            };
            &&& after.depth == spot.depth
            &&& fragment.depth >= spot.depth || alpha == 0 ==> after == spot
            &&& fragment.depth < spot.depth && alpha > 0 && spot.color.3 == 0 ==> after.color == (
                fragment.lit@[0],
                fragment.lit@[1],
                fragment.lit@[2],
                alpha,
            )
        }),
{
}

/// Of the triangles of a layer those are drawn that have all their corners, in their order:
/// each three indices in a row are a triangle, from the first on.
pub proof fn lemma_whole_triangles_are_drawn(
    indices: &Vec<u32>,
    vertices: usize,
    r: Vec<(u32, u32, u32)>,
)
    requires
        call_ensures(triangles, (indices, vertices), r),
    ensures
        r@ == Seq::new(
            (indices@.len() / 3) as nat,
            |k: int| (indices@[3 * k], indices@[3 * k + 1], indices@[3 * k + 2]),
        ).filter(
            |t: (u32, u32, u32)| t.0 < vertices && t.1 < vertices && t.2 < vertices,
        ),
{
    lemma_drawable_is_filtered(indices@, indices@.len() as int / 3, vertices as int);
    let listed = |t: (u32, u32, u32)| t.0 < vertices && t.1 < vertices && t.2 < vertices;
    let all = vertices as int;
    let shown = |t: (u32, u32, u32)| t.0 < all && t.1 < all && t.2 < all;
    assert(listed =~= shown);
    assert(Seq::new(
        (indices@.len() / 3) as nat,
        |k: int| (indices@[3 * k], indices@[3 * k + 1], indices@[3 * k + 2]),
    ) =~= Seq::new(
        (indices@.len() as int / 3) as nat,
        |k: int| (indices@[3 * k], indices@[3 * k + 1], indices@[3 * k + 2]),
    ));
}

proof fn lemma_drawable_is_filtered(indices: Seq<u32>, n: int, vertices: int)
    requires
        0 <= n,
    ensures
        drawable(indices, n, vertices) == Seq::new(
            n as nat,
            |k: int| (indices[3 * k], indices[3 * k + 1], indices[3 * k + 2]),
        ).filter(|t: (u32, u32, u32)| t.0 < vertices && t.1 < vertices && t.2 < vertices),
    decreases n,
{
    reveal(Seq::filter);
    let all = Seq::new(
        n as nat,
        |k: int| (indices[3 * k], indices[3 * k + 1], indices[3 * k + 2]),
    );
    if n > 0 {
        lemma_drawable_is_filtered(indices, n - 1, vertices);
        assert(all.drop_last() =~= Seq::new(
            (n - 1) as nat,
            |k: int| (indices[3 * k], indices[3 * k + 1], indices[3 * k + 2]),
        ));
    }
}

/// The triangles of a cube cover its six faces, two on each, in the order of the faces: the
/// corners of each lie in one face, and the two triangles of a face share one of its diagonals
/// and have its four corners between them.
pub proof fn lemma_cube_has_six_faces(r: Vec<(Corner, Corner, Corner)>, face: int)
    requires
        call_ensures(cube, (), r),
        0 <= face < 6,
    ensures
        r@.len() == 12,
        ({
            let (a, b, c) = r@[2 * face];
            let (d, e, f) = r@[2 * face + 1];
            let near = |corner: Corner|
                if face % 3 == 0 {
                    corner.0
                } else if face % 3 == 1 {
                    corner.1
                } else {
                    corner.2
                };
            &&& near(a) == (face < 3) && near(b) == (face < 3) && near(c) == (face < 3)
            &&& near(d) == (face < 3) && near(e) == (face < 3) && near(f) == (face < 3)
            &&& a == d && c == e
            &&& a != b && a != c && b != c && f != a && f != b && f != c
        }),
{
}

/// An atlas is read at the texel of a column and a row, row by row, and at its edge where
/// either lies past it; where it has no such texel it is white.
pub proof fn lemma_atlas_is_read_row_by_row(
    pixels: &Vec<u8>,
    width: u32,
    height: u32,
    x: u32,
    y: u32,
    r: [u8; 4],
    i: int,
)
    requires
        call_ensures(sample_atlas, (pixels, width, height, x, y), r),
        0 <= i < 4,
        pixels@.len() == 4 * width * height,
    ensures
        x < width && y < height ==> r@[i] == pixels@[4 * (y * width + x) + i],
        x >= width && width > 0 && y < height ==> r@[i] == pixels@[4 * (y * width + width - 1)
            + i],
        x < width && y >= height && height > 0 ==> r@[i] == pixels@[4 * ((height - 1) * width + x)
            + i],
        width == 0 || height == 0 ==> r@[i] == 255,
{
    assert(i == 0 || i == 1 || i == 2 || i == 3);
    if width > 0 && height > 0 {
        let column = if x < width {
            x as int
        } else {
            width - 1
        };
        let row = if y < height {
            y as int
        } else {
            height - 1
        };
        assert(row * width + column + 1 <= width * height) by (nonlinear_arith)
            requires
                0 <= row <= height - 1,
                0 <= column <= width - 1,
        ;
        assert(4 * width * height == 4 * (width * height)) by (nonlinear_arith);
    }
}

/// A channel is mixed of two: as many parts in 255 of the upper one as the opacity says, and
/// the rest of the lower one, cut to a whole number.
pub open spec fn is_mix(mixed: int, under: u8, over: u8, alpha: u8) -> bool {
    under * (255 - alpha) + over * alpha - 255 <= 255 * mixed <= under * (255 - alpha) + over
        * alpha
}

#[verifier::rlimit(60)]
proof fn lemma_opacity_is_near(alpha: u8)
    ensures
        -65280 <= 255 * opacity(alpha) - alpha * unit() <= 65280,
{
    let n = (alpha * unit()) as nat;
    let g = grain(n / 255);
    reveal_with_fuel(is_power, 17);
    assert(is_power(256));
    assert(n / 255 <= unit());
    lemma_grain_divides(n / 255, 256);
    assert(1 <= g <= 256) by {
        vstd::arithmetic::div_mod::lemma_fundamental_div_mod(256, g as int);
        assert(g <= 256) by (nonlinear_arith)
            requires
                256 == g * (256nat / g),
                g > 0,
        ;
    }
    let step = 255 * g;
    let near = nearest(n, step);
    let q = n / step;
    vstd::arithmetic::div_mod::lemma_fundamental_div_mod(n as int, step as int);
    assert(step * q == q * step) by (nonlinear_arith);
    assert((q + 1) * step == q * step + step) by (nonlinear_arith);
    assert(near == q * step || near == (q + 1) * step);
    let m = if near == q * step {
        q
    } else {
        q + 1
    };
    assert(near == (m * g) * 255) by (nonlinear_arith)
        requires
            near == m * step,
            step == 255 * g,
    ;
    vstd::arithmetic::div_mod::lemma_div_multiples_vanish((m * g) as int, 255);
    assert(opacity(alpha) == m * g) by {
        assert(near / 255 == m * g);
    }
    assert(255 * (m * g) == near) by (nonlinear_arith)
        requires
            near == (m * g) * 255,
    ;
}

/// A blended channel is mixed of the two in the parts that the opacity says.
#[verifier::rlimit(60)]
pub proof fn lemma_blended_is_a_mix(under: u8, over: u8, alpha: u8)
    ensures
        is_mix(blended(under, over, alpha) as int, under, over, alpha),
{
    let (u, o, a) = (under as int, over as int, alpha as int);
    let s = opacity(alpha) as int;
    let t = single((unit() - s) as nat) as int;
    let whole = 0x8000_0000int;
    lemma_opacity_bound(alpha);
    lemma_opacity_is_near(alpha);
    reveal_with_fuel(is_power, 18);
    assert(is_power(256) && is_power(0x8000) && is_power(0x1_0000));
    lemma_single_is_near((unit() - s) as nat, 256);
    assert(0 <= u * t <= 255 * (0x8000_0000 + 256)) by (nonlinear_arith)
        requires
            0 <= u <= 255,
            0 <= t <= 0x8000_0000 + 256,
    ;
    assert(0 <= o * s <= 255 * 0x8000_0000) by (nonlinear_arith)
        requires
            0 <= o <= 255,
            0 <= s <= 0x8000_0000,
    ;
    lemma_single_is_near((under * t) as nat, 0x8000);
    lemma_single_is_near((over * s) as nat, 0x8000);
    let first = single((under * t) as nat) as int;
    let second = single((over * s) as nat) as int;
    lemma_single_is_near((first + second) as nat, 0x1_0000);
    let sum = single((first + second) as nat) as int;
    let e = t - (whole - s);
    assert(u * t == u * (whole - s) + u * e) by (nonlinear_arith)
        requires
            t == (whole - s) + e,
    ;
    assert(-65280 <= u * e <= 65280) by (nonlinear_arith)
        requires
            0 <= u <= 255,
            -256 <= e <= 256,
    ;
    let exact = u * (whole - s) + o * s;
    assert(-196352 <= sum - exact <= 196352);
    let f = 255 * s - a * whole;
    let x = u * (255 - a) + o * a;
    let gap = o - u;
    assert(exact == u * whole + gap * s) by (nonlinear_arith)
        requires
            exact == u * (whole - s) + o * s,
            gap == o - u,
    ;
    assert(x == 255 * u + gap * a) by (nonlinear_arith)
        requires
            x == u * (255 - a) + o * a,
            gap == o - u,
    ;
    assert(gap * f == 255 * (gap * s) - (gap * a) * whole) by (nonlinear_arith)
        requires
            f == 255 * s - a * whole,
    ;
    let part = gap * a;
    assert(whole * x == 255 * (u * whole) + part * whole) by (nonlinear_arith)
        requires
            x == 255 * u + part,
    ;
    assert(255 * exact == whole * x + gap * f);
    assert(-16646400 <= (o - u) * f <= 16646400) by (nonlinear_arith)
        requires
            -255 <= o - u <= 255,
            -65280 <= f <= 65280,
    ;
    let b = sum / whole;
    assert(255 * b <= x) by (nonlinear_arith)
        requires
            255 * sum <= whole * x + 66716160,
            b == sum / whole,
            whole == 0x8000_0000,
    ;
    assert(x - 255 <= 255 * b) by (nonlinear_arith)
        requires
            255 * sum >= whole * x - 66716160,
            b == sum / whole,
            whole == 0x8000_0000,
    ;
    assert(x <= 255 * 255) by (nonlinear_arith)
        requires
            x == u * (255 - a) + o * a,
            0 <= u <= 255,
            0 <= o <= 255,
            0 <= a <= 255,
    ;
    assert(blended(under, over, alpha) == b);
}

/// A fragment that blends over what is drawn mixes each channel with the one below it by its
/// opacity.
pub proof fn lemma_blend_mixes_by_opacity(spot: Spot, fragment: Fragment)
    requires
        fragment.blend,
        fragment.depth < spot.depth,
        spot.color.3 != 0,
        fragment.alpha matches Some(alpha) ==> alpha > 0,
    ensures
        ({
            let after = overdrawn(spot, fragment).color;
            let alpha = if fragment.alpha is Some {
                fragment.alpha->0
            } else {
                255u8
            };
            &&& is_mix(after.0 as int, spot.color.0, fragment.lit@[0], alpha)
            &&& is_mix(after.1 as int, spot.color.1, fragment.lit@[1], alpha)
            &&& is_mix(after.2 as int, spot.color.2, fragment.lit@[2], alpha)
            &&& is_mix(after.3 as int, spot.color.3, 255, alpha)
        }),
{
    let alpha = if fragment.alpha is Some {
        fragment.alpha->0
    } else {
        255u8
    };
    lemma_blended_is_a_mix(spot.color.0, fragment.lit@[0], alpha);
    lemma_blended_is_a_mix(spot.color.1, fragment.lit@[1], alpha);
    lemma_blended_is_a_mix(spot.color.2, fragment.lit@[2], alpha);
    lemma_blended_is_a_mix(spot.color.3, 255, alpha);
}

/// A texel of a blended layer is drawn unless it is clear, and one of any other layer where it
/// is at least half opaque.
pub proof fn lemma_texels_pass_by_opacity(alpha: u8, blended: bool, tested: bool)
    requires
        call_ensures(texel_passes, (alpha, true), blended),
        call_ensures(texel_passes, (alpha, false), tested),
    ensures
        blended <==> alpha > 0,
        tested <==> alpha >= 128,
        tested ==> blended,
{
}

/// A vertex has the colour at its own place among those of its layer, where there is one.
pub proof fn lemma_vertex_has_its_own_color(vertex: u32, colors: usize, r: Option<usize>)
    requires
        call_ensures(color_source, (vertex, colors), r),
    ensures
        r matches Some(i) ==> i == vertex && i < colors,
        r is None ==> vertex >= colors,
{
}

} // verus!
