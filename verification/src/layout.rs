//! The composited image: panels side by side, each with a caption above the build
//! it names.
//!
//! Everything the terminal shows — the two builds, the changed cells, and the
//! captions naming them — is one picture, because the kitty protocol places one
//! image over one rectangle of cells. Nothing is aligned by hand afterwards.
//!
//! Drawing a build takes a renderer, so composing is in two steps: each panel is
//! planned, which says how large its picture is to be, and the pictures are then
//! put together.

use vstd::prelude::*;
use crate::font::{draw, lemma_text_keeps_to_its_width, lit, text_width, with_text, Font};
use crate::raster::{opaque, plain, with_picture, with_rect, Canvas, Image, Pixel};
use crate::render::Bounds;
use crate::text::{characters, collect};

verus! {

/// Colours of the composited image.
pub struct Theme {
    /// Fills the whole image; shows through wherever a ray hit nothing.
    pub background: [u8; 3],
    /// The rule drawn between panels.
    pub divider: [u8; 3],
}

impl Default for Theme {
    fn default() -> (r: Self)
        ensures
            r.background@ == seq![18u8, 20u8, 24u8],
            r.divider@ == seq![58u8, 63u8, 72u8],
    {
        let theme = Theme { background: [18, 20, 24], divider: [58, 63, 72] };
        assert(theme.background@ =~= seq![18u8, 20u8, 24u8]);
        assert(theme.divider@ =~= seq![58u8, 63u8, 72u8]);
        theme
    }
}

/// A run of caption text drawn in one colour.
///
/// A legend is built from these so each category is named in the same colour as
/// the blocks it stands for, which is the only thing that tells a reader what a
/// cyan block means.
pub struct Segment {
    pub text: String,
    pub color: [u8; 3],
}

impl Segment {
    pub fn new(text: String, color: [u8; 3]) -> (r: Self)
        ensures
            r.text@ == text@,
            r.color == color,
    {
        Segment { text, color }
    }
}

/// One column of the composite: a caption, and the build it names.
pub struct Panel<P> {
    pub caption: Vec<Segment>,
    pub picture: P,
}

impl<P> Panel<P> {
    /// A panel whose caption is a single colour.
    pub fn new(caption: String, color: [u8; 3], picture: P) -> (r: Self)
        ensures
            r.caption@.len() == 1,
            r.caption@[0].text@ == caption@,
            r.caption@[0].color == color,
            r.picture == picture,
    {
        let mut segments: Vec<Segment> = Vec::new();
        segments.push(Segment::new(caption, color));
        Panel { caption: segments, picture }
    }

    /// A panel whose caption is a coloured legend, one segment per category.
    pub fn legend(caption: Vec<Segment>, picture: P) -> (r: Self)
        ensures
            r.caption == caption,
            r.picture == picture,
    {
        Panel { caption, picture }
    }
}

/// The geometry every panel of one composite shares.
pub struct Layout {
    /// The pixel area the whole composite occupies, which is exactly the cells
    /// the image is placed over.
    pub width: u32,
    pub height: u32,
    /// Pixel size of one terminal cell, which sets the caption text size.
    pub cell_px: (u32, u32),
    /// The extent every panel is framed to. Shared so a build that grew actually
    /// looks bigger; framing each panel to its own bounds would rescale the two
    /// sides independently and hide the size change being inspected.
    pub frame: Bounds,
}

/// The narrowest a panel may be before the layout drops one.
pub const MIN_PANEL_PIXELS: u32 = 360;

/// Whether panels of at least [`MIN_PANEL_PIXELS`] fit across `width`.
pub fn fits(width: u32, panels: u32) -> (r: bool)
    ensures
        r == (width >= 360 * panels),
{
    width as u64 >= 360 * panels as u64
}

/// The width of one of `count` panels. The remainder of the division is spread
/// over the leading panels so the composite uses the full width instead of
/// leaving a seam at the right edge.
pub open spec fn panel_width(width: int, count: int, index: int) -> int {
    width / count + if index < width % count {
        1int
    } else {
        0
    }
}

/// Where one of `count` panels starts.
pub open spec fn panel_left(width: int, count: int, index: int) -> int {
    index * (width / count) + if index < width % count {
        index
    } else {
        width % count
    }
}

/// The panels lie side by side without a gap, the first at the left edge and the
/// last up to the right one.
pub proof fn lemma_panels_tile(width: int, count: int, index: int)
    requires
        width >= 0,
        count > 0,
        0 <= index < count,
    ensures
        panel_left(width, count, 0) == 0,
        panel_left(width, count, index + 1) == panel_left(width, count, index) + panel_width(
            width,
            count,
            index,
        ),
        panel_left(width, count, count) == width,
        0 <= panel_left(width, count, index) <= width,
        0 <= panel_width(width, count, index),
        panel_left(width, count, index) + panel_width(width, count, index) <= width,
{
    let base = width / count;
    let rest = width % count;
    assert(base >= 0 && 0 <= rest < count && width == count * base + rest) by (nonlinear_arith)
        requires
            width >= 0,
            count > 0,
            base == width / count,
            rest == width % count,
    ;
    assert((index + 1) * base == index * base + base) by (nonlinear_arith);
    assert(0 <= index * base && (index + 1) * base <= count * base) by (nonlinear_arith)
        requires
            base >= 0,
            0 <= index < count,
    ;
}

/// No panel is more than a pixel wider than another.
pub proof fn lemma_panels_are_even(width: int, count: int, i: int, j: int)
    ensures
        panel_width(width, count, i) - panel_width(width, count, j) <= 1,
{
}

/// The number of characters in a caption.
pub open spec fn caption_length(caption: Seq<Segment>) -> nat
    decreases caption.len(),
{
    if caption.len() == 0 {
        0
    } else {
        caption_length(caption.drop_last()) + caption.last().text@.len()
    }
}

/// The largest scale that is considered: what makes a character about as wide as
/// a terminal cell, from one to four.
pub open spec fn scale_ceiling(cell_width: int) -> int {
    if cell_width / 6 < 1 {
        1
    } else if cell_width / 6 > 4 {
        4
    } else {
        cell_width / 6
    }
}

/// A text of `length` characters fits into a panel at a scale.
pub open spec fn fits_at(length: int, width: int, scale: int) -> bool {
    text_width(length, scale) <= (if width >= 2 {
        width - 2
    } else {
        0
    })
}

/// The largest scale up to `most` at which a text fits; one where none does.
pub open spec fn best_scale(length: int, width: int, most: int) -> int
    decreases most,
{
    if most <= 1 || fits_at(length, width, most) {
        if most <= 1 {
            1
        } else {
            most
        }
    } else {
        best_scale(length, width, most - 1)
    }
}

/// The scale of a caption in a panel.
pub open spec fn scale_of(caption: Seq<Segment>, width: int, cell_width: int) -> int {
    if caption_length(caption) == 0 {
        1
    } else {
        best_scale(caption_length(caption) as int, width, scale_ceiling(cell_width))
    }
}

/// A caption's scale is the largest one at which it fits: any larger one up to
/// the ceiling is too large.
pub proof fn lemma_scale_is_largest(length: int, width: int, most: int, scale: int)
    requires
        best_scale(length, width, most) < scale <= most,
    ensures
        !fits_at(length, width, scale),
    decreases most,
{
    if most > 1 && !fits_at(length, width, most) && scale < most {
        lemma_scale_is_largest(length, width, most - 1, scale);
    }
}

/// A caption's scale is at least one and no larger than the ceiling, and the caption
/// fits at any but the smallest, which is taken where none is small enough.
pub proof fn lemma_scale_fits(length: int, width: int, most: int)
    ensures
        1 <= best_scale(length, width, most),
        best_scale(length, width, most) <= most || best_scale(length, width, most) == 1,
        best_scale(length, width, most) > 1 ==> fits_at(
            length,
            width,
            best_scale(length, width, most),
        ),
    decreases most,
{
    if most > 1 && !fits_at(length, width, most) {
        lemma_scale_fits(length, width, most - 1);
    }
}

/// The largest font scale at which `caption` fits inside a panel `width` wide.
///
/// The ceiling comes from the terminal's own cell width, so caption text ends up
/// about the same size as the terminal's text rather than being scaled by a
/// constant that only suits one font size.
pub fn caption_scale(caption: &Vec<Segment>, width: u32, cell_width_px: u32) -> (r: u32)
    ensures
        r == scale_of(caption@, width as int, cell_width_px as int),
        1 <= r <= 4,
{
    let mut length: u128 = 0;
    let mut i: usize = 0;
    assert(caption@.take(0) =~= Seq::empty());
    while i < caption.len()
        invariant
            i <= caption.len(),
            length == caption_length(caption@.take(i as int)),
            length <= i * usize::MAX,
        decreases caption.len() - i,
    {
        let letters = characters(caption[i].text.as_str());
        let count: usize = letters.len();
        proof {
            assert(caption@.take(i + 1).drop_last() =~= caption@.take(i as int));
            assert((i + 1) * usize::MAX == i * usize::MAX + usize::MAX) by (nonlinear_arith);
            assert(i * usize::MAX <= usize::MAX * usize::MAX) by (nonlinear_arith)
                requires
                    0 <= i <= usize::MAX,
            ;
            assert(usize::MAX * usize::MAX + usize::MAX <= u128::MAX) by {
                assert(usize::MAX <= 0xffff_ffff_ffff_ffff);
                assert(usize::MAX * usize::MAX <= 0xffff_ffff_ffff_ffff * 0xffff_ffff_ffff_ffff)
                    by (nonlinear_arith)
                    requires
                        0 <= usize::MAX <= 0xffff_ffff_ffff_ffff,
                ;
            }
        }
        length = length + count as u128;
        i = i + 1;
    }
    assert(caption@.take(i as int) =~= caption@);
    if length == 0 {
        return 1;
    }
    let available: u32 = if width >= 2 {
        width - 2
    } else {
        0
    };
    let by_cell: u32 = cell_width_px / 6;
    let ceiling: u32 = if by_cell < 1 {
        1
    } else if by_cell > 4 {
        4
    } else {
        by_cell
    };
    let ghost full = best_scale(length as int, width as int, ceiling as int);
    let mut scale: u32 = ceiling;
    while scale > 1
        invariant
            1 <= scale <= 4,
            length > 0,
            available == (if width >= 2 {
                width - 2
            } else {
                0
            }),
            length == caption_length(caption@),
            full == best_scale(length as int, width as int, scale as int),
            full == scale_of(caption@, width as int, cell_width_px as int),
        decreases scale,
    {
        // A text of more than four thousand million characters fits nowhere.
        let small = length <= 0xffff_ffff;
        assert(!small ==> text_width(length as int, scale as int) > available) by {
            assert((6 * length - 1) * scale >= 6 * length - 1) by (nonlinear_arith)
                requires
                    scale >= 1,
                    length >= 1,
            ;
        }
        if small {
            assert(0 <= (6 * length - 1) * scale <= 6 * 0xffff_ffff * 4) by (nonlinear_arith)
                requires
                    1 <= length <= 0xffff_ffff,
                    1 <= scale <= 4,
            ;
            if (6 * length as u64 - 1) * scale as u64 <= available as u64 {
                return scale;
            }
        }
        scale = scale - 1;
    }
    1
}

/// How many characters fit in `width` pixels at a scale.
pub open spec fn fitting(width: int, scale: int) -> int {
    (width / scale + 1) / 6
}

/// The longest prefix of a text whose glyphs fit in `width` pixels.
pub open spec fn clipped(text: Seq<char>, width: int, scale: int) -> Seq<char> {
    if scale == 0 {
        Seq::empty()
    } else if fitting(width, scale) <= text.len() {
        text.take(fitting(width, scale))
    } else {
        text
    }
}

/// A clipped text fits, and is the longest prefix that does: one more character
/// would not.
pub proof fn lemma_clip_is_longest(text: Seq<char>, width: int, scale: int)
    requires
        width >= 0,
        scale > 0,
    ensures
        clipped(text, width, scale).len() > 0 ==> text_width(
            clipped(text, width, scale).len() as int,
            scale,
        ) <= width,
        clipped(text, width, scale).len() < text.len() ==> text_width(
            (clipped(text, width, scale).len() + 1) as int,
            scale,
        ) > width,
{
    let q = width / scale;
    let n = (q + 1) / 6;
    assert(scale * q <= width < scale * q + scale && q >= 0) by (nonlinear_arith)
        requires
            q == width / scale,
            scale > 0,
            width >= 0,
    ;
    let k = clipped(text, width, scale).len() as int;
    assert(k <= n);
    assert((6 * k - 1) * scale <= scale * q) by (nonlinear_arith)
        requires
            6 * k - 1 <= q,
            scale > 0,
    ;
    if k < text.len() {
        assert(k == n);
        assert((6 * (k + 1) - 1) * scale >= scale * q + scale) by (nonlinear_arith)
            requires
                6 * (k + 1) - 1 >= q + 1,
                scale > 0,
        ;
    }
}

/// The longest prefix of `text` whose glyphs fit in `width` pixels.
///
/// A file name can be arbitrarily long, so a caption can be wider than the panel
/// it belongs to. Trimming to fit keeps it inside the panel instead of running
/// into the next one.
pub fn clip_to_width(text: &str, width: u32, scale: u32) -> (r: String)
    ensures
        r@ == clipped(text@, width as int, scale as int),
{
    if scale == 0 {
        return String::new();
    }
    let fit: u64 = ((width / scale) as u64 + 1) / 6;
    let letters = characters(text);
    if fit <= letters.len() as u64 {
        let r = collect(&letters, 0, fit as usize);
        assert(letters@.subrange(0, fit as int) =~= text@.take(fit as int));
        r
    } else {
        text.to_owned()
    }
}

/// What is decided of a panel before its picture is drawn.
#[derive(Clone, Copy, Debug, PartialEq, Eq)]
pub struct Plan {
    /// Where the panel starts.
    pub left: u32,
    pub width: u32,
    /// The scale of the caption.
    pub scale: u32,
    /// The height of the band that the caption stands in.
    pub band: u32,
    /// The height that is left for the picture.
    pub body_height: u32,
}

/// A plan is that of a panel.
pub open spec fn is_plan(
    plan: Plan,
    caption: Seq<Segment>,
    index: int,
    count: int,
    layout: Layout,
) -> bool {
    &&& plan.left == panel_left(layout.width as int, count, index)
    &&& plan.width == panel_width(layout.width as int, count, index)
    &&& plan.scale == scale_of(caption, plan.width as int, layout.cell_px.0 as int)
    &&& plan.band == 9 * plan.scale
    &&& plan.body_height == (if layout.height >= plan.band {
        layout.height - plan.band
    } else {
        0
    })
}

/// Plan one of `count` panels.
pub fn plan_panel(caption: &Vec<Segment>, index: u32, count: u32, layout: &Layout) -> (r: Plan)
    requires
        index < count,
    ensures
        is_plan(r, caption@, index as int, count as int, *layout),
        1 <= r.scale <= 4,
        r.left + r.width <= layout.width,
{
    let base: u32 = layout.width / count;
    let remainder: u32 = layout.width % count;
    proof {
        lemma_panels_tile(layout.width as int, count as int, index as int);
        assert(0 <= index * base <= layout.width) by (nonlinear_arith)
            requires
                0 <= index < count,
                base == layout.width as int / count as int,
                count > 0,
                0 <= layout.width,
        ;
    }
    let left: u32 = index * base + if index < remainder {
        index
    } else {
        remainder
    };
    let width: u32 = base + if index < remainder {
        1
    } else {
        0
    };
    let scale: u32 = caption_scale(caption, width, layout.cell_px.0);
    let band: u32 = 9 * scale;
    let body_height: u32 = if layout.height >= band {
        layout.height - band
    } else {
        0
    };
    Plan { left, width, scale, band, body_height }
}

/// An image with a caption drawn over it from the `k`th segment on.
pub open spec fn with_caption(
    image: Image,
    font: Font,
    caption: Seq<Segment>,
    k: int,
    cursor: int,
    limit: int,
    scale: int,
) -> Image
    decreases caption.len() - k,
{
    if k >= caption.len() || limit - cursor <= 0 {
        image
    } else {
        let text = clipped(caption[k].text@, limit - cursor, scale);
        with_caption(
            with_text(image, font, text, cursor, scale, scale, caption[k].color),
            font,
            caption,
            k + 1,
            cursor + 6 * scale * text.len(),
            limit,
            scale,
        )
    }
}

/// An image with the rule at the right edge of a panel: clear in the caption's
/// band, and in the divider's colour below.
pub open spec fn with_divider(image: Image, edge: int, plan: Plan, theme: Theme) -> Image {
    with_rect(
        with_rect(image, edge - 1, 0, 1, plan.band as int, (0u8, 0u8, 0u8, 0u8)),
        edge - 1,
        plan.band as int,
        1,
        plan.body_height as int,
        opaque(theme.divider),
    )
}

/// An image with a panel drawn over it.
pub open spec fn with_panel(
    image: Image,
    font: Font,
    panel: Panel<Canvas>,
    plan: Plan,
    last: bool,
    theme: Theme,
) -> Image {
    let named = with_caption(
        image,
        font,
        panel.caption@,
        0,
        plan.left + plan.scale,
        plan.left + plan.width - plan.scale,
        plan.scale as int,
    );
    let pictured = with_picture(named, panel.picture, plan.left as int, plan.band as int);
    if last {
        pictured
    } else {
        with_divider(pictured, plan.left + plan.width, plan, theme)
    }
}

/// A caption, however long, stays between where it starts and its limit.
pub proof fn lemma_caption_stays_inside(
    image: Image,
    font: Font,
    caption: Seq<Segment>,
    k: int,
    cursor: int,
    limit: int,
    scale: int,
    px: int,
    py: int,
)
    requires
        scale > 0,
        px < cursor || px >= limit,
    ensures
        with_caption(image, font, caption, k, cursor, limit, scale)(px, py) == image(px, py),
    decreases caption.len() - k,
{
    if k < caption.len() && limit - cursor > 0 {
        let text = clipped(caption[k].text@, limit - cursor, scale);
        let next = with_text(image, font, text, cursor, scale, scale, caption[k].color);
        if lit(font, text, scale, px - cursor, py - scale) {
            lemma_text_keeps_to_its_width(font, text, scale, px - cursor, py - scale);
            lemma_clip_is_longest(caption[k].text@, limit - cursor, scale);
        }
        assert(6 * scale * text.len() >= 0) by (nonlinear_arith)
            requires
                scale > 0,
        ;
        lemma_caption_stays_inside(
            next,
            font,
            caption,
            k + 1,
            cursor + 6 * scale * text.len(),
            limit,
            scale,
            px,
            py,
        );
    }
}

/// A panel whose picture is as wide as planned changes nothing outside its own
/// columns, so no panel runs into another.
pub proof fn lemma_panel_keeps_to_its_columns(
    image: Image,
    font: Font,
    panel: Panel<Canvas>,
    plan: Plan,
    last: bool,
    theme: Theme,
    px: int,
    py: int,
)
    requires
        plan.scale > 0,
        plan.width > 0,
        panel.picture.width <= plan.width,
        px < plan.left || px >= plan.left + plan.width,
    ensures
        with_panel(image, font, panel, plan, last, theme)(px, py) == image(px, py),
{
    lemma_caption_stays_inside(
        image,
        font,
        panel.caption@,
        0,
        plan.left + plan.scale,
        plan.left + plan.width - plan.scale,
        plan.scale as int,
        px,
        py,
    );
}

/// The plan of a panel.
pub open spec fn plan_of(
    caption: Seq<Segment>,
    index: int,
    count: int,
    layout: Layout,
) -> Plan {
    choose|plan: Plan| is_plan(plan, caption, index, count, layout)
}

/// An image with the first `n` panels drawn over it.
pub open spec fn with_panels(
    image: Image,
    font: Font,
    panels: Seq<Panel<Canvas>>,
    n: int,
    layout: Layout,
    theme: Theme,
) -> Image
    decreases n,
{
    if n <= 0 {
        image
    } else {
        with_panel(
            with_panels(image, font, panels, n - 1, layout, theme),
            font,
            panels[n - 1],
            plan_of(panels[n - 1].caption@, n - 1, panels.len() as int, layout),
            n == panels.len(),
            theme,
        )
    }
}

/// The composite of some panels.
pub open spec fn composed(
    font: Font,
    panels: Seq<Panel<Canvas>>,
    layout: Layout,
    theme: Theme,
) -> Image {
    with_panels(
        plain(opaque(theme.background)),
        font,
        panels,
        if layout.width == 0 || layout.height == 0 {
            0
        } else {
            panels.len() as int
        },
        layout,
        theme,
    )
}

proof fn lemma_plan_is_unique(
    a: Plan,
    b: Plan,
    caption: Seq<Segment>,
    index: int,
    count: int,
    layout: Layout,
)
    requires
        is_plan(a, caption, index, count, layout),
        is_plan(b, caption, index, count, layout),
    ensures
        a == b,
{
}

/// Draw a caption.
fn draw_caption(
    canvas: &mut Canvas,
    font: &Font,
    caption: &Vec<Segment>,
    plan: &Plan,
    Ghost(image): Ghost<Image>,
)
    requires
        old(canvas).wf(),
        old(canvas).shows(image),
        1 <= plan.scale <= 4,
        plan.left + plan.width <= u32::MAX,
    ensures
        final(canvas).wf(),
        final(canvas).width == old(canvas).width,
        final(canvas).height == old(canvas).height,
        final(canvas).shows(
            with_caption(
                image,
                *font,
                caption@,
                0,
                plan.left + plan.scale,
                plan.left + plan.width - plan.scale,
                plan.scale as int,
            ),
        ),
{
    let scale: u32 = plan.scale;
    let limit: i64 = plan.left as i64 + plan.width as i64 - scale as i64;
    let mut cursor: i64 = plan.left as i64 + scale as i64;
    let ghost whole = with_caption(
        image,
        *font,
        caption@,
        0,
        cursor as int,
        limit as int,
        scale as int,
    );
    let ghost mut so_far = image;
    let mut k: usize = 0;
    while k < caption.len() && limit > cursor
        invariant
            k <= caption.len(),
            1 <= scale <= 4,
            0 <= cursor <= u32::MAX + 16,
            -4 <= limit <= u32::MAX,
            canvas.wf(),
            canvas.width == old(canvas).width,
            canvas.height == old(canvas).height,
            canvas.shows(so_far),
            whole == with_caption(
                so_far,
                *font,
                caption@,
                k as int,
                cursor as int,
                limit as int,
                scale as int,
            ),
        decreases caption.len() - k,
    {
        let room: u32 = (limit - cursor) as u32;
        let text = clip_to_width(caption[k].text.as_str(), room, scale);
        let letters = characters(text.as_str());
        let count: usize = letters.len();
        proof {
            let q = room as int / scale as int;
            assert(scale * q <= room) by (nonlinear_arith)
                requires
                    q == room as int / scale as int,
                    scale > 0,
                    room >= 0,
            ;
            assert(count <= fitting(room as int, scale as int));
            assert(0 <= 6 * scale * count <= room + scale) by (nonlinear_arith)
                requires
                    0 <= count,
                    6 * count <= q + 1,
                    scale * q <= room,
                    scale > 0,
            ;
        }
        draw(canvas, font, cursor, scale as i64, text.as_str(), scale, caption[k].color);
        proof {
            so_far = with_text(
                so_far,
                *font,
                text@,
                cursor as int,
                scale as int,
                scale as int,
                caption@[k as int].color,
            );
        }
        assert(count <= 0x1_0000_0000) by {
            assert(count <= 6 * scale * count) by (nonlinear_arith)
                requires
                    scale >= 1,
                    count >= 0,
            ;
        }
        cursor = cursor + 6 * scale as i64 * count as i64;
        k = k + 1;
    }
}

/// Composite `panels` side by side, each framed identically.
pub fn compose(panels: &Vec<Panel<Canvas>>, layout: &Layout, theme: &Theme, font: &Font) -> (r:
    Canvas)
    requires
        layout.width * layout.height * 4 <= isize::MAX,
        panels@.len() <= u32::MAX,
        forall|i: int| 0 <= i < panels@.len() ==> (#[trigger] panels@[i]).picture.wf(),
    ensures
        r.wf(),
        r.width == layout.width,
        r.height == layout.height,
        r.shows(composed(*font, panels@, *layout, *theme)),
{
    let mut canvas = Canvas::filled(layout.width, layout.height, theme.background);
    if panels.len() == 0 || layout.width == 0 || layout.height == 0 {
        return canvas;
    }
    let count: u32 = panels.len() as u32;
    let ghost ground = plain(opaque(theme.background));
    let mut index: u32 = 0;
    while index < count
        invariant
            index <= count,
            count == panels@.len(),
            forall|i: int| 0 <= i < panels@.len() ==> (#[trigger] panels@[i]).picture.wf(),
            canvas.wf(),
            canvas.width == layout.width,
            canvas.height == layout.height,
            canvas.shows(with_panels(ground, *font, panels@, index as int, *layout, *theme)),
        decreases count - index,
    {
        let panel = &panels[index as usize];
        let plan = plan_panel(&panel.caption, index, count, layout);
        let ghost before = with_panels(ground, *font, panels@, index as int, *layout, *theme);
        proof {
            lemma_plan_is_unique(
                plan,
                plan_of(panel.caption@, index as int, count as int, *layout),
                panel.caption@,
                index as int,
                count as int,
                *layout,
            );
        }
        draw_caption(&mut canvas, font, &panel.caption, &plan, Ghost(before));
        canvas.blit(&panel.picture, plan.left as i64, plan.band as i64);
        if index + 1 < count {
            let edge: i64 = plan.left as i64 + plan.width as i64;
            canvas.fill_rect(edge - 1, 0, 1, plan.band, [0, 0, 0, 0]);
            canvas.fill_rect(
                edge - 1,
                plan.band as i64,
                1,
                plan.body_height,
                [theme.divider[0], theme.divider[1], theme.divider[2], 255],
            );
        }
        index = index + 1;
    }
    canvas
}

/// Panels fit across a width where each of them would be at least as wide as the narrowest
/// that is allowed.
pub proof fn lemma_fitting_panels_are_wide_enough(width: u32, panels: u32, r: bool, index: int)
    requires
        call_ensures(fits, (width, panels), r),
        0 <= index < panels,
    ensures
        r ==> panel_width(width as int, panels as int, index) >= 360,
        panel_width(width as int, panels as int, panels - 1) >= 360 ==> r,
{
    let count = panels as int;
    let base = width as int / count;
    assert(count * base <= width < count * base + count) by (nonlinear_arith)
        requires
            base == width as int / count,
            count > 0,
            0 <= width,
    ;
    if width >= 360 * count {
        assert(base >= 360) by (nonlinear_arith)
            requires
                width >= 360 * count,
                width < count * base + count,
                count > 0,
        ;
    }
    if base >= 360 {
        assert(count * base >= 360 * count) by (nonlinear_arith)
            requires
                base >= 360,
                count > 0,
        ;
    }
    assert(width as int % count < count) by (nonlinear_arith)
        requires
            count > 0,
            0 <= width,
    ;
}

/// The panels of an image lie side by side: the first at the left edge, each next one where
/// the one before it ends, and the last up to the right edge. The caption's band and the
/// picture below it make up the height.
pub proof fn lemma_plans_lie_side_by_side(
    one: &Vec<Segment>,
    other: &Vec<Segment>,
    index: u32,
    count: u32,
    layout: &Layout,
    a: Plan,
    b: Plan,
)
    requires
        call_ensures(plan_panel, (one, index, count, layout), a),
        index < count,
        index + 1 < count ==> call_ensures(plan_panel, (other, (index + 1) as u32, count, layout), b),
    ensures
        index == 0 ==> a.left == 0,
        index + 1 < count ==> b.left == a.left + a.width && a.width - 1 <= b.width <= a.width,
        index + 1 == count ==> a.left + a.width == layout.width,
        a.band <= layout.height ==> a.band + a.body_height == layout.height,
        a.band == 9 * a.scale,
{
    lemma_panels_tile(layout.width as int, count as int, index as int);
}

/// A caption is as large as it can be: it fits at its scale unless that is the smallest, and
/// at no larger scale up to about the width of a terminal's character.
pub proof fn lemma_caption_is_as_large_as_fits(
    caption: &Vec<Segment>,
    width: u32,
    cell_width: u32,
    r: u32,
    larger: int,
)
    requires
        call_ensures(caption_scale, (caption, width, cell_width), r),
        caption_length(caption@) > 0,
        width >= 2,
    ensures
        r > 1 ==> (6 * caption_length(caption@) - 1) * r <= width - 2,
        1 <= r <= 4,
        r > 1 ==> 6 * r <= cell_width,
        r < larger <= 4 && 6 * larger <= cell_width ==> (6 * caption_length(caption@) - 1) * larger
            > width - 2,
{
    let length = caption_length(caption@) as int;
    let most = scale_ceiling(cell_width as int);
    lemma_scale_fits(length, width as int, most);
    if r < larger <= 4 && 6 * larger <= cell_width {
        assert(larger <= most);
        lemma_scale_is_largest(length, width as int, most, larger);
    }
}

/// A text that is cut to a width is a start of it, the longest whose glyphs fit.
pub proof fn lemma_cut_text_is_the_longest_start(text: &str, width: u32, scale: u32, r: String)
    requires
        call_ensures(clip_to_width, (text, width, scale), r),
        scale > 0,
    ensures
        r@.is_prefix_of(text@),
        r@.len() > 0 ==> (6 * r@.len() - 1) * scale <= width,
        r@.len() < text@.len() ==> (6 * (r@.len() + 1) - 1) * scale > width,
{
    lemma_clip_is_longest(text@, width as int, scale as int);
    assert(text@.subrange(0, text@.len() as int) =~= text@);
    let n = fitting(width as int, scale as int);
    assert(n >= 0) by (nonlinear_arith)
        requires
            n == (width as int / scale as int + 1) / 6,
            0 <= width,
            scale > 0,
    ;
    if n <= text@.len() {
        assert(text@.subrange(0, n) =~= text@.take(n));
    }
}

proof fn lemma_plan_exists(caption: Seq<Segment>, index: int, count: int, layout: Layout)
    requires
        0 <= index < count,
    ensures
        is_plan(plan_of(caption, index, count, layout), caption, index, count, layout),
        1 <= plan_of(caption, index, count, layout).scale <= 4,
{
    let width = panel_width(layout.width as int, count, index);
    lemma_panels_tile(layout.width as int, count, index);
    let scale = scale_of(caption, width, layout.cell_px.0 as int);
    lemma_scale_fits(
        caption_length(caption) as int,
        width,
        scale_ceiling(layout.cell_px.0 as int),
    );
    let body = if layout.height >= 9 * scale {
        layout.height - 9 * scale
    } else {
        0
    };
    let plan = Plan {
        left: panel_left(layout.width as int, count, index) as u32,
        width: width as u32,
        scale: scale as u32,
        band: (9 * scale) as u32,
        body_height: body as u32,
    };
    assert(is_plan(plan, caption, index, count, layout));
}

/// A caption, however long, stays in its rows.
pub proof fn lemma_caption_stays_in_its_band(
    image: Image,
    font: Font,
    caption: Seq<Segment>,
    k: int,
    cursor: int,
    limit: int,
    scale: int,
    px: int,
    py: int,
)
    requires
        scale > 0,
        py < scale || py >= 8 * scale,
    ensures
        with_caption(image, font, caption, k, cursor, limit, scale)(px, py) == image(px, py),
    decreases caption.len() - k,
{
    if k < caption.len() && limit - cursor > 0 {
        let text = clipped(caption[k].text@, limit - cursor, scale);
        let next = with_text(image, font, text, cursor, scale, scale, caption[k].color);
        if lit(font, text, scale, px - cursor, py - scale) {
            lemma_text_keeps_to_its_width(font, text, scale, px - cursor, py - scale);
        }
        lemma_caption_stays_in_its_band(
            next,
            font,
            caption,
            k + 1,
            cursor + 6 * scale * text.len(),
            limit,
            scale,
            px,
            py,
        );
    }
}

proof fn lemma_panels_go_right(width: int, count: int, i: int, j: int)
    requires
        width >= 0,
        0 <= i <= j <= count,
        count > 0,
    ensures
        panel_left(width, count, i) <= panel_left(width, count, j),
    decreases j - i,
{
    if i < j {
        lemma_panels_tile(width, count, i);
        lemma_panels_go_right(width, count, i + 1, j);
    }
}

/// What a composite shows below the caption of a panel: the rule at the right edge of all but
/// the last, the picture where it is not clear, and the background elsewhere.
pub open spec fn body_pixel(
    panel: Panel<Canvas>,
    plan: Plan,
    last: bool,
    theme: Theme,
    x: int,
    y: int,
) -> Pixel {
    if !last && x == plan.width - 1 {
        (theme.divider@[0], theme.divider@[1], theme.divider@[2], 255u8)
    } else if x < panel.picture.width && y < panel.picture.height && panel.picture.pixel(x, y).3
        != 0 {
        panel.picture.pixel(x, y)
    } else {
        (theme.background@[0], theme.background@[1], theme.background@[2], 255u8)
    }
}

#[verifier::rlimit(60)]
proof fn lemma_body_of_panels(
    font: Font,
    panels: Seq<Panel<Canvas>>,
    n: int,
    layout: Layout,
    theme: Theme,
    index: int,
    x: int,
    y: int,
)
    requires
        0 <= index < panels.len(),
        0 <= n <= panels.len(),
        layout.width >= panels.len(),
        forall|j: int|
            0 <= j < panels.len() ==> (#[trigger] panels[j]).picture.width <= panel_width(
                layout.width as int,
                panels.len() as int,
                j,
            ),
        0 <= x < plan_of(panels[index].caption@, index, panels.len() as int, layout).width,
        0 <= y < plan_of(panels[index].caption@, index, panels.len() as int, layout).body_height,
    ensures
        ({
            let plan = plan_of(panels[index].caption@, index, panels.len() as int, layout);
            let image = with_panels(
                plain(opaque(theme.background)),
                font,
                panels,
                n,
                layout,
                theme,
            );
            image(plan.left + x, plan.band + y) == if index < n {
                body_pixel(panels[index], plan, index + 1 == panels.len(), theme, x, y)
            } else {
                opaque(theme.background)
            }
        }),
    decreases n,
{
    let count = panels.len() as int;
    let plan = plan_of(panels[index].caption@, index, count, layout);
    lemma_plan_exists(panels[index].caption@, index, count, layout);
    if n > 0 {
        let ground = plain(opaque(theme.background));
        let image = with_panels(ground, font, panels, n - 1, layout, theme);
        let panel = panels[n - 1];
        let drawn = plan_of(panel.caption@, n - 1, count, layout);
        let last = n == panels.len();
        lemma_body_of_panels(font, panels, n - 1, layout, theme, index, x, y);
        lemma_plan_exists(panel.caption@, n - 1, count, layout);
        lemma_panels_tile(layout.width as int, count, n - 1);
        lemma_panels_tile(layout.width as int, count, index);
        let base = layout.width as int / count;
        assert(base >= 1) by (nonlinear_arith)
            requires
                base == layout.width as int / count,
                layout.width >= count,
                count > 0,
        ;
        let px = plan.left + x;
        let py = plan.band + y;
        if n - 1 == index {
            let named = with_caption(
                image,
                font,
                panel.caption@,
                0,
                drawn.left + drawn.scale,
                drawn.left + drawn.width - drawn.scale,
                drawn.scale as int,
            );
            lemma_caption_stays_in_its_band(
                image,
                font,
                panel.caption@,
                0,
                drawn.left + drawn.scale,
                drawn.left + drawn.width - drawn.scale,
                drawn.scale as int,
                px,
                py,
            );
            assert(named(px, py) == image(px, py));
        } else {
            if n - 1 < index {
                lemma_panels_go_right(layout.width as int, count, n, index);
            } else {
                lemma_panels_go_right(layout.width as int, count, index + 1, n - 1);
            }
            lemma_panel_keeps_to_its_columns(image, font, panel, drawn, last, theme, px, py);
        }
    }
}

/// A composite shows each picture in its own panel: below the caption of a panel stands its
/// picture, pixel for pixel from the left edge of the panel and the bottom of the caption's
/// band on, over the background, with a rule at the right edge of all but the last.
pub proof fn lemma_picture_stands_in_its_panel(
    panels: &Vec<Panel<Canvas>>,
    layout: &Layout,
    theme: &Theme,
    font: &Font,
    r: Canvas,
    index: u32,
    count: u32,
    plan: Plan,
    x: int,
    y: int,
)
    requires
        call_ensures(compose, (panels, layout, theme, font), r),
        count == panels@.len(),
        index < count,
        call_ensures(plan_panel, (&panels@[index as int].caption, index, count, layout), plan),
        layout.width >= count,
        forall|j: int|
            0 <= j < panels@.len() ==> (#[trigger] panels@[j]).picture.width <= panel_width(
                layout.width as int,
                count as int,
                j,
            ),
        0 <= x < plan.width,
        0 <= y < plan.body_height,
    ensures
        r.pixel(plan.left + x, plan.band + y) == body_pixel(
            panels@[index as int],
            plan,
            index + 1 == count,
            *theme,
            x,
            y,
        ),
{
    let caption = panels@[index as int].caption@;
    lemma_plan_exists(caption, index as int, count as int, *layout);
    lemma_plan_is_unique(
        plan,
        plan_of(caption, index as int, count as int, *layout),
        caption,
        index as int,
        count as int,
        *layout,
    );
    lemma_body_of_panels(
        *font,
        panels@,
        panels@.len() as int,
        *layout,
        *theme,
        index as int,
        x,
        y,
    );
    lemma_panels_tile(layout.width as int, count as int, index as int);
    assert(r.has(plan.left + x, plan.band + y));
}

/// How many characters the segments of a caption from one on and before another have.
pub open spec fn chars_between(caption: Seq<Segment>, k: int, m: int) -> int
    decreases m - k,
{
    if k >= m {
        0
    } else {
        caption[k].text@.len() + chars_between(caption, k + 1, m)
    }
}

proof fn lemma_chars_are_many(caption: Seq<Segment>, k: int, m: int)
    ensures
        chars_between(caption, k, m) >= 0,
    decreases m - k,
{
    if k < m {
        lemma_chars_are_many(caption, k + 1, m);
    }
}

/// A text that fits is not cut.
proof fn lemma_fitting_text_is_whole(text: Seq<char>, width: int, scale: int)
    requires
        scale > 0,
        width >= 0,
        text_width(text.len() as int, scale) <= width,
    ensures
        clipped(text, width, scale) == text,
{
    let n = text.len() as int;
    let q = width / scale;
    assert(q >= 6 * n - 1) by (nonlinear_arith)
        requires
            q == width / scale,
            (6 * n - 1) * scale <= width,
            scale > 0,
            width >= 0,
    ;
    assert(text.take(n) =~= text);
}

/// Where the segments of a caption up to some one fit, that one is drawn behind all before
/// it, six columns to a character, in its own colour.
#[verifier::rlimit(60)]
proof fn lemma_segment_is_drawn(
    image: Image,
    font: Font,
    caption: Seq<Segment>,
    k: int,
    cursor: int,
    limit: int,
    scale: int,
    m: int,
    dx: int,
    dy: int,
)
    requires
        scale > 0,
        0 <= k <= m < caption.len(),
        cursor + text_width(chars_between(caption, k, m + 1), scale) <= limit,
        lit(font, caption[m].text@, scale, dx, dy),
    ensures
        with_caption(image, font, caption, k, cursor, limit, scale)(
            cursor + 6 * scale * chars_between(caption, k, m) + dx,
            scale + dy,
        ) == opaque(caption[m].color),
    decreases m - k,
{
    let n = caption[k].text@.len() as int;
    let rest = chars_between(caption, k + 1, m + 1);
    lemma_chars_are_many(caption, k + 1, m + 1);
    lemma_chars_are_many(caption, k + 1, m);
    lemma_text_keeps_to_its_width(font, caption[m].text@, scale, dx, dy);
    lemma_whole_caption_counts(caption, k, m);
    let all = chars_between(caption, k, m + 1);
    assert(all == n + rest);
    let long = caption[m].text@.len() as int;
    assert(long >= 1) by (nonlinear_arith)
        requires
            0 <= dx < (6 * long - 1) * scale,
            scale > 0,
    ;
    assert((6 * n - 1) * scale <= (6 * all - 1) * scale && 0 < (6 * all - 1) * scale && 6 * scale
        * n >= 0) by (nonlinear_arith)
        requires
            0 <= n <= all,
            all >= long,
            long >= 1,
            scale > 0,
    ;
    lemma_fitting_text_is_whole(caption[k].text@, limit - cursor, scale);
    let next = with_text(image, font, caption[k].text@, cursor, scale, scale, caption[k].color);
    let further = cursor + 6 * scale * n;
    if k == m {
        let px = cursor + dx;
        assert(chars_between(caption, k, m) == 0);
        assert(6 * scale * 0 == 0);
        assert(px < further) by (nonlinear_arith)
            requires
                px == cursor + dx,
                dx < (6 * n - 1) * scale,
                further == cursor + 6 * scale * n,
                scale > 0,
        ;
        assert(next(px, scale + dy) == opaque(caption[m].color));
        lemma_caption_stays_inside(
            next,
            font,
            caption,
            k + 1,
            further,
            limit,
            scale,
            px,
            scale + dy,
        );
    } else {
        assert(further + (6 * rest - 1) * scale == cursor + (6 * all - 1) * scale)
            by (nonlinear_arith)
            requires
                further == cursor + 6 * scale * n,
                all == n + rest,
        ;
        lemma_segment_is_drawn(next, font, caption, k + 1, further, limit, scale, m, dx, dy);
        let before = chars_between(caption, k + 1, m);
        assert(chars_between(caption, k, m) == n + before);
        assert(further + 6 * scale * before == cursor + 6 * scale * (n + before))
            by (nonlinear_arith)
            requires
                further == cursor + 6 * scale * n,
        ;
    }
}

proof fn lemma_whole_caption_counts(caption: Seq<Segment>, k: int, m: int)
    requires
        0 <= k <= m < caption.len(),
    ensures
        chars_between(caption, k, m + 1) >= caption[m].text@.len(),
    decreases m - k,
{
    lemma_chars_are_many(caption, k + 1, m + 1);
    if k < m {
        lemma_whole_caption_counts(caption, k + 1, m);
    }
}

#[verifier::rlimit(60)]
proof fn lemma_caption_of_panels(
    font: Font,
    panels: Seq<Panel<Canvas>>,
    n: int,
    layout: Layout,
    theme: Theme,
    index: int,
    m: int,
    dx: int,
    dy: int,
)
    requires
        0 <= index < n <= panels.len(),
        layout.width >= panels.len(),
        forall|j: int|
            0 <= j < panels.len() ==> (#[trigger] panels[j]).picture.width <= panel_width(
                layout.width as int,
                panels.len() as int,
                j,
            ),
        0 <= m < panels[index].caption@.len(),
        ({
            let plan = plan_of(panels[index].caption@, index, panels.len() as int, layout);
            &&& plan.scale + text_width(
                chars_between(panels[index].caption@, 0, m + 1),
                plan.scale as int,
            ) <= plan.width - plan.scale
            &&& lit(font, panels[index].caption@[m].text@, plan.scale as int, dx, dy)
        }),
    ensures
        ({
            let plan = plan_of(panels[index].caption@, index, panels.len() as int, layout);
            let image = with_panels(
                plain(opaque(theme.background)),
                font,
                panels,
                n,
                layout,
                theme,
            );
            image(
                plan.left + plan.scale + 6 * plan.scale * chars_between(
                    panels[index].caption@,
                    0,
                    m,
                ) + dx,
                plan.scale + dy,
            ) == opaque(panels[index].caption@[m].color)
        }),
    decreases n,
{
    let count = panels.len() as int;
    let caption = panels[index].caption@;
    let plan = plan_of(caption, index, count, layout);
    let scale = plan.scale as int;
    lemma_plan_exists(caption, index, count, layout);
    let ground = plain(opaque(theme.background));
    let image = with_panels(ground, font, panels, n - 1, layout, theme);
    let panel = panels[n - 1];
    let drawn = plan_of(panel.caption@, n - 1, count, layout);
    let last = n == panels.len();
    lemma_plan_exists(panel.caption@, n - 1, count, layout);
    lemma_panels_tile(layout.width as int, count, n - 1);
    lemma_panels_tile(layout.width as int, count, index);
    let base = layout.width as int / count;
    assert(base >= 1) by (nonlinear_arith)
        requires
            base == layout.width as int / count,
            layout.width >= count,
            count > 0,
    ;
    let text = caption[m].text@;
    lemma_text_keeps_to_its_width(font, text, scale, dx, dy);
    lemma_whole_caption_counts(caption, 0, m);
    lemma_chars_are_many(caption, 0, m);
    lemma_chars_split(caption, 0, m);
    let before = chars_between(caption, 0, m);
    let long = text.len() as int;
    let px = plan.left + scale + 6 * scale * before + dx;
    let py = scale + dy;
    assert(scale <= scale + 6 * scale * before + dx && 6 * scale * before + dx < (6 * (before
        + long) - 1) * scale) by (nonlinear_arith)
        requires
            scale > 0,
            before >= 0,
            0 <= dx < (6 * long - 1) * scale,
    ;
    assert(plan.left <= px < plan.left + plan.width - scale);
    if n - 1 == index {
        lemma_segment_is_drawn(
            image,
            font,
            caption,
            0,
            plan.left + scale,
            plan.left + plan.width - scale,
            scale,
            m,
            dx,
            dy,
        );
    } else {
        lemma_caption_of_panels(font, panels, n - 1, layout, theme, index, m, dx, dy);
        lemma_panels_go_right(layout.width as int, count, index + 1, n - 1);
        lemma_panel_keeps_to_its_columns(image, font, panel, drawn, last, theme, px, py);
    }
}

proof fn lemma_chars_split(caption: Seq<Segment>, k: int, m: int)
    requires
        0 <= k <= m < caption.len(),
    ensures
        chars_between(caption, k, m + 1) == chars_between(caption, k, m) + caption[m].text@.len(),
    decreases m - k,
{
    if k < m {
        lemma_chars_split(caption, k + 1, m);
    } else {
        assert(chars_between(caption, m + 1, m + 1) == 0);
        assert(chars_between(caption, m, m) == 0);
    }
}

/// A composite shows the caption of each panel above its picture: the dots of a segment that
/// fits are lit in the colour of the segment, from the left edge of the panel on and behind
/// the segments before it, a dot's width from the edge and from the top.
pub proof fn lemma_caption_stands_above_its_picture(
    panels: &Vec<Panel<Canvas>>,
    layout: &Layout,
    theme: &Theme,
    font: &Font,
    r: Canvas,
    index: u32,
    count: u32,
    plan: Plan,
    m: int,
    dx: int,
    dy: int,
)
    requires
        call_ensures(compose, (panels, layout, theme, font), r),
        count == panels@.len(),
        index < count,
        call_ensures(plan_panel, (&panels@[index as int].caption, index, count, layout), plan),
        layout.width >= count,
        layout.height >= plan.band,
        forall|j: int|
            0 <= j < panels@.len() ==> (#[trigger] panels@[j]).picture.width <= panel_width(
                layout.width as int,
                count as int,
                j,
            ),
        0 <= m < panels@[index as int].caption@.len(),
        (6 * chars_between(panels@[index as int].caption@, 0, m + 1) - 1) * plan.scale + 2
            * plan.scale <= plan.width,
        lit(*font, panels@[index as int].caption@[m].text@, plan.scale as int, dx, dy),
    ensures
        ({
            let color = panels@[index as int].caption@[m].color;
            r.pixel(
                plan.left + plan.scale + 6 * plan.scale * chars_between(
                    panels@[index as int].caption@,
                    0,
                    m,
                ) + dx,
                plan.scale + dy,
            ) == (color@[0], color@[1], color@[2], 255u8)
        }),
{
    let caption = panels@[index as int].caption@;
    let scale = plan.scale as int;
    lemma_plan_exists(caption, index as int, count as int, *layout);
    lemma_plan_is_unique(
        plan,
        plan_of(caption, index as int, count as int, *layout),
        caption,
        index as int,
        count as int,
        *layout,
    );
    lemma_caption_of_panels(
        *font,
        panels@,
        panels@.len() as int,
        *layout,
        *theme,
        index as int,
        m,
        dx,
        dy,
    );
    lemma_panels_tile(layout.width as int, count as int, index as int);
    lemma_text_keeps_to_its_width(*font, caption[m].text@, scale, dx, dy);
    lemma_chars_are_many(caption, 0, m);
    lemma_chars_split(caption, 0, m);
    let before = chars_between(caption, 0, m);
    let long = caption[m].text@.len() as int;
    assert(0 <= 6 * scale * before + dx && 6 * scale * before + dx < (6 * (before + long) - 1)
        * scale) by (nonlinear_arith)
        requires
            scale > 0,
            before >= 0,
            0 <= dx < (6 * long - 1) * scale,
    ;
    assert(r.has(plan.left + scale + 6 * scale * before + dx, scale + dy));
}

/// By default the panels stand on a dark ground, and the rule between them is a lighter shade
/// of it.
pub proof fn lemma_default_theme_is_dark(r: Theme, i: int)
    requires
        call_ensures(<Theme as Default>::default, (), r),
        0 <= i < 3,
    ensures
        r.background@[i] < 32,
        r.background@[i] + 32 < r.divider@[i] < 128,
{
    assert(i == 0 || i == 1 || i == 2);
}

} // verus!
