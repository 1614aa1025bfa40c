//! The block grid: a dense cube of colours over a build's extent, and the walk of
//! a ray through it.
//!
//! Where no resource pack is supplied a block is a cube of one colour, so a
//! colour is all that a cell needs.

use vstd::prelude::*;
use vstd::multiset::Multiset;
use nucleation::UniversalSchematic;
use crate::changes::{at, Position};
use crate::color::{air, color_of, is_air_name, lemma_air_is_unoccupied, name_color};
use crate::error::{failure, Error};
use crate::format::{dimensions_text, push_dimensions};
use crate::schematic::{blocks_among, built, cells, lemma_blocks_among, occupants, walkable, Cell};
use crate::text::{decimal, push_decimal, signed_decimal};

verus! {

/// Maximum grid volume in cells permitted before refusing to allocate.
///
/// At four bytes per cell, this permits a 2 GiB grid. The ceiling bounds memory
/// use and raycast time for outsized schematics.
pub const MAX_CELLS: i64 = 512 * 1024 * 1024;

pub open spec fn least(a: int, b: int) -> int {
    if a <= b {
        a
    } else {
        b
    }
}

pub open spec fn greatest(a: int, b: int) -> int {
    if a >= b {
        a
    } else {
        b
    }
}

/// The lesser coordinates of two positions.
pub open spec fn least_of(a: Position, b: Position) -> Position {
    (least(a.0, b.0), least(a.1, b.1), least(a.2, b.2))
}

/// The greater coordinates of two positions.
pub open spec fn greatest_of(a: Position, b: Position) -> Position {
    (greatest(a.0, b.0), greatest(a.1, b.1), greatest(a.2, b.2))
}

/// A position lies between two corners, on either face too.
pub open spec fn within(low: Position, high: Position, p: Position) -> bool {
    &&& low.0 <= p.0 <= high.0
    &&& low.1 <= p.1 <= high.1
    &&& low.2 <= p.2 <= high.2
}

fn lesser(a: i32, b: i32) -> (r: i32)
    ensures
        r == least(a as int, b as int),
{
    if a <= b {
        a
    } else {
        b
    }
}

fn greater(a: i32, b: i32) -> (r: i32)
    ensures
        r == greatest(a as int, b as int),
{
    if a >= b {
        a
    } else {
        b
    }
}

/// An axis-aligned inclusive voxel extent.
#[derive(Clone, Copy, Debug, PartialEq, Eq)]
pub struct Bounds {
    pub min: [i32; 3],
    pub max: [i32; 3],
}

/// The number of cells along an axis: none where the ends are crossed, and no
/// more than the largest size.
pub open spec fn axis_size(low: int, high: int) -> int {
    if high < low {
        0
    } else if high - low + 1 > i32::MAX {
        i32::MAX as int
    } else {
        high - low + 1
    }
}

/// The number of cells along each axis.
pub open spec fn extent_size(low: Position, high: Position) -> Position {
    (axis_size(low.0, high.0), axis_size(low.1, high.1), axis_size(low.2, high.2))
}

impl Default for Bounds {
    fn default() -> (r: Self)
        ensures
            r.low() == (0int, 0int, 0int),
            r.high() == (0int, 0int, 0int),
    {
        Bounds { min: [0, 0, 0], max: [0, 0, 0] }
    }
}

impl Bounds {
    /// The corner with the lesser coordinates.
    pub open spec fn low(self) -> Position {
        at(self.min)
    }

    /// The corner with the greater coordinates.
    pub open spec fn high(self) -> Position {
        at(self.max)
    }

    /// The extent of a single cell.
    pub fn singleton(x: i32, y: i32, z: i32) -> (r: Self)
        ensures
            r.low() == (x as int, y as int, z as int),
            r.high() == (x as int, y as int, z as int),
    {
        Bounds { min: [x, y, z], max: [x, y, z] }
    }

    /// Widen the extent so that it holds a cell.
    pub fn extend(&mut self, x: i32, y: i32, z: i32)
        ensures
            final(self).low() == least_of(old(self).low(), (x as int, y as int, z as int)),
            final(self).high() == greatest_of(old(self).high(), (x as int, y as int, z as int)),
    {
        self.min = [lesser(self.min[0], x), lesser(self.min[1], y), lesser(self.min[2], z)];
        self.max = [greater(self.max[0], x), greater(self.max[1], y), greater(self.max[2], z)];
    }

    /// The least extent that holds both.
    pub fn union(self, other: Self) -> (r: Self)
        ensures
            r.low() == least_of(self.low(), other.low()),
            r.high() == greatest_of(self.high(), other.high()),
    {
        Bounds {
            min: [
                lesser(self.min[0], other.min[0]),
                lesser(self.min[1], other.min[1]),
                lesser(self.min[2], other.min[2]),
            ],
            max: [
                greater(self.max[0], other.max[0]),
                greater(self.max[1], other.max[1]),
                greater(self.max[2], other.max[2]),
            ],
        }
    }

    /// The number of cells along each axis.
    pub fn size(self) -> (r: [i32; 3])
        ensures
            at(r) == extent_size(self.low(), self.high()),
    {
        [
            Self::along(self.min[0], self.max[0]),
            Self::along(self.min[1], self.max[1]),
            Self::along(self.min[2], self.max[2]),
        ]
    }

    fn along(min: i32, max: i32) -> (r: i32)
        ensures
            r == axis_size(min as int, max as int),
    {
        let cells: i64 = max as i64 - min as i64 + 1;
        if cells <= 0 {
            0
        } else if cells > i32::MAX as i64 {
            i32::MAX
        } else {
            cells as i32
        }
    }
}

/// A union holds what either extent holds, and is the least extent that does:
/// any other that holds both extents holds it.
pub proof fn lemma_union_is_least(
    a_low: Position,
    a_high: Position,
    b_low: Position,
    b_high: Position,
    p: Position,
    low: Position,
    high: Position,
)
    ensures
        within(a_low, a_high, p) || within(b_low, b_high, p) ==> within(
            least_of(a_low, b_low),
            greatest_of(a_high, b_high),
            p,
        ),
        within(low, high, a_low) && within(low, high, a_high) && within(low, high, b_low) && within(
            low,
            high,
            b_high,
        ) ==> within(low, high, least_of(a_low, b_low)) && within(
            low,
            high,
            greatest_of(a_high, b_high),
        ),
{
}

/// It does not matter in which order extents are united, nor how often.
pub proof fn lemma_union_order(a: Position, b: Position, c: Position)
    ensures
        least_of(a, b) == least_of(b, a),
        greatest_of(a, b) == greatest_of(b, a),
        least_of(a, least_of(b, c)) == least_of(least_of(a, b), c),
        greatest_of(a, greatest_of(b, c)) == greatest_of(greatest_of(a, b), c),
        least_of(a, a) == a,
        greatest_of(a, a) == a,
{
}

/// The number of cells of a size.
pub open spec fn cell_total(size: Position) -> int {
    size.0 * size.1 * size.2
}

/// A size has cells exactly where none of its axes is empty.
proof fn lemma_cells_along_each_axis(size: Position)
    requires
        size.0 >= 0,
        size.1 >= 0,
        size.2 >= 0,
    ensures
        cell_total(size) > 0 <==> size.0 > 0 && size.1 > 0 && size.2 > 0,
{
    let (x, y, z) = size;
    assert(x * y * z > 0 <==> x > 0 && y > 0 && z > 0) by (nonlinear_arith)
        requires
            x >= 0,
            y >= 0,
            z >= 0,
    ;
}

/// What is said of an extent that is too large, or that has no cells.
pub open spec fn oversized(size: Position) -> Seq<char> {
    "the "@ + dimensions_text(size) + " extent is too large to render"@
}

/// What is said of an extent for which there is no room.
pub open spec fn no_room(size: Position) -> Seq<char> {
    "the "@ + dimensions_text(size) + " extent ("@ + decimal(cell_total(size) as nat)
        + " cells) is too large to render"@
}

/// What is said of a build that is too large.
pub open spec fn oversized_build(size: Position) -> Seq<char> {
    "the build's "@ + dimensions_text(size) + " extent ("@ + decimal(cell_total(size) as nat)
        + " cells) is too large to render"@
}

/// Compute a grid's cell count, rejecting non-positive or overflowing extents.
pub fn grid_cell_count(size: [i32; 3]) -> (r: Result<i64, Error>)
    ensures
        if size@[0] > 0 && size@[1] > 0 && size@[2] > 0 && cell_total(at(size)) <= i64::MAX {
            r is Ok && r->Ok_0 == cell_total(at(size))
        } else {
            failure(r) == Some(oversized(at(size)))
        },
{
    let x: i128 = size[0] as i128;
    let y: i128 = size[1] as i128;
    let z: i128 = size[2] as i128;
    proof {
        assert(-0x4000_0000_0000_0000 <= x * y <= 0x4000_0000_0000_0000) by (nonlinear_arith)
            requires
                -0x8000_0000 <= x <= 0x7fff_ffff,
                -0x8000_0000 <= y <= 0x7fff_ffff,
        ;
        let xy = x * y;
        assert(-0x4000_0000_0000_0000 * 0x8000_0000 <= xy * z <= 0x4000_0000_0000_0000
            * 0x8000_0000) by (nonlinear_arith)
            requires
                -0x4000_0000_0000_0000 <= xy <= 0x4000_0000_0000_0000,
                -0x8000_0000 <= z <= 0x7fff_ffff,
        ;
    }
    let cells: i128 = x * y * z;
    if size[0] > 0 && size[1] > 0 && size[2] > 0 && cells <= i64::MAX as i128 {
        Ok(cells as i64)
    } else {
        let mut text = "the ".to_owned();
        push_dimensions(&mut text, size);
        text.append(" extent is too large to render");
        Err(Error::message(text))
    }
}

/// Empty cells, if there is room for them.
fn alloc_cells(cells: i64, size: [i32; 3]) -> (r: Result<Vec<u32>, Error>)
    requires
        cells == cell_total(at(size)),
        0 < cells <= MAX_CELLS,
    ensures
        match r {
            Ok(v) => v@ == Seq::new(cells as nat, |i: int| 0u32),
            Err(error) => error.text() == no_room(at(size)),
        },
{
    let mut out: Vec<u32> = Vec::new();
    let room = match out.try_reserve(cells as usize) {
        Ok(()) => Some(out),
        Err(_) => None,
    };
    settle_cells(room, cells, size)
}

/// Fill the room that was granted with empty cells, or say that there is none.
pub fn settle_cells(room: Option<Vec<u32>>, cells: i64, size: [i32; 3]) -> (r: Result<
    Vec<u32>,
    Error,
>)
    requires
        cells == cell_total(at(size)),
        0 < cells <= MAX_CELLS,
        room matches Some(room) ==> room@.len() == 0,
    ensures
        match room {
            Some(_) => r is Ok && r->Ok_0@ == Seq::new(cells as nat, |i: int| 0u32),
            None => failure(r) == Some(no_room(at(size))),
        },
{
    match room {
        Some(mut out) => {
            out.resize(cells as usize, 0);
            assert(out@ =~= Seq::new(cells as nat, |i: int| 0u32));
            Ok(out)
        },
        None => {
            let mut text = "the ".to_owned();
            push_dimensions(&mut text, size);
            text.append(" extent (");
            push_decimal(&mut text, cells as u64);
            text.append(" cells) is too large to render");
            Err(Error::message(text))
        },
    }
}

/// A dense colour grid over a build's extent, indexed from `min`.
///
/// Every cell holds either `0` for empty or its block's colour. No block's colour
/// is zero, so the sentinel is unambiguous.
#[derive(Debug)]
pub struct Grid {
    pub min: [i32; 3],
    pub dims: [usize; 3],
    pub cells: Vec<u32>,
}

/// The place of a cell in a grid, by its offset from the grid's corner.
pub open spec fn slot(dims: Position, d: Position) -> int {
    (d.1 * dims.2 + d.2) * dims.0 + d.0
}

/// An offset lies in a grid.
pub open spec fn in_dims(dims: Position, d: Position) -> bool {
    &&& 0 <= d.0 < dims.0
    &&& 0 <= d.1 < dims.1
    &&& 0 <= d.2 < dims.2
}

proof fn lemma_slot_in_range(dims: Position, d: Position)
    requires
        in_dims(dims, d),
    ensures
        0 <= d.1 * dims.2 + d.2 < dims.1 * dims.2,
        0 <= slot(dims, d) < cell_total(dims),
{
    let (w, h, l) = dims;
    let row = d.1 * l + d.2;
    assert(0 <= row < h * l) by (nonlinear_arith)
        requires
            row == d.1 * l + d.2,
            0 <= d.1 < h,
            0 <= d.2 < l,
    ;
    assert(0 <= row * w + d.0 < (h * l) * w) by (nonlinear_arith)
        requires
            0 <= row < h * l,
            0 <= d.0 < w,
    ;
    assert((h * l) * w == w * h * l) by (nonlinear_arith);
}

/// No two cells of a grid share a place.
pub proof fn lemma_slots_differ(dims: Position, a: Position, b: Position)
    requires
        in_dims(dims, a),
        in_dims(dims, b),
        slot(dims, a) == slot(dims, b),
    ensures
        a == b,
{
    let (w, h, l) = dims;
    let ra = a.1 * l + a.2;
    let rb = b.1 * l + b.2;
    assert(ra == rb && a.0 == b.0) by (nonlinear_arith)
        requires
            ra * w + a.0 == rb * w + b.0,
            0 <= a.0 < w,
            0 <= b.0 < w,
    ;
    assert(a.1 == b.1 && a.2 == b.2) by (nonlinear_arith)
        requires
            a.1 * l + a.2 == b.1 * l + b.2,
            0 <= a.2 < l,
            0 <= b.2 < l,
    ;
}

impl Grid {
    /// The size of the grid.
    pub open spec fn size(self) -> Position {
        (self.dims@[0] as int, self.dims@[1] as int, self.dims@[2] as int)
    }

    /// The corner with the lesser coordinates.
    pub open spec fn low(self) -> Position {
        at(self.min)
    }

    /// The corner with the greater coordinates.
    pub open spec fn high(self) -> Position {
        (
            self.low().0 + self.size().0 - 1,
            self.low().1 + self.size().1 - 1,
            self.low().2 + self.size().2 - 1,
        )
    }

    /// The grid has cells, all of them at positions that can be written down.
    pub open spec fn wf(self) -> bool {
        &&& self.size().0 >= 1
        &&& self.size().1 >= 1
        &&& self.size().2 >= 1
        &&& self.high().0 <= i32::MAX
        &&& self.high().1 <= i32::MAX
        &&& self.high().2 <= i32::MAX
        &&& self.cells@.len() == cell_total(self.size())
        &&& cell_total(self.size()) <= MAX_CELLS
    }

    /// The offset of a position from the grid's corner.
    pub open spec fn offset(self, p: Position) -> Position {
        (p.0 - self.low().0, p.1 - self.low().1, p.2 - self.low().2)
    }

    /// The colour at a position, zero where it is empty or outside.
    pub open spec fn shade(self, p: Position) -> u32 {
        if within(self.low(), self.high(), p) {
            self.cells@[slot(self.size(), self.offset(p))]
        } else {
            0
        }
    }

    fn index(&self, x: i32, y: i32, z: i32) -> (r: Option<usize>)
        requires
            self.wf(),
        ensures
            match r {
                Some(index) => within(self.low(), self.high(), (x as int, y as int, z as int))
                    && index == slot(
                    self.size(),
                    self.offset((x as int, y as int, z as int)),
                ) && index < self.cells@.len(),
                None => !within(self.low(), self.high(), (x as int, y as int, z as int)),
            },
    {
        let dx: i64 = x as i64 - self.min[0] as i64;
        let dy: i64 = y as i64 - self.min[1] as i64;
        let dz: i64 = z as i64 - self.min[2] as i64;
        if dx < 0 || dy < 0 || dz < 0 || dx >= self.dims[0] as i64 || dy >= self.dims[1] as i64 || dz
            >= self.dims[2] as i64 {
            return None;
        }
        proof {
            let d = (dx as int, dy as int, dz as int);
            lemma_slot_in_range(self.size(), d);
            let row = d.1 * self.size().2 + d.2;
            assert(0 <= d.1 * self.size().2 <= row) by (nonlinear_arith)
                requires
                    row == d.1 * self.size().2 + d.2,
                    d.1 >= 0,
                    self.size().2 >= 0,
                    d.2 >= 0,
            ;
            assert(0 <= row <= row * self.size().0) by (nonlinear_arith)
                requires
                    row >= 0,
                    self.size().0 >= 1,
            ;
        }
        Some((dy as usize * self.dims[2] + dz as usize) * self.dims[0] + dx as usize)
    }

    /// The colour at a position, if there is a block.
    pub fn color_at(&self, x: i32, y: i32, z: i32) -> (r: Option<u32>)
        requires
            self.wf(),
        ensures
            r == (if self.shade((x as int, y as int, z as int)) != 0 {
                Some(self.shade((x as int, y as int, z as int)))
            } else {
                None
            }),
    {
        match self.index(x, y, z) {
            Some(index) => {
                let cell: u32 = self.cells[index];
                if cell != 0 {
                    Some(cell)
                } else {
                    None
                }
            },
            None => None,
        }
    }

    /// Colour a cell. Nothing happens to a position outside the grid.
    pub fn set(&mut self, x: i32, y: i32, z: i32, color: u32)
        requires
            old(self).wf(),
        ensures
            final(self).wf(),
            final(self).min == old(self).min,
            final(self).dims == old(self).dims,
            forall|p: Position| #[trigger]
                final(self).shade(p) == (if p == (x as int, y as int, z as int) && within(
                    old(self).low(),
                    old(self).high(),
                    p,
                ) {
                    color
                } else {
                    old(self).shade(p)
                }),
    {
        match self.index(x, y, z) {
            Some(index) => {
                let ghost before = *self;
                self.cells.set(index, color);
                let ghost here = (x as int, y as int, z as int);
                assert forall|p: Position| #[trigger] self.shade(p) == (if p == here && within(
                    before.low(),
                    before.high(),
                    p,
                ) {
                    color
                } else {
                    before.shade(p)
                }) by {
                    if within(before.low(), before.high(), p) {
                        lemma_slot_in_range(before.size(), before.offset(p));
                        if p != here && slot(before.size(), before.offset(p)) == index {
                            lemma_slots_differ(
                                before.size(),
                                before.offset(p),
                                before.offset(here),
                            );
                        }
                    }
                }
            },
            None => {},
        }
    }

    /// The extent of the grid.
    pub fn bounds(&self) -> (r: Bounds)
        requires
            self.wf(),
        ensures
            r.low() == self.low(),
            r.high() == self.high(),
    {
        Bounds {
            min: self.min,
            max: [
                (self.min[0] as i64 + self.dims[0] as i64 - 1) as i32,
                (self.min[1] as i64 + self.dims[1] as i64 - 1) as i32,
                (self.min[2] as i64 + self.dims[2] as i64 - 1) as i32,
            ],
        }
    }

    /// An empty grid over an extent.
    pub fn empty_over(bounds: Bounds) -> (r: Result<Self, Error>)
        ensures
            ({
                let size = extent_size(bounds.low(), bounds.high());
                if 0 < cell_total(size) <= MAX_CELLS {
                    match r {
                        Ok(grid) => grid.wf() && grid.low() == bounds.low() && grid.high()
                            == bounds.high() && forall|p: Position| #[trigger] grid.shade(p) == 0,
                        Err(error) => error.text() == no_room(size),
                    }
                } else {
                    failure(r) == Some(oversized(size))
                }
            }),
    {
        let size = bounds.size();
        proof {
            lemma_cells_along_each_axis(at(size));
        }
        let count: i64 = match grid_cell_count(size) {
            Ok(count) => count,
            Err(error) => {
                return Err(error);
            },
        };
        if count > MAX_CELLS {
            let mut text = "the ".to_owned();
            push_dimensions(&mut text, size);
            text.append(" extent is too large to render");
            return Err(Error::message(text));
        }
        settle_blank(bounds, alloc_cells(count, size))
    }
}

/// Some room is that of an empty grid over an extent, if it was granted.
pub open spec fn is_room(bounds: Bounds, granted: Result<Vec<u32>, Error>) -> bool {
    let total = cell_total(extent_size(bounds.low(), bounds.high()));
    &&& 0 < total <= MAX_CELLS
    &&& granted matches Ok(cells) ==> cells@ == Seq::new(total as nat, |i: int| 0u32)
}

/// Make an empty grid over an extent of the room that was granted for its cells, or hand
/// the refusal on.
pub fn settle_blank(bounds: Bounds, granted: Result<Vec<u32>, Error>) -> (r: Result<Grid, Error>)
    requires
        is_room(bounds, granted),
    ensures
        match granted {
            Ok(_) => r is Ok && r->Ok_0.wf() && r->Ok_0.low() == bounds.low() && r->Ok_0.high()
                == bounds.high() && forall|p: Position| #[trigger] r->Ok_0.shade(p) == 0,
            Err(error) => failure(r) == Some(error.text()),
        },
{
    let cells = match granted {
        Ok(cells) => cells,
        Err(error) => {
            return Err(error);
        },
    };
    let size = bounds.size();
    proof {
        lemma_positive_factors(at(size));
    }
    let grid = Grid {
        min: bounds.min,
        dims: [size[0] as usize, size[1] as usize, size[2] as usize],
        cells,
    };
    assert forall|p: Position| #[trigger] grid.shade(p) == 0 by {
        if within(grid.low(), grid.high(), p) {
            lemma_slot_in_range(grid.size(), grid.offset(p));
        }
    }
    Ok(grid)
}

/// Sizes whose product is positive and within the limit are themselves positive
/// and below the largest size.
proof fn lemma_positive_factors(size: Position)
    requires
        size.0 >= 0,
        size.1 >= 0,
        size.2 >= 0,
        0 < cell_total(size) <= MAX_CELLS,
    ensures
        1 <= size.0 <= MAX_CELLS,
        1 <= size.1 <= MAX_CELLS,
        1 <= size.2 <= MAX_CELLS,
{
    let (x, y, z) = size;
    let xy = x * y;
    assert(xy > 0 && z > 0 && z <= xy * z && xy <= xy * z) by (nonlinear_arith)
        requires
            x >= 0,
            y >= 0,
            xy == x * y,
            z >= 0,
            xy * z > 0,
    ;
    assert(x > 0 && y > 0 && x <= xy && y <= xy) by (nonlinear_arith)
        requires
            x >= 0,
            y >= 0,
            xy == x * y,
            xy > 0,
    ;
}

/// A block that is drawn: one at a position that is not air.
pub open spec fn seen(
    blocks: Multiset<(Position, Seq<char>)>,
    p: Position,
    name: Seq<char>,
) -> bool {
    !air(name) && blocks.count((p, name)) > 0
}

/// A block is drawn somewhere.
pub open spec fn any_seen(blocks: Multiset<(Position, Seq<char>)>) -> bool {
    exists|p: Position, name: Seq<char>| #[trigger] seen(blocks, p, name)
}

/// An extent holds all blocks that are drawn, and on each of its faces there is
/// one.
pub open spec fn is_tight(
    low: Position,
    high: Position,
    blocks: Multiset<(Position, Seq<char>)>,
) -> bool {
    &&& forall|p: Position, name: Seq<char>| #[trigger] seen(blocks, p, name) ==> within(low, high, p)
    &&& exists|p: Position, name: Seq<char>| #[trigger] seen(blocks, p, name) && p.0 == low.0
    &&& exists|p: Position, name: Seq<char>| #[trigger] seen(blocks, p, name) && p.1 == low.1
    &&& exists|p: Position, name: Seq<char>| #[trigger] seen(blocks, p, name) && p.2 == low.2
    &&& exists|p: Position, name: Seq<char>| #[trigger] seen(blocks, p, name) && p.0 == high.0
    &&& exists|p: Position, name: Seq<char>| #[trigger] seen(blocks, p, name) && p.1 == high.1
    &&& exists|p: Position, name: Seq<char>| #[trigger] seen(blocks, p, name) && p.2 == high.2
}

/// A build has one tight extent only.
pub proof fn lemma_tight_extent_is_unique(
    a_low: Position,
    a_high: Position,
    b_low: Position,
    b_high: Position,
    blocks: Multiset<(Position, Seq<char>)>,
)
    requires
        is_tight(a_low, a_high, blocks),
        is_tight(b_low, b_high, blocks),
    ensures
        a_low == b_low,
        a_high == b_high,
{
}

/// A cell that is drawn.
pub open spec fn drawn(cell: Cell<'_>) -> bool {
    !air(cell.name@)
}

/// An extent is tight around the first `n` cells.
pub open spec fn tight_around(cells: Seq<Cell<'_>>, n: int, low: Position, high: Position) -> bool {
    &&& forall|k: int|
        0 <= k < n && drawn(#[trigger] cells[k]) ==> within(low, high, cells[k].position())
    &&& exists|k: int| 0 <= k < n && drawn(#[trigger] cells[k]) && cells[k].x == low.0
    &&& exists|k: int| 0 <= k < n && drawn(#[trigger] cells[k]) && cells[k].y == low.1
    &&& exists|k: int| 0 <= k < n && drawn(#[trigger] cells[k]) && cells[k].z == low.2
    &&& exists|k: int| 0 <= k < n && drawn(#[trigger] cells[k]) && cells[k].x == high.0
    &&& exists|k: int| 0 <= k < n && drawn(#[trigger] cells[k]) && cells[k].y == high.1
    &&& exists|k: int| 0 <= k < n && drawn(#[trigger] cells[k]) && cells[k].z == high.2
}

/// The extent of the cells that are drawn.
fn drawn_extent(cells: &Vec<Cell<'_>>) -> (r: Option<Bounds>)
    ensures
        match r {
            Some(bounds) => tight_around(
                cells@,
                cells@.len() as int,
                bounds.low(),
                bounds.high(),
            ),
            None => forall|k: int| 0 <= k < cells@.len() ==> !drawn(#[trigger] cells@[k]),
        },
{
    let mut bounds: Option<Bounds> = None;
    let mut i: usize = 0;
    while i < cells.len()
        invariant
            i <= cells.len(),
            match bounds {
                Some(bounds) => tight_around(cells@, i as int, bounds.low(), bounds.high()),
                None => forall|k: int| 0 <= k < i ==> !drawn(#[trigger] cells@[k]),
            },
        decreases cells.len() - i,
    {
        let cell = cells[i];
        if !is_air_name(cell.name) {
            assert(drawn(cells@[i as int]));
            bounds = match bounds {
                Some(extent) => {
                    let mut wider = extent;
                    wider.extend(cell.x, cell.y, cell.z);
                    proof {
                        lemma_tight_extends(cells@, i as int, extent.low(), extent.high());
                    }
                    Some(wider)
                },
                None => Some(Bounds::singleton(cell.x, cell.y, cell.z)),
            };
        } else {
            assert(!drawn(cells@[i as int]));
            proof {
                if bounds is Some {
                    lemma_tight_passes(
                        cells@,
                        i as int,
                        bounds->0.low(),
                        bounds->0.high(),
                    );
                }
            }
        }
        i = i + 1;
    }
    bounds
}

proof fn lemma_tight_passes(cells: Seq<Cell<'_>>, n: int, low: Position, high: Position)
    requires
        0 <= n < cells.len(),
        tight_around(cells, n, low, high),
        !drawn(cells[n]),
    ensures
        tight_around(cells, n + 1, low, high),
{
}

proof fn lemma_tight_extends(cells: Seq<Cell<'_>>, n: int, low: Position, high: Position)
    requires
        0 <= n < cells.len(),
        tight_around(cells, n, low, high),
        drawn(cells[n]),
    ensures
        tight_around(
            cells,
            n + 1,
            least_of(low, cells[n].position()),
            greatest_of(high, cells[n].position()),
        ),
{
}

/// The cells among some that are drawn are the blocks that are seen.
proof fn lemma_drawn_is_seen(cells: Seq<Cell<'_>>, p: Position, name: Seq<char>)
    ensures
        seen(blocks_among(occupants(cells)), p, name) <==> !air(name) && exists|k: int|
            0 <= k < cells.len() && (#[trigger] cells[k]).occupant() == (p, name),
{
    lemma_blocks_among(cells, (p, name));
    lemma_air_is_unoccupied(name);
}

proof fn lemma_tight_around_blocks(cells: Seq<Cell<'_>>, low: Position, high: Position)
    requires
        tight_around(cells, cells.len() as int, low, high),
    ensures
        is_tight(low, high, blocks_among(occupants(cells))),
{
    let blocks = blocks_among(occupants(cells));
    assert forall|k: int| 0 <= k < cells.len() && drawn(#[trigger] cells[k]) implies seen(
        blocks,
        cells[k].position(),
        cells[k].name@,
    ) by {
        lemma_drawn_is_seen(cells, cells[k].position(), cells[k].name@);
        assert(cells[k].occupant() == (cells[k].position(), cells[k].name@));
    }
    assert forall|p: Position, name: Seq<char>| #[trigger] seen(blocks, p, name) implies within(
        low,
        high,
        p,
    ) by {
        lemma_drawn_is_seen(cells, p, name);
        let k = choose|k: int|
            0 <= k < cells.len() && (#[trigger] cells[k]).occupant() == (p, name);
        assert(drawn(cells[k]));
    }
    let a = choose|k: int| 0 <= k < cells.len() && drawn(#[trigger] cells[k]) && cells[k].x == low.0;
    assert(seen(blocks, cells[a].position(), cells[a].name@));
    let b = choose|k: int| 0 <= k < cells.len() && drawn(#[trigger] cells[k]) && cells[k].y == low.1;
    assert(seen(blocks, cells[b].position(), cells[b].name@));
    let c = choose|k: int| 0 <= k < cells.len() && drawn(#[trigger] cells[k]) && cells[k].z == low.2;
    assert(seen(blocks, cells[c].position(), cells[c].name@));
    let d = choose|k: int| 0 <= k < cells.len() && drawn(#[trigger] cells[k]) && cells[k].x == high.0;
    assert(seen(blocks, cells[d].position(), cells[d].name@));
    let e = choose|k: int| 0 <= k < cells.len() && drawn(#[trigger] cells[k]) && cells[k].y == high.1;
    assert(seen(blocks, cells[e].position(), cells[e].name@));
    let f = choose|k: int| 0 <= k < cells.len() && drawn(#[trigger] cells[k]) && cells[k].z == high.2;
    assert(seen(blocks, cells[f].position(), cells[f].name@));
}

/// A grid shows a build: a cell is empty where no block is seen, and otherwise
/// has the colour of a block that is seen there.
pub open spec fn shows_blocks(grid: Grid, blocks: Multiset<(Position, Seq<char>)>) -> bool {
    &&& forall|p: Position| #[trigger]
        grid.shade(p) != 0 ==> exists|name: Seq<char>| #[trigger]
            seen(blocks, p, name) && color_of(name) == grid.shade(p)
    &&& forall|p: Position, name: Seq<char>| #[trigger] seen(blocks, p, name) ==> grid.shade(p) != 0
}

/// The colour of the last of the first `n` cells that is drawn at a position, zero where
/// none is.
pub open spec fn last_shade(cells: Seq<Cell<'_>>, n: int, p: Position) -> int
    decreases n,
{
    if n <= 0 {
        0
    } else if drawn(cells[n - 1]) && cells[n - 1].position() == p {
        color_of(cells[n - 1].name@)
    } else {
        last_shade(cells, n - 1, p)
    }
}

/// A grid shows some cells: each position has the colour of the last of them there.
pub open spec fn shows_last(grid: Grid, cells: Seq<Cell<'_>>) -> bool {
    forall|p: Position| #[trigger] grid.shade(p) == last_shade(cells, cells.len() as int, p)
}

proof fn lemma_no_shade(cells: Seq<Cell<'_>>, n: int, p: Position)
    requires
        n <= cells.len(),
        forall|k: int| 0 <= k < n ==> !drawn(#[trigger] cells[k]),
    ensures
        last_shade(cells, n, p) == 0,
    decreases n,
{
    if n > 0 {
        lemma_no_shade(cells, n - 1, p);
    }
}

/// A grid shows the first `n` cells.
spec fn shows_cells(grid: Grid, cells: Seq<Cell<'_>>, n: int) -> bool {
    &&& forall|p: Position| #[trigger]
        grid.shade(p) != 0 ==> exists|k: int|
            0 <= k < n && drawn(#[trigger] cells[k]) && cells[k].position() == p && color_of(
                cells[k].name@,
            ) == grid.shade(p)
    &&& forall|k: int|
        0 <= k < n && drawn(#[trigger] cells[k]) ==> grid.shade(cells[k].position()) != 0
}

proof fn lemma_shows_blocks(grid: Grid, cells: Seq<Cell<'_>>)
    requires
        shows_cells(grid, cells, cells.len() as int),
    ensures
        shows_blocks(grid, blocks_among(occupants(cells))),
{
    let blocks = blocks_among(occupants(cells));
    assert forall|p: Position| #[trigger] grid.shade(p) != 0 implies exists|name: Seq<char>|
        #[trigger] seen(blocks, p, name) && color_of(name) == grid.shade(p) by {
        let k = choose|k: int|
            0 <= k < cells.len() && drawn(#[trigger] cells[k]) && cells[k].position() == p
                && color_of(cells[k].name@) == grid.shade(p);
        lemma_drawn_is_seen(cells, p, cells[k].name@);
        assert(cells[k].occupant() == (p, cells[k].name@));
        assert(seen(blocks, p, cells[k].name@));
    }
    assert forall|p: Position, name: Seq<char>| #[trigger] seen(blocks, p, name) implies grid.shade(
        p,
    ) != 0 by {
        lemma_drawn_is_seen(cells, p, name);
        let k = choose|k: int|
            0 <= k < cells.len() && (#[trigger] cells[k]).occupant() == (p, name);
        assert(drawn(cells[k]));
    }
}

/// What a grid for the blocks of a build is.
pub open spec fn tells_grid(
    r: Result<Grid, Error>,
    blocks: Multiset<(Position, Seq<char>)>,
) -> bool {
    if !any_seen(blocks) {
        r is Ok && r->Ok_0.wf() && r->Ok_0.low() == (0int, 0int, 0int) && r->Ok_0.high() == (
            0int,
            0int,
            0int,
        ) && r->Ok_0.shade((0int, 0int, 0int)) == 0
    } else {
        exists|low: Position, high: Position| #[trigger]
            is_tight(low, high, blocks) && tells_grid_over(r, blocks, low, high)
    }
}

/// What a grid for the blocks of a build with the given extent is.
pub open spec fn tells_grid_over(
    r: Result<Grid, Error>,
    blocks: Multiset<(Position, Seq<char>)>,
    low: Position,
    high: Position,
) -> bool {
    let size = extent_size(low, high);
    if cell_total(size) > i64::MAX {
        failure(r) == Some(oversized(size))
    } else if cell_total(size) > MAX_CELLS {
        failure(r) == Some(oversized_build(size))
    } else {
        match r {
            Ok(grid) => grid.wf() && grid.low() == low && grid.high() == high && shows_blocks(
                grid,
                blocks,
            ),
            Err(error) => error.text() == no_room(size),
        }
    }
}

impl Grid {
    /// Build a dense grid from every block of a build that is not air.
    pub fn from_schematic(schematic: &UniversalSchematic) -> (r: Result<Self, Error>)
        requires
            walkable(*schematic),
        ensures
            tells_grid(r, built(*schematic)),
    {
        let all = cells(schematic);
        Self::from_cells(&all)
    }

    /// Build a dense grid from every cell that is not air.
    /// Where several have one position the last of them shows.
    pub fn from_cells(cells: &Vec<Cell<'_>>) -> (r: Result<Self, Error>)
        ensures
            tells_grid(r, blocks_among(occupants(cells@))),
            r matches Ok(grid) ==> shows_last(grid, cells@),
    {
        let ghost blocks = blocks_among(occupants(cells@));
        let bounds = match drawn_extent(cells) {
            Some(bounds) => bounds,
            None => {
                // An empty build is legitimate — a schematic that is all air — and
                // renders as a blank panel rather than an error.
                proof {
                    assert forall|p: Position, name: Seq<char>| !(#[trigger] seen(
                        blocks,
                        p,
                        name,
                    )) by {
                        lemma_drawn_is_seen(cells@, p, name);
                        if seen(blocks, p, name) {
                            let k = choose|k: int|
                                0 <= k < cells@.len() && (#[trigger] cells@[k]).occupant() == (
                                    p,
                                    name,
                                );
                            assert(drawn(cells@[k]));
                        }
                    }
                }
                let mut one: Vec<u32> = Vec::new();
                one.push(0);
                let grid = Grid { min: [0, 0, 0], dims: [1, 1, 1], cells: one };
                assert(grid.wf());
                assert forall|p: Position| #[trigger] grid.shade(p) == last_shade(
                    cells@,
                    cells@.len() as int,
                    p,
                ) by {
                    lemma_no_shade(cells@, cells@.len() as int, p);
                }
                return Ok(grid);
            },
        };
        let size = bounds.size();
        proof {
            lemma_tight_around_blocks(cells@, bounds.low(), bounds.high());
            assert(is_tight(bounds.low(), bounds.high(), blocks));
            lemma_extent_is_positive(bounds.low(), bounds.high());
        }
        let count: i64 = match grid_cell_count(size) {
            Ok(count) => count,
            Err(error) => {
                return Err(error);
            },
        };
        if count > MAX_CELLS {
            let mut text = "the build's ".to_owned();
            push_dimensions(&mut text, size);
            text.append(" extent (");
            push_decimal(&mut text, count as u64);
            text.append(" cells) is too large to render");
            return Err(Error::message(text));
        }
        settle_grid(cells, bounds, alloc_cells(count, size))
    }
}

/// Make a grid of some cells with the given extent of the room that was granted for it, or
/// hand the refusal on. Where several cells have one position the last of them shows.
pub fn settle_grid(
    cells: &Vec<Cell<'_>>,
    bounds: Bounds,
    granted: Result<Vec<u32>, Error>,
) -> (r: Result<Grid, Error>)
    requires
        tight_around(cells@, cells@.len() as int, bounds.low(), bounds.high()),
        is_room(bounds, granted),
    ensures
        match granted {
            Ok(_) => r is Ok && r->Ok_0.wf() && r->Ok_0.low() == bounds.low() && r->Ok_0.high()
                == bounds.high() && shows_last(r->Ok_0, cells@) && shows_blocks(
                r->Ok_0,
                blocks_among(occupants(cells@)),
            ),
            Err(error) => failure(r) == Some(error.text()),
        },
{
    let mut grid = match settle_blank(bounds, granted) {
        Ok(grid) => grid,
        Err(error) => {
            return Err(error);
        },
    };
    let mut i: usize = 0;
    while i < cells.len()
        invariant
            i <= cells.len(),
            grid.wf(),
            grid.low() == bounds.low(),
            grid.high() == bounds.high(),
            tight_around(cells@, cells@.len() as int, bounds.low(), bounds.high()),
            shows_cells(grid, cells@, i as int),
            forall|p: Position| #[trigger] grid.shade(p) == last_shade(cells@, i as int, p),
        decreases cells.len() - i,
    {
        let cell = cells[i];
        let ghost before = grid;
        if !is_air_name(cell.name) {
            assert(drawn(cells@[i as int]));
            let color: u32 = name_color(cell.name);
            grid.set(cell.x, cell.y, cell.z, color);
            proof {
                lemma_shows_one_more(before, grid, cells@, i as int);
            }
        } else {
            assert(!drawn(cells@[i as int]));
        }
        i = i + 1;
    }
    proof {
        lemma_shows_blocks(grid, cells@);
    }
    Ok(grid)
}

proof fn lemma_extent_is_positive(low: Position, high: Position)
    requires
        low.0 <= high.0,
        low.1 <= high.1,
        low.2 <= high.2,
    ensures
        cell_total(extent_size(low, high)) > 0,
{
    let (x, y, z) = extent_size(low, high);
    assert(x * y > 0) by (nonlinear_arith)
        requires
            x > 0,
            y > 0,
    ;
    let xy = x * y;
    assert(xy * z > 0) by (nonlinear_arith)
        requires
            xy > 0,
            z > 0,
    ;
}

proof fn lemma_shows_one_more(before: Grid, after: Grid, cells: Seq<Cell<'_>>, n: int)
    requires
        0 <= n < cells.len(),
        drawn(cells[n]),
        shows_cells(before, cells, n),
        within(before.low(), before.high(), cells[n].position()),
        color_of(cells[n].name@) > 0,
        forall|p: Position| #[trigger]
            after.shade(p) == (if p == cells[n].position() {
                color_of(cells[n].name@)
            } else {
                before.shade(p) as int
            }),
    ensures
        shows_cells(after, cells, n + 1),
{
    assert forall|p: Position| #[trigger] after.shade(p) != 0 implies exists|k: int|
        0 <= k < n + 1 && drawn(#[trigger] cells[k]) && cells[k].position() == p && color_of(
            cells[k].name@,
        ) == after.shade(p) by {
        if p == cells[n].position() {
            assert(drawn(cells[n]));
        } else {
            assert(before.shade(p) != 0);
            let k = choose|k: int|
                0 <= k < n && drawn(#[trigger] cells[k]) && cells[k].position() == p && color_of(
                    cells[k].name@,
                ) == before.shade(p);
            assert(drawn(cells[k]));
        }
    }
}

/// The axis along which a ray next leaves its cell.
#[derive(Clone, Copy, Debug, PartialEq, Eq, Structural)]
pub enum Axis {
    X,
    Y,
    Z,
}

/// The axis whose boundary a ray meets first, by which of two boundaries is met
/// first, for each two of them. Where none is first a later axis is taken.
pub fn next_axis(x_before_y: bool, x_before_z: bool, y_before_z: bool) -> (r: Axis)
    ensures
        r == Axis::X <==> x_before_y && x_before_z,
        r == Axis::Y <==> !x_before_y && y_before_z,
{
    if x_before_y {
        if x_before_z {
            Axis::X
        } else {
            Axis::Z
        }
    } else {
        if y_before_z {
            Axis::Y
        } else {
            Axis::Z
        }
    }
}

/// The next cell along an axis.
pub open spec fn neighbour(cell: Position, axis: Axis, forward: bool) -> Position {
    let step = if forward { 1int } else { -1int };
    match axis {
        Axis::X => (cell.0 + step, cell.1, cell.2),
        Axis::Y => (cell.0, cell.1 + step, cell.2),
        Axis::Z => (cell.0, cell.1, cell.2 + step),
    }
}

/// The face through which a ray enters a cell, along an axis and in the direction
/// it goes: 0, 1 and 2 are the faces towards greater x, y and z, and 3, 4 and 5
/// those towards lesser.
pub open spec fn entry_face(axis: Axis, forward: bool) -> u8 {
    match axis {
        Axis::X => if forward { 3 } else { 0 },
        Axis::Y => if forward { 4 } else { 1 },
        Axis::Z => if forward { 5 } else { 2 },
    }
}

/// Step into the next cell along an axis: the cell, and the face it is entered
/// through. None where there is no next cell to be written down.
pub fn step_into(cell: [i32; 3], axis: Axis, forward: bool) -> (r: Option<([i32; 3], u8)>)
    ensures
        match r {
            Some((next, face)) => at(next) == neighbour(at(cell), axis, forward) && face
                == entry_face(axis, forward),
            None => {
                let (x, y, z) = neighbour(at(cell), axis, forward);
                !(i32::MIN <= x <= i32::MAX && i32::MIN <= y <= i32::MAX && i32::MIN <= z
                    <= i32::MAX)
            },
        },
{
    let here: i32 = match axis {
        Axis::X => cell[0],
        Axis::Y => cell[1],
        Axis::Z => cell[2],
    };
    let there: i32 = if forward {
        if here == i32::MAX {
            return None;
        }
        here + 1
    } else {
        if here == i32::MIN {
            return None;
        }
        here - 1
    };
    let next = match axis {
        Axis::X => [there, cell[1], cell[2]],
        Axis::Y => [cell[0], there, cell[2]],
        Axis::Z => [cell[0], cell[1], there],
    };
    Some((next, face_entered(axis, forward)))
}

/// The face through which a ray enters a cell.
pub fn face_entered(axis: Axis, forward: bool) -> (r: u8)
    ensures
        r == entry_face(axis, forward),
{
    match axis {
        Axis::X => if forward {
            3
        } else {
            0
        },
        Axis::Y => if forward {
            4
        } else {
            1
        },
        Axis::Z => if forward {
            5
        } else {
            2
        },
    }
}

/// A ray on its way: the cell it is in, the face it entered through, and whether it
/// goes towards greater coordinates along each axis.
#[derive(Clone, Copy, Debug)]
pub struct Walk {
    pub cell: [i32; 3],
    pub face: u8,
    pub forward: [bool; 3],
}

/// How the next boundaries along the axes lie along a ray: which of two comes first,
/// and which lie past the grid.
#[derive(Clone, Copy, Debug)]
pub struct Crossings {
    pub x_before_y: bool,
    pub x_before_z: bool,
    pub y_before_z: bool,
    pub past: [bool; 3],
}

/// What becomes of a ray in a cell.
#[derive(Clone, Copy, Debug)]
pub enum Turn {
    /// It meets a block of this colour, on this face.
    Hit { color: u32, face: u8 },
    /// It leaves the grid.
    Left,
    /// It goes on into the next cell, across a boundary along this axis.
    Onward { walk: Walk, axis: Axis },
}

/// The number of an axis.
pub open spec fn axis_number(axis: Axis) -> int {
    match axis {
        Axis::X => 0,
        Axis::Y => 1,
        Axis::Z => 2,
    }
}

/// The axis whose boundary comes first.
pub open spec fn first_axis(crossings: Crossings) -> Axis {
    if crossings.x_before_y && crossings.x_before_z {
        Axis::X
    } else if !crossings.x_before_y && crossings.y_before_z {
        Axis::Y
    } else {
        Axis::Z
    }
}

/// Let a ray meet the block of its cell, or take it one cell further.
pub fn take_turn(walk: &Walk, grid: &Grid, crossings: &Crossings) -> (r: Turn)
    requires
        grid.wf(),
    ensures
        ({
            let axis = first_axis(*crossings);
            let forward = walk.forward@[axis_number(axis)];
            if grid.shade(at(walk.cell)) != 0 {
                r == (Turn::Hit { color: grid.shade(at(walk.cell)), face: walk.face })
            } else if crossings.past@[axis_number(axis)] {
                r == Turn::Left
            } else {
                match r {
                    Turn::Onward { walk: next, axis: along } => along == axis && at(next.cell)
                        == neighbour(at(walk.cell), axis, forward) && next.face == entry_face(
                        axis,
                        forward,
                    ) && next.forward == walk.forward,
                    Turn::Left => {
                        let (x, y, z) = neighbour(at(walk.cell), axis, forward);
                        !(i32::MIN <= x <= i32::MAX && i32::MIN <= y <= i32::MAX && i32::MIN <= z
                            <= i32::MAX)
                    },
                    Turn::Hit { .. } => false,
                }
            }
        }),
{
    match grid.color_at(walk.cell[0], walk.cell[1], walk.cell[2]) {
        Some(color) => {
            return Turn::Hit { color, face: walk.face };
        },
        None => {},
    }
    let axis = next_axis(crossings.x_before_y, crossings.x_before_z, crossings.y_before_z);
    let (past, forward) = match axis {
        Axis::X => (crossings.past[0], walk.forward[0]),
        Axis::Y => (crossings.past[1], walk.forward[1]),
        Axis::Z => (crossings.past[2], walk.forward[2]),
    };
    if past {
        return Turn::Left;
    }
    match step_into(walk.cell, axis, forward) {
        Some((cell, face)) => Turn::Onward {
            walk: Walk { cell, face, forward: walk.forward },
            axis,
        },
        None => Turn::Left,
    }
}

/// The directional light level of a face, in hundredths: full from above, least
/// from below.
pub fn face_shade(face: u8) -> (r: u8)
    ensures
        r == (if face == 1 {
            100u8
        } else if face == 4 {
            55u8
        } else if face == 0 || face == 3 {
            82u8
        } else {
            68u8
        }),
{
    if face == 1 {
        100
    } else if face == 4 {
        55
    } else if face == 0 || face == 3 {
        82
    } else {
        68
    }
}

/// A ray that steps into a cell and back is where it was, and comes back through
/// the opposite face.
pub proof fn lemma_steps_undo(cell: Position, axis: Axis, forward: bool)
    ensures
        neighbour(neighbour(cell, axis, forward), axis, !forward) == cell,
        (entry_face(axis, forward) + 3) % 6 == entry_face(axis, !forward),
{
}

/// A ray leaves its cell through the boundary that is nearest: whatever the distances along
/// the three axes are, none is less than that of the axis that is taken.
pub proof fn lemma_next_axis_is_nearest(x: int, y: int, z: int, r: Axis)
    requires
        call_ensures(next_axis, (x < y, x < z, y < z), r),
    ensures
        r == Axis::X ==> x <= y && x <= z,
        r == Axis::Y ==> y <= x && y <= z,
        r == Axis::Z ==> z <= x && z <= y,
{
}

/// A step goes one cell along its axis, up where the ray goes forward and down where it does
/// not, and leaves the other two coordinates as they are. The cell is entered through the
/// face towards the cell that was left. Only at the end of the range there is none.
pub proof fn lemma_step_goes_one_cell(
    cell: [i32; 3],
    axis: Axis,
    forward: bool,
    r: Option<([i32; 3], u8)>,
)
    requires
        call_ensures(step_into, (cell, axis, forward), r),
    ensures
        ({
            let along = if axis == Axis::X {
                0int
            } else if axis == Axis::Y {
                1
            } else {
                2
            };
            match r {
                Some((next, face)) => {
                    &&& forall|i: int|
                        0 <= i < 3 && i != along ==> #[trigger] next@[i] == cell@[i]
                    &&& forward ==> next@[along] == cell@[along] + 1 && face == along + 3
                    &&& !forward ==> next@[along] == cell@[along] - 1 && face == along
                },
                None => if forward {
                    cell@[along] == i32::MAX
                } else {
                    cell@[along] == i32::MIN
                },
            }
        }),
{
    if r is Some {
        let (next, face) = r->0;
        assert(at(next) == neighbour(at(cell), axis, forward));
        assert forall|i: int|
            0 <= i < 3 && (axis == Axis::X ==> i != 0) && (axis == Axis::Y ==> i != 1) && (axis
                == Axis::Z ==> i != 2) implies #[trigger] next@[i] == cell@[i] by {
            assert(i == 0 || i == 1 || i == 2);
        }
    }
}

/// A turn of a ray ends it at a block, and only there: an empty cell is passed through along
/// the first axis, in the direction that the ray has along that axis, and the direction stays.
pub proof fn lemma_turn_follows_the_ray(
    walk: &Walk,
    grid: &Grid,
    crossings: &Crossings,
    r: Turn,
)
    requires
        call_ensures(take_turn, (walk, grid, crossings), r),
    ensures
        grid.shade(at(walk.cell)) != 0 <==> r is Hit,
        r matches Turn::Hit { color, face } ==> color == grid.shade(at(walk.cell)) && face
            == walk.face,
        r matches Turn::Onward { walk: next, axis } ==> {
            &&& next.forward == walk.forward
            &&& call_first(*crossings, axis)
            &&& axis == Axis::X ==> next.cell@[0] == walk.cell@[0] + (if walk.forward@[0] {
                1int
            } else {
                -1
            }) && next.cell@[1] == walk.cell@[1] && next.cell@[2] == walk.cell@[2]
                && !crossings.past@[0]
            &&& axis == Axis::Y ==> next.cell@[1] == walk.cell@[1] + (if walk.forward@[1] {
                1int
            } else {
                -1
            }) && next.cell@[0] == walk.cell@[0] && next.cell@[2] == walk.cell@[2]
                && !crossings.past@[1]
            &&& axis == Axis::Z ==> next.cell@[2] == walk.cell@[2] + (if walk.forward@[2] {
                1int
            } else {
                -1
            }) && next.cell@[0] == walk.cell@[0] && next.cell@[1] == walk.cell@[1]
                && !crossings.past@[2]
        },
{
}

/// An axis is the one whose boundary comes first, by which of two comes first.
pub open spec fn call_first(crossings: Crossings, axis: Axis) -> bool {
    &&& axis == Axis::X ==> crossings.x_before_y && crossings.x_before_z
    &&& axis == Axis::Y ==> !crossings.x_before_y && crossings.y_before_z
    &&& axis == Axis::Z ==> (crossings.x_before_y ==> !crossings.x_before_z) && (
    !crossings.x_before_y ==> !crossings.y_before_z)
}

/// Light falls from above: a top is brighter than any side, and a side than a bottom. Faces
/// on opposite sides are lit alike, and those along x more than those along z.
pub proof fn lemma_light_falls_from_above(
    top: u8,
    bottom: u8,
    east: u8,
    west: u8,
    south: u8,
    north: u8,
)
    requires
        call_ensures(face_shade, (1u8,), top),
        call_ensures(face_shade, (4u8,), bottom),
        call_ensures(face_shade, (0u8,), east),
        call_ensures(face_shade, (3u8,), west),
        call_ensures(face_shade, (2u8,), south),
        call_ensures(face_shade, (5u8,), north),
    ensures
        top == 100,
        top > east > south > bottom > 0,
        east == west,
        south == north,
{
}

/// A grid shows the last of some cells at each position, unless it is air: where a cell that
/// is not air has none behind it at its position that is not, the grid has its colour there.
pub proof fn lemma_grid_shows_the_last_cell(
    cells: &Vec<Cell<'_>>,
    r: Result<Grid, Error>,
    k: int,
)
    requires
        call_ensures(Grid::from_cells, (cells,), r),
        r is Ok,
        0 <= k < cells@.len(),
        !air(cells@[k].name@),
        forall|l: int|
            k < l < cells@.len() && !air((#[trigger] cells@[l]).name@) ==> cells@[l].position()
                != cells@[k].position(),
    ensures
        r->Ok_0.shade(cells@[k].position()) == color_of(cells@[k].name@),
{
    lemma_last_shade(cells@, cells@.len() as int, cells@[k].position(), k);
}

proof fn lemma_last_shade(cells: Seq<Cell<'_>>, n: int, p: Position, k: int)
    requires
        0 <= k < n <= cells.len(),
        cells[k].position() == p,
        !air(cells[k].name@),
        forall|l: int|
            k < l < n && !air((#[trigger] cells[l]).name@) ==> cells[l].position() != p,
    ensures
        last_shade(cells, n, p) == color_of(cells[k].name@),
    decreases n,
{
    if n - 1 > k {
        lemma_last_shade(cells, n - 1, p, k);
    }
}

/// The size of an extent counts its cells from face to face along each axis.
pub proof fn lemma_size_counts_both_faces(bounds: Bounds, r: [i32; 3], i: int)
    requires
        call_ensures(Bounds::size, (bounds,), r),
        0 <= i < 3,
        bounds.min@[i] <= bounds.max@[i],
        bounds.max@[i] - bounds.min@[i] < i32::MAX,
    ensures
        bounds.min@[i] + r@[i] == bounds.max@[i] + 1,
{
    assert(i == 0 || i == 1 || i == 2);
}

/// The cells of an extent are as many as its three sizes make up, and an extent without cells,
/// or with more than can be counted, is refused in words that tell its size.
pub proof fn lemma_cells_are_counted(size: [i32; 3], r: Result<i64, Error>)
    requires
        call_ensures(grid_cell_count, (size,), r),
    ensures
        r matches Ok(count) ==> size@[0] > 0 && size@[1] > 0 && size@[2] > 0 && count == size@[0]
            * size@[1] * size@[2],
        r matches Err(error) ==> (size@[0] <= 0 || size@[1] <= 0 || size@[2] <= 0 || size@[0]
            * size@[1] * size@[2] > i64::MAX) && error.text() == "the "@ + (signed_decimal(
            size@[0] as int,
        ) + "x"@ + signed_decimal(size@[1] as int) + "x"@ + signed_decimal(size@[2] as int))
            + " extent is too large to render"@,
{
}

/// The extent of a cell is the cell.
pub proof fn lemma_extent_of_a_cell_is_the_cell(x: i32, y: i32, z: i32, r: Bounds, size: [i32; 3])
    requires
        call_ensures(Bounds::singleton, (x, y, z), r),
        call_ensures(Bounds::size, (r,), size),
    ensures
        r.min@[0] == x && r.min@[1] == y && r.min@[2] == z,
        r.max@ == r.min@,
        size@[0] == 1 && size@[1] == 1 && size@[2] == 1,
{
    assert(r.max@ =~= r.min@);
}

/// A union reaches along each axis from the lesser of the two beginnings to the greater of the
/// two ends.
pub proof fn lemma_union_reaches_over_both(a: Bounds, b: Bounds, r: Bounds, i: int)
    requires
        call_ensures(Bounds::union, (a, b), r),
        0 <= i < 3,
    ensures
        r.min@[i] <= a.min@[i] && r.min@[i] <= b.min@[i],
        r.min@[i] == a.min@[i] || r.min@[i] == b.min@[i],
        r.max@[i] >= a.max@[i] && r.max@[i] >= b.max@[i],
        r.max@[i] == a.max@[i] || r.max@[i] == b.max@[i],
{
    assert(i == 0 || i == 1 || i == 2);
}

/// A cell of a grid is looked up by its place along each axis, and shows a colour exactly where
/// one is held there.
pub proof fn lemma_cells_stand_layer_by_layer(
    grid: &Grid,
    x: i32,
    y: i32,
    z: i32,
    r: Option<u32>,
)
    requires
        call_ensures(Grid::color_at, (grid, x, y, z), r),
        grid.wf(),
    ensures
        ({
            let (i, j, k) = (x - grid.min@[0], y - grid.min@[1], z - grid.min@[2]);
            let (w, h, l) = (grid.dims@[0], grid.dims@[1], grid.dims@[2]);
            if 0 <= i < w && 0 <= j < h && 0 <= k < l {
                let held = grid.cells@[(j * l + k) * w + i];
                r == if held != 0 {
                    Some(held)
                } else {
                    None
                }
            } else {
                r is None
            }
        }),
{
}

/// An empty grid is made over an extent with cells, but no more than the limit, unless the
/// memory for it is refused, which is said in words that tell its size and its cells. It
/// spans the extent and shows nothing.
pub proof fn lemma_empty_grid_spans_its_extent(bounds: Bounds, r: Result<Grid, Error>, p: Position)
    requires
        call_ensures(Grid::empty_over, (bounds,), r),
        bounds.min@[0] <= bounds.max@[0],
        bounds.min@[1] <= bounds.max@[1],
        bounds.min@[2] <= bounds.max@[2],
        bounds.max@[0] - bounds.min@[0] < 100_000,
        bounds.max@[1] - bounds.min@[1] < 100_000,
        bounds.max@[2] - bounds.min@[2] < 100_000,
    ensures
        ({
            let x = bounds.max@[0] - bounds.min@[0] + 1;
            let y = bounds.max@[1] - bounds.min@[1] + 1;
            let z = bounds.max@[2] - bounds.min@[2] + 1;
            &&& r is Ok ==> x * y * z <= 536870912
            &&& r matches Ok(grid) ==> grid.low() == at(bounds.min) && grid.high() == at(bounds.max)
                && grid.shade(p) == 0
            &&& r is Err && x * y * z <= 536870912 ==> r->Err_0.text() == "the "@ + (signed_decimal(
                x,
            ) + "x"@ + signed_decimal(y) + "x"@ + signed_decimal(z)) + " extent ("@ + decimal(
                (x * y * z) as nat,
            ) + " cells) is too large to render"@
        }),
{
    assert(failure(r) is None <==> r is Ok);
    let x = bounds.max@[0] - bounds.min@[0] + 1;
    let y = bounds.max@[1] - bounds.min@[1] + 1;
    let z = bounds.max@[2] - bounds.min@[2] + 1;
    assert(extent_size(bounds.low(), bounds.high()) == (x, y, z));
    lemma_extent_is_positive(bounds.low(), bounds.high());
}

} // verus!
