//! Snapshots, the format in which `nucleation` dumps its own builds.
//!
//! Only as much of a snapshot is read here as shows that its reader comes to an end:
//! where each value stops, how deep values nest, and where regions are said to be.

use vstd::prelude::*;

verus! {

/// One value of a snapshot.
#[derive(Clone, Copy)]
pub enum Shape {
    /// That many bytes.
    Fixed(u64),
    /// Bytes with their number in front.
    Text,
    /// A value that may be missing.
    Optional(Row),
    /// Values of one kind with their number in front.
    Many(Row),
    /// Values one after another.
    All(Row),
    /// The corner and the size of a region, as they were written first and later.
    Place,
    LaterPlace,
    /// A tag of an entity, or of a block entity.
    EntityTag,
    BlockTag,
}

/// Values that stand one after another.
#[derive(Clone, Copy)]
pub enum Row {
    Byte,
    Word,
    Long,
    Bounds,
    Text,
    TextPair,
    First,
    Second,
    Third,
    Fourth,
    FirstNotes,
    Region,
    LaterRegion,
    NamedRegion,
    NamedLaterRegion,
    NamedDefinition,
    Block,
    Entity,
    BlockEntity,
    EntityField,
    BlockField,
    EntityTag,
    BlockTag,
}

/// The values of a row.
pub open spec fn parts(row: Row) -> Seq<Shape> {
    match row {
        Row::Byte => seq![Shape::Fixed(1)],
        Row::Word => seq![Shape::Fixed(4)],
        Row::Long => seq![Shape::Fixed(8)],
        Row::Bounds => seq![Shape::Fixed(24)],
        Row::Text => seq![Shape::Text],
        Row::TextPair => seq![Shape::Text, Shape::Text],
        Row::First => seq![
            Shape::All(Row::FirstNotes),
            Shape::All(Row::Region),
            Shape::Many(Row::NamedRegion),
            Shape::Text,
            Shape::Many(Row::NamedDefinition),
        ],
        Row::Second => seq![
            Shape::All(Row::FirstNotes),
            Shape::Optional(Row::Text),
            Shape::All(Row::Region),
            Shape::Many(Row::NamedRegion),
            Shape::Text,
            Shape::Many(Row::NamedDefinition),
        ],
        Row::Third => seq![
            Shape::All(Row::FirstNotes),
            Shape::Optional(Row::Text),
            Shape::Optional(Row::Text),
            Shape::All(Row::Region),
            Shape::Many(Row::NamedRegion),
            Shape::Text,
            Shape::Many(Row::NamedDefinition),
        ],
        Row::Fourth => seq![
            Shape::All(Row::FirstNotes),
            Shape::Optional(Row::Text),
            Shape::Optional(Row::Text),
            Shape::Text,
            Shape::All(Row::LaterRegion),
            Shape::Many(Row::NamedLaterRegion),
            Shape::Many(Row::NamedDefinition),
        ],
        Row::FirstNotes => seq![
            Shape::Optional(Row::Text),
            Shape::Optional(Row::Text),
            Shape::Optional(Row::Text),
            Shape::Optional(Row::Long),
            Shape::Optional(Row::Long),
            Shape::Optional(Row::Word),
            Shape::Optional(Row::Word),
            Shape::Optional(Row::Word),
        ],
        Row::Region => seq![
            Shape::Text,
            Shape::Place,
            Shape::Many(Row::Long),
            Shape::Many(Row::Block),
            Shape::Many(Row::Entity),
            Shape::Many(Row::BlockEntity),
        ],
        Row::LaterRegion => seq![
            Shape::Text,
            Shape::LaterPlace,
            Shape::Many(Row::Block),
            Shape::Text,
            Shape::Many(Row::Entity),
            Shape::Many(Row::BlockEntity),
        ],
        Row::NamedRegion => seq![Shape::Text, Shape::All(Row::Region)],
        Row::NamedLaterRegion => seq![Shape::Text, Shape::All(Row::LaterRegion)],
        Row::NamedDefinition => seq![
            Shape::Text,
            Shape::Many(Row::Bounds),
            Shape::Many(Row::TextPair),
        ],
        Row::Block => seq![Shape::Text, Shape::Many(Row::TextPair)],
        Row::Entity => seq![Shape::Text, Shape::Fixed(24), Shape::Many(Row::EntityField)],
        Row::BlockEntity => seq![Shape::Many(Row::BlockField), Shape::Text, Shape::Fixed(12)],
        Row::EntityField => seq![Shape::Text, Shape::EntityTag],
        Row::BlockField => seq![Shape::Text, Shape::BlockTag],
        Row::EntityTag => seq![Shape::EntityTag],
        Row::BlockTag => seq![Shape::BlockTag],
    }
}

/// What a tag of an entity holds, by its number.
pub open spec fn entity_tag(number: int) -> Option<Shape> {
    if number == 0 {
        Some(Shape::Text)
    } else if number == 1 || number == 3 {
        Some(Shape::Fixed(4))
    } else if number == 2 || number == 4 {
        Some(Shape::Fixed(8))
    } else if number == 5 || number == 7 {
        Some(Shape::Fixed(1))
    } else if number == 6 {
        Some(Shape::Fixed(2))
    } else if number == 8 {
        Some(Shape::Many(Row::Word))
    } else if number == 9 {
        Some(Shape::Many(Row::Long))
    } else if number == 10 {
        Some(Shape::Many(Row::Byte))
    } else if number == 11 {
        Some(Shape::Many(Row::EntityTag))
    } else if number == 12 {
        Some(Shape::Many(Row::EntityField))
    } else {
        None
    }
}

/// What a tag of a block entity holds, by its number.
pub open spec fn block_tag(number: int) -> Option<Shape> {
    if number == 0 {
        Some(Shape::Fixed(1))
    } else if number == 1 {
        Some(Shape::Fixed(2))
    } else if number == 2 || number == 4 {
        Some(Shape::Fixed(4))
    } else if number == 3 || number == 5 {
        Some(Shape::Fixed(8))
    } else if number == 6 {
        Some(Shape::Many(Row::Byte))
    } else if number == 7 {
        Some(Shape::Text)
    } else if number == 8 {
        Some(Shape::Many(Row::BlockTag))
    } else if number == 9 {
        Some(Shape::Many(Row::BlockField))
    } else if number == 10 {
        Some(Shape::Many(Row::Word))
    } else if number == 11 {
        Some(Shape::Many(Row::Long))
    } else {
        None
    }
}

/// Where a value ends, or that it does not: its bytes run out or make no sense, or what
/// they say is out of range.
pub enum End {
    At(int),
    Broken,
    Wild,
}

/// The little-endian 32-bit number at an offset, unsigned.
pub open spec fn low_word(raw: Seq<u8>, at: int) -> int {
    raw[at] + 256 * raw[at + 1] + 65536 * raw[at + 2] + 16777216 * raw[at + 3]
}

/// The little-endian 32-bit number at an offset.
pub open spec fn low_int(raw: Seq<u8>, at: int) -> int {
    if low_word(raw, at) < 0x8000_0000 {
        low_word(raw, at)
    } else {
        low_word(raw, at) - 0x1_0000_0000
    }
}

/// The little-endian 64-bit number at an offset, unsigned.
pub open spec fn low_long(raw: Seq<u8>, at: int) -> int {
    low_word(raw, at) + 0x1_0000_0000 * low_word(raw, at + 4)
}

/// The number of cells that a size along an axis stands for, either way.
pub open spec fn stretch(size: int) -> int {
    if size < 0 {
        -size
    } else if size == 0 {
        1
    } else {
        size
    }
}

/// A region's size can be reckoned with.
pub open spec fn is_measurable(x: int, y: int, z: int) -> bool {
    &&& x != i32::MIN
    &&& y != i32::MIN
    &&& z != i32::MIN
    &&& stretch(x) * stretch(y) * stretch(z) <= u64::MAX
}

/// A stretch of cells has an end, unless it is said to run backwards.
pub open spec fn has_end(corner: int, size: int) -> bool {
    size < 0 || (size > 0 && corner + size - 1 <= i32::MAX)
}

/// The corner and the size of a region are in range.
pub open spec fn is_tame_place(raw: Seq<u8>, at: int, later: bool) -> bool {
    &&& is_measurable(low_int(raw, at + 12), low_int(raw, at + 16), low_int(raw, at + 20))
    &&& later ==> has_end(low_int(raw, at), low_int(raw, at + 12)) && has_end(
        low_int(raw, at + 4),
        low_int(raw, at + 16),
    ) && has_end(low_int(raw, at + 8), low_int(raw, at + 20))
}

/// The end of a number of bytes.
pub open spec fn bytes_end(raw: Seq<u8>, at: int, count: int) -> End {
    if at + count <= raw.len() {
        End::At(at + count)
    } else {
        End::Broken
    }
}

/// The end of the corner and the size of a region.
pub open spec fn place_end(raw: Seq<u8>, at: int, later: bool) -> End {
    if at + 24 > raw.len() {
        End::Broken
    } else if is_tame_place(raw, at, later) {
        End::At(at + 24)
    } else {
        End::Wild
    }
}

/// The end of a value. One that nests deeper than `depth` is out of range.
pub open spec fn shape_end(raw: Seq<u8>, at: int, shape: Shape, depth: nat) -> End
    decreases depth, 0int, 0int,
{
    if depth == 0 {
        End::Wild
    } else {
        match shape {
            Shape::Fixed(count) => bytes_end(raw, at, count as int),
            Shape::Text => if at + 8 > raw.len() {
                End::Broken
            } else {
                bytes_end(raw, at + 8, low_long(raw, at))
            },
            Shape::Optional(row) => if at + 1 > raw.len() || raw[at] > 1 {
                End::Broken
            } else if raw[at] == 0 {
                End::At(at + 1)
            } else {
                row_end(raw, at + 1, parts(row), (depth - 1) as nat)
            },
            Shape::Many(row) => if at + 8 > raw.len() {
                End::Broken
            } else {
                many_end(raw, at + 8, row, low_long(raw, at) as nat, (depth - 1) as nat)
            },
            Shape::All(row) => row_end(raw, at, parts(row), (depth - 1) as nat),
            Shape::Place => place_end(raw, at, false),
            Shape::LaterPlace => place_end(raw, at, true),
            Shape::EntityTag => if at + 4 > raw.len() {
                End::Broken
            } else {
                match entity_tag(low_word(raw, at)) {
                    Some(inner) => shape_end(raw, at + 4, inner, (depth - 1) as nat),
                    None => End::Broken,
                }
            },
            Shape::BlockTag => if at + 4 > raw.len() {
                End::Broken
            } else {
                match block_tag(low_word(raw, at)) {
                    Some(inner) => shape_end(raw, at + 4, inner, (depth - 1) as nat),
                    None => End::Broken,
                }
            },
        }
    }
}

/// The end of some values one after another.
pub open spec fn row_end(raw: Seq<u8>, at: int, shapes: Seq<Shape>, depth: nat) -> End
    decreases depth, 1int, shapes.len(),
{
    if shapes.len() == 0 {
        End::At(at)
    } else {
        match shape_end(raw, at, shapes[0], depth) {
            End::At(next) => row_end(raw, next, shapes.skip(1), depth),
            other => other,
        }
    }
}

/// The end of some rows of one kind.
pub open spec fn many_end(raw: Seq<u8>, at: int, row: Row, count: nat, depth: nat) -> End
    decreases depth, 2int, count,
{
    if count == 0 {
        End::At(at)
    } else {
        match row_end(raw, at, parts(row), depth) {
            End::At(next) => many_end(raw, next, row, (count - 1) as nat, depth),
            other => other,
        }
    }
}

/// How deep the values of a snapshot may nest.
pub const WALK_DEPTH: u32 = 2560;

/// The letters a snapshot begins with.
pub open spec fn is_snapshot(raw: Seq<u8>) -> bool {
    raw.len() >= 8 && raw[0] == 78 && raw[1] == 85 && raw[2] == 83 && raw[3] == 78
}

/// What stands in a snapshot of some version.
pub open spec fn contents(version: int) -> Option<Row> {
    if version == 1 {
        Some(Row::First)
    } else if version == 2 {
        Some(Row::Second)
    } else if version == 3 {
        Some(Row::Third)
    } else if version == 4 {
        Some(Row::Fourth)
    } else {
        None
    }
}

/// Nothing in a file is out of range, if it is a snapshot.
pub open spec fn is_tame_snapshot(raw: Seq<u8>) -> bool {
    is_snapshot(raw) ==> (match contents(low_word(raw, 4)) {
        Some(row) => !(shape_end(raw, 8, Shape::All(row), WALK_DEPTH as nat) is Wild),
        None => true,
    })
}

/// Where a value ends, as it is found out.
#[derive(Clone, Copy)]
pub enum Found {
    At(usize),
    Broken,
    Wild,
}

/// What was found out is so, and no value ends before it starts.
spec fn finds(found: Found, end: End, raw: Seq<u8>, at: int) -> bool {
    match found {
        Found::At(next) => end == End::At(next as int) && at <= next <= raw.len(),
        Found::Broken => end is Broken,
        Found::Wild => end is Wild,
    }
}

fn read_low_word(raw: &[u8], at: usize) -> (r: u32)
    requires
        at + 4 <= raw@.len(),
    ensures
        r == low_word(raw@, at as int),
{
    raw[at] as u32 + 256 * raw[at + 1] as u32 + 65536 * raw[at + 2] as u32 + 16777216 * raw[at
        + 3] as u32
}

fn read_low_int(raw: &[u8], at: usize) -> (r: i64)
    requires
        at + 4 <= raw@.len(),
    ensures
        r == low_int(raw@, at as int),
        i32::MIN <= r <= i32::MAX,
{
    let word: u32 = read_low_word(raw, at);
    if word < 0x8000_0000 {
        word as i64
    } else {
        word as i64 - 0x1_0000_0000
    }
}

fn read_low_long(raw: &[u8], at: usize) -> (r: u64)
    requires
        at + 8 <= raw@.len(),
    ensures
        r == low_long(raw@, at as int),
{
    assert(raw.len() == raw@.len());
    let low: u64 = read_low_word(raw, at) as u64;
    let high: u64 = read_low_word(raw, at + 4) as u64;
    low + 0x1_0000_0000 * high
}

fn find_bytes_end(raw: &[u8], at: usize, count: u64) -> (r: Found)
    requires
        at <= raw@.len(),
    ensures
        finds(r, bytes_end(raw@, at as int, count as int), raw@, at as int),
{
    let left: usize = raw.len() - at;
    if count <= left as u64 {
        Found::At(at + count as usize)
    } else {
        Found::Broken
    }
}

fn stretch_of(size: i64) -> (r: i128)
    requires
        i32::MIN <= size <= i32::MAX,
    ensures
        r == stretch(size as int),
        1 <= r <= 0x8000_0000,
{
    if size < 0 {
        -(size as i128)
    } else if size == 0 {
        1
    } else {
        size as i128
    }
}

fn tests_end(corner: i64, size: i64) -> (r: bool)
    requires
        i32::MIN <= corner <= i32::MAX,
        i32::MIN <= size <= i32::MAX,
    ensures
        r == has_end(corner as int, size as int),
{
    size < 0 || (size > 0 && corner + size - 1 <= i32::MAX as i64)
}

fn tests_measurable(x: i64, y: i64, z: i64) -> (r: bool)
    requires
        i32::MIN <= x <= i32::MAX,
        i32::MIN <= y <= i32::MAX,
        i32::MIN <= z <= i32::MAX,
    ensures
        r == is_measurable(x as int, y as int, z as int),
{
    let a: i128 = stretch_of(x);
    let b: i128 = stretch_of(y);
    let c: i128 = stretch_of(z);
    proof {
        assert(1 <= a * b <= 0x8000_0000 * 0x8000_0000) by (nonlinear_arith)
            requires
                1 <= a <= 0x8000_0000,
                1 <= b <= 0x8000_0000,
        ;
        let ab = a * b;
        assert(1 <= ab * c <= 0x8000_0000 * 0x8000_0000 * 0x8000_0000) by (nonlinear_arith)
            requires
                1 <= ab <= 0x8000_0000 * 0x8000_0000,
                1 <= c <= 0x8000_0000,
        ;
    }
    let least: i64 = i32::MIN as i64;
    x != least && y != least && z != least && a * b * c <= u64::MAX as i128
}

fn find_place_end(raw: &[u8], at: usize, later: bool) -> (r: Found)
    requires
        at <= raw@.len(),
    ensures
        finds(r, place_end(raw@, at as int, later), raw@, at as int),
{
    if raw.len() - at < 24 {
        return Found::Broken;
    }
    let x: i64 = read_low_int(raw, at + 12);
    let y: i64 = read_low_int(raw, at + 16);
    let z: i64 = read_low_int(raw, at + 20);
    let ended = !later || (tests_end(read_low_int(raw, at), x) && tests_end(
        read_low_int(raw, at + 4),
        y,
    ) && tests_end(read_low_int(raw, at + 8), z));
    if tests_measurable(x, y, z) && ended {
        Found::At(at + 24)
    } else {
        Found::Wild
    }
}

/// The values of a row.
fn parts_of(row: Row) -> (r: Vec<Shape>)
    ensures
        r@ == parts(row),
{
    let r = match row {
        Row::Byte => vec![Shape::Fixed(1)],
        Row::Word => vec![Shape::Fixed(4)],
        Row::Long => vec![Shape::Fixed(8)],
        Row::Bounds => vec![Shape::Fixed(24)],
        Row::Text => vec![Shape::Text],
        Row::TextPair => vec![Shape::Text, Shape::Text],
        Row::First => vec![
            Shape::All(Row::FirstNotes),
            Shape::All(Row::Region),
            Shape::Many(Row::NamedRegion),
            Shape::Text,
            Shape::Many(Row::NamedDefinition),
        ],
        Row::Second => vec![
            Shape::All(Row::FirstNotes),
            Shape::Optional(Row::Text),
            Shape::All(Row::Region),
            Shape::Many(Row::NamedRegion),
            Shape::Text,
            Shape::Many(Row::NamedDefinition),
        ],
        Row::Third => vec![
            Shape::All(Row::FirstNotes),
            Shape::Optional(Row::Text),
            Shape::Optional(Row::Text),
            Shape::All(Row::Region),
            Shape::Many(Row::NamedRegion),
            Shape::Text,
            Shape::Many(Row::NamedDefinition),
        ],
        Row::Fourth => vec![
            Shape::All(Row::FirstNotes),
            Shape::Optional(Row::Text),
            Shape::Optional(Row::Text),
            Shape::Text,
            Shape::All(Row::LaterRegion),
            Shape::Many(Row::NamedLaterRegion),
            Shape::Many(Row::NamedDefinition),
        ],
        Row::FirstNotes => vec![
            Shape::Optional(Row::Text),
            Shape::Optional(Row::Text),
            Shape::Optional(Row::Text),
            Shape::Optional(Row::Long),
            Shape::Optional(Row::Long),
            Shape::Optional(Row::Word),
            Shape::Optional(Row::Word),
            Shape::Optional(Row::Word),
        ],
        Row::Region => vec![
            Shape::Text,
            Shape::Place,
            Shape::Many(Row::Long),
            Shape::Many(Row::Block),
            Shape::Many(Row::Entity),
            Shape::Many(Row::BlockEntity),
        ],
        Row::LaterRegion => vec![
            Shape::Text,
            Shape::LaterPlace,
            Shape::Many(Row::Block),
            Shape::Text,
            Shape::Many(Row::Entity),
            Shape::Many(Row::BlockEntity),
        ],
        Row::NamedRegion => vec![Shape::Text, Shape::All(Row::Region)],
        Row::NamedLaterRegion => vec![Shape::Text, Shape::All(Row::LaterRegion)],
        Row::NamedDefinition => vec![
            Shape::Text,
            Shape::Many(Row::Bounds),
            Shape::Many(Row::TextPair),
        ],
        Row::Block => vec![Shape::Text, Shape::Many(Row::TextPair)],
        Row::Entity => vec![Shape::Text, Shape::Fixed(24), Shape::Many(Row::EntityField)],
        Row::BlockEntity => vec![Shape::Many(Row::BlockField), Shape::Text, Shape::Fixed(12)],
        Row::EntityField => vec![Shape::Text, Shape::EntityTag],
        Row::BlockField => vec![Shape::Text, Shape::BlockTag],
        Row::EntityTag => vec![Shape::EntityTag],
        Row::BlockTag => vec![Shape::BlockTag],
    };
    assert(r@ =~= parts(row));
    r
}

fn entity_tag_of(number: u32) -> (r: Option<Shape>)
    ensures
        r == entity_tag(number as int),
{
    if number == 0 {
        Some(Shape::Text)
    } else if number == 1 || number == 3 {
        Some(Shape::Fixed(4))
    } else if number == 2 || number == 4 {
        Some(Shape::Fixed(8))
    } else if number == 5 || number == 7 {
        Some(Shape::Fixed(1))
    } else if number == 6 {
        Some(Shape::Fixed(2))
    } else if number == 8 {
        Some(Shape::Many(Row::Word))
    } else if number == 9 {
        Some(Shape::Many(Row::Long))
    } else if number == 10 {
        Some(Shape::Many(Row::Byte))
    } else if number == 11 {
        Some(Shape::Many(Row::EntityTag))
    } else if number == 12 {
        Some(Shape::Many(Row::EntityField))
    } else {
        None
    }
}

fn block_tag_of(number: u32) -> (r: Option<Shape>)
    ensures
        r == block_tag(number as int),
{
    if number == 0 {
        Some(Shape::Fixed(1))
    } else if number == 1 {
        Some(Shape::Fixed(2))
    } else if number == 2 || number == 4 {
        Some(Shape::Fixed(4))
    } else if number == 3 || number == 5 {
        Some(Shape::Fixed(8))
    } else if number == 6 {
        Some(Shape::Many(Row::Byte))
    } else if number == 7 {
        Some(Shape::Text)
    } else if number == 8 {
        Some(Shape::Many(Row::BlockTag))
    } else if number == 9 {
        Some(Shape::Many(Row::BlockField))
    } else if number == 10 {
        Some(Shape::Many(Row::Word))
    } else if number == 11 {
        Some(Shape::Many(Row::Long))
    } else {
        None
    }
}

fn find_shape_end(raw: &[u8], at: usize, shape: Shape, depth: u32) -> (r: Found)
    requires
        at <= raw@.len(),
    ensures
        finds(r, shape_end(raw@, at as int, shape, depth as nat), raw@, at as int),
    decreases depth, 0int, 0int,
{
    if depth == 0 {
        return Found::Wild;
    }
    let left: usize = raw.len() - at;
    match shape {
        Shape::Fixed(count) => find_bytes_end(raw, at, count),
        Shape::Text => if left < 8 {
            Found::Broken
        } else {
            find_bytes_end(raw, at + 8, read_low_long(raw, at))
        },
        Shape::Optional(row) => if left < 1 || raw[at] > 1 {
            Found::Broken
        } else if raw[at] == 0 {
            Found::At(at + 1)
        } else {
            find_row_end(raw, at + 1, row, depth - 1)
        },
        Shape::Many(row) => if left < 8 {
            Found::Broken
        } else {
            find_many_end(raw, at + 8, row, read_low_long(raw, at), depth - 1)
        },
        Shape::All(row) => find_row_end(raw, at, row, depth - 1),
        Shape::Place => find_place_end(raw, at, false),
        Shape::LaterPlace => find_place_end(raw, at, true),
        Shape::EntityTag => if left < 4 {
            Found::Broken
        } else {
            match entity_tag_of(read_low_word(raw, at)) {
                Some(inner) => find_shape_end(raw, at + 4, inner, depth - 1),
                None => Found::Broken,
            }
        },
        Shape::BlockTag => if left < 4 {
            Found::Broken
        } else {
            match block_tag_of(read_low_word(raw, at)) {
                Some(inner) => find_shape_end(raw, at + 4, inner, depth - 1),
                None => Found::Broken,
            }
        },
    }
}

fn find_row_end(raw: &[u8], at: usize, row: Row, depth: u32) -> (r: Found)
    requires
        at <= raw@.len(),
    ensures
        finds(r, row_end(raw@, at as int, parts(row), depth as nat), raw@, at as int),
    decreases depth, 1int, 0int,
{
    let shapes = parts_of(row);
    let mut next: usize = at;
    let mut i: usize = 0;
    assert(shapes@.skip(0) =~= parts(row));
    while i < shapes.len()
        invariant
            i <= shapes.len(),
            at <= next <= raw@.len(),
            shapes@ == parts(row),
            row_end(raw@, at as int, parts(row), depth as nat) == row_end(
                raw@,
                next as int,
                shapes@.skip(i as int),
                depth as nat,
            ),
        decreases shapes.len() - i,
    {
        assert(shapes@.skip(i as int)[0] == shapes@[i as int]);
        assert(shapes@.skip(i as int).skip(1) =~= shapes@.skip(i + 1));
        match find_shape_end(raw, next, shapes[i], depth) {
            Found::At(end) => {
                next = end;
            },
            other => {
                return other;
            },
        }
        i = i + 1;
    }
    Found::At(next)
}

fn find_many_end(raw: &[u8], at: usize, row: Row, count: u64, depth: u32) -> (r: Found)
    requires
        at <= raw@.len(),
    ensures
        finds(r, many_end(raw@, at as int, row, count as nat, depth as nat), raw@, at as int),
    decreases depth, 2int, 0int,
{
    let mut next: usize = at;
    let mut left: u64 = count;
    while left > 0
        invariant
            at <= next <= raw@.len(),
            many_end(raw@, at as int, row, count as nat, depth as nat) == many_end(
                raw@,
                next as int,
                row,
                left as nat,
                depth as nat,
            ),
        decreases left,
    {
        match find_row_end(raw, next, row, depth) {
            Found::At(end) => {
                next = end;
                left = left - 1;
            },
            other => {
                return other;
            },
        }
    }
    Found::At(next)
}

/// Whether nothing in a file is out of range, if it is a snapshot.
pub fn tests_tame_snapshot(raw: &[u8]) -> (r: bool)
    ensures
        r == is_tame_snapshot(raw@),
{
    if raw.len() < 8 || raw[0] != 78 || raw[1] != 85 || raw[2] != 83 || raw[3] != 78 {
        return true;
    }
    let version: u32 = read_low_word(raw, 4);
    let row = if version == 1 {
        Row::First
    } else if version == 2 {
        Row::Second
    } else if version == 3 {
        Row::Third
    } else if version == 4 {
        Row::Fourth
    } else {
        return true;
    };
    match find_shape_end(raw, 8, Shape::All(row), WALK_DEPTH) {
        Found::Wild => false,
        _ => true,
    }
}

/// A file that does not begin with the letters of a snapshot has nothing in it that could be
/// out of range.
pub proof fn lemma_other_files_are_tame_snapshots(raw: &[u8], r: bool)
    requires
        call_ensures(tests_tame_snapshot, (raw,), r),
        !is_snapshot(raw@),
    ensures
        r,
{
}

} // verus!
