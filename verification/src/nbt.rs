//! Named binary tags: the tree that Minecraft's files are made of.
//!
//! `quartz_nbt` decodes and holds the tree. Here its values get a model, the
//! questions the loader asks of it get contracts, and the byte stream is
//! checked for sound framing before the decoder is let near it.

use vstd::prelude::*;
use quartz_nbt::{NbtCompound, NbtList, NbtTag};

verus! {

/// A tag. A floating-point number is modelled by its bits, and by none where it
/// is not a number; a compound has no order.
pub enum Nbt {
    Byte(i8),
    Short(i16),
    Int(i32),
    Long(i64),
    Float(Option<u32>),
    Double(Option<u64>),
    Bytes(Seq<i8>),
    Text(Seq<char>),
    List(Seq<Nbt>),
    Compound(Map<Seq<char>, Nbt>),
    Ints(Seq<i32>),
    Longs(Seq<i64>),
}

/// The fields of a compound.
pub type Fields = Map<Seq<char>, Nbt>;

/// A tag says exactly what it holds: every number in it is one.
pub open spec fn is_exact(tag: Nbt) -> bool
    decreases tag,
{
    match tag {
        Nbt::Float(bits) => bits is Some,
        Nbt::Double(bits) => bits is Some,
        Nbt::List(tags) => forall|i: int| 0 <= i < tags.len() ==> is_exact(#[trigger] tags[i]),
        Nbt::Compound(inner) => forall|key: Seq<char>| #[trigger]
            inner.contains_key(key) ==> is_exact(inner[key]),
        _ => true,
    }
}

#[verifier::external_type_specification]
#[verifier::external_body]
pub struct ExNbtTag(quartz_nbt::NbtTag);

#[verifier::external_type_specification]
#[verifier::external_body]
pub struct ExNbtList(quartz_nbt::NbtList);

#[verifier::external_type_specification]
#[verifier::external_body]
pub struct ExNbtCompound(quartz_nbt::NbtCompound);

/// What a tag holds.
pub uninterp spec fn held(tag: NbtTag) -> Nbt;

/// What a list holds.
pub uninterp spec fn items(list: NbtList) -> Seq<Nbt>;

/// What a compound holds.
pub uninterp spec fn fields(compound: NbtCompound) -> Map<Seq<char>, Nbt>;

/// What the decoder makes of a document: the fields of its root, or the words
/// in which it refuses.
pub uninterp spec fn decoded(raw: Seq<u8>) -> Result<Map<Seq<char>, Nbt>, Seq<char>>;

/// The bits of a double-precision number without its sign, from its leading digits,
/// of which 24 are kept, and its exponent. A number's double has the same digits and
/// the exponent above.
pub open spec fn lifted(digits: int, exponent: int) -> int
    decreases
            if digits >= 0x80_0000 {
                0
            } else {
                0x80_0000 - digits
            },
{
    if digits <= 0 {
        0
    } else if digits >= 0x80_0000 {
        exponent * 0x10_0000_0000_0000 + (digits - 0x80_0000) * 0x2000_0000
    } else {
        lifted(2 * digits, exponent - 1)
    }
}

/// The bits of a single-precision number, which is a number, widened to double
/// precision.
pub open spec fn widened(bits: u32) -> u64 {
    let digits = bits as int % 0x80_0000;
    let exponent = bits as int / 0x80_0000 % 0x100;
    let size = if exponent == 0xff {
        0x7ff0_0000_0000_0000
    } else if exponent == 0 {
        lifted(digits, 897)
    } else {
        lifted(0x80_0000 + digits, 896 + exponent)
    };
    (bits as int / 0x8000_0000 * 0x8000_0000_0000_0000 + size) as u64
}

/// A tag, looked at one level deep.
pub enum Node<'a> {
    Byte(i8),
    Short(i16),
    Int(i32),
    Float,
    Double,
    Text(&'a str),
    List(&'a NbtList),
    Compound(&'a NbtCompound),
    Ints(&'a Vec<i32>),
    Other,
}

/// A node shows the tag it was taken from.
pub open spec fn shows(node: Node<'_>, tag: Nbt) -> bool {
    match tag {
        Nbt::Byte(v) => node == Node::<'_>::Byte(v),
        Nbt::Short(v) => node == Node::<'_>::Short(v),
        Nbt::Int(v) => node == Node::<'_>::Int(v),
        Nbt::Float(_) => node is Float,
        Nbt::Double(_) => node is Double,
        Nbt::Text(v) => node is Text && node->Text_0@ == v,
        Nbt::List(v) => node is List && items(*node->List_0) == v,
        Nbt::Compound(v) => node is Compound && fields(*node->Compound_0) == v,
        Nbt::Ints(v) => node is Ints && node->Ints_0@ == v,
        Nbt::Long(_) | Nbt::Bytes(_) | Nbt::Longs(_) => node is Other,
    }
}

/// Tells the variants of `quartz_nbt::NbtTag` apart. A whole number comes out as
/// it is; text, lists, compounds and integer arrays come out by reference.
#[verifier::external_body]
pub(crate) fn node<'a>(tag: &'a NbtTag) -> (r: Node<'a>)
    ensures
        shows(r, held(*tag)),
{
    match tag {
        NbtTag::Byte(v) => Node::Byte(*v),
        NbtTag::Short(v) => Node::Short(*v),
        NbtTag::Int(v) => Node::Int(*v),
        NbtTag::Float(_) => Node::Float,
        NbtTag::Double(_) => Node::Double,
        NbtTag::String(v) => Node::Text(v.as_str()),
        NbtTag::List(v) => Node::List(v),
        NbtTag::Compound(v) => Node::Compound(v),
        NbtTag::IntArray(v) => Node::Ints(v),
        NbtTag::Long(_) | NbtTag::ByteArray(_) | NbtTag::LongArray(_) => Node::Other,
    }
}

/// The slice behind a `quartz_nbt::NbtList`, by `as_ref`: its tags in order.
#[verifier::external_body]
pub(crate) fn list_items<'a>(list: &'a NbtList) -> (r: &'a [NbtTag])
    ensures
        r@.len() == items(*list).len(),
        forall|i: int| 0 <= i < r@.len() ==> held(#[trigger] r@[i]) == items(*list)[i],
{
    list.as_ref()
}

/// The tag under a name, by `get` on the map behind a
/// `quartz_nbt::NbtCompound`: it is there exactly when the compound has a field
/// of that name.
#[verifier::external_body]
pub(crate) fn field<'a>(compound: &'a NbtCompound, name: &str) -> (r: Option<&'a NbtTag>)
    ensures
        match r {
            Some(tag) => fields(*compound).contains_key(name@) && held(*tag) == fields(
                *compound,
            )[name@],
            None => !fields(*compound).contains_key(name@),
        },
{
    compound.inner().get(name)
}

/// All fields of a `quartz_nbt::NbtCompound`, by `iter` on the map behind it:
/// each of them once, in an order that is left open.
#[verifier::external_body]
pub(crate) fn all_fields<'a>(compound: &'a NbtCompound) -> (r: Vec<(&'a str, &'a NbtTag)>)
    ensures
        forall|i: int|
            0 <= i < r@.len() ==> fields(*compound).contains_key((#[trigger] r@[i]).0@)
                && fields(*compound)[r@[i].0@] == held(*r@[i].1),
        forall|i: int, j: int| 0 <= i < j < r@.len() ==> (#[trigger] r@[i]).0@ != (#[trigger] r@[j]).0@,
        forall|name: Seq<char>| #[trigger]
            fields(*compound).contains_key(name) ==> exists|i: int|
                0 <= i < r@.len() && (#[trigger] r@[i]).0@ == name,
{
    compound.inner().iter().map(|(name, tag)| (name.as_str(), tag)).collect()
}

/// A tag made one of double precision, where it is one of single precision.
pub open spec fn doubled(tag: Nbt) -> Nbt {
    match tag {
        Nbt::Float(Some(bits)) => Nbt::Double(Some(widened(bits))),
        Nbt::Float(None) => Nbt::Double(None),
        other => other,
    }
}

/// A tag with a single-precision number made one with a double-precision number,
/// by std's lossless conversion; any other tag cloned.
#[verifier::external_body]
pub(crate) fn widen(tag: &NbtTag) -> (r: NbtTag)
    ensures
        held(r) == doubled(held(*tag)),
{
    match tag {
        NbtTag::Float(v) => NbtTag::Double((*v).into()),
        other => other.clone(),
    }
}

/// A copy of a `quartz_nbt::NbtCompound` with a list of three tags under
/// `Pos`, by `clone`, `NbtList::clone_from` and `insert`. An earlier field of
/// that name is replaced.
#[verifier::external_body]
pub(crate) fn with_position(
    compound: &NbtCompound,
    x: NbtTag,
    y: NbtTag,
    z: NbtTag,
) -> (r: NbtCompound)
    ensures
        fields(r) == fields(*compound).insert(
            "Pos"@,
            Nbt::List(seq![held(x), held(y), held(z)]),
        ),
{
    let mut copy = compound.clone();
    copy.insert("Pos", NbtList::clone_from(&[x, y, z]));
    copy
}

/// Decodes a document by `quartz_nbt::io::read_nbt`, taken as uncompressed.
/// What comes out, the fields of the root or the words of the refusal, goes by
/// the bytes alone. The decoder trusts the lengths it meets and nests its calls
/// as deep as the document, so only a soundly framed document is given to it.
#[verifier::external_body]
pub(crate) fn decode(raw: &Vec<u8>) -> (r: Result<NbtCompound, String>)
    requires
        framed(raw@),
    ensures
        match r {
            Ok(root) => decoded(raw@) == Ok::<Fields, Seq<char>>(fields(root)),
            Err(words) => decoded(raw@) == Err::<Fields, Seq<char>>(words@),
        },
{
    let mut cursor = std::io::Cursor::new(raw);
    match quartz_nbt::io::read_nbt(&mut cursor, quartz_nbt::io::Flavor::Uncompressed) {
        Ok((root, _)) => Ok(root),
        Err(error) => Err(error.to_string()),
    }
}

/// The deepest nesting that is followed. It is well beyond the 512 levels that the game
/// allows, and the decoder, which calls itself for each level, has the room for it.
pub const MAX_DEPTH: u32 = 2048;

/// The big-endian 16-bit number at an offset.
pub open spec fn short_at(raw: Seq<u8>, at: int) -> int {
    raw[at] * 256 + raw[at + 1]
}

/// The big-endian 32-bit number at an offset, unsigned.
pub open spec fn word_at(raw: Seq<u8>, at: int) -> int {
    ((raw[at] * 256 + raw[at + 1]) * 256 + raw[at + 2]) * 256 + raw[at + 3]
}

/// The end of `count` cells of `width` bytes that start at `at`, if they are
/// all there.
pub open spec fn span(raw: Seq<u8>, at: int, count: int, width: int) -> Option<int> {
    if at + count * width <= raw.len() {
        Some(at + count * width)
    } else {
        None
    }
}

/// The end of an array with a 32-bit length in front, if it is all there and
/// its length is not negative.
pub open spec fn array_end(raw: Seq<u8>, at: int, width: int) -> Option<int> {
    if at + 4 <= raw.len() && word_at(raw, at) < 0x8000_0000 {
        span(raw, at + 4, word_at(raw, at), width)
    } else {
        None
    }
}

/// The end of a string with a 16-bit length in front, if it is all there.
pub open spec fn text_end(raw: Seq<u8>, at: int) -> Option<int> {
    if at + 2 <= raw.len() {
        span(raw, at + 2, short_at(raw, at), 1)
    } else {
        None
    }
}

/// How a document is looked at: whether it is soundly framed, whether it is at least
/// complete, and whether its numbers are tame besides.
#[derive(Clone, Copy, PartialEq, Eq, Structural)]
pub enum Care {
    Strict,
    Lenient,
    Tame,
}

/// How far from the origin of its region a block entity may be said to be.
pub const TILE_REACH: i32 = 0x400_0000;

/// How far from the origin a region may be said to be. A block entity of it is then
/// still in range.
pub const REGION_REACH: i32 = 2_080_342_015;

/// The last index that a palette may be said to have. One with more entries than that is
/// turned down in any case, but only once there is room for them.
pub const PALETTE_REACH: i32 = 1_048_576;

/// The big-endian 32-bit number at an offset.
pub open spec fn int_at(raw: Seq<u8>, at: int) -> int {
    if word_at(raw, at) < 0x8000_0000 {
        word_at(raw, at)
    } else {
        word_at(raw, at) - 0x1_0000_0000
    }
}

/// The name of a field is one of those of the coordinates.
pub open spec fn names_coordinate(raw: Seq<u8>, at: int) -> bool {
    short_at(raw, at + 1) == 1 && 120 <= raw[at + 3] <= 122
}

/// The name of a field is `Pos`.
pub open spec fn names_position(raw: Seq<u8>, at: int) -> bool {
    short_at(raw, at + 1) == 3 && raw[at + 3] == 80 && raw[at + 4] == 111 && raw[at + 5] == 115
}

/// The name of a field is `PaletteMax`.
pub open spec fn names_palette_end(raw: Seq<u8>, at: int) -> bool {
    short_at(raw, at + 1) == 10 && raw.subrange(at + 3, at + 13) == seq![
        80u8,
        97,
        108,
        101,
        116,
        116,
        101,
        77,
        97,
        120,
    ]
}

/// A number is no further from zero than that.
pub open spec fn is_within(v: int, most: i32) -> bool {
    -most <= v <= most
}

/// The numbers of a field are tame. What says where a region is stands in a compound
/// of a compound of a compound of the document's, and what says where a block entity
/// is stands one level below. The last index of a palette is one that a palette can have.
pub open spec fn is_tame_field(raw: Seq<u8>, at: int, depth: nat) -> bool {
    let kind = raw[at];
    let body = at + 3 + short_at(raw, at + 1);
    if kind == 3 && names_coordinate(raw, at) && depth + 4 == MAX_DEPTH {
        is_within(int_at(raw, body), REGION_REACH)
    } else if kind == 3 && names_coordinate(raw, at) && depth + 5 == MAX_DEPTH {
        is_within(int_at(raw, body), TILE_REACH)
    } else if kind == 11 && names_position(raw, at) && depth + 5 == MAX_DEPTH && word_at(raw, body)
        >= 3 {
        is_within(int_at(raw, body + 4), TILE_REACH) && is_within(
            int_at(raw, body + 8),
            TILE_REACH,
        ) && is_within(int_at(raw, body + 12), TILE_REACH)
    } else if kind == 3 && names_palette_end(raw, at) {
        0 <= int_at(raw, body) <= PALETTE_REACH
    } else {
        true
    }
}

/// The numbers of a document are tame, if it is a complete one.
pub open spec fn is_tame(raw: Seq<u8>) -> bool {
    raw.len() > 0 && raw[0] == 10 ==> (match text_end(raw, 1) {
        None => true,
        Some(body) => payload_end(raw, body, 10, MAX_DEPTH as nat, Care::Lenient) is Some
            ==> payload_end(raw, body, 10, MAX_DEPTH as nat, Care::Tame) is Some,
    })
}

/// The end of a payload of the given kind that starts at `at` and nests no
/// deeper than `depth`, if it is all there.
pub open spec fn payload_end(
    raw: Seq<u8>,
    at: int,
    kind: u8,
    depth: nat,
    care: Care,
) -> Option<int>
    decreases depth, 0int, 0int,
{
    if kind == 1 {
        span(raw, at, 1, 1)
    } else if kind == 2 {
        span(raw, at, 1, 2)
    } else if kind == 3 || kind == 5 {
        span(raw, at, 1, 4)
    } else if kind == 4 || kind == 6 {
        span(raw, at, 1, 8)
    } else if kind == 7 {
        array_end(raw, at, 1)
    } else if kind == 8 {
        text_end(raw, at)
    } else if kind == 9 {
        if at + 5 <= raw.len() && depth > 0 {
            let count = word_at(raw, at + 1);
            if count == 0 && (raw[at] <= 12 || care != Care::Strict) {
                Some(at + 5)
            } else if count <= raw.len() && count < 0x8000_0000 {
                items_end(raw, at + 5, raw[at], count as nat, (depth - 1) as nat, care)
            } else {
                None
            }
        } else {
            None
        }
    } else if kind == 10 {
        if depth > 0 {
            fields_end(raw, at, (depth - 1) as nat, care)
        } else {
            None
        }
    } else if kind == 11 {
        array_end(raw, at, 4)
    } else if kind == 12 {
        array_end(raw, at, 8)
    } else {
        None
    }
}

/// The end of `count` payloads of one kind in a row.
pub open spec fn items_end(
    raw: Seq<u8>,
    at: int,
    kind: u8,
    count: nat,
    depth: nat,
    care: Care,
) -> Option<int>
    decreases depth, 1int, count,
{
    if count == 0 {
        Some(at)
    } else {
        match payload_end(raw, at, kind, depth, care) {
            None => None,
            Some(next) => items_end(raw, next, kind, (count - 1) as nat, depth, care),
        }
    }
}

/// The end of a compound's fields, past the byte that closes them.
pub open spec fn fields_end(raw: Seq<u8>, at: int, depth: nat, care: Care) -> Option<int>
    decreases depth, 1int, raw.len() - at,
{
    if 0 <= at < raw.len() {
        if raw[at] == 0 {
            Some(at + 1)
        } else {
            match text_end(raw, at + 1) {
                None => None,
                Some(body) => match payload_end(raw, body, raw[at], depth, care) {
                    None => None,
                    Some(next) => if at < next <= raw.len() && (care == Care::Tame ==> is_tame_field(
                        raw,
                        at,
                        depth,
                    )) {
                        fields_end(raw, next, depth, care)
                    } else {
                        None
                    },
                },
            }
        }
    } else {
        None
    }
}

/// A document is soundly framed: a compound with a name, every length in it is
/// covered by the bytes that follow, and it nests no deeper than
/// [`MAX_DEPTH`].
pub open spec fn framed(raw: Seq<u8>) -> bool {
    raw.len() > 0 && raw[0] == 10 && (match text_end(raw, 1) {
        None => false,
        Some(body) => payload_end(raw, body, 10, MAX_DEPTH as nat, Care::Strict) is Some,
    })
}

/// The end of `count` cells of `width` bytes, if they are all there.
fn find_span(raw: &Vec<u8>, at: usize, count: u32, width: u32) -> (r: Option<usize>)
    requires
        at <= raw@.len(),
        width <= 8,
    ensures
        match r {
            Some(end) => span(raw@, at as int, count as int, width as int) == Some(end as int)
                && at <= end <= raw@.len(),
            None => span(raw@, at as int, count as int, width as int) is None,
        },
{
    proof {
        assert(0 <= count * width <= 0xffff_ffff * 8) by (nonlinear_arith)
            requires
                0 <= count <= 0xffff_ffff,
                0 <= width <= 8,
        ;
        assert((count as u64) * (width as u64) == count * width);
    }
    let size: u64 = count as u64 * width as u64;
    let left: usize = raw.len() - at;
    if size <= left as u64 {
        Some(at + size as usize)
    } else {
        None
    }
}

/// The big-endian 32-bit number at an offset.
fn read_word(raw: &Vec<u8>, at: usize) -> (r: u32)
    requires
        at + 4 <= raw.len(),
    ensures
        r == word_at(raw@, at as int),
{
    let high: u32 = raw[at] as u32 * 256 + raw[at + 1] as u32;
    let low: u32 = raw[at + 2] as u32 * 256 + raw[at + 3] as u32;
    high * 65536 + low
}

/// The big-endian 32-bit number at an offset, signed.
fn read_int(raw: &Vec<u8>, at: usize) -> (r: i64)
    requires
        at + 4 <= raw.len(),
    ensures
        r == int_at(raw@, at as int),
{
    let word: u32 = read_word(raw, at);
    if word < 0x8000_0000 {
        word as i64
    } else {
        word as i64 - 0x1_0000_0000
    }
}

fn tests_within(v: i64, most: i32) -> (r: bool)
    requires
        most >= 0,
    ensures
        r == is_within(v as int, most),
{
    -(most as i64) <= v && v <= most as i64
}

/// Whether the name of a field is `PaletteMax`.
fn tests_palette_end(raw: &Vec<u8>, at: usize, body: usize) -> (r: bool)
    requires
        at + 3 <= body <= raw@.len(),
        body == at + 3 + short_at(raw@, at as int + 1),
    ensures
        r == names_palette_end(raw@, at as int),
{
    if body - at != 13 {
        return false;
    }
    let r = raw[at + 3] == 80 && raw[at + 4] == 97 && raw[at + 5] == 108 && raw[at + 6] == 101
        && raw[at + 7] == 116 && raw[at + 8] == 116 && raw[at + 9] == 101 && raw[at + 10] == 77
        && raw[at + 11] == 97 && raw[at + 12] == 120;
    proof {
        let name = raw@.subrange(at as int + 3, at as int + 13);
        let word = seq![80u8, 97, 108, 101, 116, 116, 101, 77, 97, 120];
        assert(forall|i: int| 0 <= i < 10 ==> name[i] == raw@[at + 3 + i]);
        if r {
            assert(name =~= word);
        }
        if name == word {
            assert(name[0] == 80 && name[1] == 97 && name[2] == 108 && name[3] == 101 && name[4]
                == 116 && name[5] == 116 && name[6] == 101 && name[7] == 77 && name[8] == 97
                && name[9] == 120);
        }
    }
    r
}

/// Whether the numbers of a field are tame.
fn tests_tame_field(raw: &Vec<u8>, at: usize, body: usize, depth: u32) -> (r: bool)
    requires
        at + 3 <= body <= raw@.len(),
        body == at + 3 + short_at(raw@, at as int + 1),
        payload_end(raw@, body as int, raw@[at as int], depth as nat, Care::Tame) is Some,
    ensures
        r == is_tame_field(raw@, at as int, depth as nat),
{
    let kind: u8 = raw[at];
    let coordinate = body - at == 4 && raw[at + 3] >= 120 && raw[at + 3] <= 122;
    let above: bool = depth as u64 + 4 == MAX_DEPTH as u64;
    let below: bool = depth as u64 + 5 == MAX_DEPTH as u64;
    if kind == 3 && coordinate && above {
        tests_within(read_int(raw, body), REGION_REACH)
    } else if kind == 3 && coordinate && below {
        tests_within(read_int(raw, body), TILE_REACH)
    } else if kind == 11 && body - at == 6 && raw[at + 3] == 80 && raw[at + 4] == 111 && raw[at
        + 5] == 115 && below && read_word(raw, body) >= 3 {
        let ghost size: nat = raw.len() as nat;
        proof {
            assert(span(raw@, body as int + 4, word_at(raw@, body as int), 4) is Some);
            assert(body + 16 <= size);
        }
        tests_within(read_int(raw, body + 4), TILE_REACH) && tests_within(
            read_int(raw, body + 8),
            TILE_REACH,
        ) && tests_within(read_int(raw, body + 12), TILE_REACH)
    } else if kind == 3 && tests_palette_end(raw, at, body) {
        let end: i64 = read_int(raw, body);
        0 <= end && end <= PALETTE_REACH as i64
    } else {
        true
    }
}

fn find_array_end(raw: &Vec<u8>, at: usize, width: u32) -> (r: Option<usize>)
    requires
        at <= raw@.len(),
        width <= 8,
    ensures
        match r {
            Some(end) => array_end(raw@, at as int, width as int) == Some(end as int) && at < end
                <= raw@.len(),
            None => array_end(raw@, at as int, width as int) is None,
        },
{
    if raw.len() - at < 4 {
        None
    } else {
        let count: u32 = read_word(raw, at);
        if count < 0x8000_0000 {
            find_span(raw, at + 4, count, width)
        } else {
            None
        }
    }
}

fn find_text_end(raw: &Vec<u8>, at: usize) -> (r: Option<usize>)
    requires
        at <= raw@.len(),
    ensures
        match r {
            Some(end) => text_end(raw@, at as int) == Some(end as int) && at < end <= raw@.len(),
            None => text_end(raw@, at as int) is None,
        },
{
    if raw.len() - at < 2 {
        None
    } else {
        let count: u32 = raw[at] as u32 * 256 + raw[at + 1] as u32;
        find_span(raw, at + 2, count, 1)
    }
}

/// The end of a payload, if it is all there.
fn find_payload_end(
    raw: &Vec<u8>,
    at: usize,
    kind: u8,
    depth: u32,
    care: Care,
) -> (r: Option<usize>)
    requires
        at <= raw@.len(),
    ensures
        match r {
            Some(end) => payload_end(raw@, at as int, kind, depth as nat, care) == Some(end as int) && at
                < end <= raw@.len(),
            None => payload_end(raw@, at as int, kind, depth as nat, care) is None,
        },
    decreases depth, 0int, 0int,
{
    if kind == 1 {
        find_span(raw, at, 1, 1)
    } else if kind == 2 {
        find_span(raw, at, 1, 2)
    } else if kind == 3 || kind == 5 {
        find_span(raw, at, 1, 4)
    } else if kind == 4 || kind == 6 {
        find_span(raw, at, 1, 8)
    } else if kind == 7 {
        find_array_end(raw, at, 1)
    } else if kind == 8 {
        find_text_end(raw, at)
    } else if kind == 9 {
        if raw.len() - at < 5 || depth == 0 {
            return None;
        }
        let count: u32 = read_word(raw, at + 1);
        if count == 0 && (raw[at] <= 12 || care != Care::Strict) {
            Some(at + 5)
        } else if count as u64 <= raw.len() as u64 && count < 0x8000_0000 {
            find_items_end(raw, at + 5, raw[at], count, depth - 1, care)
        } else {
            None
        }
    } else if kind == 10 {
        if depth == 0 {
            return None;
        }
        find_fields_end(raw, at, depth - 1, care)
    } else if kind == 11 {
        find_array_end(raw, at, 4)
    } else if kind == 12 {
        find_array_end(raw, at, 8)
    } else {
        None
    }
}

fn find_items_end(
    raw: &Vec<u8>,
    at: usize,
    kind: u8,
    count: u32,
    depth: u32,
    care: Care,
) -> (r: Option<usize>)
    requires
        at <= raw@.len(),
    ensures
        match r {
            Some(end) => items_end(raw@, at as int, kind, count as nat, depth as nat, care) == Some(
                end as int,
            ) && at <= end <= raw@.len(),
            None => items_end(raw@, at as int, kind, count as nat, depth as nat, care) is None,
        },
    decreases depth, 1int, count,
{
    let mut next: usize = at;
    let mut left: u32 = count;
    while left > 0
        invariant
            at <= next <= raw@.len(),
            left <= count,
            items_end(raw@, at as int, kind, count as nat, depth as nat, care) == items_end(
                raw@,
                next as int,
                kind,
                left as nat,
                depth as nat,
                care,
            ),
        decreases left,
    {
        match find_payload_end(raw, next, kind, depth, care) {
            None => {
                return None;
            },
            Some(end) => {
                next = end;
                left = left - 1;
            },
        }
    }
    Some(next)
}

fn find_fields_end(raw: &Vec<u8>, at: usize, depth: u32, care: Care) -> (r: Option<usize>)
    requires
        at <= raw@.len(),
    ensures
        match r {
            Some(end) => fields_end(raw@, at as int, depth as nat, care) == Some(end as int) && at < end
                <= raw@.len(),
            None => fields_end(raw@, at as int, depth as nat, care) is None,
        },
    decreases depth, 1int, 0int,
{
    let mut next: usize = at;
    while next < raw.len()
        invariant
            at <= next <= raw@.len(),
            fields_end(raw@, at as int, depth as nat, care) == fields_end(
                raw@,
                next as int,
                depth as nat,
                care,
            ),
        decreases raw@.len() - next,
    {
        if raw[next] == 0 {
            return Some(next + 1);
        }
        let body: usize = match find_text_end(raw, next + 1) {
            None => {
                return None;
            },
            Some(body) => body,
        };
        match find_payload_end(raw, body, raw[next], depth, care) {
            None => {
                return None;
            },
            Some(end) => {
                if care == Care::Tame && !tests_tame_field(raw, next, body, depth) {
                    return None;
                }
                next = end;
            },
        }
    }
    None
}

/// Whether a document is soundly framed.
pub fn is_framed(raw: &Vec<u8>) -> (r: bool)
    ensures
        r == framed(raw@),
{
    if raw.len() == 0 || raw[0] != 10 {
        return false;
    }
    match find_text_end(raw, 1) {
        None => false,
        Some(body) => find_payload_end(raw, body, 10, MAX_DEPTH, Care::Strict).is_some(),
    }
}

/// Whether the numbers of a document are tame.
pub fn tests_tame(raw: &Vec<u8>) -> (r: bool)
    ensures
        r == is_tame(raw@),
{
    if raw.len() == 0 || raw[0] != 10 {
        return true;
    }
    match find_text_end(raw, 1) {
        None => true,
        Some(body) => find_payload_end(raw, body, 10, MAX_DEPTH, Care::Lenient).is_none()
            || find_payload_end(raw, body, 10, MAX_DEPTH, Care::Tame).is_some(),
    }
}

/// What is not a list or a compound takes the bytes of its kind: one, two, four or eight for a
/// number, a length of four bytes and so many elements for an array, and a length of two
/// bytes and so many bytes for a text, lengths with the highest byte first. It is there
/// exactly where all of these bytes are.
pub proof fn lemma_payloads_take_their_bytes(raw: Seq<u8>, at: int, depth: nat, care: Care)
    requires
        0 <= at <= raw.len(),
    ensures
        ({
            let left = raw.len() - at;
            let short = 256 * raw[at] + raw[at + 1];
            let long = 16777216 * raw[at] + 65536 * raw[at + 1] + 256 * raw[at + 2] + raw[at + 3];
            let ends = |kind: u8, size: int, there: bool|
                payload_end(raw, at, kind, depth, care) == if there && size <= left {
                    Some(at + size)
                } else {
                    None
                };
            &&& ends(1, 1, true)
            &&& ends(2, 2, true)
            &&& ends(3, 4, true) && ends(5, 4, true)
            &&& ends(4, 8, true) && ends(6, 8, true)
            &&& ends(7, 4 + long, left >= 4 && long < 0x8000_0000)
            &&& ends(8, 2 + short, left >= 2)
            &&& ends(11, 4 + 4 * long, left >= 4 && long < 0x8000_0000)
            &&& ends(12, 4 + 8 * long, left >= 4 && long < 0x8000_0000)
        }),
        forall|kind: u8|
            kind == 0 || kind > 12 ==> (#[trigger] payload_end(raw, at, kind, depth, care)) is None,
{
}

/// A compound is read field by field: a field is its kind, the length of its name in two
/// bytes, the name and its payload, and behind it the next begins; a zero in place of a kind
/// ends the compound.
pub proof fn lemma_compound_goes_field_by_field(raw: Seq<u8>, at: int, depth: nat, next: int)
    requires
        0 <= at < raw.len(),
        depth > 0,
    ensures
        raw[at] == 0 ==> payload_end(raw, at, 10, depth, Care::Strict) == Some(at + 1),
        raw[at] != 0 && at + 3 + 256 * raw[at + 1] + raw[at + 2] <= raw.len() && payload_end(
            raw,
            at + 3 + 256 * raw[at + 1] + raw[at + 2],
            raw[at],
            (depth - 1) as nat,
            Care::Strict,
        ) == Some(next) && at < next <= raw.len() ==> payload_end(raw, at, 10, depth, Care::Strict)
            == payload_end(raw, next, 10, depth, Care::Strict),
{
}

/// A list is its kind, its length in four bytes and its elements one after another; it may be
/// empty, and no two of its elements are of different kinds.
pub proof fn lemma_list_goes_item_by_item(
    raw: Seq<u8>,
    at: int,
    depth: nat,
    count: nat,
    next: int,
)
    requires
        0 <= at,
        at + 5 <= raw.len(),
        depth > 0,
        count == 16777216 * raw[at + 1] + 65536 * raw[at + 2] + 256 * raw[at + 3] + raw[at + 4],
        count <= raw.len(),
        count < 0x8000_0000,
    ensures
        count == 0 && raw[at] <= 12 ==> payload_end(raw, at, 9, depth, Care::Strict) == Some(
            at + 5,
        ),
        count > 0 && payload_end(raw, at + 5, raw[at], (depth - 1) as nat, Care::Strict) == Some(
            next,
        ) ==> payload_end(raw, at, 9, depth, Care::Strict) == items_end(
            raw,
            next,
            raw[at],
            (count - 1) as nat,
            (depth - 1) as nat,
            Care::Strict,
        ),
        count > 0 && payload_end(raw, at + 5, raw[at], (depth - 1) as nat, Care::Strict) is None
            ==> payload_end(raw, at, 9, depth, Care::Strict) is None,
{
}

/// A document is a compound with a name, and is soundly framed exactly where that compound is
/// all there.
pub proof fn lemma_document_is_a_named_compound(raw: &Vec<u8>, r: bool)
    requires
        call_ensures(is_framed, (raw,), r),
    ensures
        r <==> raw@.len() >= 3 && raw@[0] == 10 && 3 + 256 * raw@[1] + raw@[2] <= raw@.len()
            && payload_end(raw@, 3 + 256 * raw@[1] + raw@[2], 10, 2048, Care::Strict) is Some,
{
}

/// A file that is no such document has no numbers that could be out of range.
pub proof fn lemma_other_files_are_tame(raw: &Vec<u8>, r: bool)
    requires
        call_ensures(tests_tame, (raw,), r),
        raw@.len() == 0 || raw@[0] != 10,
    ensures
        r,
{
}

} // verus!
