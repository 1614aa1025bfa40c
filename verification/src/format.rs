//! Schematic format loading.
//!
//! `nucleation` detects most containers from their bytes. Binary vanilla
//! structure NBT is decoded here, because `nucleation`'s own path for structures
//! caps them at 256 blocks per axis and 262,144 cells.

use vstd::prelude::*;
use vstd::multiset::Multiset;
use nucleation::UniversalSchematic;
use quartz_nbt::{NbtCompound, NbtList, NbtTag};
use crate::changes::{at, Position, State};
use crate::error::{failure, Error};
use crate::nbt::{
    decode, decoded, doubled, field, fields, framed, held, is_framed, is_tame, items, list_items,
    node, tests_tame, widen, with_position, Fields, Nbt, Node,
};
use crate::palette::{palette, read_palette, spells_palette, views};
use crate::schematic::{
    add_entity, answer_of, attach, block_entities, block_name, built, described, entities,
    entity_count, entity_id, entity_position, in_room, is_empty_room, is_walkable, keeps_to_room, may_answer, may_refuse,
    new_build, noted, occupied, parsed_block, place, read_any, read_block, read_entity,
    region_total, replaced, restated, room, spans, stated, walkable, Coordinates,
};
use crate::snapshot::{is_tame_snapshot, tests_tame_snapshot};
use crate::snbt::{is_calm, tests_calm};
use crate::text::{
    decimal, is_digit, lemma_number_goes_before, lemma_prefix_goes_on, push_decimal, push_large,
    push_signed, signed_decimal, tells_number,
};

verus! {

/// Cell-count ceiling for bounded decoders and the binary NBT path. Prevents
/// corrupt dimensions and decompression bombs from triggering huge allocations.
pub const MAX_VOLUME: i64 = 512 * 1024 * 1024;

/// Ceiling for the size that a compressed file says it expands to.
pub const MAX_DECOMPRESSED_BYTES: u32 = 1024 * 1024 * 1024;

/// Input budget for `nucleation`'s decoders, overriding their 256 MiB default.
pub const MAX_NUCLEATION_INPUT: usize = 1024 * 1024 * 1024;

/// A build that was read from a file.
pub struct Loaded {
    pub schematic: UniversalSchematic,
    /// The format that actually parsed the file, which may differ from the
    /// extension when a file is misnamed.
    pub format: String,
    pub entities: usize,
}

impl Loaded {
    /// All of the build can be walked and measured.
    pub open spec fn wf(self) -> bool {
        walkable(self.schematic)
    }
}

/// The build of a side, if there is one, can be walked and measured.
pub open spec fn is_sound_side(side: Option<Loaded>) -> bool {
    side matches Some(loaded) ==> loaded.wf()
}

/// What a gzip stream decompresses to: the bytes that come out of it, and, where it
/// breaks off, the words that say so.
pub uninterp spec fn inflated(bytes: Seq<u8>) -> (Seq<u8>, Option<Seq<char>>);

/// Decompresses a gzip stream, by `flate2::read::GzDecoder` read until it ends or
/// `cap` bytes have come out of it. What comes out goes by the bytes alone, and a
/// vector has no more of them than can be addressed.
#[verifier::external_body]
fn gunzip(bytes: &[u8], cap: u64) -> (r: Result<Vec<u8>, String>)
    ensures
        match r {
            Ok(raw) => raw@.len() <= isize::MAX && if raw@.len() < cap {
                inflated(bytes@) == (raw@, None::<Seq<char>>)
            } else {
                raw@.len() == cap && raw@.is_prefix_of(inflated(bytes@).0)
            },
            Err(words) => inflated(bytes@).1 == Some(words@) && inflated(bytes@).0.len() < cap,
        },
{
    let mut raw = Vec::new();
    let decoder = flate2::read::GzDecoder::new(std::io::Cursor::new(bytes));
    match std::io::Read::read_to_end(&mut std::io::Read::take(decoder, cap), &mut raw) {
        Ok(_) => Ok(raw),
        Err(error) => Err(error.to_string()),
    }
}

/// Bytes that start as a gzip stream does.
pub open spec fn is_gzip(bytes: Seq<u8>) -> bool {
    bytes.len() >= 2 && bytes[0] == 0x1f && bytes[1] == 0x8b
}

/// The size that a gzip stream says it expands to, in its last four bytes.
pub open spec fn declared_size(bytes: Seq<u8>) -> int {
    let n = bytes.len() as int;
    bytes[n - 4] + 256 * bytes[n - 3] + 65536 * bytes[n - 2] + 16777216 * bytes[n - 1]
}

/// What a file holds once it is decompressed, if it is compressed.
pub open spec fn unpacked(bytes: Seq<u8>, limit: u32) -> Result<Seq<u8>, Seq<char>> {
    if !is_gzip(bytes) {
        Ok(bytes)
    } else if bytes.len() < 4 {
        Err("truncated gzip stream"@)
    } else if limit != u32::MAX && declared_size(bytes) > limit {
        Err(
            "compressed payload expands to "@ + decimal((declared_size(bytes) / 1048576) as nat)
                + " MiB, beyond the "@ + decimal((limit as int / 1048576) as nat) + " MiB limit"@,
        )
    } else if limit != u32::MAX && inflated(bytes).0.len() > limit {
        Err(
            "compressed payload expands beyond the "@ + decimal((limit as int / 1048576) as nat)
                + " MiB limit"@,
        )
    } else {
        match inflated(bytes).1 {
            None => Ok(inflated(bytes).0),
            Some(words) => Err("gzip decompression failed: "@ + words),
        }
    }
}

/// Decompress gzip data when present, rejecting output over `limit`.
///
/// The gzip trailer's size field sizes the inflater's output buffer, so reading
/// it up front bounds both allocation and decode work. A stream that understates its
/// size is given up as soon as it has come out longer than the limit.
pub fn maybe_gunzip(bytes: &[u8], limit: u32) -> (r: Result<Vec<u8>, Error>)
    ensures
        match unpacked(bytes@, limit) {
            Ok(raw) => r is Ok && r->Ok_0@ == raw,
            Err(words) => failure(r) == Some(words),
        },
        is_gzip(bytes@) && limit != u32::MAX && r is Ok ==> r->Ok_0@.len() <= limit,
{
    let n: usize = bytes.len();
    if n < 2 || bytes[0] != 0x1f || bytes[1] != 0x8b {
        let mut copy: Vec<u8> = Vec::new();
        copy.extend_from_slice(bytes);
        assert(copy@ =~= bytes@);
        return Ok(copy);
    }
    if n < 4 {
        return Err(Error::message("truncated gzip stream".to_owned()));
    }
    if limit != u32::MAX {
        let declared: u32 = bytes[n - 4] as u32 + 256 * bytes[n - 3] as u32 + 65536 * bytes[n
            - 2] as u32 + 16777216 * bytes[n - 1] as u32;
        assert(declared == declared_size(bytes@));
        if declared > limit {
            let mut text = "compressed payload expands to ".to_owned();
            push_decimal(&mut text, (declared / 1048576) as u64);
            text.append(" MiB, beyond the ");
            push_decimal(&mut text, (limit / 1048576) as u64);
            text.append(" MiB limit");
            return Err(Error::message(text));
        }
    }
    let cap: u64 = if limit == u32::MAX {
        u64::MAX
    } else {
        limit as u64 + 1
    };
    match gunzip(bytes, cap) {
        Ok(raw) => if raw.len() as u64 == cap {
            let mut text = "compressed payload expands beyond the ".to_owned();
            push_decimal(&mut text, (limit / 1048576) as u64);
            text.append(" MiB limit");
            Err(Error::message(text))
        } else {
            Ok(raw)
        },
        Err(words) => {
            let mut text = "gzip decompression failed: ".to_owned();
            text.append(words.as_str());
            Err(Error::message(text))
        },
    }
}

/// The whole number in a tag, where it is one of up to four bytes.
pub open spec fn whole(tag: Nbt) -> Option<int> {
    match tag {
        Nbt::Byte(v) => Some(v as int),
        Nbt::Short(v) => Some(v as int),
        Nbt::Int(v) => Some(v as int),
        _ => None,
    }
}

/// The three-element integer vector in a tag: an array of integers, or a list of
/// whole numbers.
pub open spec fn whole_triple(tag: Nbt) -> Option<Position> {
    match tag {
        Nbt::Ints(v) => if v.len() == 3 {
            Some((v[0] as int, v[1] as int, v[2] as int))
        } else {
            None
        },
        Nbt::List(v) => if v.len() == 3 && whole(v[0]) is Some && whole(v[1]) is Some && whole(
            v[2],
        ) is Some {
            Some((whole(v[0])->0, whole(v[1])->0, whole(v[2])->0))
        } else {
            None
        },
        _ => None,
    }
}

/// The three-element integer vector under a name.
pub open spec fn triple_field(data: Fields, name: Seq<char>) -> Option<Position> {
    if data.contains_key(name) {
        whole_triple(data[name])
    } else {
        None
    }
}

fn read_whole(tag: &NbtTag) -> (r: Option<i32>)
    ensures
        match r {
            Some(v) => whole(held(*tag)) == Some(v as int),
            None => whole(held(*tag)) is None,
        },
{
    match node(tag) {
        Node::Byte(v) => Some(v as i32),
        Node::Short(v) => Some(v as i32),
        Node::Int(v) => Some(v),
        _ => None,
    }
}

/// Read a three-element integer vector, accepting both the list encoding the
/// game writes and the int-array encoding other tools emit.
pub fn triple(compound: &NbtCompound, key: &str) -> (r: Option<[i32; 3]>)
    ensures
        match r {
            Some(v) => triple_field(fields(*compound), key@) == Some(at(v)),
            None => triple_field(fields(*compound), key@) is None,
        },
{
    let tag = match field(compound, key) {
        Some(tag) => tag,
        None => {
            return None;
        },
    };
    match node(tag) {
        Node::Ints(values) => if values.len() == 3 {
            Some([values[0], values[1], values[2]])
        } else {
            None
        },
        Node::List(list) => {
            let entries = list_items(list);
            if entries.len() != 3 {
                return None;
            }
            match (read_whole(&entries[0]), read_whole(&entries[1]), read_whole(&entries[2])) {
                (Some(x), Some(y), Some(z)) => Some([x, y, z]),
                _ => None,
            }
        },
        _ => None,
    }
}

/// A tag with a floating-point number.
pub open spec fn is_real(tag: Nbt) -> bool {
    tag is Float || tag is Double
}

/// The three-element floating-point vector under a name, as used for entity
/// positions, in double precision.
pub open spec fn real_triple(data: Fields, name: Seq<char>) -> Option<Seq<Nbt>> {
    if data.contains_key(name) && data[name] is List {
        let v = data[name]->List_0;
        if v.len() == 3 && is_real(v[0]) && is_real(v[1]) && is_real(v[2]) {
            Some(seq![doubled(v[0]), doubled(v[1]), doubled(v[2])])
        } else {
            None
        }
    } else {
        None
    }
}

fn tests_real(tag: &NbtTag) -> (r: bool)
    ensures
        r == is_real(held(*tag)),
{
    match node(tag) {
        Node::Float | Node::Double => true,
        _ => false,
    }
}

/// Read a three-element floating-point list, as used for entity positions.
fn double_triple(compound: &NbtCompound, key: &str) -> (r: Option<(NbtTag, NbtTag, NbtTag)>)
    ensures
        match r {
            Some((x, y, z)) => real_triple(fields(*compound), key@) == Some(
                seq![held(x), held(y), held(z)],
            ),
            None => real_triple(fields(*compound), key@) is None,
        },
{
    let tag = match field(compound, key) {
        Some(tag) => tag,
        None => {
            return None;
        },
    };
    match node(tag) {
        Node::List(list) => {
            let entries = list_items(list);
            if entries.len() == 3 && tests_real(&entries[0]) && tests_real(&entries[1])
                && tests_real(&entries[2]) {
                Some((widen(&entries[0]), widen(&entries[1]), widen(&entries[2])))
            } else {
                None
            }
        },
        _ => None,
    }
}

/// What is said of a file that is no structure.
pub open spec fn not_a_structure(name: Seq<char>) -> Seq<char> {
    name + " is not a Java structure"@
}

fn unreadable(name: &str) -> (r: Error)
    ensures
        r.text() == not_a_structure(name@),
{
    let mut text = name.to_owned();
    text.append(" is not a Java structure");
    Error::message(text)
}

/// How many cells a size has.
pub open spec fn volume(size: Position) -> int {
    size.0 * size.1 * size.2
}

/// A size along three axes, in words.
pub open spec fn dimensions_text(size: Position) -> Seq<char> {
    signed_decimal(size.0) + "x"@ + signed_decimal(size.1) + "x"@ + signed_decimal(size.2)
}

/// A position or size as a list in square brackets.
pub open spec fn bracketed(v: Position) -> Seq<char> {
    "["@ + signed_decimal(v.0) + ", "@ + signed_decimal(v.1) + ", "@ + signed_decimal(v.2) + "]"@
}

/// Append a size along three axes.
pub fn push_dimensions(out: &mut String, size: [i32; 3])
    ensures
        final(out)@ == old(out)@ + dimensions_text(at(size)),
{
    push_signed(out, size[0] as i64);
    out.append("x");
    push_signed(out, size[1] as i64);
    out.append("x");
    push_signed(out, size[2] as i64);
    assert(out@ =~= old(out)@ + dimensions_text(at(size)));
}

fn push_bracketed(out: &mut String, v: [i32; 3])
    ensures
        final(out)@ == old(out)@ + bracketed(at(v)),
{
    out.append("[");
    push_signed(out, v[0] as i64);
    out.append(", ");
    push_signed(out, v[1] as i64);
    out.append(", ");
    push_signed(out, v[2] as i64);
    out.append("]");
    assert(out@ =~= old(out)@ + bracketed(at(v)));
}

/// The size of a structure, or the words in which the structure is refused
/// because of it.
pub open spec fn structure_size(root: Fields, name: Seq<char>) -> Result<Position, Seq<char>> {
    match triple_field(root, "size"@) {
        None => Err(not_a_structure(name)),
        Some(size) => if size.0 <= 0 || size.1 <= 0 || size.2 <= 0 {
            Err(not_a_structure(name))
        } else if volume(size) > MAX_VOLUME {
            Err(
                name + " is "@ + dimensions_text(size) + " ("@ + decimal(volume(size) as nat)
                    + " cells), beyond the "@ + decimal(MAX_VOLUME as nat) + "-cell limit"@,
            )
        } else {
            Ok(size)
        },
    }
}

/// The number of cells of a size.
fn cell_count(size: [i32; 3]) -> (r: u128)
    requires
        size@[0] > 0,
        size@[1] > 0,
        size@[2] > 0,
    ensures
        r == volume(at(size)),
{
    let x: u128 = size[0] as u128;
    let y: u128 = size[1] as u128;
    let z: u128 = size[2] as u128;
    proof {
        assert(0 <= x * y <= 0x7fff_ffff * 0x7fff_ffff) by (nonlinear_arith)
            requires
                0 <= x <= 0x7fff_ffff,
                0 <= y <= 0x7fff_ffff,
        ;
        let xy = x * y;
        assert(0 <= xy * z <= 0x7fff_ffff * 0x7fff_ffff * 0x7fff_ffff) by (nonlinear_arith)
            requires
                0 <= xy <= 0x7fff_ffff * 0x7fff_ffff,
                0 <= z <= 0x7fff_ffff,
        ;
    }
    x * y * z
}

fn read_size(root: &NbtCompound, name: &str) -> (r: Result<[i32; 3], Error>)
    ensures
        match structure_size(fields(*root), name@) {
            Ok(size) => r is Ok && at(r->Ok_0) == size,
            Err(words) => failure(r) == Some(words),
        },
{
    let size = match triple(root, "size") {
        Some(size) => size,
        None => {
            return Err(unreadable(name));
        },
    };
    if size[0] <= 0 || size[1] <= 0 || size[2] <= 0 {
        return Err(unreadable(name));
    }
    let cells: u128 = cell_count(size);
    if cells > MAX_VOLUME as u128 {
        let mut text = name.to_owned();
        text.append(" is ");
        push_dimensions(&mut text, size);
        text.append(" (");
        push_large(&mut text, cells);
        text.append(" cells), beyond the ");
        push_decimal(&mut text, MAX_VOLUME as u64);
        text.append("-cell limit");
        return Err(Error::message(text));
    }
    Ok(size)
}

/// What the blocks of a structure have put into it so far.
pub struct Filling {
    pub blocks: Multiset<(Position, Seq<char>)>,
    /// The same blocks, each with its properties.
    pub states: Multiset<(Position, State)>,
    pub block_entities: Map<Position, (Seq<char>, Fields)>,
}

/// The id of a block entity: what its data says, or else the block's name.
pub open spec fn block_entity_id(data: Fields, block: Seq<char>) -> Seq<char> {
    let tag = if data.contains_key("id"@) {
        Some(data["id"@])
    } else if data.contains_key("Id"@) {
        Some(data["Id"@])
    } else {
        None
    };
    match tag {
        Some(Nbt::Text(id)) => id,
        _ => block,
    }
}

/// One block put into a structure.
pub open spec fn with_block(
    filling: Filling,
    data: Fields,
    position: Position,
    block: State,
) -> Filling {
    Filling {
        blocks: replaced(filling.blocks, position, block.0),
        states: restated(filling.states, position, block),
        block_entities: if data.contains_key("nbt"@) && data["nbt"@] is Compound {
            let nbt = data["nbt"@]->Compound_0;
            filling.block_entities.insert(position, (block_entity_id(nbt, block.0), nbt))
        } else {
            filling.block_entities
        },
    }
}

/// The index into the palette that an entry of a structure's block list gives.
pub open spec fn state_index(data: Fields, states: Seq<Seq<char>>) -> Option<int> {
    if data.contains_key("state"@) && data["state"@] is Int {
        let index = data["state"@]->Int_0;
        if 0 <= index < states.len() {
            Some(index as int)
        } else {
            None
        }
    } else {
        None
    }
}

/// What one entry of a structure's block list does to it.
pub open spec fn step(
    filling: Filling,
    entry: Nbt,
    size: Position,
    states: Seq<Seq<char>>,
    name: Seq<char>,
) -> Result<Filling, Seq<char>> {
    match entry {
        Nbt::Compound(data) => match triple_field(data, "pos"@) {
            None => Err(not_a_structure(name)),
            Some(position) => if !in_room(size, position) {
                Err(
                    name + " has a block at "@ + bracketed(position) + ", outside its "@
                        + bracketed(size) + " size"@,
                )
            } else {
                match state_index(data, states) {
                    None => Err(not_a_structure(name)),
                    Some(index) => match parsed_block(states[index]) {
                        Err(words) => Err(name + ": "@ + words),
                        Ok(block) => Ok(with_block(filling, data, position, block)),
                    },
                }
            },
        },
        _ => Err(not_a_structure(name)),
    }
}

/// What is in a structure before any block is.
pub open spec fn nothing_filled() -> Filling {
    Filling {
        blocks: Multiset::empty(),
        states: Multiset::empty(),
        block_entities: Map::empty(),
    }
}

/// What the entries of a structure's block list make of it, one after another.
pub open spec fn filled(
    entries: Seq<Nbt>,
    size: Position,
    states: Seq<Seq<char>>,
    name: Seq<char>,
) -> Result<Filling, Seq<char>>
    decreases entries.len(),
{
    if entries.len() == 0 {
        Ok(nothing_filled())
    } else {
        match filled(entries.drop_last(), size, states, name) {
            Err(words) => Err(words),
            Ok(filling) => step(filling, entries.last(), size, states, name),
        }
    }
}

/// The data of an entity in a structure's list of entities. An entry without a
/// type id is passed over, as the game does.
pub open spec fn entity_data(entry: Nbt) -> Option<Fields> {
    match entry {
        Nbt::Compound(outer) => if outer.contains_key("nbt"@) && outer["nbt"@] is Compound {
            let data = outer["nbt"@]->Compound_0;
            if !data.contains_key("id"@) && !data.contains_key("Id"@) {
                None
            } else {
                match real_triple(outer, "pos"@) {
                    Some(position) => Some(data.insert("Pos"@, Nbt::List(position))),
                    None => Some(data),
                }
            }
        } else {
            None
        },
        _ => None,
    }
}

/// What is seen of an entity in a structure's list of entities, where it is one.
pub open spec fn sighting(entry: Nbt) -> Option<(Seq<char>, Coordinates)> {
    match entity_data(entry) {
        Some(data) => described(data),
        None => None,
    }
}

/// What is seen of all entities in a list.
pub open spec fn sightings(entries: Seq<Nbt>) -> Seq<(Seq<char>, Coordinates)>
    decreases entries.len(),
{
    if entries.len() == 0 {
        Seq::empty()
    } else {
        match sighting(entries.last()) {
            Some(one) => sightings(entries.drop_last()).push(one),
            None => sightings(entries.drop_last()),
        }
    }
}

/// The list under a name, if there is one.
pub open spec fn list_field(data: Fields, name: Seq<char>) -> Option<Seq<Nbt>> {
    if data.contains_key(name) && data[name] is List {
        Some(data[name]->List_0)
    } else {
        None
    }
}

/// The entities of a structure.
pub open spec fn structure_entities(root: Fields) -> Seq<(Seq<char>, Coordinates)> {
    match list_field(root, "entities"@) {
        Some(entries) => sightings(entries),
        None => Seq::empty(),
    }
}

/// What the blocks of a structure of the given size make of it, or the words in
/// which it is refused.
pub open spec fn structure_filling(root: Fields, size: Position, name: Seq<char>) -> Result<
    Filling,
    Seq<char>,
> {
    match palette(root) {
        None => Err(not_a_structure(name)),
        Some(states) => match list_field(root, "blocks"@) {
            None => Err(not_a_structure(name)),
            Some(entries) => if entries.len() > volume(size) {
                Err(not_a_structure(name))
            } else {
                filled(entries, size, states, name)
            },
        },
    }
}

/// The data version that a structure was saved with.
pub open spec fn saved_version(root: Fields) -> Option<i32> {
    if root.contains_key("DataVersion"@) && root["DataVersion"@] is Int {
        Some(root["DataVersion"@]->Int_0)
    } else {
        None
    }
}

/// The region of a structure of some size.
pub open spec fn at_origin(size: Position) -> (Position, Position) {
    ((0int, 0int, 0int), size)
}

/// A build is the room for a structure: of its size, with nothing in it, and with
/// the structure's name and data version noted.
pub open spec fn is_room_for(
    build: UniversalSchematic,
    root: Fields,
    size: Position,
    name: Seq<char>,
) -> bool {
    &&& is_empty_room(build, at_origin(size))
    &&& noted(build) == (Some(name), saved_version(root), saved_version(root))
}

/// A build was loaded from a structure.
pub open spec fn holds_structure(
    loaded: Loaded,
    root: Fields,
    size: Position,
    filling: Filling,
    name: Seq<char>,
) -> bool {
    &&& loaded.wf()
    &&& palette(root) matches Some(texts) && spells_palette(texts, root)
    &&& built(loaded.schematic) == filling.blocks
    &&& stated(loaded.schematic) == filling.states
    &&& block_entities(loaded.schematic) == filling.block_entities
    &&& entities(loaded.schematic) == structure_entities(root).to_multiset()
    &&& room(loaded.schematic) == Some(at_origin(size))
    &&& region_total(loaded.schematic) == 1
    &&& noted(loaded.schematic) == (Some(name), saved_version(root), saved_version(root))
    &&& loaded.format@ == "nbt (structure)"@
    &&& loaded.entities == structure_entities(root).len()
}

/// What filling the room for a structure gives.
pub open spec fn tells_filled(
    r: Result<Loaded, Error>,
    root: Fields,
    size: Position,
    name: Seq<char>,
) -> bool {
    match structure_filling(root, size, name) {
        Ok(filling) => r is Ok && holds_structure(r->Ok_0, root, size, filling, name),
        Err(words) => failure(r) == Some(words),
    }
}

/// What reading a structure gives. Where its size is sound the room for it may
/// still be refused, in words of the allocator's.
pub open spec fn tells_structure(
    r: Result<Loaded, Error>,
    root: Fields,
    name: Seq<char>,
) -> bool {
    match structure_size(root, name) {
        Err(words) => failure(r) == Some(words),
        Ok(size) => tells_filled(r, root, size, name) || exists|words: Seq<char>| #[trigger]
            may_refuse((0int, 0int, 0int), size, words) && failure(r) == Some(
                room_refused(name, words),
            ),
    }
}

/// What is said where the room for a structure is refused.
pub open spec fn room_refused(name: Seq<char>, words: Seq<char>) -> Seq<char> {
    name + ": "@ + words
}

/// The id of a block entity.
fn find_block_entity_id(data: &NbtCompound, block: &str) -> (r: String)
    ensures
        r@ == block_entity_id(fields(*data), block@),
{
    let tag = match field(data, "id") {
        Some(tag) => Some(tag),
        None => field(data, "Id"),
    };
    match tag {
        Some(tag) => match node(tag) {
            Node::Text(id) => id.to_owned(),
            _ => block.to_owned(),
        },
        None => block.to_owned(),
    }
}

/// Put one entry of a structure's block list into the build.
fn put_block(
    build: &mut UniversalSchematic,
    entry: &NbtTag,
    size: [i32; 3],
    states: &Vec<String>,
    name: &str,
    Ghost(filling): Ghost<Filling>,
) -> (r: Result<(), Error>)
    requires
        room(*old(build)) == Some(at_origin(at(size))),
        keeps_to_room(*old(build)),
        built(*old(build)) == filling.blocks,
        stated(*old(build)) == filling.states,
        block_entities(*old(build)) == filling.block_entities,
    ensures
        room(*final(build)) == room(*old(build)),
        keeps_to_room(*final(build)),
        noted(*final(build)) == noted(*old(build)),
        region_total(*final(build)) == region_total(*old(build)),
        entities(*final(build)) == entities(*old(build)),
        match step(filling, held(*entry), at(size), views(states@), name@) {
            Ok(next) => r is Ok && built(*final(build)) == next.blocks && stated(*final(build))
                == next.states && block_entities(*final(build)) == next.block_entities,
            Err(words) => failure(r) == Some(words),
        },
{
    let data = match node(entry) {
        Node::Compound(data) => data,
        _ => {
            return Err(unreadable(name));
        },
    };
    let position = match triple(data, "pos") {
        Some(position) => position,
        None => {
            return Err(unreadable(name));
        },
    };
    // Reject coordinates outside the declared grid even when the dimensions
    // themselves are well formed.
    if position[0] < 0 || position[0] >= size[0] || position[1] < 0 || position[1] >= size[1]
        || position[2] < 0 || position[2] >= size[2] {
        let mut text = name.to_owned();
        text.append(" has a block at ");
        push_bracketed(&mut text, position);
        text.append(", outside its ");
        push_bracketed(&mut text, size);
        text.append(" size");
        return Err(Error::message(text));
    }
    let index: i32 = match field(data, "state") {
        Some(tag) => match node(tag) {
            Node::Int(index) => index,
            _ => {
                return Err(unreadable(name));
            },
        },
        None => {
            return Err(unreadable(name));
        },
    };
    if index < 0 || index as u64 >= states.len() as u64 {
        return Err(unreadable(name));
    }
    assert(views(states@)[index as int] == states@[index as int]@);
    let block = match read_block(states[index as usize].as_str()) {
        Ok(block) => block,
        Err(words) => {
            let mut text = name.to_owned();
            text.append(": ");
            text.append(words.as_str());
            return Err(Error::message(text));
        },
    };
    place(build, position, &block);
    match field(data, "nbt") {
        Some(tag) => match node(tag) {
            Node::Compound(nbt) => {
                let id = find_block_entity_id(nbt, block_name(&block));
                attach(build, position, id.as_str(), nbt);
            },
            _ => {},
        },
        None => {},
    }
    Ok(())
}

/// Put all entries of a structure's block list into the build.
fn put_blocks(
    build: &mut UniversalSchematic,
    list: &NbtList,
    size: [i32; 3],
    states: &Vec<String>,
    name: &str,
) -> (r: Result<(), Error>)
    requires
        is_empty_room(*old(build), at_origin(at(size))),
    ensures
        room(*final(build)) == room(*old(build)),
        keeps_to_room(*final(build)),
        noted(*final(build)) == noted(*old(build)),
        region_total(*final(build)) == region_total(*old(build)),
        entities(*final(build)) == entities(*old(build)),
        match filled(items(*list), at(size), views(states@), name@) {
            Ok(filling) => r is Ok && built(*final(build)) == filling.blocks && stated(
                *final(build),
            ) == filling.states && block_entities(*final(build)) == filling.block_entities,
            Err(words) => failure(r) == Some(words),
        },
{
    let entries = list_items(list);
    let ghost all = items(*list);
    let ghost start = *build;
    let mut i: usize = 0;
    let ghost mut so_far = nothing_filled();
    while i < entries.len()
        invariant
            i <= entries.len(),
            entries@.len() == all.len(),
            all == items(*list),
            forall|k: int| 0 <= k < all.len() ==> held(#[trigger] entries@[k]) == all[k],
            room(*build) == Some(at_origin(at(size))),
            keeps_to_room(*build),
            room(start) == Some(at_origin(at(size))),
            start == *old(build),
            entities(*build) == entities(start),
            noted(*build) == noted(start),
            region_total(*build) == region_total(start),
            built(*build) == so_far.blocks,
            stated(*build) == so_far.states,
            block_entities(*build) == so_far.block_entities,
            filled(all.take(i as int), at(size), views(states@), name@) == Ok::<
                Filling,
                Seq<char>,
            >(so_far),
        decreases entries.len() - i,
    {
        proof {
            assert(all.take(i + 1).drop_last() =~= all.take(i as int));
            assert(all.take(i + 1).last() == all[i as int]);
        }
        let ghost next = step(so_far, all[i as int], at(size), views(states@), name@);
        match put_block(build, &entries[i], size, states, name, Ghost(so_far)) {
            Ok(()) => {
                proof {
                    so_far = next->Ok_0;
                }
            },
            Err(error) => {
                proof {
                    lemma_refusal_stands(all, i + 1, at(size), views(states@), name@);
                }
                return Err(error);
            },
        }
        i = i + 1;
    }
    assert(all.take(i as int) =~= all);
    Ok(())
}

/// A structure that is refused for its first blocks is refused, in the same
/// words, whatever follows.
pub proof fn lemma_refusal_stands(
    entries: Seq<Nbt>,
    count: int,
    size: Position,
    states: Seq<Seq<char>>,
    name: Seq<char>,
)
    requires
        0 <= count <= entries.len(),
        filled(entries.take(count), size, states, name) is Err,
    ensures
        filled(entries, size, states, name) == filled(entries.take(count), size, states, name),
    decreases entries.len() - count,
{
    if count == entries.len() {
        assert(entries.take(count) =~= entries);
    } else {
        assert(entries.take(count + 1).drop_last() =~= entries.take(count));
        lemma_refusal_stands(entries, count + 1, size, states, name);
    }
}

/// Put one entry of a structure's list of entities into the build, if it is an
/// entity.
fn put_entity(build: &mut UniversalSchematic, entry: &NbtTag) -> (r: bool)
    ensures
        room(*final(build)) == room(*old(build)),
        noted(*final(build)) == noted(*old(build)),
        region_total(*final(build)) == region_total(*old(build)),
        built(*final(build)) == built(*old(build)),
        stated(*final(build)) == stated(*old(build)),
        spans(*final(build)) == spans(*old(build)),
        block_entities(*final(build)) == block_entities(*old(build)),
        match sighting(held(*entry)) {
            Some(one) => r && entities(*final(build)) == entities(*old(build)).insert(one),
            None => !r && entities(*final(build)) == entities(*old(build)),
        },
{
    let outer = match node(entry) {
        Node::Compound(outer) => outer,
        _ => {
            return false;
        },
    };
    let data = match field(outer, "nbt") {
        Some(tag) => match node(tag) {
            Node::Compound(data) => data,
            _ => {
                return false;
            },
        },
        None => {
            return false;
        },
    };
    // Match vanilla by ignoring entities without a type id instead of failing
    // the whole load.
    if field(data, "id").is_none() && field(data, "Id").is_none() {
        return false;
    }
    let entity = match double_triple(outer, "pos") {
        Some((x, y, z)) => {
            let placed = with_position(data, x, y, z);
            read_entity(&placed)
        },
        None => read_entity(data),
    };
    match entity {
        Some(entity) => {
            add_entity(build, entity);
            true
        },
        None => false,
    }
}

/// Put the entities of a structure into the build.
fn put_entities(build: &mut UniversalSchematic, list: &NbtList) -> (r: usize)
    ensures
        room(*final(build)) == room(*old(build)),
        noted(*final(build)) == noted(*old(build)),
        region_total(*final(build)) == region_total(*old(build)),
        built(*final(build)) == built(*old(build)),
        stated(*final(build)) == stated(*old(build)),
        spans(*final(build)) == spans(*old(build)),
        block_entities(*final(build)) == block_entities(*old(build)),
        entities(*final(build)) == entities(*old(build)).add(
            sightings(items(*list)).to_multiset(),
        ),
        r == sightings(items(*list)).len(),
{
    let entries = list_items(list);
    let ghost all = items(*list);
    let ghost start = *build;
    let mut count: usize = 0;
    let mut i: usize = 0;
    proof {
        assert(entities(start) =~= entities(start).add(sightings(all.take(0)).to_multiset())) by {
            broadcast use vstd::seq_lib::group_to_multiset_ensures;

        }
    }
    while i < entries.len()
        invariant
            i <= entries.len(),
            count <= i,
            entries@.len() == all.len(),
            forall|k: int| 0 <= k < all.len() ==> held(#[trigger] entries@[k]) == all[k],
            room(*build) == room(start),
            noted(*build) == noted(start),
            region_total(*build) == region_total(start),
            built(*build) == built(start),
            stated(*build) == stated(start),
            spans(*build) == spans(start),
            block_entities(*build) == block_entities(start),
            entities(*build) == entities(start).add(sightings(all.take(i as int)).to_multiset()),
            count == sightings(all.take(i as int)).len(),
        decreases entries.len() - i,
    {
        let ghost seen = sightings(all.take(i as int));
        proof {
            assert(all.take(i + 1).drop_last() =~= all.take(i as int));
            assert(all.take(i + 1).last() == all[i as int]);
        }
        let found = put_entity(build, &entries[i]);
        if found {
            proof {
                let one = sighting(all[i as int])->0;
                vstd::seq_lib::to_multiset_build(seen, one);
                assert(entities(*build) =~= entities(start).add(seen.push(one).to_multiset()));
            }
            count = count + 1;
        }
        i = i + 1;
    }
    assert(all.take(i as int) =~= all);
    count
}

/// Fill the room for a structure with its blocks and entities.
fn fill_structure(
    room_for_it: UniversalSchematic,
    root: &NbtCompound,
    size: [i32; 3],
    name: &str,
) -> (r: Result<Loaded, Error>)
    requires
        is_room_for(room_for_it, fields(*root), at(size), name@),
        size@[0] > 0,
        size@[1] > 0,
        size@[2] > 0,
    ensures
        tells_filled(r, fields(*root), at(size), name@),
{
    let mut build = room_for_it;
    let states = match read_palette(root) {
        Some(states) => states,
        None => {
            return Err(unreadable(name));
        },
    };
    let list = match field(root, "blocks") {
        Some(tag) => match node(tag) {
            Node::List(list) => list,
            _ => {
                return Err(unreadable(name));
            },
        },
        None => {
            return Err(unreadable(name));
        },
    };
    if list_items(list).len() as u128 > cell_count(size) {
        return Err(unreadable(name));
    }
    match put_blocks(&mut build, list, size, &states, name) {
        Ok(()) => {},
        Err(error) => {
            return Err(error);
        },
    }
    let mut count: usize = 0;
    proof {
        broadcast use vstd::seq_lib::group_to_multiset_ensures;

        assert(Seq::<(Seq<char>, Coordinates)>::empty().to_multiset() =~= Multiset::empty());
    }
    match field(root, "entities") {
        Some(tag) => match node(tag) {
            Node::List(list) => {
                count = put_entities(&mut build, list);
                assert(entities(build) =~= sightings(items(*list)).to_multiset());
            },
            _ => {},
        },
        None => {},
    }
    Ok(Loaded { schematic: build, format: "nbt (structure)".to_owned(), entities: count })
}

/// The data version that a structure was saved with.
fn data_version(root: &NbtCompound) -> (r: Option<i32>)
    ensures
        r == saved_version(fields(*root)),
{
    match field(root, "DataVersion") {
        Some(tag) => match node(tag) {
            Node::Int(version) => Some(version),
            _ => None,
        },
        None => None,
    }
}

/// What is made of a structure of the given size once its room was asked for.
pub fn settle_structure(
    root: &NbtCompound,
    size: [i32; 3],
    granted: Result<UniversalSchematic, String>,
    name: &str,
) -> (r: Result<Loaded, Error>)
    requires
        size@[0] > 0,
        size@[1] > 0,
        size@[2] > 0,
        granted matches Ok(build) ==> is_room_for(build, fields(*root), at(size), name@),
    ensures
        match granted {
            Ok(_) => tells_filled(r, fields(*root), at(size), name@),
            Err(words) => failure(r) == Some(room_refused(name@, words@)),
        },
{
    match granted {
        Ok(build) => fill_structure(build, root, size, name),
        Err(words) => {
            let mut text = name.to_owned();
            text.append(": ");
            text.append(words.as_str());
            Err(Error::message(text))
        },
    }
}

/// Read a structure from the root of its document.
pub fn read_structure(root: &NbtCompound, name: &str) -> (r: Result<Loaded, Error>)
    ensures
        tells_structure(r, fields(*root), name@),
{
    let size = match read_size(root, name) {
        Ok(size) => size,
        Err(error) => {
            return Err(error);
        },
    };
    let granted = new_build(name, data_version(root), [0, 0, 0], size);
    settle_structure(root, size, granted, name)
}

/// What loading a binary structure gives.
pub open spec fn tells_loaded_structure(
    r: Result<Loaded, Error>,
    bytes: Seq<u8>,
    name: Seq<char>,
) -> bool {
    match unpacked(bytes, MAX_DECOMPRESSED_BYTES) {
        Err(words) => failure(r) == Some(words),
        Ok(raw) => if framed(raw) {
            match decoded(raw) {
                Err(words) => failure(r) == Some(not_a_document(name, words)),
                Ok(root) => tells_structure(r, root, name),
            }
        } else {
            failure(r) == Some(not_a_document(name, unframed()))
        },
    }
}

/// What is said of a file that is no readable document.
pub open spec fn not_a_document(name: Seq<char>, words: Seq<char>) -> Seq<char> {
    name + " is not readable NBT: "@ + words
}

/// What is wrong with a document that is not soundly framed.
pub open spec fn unframed() -> Seq<char> {
    "it breaks off, or nests too deep"@
}

/// Load a binary structure.
pub fn load_structure_nbt(bytes: &[u8], name: &str) -> (r: Result<Loaded, Error>)
    ensures
        tells_loaded_structure(r, bytes@, name@),
{
    let raw = match maybe_gunzip(bytes, MAX_DECOMPRESSED_BYTES) {
        Ok(raw) => raw,
        Err(error) => {
            return Err(error);
        },
    };
    let document = if is_framed(&raw) {
        decode(&raw)
    } else {
        Err("it breaks off, or nests too deep".to_owned())
    };
    match document {
        Ok(root) => read_structure(&root, name),
        Err(words) => {
            let mut text = name.to_owned();
            text.append(" is not readable NBT: ");
            text.append(words.as_str());
            Err(Error::message(text))
        },
    }
}

/// A file is a binary structure. `blocks` and `palette` distinguish structures
/// from other NBT roots such as level data, chunks, and items.
pub open spec fn holds_binary_structure(bytes: Seq<u8>) -> bool {
    match unpacked(bytes, u32::MAX) {
        Err(_) => false,
        Ok(raw) => framed(raw) && (match decoded(raw) {
            Err(_) => false,
            Ok(root) => root.contains_key("blocks"@) && root.contains_key("palette"@),
        }),
    }
}

/// Whether a file is a binary structure.
pub fn is_binary_structure(bytes: &[u8]) -> (r: bool)
    ensures
        r == holds_binary_structure(bytes@),
{
    let raw = match maybe_gunzip(bytes, u32::MAX) {
        Ok(raw) => raw,
        Err(_) => {
            return false;
        },
    };
    if !is_framed(&raw) {
        return false;
    }
    match decode(&raw) {
        Ok(root) => field(&root, "blocks").is_some() && field(&root, "palette").is_some(),
        Err(_) => false,
    }
}

/// What is made of a file once `nucleation` has had its try: the format and the
/// build, or the words of a refusal, or nothing where it could not be asked.
pub open spec fn tells_reading(
    r: Result<Loaded, Error>,
    outcome: Option<Result<(String, UniversalSchematic), String>>,
    bytes: Seq<u8>,
    name: Seq<char>,
) -> bool {
    match outcome {
        None => failure(r) == Some("the format manager is poisoned"@),
        Some(Ok((format, build))) => if walkable(build) {
            r is Ok && r->Ok_0.schematic == build && r->Ok_0.format@ == format@ && r->Ok_0.entities
                == entities(build).len()
        } else {
            failure(r) == Some(name + " reaches the end of the coordinate range"@)
        },
        Some(Err(words)) => if holds_binary_structure(bytes) {
            tells_loaded_structure(r, bytes, name)
        } else {
            failure(r) == Some(name + " could not be read: "@ + words@)
        },
    }
}

/// Make of a file what can be made of it once `nucleation` has had its try.
pub fn settle_reading(
    outcome: Option<Result<(String, UniversalSchematic), String>>,
    bytes: &[u8],
    name: &str,
) -> (r: Result<Loaded, Error>)
    ensures
        tells_reading(r, outcome, bytes@, name@),
        r matches Ok(loaded) ==> loaded.wf(),
{
    match outcome {
        None => Err(Error::message("the format manager is poisoned".to_owned())),
        Some(Ok((format, build))) => {
            if !is_walkable(&build) {
                let mut text = name.to_owned();
                text.append(" reaches the end of the coordinate range");
                return Err(Error::message(text));
            }
            let count: usize = entity_count(&build);
            Ok(Loaded { schematic: build, format, entities: count })
        },
        Some(Err(words)) => {
            if is_binary_structure(bytes) {
                load_structure_nbt(bytes, name)
            } else {
                let mut text = name.to_owned();
                text.append(" could not be read: ");
                text.append(words.as_str());
                Err(Error::message(text))
            }
        },
    }
}

/// A file can be handed to `nucleation`: none of its importers would add up positions
/// beyond the range of coordinates, make room for what no region holds, or follow
/// brackets that never close.
pub open spec fn is_digestible(bytes: Seq<u8>) -> bool {
    &&& inflated(bytes).0.len() > MAX_DECOMPRESSED_BYTES || inflated(bytes).1 is Some || is_tame(
        inflated(bytes).0,
    )
    &&& is_calm(bytes)
    &&& is_tame_snapshot(bytes)
}

/// Whether a file can be handed to `nucleation`.
pub fn tests_digestible(bytes: &[u8]) -> (r: bool)
    ensures
        r == is_digestible(bytes@),
{
    let cap: u64 = MAX_DECOMPRESSED_BYTES as u64 + 1;
    let tame = match gunzip(bytes, cap) {
        Ok(raw) => raw.len() as u64 == cap || tests_tame(&raw),
        Err(_) => true,
    };
    tame && tests_calm(bytes) && tests_tame_snapshot(bytes)
}

/// What is said of a file that `nucleation` is not asked about.
pub open spec fn out_of_range() -> Seq<char> {
    "its numbers or its nesting are out of range"@
}

/// What the try with `nucleation` may come to: whatever it answers to a file that can be
/// handed to it, but no build from one beyond its budget; and a refusal otherwise.
pub open spec fn may_come_to(
    bytes: Seq<u8>,
    outcome: Option<Result<(String, UniversalSchematic), String>>,
) -> bool {
    if is_digestible(bytes) {
        &&& may_answer(bytes, MAX_NUCLEATION_INPUT as nat, answer_of(outcome))
        &&& bytes.len() > MAX_NUCLEATION_INPUT ==> !(outcome matches Some(Ok(_)))
    } else {
        outcome matches Some(Err(words)) && words@ == out_of_range()
    }
}

/// Load a build from the bytes of a file called `name`.
pub fn load_bytes(bytes: &[u8], name: &str) -> (r: Result<Loaded, Error>)
    ensures
        r matches Ok(loaded) ==> loaded.wf(),
        bytes@.len() == 0 ==> failure(r) == Some(name@ + " is empty"@),
        bytes@.len() > 0 ==> exists|outcome: Option<Result<(String, UniversalSchematic), String>>|
            #[trigger] tells_reading(r, outcome, bytes@, name@) && may_come_to(bytes@, outcome),
{
    if bytes.len() == 0 {
        let mut text = name.to_owned();
        text.append(" is empty");
        return Err(Error::message(text));
    }
    let outcome = if tests_digestible(bytes) {
        read_any(bytes, MAX_NUCLEATION_INPUT)
    } else {
        Some(Err("its numbers or its nesting are out of range".to_owned()))
    };
    settle_reading(outcome, bytes, name)
}

/// What is made of a file that cannot be handed to `nucleation` goes by the file alone: it
/// is the same whatever the try comes to.
pub proof fn lemma_indigestible_file_decides_alone(
    r: Result<Loaded, Error>,
    bytes: Seq<u8>,
    name: Seq<char>,
    one: Option<Result<(String, UniversalSchematic), String>>,
    other: Option<Result<(String, UniversalSchematic), String>>,
)
    requires
        !is_digestible(bytes),
        may_come_to(bytes, one),
        may_come_to(bytes, other),
    ensures
        tells_reading(r, one, bytes, name) == tells_reading(r, other, bytes, name),
{
}

/// The blocks of a build lie in its room, no two of them in one cell.
pub open spec fn in_cells(blocks: Multiset<(Position, Seq<char>)>, size: Position) -> bool {
    &&& forall|o: (Position, Seq<char>)| #[trigger]
        blocks.count(o) > 0 ==> in_room(size, o.0) && blocks.count(o) == 1
    &&& forall|a: (Position, Seq<char>), b: (Position, Seq<char>)|
        #![trigger blocks.count(a), blocks.count(b)]
        blocks.count(a) > 0 && blocks.count(b) > 0 && a.0 == b.0 ==> a == b
}

/// A block put into a cell replaces what was there: afterwards it stands there
/// alone, and every other cell is as it was.
pub proof fn lemma_block_replaces(
    blocks: Multiset<(Position, Seq<char>)>,
    position: Position,
    name: Seq<char>,
    o: (Position, Seq<char>),
)
    ensures
        o.0 != position ==> replaced(blocks, position, name).count(o) == blocks.count(o),
        o.0 == position ==> replaced(blocks, position, name).count(o) == (if o.1 == name
            && occupied(name) {
            1nat
        } else {
            0nat
        }),
{
    broadcast use vstd::multiset::group_multiset_axioms;

}

/// A structure that loads has its blocks inside its size, no two of them in one
/// cell, however often its block list names a cell.
pub proof fn lemma_structure_keeps_to_its_cells(
    entries: Seq<Nbt>,
    size: Position,
    states: Seq<Seq<char>>,
    name: Seq<char>,
)
    ensures
        filled(entries, size, states, name) matches Ok(filling) ==> in_cells(filling.blocks, size),
    decreases entries.len(),
{
    broadcast use vstd::multiset::group_multiset_axioms;

    if entries.len() > 0 {
        lemma_structure_keeps_to_its_cells(entries.drop_last(), size, states, name);
        if filled(entries, size, states, name) is Ok {
            let before = filled(entries.drop_last(), size, states, name)->Ok_0;
            let data = entries.last()->Compound_0;
            let position = triple_field(data, "pos"@)->0;
            let block = parsed_block(states[state_index(data, states)->0])->Ok_0;
            let after = replaced(before.blocks, position, block.0);
            assert forall|o: (Position, Seq<char>)| #[trigger] after.count(o) > 0 implies in_room(
                size,
                o.0,
            ) && after.count(o) == 1 by {
                lemma_block_replaces(before.blocks, position, block.0, o);
                assert(before.blocks.count(o) >= 0);
            }
            assert forall|a: (Position, Seq<char>), b: (Position, Seq<char>)|
                #![trigger after.count(a), after.count(b)]
                after.count(a) > 0 && after.count(b) > 0 && a.0 == b.0 implies a == b by {
                lemma_block_replaces(before.blocks, position, block.0, a);
                lemma_block_replaces(before.blocks, position, block.0, b);
                assert(before.blocks.count(a) >= 0 && before.blocks.count(b) >= 0);
            }
        }
    }
}

/// A tag says a whole number.
pub open spec fn says(tag: Nbt, n: int) -> bool {
    match tag {
        Nbt::Byte(v) => v == n,
        Nbt::Short(v) => v == n,
        Nbt::Int(v) => v == n,
        _ => false,
    }
}

/// A tag reads as a triple: its three numbers are those along the three axes, in their
/// order.
pub open spec fn reads_as(tag: Nbt, p: Position) -> bool {
    match tag {
        Nbt::Ints(v) => v.len() == 3 && v[0] == p.0 && v[1] == p.1 && v[2] == p.2,
        Nbt::List(v) => v.len() == 3 && says(v[0], p.0) && says(v[1], p.1) && says(v[2], p.2),
        _ => false,
    }
}

/// An entry of a block list names a cell: its `pos` reads as exactly that cell.
pub open spec fn names_cell(entry: Nbt, p: Position) -> bool {
    &&& entry is Compound
    &&& entry->Compound_0.contains_key("pos"@)
    &&& reads_as(entry->Compound_0["pos"@], p)
}

/// An entry of a block list gives a block: its `state` is the number of a text in the
/// palette that stands for that block.
pub open spec fn gives_block(entry: Nbt, states: Seq<Seq<char>>, block: State) -> bool {
    &&& entry is Compound
    &&& entry->Compound_0.contains_key("state"@)
    &&& exists|n: i32|
        entry->Compound_0["state"@] == Nbt::Int(n) && 0 <= n < states.len() && parsed_block(
            #[trigger] states[n as int],
        ) == Ok::<State, Seq<char>>(block)
}

/// An entry of a block list holds data for a block entity.
pub open spec fn holds_data(entry: Nbt, data: Fields) -> bool {
    &&& entry is Compound
    &&& entry->Compound_0.contains_key("nbt"@)
    &&& entry->Compound_0["nbt"@] == Nbt::Compound(data)
}

/// No entry of a block list from some number on names a cell.
pub open spec fn unnamed_from(entries: Seq<Nbt>, from: int, p: Position) -> bool {
    forall|j: int| from <= j < entries.len() ==> !names_cell(#[trigger] entries[j], p)
}

/// No entry of a block list from some number on has data for a cell.
pub open spec fn without_data_from(entries: Seq<Nbt>, from: int, p: Position) -> bool {
    forall|j: int, data: Fields|
        #![trigger holds_data(entries[j], data)]
        from <= j < entries.len() && names_cell(entries[j], p) ==> !holds_data(entries[j], data)
}

/// A block stands in a cell, and nothing else does; where it is air nothing does.
pub open spec fn cell_holds(
    blocks: Multiset<(Position, Seq<char>)>,
    states: Multiset<(Position, State)>,
    p: Position,
    block: State,
) -> bool {
    &&& forall|s: State| #[trigger]
        states.count((p, s)) == if s == block && block.0 != "minecraft:air"@ {
            1nat
        } else {
            0
        }
    &&& forall|n: Seq<char>| #[trigger]
        blocks.count((p, n)) == if n == block.0 && block.0 != "minecraft:air"@ {
            1nat
        } else {
            0
        }
}

/// Nothing stands in a cell.
pub open spec fn cell_is_empty(
    blocks: Multiset<(Position, Seq<char>)>,
    states: Multiset<(Position, State)>,
    p: Position,
) -> bool {
    &&& forall|s: State| #[trigger] states.count((p, s)) == 0
    &&& forall|n: Seq<char>| #[trigger] blocks.count((p, n)) == 0
}

/// A block entity has the id that its data gives, or else the name of its block.
pub open spec fn is_id_of(id: Seq<char>, data: Fields, block: Seq<char>) -> bool {
    &&& data.contains_key("id"@) ==> (match data["id"@] {
        Nbt::Text(text) => id == text,
        _ => id == block,
    })
    &&& !data.contains_key("id"@) && data.contains_key("Id"@) ==> (match data["Id"@] {
        Nbt::Text(text) => id == text,
        _ => id == block,
    })
    &&& !data.contains_key("id"@) && !data.contains_key("Id"@) ==> id == block
}

/// What a block list makes of one cell: the block that the palette gives to the last entry
/// that names the cell, or nothing.
pub open spec fn block_is_as_listed(
    blocks: Multiset<(Position, Seq<char>)>,
    states: Multiset<(Position, State)>,
    entries: Seq<Nbt>,
    texts: Seq<Seq<char>>,
    p: Position,
) -> bool {
    &&& forall|k: int, block: State|
        #![trigger gives_block(entries[k], texts, block)]
        0 <= k < entries.len() && names_cell(entries[k], p) && unnamed_from(entries, k + 1, p)
            && gives_block(entries[k], texts, block) ==> cell_holds(blocks, states, p, block)
    &&& unnamed_from(entries, 0, p) ==> cell_is_empty(blocks, states, p)
}

/// The block entity that a block list puts into one cell: the data of the last entry that
/// names the cell and has any.
pub open spec fn data_is_as_listed(
    data_at: Map<Position, (Seq<char>, Fields)>,
    entries: Seq<Nbt>,
    texts: Seq<Seq<char>>,
    p: Position,
) -> bool {
    &&& forall|k: int, data: Fields, block: State|
        #![trigger holds_data(entries[k], data), gives_block(entries[k], texts, block)]
        0 <= k < entries.len() && names_cell(entries[k], p) && holds_data(entries[k], data)
            && without_data_from(entries, k + 1, p) && gives_block(entries[k], texts, block)
            ==> data_at.contains_key(p) && data_at[p].1 == data && is_id_of(
            data_at[p].0,
            data,
            block.0,
        )
    &&& without_data_from(entries, 0, p) ==> !data_at.contains_key(p)
}

/// An entry of a block list is in order: it names a cell of the structure, and the palette
/// gives it a block.
pub open spec fn is_sound_entry(entry: Nbt, size: Position, texts: Seq<Seq<char>>) -> bool {
    &&& exists|p: Position| #[trigger]
        names_cell(entry, p) && 0 <= p.0 < size.0 && 0 <= p.1 < size.1 && 0 <= p.2 < size.2
    &&& exists|block: State| #[trigger] gives_block(entry, texts, block)
}

/// A tag reads as one triple at most, and as the one that is read from it.
proof fn lemma_triple_is_read(tag: Nbt, p: Position)
    ensures
        reads_as(tag, p) <==> whole_triple(tag) == Some(p),
{
}

/// What one entry does to one cell.
#[verifier::rlimit(60)]
proof fn lemma_entry_settles_cell(
    filling: Filling,
    entry: Nbt,
    size: Position,
    states: Seq<Seq<char>>,
    name: Seq<char>,
    p: Position,
)
    requires
        step(filling, entry, size, states, name) is Ok,
    ensures
        is_sound_entry(entry, size, states),
        ({
            let next = step(filling, entry, size, states, name)->Ok_0;
            &&& names_cell(entry, p) ==> forall|block: State| #[trigger]
                gives_block(entry, states, block) ==> cell_holds(
                    next.blocks,
                    next.states,
                    p,
                    block,
                )
            &&& !names_cell(entry, p) ==> (forall|s: State| #[trigger]
                next.states.count((p, s)) == filling.states.count((p, s))) && (forall|n: Seq<char>|
             #[trigger]
                next.blocks.count((p, n)) == filling.blocks.count((p, n)))
            &&& names_cell(entry, p) ==> forall|data: Fields, block: State|
                #![trigger holds_data(entry, data), gives_block(entry, states, block)]
                holds_data(entry, data) && gives_block(entry, states, block)
                    ==> next.block_entities.contains_key(p) && next.block_entities[p].1 == data
                    && is_id_of(next.block_entities[p].0, data, block.0)
            &&& !names_cell(entry, p) || (forall|data: Fields| !holds_data(entry, data))
                ==> next.block_entities.contains_key(p) == filling.block_entities.contains_key(p)
                && next.block_entities[p] == filling.block_entities[p]
        }),
{
    broadcast use vstd::multiset::group_multiset_axioms;

    let data = entry->Compound_0;
    let q = triple_field(data, "pos"@)->0;
    let index = state_index(data, states)->0;
    let given = parsed_block(states[index])->Ok_0;
    let next = step(filling, entry, size, states, name)->Ok_0;
    lemma_triple_is_read(data["pos"@], p);
    lemma_triple_is_read(data["pos"@], q);
    assert(names_cell(entry, q));
    assert(names_cell(entry, p) <==> p == q);
    assert(gives_block(entry, states, given));
    assert forall|block: State| #[trigger] gives_block(entry, states, block) implies block
        == given by {}
    assert forall|s: State| #[trigger] next.states.count((p, s)) == (if p == q {
        if s == given && given.0 != "minecraft:air"@ {
            1nat
        } else {
            0
        }
    } else {
        filling.states.count((p, s))
    }) by {}
    assert forall|n: Seq<char>| #[trigger] next.blocks.count((p, n)) == (if p == q {
        if n == given.0 && given.0 != "minecraft:air"@ {
            1nat
        } else {
            0
        }
    } else {
        filling.blocks.count((p, n))
    }) by {
        lemma_block_replaces(filling.blocks, q, given.0, (p, n));
    }
    if names_cell(entry, p) {
        assert(cell_holds(next.blocks, next.states, p, given));
    }
    if data.contains_key("nbt"@) && data["nbt"@] is Compound {
        assert(holds_data(entry, data["nbt"@]->Compound_0));
    }
}

/// Where the entries of a block list fill a structure, every one of them is in order, and
/// the block in each cell is as the last entry that names it says.
#[verifier::rlimit(60)]
proof fn lemma_filled_cell_is_as_listed(
    entries: Seq<Nbt>,
    size: Position,
    states: Seq<Seq<char>>,
    name: Seq<char>,
    p: Position,
)
    requires
        filled(entries, size, states, name) is Ok,
    ensures
        forall|k: int|
            0 <= k < entries.len() ==> is_sound_entry(#[trigger] entries[k], size, states),
        ({
            let filling = filled(entries, size, states, name)->Ok_0;
            block_is_as_listed(filling.blocks, filling.states, entries, states, p)
        }),
    decreases entries.len(),
{
    if entries.len() == 0 {
        broadcast use vstd::multiset::group_multiset_axioms;

    } else {
        let fewer = entries.drop_last();
        let last = entries.len() - 1;
        let entry = entries.last();
        let before = filled(fewer, size, states, name)->Ok_0;
        let after = filled(entries, size, states, name)->Ok_0;
        lemma_filled_cell_is_as_listed(fewer, size, states, name, p);
        lemma_entry_settles_cell(before, entry, size, states, name, p);
        assert forall|k: int| 0 <= k < entries.len() implies is_sound_entry(
            #[trigger] entries[k],
            size,
            states,
        ) by {
            if k < last {
                assert(is_sound_entry(fewer[k], size, states));
            }
        }
        assert forall|k: int, block: State|
            #![trigger gives_block(entries[k], states, block)]
            0 <= k < entries.len() && names_cell(entries[k], p) && unnamed_from(entries, k + 1, p)
                && gives_block(entries[k], states, block) implies cell_holds(
            after.blocks,
            after.states,
            p,
            block,
        ) by {
            if k < last {
                lemma_naming_goes_unchanged(entries, k + 1, p);
                assert(gives_block(fewer[k], states, block));
                assert(cell_holds(before.blocks, before.states, p, block));
            }
        }
        if unnamed_from(entries, 0, p) {
            lemma_naming_goes_unchanged(entries, 0, p);
        }
    }
}

/// Where the entries of a block list fill a structure, the block entity in each cell is as
/// the last entry with data that names it says.
#[verifier::rlimit(60)]
proof fn lemma_filled_data_is_as_listed(
    entries: Seq<Nbt>,
    size: Position,
    states: Seq<Seq<char>>,
    name: Seq<char>,
    p: Position,
)
    requires
        filled(entries, size, states, name) is Ok,
    ensures
        ({
            let filling = filled(entries, size, states, name)->Ok_0;
            data_is_as_listed(filling.block_entities, entries, states, p)
        }),
    decreases entries.len(),
{
    if entries.len() > 0 {
        let fewer = entries.drop_last();
        let last = entries.len() - 1;
        let before = filled(fewer, size, states, name)->Ok_0;
        let after = filled(entries, size, states, name)->Ok_0;
        lemma_filled_data_is_as_listed(fewer, size, states, name, p);
        lemma_entry_settles_cell(before, entries.last(), size, states, name, p);
        assert forall|k: int, data: Fields, block: State|
            #![trigger holds_data(entries[k], data), gives_block(entries[k], states, block)]
            0 <= k < entries.len() && names_cell(entries[k], p) && holds_data(entries[k], data)
                && without_data_from(entries, k + 1, p) && gives_block(
                entries[k],
                states,
                block,
            ) implies after.block_entities.contains_key(p) && after.block_entities[p].1 == data
            && is_id_of(after.block_entities[p].0, data, block.0) by {
            if k < last {
                lemma_data_goes_unchanged(entries, k + 1, p);
                assert(holds_data(fewer[k], data) && gives_block(fewer[k], states, block));
            }
        }
        if without_data_from(entries, 0, p) {
            lemma_data_goes_unchanged(entries, 0, p);
        }
    }
}

/// Where no entry from some number on names a cell, the last does not, nor does one of
/// those before it.
proof fn lemma_naming_goes_unchanged(entries: Seq<Nbt>, from: int, p: Position)
    requires
        0 <= from < entries.len(),
        unnamed_from(entries, from, p),
    ensures
        unnamed_from(entries.drop_last(), from, p),
        !names_cell(entries.last(), p),
{
    let fewer = entries.drop_last();
    assert forall|j: int| from <= j < fewer.len() implies !names_cell(#[trigger] fewer[j], p) by {
        assert(!names_cell(entries[j], p));
    }
    assert(!names_cell(entries[entries.len() - 1], p));
}

/// Where no entry from some number on has data for a cell, the last has none, nor has one
/// of those before it.
proof fn lemma_data_goes_unchanged(entries: Seq<Nbt>, from: int, p: Position)
    requires
        0 <= from < entries.len(),
        without_data_from(entries, from, p),
    ensures
        without_data_from(entries.drop_last(), from, p),
        !names_cell(entries.last(), p) || (forall|data: Fields|
            !holds_data(entries.last(), data)),
{
    let fewer = entries.drop_last();
    let last = entries.len() - 1;
    assert forall|j: int, data: Fields|
        #![trigger holds_data(fewer[j], data)]
        from <= j < fewer.len() && names_cell(fewer[j], p) implies !holds_data(
        fewer[j],
        data,
    ) by {
        assert(!holds_data(entries[j], data));
    }
    if names_cell(entries.last(), p) {
        assert forall|data: Fields| !holds_data(entries.last(), data) by {
            assert(!holds_data(entries[last], data));
        }
    }
}

/// An entry of a list of entities shows an entity: its data has an id, which is given with
/// its namespace, and the entity is where `pos` of the entry says, or `Pos` of the data
/// where the entry says nothing.
pub open spec fn shows_entity(entry: Nbt, one: (Seq<char>, Coordinates)) -> bool {
    let outer = entry->Compound_0;
    let data = outer["nbt"@]->Compound_0;
    &&& entry is Compound
    &&& outer.contains_key("nbt"@)
    &&& outer["nbt"@] is Compound
    &&& exists|id: Seq<char>|
        gives_id(data, id) && (one.0 == id && "minecraft:"@.is_prefix_of(id) || one.0
            == "minecraft:"@ + id && !"minecraft:"@.is_prefix_of(id))
    &&& if outer.contains_key("pos"@) && is_real_triple(outer["pos"@]) {
        stands_at(outer["pos"@], one.1)
    } else {
        data.contains_key("Pos"@) && stands_at(data["Pos"@], one.1) && (outer.contains_key("pos"@)
            ==> !is_real_triple(outer["pos"@])) && !has_single(data["Pos"@])
    }
}

/// The data of an entity gives an id.
pub open spec fn gives_id(data: Fields, id: Seq<char>) -> bool {
    ||| data.contains_key("id"@) && data["id"@] == Nbt::Text(id)
    ||| !(data.contains_key("id"@) && data["id"@] is Text) && data.contains_key("Id"@)
        && data["Id"@] == Nbt::Text(id)
}

/// A tag is a list of three numbers with a fraction.
pub open spec fn is_real_triple(tag: Nbt) -> bool {
    &&& tag is List
    &&& tag->List_0.len() == 3
    &&& forall|i: int|
        0 <= i < 3 ==> (#[trigger] tag->List_0[i]) is Float || tag->List_0[i] is Double
}

/// A list has a number of single precision in it.
pub open spec fn has_single(tag: Nbt) -> bool {
    exists|i: int| 0 <= i < tag->List_0.len() && (#[trigger] tag->List_0[i]) is Float
}

/// A tag is a list of three coordinates, in the order of the axes.
pub open spec fn stands_at(tag: Nbt, place: Coordinates) -> bool {
    &&& is_real_triple(tag)
    &&& doubled(tag->List_0[0]) == Nbt::Double(place.0)
    &&& doubled(tag->List_0[1]) == Nbt::Double(place.1)
    &&& doubled(tag->List_0[2]) == Nbt::Double(place.2)
}

/// What is seen of an entry is what the entry shows.
#[verifier::rlimit(60)]
proof fn lemma_sighting_is_shown(entry: Nbt, one: (Seq<char>, Coordinates))
    ensures
        sighting(entry) == Some(one) <==> shows_entity(entry, one),
{
    reveal_strlit("Pos");
    reveal_strlit("id");
    reveal_strlit("Id");
    let outer = entry->Compound_0;
    let inner = outer["nbt"@]->Compound_0;
    if entry is Compound && outer.contains_key("nbt"@) && outer["nbt"@] is Compound {
        assert("Pos"@ != "id"@ && "Pos"@ != "Id"@) by {
            assert("Pos"@.len() == 3 && "id"@.len() == 2 && "Id"@.len() == 2);
        }
        let moved = entity_data(entry);
        if moved is Some {
            let data = moved->0;
            let id = entity_id(data);
            assert(entity_id(data) == entity_id(inner));
            if id is Some {
                assert(gives_id(inner, id->0));
            }
            if outer.contains_key("pos"@) && is_real_triple(outer["pos"@]) {
                let list = outer["pos"@]->List_0;
                assert(list[0] is Float || list[0] is Double);
                assert(list[1] is Float || list[1] is Double);
                assert(list[2] is Float || list[2] is Double);
                let placed = real_triple(outer, "pos"@);
                assert(placed == Some(seq![doubled(list[0]), doubled(list[1]), doubled(list[2])]));
                assert(data["Pos"@] == Nbt::List(placed->0));
            } else {
                if real_triple(outer, "pos"@) is Some {
                    let list = outer["pos"@]->List_0;
                    assert(is_real_triple(outer["pos"@])) by {
                        assert forall|i: int| 0 <= i < 3 implies (#[trigger] list[i]) is Float
                            || list[i] is Double by {
                            assert(i == 0 || i == 1 || i == 2);
                        }
                    }
                }
                assert(data == inner);
                if entity_position(data) is Some {
                    let list = data["Pos"@]->List_0;
                    assert(is_real_triple(data["Pos"@]) && !has_single(data["Pos"@])) by {
                        assert forall|i: int| 0 <= i < 3 implies (#[trigger] list[i])
                            is Double by {
                            assert(i == 0 || i == 1 || i == 2);
                        }
                    }
                }
                if data.contains_key("Pos"@) && is_real_triple(data["Pos"@]) && !has_single(
                    data["Pos"@],
                ) {
                    let list = data["Pos"@]->List_0;
                    assert(!(list[0] is Float) && !(list[1] is Float) && !(list[2] is Float));
                    assert(list[0] is Double && list[1] is Double && list[2] is Double);
                }
            }
        }
    }
}

/// The entities seen in a list are those that its entries show, each as often as entries
/// show it.
proof fn lemma_sightings_are_shown(entries: Seq<Nbt>, one: (Seq<char>, Coordinates))
    ensures
        sightings(entries).to_multiset().count(one) == entries.filter(
            |entry: Nbt| shows_entity(entry, one),
        ).len(),
        sightings(entries).len() == entries.filter(
            |entry: Nbt|
                exists|any: (Seq<char>, Coordinates)| #[trigger] shows_entity(entry, any),
        ).len(),
    decreases entries.len(),
{
    broadcast use vstd::seq_lib::group_to_multiset_ensures;
    broadcast use vstd::multiset::group_multiset_axioms;

    reveal(Seq::filter);
    if entries.len() > 0 {
        let last = entries.last();
        lemma_sightings_are_shown(entries.drop_last(), one);
        lemma_sighting_is_shown(last, one);
        match sighting(last) {
            Some(seen) => {
                lemma_sighting_is_shown(last, seen);
                assert(shows_entity(last, seen));
                vstd::seq_lib::to_multiset_build(sightings(entries.drop_last()), seen);
            },
            None => {
                assert forall|any: (Seq<char>, Coordinates)| !(#[trigger] shows_entity(
                    last,
                    any,
                )) by {
                    lemma_sighting_is_shown(last, any);
                }
            },
        }
    }
}

/// The list of entities of a document, which is empty where it has none.
pub open spec fn entity_list(root: Fields) -> Seq<Nbt> {
    if root.contains_key("entities"@) && root["entities"@] is List {
        root["entities"@]->List_0
    } else {
        Seq::empty()
    }
}

/// A build is what a document lists, as far as one cell and one entity go.
pub open spec fn is_as_listed(
    loaded: Loaded,
    root: Fields,
    p: Position,
    one: (Seq<char>, Coordinates),
) -> bool {
    let build = loaded.schematic;
    let (_, size) = room(build)->0;
    let entries = root["blocks"@]->List_0;
    let texts = palette(root)->0;
    &&& root.contains_key("size"@) && reads_as(root["size"@], size)
    &&& room(build) == Some(((0int, 0int, 0int), size))
    &&& size.0 > 0 && size.1 > 0 && size.2 > 0 && size.0 * size.1 * size.2 <= 536870912
    &&& root.contains_key("blocks"@) && root["blocks"@] is List
    &&& entries.len() <= size.0 * size.1 * size.2
    &&& palette(root) is Some && spells_palette(texts, root)
    &&& forall|k: int|
        0 <= k < entries.len() ==> is_sound_entry(#[trigger] entries[k], size, texts)
    &&& block_is_as_listed(built(build), stated(build), entries, texts, p)
    &&& data_is_as_listed(block_entities(build), entries, texts, p)
    &&& entities(build).count(one) == entity_list(root).filter(
        |entry: Nbt| shows_entity(entry, one),
    ).len()
    &&& loaded.entities == entity_list(root).filter(
        |entry: Nbt| exists|any: (Seq<char>, Coordinates)| #[trigger] shows_entity(entry, any),
    ).len()
}

/// A build notes a name, and the data version of its document where that has one.
pub open spec fn notes_document(build: UniversalSchematic, root: Fields, name: Seq<char>) -> bool {
    let (title, version, source) = noted(build);
    &&& title == Some(name)
    &&& version == source
    &&& root.contains_key("DataVersion"@) ==> (match root["DataVersion"@] {
        Nbt::Int(v) => version == Some(v),
        _ => version is None,
    })
    &&& !root.contains_key("DataVersion"@) ==> version is None
}

#[verifier::rlimit(60)]
proof fn lemma_listing(
    r: Result<Loaded, Error>,
    root: Fields,
    name: Seq<char>,
    p: Position,
    one: (Seq<char>, Coordinates),
)
    requires
        tells_structure(r, root, name),
        r is Ok,
    ensures
        is_as_listed(r->Ok_0, root, p, one),
        notes_document(r->Ok_0.schematic, root, name),
        r->Ok_0.format@ == "nbt (structure)"@,
{
    let size = structure_size(root, name)->Ok_0;
    lemma_triple_is_read(root["size"@], size);
    let entries = root["blocks"@]->List_0;
    assert(failure(r) is None);
    assert(tells_filled(r, root, size, name));
    lemma_filled_cell_is_as_listed(entries, size, palette(root)->0, name, p);
    lemma_filled_data_is_as_listed(entries, size, palette(root)->0, name, p);
    lemma_sightings_are_shown(entity_list(root), one);
    assert(structure_entities(root) =~= sightings(entity_list(root)));
}

/// A structure that loads is what its document lists. Its size reads as three numbers above
/// zero that make up no more cells than the limit, and its room reaches from the origin over
/// that size. It has no more entries than cells, and every entry of its block list names a
/// cell of the room and has a block of the palette, whose texts spell the entries of the palette. In each cell stands the block of
/// the last entry that names it, and no other; a cell that no entry names is empty; and a
/// block entity stands where an entry with data names its cell, with the data and the id of
/// the last such entry. Each entity is there as often as the list of entities shows it. The
/// name and the data version are noted.
pub proof fn lemma_structure_is_what_it_lists(
    root: &NbtCompound,
    name: &str,
    r: Result<Loaded, Error>,
    p: Position,
    one: (Seq<char>, Coordinates),
)
    requires
        call_ensures(read_structure, (root, name), r),
        r is Ok,
    ensures
        is_as_listed(r->Ok_0, fields(*root), p, one),
        notes_document(r->Ok_0.schematic, fields(*root), name@),
        r->Ok_0.format@ == "nbt (structure)"@,
{
    lemma_listing(r, fields(*root), name@, p, one);
}

/// The same from the bytes of a file: a structure that loads is what the document in the
/// file lists, and the document is what the bytes hold, or what they expand to where they
/// are compressed.
pub proof fn lemma_file_is_what_it_lists(
    bytes: &[u8],
    name: &str,
    r: Result<Loaded, Error>,
    p: Position,
    one: (Seq<char>, Coordinates),
)
    requires
        call_ensures(load_structure_nbt, (bytes, name), r),
        r is Ok,
    ensures
        ({
            let raw = if bytes@.len() >= 2 && bytes@[0] == 31 && bytes@[1] == 139 {
                inflated(bytes@).0
            } else {
                bytes@
            };
            &&& decoded(raw) is Ok
            &&& raw == bytes@ || raw.len() <= 1073741824
            &&& is_as_listed(r->Ok_0, decoded(raw)->Ok_0, p, one)
            &&& notes_document(r->Ok_0.schematic, decoded(raw)->Ok_0, name@)
            &&& r->Ok_0.format@ == "nbt (structure)"@
        }),
{
    let raw = unpacked(bytes@, MAX_DECOMPRESSED_BYTES)->Ok_0;
    assert(failure(r) is None);
    lemma_listing(r, decoded(raw)->Ok_0, name@, p, one);
}

/// What `nucleation` reads from a file is what the file is taken for: the build and its
/// format are handed on as they are, with the number of its entities. Only a file that it
/// refuses is taken for a structure.
pub proof fn lemma_what_is_read_is_kept(
    outcome: Option<Result<(String, UniversalSchematic), String>>,
    bytes: &[u8],
    name: &str,
    r: Result<Loaded, Error>,
    p: Position,
    one: (Seq<char>, Coordinates),
)
    requires
        call_ensures(settle_reading, (outcome, bytes, name), r),
        r is Ok,
    ensures
        outcome is Some,
        match outcome->0 {
            Ok((format, build)) => {
                &&& r->Ok_0.schematic == build
                &&& r->Ok_0.format@ == format@
                &&& r->Ok_0.entities == entities(build).len()
            },
            Err(_) => {
                let raw = if bytes@.len() >= 2 && bytes@[0] == 31 && bytes@[1] == 139 {
                    inflated(bytes@).0
                } else {
                    bytes@
                };
                decoded(raw) is Ok && is_as_listed(r->Ok_0, decoded(raw)->Ok_0, p, one)
            },
        },
{
    assert(failure(r) is None);
    if outcome->0 is Err {
        let raw = unpacked(bytes@, MAX_DECOMPRESSED_BYTES)->Ok_0;
        lemma_listing(r, decoded(raw)->Ok_0, name@, p, one);
    }
}

/// A structure is refused for a reason only: where its size is sound, its palette is, it has
/// no more entries than cells and every entry is in order, it loads unless the memory for it
/// is refused.
pub proof fn lemma_sound_structure_loads(
    root: &NbtCompound,
    name: &str,
    r: Result<Loaded, Error>,
    size: Position,
)
    requires
        call_ensures(read_structure, (root, name), r),
        fields(*root).contains_key("size"@),
        reads_as(fields(*root)["size"@], size),
        size.0 > 0,
        size.1 > 0,
        size.2 > 0,
        size.0 * size.1 * size.2 <= 536870912,
        palette(fields(*root)) is Some,
        fields(*root).contains_key("blocks"@),
        fields(*root)["blocks"@] is List,
        fields(*root)["blocks"@]->List_0.len() <= size.0 * size.1 * size.2,
        forall|k: int|
            0 <= k < fields(*root)["blocks"@]->List_0.len() ==> is_sound_entry(
                #[trigger] fields(*root)["blocks"@]->List_0[k],
                size,
                palette(fields(*root))->0,
            ),
    ensures
        r is Err ==> exists|words: Seq<char>| #[trigger]
            may_refuse((0int, 0int, 0int), size, words) && r->Err_0.text() == name@ + ": "@
                + words,
{
    let data = fields(*root);
    lemma_triple_is_read(data["size"@], size);
    lemma_sound_entries_fill(data["blocks"@]->List_0, size, palette(data)->0, name@);
}

proof fn lemma_sound_entries_fill(
    entries: Seq<Nbt>,
    size: Position,
    states: Seq<Seq<char>>,
    name: Seq<char>,
)
    requires
        forall|k: int|
            0 <= k < entries.len() ==> is_sound_entry(#[trigger] entries[k], size, states),
    ensures
        filled(entries, size, states, name) is Ok,
    decreases entries.len(),
{
    if entries.len() > 0 {
        let fewer = entries.drop_last();
        assert forall|k: int| 0 <= k < fewer.len() implies is_sound_entry(
            #[trigger] fewer[k],
            size,
            states,
        ) by {
            assert(is_sound_entry(entries[k], size, states));
        }
        lemma_sound_entries_fill(fewer, size, states, name);
        let entry = entries[entries.len() - 1];
        assert(is_sound_entry(entry, size, states));
        let p = choose|p: Position| #[trigger]
            names_cell(entry, p) && 0 <= p.0 < size.0 && 0 <= p.1 < size.1 && 0 <= p.2 < size.2;
        lemma_triple_is_read(entry->Compound_0["pos"@], p);
        let block = choose|block: State| #[trigger] gives_block(entry, states, block);
        assert(gives_block(entry, states, block));
    }
}

/// A limit on the decompressed size refuses files and changes nothing else: what
/// is unpacked under one limit is unpacked alike without one.
pub proof fn lemma_limit_only_refuses(bytes: Seq<u8>, limit: u32)
    ensures
        unpacked(bytes, limit) is Ok ==> unpacked(bytes, limit) == unpacked(bytes, u32::MAX),
        !is_gzip(bytes) ==> unpacked(bytes, limit) == Ok::<Seq<u8>, Seq<char>>(bytes),
{
}

/// A file is unpacked exactly where it is not compressed, or is a whole gzip stream that
/// neither says nor turns out to be larger than the limit. What it says of its size stands in
/// its last four bytes, the least of them first. What comes out is what the stream expands
/// to, or the file itself.
#[verifier::rlimit(60)]
pub proof fn lemma_file_is_unpacked(bytes: &[u8], limit: u32, r: Result<Vec<u8>, Error>)
    requires
        call_ensures(maybe_gunzip, (bytes, limit), r),
    ensures
        ({
            let n = bytes@.len() as int;
            let compressed = n >= 2 && bytes@[0] == 31 && bytes@[1] == 139;
            let said = bytes@[n - 4] + 256 * (bytes@[n - 3] + 256 * (bytes@[n - 2] + 256 * bytes@[n
                - 1]));
            &&& !compressed ==> r is Ok && r->Ok_0@ == bytes@
            &&& compressed ==> (r is Ok <==> n >= 4 && inflated(bytes@).1 is None && (limit
                < u32::MAX ==> said <= limit && inflated(bytes@).0.len() <= limit))
            &&& compressed && r is Ok ==> r->Ok_0@ == inflated(bytes@).0
            &&& compressed && n >= 4 && limit < u32::MAX && said > limit ==> tells_number(
                r->Err_0.text(),
                (said / 1048576) as nat,
                " MiB, beyond the "@,
            ) && tells_number(r->Err_0.text(), (limit as int / 1048576) as nat, " MiB limit"@)
        }),
{
    let n = bytes@.len() as int;
    if n >= 4 {
        assert(declared_size(bytes@) == bytes@[n - 4] + 256 * (bytes@[n - 3] + 256 * (bytes@[n - 2]
            + 256 * bytes@[n - 1])));
    }
    assert(r is Ok <==> failure(r) is None);
    if is_gzip(bytes@) && n >= 4 && limit < u32::MAX && declared_size(bytes@) > limit {
        lemma_sizes_are_told(
            (declared_size(bytes@) / 1048576) as nat,
            (limit as int / 1048576) as nat,
        );
    }
}

proof fn lemma_sizes_are_told(said: nat, limit: nat)
    ensures
        ({
            let text = "compressed payload expands to "@ + decimal(said) + " MiB, beyond the "@
                + decimal(limit) + " MiB limit"@;
            tells_number(text, said, " MiB, beyond the "@) && tells_number(
                text,
                limit,
                " MiB limit"@,
            )
        }),
{
    let a = "compressed payload expands to "@;
    let b = a + decimal(said) + " MiB, beyond the "@;
    let tail = " MiB, beyond the "@ + (decimal(limit) + " MiB limit"@);
    assert(!is_digit(a.last())) by {
        reveal_strlit("compressed payload expands to ");
    }
    assert(!is_digit(b.last())) by {
        reveal_strlit(" MiB, beyond the ");
        assert(b.last() == " MiB, beyond the "@.last());
    }
    assert(" MiB, beyond the "@.subrange(0, " MiB, beyond the "@.len() as int)
        =~= " MiB, beyond the "@);
    assert(" MiB limit"@.subrange(0, " MiB limit"@.len() as int) =~= " MiB limit"@);
    lemma_prefix_goes_on(" MiB, beyond the "@, " MiB, beyond the "@, decimal(limit) + " MiB limit"@);
    lemma_number_goes_before(a, said, tail, " MiB, beyond the "@);
    lemma_number_goes_before(b, limit, " MiB limit"@, " MiB limit"@);
    assert(a + decimal(said) + tail =~= b + decimal(limit) + " MiB limit"@);
}

/// A triple is read where the tag under a name reads as one, and as that one.
pub proof fn lemma_triple_is_what_is_written(
    compound: &NbtCompound,
    key: &str,
    r: Option<[i32; 3]>,
    p: Position,
)
    requires
        call_ensures(triple, (compound, key), r),
    ensures
        r matches Some(v) ==> fields(*compound).contains_key(key@) && reads_as(
            fields(*compound)[key@],
            (v@[0] as int, v@[1] as int, v@[2] as int),
        ),
        r is None ==> !(fields(*compound).contains_key(key@) && reads_as(
            fields(*compound)[key@],
            p,
        )),
{
    if fields(*compound).contains_key(key@) {
        lemma_triple_is_read(fields(*compound)[key@], p);
        if r is Some {
            lemma_triple_is_read(fields(*compound)[key@], at(r->0));
        }
    }
}

/// A structure without a sound size is refused as none; one whose size makes up more cells
/// than the limit is refused in words that tell the size along the three axes in their order,
/// and the number of its cells.
#[verifier::rlimit(60)]
pub proof fn lemma_size_is_checked_first(
    root: &NbtCompound,
    name: &str,
    r: Result<Loaded, Error>,
    size: Position,
)
    requires
        call_ensures(read_structure, (root, name), r),
    ensures
        !fields(*root).contains_key("size"@) ==> r is Err && r->Err_0.text() == name@
            + " is not a Java structure"@,
        fields(*root).contains_key("size"@) && reads_as(fields(*root)["size"@], size) && (size.0
            <= 0 || size.1 <= 0 || size.2 <= 0) ==> r is Err && r->Err_0.text() == name@
            + " is not a Java structure"@,
        fields(*root).contains_key("size"@) && reads_as(fields(*root)["size"@], size) && size.0 > 0
            && size.1 > 0 && size.2 > 0 && size.0 * size.1 * size.2 > 536870912 ==> {
            &&& r is Err
            &&& tells_number(r->Err_0.text(), (size.0 * size.1 * size.2) as nat, " cells"@)
            &&& (name@ + " is "@ + signed_decimal(size.0) + "x"@ + signed_decimal(size.1) + "x"@
                + signed_decimal(size.2) + " ("@).is_prefix_of(r->Err_0.text())
        },
{
    let data = fields(*root);
    if data.contains_key("size"@) && reads_as(data["size"@], size) {
        lemma_triple_is_read(data["size"@], size);
        if size.0 > 0 && size.1 > 0 && size.2 > 0 && size.0 * size.1 * size.2 > 536870912 {
            let cells = (size.0 * size.1 * size.2) as nat;
            let head = name@ + " is "@ + dimensions_text(size) + " ("@;
            let tail = " cells), beyond the "@ + (decimal(MAX_VOLUME as nat) + "-cell limit"@);
            let text = r->Err_0.text();
            assert(failure(r) == Some(text));
            assert(volume(size) == cells);
            assert(!is_digit(head.last())) by {
                reveal_strlit(" (");
                assert(head.last() == " ("@.last());
            }
            assert(" cells"@.is_prefix_of(" cells), beyond the "@)) by {
                reveal_strlit(" cells");
                reveal_strlit(" cells), beyond the ");
            }
            lemma_prefix_goes_on(
                " cells"@,
                " cells), beyond the "@,
                decimal(MAX_VOLUME as nat) + "-cell limit"@,
            );
            lemma_number_goes_before(head, cells, tail, " cells"@);
            assert(text =~= head + decimal(cells) + tail);
            let start = name@ + " is "@ + signed_decimal(size.0) + "x"@ + signed_decimal(size.1)
                + "x"@ + signed_decimal(size.2) + " ("@;
            assert(start =~= head);
            assert((head + (decimal(cells) + tail)).subrange(0, head.len() as int) =~= head);
            assert(text =~= head + (decimal(cells) + tail));
        }
    }
}

/// A block outside the size of its structure is refused in words that tell where the block is
/// and how large the structure is, where all entries before it are in order.
#[verifier::rlimit(60)]
pub proof fn lemma_stray_block_is_named(
    root: &NbtCompound,
    name: &str,
    r: Result<Loaded, Error>,
    size: Position,
    k: int,
    p: Position,
)
    requires
        call_ensures(read_structure, (root, name), r),
        fields(*root).contains_key("size"@),
        reads_as(fields(*root)["size"@], size),
        size.0 > 0,
        size.1 > 0,
        size.2 > 0,
        size.0 * size.1 * size.2 <= 536870912,
        palette(fields(*root)) is Some,
        fields(*root).contains_key("blocks"@),
        fields(*root)["blocks"@] is List,
        fields(*root)["blocks"@]->List_0.len() <= size.0 * size.1 * size.2,
        0 <= k < fields(*root)["blocks"@]->List_0.len(),
        forall|j: int|
            0 <= j < k ==> is_sound_entry(
                #[trigger] fields(*root)["blocks"@]->List_0[j],
                size,
                palette(fields(*root))->0,
            ),
        names_cell(fields(*root)["blocks"@]->List_0[k], p),
        !(0 <= p.0 < size.0 && 0 <= p.1 < size.1 && 0 <= p.2 < size.2),
    ensures
        r is Err,
        r->Err_0.text() == name@ + " has a block at "@ + ("["@ + signed_decimal(p.0) + ", "@
            + signed_decimal(p.1) + ", "@ + signed_decimal(p.2) + "]"@) + ", outside its "@ + ("["@
            + signed_decimal(size.0) + ", "@ + signed_decimal(size.1) + ", "@ + signed_decimal(
            size.2,
        ) + "]"@) + " size"@ || exists|words: Seq<char>| #[trigger]
            may_refuse((0int, 0int, 0int), size, words) && r->Err_0.text() == name@ + ": "@
                + words,
{
    let data = fields(*root);
    let entries = data["blocks"@]->List_0;
    let states = palette(data)->0;
    lemma_triple_is_read(data["size"@], size);
    lemma_triple_is_read(entries[k]->Compound_0["pos"@], p);
    let start = entries.take(k);
    assert forall|j: int| 0 <= j < start.len() implies is_sound_entry(
        #[trigger] start[j],
        size,
        states,
    ) by {
        assert(is_sound_entry(entries[j], size, states));
    }
    lemma_sound_entries_fill(start, size, states, name@);
    let next = entries.take(k + 1);
    assert(next.drop_last() =~= start);
    assert(next.last() == entries[k]);
    assert(filled(next, size, states, name@) is Err);
    lemma_refusal_stands(entries, k + 1, size, states, name@);
    assert(failure(r) == Some(r->Err_0.text()) || r is Ok);
}

/// A file is taken for a binary structure exactly where the document in it, which its bytes
/// hold or expand to, has a list of blocks and a palette.
pub proof fn lemma_structure_is_known_by_its_fields(bytes: &[u8], r: bool)
    requires
        call_ensures(is_binary_structure, (bytes,), r),
    ensures
        ({
            let raw = if bytes@.len() >= 2 && bytes@[0] == 31 && bytes@[1] == 139 {
                inflated(bytes@).0
            } else {
                bytes@
            };
            &&& r ==> decoded(raw) is Ok && decoded(raw)->Ok_0.contains_key("blocks"@) && decoded(
                raw,
            )->Ok_0.contains_key("palette"@)
            &&& decoded(raw) is Ok && !r ==> !framed(raw) || bytes@ != raw && (bytes@.len() < 4
                || inflated(bytes@).1 is Some) || !decoded(raw)->Ok_0.contains_key("blocks"@)
                || !decoded(raw)->Ok_0.contains_key("palette"@)
        }),
{
}

/// A file that is loaded is what `nucleation` read from it, or the structure that the document
/// in it lists; and an empty file is not loaded.
pub proof fn lemma_loaded_file_is_read_or_listed(
    bytes: &[u8],
    name: &str,
    r: Result<Loaded, Error>,
    p: Position,
    one: (Seq<char>, Coordinates),
) -> (outcome: Option<Result<(String, UniversalSchematic), String>>)
    requires
        call_ensures(load_bytes, (bytes, name), r),
        r is Ok,
    ensures
        bytes@.len() > 0,
        may_come_to(bytes@, outcome),
        outcome is Some,
        match outcome->0 {
            Ok((format, build)) => {
                &&& r->Ok_0.schematic == build
                &&& r->Ok_0.format@ == format@
                &&& r->Ok_0.entities == entities(build).len()
            },
            Err(_) => {
                let raw = if bytes@.len() >= 2 && bytes@[0] == 31 && bytes@[1] == 139 {
                    inflated(bytes@).0
                } else {
                    bytes@
                };
                decoded(raw) is Ok && is_as_listed(r->Ok_0, decoded(raw)->Ok_0, p, one)
            },
        },
{
    assert(failure(r) is None);
    let outcome = choose|outcome: Option<Result<(String, UniversalSchematic), String>>|
        #[trigger] tells_reading(r, outcome, bytes@, name@) && may_come_to(bytes@, outcome);
    if outcome is Some && outcome->0 is Err {
        let raw = unpacked(bytes@, MAX_DECOMPRESSED_BYTES)->Ok_0;
        lemma_listing(r, decoded(raw)->Ok_0, name@, p, one);
    }
    outcome
}

/// A file that nobody can read is refused in words that say who refused it and why: those of
/// `nucleation`, behind the name of the file, where it is no structure; and those of the
/// decoder where it is one whose document cannot be read.
pub proof fn lemma_refusal_says_why(
    outcome: Option<Result<(String, UniversalSchematic), String>>,
    bytes: &[u8],
    name: &str,
    r: Result<Loaded, Error>,
    known: bool,
)
    requires
        call_ensures(settle_reading, (outcome, bytes, name), r),
        call_ensures(is_binary_structure, (bytes,), known),
    ensures
        outcome is None ==> r is Err && r->Err_0.text() == "the format manager is poisoned"@,
        outcome is Some && outcome->0 is Err && !known ==> r is Err && r->Err_0.text() == name@
            + " could not be read: "@ + outcome->0->Err_0@,
{
    assert(failure(r) is None <==> r is Ok);
}

/// A binary structure that cannot be unpacked or decoded is refused in the words of what
/// failed.
pub proof fn lemma_broken_structure_says_what_failed(
    bytes: &[u8],
    name: &str,
    r: Result<Loaded, Error>,
)
    requires
        call_ensures(load_structure_nbt, (bytes, name), r),
    ensures
        ({
            let compressed = bytes@.len() >= 2 && bytes@[0] == 31 && bytes@[1] == 139;
            &&& compressed && bytes@.len() < 4 ==> r is Err && r->Err_0.text()
                == "truncated gzip stream"@
            &&& !compressed && framed(bytes@) && decoded(bytes@) is Err ==> r is Err
                && r->Err_0.text() == name@ + " is not readable NBT: "@ + decoded(
                bytes@,
            )->Err_0
            &&& !compressed && !framed(bytes@) ==> r is Err && (name@
                + " is not readable NBT: "@).is_prefix_of(r->Err_0.text())
        }),
{
    assert(failure(r) is None <==> r is Ok);
    if !is_gzip(bytes@) && !framed(bytes@) {
        let start = name@ + " is not readable NBT: "@;
        assert((start + unframed()).subrange(0, start.len() as int) =~= start);
    }
}

/// What `nucleation` reads from a file is taken exactly where all of it can be walked; what
/// reaches the end of the range is refused, in words that name the file.
pub proof fn lemma_walkable_build_is_taken(
    format: String,
    build: UniversalSchematic,
    bytes: &[u8],
    name: &str,
    r: Result<Loaded, Error>,
)
    requires
        call_ensures(
            settle_reading,
            (Some(Ok::<(String, UniversalSchematic), String>((format, build))), bytes, name),
            r,
        ),
    ensures
        r is Ok <==> walkable(build),
        r matches Err(error) ==> error.text() == name@
            + " reaches the end of the coordinate range"@,
{
    assert(failure(r) is None <==> r is Ok);
}

} // verus!
