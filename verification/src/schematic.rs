//! Builds, as `nucleation` holds them.
//!
//! A build is opaque here. What the rest of the crate knows of one are the
//! blocks in it, with and without their properties, its block entities and
//! entities, and, while it is being filled, the room it was made with.

use vstd::prelude::*;
use vstd::multiset::Multiset;
use nucleation::diff::{diff, DiffSpec};
use nucleation::fingerprint::FingerprintSpec;
use nucleation::{BlockState, Entity, UniversalSchematic};
use quartz_nbt::NbtCompound;
use crate::changes::{at, pairs, Block, Change, Changes, Position, Replacement, State};
use crate::format::is_digestible;
use crate::nbt::{fields, is_exact, Fields, Nbt};
use crate::single::{fraction_bits, single};
use crate::text::{joined, same};

verus! {

#[verifier::external_type_specification]
#[verifier::external_body]
pub struct ExUniversalSchematic(nucleation::UniversalSchematic);

#[verifier::external_type_specification]
#[verifier::external_body]
pub struct ExBlockState(nucleation::BlockState);

#[verifier::external_type_specification]
#[verifier::external_body]
pub struct ExEntity(nucleation::Entity);

/// The bits of an entity's coordinates; none for one that is not a number.
pub type Coordinates = (Option<u64>, Option<u64>, Option<u64>);

/// The blocks of a build: every cell that is not called `minecraft:air`, with
/// the name of its block. Two regions of a build may share a position.
pub uninterp spec fn built(build: UniversalSchematic) -> Multiset<(Position, Seq<char>)>;

/// The same blocks, each with its properties.
pub uninterp spec fn stated(build: UniversalSchematic) -> Multiset<(Position, State)>;

/// The block entities of a build's first region: the id and the data at each
/// position.
pub uninterp spec fn block_entities(build: UniversalSchematic) -> Map<
    Position,
    (Seq<char>, Map<Seq<char>, Nbt>),
>;

/// The entities of a build: the id of each, and the bits of its coordinates.
pub uninterp spec fn entities(build: UniversalSchematic) -> Multiset<
    (Seq<char>, Coordinates),
>;

/// The one region that a build was made with: its lowest corner and its size.
pub uninterp spec fn room(build: UniversalSchematic) -> Option<(Position, Position)>;

/// The content of a build's regions: the lowest and the highest corner of what stands
/// in each of them, for those that hold anything.
pub uninterp spec fn spans(build: UniversalSchematic) -> Set<(Position, Position)>;

/// What is noted in a build: its name, the data version of the game it is for, and
/// that of the file it came from.
pub uninterp spec fn noted(build: UniversalSchematic) -> (
    Option<Seq<char>>,
    Option<i32>,
    Option<i32>,
);

/// The width, height and length of the content of a build's first region.
pub uninterp spec fn extent(build: UniversalSchematic) -> (int, int, int);

/// The number of regions of a build.
pub uninterp spec fn region_total(build: UniversalSchematic) -> nat;

/// The name and the properties of a block.
pub uninterp spec fn state_of(block: BlockState) -> State;

/// The name of a block.
pub open spec fn called(block: BlockState) -> Seq<char> {
    state_of(block).0
}

/// An entity's id and the bits of its coordinates.
pub uninterp spec fn sighted(entity: Entity) -> (Seq<char>, Coordinates);

/// The block that a block's text stands for, or the words in which the text is
/// refused.
pub uninterp spec fn parsed_block(text: Seq<char>) -> Result<State, Seq<char>>;

/// The colour of a block in the baked table, red, green and blue, where it has
/// one.
pub uninterp spec fn baked(name: Seq<char>) -> Option<(u8, u8, u8)>;

/// One cell of a build.
#[derive(Clone, Copy)]
pub struct Cell<'a> {
    pub x: i32,
    pub y: i32,
    pub z: i32,
    pub name: &'a str,
}

impl<'a> Cell<'a> {
    pub open spec fn position(self) -> Position {
        (self.x as int, self.y as int, self.z as int)
    }

    pub open spec fn occupant(self) -> (Position, Seq<char>) {
        (self.position(), self.name@)
    }
}

/// A cell is not the plain air that fills a region.
pub open spec fn occupied(name: Seq<char>) -> bool {
    name != "minecraft:air"@
}

/// What some cells hold.
pub open spec fn occupants(cells: Seq<Cell<'_>>) -> Seq<(Position, Seq<char>)> {
    Seq::new(cells.len(), |i: int| cells[i].occupant())
}

/// Those of some occupants that are blocks.
pub open spec fn blocks_among(occupants: Seq<(Position, Seq<char>)>) -> Multiset<
    (Position, Seq<char>),
> {
    occupants.filter(|o: (Position, Seq<char>)| occupied(o.1)).to_multiset()
}

/// The content of a region can be walked and measured: no block is at the last of the
/// first coordinates, behind which there is none to step on to, and the number of
/// cells along each axis can be written down.
pub open spec fn is_walkable_span(span: (Position, Position)) -> bool {
    &&& span.1.0 < i32::MAX
    &&& span.1.0 - span.0.0 < i32::MAX
    &&& span.1.1 - span.0.1 < i32::MAX
    &&& span.1.2 - span.0.2 < i32::MAX
}

/// All of a build can be walked and measured.
pub open spec fn walkable(build: UniversalSchematic) -> bool {
    forall|span: (Position, Position)| #[trigger]
        spans(build).contains(span) ==> is_walkable_span(span)
}

/// The corners of the content of each region, by `Region::get_tight_bounds`, none for
/// a region that holds nothing. The order is left open, since the regions behind the
/// first one come in none.
#[verifier::external_body]
fn content_spans(build: &UniversalSchematic) -> (r: Vec<Option<[[i32; 3]; 2]>>)
    ensures
        forall|span: (Position, Position)| #[trigger]
            spans(*build).contains(span) <==> exists|i: int|
                0 <= i < r@.len() && is_span(#[trigger] r@[i], span),
{
    let corner = |(x, y, z): (i32, i32, i32)| [x, y, z];
    std::iter::once(&build.default_region)
        .chain(build.other_regions.values())
        .map(|region| region.get_tight_bounds().map(|b| [corner(b.min), corner(b.max)]))
        .collect()
}

/// The corners of a region's content, as they are told.
pub open spec fn is_span(told: Option<[[i32; 3]; 2]>, span: (Position, Position)) -> bool {
    told is Some && (at(told->0@[0]), at(told->0@[1])) == span
}

/// Whether all of a build can be walked and measured.
pub fn is_walkable(build: &UniversalSchematic) -> (r: bool)
    ensures
        r == walkable(*build),
{
    let told = content_spans(build);
    let most: i64 = i32::MAX as i64;
    let mut i: usize = 0;
    while i < told.len()
        invariant
            i <= told.len(),
            most == i32::MAX,
            forall|span: (Position, Position)| #[trigger]
                spans(*build).contains(span) <==> exists|k: int|
                    0 <= k < told@.len() && is_span(#[trigger] told@[k], span),
            forall|k: int, span: (Position, Position)|
                0 <= k < i && #[trigger] is_span(told@[k], span) ==> is_walkable_span(span),
        decreases told.len() - i,
    {
        match told[i] {
            Some(corners) => {
                let low = corners[0];
                let high = corners[1];
                let ghost span = (at(low), at(high));
                assert(is_span(told@[i as int], span));
                if high[0] == i32::MAX || high[0] as i64 - low[0] as i64 >= most || high[1] as i64
                    - low[1] as i64 >= most || high[2] as i64 - low[2] as i64 >= most {
                    assert(spans(*build).contains(span));
                    return false;
                }
            },
            None => {},
        }
        i = i + 1;
    }
    true
}

/// The cells of a build, by `UniversalSchematic::iter_blocks`. Among them are
/// all its blocks and no others; there may be plain air too, and the order is
/// left open, since the regions behind the first one come in none.
#[verifier::external_body]
pub(crate) fn cells<'a>(build: &'a UniversalSchematic) -> (r: Vec<Cell<'a>>)
    requires
        walkable(*build),
    ensures
        blocks_among(occupants(r@)) == built(*build),
{
    build
        .iter_blocks()
        .map(|(p, block)| Cell { x: p.x, y: p.y, z: p.z, name: block.get_name() })
        .collect()
}

/// The size of the content, by `UniversalSchematic::get_tight_dimensions`: a
/// plain property of the build.
#[verifier::external_body]
pub(crate) fn tight_dimensions(build: &UniversalSchematic) -> (r: (i32, i32, i32))
    requires
        walkable(*build),
    ensures
        extent(*build) == (r.0 as int, r.1 as int, r.2 as int),
{
    build.get_tight_dimensions()
}

/// How many regions there are, by `UniversalSchematic::get_region_names`. There
/// is always a first one.
#[verifier::external_body]
pub(crate) fn region_count(build: &UniversalSchematic) -> (r: usize)
    ensures
        r == region_total(*build),
        r >= 1,
{
    build.get_region_names().len()
}

/// How many entities there are, by `UniversalSchematic::get_entities_as_list`.
#[verifier::external_body]
pub(crate) fn entity_count(build: &UniversalSchematic) -> (r: usize)
    ensures
        r == entities(*build).len(),
{
    build.get_entities_as_list().len()
}

/// The last coordinate of a stretch of cells.
pub open spec fn last_of(corner: int, size: int) -> int {
    corner + size - 1
}

/// The room for a region with that lowest corner and that size may be refused in these
/// words.
pub uninterp spec fn may_refuse(corner: Position, size: Position, words: Seq<char>) -> bool;

/// A build with nothing in it and one region with the given lowest corner and
/// size, by `UniversalSchematic::new` and `Region::try_new`, with its name and
/// data version noted. It is refused where the memory for it cannot be had, which
/// is up to the machine, in words that may be given to a region of that corner and size.
#[verifier::external_body]
pub(crate) fn new_build(
    name: &str,
    version: Option<i32>,
    corner: [i32; 3],
    size: [i32; 3],
) -> (r: Result<UniversalSchematic, String>)
    requires
        size@[0] > 0,
        size@[1] > 0,
        size@[2] > 0,
        last_of(corner@[0] as int, size@[0] as int) < i32::MAX,
        last_of(corner@[1] as int, size@[1] as int) <= i32::MAX,
        last_of(corner@[2] as int, size@[2] as int) <= i32::MAX,
        size@[0] * size@[1] * size@[2] <= i64::MAX,
    ensures
        r matches Ok(build) ==> is_empty_room(build, (at(corner), at(size))) && noted(build) == (
            Some(name@),
            version,
            version,
        ),
        r matches Err(words) ==> may_refuse(at(corner), at(size), words@),
{
    let mut build = UniversalSchematic::new(name.to_string());
    build.metadata.name = Some(name.to_string());
    build.metadata.mc_version = version;
    build.metadata.source_data_version = version;
    let title = build.default_region_name.clone();
    let ([x, y, z], [width, height, length]) = (corner, size);
    build.default_region = nucleation::Region::try_new(title, (x, y, z), (width, height, length))?;
    Ok(build)
}

/// A build has the given room and nothing in it.
pub open spec fn is_empty_room(build: UniversalSchematic, region: (Position, Position)) -> bool {
    &&& room(build) == Some(region)
    &&& region_total(build) == 1
    &&& spans(build) == Set::<(Position, Position)>::empty()
    &&& built(build) == Multiset::<(Position, Seq<char>)>::empty()
    &&& stated(build) == Multiset::<(Position, State)>::empty()
    &&& block_entities(build) == Map::<Position, (Seq<char>, Fields)>::empty()
    &&& entities(build) == Multiset::<(Seq<char>, Coordinates)>::empty()
}

/// A character that a block's name is made of: printable ASCII, but for the
/// bracket that opens the properties.
pub open spec fn is_name_char(c: char) -> bool {
    '!' <= c <= '~' && c != '['
}

/// A text that is a block's name alone.
pub open spec fn is_plain_name(text: Seq<char>) -> bool {
    text.len() > 0 && forall|i: int| 0 <= i < text.len() ==> is_name_char(#[trigger] text[i])
}

/// The text of a property.
pub open spec fn assigned(property: (Seq<char>, Seq<char>)) -> Seq<char> {
    property.0 + "="@ + property.1
}

/// The text of a block: its name, with the properties in square brackets where it
/// has any.
pub open spec fn spelled(state: State) -> Seq<char> {
    if state.1.len() == 0 {
        state.0
    } else {
        state.0 + "["@ + joined(
            Seq::new(state.1.len(), |i: int| assigned(state.1[i])),
            ","@,
        ) + "]"@
    }
}

/// A block whose text can be read back: its name is a plain one, and nothing in its
/// properties is taken for what sets them apart.
pub open spec fn is_readable(state: State) -> bool {
    &&& is_plain_name(state.0)
    &&& forall|i: int|
        0 <= i < state.1.len() ==> !(#[trigger] state.1[i]).0.contains('=')
            && !state.1[i].0.contains(',') && !state.1[i].1.contains(',')
}

/// A block of the given name with the given properties, as a `BlockState` with these
/// fields.
#[verifier::external_body]
pub(crate) fn make_block(name: &str, properties: &Vec<(String, String)>) -> (r: BlockState)
    ensures
        state_of(r) == (name@, pairs(properties@)),
{
    let properties = properties.iter().map(|(key, value)| (key.into(), value.into())).collect();
    BlockState { name: name.into(), properties }
}

/// What a block is, from the fields of its `BlockState`.
#[verifier::external_body]
fn told_block(block: BlockState) -> (r: Block)
    ensures
        r.state() == state_of(block),
{
    let pairs = block.properties.into_iter().map(|(key, value)| (key.into(), value.into()));
    Block { name: block.name.into(), properties: pairs.collect() }
}

/// Reads a block's text, `name` or `name[key=value,..]`, by
/// `BlockState::from_block_string`. The outcome goes by the text alone. The text of
/// a block that can be read back is read as that block; where any other text with
/// properties behind a plain name is read, the block has that name.
#[verifier::external_body]
pub(crate) fn read_block(text: &str) -> (r: Result<BlockState, String>)
    ensures
        match r {
            Ok(block) => parsed_block(text@) == Ok::<State, Seq<char>>(state_of(block)),
            Err(words) => parsed_block(text@) == Err::<State, Seq<char>>(words@),
        },
        forall|state: State|
            is_readable(state) && #[trigger] spelled(state) == text@ ==> r is Ok && state_of(
                r->Ok_0,
            ) == state,
        forall|n: int|
            0 < n < text@.len() && is_plain_name(#[trigger] text@.take(n)) && text@[n] == '['
                && r is Ok ==> called(r->Ok_0) == text@.take(n),
{
    BlockState::from_block_string(text)
}

/// The name of a block, by `BlockState::get_name`.
#[verifier::external_body]
pub(crate) fn block_name<'a>(block: &'a BlockState) -> (r: &'a str)
    ensures
        r@ == called(*block),
{
    block.get_name()
}

/// A position, counted from the corner of a room, lies in it.
pub open spec fn in_room(size: Position, position: Position) -> bool {
    &&& 0 <= position.0 < size.0
    &&& 0 <= position.1 < size.1
    &&& 0 <= position.2 < size.2
}

/// A position lies in a region that is given by its lowest corner and its size.
pub open spec fn in_region(region: (Position, Position), position: Position) -> bool {
    in_room(region.1, back(position, region.0))
}

/// The blocks of a build once one was put into a cell.
pub open spec fn replaced(
    blocks: Multiset<(Position, Seq<char>)>,
    position: Position,
    name: Seq<char>,
) -> Multiset<(Position, Seq<char>)> {
    let others = blocks.filter(|o: (Position, Seq<char>)| o.0 != position);
    if occupied(name) {
        others.insert((position, name))
    } else {
        others
    }
}

/// The same with properties.
pub open spec fn restated(
    blocks: Multiset<(Position, State)>,
    position: Position,
    state: State,
) -> Multiset<(Position, State)> {
    let others = blocks.filter(|o: (Position, State)| o.0 != position);
    if occupied(state.0) {
        others.insert((position, state))
    } else {
        others
    }
}

/// The content of a build lies in the room it was made with.
pub open spec fn keeps_to_room(build: UniversalSchematic) -> bool {
    forall|span: (Position, Position)| #[trigger]
        spans(build).contains(span) ==> in_region(room(build)->0, span.0) && in_region(
            room(build)->0,
            span.1,
        )
}

/// Puts a block into a cell of the room a build was made with, by
/// `UniversalSchematic::set_block`. What was in the cell is gone; everything
/// else stays.
#[verifier::external_body]
pub(crate) fn place(build: &mut UniversalSchematic, position: [i32; 3], block: &BlockState)
    requires
        room(*old(build)) is Some,
        in_region(room(*old(build))->0, at(position)),
    ensures
        built(*final(build)) == replaced(built(*old(build)), at(position), called(*block)),
        stated(*final(build)) == restated(stated(*old(build)), at(position), state_of(*block)),
        keeps_to_room(*final(build)),
        block_entities(*final(build)) == block_entities(*old(build)),
        entities(*final(build)) == entities(*old(build)),
        room(*final(build)) == room(*old(build)),
        noted(*final(build)) == noted(*old(build)),
        region_total(*final(build)) == region_total(*old(build)),
{
    build.set_block(position[0], position[1], position[2], block);
}

/// Puts a block entity at a position, by `UniversalSchematic::set_block_entity`
/// with a `BlockEntity` that has the given id and data. One that was there is
/// replaced; everything else stays.
#[verifier::external_body]
pub(crate) fn attach(
    build: &mut UniversalSchematic,
    position: [i32; 3],
    id: &str,
    data: &NbtCompound,
)
    ensures
        block_entities(*final(build)) == block_entities(*old(build)).insert(
            at(position),
            (id@, fields(*data)),
        ),
        built(*final(build)) == built(*old(build)),
        stated(*final(build)) == stated(*old(build)),
        spans(*final(build)) == spans(*old(build)),
        entities(*final(build)) == entities(*old(build)),
        room(*final(build)) == room(*old(build)),
        noted(*final(build)) == noted(*old(build)),
        region_total(*final(build)) == region_total(*old(build)),
{
    let [x, y, z] = position;
    let mut entity = nucleation::block_entity::BlockEntity::new(id.to_string(), (x, y, z));
    entity.set_nbt(nucleation::nbt::NbtMap::from_quartz_nbt(data));
    build.set_block_entity(nucleation::block_position::BlockPosition { x, y, z }, entity);
}

/// The text under a name, if it is text.
pub open spec fn text_field(data: Fields, name: Seq<char>) -> Option<Seq<char>> {
    if data.contains_key(name) && data[name] is Text {
        Some(data[name]->Text_0)
    } else {
        None
    }
}

/// The id that an entity's data gives it, in either spelling of the field.
pub open spec fn entity_id(data: Fields) -> Option<Seq<char>> {
    match text_field(data, "id"@) {
        Some(id) => Some(id),
        None => text_field(data, "Id"@),
    }
}

/// The coordinates that an entity's data gives it: a list of three double
/// precision numbers.
pub open spec fn entity_position(data: Fields) -> Option<Coordinates> {
    if data.contains_key("Pos"@) && data["Pos"@] is List {
        let list = data["Pos"@]->List_0;
        if list.len() == 3 && list[0] is Double && list[1] is Double && list[2] is Double {
            Some((list[0]->Double_0, list[1]->Double_0, list[2]->Double_0))
        } else {
            None
        }
    } else {
        None
    }
}

/// An id with its namespace.
pub open spec fn namespaced(id: Seq<char>) -> Seq<char> {
    if "minecraft:"@.is_prefix_of(id) {
        id
    } else {
        "minecraft:"@ + id
    }
}

/// What an entity's data says of it, where it says enough.
pub open spec fn described(data: Fields) -> Option<(Seq<char>, Coordinates)> {
    match (entity_id(data), entity_position(data)) {
        (Some(id), Some(position)) => Some((namespaced(id), position)),
        _ => None,
    }
}

/// Reads an entity from its data, by `Entity::from_nbt`. That succeeds exactly
/// where the data gives an id and three coordinates, and they become the
/// entity's. Of the rest of the data nothing is stated.
#[verifier::external_body]
pub(crate) fn read_entity(data: &NbtCompound) -> (r: Option<Entity>)
    ensures
        match r {
            Some(entity) => described(fields(*data)) == Some(sighted(entity)),
            None => described(fields(*data)) is None,
        },
{
    Entity::from_nbt(data).ok()
}

/// Adds an entity to a build, by `UniversalSchematic::add_entity`; everything
/// else stays.
#[verifier::external_body]
pub(crate) fn add_entity(build: &mut UniversalSchematic, entity: Entity)
    ensures
        entities(*final(build)) == entities(*old(build)).insert(sighted(entity)),
        built(*final(build)) == built(*old(build)),
        stated(*final(build)) == stated(*old(build)),
        spans(*final(build)) == spans(*old(build)),
        block_entities(*final(build)) == block_entities(*old(build)),
        room(*final(build)) == room(*old(build)),
        noted(*final(build)) == noted(*old(build)),
        region_total(*final(build)) == region_total(*old(build)),
{
    build.add_entity(entity);
}

/// What a build holds: its blocks, by name and with their properties, its block entities
/// and its entities; what its regions span, how large the first one's content is and how
/// many there are; and what is noted in it.
pub type Contents = (
    (Multiset<(Position, Seq<char>)>, Multiset<(Position, State)>),
    (Map<Position, (Seq<char>, Map<Seq<char>, Nbt>)>, Multiset<(Seq<char>, Coordinates)>),
    (Set<(Position, Position)>, (int, int, int), nat),
    (Option<Seq<char>>, Option<i32>, Option<i32>),
);

/// What a build holds.
pub open spec fn contents_of(build: UniversalSchematic) -> Contents {
    (
        (built(build), stated(build)),
        (block_entities(build), entities(build)),
        (spans(build), extent(build), region_total(build)),
        noted(build),
    )
}

/// What `nucleation` says of a file: the name of the format that it was read as and what
/// the build holds, or the words of the refusal, or nothing.
pub open spec fn answer_of(
    outcome: Option<Result<(String, UniversalSchematic), String>>,
) -> Option<Result<(Seq<char>, Contents), Seq<char>>> {
    match outcome {
        None => None,
        Some(Ok((format, build))) => Some(Ok((format@, contents_of(build)))),
        Some(Err(words)) => Some(Err(words@)),
    }
}

/// `nucleation` may say that of a file that it is given with a budget of so many bytes.
pub uninterp spec fn may_answer(
    bytes: Seq<u8>,
    limit: nat,
    answer: Option<Result<(Seq<char>, Contents), Seq<char>>>,
) -> bool;

/// Reads a build in any format that `nucleation` knows, by `get_manager` and
/// `FormatManager::read_bounded_with_format` with a budget of `limit` bytes of
/// input: the format's name and the build, or the words of the refusal; nothing
/// where the manager's lock is poisoned. The manager is shared by the whole process,
/// and its answer goes by the importers that are registered with it and by the memory
/// that they are granted, so what a given file is read as is left open but for the
/// budget: the answer, what the build holds included, is one of those that may be given
/// to these bytes. The importers
/// add up positions, trust the sizes of regions and follow brackets without end, so the
/// file has to be digestible.
#[verifier::external_body]
pub(crate) fn read_any(bytes: &[u8], limit: usize) -> (r: Option<
    Result<(String, UniversalSchematic), String>,
>)
    requires
        is_digestible(bytes@),
    ensures
        may_answer(bytes@, limit as nat, answer_of(r)),
        bytes@.len() > limit ==> !(r matches Some(Ok(_))),
{
    let mut limits = nucleation::formats::limits::DecodeLimits::default();
    limits.max_input_bytes = limit;
    let manager = nucleation::formats::manager::get_manager();
    let guard = manager.lock().ok()?;
    Some(guard.read_bounded_with_format(bytes, &limits).map_err(|error| error.to_string()))
}

/// The baked colour of a block, from `nucleation::blockpedia::BLOCKS`, which is
/// the same in every run.
#[verifier::external_body]
pub(crate) fn baked_color(name: &str) -> (r: Option<[u8; 3]>)
    ensures
        match r {
            Some(color) => baked(name@) == Some((color@[0], color@[1], color@[2])),
            None => baked(name@) is None,
        },
{
    let facts = nucleation::blockpedia::BLOCKS.get(name)?;
    facts.extras.color.as_ref().map(|color| color.rgb)
}

/// How far apart the blocks of one build may be along an axis for it to be compared.
pub const SPREAD: i32 = 0x1000_0000;

/// How far a block may be from the origin, and from those of the other build, for two
/// builds to be compared. One build may then be moved onto the other and past it, and
/// every position can still be written down.
pub const REACH: i32 = 1_342_176_279;

/// Two positions are no further apart than that along any axis.
pub open spec fn within_of(a: Position, b: Position, most: int) -> bool {
    &&& -most <= a.0 - b.0 <= most
    &&& -most <= a.1 - b.1 <= most
    &&& -most <= a.2 - b.2 <= most
}

/// A block counts in a comparison: it is none of the game's kinds of air.
pub open spec fn compared(name: Seq<char>) -> bool {
    name != "minecraft:air"@ && name != "minecraft:cave_air"@ && name != "minecraft:void_air"@
}

/// Two builds can be laid over each other without a position running out of range.
pub open spec fn comparable(
    before: Multiset<(Position, Seq<char>)>,
    after: Multiset<(Position, Seq<char>)>,
) -> bool {
    &&& forall|a: Position, b: Position| #[trigger]
        filled(before, a) && #[trigger] filled(before, b) ==> within_of(a, b, SPREAD as int)
    &&& forall|a: Position, b: Position| #[trigger]
        filled(after, a) && #[trigger] filled(after, b) ==> within_of(a, b, SPREAD as int)
    &&& forall|a: Position, b: Position| #[trigger]
        filled(before, a) && #[trigger] filled(after, b) ==> within_of(a, b, REACH as int)
    &&& forall|b: Position| #[trigger]
        filled(after, b) ==> within_of(b, (0int, 0int, 0int), REACH as int)
}

/// A block of that name stands at a position.
pub open spec fn stands(
    blocks: Multiset<(Position, Seq<char>)>,
    position: Position,
    name: Seq<char>,
) -> bool {
    compared(name) && blocks.count((position, name)) > 0
}

/// Some block stands at a position.
pub open spec fn filled(blocks: Multiset<(Position, Seq<char>)>, position: Position) -> bool {
    exists|name: Seq<char>| #[trigger] stands(blocks, position, name)
}

/// A position taken back by an offset.
pub open spec fn back(position: Position, offset: Position) -> Position {
    (position.0 - offset.0, position.1 - offset.1, position.2 - offset.2)
}

/// Positions in order: by the first coordinate, then the second, then the
/// third.
pub open spec fn position_before(a: Position, b: Position) -> bool {
    a.0 < b.0 || (a.0 == b.0 && (a.1 < b.1 || (a.1 == b.1 && a.2 < b.2)))
}

/// Cells in order of position, none twice.
pub open spec fn in_order(list: Seq<Change>) -> bool {
    forall|i: int, j: int|
        0 <= i < j < list.len() ==> position_before(
            at((#[trigger] list[i]).position),
            at((#[trigger] list[j]).position),
        )
}

/// Replacements in order of position, none twice.
pub open spec fn replaced_in_order(list: Seq<Replacement>) -> bool {
    forall|i: int, j: int|
        0 <= i < j < list.len() ==> position_before(
            at((#[trigger] list[i]).position),
            at((#[trigger] list[j]).position),
        )
}

/// A list has a cell at a position.
pub open spec fn lists(list: Seq<Change>, position: Position) -> bool {
    exists|i: int| 0 <= i < list.len() && at((#[trigger] list[i]).position) == position
}

/// A list has a replacement at a position.
pub open spec fn lists_replaced(list: Seq<Replacement>, position: Position) -> bool {
    exists|i: int| 0 <= i < list.len() && at((#[trigger] list[i]).position) == position
}

/// The added cells are those that only the build after the change fills.
pub open spec fn tells_added(
    list: Seq<Change>,
    before: Multiset<(Position, Seq<char>)>,
    after: Multiset<(Position, Seq<char>)>,
    offset: Position,
) -> bool {
    &&& forall|i: int|
        0 <= i < list.len() ==> {
            let change = #[trigger] list[i];
            stands(after, at(change.position), change.block.name@) && !filled(
                before,
                back(at(change.position), offset),
            )
        }
    &&& forall|p: Position| #[trigger]
        filled(after, p) && !filled(before, back(p, offset)) ==> lists(list, p)
}

/// The removed cells are those that only the build before the change fills.
pub open spec fn tells_removed(
    list: Seq<Change>,
    before: Multiset<(Position, Seq<char>)>,
    after: Multiset<(Position, Seq<char>)>,
    offset: Position,
) -> bool {
    &&& forall|i: int|
        0 <= i < list.len() ==> {
            let change = #[trigger] list[i];
            stands(before, back(at(change.position), offset), change.block.name@) && !filled(
                after,
                at(change.position),
            )
        }
    &&& forall|p: Position|
        filled(before, #[trigger] back(p, offset)) && !filled(after, p) ==> lists(list, p)
}

/// The replaced cells are among those that both builds fill.
pub open spec fn tells_replaced(
    list: Seq<Replacement>,
    before: Multiset<(Position, Seq<char>)>,
    after: Multiset<(Position, Seq<char>)>,
    offset: Position,
) -> bool {
    forall|i: int|
        0 <= i < list.len() ==> {
            let replacement = #[trigger] list[i];
            stands(after, at(replacement.position), replacement.now.name@) && stands(
                before,
                back(at(replacement.position), offset),
                replacement.was.name@,
            )
        }
}

/// The difference between two builds, laid over each other at an offset.
pub open spec fn tells(
    changes: Changes,
    before: Multiset<(Position, Seq<char>)>,
    after: Multiset<(Position, Seq<char>)>,
    offset: Position,
) -> bool {
    &&& in_order(changes.added@)
    &&& in_order(changes.removed@)
    &&& replaced_in_order(changes.changed@)
    &&& replaced_in_order(changes.swapped@)
    &&& tells_added(changes.added@, before, after, offset)
    &&& tells_removed(changes.removed@, before, after, offset)
    &&& tells_replaced(changes.changed@, before, after, offset)
    &&& tells_replaced(changes.swapped@, before, after, offset)
    &&& forall|p: Position|
        !(#[trigger] lists_replaced(changes.changed@, p) && lists_replaced(changes.swapped@, p))
}

/// A build may have data on the block at a position.
pub open spec fn may_have_data(build: UniversalSchematic, position: Position) -> bool {
    block_entities(build).contains_key(position) || region_total(build) > 1
}

/// The id and the data of the block entity at a position of a build's first region, if
/// there is one.
pub open spec fn data_at(build: UniversalSchematic, position: Position) -> Option<
    (Seq<char>, Fields),
> {
    if block_entities(build).contains_key(position) {
        Some(block_entities(build)[position])
    } else {
        None
    }
}

/// Two blocks have the same data, or neither has any. What is not a number is not even
/// the same as itself.
pub open spec fn same_data(
    a: Option<(Seq<char>, Fields)>,
    b: Option<(Seq<char>, Fields)>,
) -> bool {
    a == b && (a matches Some(data) ==> is_exact(Nbt::Compound(data.1)))
}

/// Two blocks have the same name and the same properties, in whatever order.
pub open spec fn same_state(a: State, b: State) -> bool {
    a.0 == b.0 && a.1.to_multiset() == b.1.to_multiset()
}

/// Listed replacements are of blocks that differ in name, properties or data, as far as
/// builds of one region tell.
pub open spec fn tells_differing(
    list: Seq<Replacement>,
    before: UniversalSchematic,
    after: UniversalSchematic,
    offset: Position,
) -> bool {
    forall|i: int|
        0 <= i < list.len() ==> {
            let replacement = #[trigger] list[i];
            let now_at = at(replacement.position);
            let was_at = back(now_at, offset);
            &&& stated(before).count((was_at, replacement.was.state())) > 0
            &&& stated(after).count((now_at, replacement.now.state())) > 0
            &&& region_total(before) <= 1 && region_total(after) <= 1 ==> !same_state(
                replacement.was.state(),
                replacement.now.state(),
            ) || !same_data(data_at(before, was_at), data_at(after, now_at))
        }
}

/// A build has one block at a position, and no second one.
pub open spec fn has_only(
    blocks: Multiset<(Position, State)>,
    position: Position,
    state: State,
) -> bool {
    blocks.count((position, state)) > 0 && forall|other: State| #[trigger]
        blocks.count((position, other)) > 0 ==> other == state
}

/// A text without the characters that set off what is compared in a block.
pub open spec fn is_unmarked(text: Seq<char>) -> bool {
    forall|i: int|
        0 <= i < text.len() ==> #[trigger] text[i] != '|' && text[i] != '#' && text[i] != '='
}

/// A block whose name and properties can be told apart from each other, and that
/// counts in a comparison.
pub open spec fn is_clear(state: State) -> bool {
    &&& compared(state.0)
    &&& is_unmarked(state.0)
    &&& forall|i: int|
        0 <= i < state.1.len() ==> is_unmarked((#[trigger] state.1[i]).0) && is_unmarked(
            state.1[i].1,
        )
}

/// Where no change is listed the two builds have a block of the same name and
/// properties there, if they both have one.
pub open spec fn tells_unlisted(
    changes: Changes,
    before: Multiset<(Position, State)>,
    after: Multiset<(Position, State)>,
    offset: Position,
) -> bool {
    forall|p: Position, was: State, now: State|
        #![trigger has_only(before, back(p, offset), was), has_only(after, p, now)]
        has_only(before, back(p, offset), was) && has_only(after, p, now) && is_clear(was)
            && is_clear(now) && !lists_replaced(changes.changed@, p) && !lists_replaced(
            changes.swapped@,
            p,
        ) ==> same_state(was, now)
}

/// The replacements of a block.
pub open spec fn replacing(all: Seq<Replacement>, was: State) -> Seq<Replacement> {
    all.filter(|r: Replacement| same_state(r.was.state(), was))
}

/// The replacements of a block by another.
pub open spec fn replacing_with(all: Seq<Replacement>, was: State, now: State) -> Seq<Replacement> {
    replacing(all, was).filter(|r: Replacement| same_state(r.now.state(), now))
}

/// Of all replacements of a block at least four in five are by this other one.
pub open spec fn is_dominant(all: Seq<Replacement>, was: State, now: State) -> bool {
    100 * replacing_with(all, was, now).len() >= 80 * replacing(all, was).len()
}

/// A replacement is of two blocks that can be told apart by what they are alone: there
/// is no data on either of them.
pub open spec fn is_plain_replacement(
    replacement: Replacement,
    before: UniversalSchematic,
    after: UniversalSchematic,
    offset: Position,
) -> bool {
    &&& is_clear(replacement.was.state())
    &&& is_clear(replacement.now.state())
    &&& !may_have_data(before, back(at(replacement.position), offset))
    &&& !may_have_data(after, at(replacement.position))
}

/// The replaced cells are listed as re-paletted exactly where the new block dominates
/// among the replacements of the old one, provided that all of them are plain ones.
pub open spec fn tells_swapped(
    changes: Changes,
    before: UniversalSchematic,
    after: UniversalSchematic,
    offset: Position,
) -> bool {
    let all = changes.changed@ + changes.swapped@;
    (forall|i: int|
        0 <= i < all.len() ==> is_plain_replacement(#[trigger] all[i], before, after, offset)) ==> {
        &&& forall|i: int|
            0 <= i < changes.changed@.len() ==> {
                let replacement = #[trigger] changes.changed@[i];
                !is_dominant(all, replacement.was.state(), replacement.now.state())
            }
        &&& forall|i: int|
            0 <= i < changes.swapped@.len() ==> {
                let replacement = #[trigger] changes.swapped@[i];
                is_dominant(all, replacement.was.state(), replacement.now.state())
            }
    }
}

/// Each listed block has the properties that it has in the build it was taken
/// from, and what is listed as replaced is what differs.
pub open spec fn tells_states(
    changes: Changes,
    before: UniversalSchematic,
    after: UniversalSchematic,
    offset: Position,
) -> bool {
    &&& forall|i: int|
        0 <= i < changes.added@.len() ==> {
            let change = #[trigger] changes.added@[i];
            stated(after).count((at(change.position), change.block.state())) > 0
        }
    &&& forall|i: int|
        0 <= i < changes.removed@.len() ==> {
            let change = #[trigger] changes.removed@[i];
            stated(before).count((back(at(change.position), offset), change.block.state())) > 0
        }
    &&& tells_differing(changes.changed@, before, after, offset)
    &&& tells_differing(changes.swapped@, before, after, offset)
    &&& tells_unlisted(changes, stated(before), stated(after), offset)
    &&& tells_swapped(changes, before, after, offset)
}

/// The whole difference between two builds, laid over each other at an offset.
pub open spec fn tells_all(
    changes: Changes,
    before: UniversalSchematic,
    after: UniversalSchematic,
    offset: Position,
) -> bool {
    tells(changes, built(before), built(after), offset) && tells_states(
        changes,
        before,
        after,
        offset,
    )
}

/// How many blocks count in a comparison.
pub open spec fn weight(blocks: Multiset<(Position, Seq<char>)>) -> nat {
    blocks.filter(|o: (Position, Seq<char>)| compared(o.1)).len()
}

/// The positions at which a block stands.
pub open spec fn footprint(blocks: Multiset<(Position, Seq<char>)>) -> Set<Position> {
    Set::new(|p: Position| filled(blocks, p))
}

/// The share of the cells that found a counterpart, as the bits of a
/// single-precision number: those of the first build that were not removed, out of
/// all of the larger build.
pub open spec fn tells_support(
    changes: Changes,
    before: Multiset<(Position, Seq<char>)>,
    after: Multiset<(Position, Seq<char>)>,
) -> bool {
    let aligned = footprint(before).len() - changes.removed@.len();
    let larger = if weight(before) >= weight(after) {
        weight(before)
    } else {
        weight(after)
    };
    let most = if larger >= 1 {
        larger
    } else {
        1
    };
    changes.support == fraction_bits(single(aligned as nat), single(most))
}

/// The difference between two builds, by `nucleation::diff::diff` with the exact
/// preset: which cells only one of them fills and which both fill differently,
/// once the first is moved by some offset, each list in order of position, and the
/// share of cells that found a counterpart. Blocks of different names or properties
/// are told apart, and in builds of one region blocks of the same name, properties and
/// data are not; whether two blocks that differ in their data alone are told apart goes by
/// a short hash of it and is left open. Where no replaced block has data, a replacement is
/// listed as re-paletted exactly where at least 80 in 100 of those of its old block are by
/// its new one, and as changed otherwise. Which offset is chosen is left open too: where
/// several fit equally well the order in which a hash map is walked decides. Each list
/// entry takes memory, so their number can be counted.
#[verifier::external_body]
pub(crate) fn difference(before: &UniversalSchematic, after: &UniversalSchematic) -> (r: Changes)
    requires
        walkable(*before),
        walkable(*after),
        comparable(built(*before), built(*after)),
    ensures
        exists|offset: Position| #[trigger] tells_all(r, *before, *after, offset),
        tells_support(r, built(*before), built(*after)),
        r.support <= 0x3f80_0000,
        r.added@.len() + r.removed@.len() + r.changed@.len() + r.swapped@.len() <= usize::MAX,
{
    let d = diff(before, after, &DiffSpec::from_preset(FingerprintSpec::exact()));
    Changes {
        added: d.added.into_iter().map(change_at).collect(),
        removed: d.removed.into_iter().map(change_at).collect(),
        changed: d.changed.into_iter().map(replacement_at).collect(),
        swapped: d.swapped.into_iter().map(replacement_at).collect(),
        support: d.support.to_bits(),
    }
}

fn change_at(told: ((i32, i32, i32), BlockState)) -> (r: Change)
    ensures
        at(r.position) == (told.0.0 as int, told.0.1 as int, told.0.2 as int),
        r.block.state() == state_of(told.1),
{
    let (p, block) = told;
    Change { position: [p.0, p.1, p.2], block: told_block(block) }
}

fn replacement_at(told: ((i32, i32, i32), BlockState, BlockState)) -> (r: Replacement)
    ensures
        at(r.position) == (told.0.0 as int, told.0.1 as int, told.0.2 as int),
        r.was.state() == state_of(told.1),
        r.now.state() == state_of(told.2),
{
    let (p, was, now) = told;
    Replacement { position: [p.0, p.1, p.2], was: told_block(was), now: told_block(now) }
}

/// Whether a block counts in a comparison.
fn counts(name: &str) -> (r: bool)
    ensures
        r == compared(name@),
{
    !same(name, "minecraft:air") && !same(name, "minecraft:cave_air") && !same(
        name,
        "minecraft:void_air",
    )
}

/// The lowest and the highest corner of the blocks that count, if there are any.
struct Corners {
    low: [i32; 3],
    high: [i32; 3],
}

/// A cell counts in a comparison.
spec fn counted(cells: Seq<Cell<'_>>, i: int) -> bool {
    0 <= i < cells.len() && compared(cells[i].name@)
}

impl Corners {
    /// A cell among the first ones has the given coordinate on an axis.
    spec fn touched(self, cells: Seq<Cell<'_>>, n: int) -> bool {
        &&& exists|i: int| #[trigger] counted(cells, i) && i < n && cells[i].x == self.low@[0]
        &&& exists|i: int| #[trigger] counted(cells, i) && i < n && cells[i].y == self.low@[1]
        &&& exists|i: int| #[trigger] counted(cells, i) && i < n && cells[i].z == self.low@[2]
        &&& exists|i: int| #[trigger] counted(cells, i) && i < n && cells[i].x == self.high@[0]
        &&& exists|i: int| #[trigger] counted(cells, i) && i < n && cells[i].y == self.high@[1]
        &&& exists|i: int| #[trigger] counted(cells, i) && i < n && cells[i].z == self.high@[2]
    }

    /// The first cells that count all lie between the corners.
    spec fn hold(self, cells: Seq<Cell<'_>>, n: int) -> bool {
        forall|i: int| #[trigger]
            counted(cells, i) && i < n ==> {
                &&& self.low@[0] <= cells[i].x <= self.high@[0]
                &&& self.low@[1] <= cells[i].y <= self.high@[1]
                &&& self.low@[2] <= cells[i].z <= self.high@[2]
            }
    }
}

fn lesser(a: i32, b: i32) -> (r: i32)
    ensures
        r <= a,
        r <= b,
        r == a || r == b,
{
    if a <= b {
        a
    } else {
        b
    }
}

fn greater(a: i32, b: i32) -> (r: i32)
    ensures
        r >= a,
        r >= b,
        r == a || r == b,
{
    if a >= b {
        a
    } else {
        b
    }
}

fn corners_of(cells: &Vec<Cell<'_>>) -> (r: Option<Corners>)
    ensures
        match r {
            Some(corners) => corners.touched(cells@, cells@.len() as int) && corners.hold(
                cells@,
                cells@.len() as int,
            ),
            None => forall|i: int| !counted(cells@, i),
        },
{
    let mut found: Option<Corners> = None;
    let mut i: usize = 0;
    while i < cells.len()
        invariant
            i <= cells.len(),
            match found {
                Some(corners) => corners.touched(cells@, i as int) && corners.hold(
                    cells@,
                    i as int,
                ),
                None => forall|k: int| k < i ==> !#[trigger] counted(cells@, k),
            },
        decreases cells.len() - i,
    {
        let c = cells[i];
        if counts(c.name) {
            assert(counted(cells@, i as int));
            found = Some(
                match found {
                    Some(corners) => Corners {
                        low: [
                            lesser(corners.low[0], c.x),
                            lesser(corners.low[1], c.y),
                            lesser(corners.low[2], c.z),
                        ],
                        high: [
                            greater(corners.high[0], c.x),
                            greater(corners.high[1], c.y),
                            greater(corners.high[2], c.z),
                        ],
                    },
                    None => Corners { low: [c.x, c.y, c.z], high: [c.x, c.y, c.z] },
                },
            );
        }
        i = i + 1;
    }
    found
}

/// The blocks of a build are the occupied ones among its cells.
pub proof fn lemma_blocks_among(cells: Seq<Cell<'_>>, o: (Position, Seq<char>))
    ensures
        blocks_among(occupants(cells)).count(o) > 0 <==> occupied(o.1) && exists|i: int|
            0 <= i < cells.len() && (#[trigger] cells[i]).occupant() == o,
{
    broadcast use vstd::seq_lib::group_to_multiset_ensures;
    broadcast use vstd::seq_lib::group_filter_ensures;

    let all = occupants(cells);
    let keep = |o: (Position, Seq<char>)| occupied(o.1);
    let kept = all.filter(keep);
    if kept.contains(o) {
        let k = choose|k: int| 0 <= k < kept.len() && kept[k] == o;
        assert(keep(kept[k]));
        all.lemma_filter_contains_rev(keep, o);
        let i = choose|i: int| 0 <= i < all.len() && all[i] == o;
        assert(cells[i].occupant() == o);
    }
    if occupied(o.1) && exists|i: int| 0 <= i < cells.len() && (#[trigger] cells[i]).occupant() == o {
        let i = choose|i: int| 0 <= i < cells.len() && (#[trigger] cells[i]).occupant() == o;
        assert(all[i] == o);
        assert(kept.contains(all[i]));
    }
}

/// Where two builds of one region have one block each at a position, it is listed as
/// replaced if the blocks differ in name or properties, and not if they are the same in
/// these and in their data.
pub proof fn lemma_replacements_are_the_differences(
    changes: Changes,
    before: UniversalSchematic,
    after: UniversalSchematic,
    offset: Position,
    p: Position,
    was: State,
    now: State,
)
    requires
        tells_all(changes, before, after, offset),
        has_only(stated(before), back(p, offset), was),
        has_only(stated(after), p, now),
        is_clear(was),
        is_clear(now),
        region_total(before) <= 1,
        region_total(after) <= 1,
    ensures
        same_state(was, now) && same_data(data_at(before, back(p, offset)), data_at(after, p))
            ==> !lists_replaced(changes.changed@, p) && !lists_replaced(changes.swapped@, p),
        !same_state(was, now) ==> lists_replaced(changes.changed@, p) || lists_replaced(
            changes.swapped@,
            p,
        ),
{
    if lists_replaced(changes.changed@, p) {
        lemma_replaced_differ(changes.changed@, before, after, offset, p, was, now);
    }
    if lists_replaced(changes.swapped@, p) {
        lemma_replaced_differ(changes.swapped@, before, after, offset, p, was, now);
    }
}

/// Two builds without data on their blocks, whose blocks can all be told apart: what is
/// listed as re-paletted is what a block mostly came to be, and what is listed as changed
/// is the rest.
pub proof fn lemma_re_paletted_is_what_dominates(
    changes: Changes,
    before: UniversalSchematic,
    after: UniversalSchematic,
    offset: Position,
)
    requires
        tells_all(changes, before, after, offset),
        forall|p: Position| !#[trigger] may_have_data(before, p),
        forall|p: Position| !#[trigger] may_have_data(after, p),
        forall|p: Position, state: State| #[trigger]
            stated(before).count((p, state)) > 0 && compared(state.0) ==> is_clear(state),
        forall|p: Position, state: State| #[trigger]
            stated(after).count((p, state)) > 0 && compared(state.0) ==> is_clear(state),
    ensures
        forall|i: int|
            0 <= i < changes.changed@.len() ==> !is_dominant(
                changes.changed@ + changes.swapped@,
                (#[trigger] changes.changed@[i]).was.state(),
                changes.changed@[i].now.state(),
            ),
        forall|i: int|
            0 <= i < changes.swapped@.len() ==> is_dominant(
                changes.changed@ + changes.swapped@,
                (#[trigger] changes.swapped@[i]).was.state(),
                changes.swapped@[i].now.state(),
            ),
{
    let all = changes.changed@ + changes.swapped@;
    assert forall|i: int| 0 <= i < all.len() implies is_plain_replacement(
        #[trigger] all[i],
        before,
        after,
        offset,
    ) by {
        if i < changes.changed@.len() {
            assert(all[i] == changes.changed@[i]);
        } else {
            assert(all[i] == changes.swapped@[i - changes.changed@.len()]);
        }
    }
}

proof fn lemma_parted(list: Seq<Replacement>, a: State, b: State)
    requires
        !same_state(a, b),
    ensures
        list.filter(|r: Replacement| same_state(r.now.state(), a)).len() + list.filter(
            |r: Replacement| same_state(r.now.state(), b),
        ).len() <= list.len(),
    decreases list.len(),
{
    reveal(Seq::filter);
    if list.len() > 0 {
        lemma_parted(list.drop_last(), a, b);
    }
}

/// A block has no two others that dominate among its replacements.
pub proof fn lemma_one_block_dominates(all: Seq<Replacement>, was: State, a: State, b: State)
    requires
        replacing(all, was).len() > 0,
        is_dominant(all, was, a),
        is_dominant(all, was, b),
    ensures
        same_state(a, b),
{
    if !same_state(a, b) {
        lemma_parted(replacing(all, was), a, b);
    }
}

proof fn lemma_replaced_differ(
    list: Seq<Replacement>,
    before: UniversalSchematic,
    after: UniversalSchematic,
    offset: Position,
    p: Position,
    was: State,
    now: State,
)
    requires
        tells_differing(list, before, after, offset),
        has_only(stated(before), back(p, offset), was),
        has_only(stated(after), p, now),
        region_total(before) <= 1,
        region_total(after) <= 1,
        lists_replaced(list, p),
    ensures
        !same_state(was, now) || !same_data(data_at(before, back(p, offset)), data_at(after, p)),
{
    let i = choose|i: int| 0 <= i < list.len() && at((#[trigger] list[i]).position) == p;
    let replacement = list[i];
    assert(stated(before).count((back(p, offset), replacement.was.state())) > 0);
    assert(stated(after).count((p, replacement.now.state())) > 0);
}

/// No two coordinates of the two ranges are further apart than that.
fn ranges_within(a: &Corners, b: &Corners, most: i32) -> (r: bool)
    ensures
        r == {
            &&& -most <= a.low@[0] - b.high@[0] && a.high@[0] - b.low@[0] <= most
            &&& -most <= a.low@[1] - b.high@[1] && a.high@[1] - b.low@[1] <= most
            &&& -most <= a.low@[2] - b.high@[2] && a.high@[2] - b.low@[2] <= most
        },
{
    let most: i64 = most as i64;
    let low = [a.low[0] as i64, a.low[1] as i64, a.low[2] as i64];
    let high = [a.high[0] as i64, a.high[1] as i64, a.high[2] as i64];
    -most <= low[0] - b.high[0] as i64 && high[0] - b.low[0] as i64 <= most && -most <= low[1]
        - b.high[1] as i64 && high[1] - b.low[1] as i64 <= most && -most <= low[2]
        - b.high[2] as i64 && high[2] - b.low[2] as i64 <= most
}

/// Some cells that count stand at the positions of blocks, and all of those do.
proof fn lemma_filled(cells: Seq<Cell<'_>>, p: Position)
    ensures
        filled(blocks_among(occupants(cells)), p) <==> exists|i: int| #[trigger]
            counted(cells, i) && cells[i].position() == p,
{
    let blocks = blocks_among(occupants(cells));
    if filled(blocks, p) {
        let name = choose|name: Seq<char>| #[trigger] stands(blocks, p, name);
        lemma_blocks_among(cells, (p, name));
        let i = choose|i: int| 0 <= i < cells.len() && (#[trigger] cells[i]).occupant() == (p, name);
        assert(counted(cells, i));
    }
    if exists|i: int| #[trigger] counted(cells, i) && cells[i].position() == p {
        let i = choose|i: int| #[trigger] counted(cells, i) && cells[i].position() == p;
        lemma_blocks_among(cells, cells[i].occupant());
        assert(stands(blocks, p, cells[i].name@));
    }
}

/// All positions of one build are that close to all of another, or to a point.
proof fn lemma_ranges(
    a: Corners,
    first: Seq<Cell<'_>>,
    b: Corners,
    second: Seq<Cell<'_>>,
    most: int,
)
    requires
        a.touched(first, first.len() as int),
        a.hold(first, first.len() as int),
        b.touched(second, second.len() as int),
        b.hold(second, second.len() as int),
    ensures
        ({
            &&& -most <= a.low@[0] - b.high@[0] && a.high@[0] - b.low@[0] <= most
            &&& -most <= a.low@[1] - b.high@[1] && a.high@[1] - b.low@[1] <= most
            &&& -most <= a.low@[2] - b.high@[2] && a.high@[2] - b.low@[2] <= most
        }) <==> forall|p: Position, q: Position| #[trigger]
            filled(blocks_among(occupants(first)), p) && #[trigger] filled(
                blocks_among(occupants(second)),
                q,
            ) ==> within_of(p, q, most),
{
    let one = blocks_among(occupants(first));
    let two = blocks_among(occupants(second));
    let n = first.len() as int;
    let m = second.len() as int;
    assert forall|p: Position| #[trigger] filled(one, p) implies exists|i: int| #[trigger]
        counted(first, i) && first[i].position() == p by {
        lemma_filled(first, p);
    }
    assert forall|p: Position| #[trigger] filled(two, p) implies exists|i: int| #[trigger]
        counted(second, i) && second[i].position() == p by {
        lemma_filled(second, p);
    }
    assert forall|i: int| #[trigger] counted(first, i) implies filled(one, first[i].position()) by {
        lemma_filled(first, first[i].position());
    }
    assert forall|i: int| #[trigger] counted(second, i) implies filled(
        two,
        second[i].position(),
    ) by {
        lemma_filled(second, second[i].position());
    }
    if forall|p: Position, q: Position| #[trigger]
        filled(one, p) && #[trigger] filled(two, q) ==> within_of(p, q, most) {
        let i0 = choose|i: int| #[trigger] counted(first, i) && i < n && first[i].x == a.low@[0];
        let i1 = choose|i: int| #[trigger] counted(first, i) && i < n && first[i].y == a.low@[1];
        let i2 = choose|i: int| #[trigger] counted(first, i) && i < n && first[i].z == a.low@[2];
        let i3 = choose|i: int| #[trigger] counted(first, i) && i < n && first[i].x == a.high@[0];
        let i4 = choose|i: int| #[trigger] counted(first, i) && i < n && first[i].y == a.high@[1];
        let i5 = choose|i: int| #[trigger] counted(first, i) && i < n && first[i].z == a.high@[2];
        let k0 = choose|i: int| #[trigger] counted(second, i) && i < m && second[i].x == b.high@[0];
        let k1 = choose|i: int| #[trigger] counted(second, i) && i < m && second[i].y == b.high@[1];
        let k2 = choose|i: int| #[trigger] counted(second, i) && i < m && second[i].z == b.high@[2];
        let k3 = choose|i: int| #[trigger] counted(second, i) && i < m && second[i].x == b.low@[0];
        let k4 = choose|i: int| #[trigger] counted(second, i) && i < m && second[i].y == b.low@[1];
        let k5 = choose|i: int| #[trigger] counted(second, i) && i < m && second[i].z == b.low@[2];
        assert(within_of(first[i0].position(), second[k0].position(), most));
        assert(within_of(first[i1].position(), second[k1].position(), most));
        assert(within_of(first[i2].position(), second[k2].position(), most));
        assert(within_of(first[i3].position(), second[k3].position(), most));
        assert(within_of(first[i4].position(), second[k4].position(), most));
        assert(within_of(first[i5].position(), second[k5].position(), most));
    }
}

/// Whether two builds can be laid over each other.
fn can_compare(first: &Vec<Cell<'_>>, second: &Vec<Cell<'_>>) -> (r: bool)
    ensures
        r == comparable(blocks_among(occupants(first@)), blocks_among(occupants(second@))),
{
    let ghost one = blocks_among(occupants(first@));
    let ghost two = blocks_among(occupants(second@));
    let a = corners_of(first);
    let b = corners_of(second);
    proof {
        if a is None {
            assert forall|p: Position| !#[trigger] filled(one, p) by {
                lemma_filled(first@, p);
            }
        } else {
            lemma_ranges(a->0, first@, a->0, first@, SPREAD as int);
        }
        if b is None {
            assert forall|p: Position| !#[trigger] filled(two, p) by {
                lemma_filled(second@, p);
            }
        } else {
            lemma_ranges(b->0, second@, b->0, second@, SPREAD as int);
            lemma_around_origin(b->0, second@, REACH as int);
        }
        if a is Some && b is Some {
            lemma_ranges(a->0, first@, b->0, second@, REACH as int);
        }
    }
    let origin = Corners { low: [0, 0, 0], high: [0, 0, 0] };
    let compact = match &a {
        Some(a) => ranges_within(a, a, SPREAD),
        None => true,
    };
    compact && match &b {
        Some(b) => ranges_within(b, b, SPREAD) && ranges_within(b, &origin, REACH) && (match &a {
            Some(a) => ranges_within(a, b, REACH),
            None => true,
        }),
        None => true,
    }
}

proof fn lemma_around_origin(b: Corners, cells: Seq<Cell<'_>>, most: int)
    requires
        b.touched(cells, cells.len() as int),
        b.hold(cells, cells.len() as int),
    ensures
        ({
            &&& -most <= b.low@[0] && b.high@[0] <= most
            &&& -most <= b.low@[1] && b.high@[1] <= most
            &&& -most <= b.low@[2] && b.high@[2] <= most
        }) <==> forall|p: Position| #[trigger]
            filled(blocks_among(occupants(cells)), p) ==> within_of(p, (0int, 0int, 0int), most),
{
    let blocks = blocks_among(occupants(cells));
    let n = cells.len() as int;
    assert forall|p: Position| #[trigger] filled(blocks, p) implies exists|i: int| #[trigger]
        counted(cells, i) && cells[i].position() == p by {
        lemma_filled(cells, p);
    }
    assert forall|i: int| #[trigger] counted(cells, i) implies filled(
        blocks,
        cells[i].position(),
    ) by {
        lemma_filled(cells, cells[i].position());
    }
}

/// The difference between two builds; none where a position would run out of range as
/// they are laid over each other.
pub fn compare(before: &UniversalSchematic, after: &UniversalSchematic) -> (r: Option<Changes>)
    requires
        walkable(*before),
        walkable(*after),
    ensures
        r is Some <==> comparable(built(*before), built(*after)),
        match r {
            Some(changes) => (exists|offset: Position| #[trigger]
                tells_all(changes, *before, *after, offset)) && tells_support(
                changes,
                built(*before),
                built(*after),
            ) && changes.support <= 0x3f80_0000 && changes.added@.len() + changes.removed@.len()
                + changes.changed@.len() + changes.swapped@.len() <= usize::MAX,
            None => true,
        },
{
    let first = cells(before);
    let second = cells(after);
    if can_compare(&first, &second) {
        Some(difference(before, after))
    } else {
        None
    }
}

/// Nothing that counts in a comparison stands at a position: each block there is one of the
/// three kinds of air.
pub open spec fn is_bare(blocks: Multiset<(Position, Seq<char>)>, position: Position) -> bool {
    forall|name: Seq<char>| #[trigger]
        blocks.count((position, name)) > 0 ==> name == "minecraft:air"@ || name
            == "minecraft:cave_air"@ || name == "minecraft:void_air"@
}

/// A position is moved from where it is after the change to where it was before it.
pub open spec fn moved_back(position: Position, offset: Position) -> Position {
    (position.0 - offset.0, position.1 - offset.1, position.2 - offset.2)
}

/// A difference is one from one build to another, the first moved by an offset: an added
/// block stands in the second where nothing stood in the first; a removed one stood in the
/// first where nothing stands in the second; and of a replaced cell the old block stood in
/// the first and the new one stands in the second.
pub open spec fn goes_from_to(
    changes: Changes,
    before: Multiset<(Position, Seq<char>)>,
    after: Multiset<(Position, Seq<char>)>,
    offset: Position,
) -> bool {
    &&& forall|i: int|
        0 <= i < changes.added@.len() ==> {
            let p = at((#[trigger] changes.added@[i]).position);
            after.count((p, changes.added@[i].block.name@)) > 0 && is_bare(
                before,
                moved_back(p, offset),
            )
        }
    &&& forall|i: int|
        0 <= i < changes.removed@.len() ==> {
            let p = at((#[trigger] changes.removed@[i]).position);
            before.count((moved_back(p, offset), changes.removed@[i].block.name@)) > 0 && is_bare(
                after,
                p,
            )
        }
    &&& forall|i: int|
        0 <= i < changes.changed@.len() ==> {
            let p = at((#[trigger] changes.changed@[i]).position);
            before.count((moved_back(p, offset), changes.changed@[i].was.name@)) > 0
                && after.count((p, changes.changed@[i].now.name@)) > 0
        }
    &&& forall|i: int|
        0 <= i < changes.swapped@.len() ==> {
            let p = at((#[trigger] changes.swapped@[i]).position);
            before.count((moved_back(p, offset), changes.swapped@[i].was.name@)) > 0
                && after.count((p, changes.swapped@[i].now.name@)) > 0
        }
}

/// A difference has every cell that only one of two builds has, the first moved by an offset.
pub open spec fn misses_none(
    changes: Changes,
    before: Multiset<(Position, Seq<char>)>,
    after: Multiset<(Position, Seq<char>)>,
    offset: Position,
) -> bool {
    &&& forall|p: Position|
        !is_bare(after, p) && is_bare(before, #[trigger] moved_back(p, offset)) ==> exists|i: int|
            0 <= i < changes.added@.len() && at((#[trigger] changes.added@[i]).position) == p
    &&& forall|p: Position|
        !is_bare(before, #[trigger] moved_back(p, offset)) && is_bare(after, p) ==> exists|i: int|
            0 <= i < changes.removed@.len() && at((#[trigger] changes.removed@[i]).position) == p
}

proof fn lemma_bare_is_not_filled(blocks: Multiset<(Position, Seq<char>)>, p: Position)
    ensures
        is_bare(blocks, p) <==> !filled(blocks, p),
{
    if !filled(blocks, p) {
        assert forall|name: Seq<char>| #[trigger] blocks.count((p, name)) > 0 implies name
            == "minecraft:air"@ || name == "minecraft:cave_air"@ || name
            == "minecraft:void_air"@ by {
            assert(!stands(blocks, p, name));
        }
    }
}

/// A comparison goes from the build before the change to the one after it, for some offset of
/// the first: what is added is in the second alone, what is removed was in the first alone,
/// and every cell that one of them alone has is listed.
#[verifier::rlimit(60)]
pub proof fn lemma_difference_goes_from_before_to_after(
    before: &UniversalSchematic,
    after: &UniversalSchematic,
    r: Option<Changes>,
) -> (offset: Position)
    requires
        call_ensures(compare, (before, after), r),
        r is Some,
    ensures
        goes_from_to(r->0, built(*before), built(*after), offset),
        misses_none(r->0, built(*before), built(*after), offset),
{
    let changes = r->0;
    let offset = choose|offset: Position| #[trigger] tells_all(changes, *before, *after, offset);
    let first = built(*before);
    let second = built(*after);
    assert forall|p: Position| moved_back(p, offset) == #[trigger] back(p, offset) by {}
    assert forall|i: int| 0 <= i < changes.added@.len() implies ({
        let p = at((#[trigger] changes.added@[i]).position);
        second.count((p, changes.added@[i].block.name@)) > 0 && is_bare(
            first,
            moved_back(p, offset),
        )
    }) by {
        let p = at(changes.added@[i].position);
        lemma_bare_is_not_filled(first, back(p, offset));
        assert(stands(second, p, changes.added@[i].block.name@));
    }
    assert forall|i: int| 0 <= i < changes.removed@.len() implies ({
        let p = at((#[trigger] changes.removed@[i]).position);
        first.count((moved_back(p, offset), changes.removed@[i].block.name@)) > 0 && is_bare(
            second,
            p,
        )
    }) by {
        let p = at(changes.removed@[i].position);
        lemma_bare_is_not_filled(second, p);
        assert(stands(first, back(p, offset), changes.removed@[i].block.name@));
    }
    assert forall|p: Position|
        !is_bare(second, p) && is_bare(first, #[trigger] moved_back(p, offset)) implies exists|
        i: int,
    |
        0 <= i < changes.added@.len() && at((#[trigger] changes.added@[i]).position) == p by {
        lemma_bare_is_not_filled(second, p);
        lemma_bare_is_not_filled(first, back(p, offset));
        assert(lists(changes.added@, p));
    }
    assert forall|p: Position|
        !is_bare(first, #[trigger] moved_back(p, offset)) && is_bare(second, p) implies exists|
        i: int,
    |
        0 <= i < changes.removed@.len() && at((#[trigger] changes.removed@[i]).position) == p by {
        lemma_bare_is_not_filled(second, p);
        lemma_bare_is_not_filled(first, back(p, offset));
        assert(filled(first, back(p, offset)));
        assert(lists(changes.removed@, p));
    }
    assert forall|i: int| 0 <= i < changes.changed@.len() implies ({
        let p = at((#[trigger] changes.changed@[i]).position);
        first.count((moved_back(p, offset), changes.changed@[i].was.name@)) > 0 && second.count(
            (p, changes.changed@[i].now.name@),
        ) > 0
    }) by {
        let p = at(changes.changed@[i].position);
        assert(stands(second, p, changes.changed@[i].now.name@));
        assert(stands(first, back(p, offset), changes.changed@[i].was.name@));
    }
    assert forall|i: int| 0 <= i < changes.swapped@.len() implies ({
        let p = at((#[trigger] changes.swapped@[i]).position);
        first.count((moved_back(p, offset), changes.swapped@[i].was.name@)) > 0 && second.count(
            (p, changes.swapped@[i].now.name@),
        ) > 0
    }) by {
        let p = at(changes.swapped@[i].position);
        assert(stands(second, p, changes.swapped@[i].now.name@));
        assert(stands(first, back(p, offset), changes.swapped@[i].was.name@));
    }
    offset
}

/// Two builds whose blocks all lie within a hundred and thirty million cells of the origin
/// can always be compared.
pub proof fn lemma_near_builds_are_compared(
    before: &UniversalSchematic,
    after: &UniversalSchematic,
    r: Option<Changes>,
)
    requires
        call_ensures(compare, (before, after), r),
        forall|p: Position, name: Seq<char>| #[trigger]
            built(*before).count((p, name)) > 0 ==> -130_000_000 <= p.0 <= 130_000_000
                && -130_000_000 <= p.1 <= 130_000_000 && -130_000_000 <= p.2 <= 130_000_000,
        forall|p: Position, name: Seq<char>| #[trigger]
            built(*after).count((p, name)) > 0 ==> -130_000_000 <= p.0 <= 130_000_000
                && -130_000_000 <= p.1 <= 130_000_000 && -130_000_000 <= p.2 <= 130_000_000,
    ensures
        r is Some,
{
    let first = built(*before);
    let second = built(*after);
    assert forall|p: Position| #[trigger] filled(first, p) implies -130_000_000 <= p.0
        <= 130_000_000 && -130_000_000 <= p.1 <= 130_000_000 && -130_000_000 <= p.2
        <= 130_000_000 by {
        let name = choose|name: Seq<char>| #[trigger] stands(first, p, name);
        assert(first.count((p, name)) > 0);
    }
    assert forall|p: Position| #[trigger] filled(second, p) implies -130_000_000 <= p.0
        <= 130_000_000 && -130_000_000 <= p.1 <= 130_000_000 && -130_000_000 <= p.2
        <= 130_000_000 by {
        let name = choose|name: Seq<char>| #[trigger] stands(second, p, name);
        assert(second.count((p, name)) > 0);
    }
}

} // verus!
