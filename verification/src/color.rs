//! Colours: of blocks, and of the categories that changes are shown in.
//!
//! A block's colour comes from `nucleation`'s baked table, with a stable nonzero
//! fallback for blocks the table lacks. No block is black, so that a grid can
//! use zero for an empty cell.

use vstd::prelude::*;
use nucleation::BlockState;
use crate::schematic::{baked, baked_color, block_name, called, occupied};
use crate::single::{
    byte_times, grain, is_power, lemma_nearest_bound, lemma_single_bound, lemma_single_is_near,
    round, single, times_byte,
};
use crate::text::{same, without_prefix, without_suffix};

verus! {

/// Three channels as one number, red in the highest of the three bytes.
pub open spec fn packed(red: int, green: int, blue: int) -> int {
    red * 65536 + green * 256 + blue
}

/// A byte of a packed colour, counted from the highest of the three.
pub open spec fn channel(color: int, which: int) -> u8 {
    (if which == 0 {
        (color / 65536) % 256
    } else if which == 1 {
        (color / 256) % 256
    } else {
        color % 256
    }) as u8
}

/// A packed `0xRRGGBB` as its three channels.
pub fn rgb(color: u32) -> (r: [u8; 3])
    ensures
        r@[0] == channel(color as int, 0),
        r@[1] == channel(color as int, 1),
        r@[2] == channel(color as int, 2),
{
    let red: u8 = ((color / 65536) % 256) as u8;
    let green: u8 = ((color / 256) % 256) as u8;
    let blue: u8 = (color % 256) as u8;
    [red, green, blue]
}

/// Three channels as a packed `0xRRGGBB`.
pub fn pack(color: [u8; 3]) -> (r: u32)
    ensures
        r == packed(color@[0] as int, color@[1] as int, color@[2] as int),
{
    color[0] as u32 * 65536 + color[1] as u32 * 256 + color[2] as u32
}

/// Channels come back out of a packed colour as they went in.
pub proof fn lemma_channels_come_back(red: u8, green: u8, blue: u8)
    ensures
        channel(packed(red as int, green as int, blue as int), 0) == red,
        channel(packed(red as int, green as int, blue as int), 1) == green,
        channel(packed(red as int, green as int, blue as int), 2) == blue,
{
}

/// A colour of three bytes packs again out of its channels.
pub proof fn lemma_color_comes_back(color: int)
    requires
        0 <= color < 0x100_0000,
    ensures
        packed(
            channel(color, 0) as int,
            channel(color, 1) as int,
            channel(color, 2) as int,
        ) == color,
{
}

/// One channel of a tinted colour: 0.45 of the block's and 0.55 of the category's,
/// summed in single precision and cut to a whole number. In units of 2 to the
/// -24th, which single precision has at these sizes, the weights are 7549747 and
/// 9227469.
///
/// The colour has to mark the cell at a glance and still leave the block
/// recognisable underneath it, which is what the weights are for: at full
/// strength the changes panel would show a coloured block and nothing about the
/// block it stands for.
pub open spec fn tinted(block: u8, color: u8) -> nat {
    single(single((block * 7549747) as nat) + single((color * 9227469) as nat)) / 16777216
}

fn tint_channel(block: u8, color: u8) -> (r: u8)
    ensures
        r == tinted(block, color),
{
    let first: u64 = round(block as u64 * 7549747);
    let second: u64 = round(color as u64 * 9227469);
    proof {
        lemma_tint_parts(block, color);
        lemma_tint_shows(block, color);
    }
    let sum: u64 = round(first + second);
    (sum / 16777216) as u8
}

proof fn lemma_256_is_power()
    ensures
        is_power(256),
{
    reveal_with_fuel(is_power, 9);
}

proof fn lemma_tint_parts(block: u8, color: u8)
    ensures
        single((block * 7549747) as nat) + single((color * 9227469) as nat) <= 255 * 16777216,
{
    // The two full channels round to numbers that add up to the bound.
    lemma_256_is_power();
    lemma_single_bound((block * 7549747) as nat, 1925185536, 256);
    let b = (color * 9227469) as nat;
    if b <= 2353004544 {
        lemma_single_bound(b, 2353004544, 256);
    } else {
        reveal_with_fuel(grain, 9);
        assert(grain(b) == 256);
        lemma_nearest_bound(b, 256, 2353004544);
    }
}

/// A tint of a category's colour leaves a channel at nothing only where that colour
/// has next to nothing in it, and never passes the largest channel.
pub proof fn lemma_tint_shows(block: u8, color: u8)
    ensures
        color >= 2 ==> tinted(block, color) >= 1,
        tinted(block, color) <= 255,
{
    let a = single((block * 7549747) as nat);
    let b = single((color * 9227469) as nat);
    lemma_256_is_power();
    lemma_tint_parts(block, color);
    lemma_single_bound(a + b, 255 * 16777216, 256);
    lemma_single_is_near((color * 9227469) as nat, 256);
    lemma_single_is_near(a + b, 256);
}

/// A block's own colour, with the colour of the category it changed in filtered
/// over it.
pub fn tint(block: [u8; 3], color: [u8; 3]) -> (r: [u8; 3])
    ensures
        r@[0] == tinted(block@[0], color@[0]),
        r@[1] == tinted(block@[1], color@[1]),
        r@[2] == tinted(block@[2], color@[2]),
{
    [
        tint_channel(block[0], color[0]),
        tint_channel(block[1], color[1]),
        tint_channel(block[2], color[2]),
    ]
}

/// A colour at the given level of light in each channel, as the bits of a
/// single-precision number. No channel leaves its range.
pub fn dim(color: [u8; 3], levels: [u32; 3]) -> (r: [u8; 3])
    ensures
        r@[0] == byte_times(color@[0], levels@[0]),
        r@[1] == byte_times(color@[1], levels@[1]),
        r@[2] == byte_times(color@[2], levels@[2]),
{
    [
        times_byte(color[0], levels[0]),
        times_byte(color[1], levels[1]),
        times_byte(color[2], levels[2]),
    ]
}

/// A block's name without the game's own namespace.
pub open spec fn short_name(name: Seq<char>) -> Seq<char> {
    if "minecraft:"@.is_prefix_of(name) {
        name.skip("minecraft:"@.len() as int)
    } else {
        name
    }
}

/// A block is a kind of air.
pub open spec fn air(name: Seq<char>) -> bool {
    short_name(name) == "air"@ || short_name(name) == "cave_air"@ || short_name(name)
        == "void_air"@
}

fn shorten(name: &str) -> (r: String)
    ensures
        r@ == short_name(name@),
{
    match without_prefix(name, "minecraft:") {
        Some(rest) => {
            assert(name@.skip("minecraft:"@.len() as int) =~= rest@);
            assert("minecraft:"@.is_prefix_of(name@));
            rest
        },
        None => name.to_owned(),
    }
}

/// Whether a block of that name is a kind of air.
pub fn is_air_name(name: &str) -> (r: bool)
    ensures
        r == air(name@),
{
    let short = shorten(name);
    same(short.as_str(), "air") || same(short.as_str(), "cave_air") || same(
        short.as_str(),
        "void_air",
    )
}

/// Whether a block is a kind of air.
pub fn is_air(block: &BlockState) -> (r: bool)
    ensures
        r == air(called(*block)),
{
    is_air_name(block_name(block))
}

/// What is not air is not the plain air that fills a region.
pub proof fn lemma_air_is_unoccupied(name: Seq<char>)
    ensures
        !occupied(name) ==> air(name),
{
    reveal_strlit("minecraft:air");
    reveal_strlit("minecraft:");
    reveal_strlit("air");
    if !occupied(name) {
        assert("minecraft:"@ =~= name.take("minecraft:"@.len() as int));
        assert(name.skip("minecraft:"@.len() as int) =~= "air"@);
    }
}

/// The colours of well-known blocks; zero for any other.
pub open spec fn known_color(short: Seq<char>) -> u32 {
    if short == "stone"@ || short == "smooth_stone"@ || short == "cobblestone"@ || short == "stone_bricks"@ {
        0x8f8f8f
    } else if short == "andesite"@ || short == "polished_andesite"@ {
        0x888a85
    } else if short == "granite"@ {
        0x9f6b58
    } else if short == "diorite"@ {
        0xc9c9c6
    } else if short == "deepslate"@ || short == "cobbled_deepslate"@ {
        0x4d4d51
    } else if short == "obsidian"@ || short == "crying_obsidian"@ {
        0x1b1226
    } else if short == "bedrock"@ {
        0x3a3a3a
    } else if short == "dirt"@ || short == "rooted_dirt"@ {
        0x8a5a3b
    } else if short == "grass_block"@ || short == "grass"@ {
        0x5f9e3a
    } else if short == "sand"@ {
        0xdbcf9c
    } else if short == "gravel"@ {
        0x7f7c78
    } else if short == "water"@ {
        0x3b6ecf
    } else if short == "lava"@ {
        0xe06a10
    } else if short == "ice"@ || short == "packed_ice"@ || short == "blue_ice"@ || short == "frosted_ice"@ {
        0xa5c8f0
    } else if short == "glass"@ || short == "tinted_glass"@ {
        0xd8f0f2
    } else if short == "slime_block"@ {
        0x6fd66a
    } else if short == "honey_block"@ {
        0xe8a933
    } else if short == "tnt"@ {
        0xc23b2a
    } else if short == "redstone_block"@ {
        0xb01e0e
    } else if short == "redstone_wire"@ {
        0x8f1010
    } else if short == "redstone_torch"@ || short == "redstone_wall_torch"@ {
        0xd94a2a
    } else if short == "repeater"@ || short == "comparator"@ {
        0xb9b0a8
    } else if short == "observer"@ {
        0x5f5c58
    } else if short == "piston"@ || short == "sticky_piston"@ {
        0x9a8054
    } else if short == "piston_head"@ || short == "moving_piston"@ {
        0xb08d5a
    } else if short == "hopper"@ || short == "cauldron"@ {
        0x4a4a4a
    } else if short == "chest"@ || short == "trapped_chest"@ || short == "barrel"@ {
        0x9a6b2f
    } else if short == "dropper"@ || short == "dispenser"@ || short == "furnace"@ {
        0x6f6f6f
    } else if short == "lever"@ || short == "tripwire_hook"@ {
        0x8a7a5a
    } else if short == "rail"@ || short == "powered_rail"@ || short == "activator_rail"@ || short == "detector_rail"@ {
        0x99856a
    } else if short == "iron_block"@ {
        0xd8d8d8
    } else if short == "gold_block"@ {
        0xf0d24a
    } else if short == "diamond_block"@ {
        0x62e6d8
    } else if short == "emerald_block"@ {
        0x35c65a
    } else if short == "quartz_block"@ || short == "smooth_quartz"@ {
        0xe8e2d8
    } else if short == "glowstone"@ || short == "shroomlight"@ || short == "sea_lantern"@ {
        0xf0c86a
    } else if short == "netherrack"@ {
        0x7a3230
    } else if short == "soul_sand"@ || short == "soul_soil"@ {
        0x5a4636
    } else if short == "snow"@ || short == "snow_block"@ || short == "powder_snow"@ {
        0xf4f8fa
    } else if short == "sculk"@ {
        0x0e2129
    } else if short == "stonecutter"@ || short == "smithing_table"@ {
        0x6a6258
    } else if short == "crafting_table"@ {
        0x8a5a30
    } else if short == "furnace_minecart"@ || short == "minecart"@ {
        0x6f6f6f
    } else {
        0
    }
}

/// The colour of a dye.
pub open spec fn dye(dye: Seq<char>) -> Option<u32> {
    if dye == "white"@ {
        Some(0xe9ecec)
    } else if dye == "orange"@ {
        Some(0xf07613)
    } else if dye == "magenta"@ {
        Some(0xbd44b3)
    } else if dye == "light_blue"@ {
        Some(0x3aafd9)
    } else if dye == "yellow"@ {
        Some(0xf8c527)
    } else if dye == "lime"@ {
        Some(0x70b919)
    } else if dye == "pink"@ {
        Some(0xed8dac)
    } else if dye == "gray"@ {
        Some(0x3e4447)
    } else if dye == "light_gray"@ {
        Some(0x8e8e86)
    } else if dye == "cyan"@ {
        Some(0x158991)
    } else if dye == "purple"@ {
        Some(0x792aac)
    } else if dye == "blue"@ {
        Some(0x35399d)
    } else if dye == "brown"@ {
        Some(0x724728)
    } else if dye == "green"@ {
        Some(0x546d1b)
    } else if dye == "red"@ {
        Some(0xa12722)
    } else if dye == "black"@ {
        Some(0x141519)
    } else {
        None
    }
}

/// The colour of a block whose name is a dye and the given ending.
pub open spec fn dyed(short: Seq<char>, ending: Seq<char>) -> Option<u32> {
    if ending.is_suffix_of(short) {
        dye(short.take(short.len() - ending.len()))
    } else {
        None
    }
}

/// The colour of a block of one of the dyed families.
pub open spec fn family_color(short: Seq<char>) -> Option<u32> {
    if dyed(short, "_concrete"@) is Some {
        dyed(short, "_concrete"@)
    } else if dyed(short, "_wool"@) is Some {
        dyed(short, "_wool"@)
    } else if dyed(short, "_terracotta"@) is Some {
        dyed(short, "_terracotta"@)
    } else if dyed(short, "_stained_glass"@) is Some {
        dyed(short, "_stained_glass"@)
    } else if dyed(short, "_stained_glass_pane"@) is Some {
        dyed(short, "_stained_glass_pane"@)
    } else if dyed(short, "_candle"@) is Some {
        dyed(short, "_candle"@)
    } else if dyed(short, "_bed"@) is Some {
        dyed(short, "_bed"@)
    } else {
        dyed(short, "_shulker_box"@)
    }
}

/// The FNV-1a hash of some bytes.
pub open spec fn fnv(bytes: Seq<u8>) -> u32
    decreases bytes.len(),
{
    if bytes.len() == 0 {
        0x811c_9dc5
    } else {
        let mixed = fnv(bytes.drop_last()) ^ (bytes.last() as u32);
        ((mixed * 0x0100_0193) % 0x1_0000_0000) as u32
    }
}

/// A hash as a colour. Every channel is held to the 96..223 range: never black
/// (which would read as a hole in the build) and never blown out.
pub open spec fn hashed_color(hash: u32) -> int {
    packed(
        96 + hash as int % 128,
        96 + (hash as int / 256) % 128,
        96 + (hash as int / 65536) % 128,
    )
}

/// A hashed colour is neither black nor blown out in any channel.
pub proof fn lemma_hashed_color_is_moderate(hash: u32, which: int)
    requires
        0 <= which < 3,
    ensures
        96 <= channel(hashed_color(hash), which) <= 223,
{
}

/// The colour of a block that the baked table lacks: from the table of well-known
/// blocks, the dye family, the kind of wood or leaves, or a hash of its name.
pub open spec fn stand_in_color(name: Seq<char>) -> int {
    let short = short_name(name);
    if known_color(short) != 0 {
        known_color(short) as int
    } else if family_color(short) is Some {
        family_color(short)->0 as int
    } else if "_planks"@.is_suffix_of(short) || "_log"@.is_suffix_of(short)
        || "_wood"@.is_suffix_of(short) {
        0xa07a48
    } else if "_leaves"@.is_suffix_of(short) {
        0x3f7a2a
    } else {
        hashed_color(fnv(vstd::utf8::encode_utf8(short)))
    }
}

/// The colour of a block.
pub open spec fn color_of(name: Seq<char>) -> int {
    match baked(name) {
        Some((red, green, blue)) => if packed(red as int, green as int, blue as int) != 0 {
            packed(red as int, green as int, blue as int)
        } else {
            stand_in_color(name)
        },
        None => stand_in_color(name),
    }
}

fn find_known_color(short: &str) -> (r: u32)
    ensures
        r == known_color(short@),
{
    if same(short, "stone") || same(short, "smooth_stone") || same(short, "cobblestone") || same(short, "stone_bricks") {
        0x8f8f8f
    } else if same(short, "andesite") || same(short, "polished_andesite") {
        0x888a85
    } else if same(short, "granite") {
        0x9f6b58
    } else if same(short, "diorite") {
        0xc9c9c6
    } else if same(short, "deepslate") || same(short, "cobbled_deepslate") {
        0x4d4d51
    } else if same(short, "obsidian") || same(short, "crying_obsidian") {
        0x1b1226
    } else if same(short, "bedrock") {
        0x3a3a3a
    } else if same(short, "dirt") || same(short, "rooted_dirt") {
        0x8a5a3b
    } else if same(short, "grass_block") || same(short, "grass") {
        0x5f9e3a
    } else if same(short, "sand") {
        0xdbcf9c
    } else if same(short, "gravel") {
        0x7f7c78
    } else if same(short, "water") {
        0x3b6ecf
    } else if same(short, "lava") {
        0xe06a10
    } else if same(short, "ice") || same(short, "packed_ice") || same(short, "blue_ice") || same(short, "frosted_ice") {
        0xa5c8f0
    } else if same(short, "glass") || same(short, "tinted_glass") {
        0xd8f0f2
    } else if same(short, "slime_block") {
        0x6fd66a
    } else if same(short, "honey_block") {
        0xe8a933
    } else if same(short, "tnt") {
        0xc23b2a
    } else if same(short, "redstone_block") {
        0xb01e0e
    } else if same(short, "redstone_wire") {
        0x8f1010
    } else if same(short, "redstone_torch") || same(short, "redstone_wall_torch") {
        0xd94a2a
    } else if same(short, "repeater") || same(short, "comparator") {
        0xb9b0a8
    } else if same(short, "observer") {
        0x5f5c58
    } else if same(short, "piston") || same(short, "sticky_piston") {
        0x9a8054
    } else if same(short, "piston_head") || same(short, "moving_piston") {
        0xb08d5a
    } else if same(short, "hopper") || same(short, "cauldron") {
        0x4a4a4a
    } else if same(short, "chest") || same(short, "trapped_chest") || same(short, "barrel") {
        0x9a6b2f
    } else if same(short, "dropper") || same(short, "dispenser") || same(short, "furnace") {
        0x6f6f6f
    } else if same(short, "lever") || same(short, "tripwire_hook") {
        0x8a7a5a
    } else if same(short, "rail") || same(short, "powered_rail") || same(short, "activator_rail") || same(short, "detector_rail") {
        0x99856a
    } else if same(short, "iron_block") {
        0xd8d8d8
    } else if same(short, "gold_block") {
        0xf0d24a
    } else if same(short, "diamond_block") {
        0x62e6d8
    } else if same(short, "emerald_block") {
        0x35c65a
    } else if same(short, "quartz_block") || same(short, "smooth_quartz") {
        0xe8e2d8
    } else if same(short, "glowstone") || same(short, "shroomlight") || same(short, "sea_lantern") {
        0xf0c86a
    } else if same(short, "netherrack") {
        0x7a3230
    } else if same(short, "soul_sand") || same(short, "soul_soil") {
        0x5a4636
    } else if same(short, "snow") || same(short, "snow_block") || same(short, "powder_snow") {
        0xf4f8fa
    } else if same(short, "sculk") {
        0x0e2129
    } else if same(short, "stonecutter") || same(short, "smithing_table") {
        0x6a6258
    } else if same(short, "crafting_table") {
        0x8a5a30
    } else if same(short, "furnace_minecart") || same(short, "minecart") {
        0x6f6f6f
    } else {
        0
    }
}

/// The colour of a dye.
pub fn dye_color(dye: &str) -> (r: Option<u32>)
    ensures
        r == self::dye(dye@),
{
    if same(dye, "white") {
        Some(0xe9ecec)
    } else if same(dye, "orange") {
        Some(0xf07613)
    } else if same(dye, "magenta") {
        Some(0xbd44b3)
    } else if same(dye, "light_blue") {
        Some(0x3aafd9)
    } else if same(dye, "yellow") {
        Some(0xf8c527)
    } else if same(dye, "lime") {
        Some(0x70b919)
    } else if same(dye, "pink") {
        Some(0xed8dac)
    } else if same(dye, "gray") {
        Some(0x3e4447)
    } else if same(dye, "light_gray") {
        Some(0x8e8e86)
    } else if same(dye, "cyan") {
        Some(0x158991)
    } else if same(dye, "purple") {
        Some(0x792aac)
    } else if same(dye, "blue") {
        Some(0x35399d)
    } else if same(dye, "brown") {
        Some(0x724728)
    } else if same(dye, "green") {
        Some(0x546d1b)
    } else if same(dye, "red") {
        Some(0xa12722)
    } else if same(dye, "black") {
        Some(0x141519)
    } else {
        None
    }
}

fn find_dyed(short: &str, ending: &str) -> (r: Option<u32>)
    ensures
        r == dyed(short@, ending@),
{
    match without_suffix(short, ending) {
        Some(rest) => {
            assert(short@.take(short@.len() - ending@.len()) =~= rest@);
            assert(short@.subrange(short@.len() - ending@.len(), short@.len() as int) =~= ending@);
            assert(ending@.is_suffix_of(short@));
            dye_color(rest.as_str())
        },
        None => None,
    }
}

fn find_family_color(short: &str) -> (r: Option<u32>)
    ensures
        r == family_color(short@),
{
    let concrete = find_dyed(short, "_concrete");
    if concrete.is_some() {
        return concrete;
    }
    let wool = find_dyed(short, "_wool");
    if wool.is_some() {
        return wool;
    }
    let terracotta = find_dyed(short, "_terracotta");
    if terracotta.is_some() {
        return terracotta;
    }
    let glass = find_dyed(short, "_stained_glass");
    if glass.is_some() {
        return glass;
    }
    let pane = find_dyed(short, "_stained_glass_pane");
    if pane.is_some() {
        return pane;
    }
    let candle = find_dyed(short, "_candle");
    if candle.is_some() {
        return candle;
    }
    let bed = find_dyed(short, "_bed");
    if bed.is_some() {
        return bed;
    }
    find_dyed(short, "_shulker_box")
}

fn ends_with(s: &str, ending: &str) -> (r: bool)
    ensures
        r == ending@.is_suffix_of(s@),
{
    match without_suffix(s, ending) {
        Some(rest) => {
            assert(s@.subrange(s@.len() - ending@.len(), s@.len() as int) =~= ending@);
            true
        },
        None => false,
    }
}

fn hash_name(short: &str) -> (r: u32)
    ensures
        r == fnv(vstd::utf8::encode_utf8(short@)),
{
    let bytes = short.as_bytes();
    let mut hash: u32 = 0x811c_9dc5;
    let mut i: usize = 0;
    assert(bytes@.take(0) =~= Seq::<u8>::empty());
    while i < bytes.len()
        invariant
            i <= bytes.len(),
            hash == fnv(bytes@.take(i as int)),
        decreases bytes.len() - i,
    {
        let mixed: u32 = hash ^ bytes[i] as u32;
        proof {
            assert(bytes@.take(i + 1).drop_last() =~= bytes@.take(i as int));
            assert(bytes@.take(i + 1).last() == bytes@[i as int]);
        }
        hash = ((mixed as u64 * 0x0100_0193) % 0x1_0000_0000) as u32;
        i = i + 1;
    }
    assert(bytes@.take(i as int) =~= bytes@);
    hash
}

/// Resolve unknown colours by known-block table, dye family, then stable hash.
pub fn fallback_color(name: &str) -> (r: u32)
    ensures
        r == stand_in_color(name@),
{
    let owned = shorten(name);
    let short = owned.as_str();
    let table: u32 = find_known_color(short);
    if table != 0 {
        return table;
    }
    match find_family_color(short) {
        Some(color) => {
            return color;
        },
        None => {},
    }
    if ends_with(short, "_planks") || ends_with(short, "_log") || ends_with(short, "_wood") {
        return 0xa07a48;
    }
    if ends_with(short, "_leaves") {
        return 0x3f7a2a;
    }
    // A stable FNV-1a hash, so the same unknown block is the same colour in every
    // run and on every machine.
    let hash: u32 = hash_name(short);
    let red: u32 = 96 + hash % 128;
    let green: u32 = 96 + (hash / 256) % 128;
    let blue: u32 = 96 + (hash / 65536) % 128;
    red * 65536 + green * 256 + blue
}

/// The colour of a block of that name, which is never zero.
pub fn name_color(name: &str) -> (r: u32)
    ensures
        r == color_of(name@),
        0 < r < 0x100_0000,
{
    proof {
        lemma_color_is_visible(name@);
    }
    match baked_color(name) {
        Some(color) => {
            let found: u32 = pack(color);
            if found != 0 {
                return found;
            }
        },
        None => {},
    }
    fallback_color(name)
}

/// The colour of a block, which is never zero.
pub fn block_color(block: &BlockState) -> (r: u32)
    ensures
        r == color_of(called(*block)),
        0 < r < 0x100_0000,
{
    name_color(block_name(block))
}

/// No block is black, and every colour is one of three bytes, so zero is free to
/// stand for an empty cell.
pub proof fn lemma_color_is_visible(name: Seq<char>)
    ensures
        0 < color_of(name) < 0x100_0000,
        0 < stand_in_color(name) < 0x100_0000,
{
}

/// A block has the colour that the baked table gives it, each channel in its own byte, unless
/// that is black; a block that has none there has its stand-in colour.
pub proof fn lemma_baked_color_keeps_its_channels(name: &str, r: u32)
    requires
        call_ensures(name_color, (name,), r),
    ensures
        match baked(name@) {
            Some((red, green, blue)) => if red == 0 && green == 0 && blue == 0 {
                forall|other: u32| #[trigger] call_ensures(fallback_color, (name,), other) ==> r
                    == other
            } else {
                &&& r / 65536 == red
                &&& (r / 256) % 256 == green
                &&& r % 256 == blue
            },
            None => forall|other: u32| #[trigger]
                call_ensures(fallback_color, (name,), other) ==> r == other,
        },
{
}

/// A block's colour is that of its name.
pub proof fn lemma_block_color_goes_by_its_name(
    block: &BlockState,
    name: &str,
    r: u32,
    other: u32,
)
    requires
        call_ensures(block_color, (block,), r),
        call_ensures(name_color, (name,), other),
        name@ == called(*block),
    ensures
        r == other,
{
}

/// A colour is packed with red in the highest byte and blue in the lowest, and comes apart
/// in the same way.
pub proof fn lemma_packing_keeps_its_order(color: [u8; 3], r: u32, apart: [u8; 3])
    requires
        call_ensures(pack, (color,), r),
        call_ensures(rgb, (r,), apart),
    ensures
        r / 65536 == color@[0],
        (r / 256) % 256 == color@[1],
        r % 256 == color@[2],
        apart@ == color@,
{
    assert(apart@ =~= color@);
}

/// A channel is a blend of two: forty-five parts in a hundred of the first and fifty-five of
/// the second, cut to a whole number after it was summed.
pub open spec fn is_blend(mixed: int, block: u8, color: u8) -> bool {
    45 * block + 55 * color - 101 <= 100 * mixed <= 45 * block + 55 * color + 1
}

/// A tinted channel is a blend of the block's and the category's.
pub proof fn lemma_tinted_is_a_blend(block: u8, color: u8)
    ensures
        is_blend(tinted(block, color) as int, block, color),
{
    let a = (block * 7549747) as nat;
    let b = (color * 9227469) as nat;
    lemma_256_is_power();
    lemma_tint_parts(block, color);
    lemma_single_is_near(a, 256);
    lemma_single_is_near(b, 256);
    lemma_single_is_near(single(a) + single(b), 256);
}

/// A tint blends each channel of the block with the same channel of the category, a little
/// more of the category than of the block.
pub proof fn lemma_tint_is_a_blend(block: [u8; 3], color: [u8; 3], r: [u8; 3])
    requires
        call_ensures(tint, (block, color), r),
    ensures
        forall|i: int| 0 <= i < 3 ==> is_blend(#[trigger] r@[i] as int, block@[i], color@[i]),
{
    assert forall|i: int| 0 <= i < 3 implies is_blend(
        #[trigger] r@[i] as int,
        block@[i],
        color@[i],
    ) by {
        lemma_tinted_is_a_blend(block@[i], color@[i]);
        assert(i == 0 || i == 1 || i == 2);
    }
}

/// The air that is not drawn is of three kinds, in the game's own namespace or none, and
/// nothing else is air.
#[verifier::rlimit(60)]
pub proof fn lemma_air_has_three_names(name: &str, r: bool)
    requires
        call_ensures(is_air_name, (name,), r),
    ensures
        r <==> name@ == "air"@ || name@ == "cave_air"@ || name@ == "void_air"@ || name@
            == "minecraft:"@ + "air"@ || name@ == "minecraft:"@ + "cave_air"@ || name@
            == "minecraft:"@ + "void_air"@,
{
    reveal_strlit("minecraft:");
    reveal_strlit("air");
    reveal_strlit("cave_air");
    reveal_strlit("void_air");
    let prefix = "minecraft:"@;
    if prefix.is_prefix_of(name@) {
        assert(name@ =~= prefix + name@.skip(prefix.len() as int));
        assert(name@[0] == 'm');
    }
    assert forall|word: Seq<char>| name@ == #[trigger] (prefix + word) implies short_name(name@)
        == word by {
        assert(name@.subrange(0, prefix.len() as int) =~= prefix);
        assert(name@.skip(prefix.len() as int) =~= word);
    }
    if name@ == "air"@ || name@ == "cave_air"@ || name@ == "void_air"@ {
        assert(!prefix.is_prefix_of(name@)) by {
            if prefix.is_prefix_of(name@) {
                assert(name@.subrange(0, prefix.len() as int)[0] == 'm');
            }
        }
    }
}

/// A block that stands in no table, and is of no family and no wood, has a colour from the
/// hash of its name without the game's own namespace: red from the lowest of its bytes, green
/// from the next, blue from the third, each moved to the middle range.
pub proof fn lemma_unknown_block_is_hashed(name: &str, r: u32)
    requires
        call_ensures(fallback_color, (name,), r),
        known_color(short_name(name@)) == 0,
        family_color(short_name(name@)) is None,
        !"_planks"@.is_suffix_of(short_name(name@)),
        !"_log"@.is_suffix_of(short_name(name@)),
        !"_wood"@.is_suffix_of(short_name(name@)),
        !"_leaves"@.is_suffix_of(short_name(name@)),
    ensures
        ({
            let hash = fnv(vstd::utf8::encode_utf8(short_name(name@))) as int;
            &&& r / 65536 == 96 + hash % 128
            &&& (r / 256) % 256 == 96 + (hash / 256) % 128
            &&& r % 256 == 96 + (hash / 65536) % 128
        }),
{
}

/// An ending is that of one of the dyed families.
pub open spec fn is_dyed_ending(ending: Seq<char>) -> bool {
    ending == "_concrete"@ || ending == "_wool"@ || ending == "_terracotta"@ || ending
        == "_stained_glass"@ || ending == "_stained_glass_pane"@ || ending == "_candle"@ || ending
        == "_bed"@ || ending == "_shulker_box"@
}

/// No name has the endings of two families.
proof fn lemma_one_ending(short: Seq<char>, a: Seq<char>, b: Seq<char>)
    requires
        is_dyed_ending(a),
        is_dyed_ending(b),
        a.is_suffix_of(short),
        b.is_suffix_of(short),
    ensures
        a == b,
{
    reveal_strlit("_concrete");
    reveal_strlit("_wool");
    reveal_strlit("_terracotta");
    reveal_strlit("_stained_glass");
    reveal_strlit("_stained_glass_pane");
    reveal_strlit("_candle");
    reveal_strlit("_bed");
    reveal_strlit("_shulker_box");
    let n = short.len() as int;
    assert(short.subrange(n - a.len(), n)[a.len() - 1] == short[n - 1]);
    assert(short.subrange(n - a.len(), n)[a.len() - 2] == short[n - 2]);
    assert(short.subrange(n - b.len(), n)[b.len() - 1] == short[n - 1]);
    assert(short.subrange(n - b.len(), n)[b.len() - 2] == short[n - 2]);
    assert(a[a.len() - 1] == b[b.len() - 1]);
    assert(a[a.len() - 2] == b[b.len() - 2]);
}

/// A dyed block has the colour of its dye, whichever family it is of, unless it stands in the
/// table of well-known blocks.
#[verifier::rlimit(60)]
pub proof fn lemma_dyed_block_has_its_dye(
    name: &str,
    word: &str,
    ending: Seq<char>,
    r: u32,
    color: Option<u32>,
)
    requires
        call_ensures(fallback_color, (name,), r),
        call_ensures(dye_color, (word,), color),
        color is Some,
        is_dyed_ending(ending),
        name@ == "minecraft:"@ + (word@ + ending),
        known_color(word@ + ending) == 0,
    ensures
        r == color->0,
{
    let short = word@ + ending;
    let prefix = "minecraft:"@;
    assert(name@.subrange(0, prefix.len() as int) =~= prefix);
    assert(name@.skip(prefix.len() as int) =~= short);
    assert(short.subrange(short.len() - ending.len(), short.len() as int) =~= ending);
    assert(ending.is_suffix_of(short));
    assert(short.take(short.len() - ending.len()) =~= word@);
    assert(dyed(short, ending) == color);
    assert forall|other: Seq<char>| is_dyed_ending(other) && #[trigger] dyed(short, other)
        is Some implies other == ending by {
        lemma_one_ending(short, other, ending);
    }
}

/// The game's own namespace does not change a stand-in colour.
pub proof fn lemma_namespace_does_not_matter(short: Seq<char>)
    requires
        !"minecraft:"@.is_prefix_of(short),
    ensures
        stand_in_color("minecraft:"@ + short) == stand_in_color(short),
        air("minecraft:"@ + short) == air(short),
{
    let long = "minecraft:"@ + short;
    assert(long.take("minecraft:"@.len() as int) =~= "minecraft:"@);
    assert(long.skip("minecraft:"@.len() as int) =~= short);
}

/// A block that stands in no table and is of no dyed family, but of wood or leaves by its
/// ending, is brown or green: planks, logs and wood alike, and leaves with more green than
/// red or blue.
pub proof fn lemma_wood_and_leaves_have_their_colors(
    log: &str,
    planks: &str,
    leaves: &str,
    a: u32,
    b: u32,
    c: u32,
)
    requires
        call_ensures(fallback_color, (log,), a),
        call_ensures(fallback_color, (planks,), b),
        call_ensures(fallback_color, (leaves,), c),
        known_color(short_name(log@)) == 0,
        known_color(short_name(planks@)) == 0,
        known_color(short_name(leaves@)) == 0,
        family_color(short_name(log@)) is None,
        family_color(short_name(planks@)) is None,
        family_color(short_name(leaves@)) is None,
        "_log"@.is_suffix_of(short_name(log@)) || "_wood"@.is_suffix_of(short_name(log@)),
        "_planks"@.is_suffix_of(short_name(planks@)),
        "_leaves"@.is_suffix_of(short_name(leaves@)),
    ensures
        a == b,
        a / 65536 > (a / 256) % 256 > a % 256,
        (c / 256) % 256 > c / 65536,
        (c / 256) % 256 > c % 256,
{
    let short = short_name(leaves@);
    reveal_strlit("_leaves");
    reveal_strlit("_planks");
    reveal_strlit("_log");
    reveal_strlit("_wood");
    let n = short.len() as int;
    assert(short.subrange(n - 7, n)[6] == short[n - 1]);
    assert(short.subrange(n - 7, n)[5] == short[n - 2]);
    assert(short[n - 1] == 's' && short[n - 2] == 'e');
    if "_planks"@.is_suffix_of(short) {
        assert(short.subrange(n - 7, n)[5] == 'k');
    }
    if "_log"@.is_suffix_of(short) {
        assert(short.subrange(n - 4, n)[3] == 'g');
    }
    if "_wood"@.is_suffix_of(short) {
        assert(short.subrange(n - 5, n)[4] == 'd');
    }
}

/// A packed colour has so much of red, of green and of blue.
pub open spec fn reds(color: Option<u32>) -> int {
    color->0 as int / 65536
}

/// How much green a packed colour has.
pub open spec fn greens(color: Option<u32>) -> int {
    (color->0 as int / 256) % 256
}

/// How much blue a packed colour has.
pub open spec fn blues(color: Option<u32>) -> int {
    color->0 as int % 256
}

/// A dye has the hue that its name says: in red, green and blue that channel is the strongest,
/// in yellow, cyan and magenta the other two are, and so on; white, the greys and black are
/// nearly even, each darker than the one before; and what is called light is the lighter.
#[verifier::rlimit(60)]
pub proof fn lemma_dyes_have_their_hues(
    red: Option<u32>,
    green: Option<u32>,
    blue: Option<u32>,
    yellow: Option<u32>,
    cyan: Option<u32>,
    magenta: Option<u32>,
    orange: Option<u32>,
    purple: Option<u32>,
    pink: Option<u32>,
    lime: Option<u32>,
    light_blue: Option<u32>,
    brown: Option<u32>,
    white: Option<u32>,
    light_gray: Option<u32>,
    gray: Option<u32>,
    black: Option<u32>,
)
    requires
        call_ensures(dye_color, ("red",), red),
        call_ensures(dye_color, ("green",), green),
        call_ensures(dye_color, ("blue",), blue),
        call_ensures(dye_color, ("yellow",), yellow),
        call_ensures(dye_color, ("cyan",), cyan),
        call_ensures(dye_color, ("magenta",), magenta),
        call_ensures(dye_color, ("orange",), orange),
        call_ensures(dye_color, ("purple",), purple),
        call_ensures(dye_color, ("pink",), pink),
        call_ensures(dye_color, ("lime",), lime),
        call_ensures(dye_color, ("light_blue",), light_blue),
        call_ensures(dye_color, ("brown",), brown),
        call_ensures(dye_color, ("white",), white),
        call_ensures(dye_color, ("light_gray",), light_gray),
        call_ensures(dye_color, ("gray",), gray),
        call_ensures(dye_color, ("black",), black),
    ensures
        reds(red) > 2 * greens(red) && reds(red) > 2 * blues(red),
        greens(green) > reds(green) > blues(green),
        blues(blue) > 2 * reds(blue) && blues(blue) > 2 * greens(blue),
        reds(yellow) >= greens(yellow) > 2 * blues(yellow),
        blues(cyan) >= greens(cyan) > 2 * reds(cyan),
        reds(magenta) >= blues(magenta) > 2 * greens(magenta),
        reds(orange) > greens(orange) > blues(orange),
        blues(purple) > reds(purple) > greens(purple),
        reds(pink) > reds(red) && greens(pink) > greens(red) && blues(pink) > blues(red),
        reds(pink) > blues(pink) > greens(pink),
        greens(lime) > greens(green) && greens(lime) > reds(lime) > blues(lime),
        reds(light_blue) > reds(blue) && greens(light_blue) > greens(blue) && blues(light_blue)
            > blues(blue),
        blues(light_blue) > greens(light_blue) > reds(light_blue),
        reds(orange) > reds(brown) > greens(brown) > blues(brown),
        reds(white) >= 220 && greens(white) >= 220 && blues(white) >= 220,
        220 > reds(light_gray) && reds(light_gray) > reds(gray) + 16 && reds(gray) > reds(black)
            + 16,
        220 > greens(light_gray) && greens(light_gray) > greens(gray) + 16 && greens(gray)
            > greens(black) + 16,
        220 > blues(light_gray) && blues(light_gray) > blues(gray) + 16 && blues(gray) > blues(
            black,
        ) + 16,
{
    reveal_strlit("white");
    reveal_strlit("orange");
    reveal_strlit("magenta");
    reveal_strlit("light_blue");
    reveal_strlit("yellow");
    reveal_strlit("lime");
    reveal_strlit("pink");
    reveal_strlit("gray");
    reveal_strlit("light_gray");
    reveal_strlit("cyan");
    reveal_strlit("purple");
    reveal_strlit("blue");
    reveal_strlit("brown");
    reveal_strlit("green");
    reveal_strlit("red");
    reveal_strlit("black");
    assert("lime"@[0] == 'l' && "lime"@.len() == 4);
    assert("red"@[0] == 'r' && "red"@.len() == 3);
    assert("yellow"@[0] == 'y' && "yellow"@.len() == 6);
    assert("light_blue"@[6] == 'b' && "light_blue"@.len() == 10);
    assert("light_gray"@[6] == 'g' && "light_gray"@.len() == 10);
    assert("pink"@[0] == 'p' && "orange"@[0] == 'o' && "purple"@[0] == 'p');
    assert("gray"@[0] == 'g' && "cyan"@[0] == 'c' && "blue"@[0] == 'b');
    assert("white"@[0] == 'w' && "brown"@[1] == 'r' && "green"@[0] == 'g' && "black"@[1] == 'l');
    assert("brown"@[0] == 'b' && "black"@[0] == 'b' && "magenta"@.len() == 7);
    assert("purple"@[1] == 'u' && "purple"@.len() == 6 && "orange"@.len() == 6);
    assert("purple"@ != "orange"@ && "purple"@ != "yellow"@ && "purple"@ != "magenta"@);
    assert(purple == Some(0x792aacu32));
    assert("green"@.len() == 5 && "lime"@.len() == 4 && "pink"@.len() == 4 && "blue"@.len() == 4);
    assert("gray"@.len() == 4 && "cyan"@.len() == 4);
    assert("green"@[0] != "white"@[0]);
    assert("green"@[0] != "brown"@[0]);
    assert("green"@ != "white"@ && "green"@ != "brown"@);
    assert(green == Some(0x546d1bu32));
}

/// A colour of the table of well-known blocks is that of the blocks it was given to and of no
/// others: stone is a light grey, water blue, lava orange, and so on; and the table has no
/// other colours.
pub proof fn lemma_known_colors_name_their_blocks(short: Seq<char>, color: u32)
    requires
        color == known_color(short),
    ensures
        color == 0x8f8f8f ==> short == "stone"@
            || short == "smooth_stone"@
            || short == "cobblestone"@
            || short == "stone_bricks"@,
        color == 0x888a85 ==> short == "andesite"@ || short == "polished_andesite"@,
        color == 0x9f6b58 ==> short == "granite"@,
        color == 0xc9c9c6 ==> short == "diorite"@,
        color == 0x4d4d51 ==> short == "deepslate"@ || short == "cobbled_deepslate"@,
        color == 0x1b1226 ==> short == "obsidian"@ || short == "crying_obsidian"@,
        color == 0x3a3a3a ==> short == "bedrock"@,
        color == 0x8a5a3b ==> short == "dirt"@ || short == "rooted_dirt"@,
        color == 0x5f9e3a ==> short == "grass_block"@ || short == "grass"@,
        color == 0xdbcf9c ==> short == "sand"@,
        color == 0x7f7c78 ==> short == "gravel"@,
        color == 0x3b6ecf ==> short == "water"@,
        color == 0xe06a10 ==> short == "lava"@,
        color == 0xa5c8f0 ==> short == "ice"@ || short == "packed_ice"@ || short == "blue_ice"@ || short == "frosted_ice"@,
        color == 0xd8f0f2 ==> short == "glass"@ || short == "tinted_glass"@,
        color == 0x6fd66a ==> short == "slime_block"@,
        color == 0xe8a933 ==> short == "honey_block"@,
        color == 0xc23b2a ==> short == "tnt"@,
        color == 0xb01e0e ==> short == "redstone_block"@,
        color == 0x8f1010 ==> short == "redstone_wire"@,
        color == 0xd94a2a ==> short == "redstone_torch"@ || short == "redstone_wall_torch"@,
        color == 0xb9b0a8 ==> short == "repeater"@ || short == "comparator"@,
        color == 0x5f5c58 ==> short == "observer"@,
        color == 0x9a8054 ==> short == "piston"@ || short == "sticky_piston"@,
        color == 0xb08d5a ==> short == "piston_head"@ || short == "moving_piston"@,
        color == 0x4a4a4a ==> short == "hopper"@ || short == "cauldron"@,
        color == 0x9a6b2f ==> short == "chest"@ || short == "trapped_chest"@ || short == "barrel"@,
        color == 0x6f6f6f ==> short == "dropper"@
            || short == "dispenser"@
            || short == "furnace"@
            || short == "furnace_minecart"@
            || short == "minecart"@,
        color == 0x8a7a5a ==> short == "lever"@ || short == "tripwire_hook"@,
        color == 0x99856a ==> short == "rail"@
            || short == "powered_rail"@
            || short == "activator_rail"@
            || short == "detector_rail"@,
        color == 0xd8d8d8 ==> short == "iron_block"@,
        color == 0xf0d24a ==> short == "gold_block"@,
        color == 0x62e6d8 ==> short == "diamond_block"@,
        color == 0x35c65a ==> short == "emerald_block"@,
        color == 0xe8e2d8 ==> short == "quartz_block"@ || short == "smooth_quartz"@,
        color == 0xf0c86a ==> short == "glowstone"@ || short == "shroomlight"@ || short == "sea_lantern"@,
        color == 0x7a3230 ==> short == "netherrack"@,
        color == 0x5a4636 ==> short == "soul_sand"@ || short == "soul_soil"@,
        color == 0xf4f8fa ==> short == "snow"@ || short == "snow_block"@ || short == "powder_snow"@,
        color == 0x0e2129 ==> short == "sculk"@,
        color == 0x6a6258 ==> short == "stonecutter"@ || short == "smithing_table"@,
        color == 0x8a5a30 ==> short == "crafting_table"@,
        color == 0
            || color == 0x8f8f8f || color == 0x888a85 || color == 0x9f6b58 || color == 0xc9c9c6
            || color == 0x4d4d51 || color == 0x1b1226 || color == 0x3a3a3a || color == 0x8a5a3b
            || color == 0x5f9e3a || color == 0xdbcf9c || color == 0x7f7c78 || color == 0x3b6ecf
            || color == 0xe06a10 || color == 0xa5c8f0 || color == 0xd8f0f2 || color == 0x6fd66a
            || color == 0xe8a933 || color == 0xc23b2a || color == 0xb01e0e || color == 0x8f1010
            || color == 0xd94a2a || color == 0xb9b0a8 || color == 0x5f5c58 || color == 0x9a8054
            || color == 0xb08d5a || color == 0x4a4a4a || color == 0x9a6b2f || color == 0x6f6f6f
            || color == 0x8a7a5a || color == 0x99856a || color == 0xd8d8d8 || color == 0xf0d24a
            || color == 0x62e6d8 || color == 0x35c65a || color == 0xe8e2d8 || color == 0xf0c86a
            || color == 0x7a3230 || color == 0x5a4636 || color == 0xf4f8fa || color == 0x0e2129
            || color == 0x6a6258 || color == 0x8a5a30,
{
}

/// The table of well-known blocks goes before anything else that a name says.
pub proof fn lemma_table_goes_first(name: &str, r: u32)
    requires
        call_ensures(fallback_color, (name,), r),
        known_color(short_name(name@)) != 0,
    ensures
        r == known_color(short_name(name@)),
{
}

/// The hash of a name starts from one number and takes in each of its bytes in turn: the byte
/// is laid over the hash so far, and the result is multiplied, within 32 bits.
pub proof fn lemma_hash_takes_in_byte_by_byte(bytes: Seq<u8>, byte: u8)
    ensures
        fnv(Seq::<u8>::empty()) == 2166136261,
        fnv(bytes.push(byte)) as int == ((fnv(bytes) ^ (byte as u32)) * 16777619)
            % 4294967296,
{
    assert(bytes.push(byte).drop_last() =~= bytes);
}

} // verus!
