use nucleation::BlockState;
use schematic_diff::color::{
    block_color, dim, dye_color, fallback_color, is_air, is_air_name, name_color, pack, rgb, tint,
};

#[test]
fn channels_pack_and_come_back() {
    assert_eq!(rgb(0x70_B9_19), [0x70, 0xB9, 0x19]);
    assert_eq!(rgb(0xff_70_B9_19), [0x70, 0xB9, 0x19]);
    assert_eq!(pack([1, 2, 3]), 0x01_02_03);
    for color in [0, 1, 0x12_34_56, 0xff_ff_ff] {
        assert_eq!(pack(rgb(color)), color);
    }
}

#[test]
fn a_tint_is_the_weighted_sum_in_single_precision() {
    const WEIGHT: f32 = 0.55;
    for block in 0..=255u8 {
        for color in 0..=255u8 {
            let sum = f32::from(block) * (1.0 - WEIGHT) + f32::from(color) * WEIGHT;
            let expected = sum.clamp(0.0, 255.0) as u8;
            assert_eq!(tint([block; 3], [color; 3]), [expected; 3]);
        }
    }
    assert_eq!(tint([200, 100, 0], [0, 100, 200]), [90, 100, 110]);
}

#[test]
fn only_the_kinds_of_air_are_air() {
    for name in ["minecraft:air", "air", "minecraft:cave_air", "void_air"] {
        assert!(is_air_name(name));
    }
    for name in ["minecraft:stone", "modded:air", "minecraft:minecraft:air", "", "airy"] {
        assert!(!is_air_name(name));
    }
}

#[test]
fn stand_in_colours() {
    assert_eq!(fallback_color("minecraft:stone"), 0x8f8f8f);
    assert_eq!(fallback_color("stone"), 0x8f8f8f);
    assert_eq!(fallback_color("sculk"), 0x0e2129);
    assert_eq!(fallback_color("minecart"), 0x6f6f6f);
    assert_eq!(fallback_color("minecraft:red_wool"), 0xa12722);
    assert_eq!(fallback_color("light_blue_stained_glass_pane"), 0x3aafd9);
    assert_eq!(fallback_color("black_shulker_box"), 0x141519);
    assert_eq!(fallback_color("oak_planks"), 0xa07a48);
    assert_eq!(fallback_color("birch_log"), 0xa07a48);
    assert_eq!(fallback_color("azalea_leaves"), 0x3f7a2a);
    assert_eq!(dye_color("magenta"), Some(0xbd44b3));
    assert_eq!(dye_color("mauve"), None);
}

#[test]
fn an_unknown_block_is_coloured_by_its_hash() {
    for name in ["thing", "modded:mauve_wool", "é"] {
        let mut hash: u32 = 0x811c_9dc5;
        for byte in name.bytes() {
            hash ^= u32::from(byte);
            hash = hash.wrapping_mul(0x0100_0193);
        }
        let red = 96 + (hash & 0x7f);
        let green = 96 + ((hash >> 8) & 0x7f);
        let blue = 96 + ((hash >> 16) & 0x7f);
        assert_eq!(fallback_color(name), (red << 16) | (green << 8) | blue);
    }
    assert_eq!(fallback_color("minecraft:thing"), fallback_color("thing"));
}

#[test]
fn the_baked_table_comes_first() {
    let facts = nucleation::blockpedia::BLOCKS.get("minecraft:stone").unwrap();
    let [r, g, b] = facts.extras.color.as_ref().unwrap().rgb;
    let baked = (u32::from(r) << 16) | (u32::from(g) << 8) | u32::from(b);
    assert_eq!(name_color("minecraft:stone"), baked);
    assert_eq!(name_color("modded:thing"), fallback_color("modded:thing"));
    for (name, _) in nucleation::blockpedia::BLOCKS.entries() {
        assert_ne!(name_color(name), 0);
    }
}

#[test]
fn light_dims_a_colour() {
    assert_eq!(dim([200, 100, 0], [0.5f32.to_bits(); 3]), [100, 50, 0]);
    assert_eq!(dim([255, 255, 255], [1.0f32.to_bits(), 0.82f32.to_bits(), 0]), [255, 209, 0]);
    let said = |channel: u8, level: f32| (f32::from(channel) * level).clamp(0.0, 255.0) as u8;
    let mut bits: u32 = 0x1234_5678;
    for round in 0..60_000u32 {
        bits = bits.wrapping_mul(1_664_525).wrapping_add(1_013_904_223);
        let level = if round % 2 == 0 { bits } else { 0x3c00_0000 + bits % 0x0600_0000 };
        let channel = (round % 256) as u8;
        let lit = dim([channel; 3], [level; 3]);
        assert_eq!(lit, [said(channel, f32::from_bits(level)); 3]);
    }
    for level in [f32::NAN, f32::INFINITY, f32::NEG_INFINITY, -0.5, -0.0, f32::MAX, 1.0e-40] {
        assert_eq!(dim([0, 7, 255], [level.to_bits(); 3]), [0, 7, 255].map(|c| said(c, level)));
    }
}

#[test]
fn a_block_goes_by_its_name() {
    let stone = BlockState::new("minecraft:stone");
    assert!(!is_air(&stone));
    assert_eq!(block_color(&stone), name_color("minecraft:stone"));
    assert!(is_air(&BlockState::new("minecraft:cave_air")));
    let odd = BlockState::new("mod:odd_block").with_property("lit", "true");
    assert_eq!(block_color(&odd), fallback_color("mod:odd_block"));
}

#[test]
fn unknown_blocks_are_neither_black_nor_blown_out() {
    for name in ["mod:a", "mod:b", "x", "minecraft:no_such_block", ""] {
        for channel in rgb(fallback_color(name)) {
            assert!((96..=223).contains(&channel));
        }
    }
}
