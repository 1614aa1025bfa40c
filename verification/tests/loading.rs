use std::io::Write;

use flate2::write::GzEncoder;
use flate2::Compression;
use nucleation::formats::snapshot::to_snapshot;
use nucleation::formats::structure_snbt::to_structure_snbt;
use nucleation::{BlockState, UniversalSchematic};
use quartz_nbt::io::{read_nbt, write_nbt, Flavor};
use quartz_nbt::{NbtCompound, NbtList, NbtTag};
use schematic_diff::format::{load_bytes, tests_digestible, Loaded};
use schematic_diff::snapshot::tests_tame_snapshot;
use schematic_diff::snbt::tests_calm;

const REFUSED: &str = "x could not be read: its numbers or its nesting are out of range";

fn words(result: Result<Loaded, schematic_diff::error::Error>) -> String {
    match result {
        Ok(_) => panic!("it loaded"),
        Err(error) => error.to_text(),
    }
}

fn sample() -> UniversalSchematic {
    let mut build = UniversalSchematic::new("given".to_string());
    build.set_block(0, 0, 0, &BlockState::new("minecraft:stone"));
    build.set_block(1, 2, 3, &BlockState::new("minecraft:oak_log").with_property("axis", "x"));
    build
}

fn gzip(bytes: &[u8]) -> Vec<u8> {
    let mut encoder = GzEncoder::new(Vec::new(), Compression::default());
    encoder.write_all(bytes).unwrap();
    encoder.finish().unwrap()
}

fn unpack(bytes: &[u8]) -> (NbtCompound, String) {
    read_nbt(&mut std::io::Cursor::new(bytes), Flavor::GzCompressed).unwrap()
}

fn repack(root: &NbtCompound, name: &str) -> Vec<u8> {
    let mut out = Vec::new();
    write_nbt(&mut out, Some(name), root, Flavor::Uncompressed).unwrap();
    gzip(&out)
}

/// A litematic whose one region was changed.
fn litematic(change: &dyn Fn(&mut NbtCompound)) -> Vec<u8> {
    let (mut root, name) = unpack(&nucleation::litematic::to_litematic(&sample()).unwrap());
    let mut regions = root.get::<_, &NbtCompound>("Regions").unwrap().clone();
    for tag in regions.inner_mut().values_mut() {
        if let NbtTag::Compound(region) = tag {
            change(region);
        }
    }
    root.insert("Regions", regions);
    repack(&root, &name)
}

fn triple(x: i32, y: i32, z: i32) -> NbtCompound {
    let mut compound = NbtCompound::new();
    compound.insert("x", x);
    compound.insert("y", y);
    compound.insert("z", z);
    compound
}

fn tile(x: i32) -> NbtCompound {
    let mut compound = triple(x, 0, 0);
    compound.insert("id", "minecraft:chest");
    compound
}

#[test]
fn every_format_still_loads() {
    let build = sample();
    let snbt = to_structure_snbt(&build).unwrap();
    let files = [
        ("litematic", nucleation::litematic::to_litematic(&build).unwrap()),
        ("schematic", nucleation::schematic::to_schematic(&build).unwrap()),
        ("snapshot", to_snapshot(&build).unwrap()),
        ("structure_snbt", snbt),
    ];
    for (format, bytes) in files {
        assert!(tests_digestible(&bytes), "{format}");
        let loaded = load_bytes(&bytes, "x").unwrap();
        assert_eq!(loaded.format, format);
        let blocks = loaded
            .schematic
            .iter_blocks()
            .filter(|(_, block)| block.get_name() != "minecraft:air")
            .count();
        assert_eq!(blocks, 2, "{format}");
    }
}

#[test]
fn a_region_beyond_the_coordinates_is_refused() {
    let moved = |x: i32| litematic(&|region| region.insert("Position", triple(x, 0, 0)));
    assert!(load_bytes(&moved(1_000_000), "x").is_ok());
    assert!(load_bytes(&moved(-1_000_000), "x").is_ok());
    assert!(tests_digestible(&moved(2_080_342_015)));
    for x in [2_080_342_016, i32::MAX, i32::MIN] {
        assert_eq!(words(load_bytes(&moved(x), "x")), REFUSED);
    }
}

#[test]
fn a_block_entity_beyond_the_coordinates_is_refused() {
    let with = |tile: NbtCompound| {
        litematic(&|region| {
            let tiles = NbtList::from(vec![NbtTag::Compound(tile.clone())]);
            region.insert("TileEntities", NbtTag::List(tiles));
        })
    };
    assert!(load_bytes(&with(tile(0)), "x").is_ok());
    assert!(tests_digestible(&with(tile(0x400_0000))));
    for x in [0x400_0001, i32::MAX, i32::MIN] {
        assert_eq!(words(load_bytes(&with(tile(x)), "x")), REFUSED);
    }
    let mut positioned = NbtCompound::new();
    positioned.insert("Id", "minecraft:chest");
    positioned.insert("Pos", NbtTag::IntArray(vec![0, i32::MAX, 0]));
    assert_eq!(words(load_bytes(&with(positioned), "x")), REFUSED);
}

#[test]
fn a_palette_with_an_impossible_end_is_refused() {
    let build = sample();
    let version = nucleation::schematic::SchematicVersion::V2;
    let bytes = nucleation::schematic::to_schematic_version(&build, version).unwrap();
    assert!(load_bytes(&bytes, "x").is_ok());
    let (root, name) = unpack(&bytes);
    let ending = |end: i32| {
        let mut root = root.clone();
        let schematic: &mut NbtCompound = match root.inner().contains_key("Schematic") {
            true => root.get_mut::<_, &mut NbtCompound>("Schematic").unwrap(),
            false => &mut root,
        };
        assert!(schematic.inner().contains_key("PaletteMax"));
        schematic.insert("PaletteMax", end);
        repack(&root, &name)
    };
    assert!(load_bytes(&ending(100), "x").is_ok());
    for end in [-1, i32::MIN, 1_048_577, i32::MAX] {
        assert_eq!(words(load_bytes(&ending(end), "x")), REFUSED);
    }
}

#[test]
fn a_structure_with_impossible_numbers_is_still_a_structure() {
    let (mut root, name) = (NbtCompound::new(), "");
    root.insert("size", NbtTag::IntArray(vec![1, 1, 1]));
    root.insert("palette", NbtTag::List(NbtList::new()));
    root.insert("blocks", NbtTag::List(NbtList::new()));
    root.insert("PaletteMax", -1i32);
    let bytes = repack(&root, name);
    assert!(!tests_digestible(&bytes));
    assert_eq!(load_bytes(&bytes, "x").unwrap().format, "nbt (structure)");
}

#[test]
fn brackets_are_followed_in_order() {
    for text in [
        "{}",
        "{a:1}",
        "{a:{b:[1,2],\"c\":'d'},}",
        "{a:[I;1,2,3]}",
        "{a: [ {b:1} , {c:2} ] }",
        "{'a{[':\"}]\\\"{\"}",
        "{a:[\"\\\u{e9}\"]}",
        "plain text { \\",
        "  \n",
        "",
        "{a:]",
    ] {
        assert!(tests_calm(text.as_bytes()), "{text}");
    }
    for text in [
        "{a:b{c:1}}",
        "{a:1\"}",
        "{a:b\\c}",
        "{\"\\\u{20ac}\":1}",
        "'\\\u{20ac}'",
        "{a:1]",
        "{a:[1}",
        "{a}",
    ] {
        assert!(!tests_calm(text.as_bytes()), "{text}");
        assert_eq!(words(load_bytes(text.as_bytes(), "x")), REFUSED);
    }
}

#[test]
fn deep_brackets_are_turned_down_by_the_reader() {
    let nested = |depth: usize| format!("{{a:{}{}}}", "[".repeat(depth), "]".repeat(depth));
    for depth in [63, 64, 100_000] {
        let text = nested(depth);
        assert!(tests_calm(text.as_bytes()));
        let told = words(load_bytes(text.as_bytes(), "x"));
        assert!(told.starts_with("x could not be read: ") && told != REFUSED);
    }
}

fn text(out: &mut Vec<u8>, words: &str) {
    out.extend_from_slice(&(words.len() as u64).to_le_bytes());
    out.extend_from_slice(words.as_bytes());
}

/// A snapshot of one region that is all stone.
fn snapshot(version: u32, corner: [i32; 3], size: [i32; 3], cells: u64) -> Vec<u8> {
    let none = 0u64.to_le_bytes();
    let mut out = b"NUSN".to_vec();
    out.extend_from_slice(&version.to_le_bytes());
    let notes = [8, 9, 10, 10][version as usize - 1];
    out.extend(std::iter::repeat(0u8).take(notes));
    if version == 4 {
        text(&mut out, "Main");
    }
    text(&mut out, "Main");
    for axis in corner.iter().chain(&size) {
        out.extend_from_slice(&axis.to_le_bytes());
    }
    if version < 4 {
        out.extend_from_slice(&cells.to_le_bytes());
        out.extend(std::iter::repeat(0u8).take(8 * cells as usize));
    }
    out.extend_from_slice(&1u64.to_le_bytes());
    text(&mut out, "minecraft:stone");
    out.extend_from_slice(&none);
    if version == 4 {
        out.extend_from_slice(&none);
    }
    out.extend_from_slice(&none);
    out.extend_from_slice(&none);
    out.extend_from_slice(&none);
    if version < 4 {
        text(&mut out, "Main");
    }
    out.extend_from_slice(&none);
    out
}

#[test]
fn a_snapshot_is_followed_to_its_end() {
    for version in 1..=3 {
        let bytes = snapshot(version, [5, 6, 7], [2, 1, 1], 2);
        let loaded = load_bytes(&bytes, "x").unwrap();
        assert_eq!(loaded.format, "snapshot");
        assert_eq!(loaded.schematic.iter_blocks().count(), 2);
        // Cut short, it is refused by its reader.
        for end in 8..bytes.len() {
            assert!(tests_tame_snapshot(&bytes[..end]));
            assert_ne!(words(load_bytes(&bytes[..end], "x")), REFUSED);
        }
    }
}

#[test]
fn a_snapshot_of_a_region_out_of_range_is_refused() {
    for version in 1..=3 {
        for size in [[i32::MIN, 1, 1], [1, i32::MAX, 1], [1, 1, 1]] {
            let tame = size[0] != i32::MIN;
            assert_eq!(tests_tame_snapshot(&snapshot(version, [0; 3], size, 1)), tame);
        }
        let huge = snapshot(version, [0; 3], [i32::MAX; 3], 1);
        assert_eq!(words(load_bytes(&huge, "x")), REFUSED);
        let edge = snapshot(version, [i32::MAX, 0, 0], [2, 1, 1], 2);
        assert_ne!(words(load_bytes(&edge, "x")), REFUSED);
    }
    for (corner, size) in [
        ([i32::MAX, 0, 0], [2, 1, 1]),
        ([0, 0, 0], [0, 1, 1]),
        ([0, 0, 5], [1, 1, i32::MAX]),
        ([0, 0, 0], [i32::MAX, i32::MAX, i32::MAX]),
    ] {
        assert_eq!(words(load_bytes(&snapshot(4, corner, size, 0), "x")), REFUSED);
    }
    let backwards = snapshot(4, [0, 0, 0], [-1, 1, 1], 0);
    assert_ne!(words(load_bytes(&backwards, "x")), REFUSED);
}

#[test]
fn a_snapshot_that_nests_without_end_is_refused() {
    // A block entity whose one field is a list of a list of a list.
    let nested = |depth: usize| {
        let mut out = snapshot(1, [0; 3], [1, 1, 1], 1);
        let tail = 8 + 12 + 8;
        out.truncate(out.len() - tail - 8);
        out.extend_from_slice(&1u64.to_le_bytes());
        out.extend_from_slice(&1u64.to_le_bytes());
        text(&mut out, "a");
        for _ in 0..depth {
            out.extend_from_slice(&8u32.to_le_bytes());
            out.extend_from_slice(&1u64.to_le_bytes());
        }
        out.extend_from_slice(&0u32.to_le_bytes());
        out.push(7);
        out
    };
    assert!(tests_tame_snapshot(&nested(1)));
    assert!(tests_tame_snapshot(&nested(500)));
    assert!(!tests_tame_snapshot(&nested(100_000)));
    assert_eq!(words(load_bytes(&nested(100_000), "x")), REFUSED);
}
