use std::io::Write;

use flate2::write::GzEncoder;
use flate2::Compression;
use nucleation::UniversalSchematic;
use quartz_nbt::io::{write_nbt, Flavor};
use quartz_nbt::{NbtCompound, NbtList, NbtTag};
use schematic_diff::format::{
    is_binary_structure, load_bytes, load_structure_nbt, maybe_gunzip, read_structure,
    settle_reading, settle_structure, triple, Loaded, MAX_DECOMPRESSED_BYTES,
};
use schematic_diff::nbt::is_framed;
use schematic_diff::palette::read_palette;

fn ints(values: &[i32]) -> NbtTag {
    NbtTag::List(NbtList::from(values.to_vec()))
}

fn list(tags: Vec<NbtTag>) -> NbtTag {
    NbtTag::List(NbtList::from(tags))
}

fn entry(name: &str, properties: &[(&str, &str)]) -> NbtTag {
    let mut compound = NbtCompound::new();
    compound.insert("Name", name.to_string());
    if !properties.is_empty() {
        let mut inner = NbtCompound::new();
        for (key, value) in properties {
            inner.insert(*key, value.to_string());
        }
        compound.insert("Properties", inner);
    }
    NbtTag::Compound(compound)
}

fn placed(position: &[i32], state: i32) -> NbtCompound {
    let mut compound = NbtCompound::new();
    compound.insert("pos", ints(position));
    compound.insert("state", state);
    compound
}

fn structure(size: &[i32], palette: Vec<NbtTag>, blocks: Vec<NbtCompound>) -> NbtCompound {
    let mut root = NbtCompound::new();
    root.insert("DataVersion", 3465i32);
    root.insert("size", ints(size));
    root.insert("palette", list(palette));
    root.insert("blocks", list(blocks.into_iter().map(NbtTag::Compound).collect()));
    root
}

fn simple() -> NbtCompound {
    structure(
        &[2, 1, 1],
        vec![entry("minecraft:stone", &[]), entry("minecraft:air", &[])],
        vec![placed(&[0, 0, 0], 0), placed(&[1, 0, 0], 1)],
    )
}

fn bytes_of(root: &NbtCompound) -> Vec<u8> {
    let mut out = Vec::new();
    write_nbt(&mut out, None, root, Flavor::Uncompressed).unwrap();
    out
}

fn gzip(bytes: &[u8]) -> Vec<u8> {
    let mut encoder = GzEncoder::new(Vec::new(), Compression::default());
    encoder.write_all(bytes).unwrap();
    encoder.finish().unwrap()
}

fn blocks_of(schematic: &UniversalSchematic) -> Vec<(i32, i32, i32, String)> {
    let mut out: Vec<_> = schematic
        .iter_blocks()
        .filter(|(_, block)| block.get_name() != "minecraft:air")
        .map(|(p, block)| (p.x, p.y, p.z, block.to_string()))
        .collect();
    out.sort();
    out
}

fn words(result: Result<Loaded, schematic_diff::error::Error>) -> String {
    match result {
        Ok(_) => panic!("it loaded"),
        Err(error) => error.to_text(),
    }
}

#[test]
fn a_structure_loads_plain_and_compressed() {
    let raw = bytes_of(&simple());
    for bytes in [raw.clone(), gzip(&raw)] {
        let loaded = load_bytes(&bytes, "a.nbt").unwrap();
        assert_eq!(loaded.format, "nbt (structure)");
        assert_eq!(loaded.entities, 0);
        assert_eq!(
            blocks_of(&loaded.schematic),
            vec![(0, 0, 0, "minecraft:stone".to_string())]
        );
    }
}

#[test]
fn the_last_block_at_a_position_stays() {
    let root = structure(
        &[1, 1, 1],
        vec![entry("minecraft:stone", &[]), entry("minecraft:dirt", &[])],
        vec![placed(&[0, 0, 0], 0)],
    );
    let mut twice = root.clone();
    twice.insert("size", ints(&[2, 1, 1]));
    twice.insert(
        "blocks",
        list(vec![
            NbtTag::Compound(placed(&[0, 0, 0], 0)),
            NbtTag::Compound(placed(&[0, 0, 0], 1)),
        ]),
    );
    let loaded = read_structure(&twice, "a.nbt").unwrap();
    assert_eq!(blocks_of(&loaded.schematic), vec![(0, 0, 0, "minecraft:dirt".to_string())]);
}

#[test]
fn the_order_of_properties_does_not_matter() {
    let one = structure(
        &[1, 1, 1],
        vec![entry("minecraft:chest", &[("waterlogged", "true"), ("facing", "east")])],
        vec![placed(&[0, 0, 0], 0)],
    );
    let other = structure(
        &[1, 1, 1],
        vec![entry("minecraft:chest", &[("facing", "east"), ("waterlogged", "true")])],
        vec![placed(&[0, 0, 0], 0)],
    );
    let expected = vec!["minecraft:chest[facing=east,waterlogged=true]".to_string()];
    assert_eq!(read_palette(&one), Some(expected.clone()));
    assert_eq!(read_palette(&other), Some(expected.clone()));
    let loaded = read_structure(&one, "a.nbt").unwrap();
    assert_eq!(blocks_of(&loaded.schematic), vec![(0, 0, 0, expected[0].clone())]);
}

#[test]
fn a_palette_that_is_none_is_refused() {
    assert_eq!(read_palette(&NbtCompound::new()), None);
    let mut root = NbtCompound::new();
    root.insert("palette", 3i32);
    assert_eq!(read_palette(&root), None);
    root.insert("palette", ints(&[1]));
    assert_eq!(read_palette(&root), None);
    let mut nameless = NbtCompound::new();
    nameless.insert("Name", 1i32);
    root.insert("palette", list(vec![NbtTag::Compound(nameless)]));
    assert_eq!(read_palette(&root), None);
    let mut properties = NbtCompound::new();
    properties.insert("age", 1i32);
    let mut untexted = NbtCompound::new();
    untexted.insert("Name", "minecraft:wheat");
    untexted.insert("Properties", properties);
    root.insert("palette", list(vec![NbtTag::Compound(untexted)]));
    assert_eq!(read_palette(&root), None);
}

#[test]
fn triples_come_as_lists_and_as_arrays() {
    let mut root = NbtCompound::new();
    root.insert("list", ints(&[1, -2, 3]));
    root.insert("array", NbtTag::IntArray(vec![4, 5, 6]));
    root.insert("bytes", list(vec![NbtTag::Byte(-1), NbtTag::Byte(2), NbtTag::Byte(3)]));
    root.insert("shorts", list(vec![NbtTag::Short(300), NbtTag::Short(2), NbtTag::Short(3)]));
    root.insert("short_list", ints(&[1, 2]));
    root.insert("long_array", NbtTag::IntArray(vec![1, 2, 3, 4]));
    root.insert("longs", list(vec![NbtTag::Long(1), NbtTag::Long(2), NbtTag::Long(3)]));
    root.insert("text", "1 2 3");
    assert_eq!(triple(&root, "list"), Some([1, -2, 3]));
    assert_eq!(triple(&root, "array"), Some([4, 5, 6]));
    assert_eq!(triple(&root, "bytes"), Some([-1, 2, 3]));
    assert_eq!(triple(&root, "shorts"), Some([300, 2, 3]));
    for key in ["short_list", "long_array", "longs", "text", "missing"] {
        assert_eq!(triple(&root, key), None);
    }
}

#[test]
fn unsound_sizes_are_refused() {
    let none = "x is not a Java structure";
    assert_eq!(words(read_structure(&NbtCompound::new(), "x")), none);
    for size in [[0, 1, 1], [1, -1, 1], [1, 1, 0]] {
        assert_eq!(words(read_structure(&structure(&size, vec![], vec![]), "x")), none);
    }
    assert_eq!(
        words(read_structure(&structure(&[1024, 1024, 513], vec![], vec![]), "x")),
        "x is 1024x1024x513 (537919488 cells), beyond the 536870912-cell limit"
    );
    assert_eq!(
        words(read_structure(
            &structure(&[i32::MAX, i32::MAX, i32::MAX], vec![], vec![]),
            "x"
        )),
        "x is 2147483647x2147483647x2147483647 (9903520300447984150353281023 cells), beyond the \
         536870912-cell limit"
    );
}

#[test]
fn unsound_blocks_are_refused() {
    let none = "x is not a Java structure";
    let stone = || vec![entry("minecraft:stone", &[])];
    let refuse = |root: NbtCompound| words(read_structure(&root, "x"));

    let mut missing = structure(&[1, 1, 1], stone(), vec![]);
    missing.insert("blocks", 1i32);
    assert_eq!(refuse(missing), none);
    let crowded = vec![placed(&[0, 0, 0], 0), placed(&[0, 0, 0], 0)];
    assert_eq!(refuse(structure(&[1, 1, 1], stone(), crowded)), none);
    let mut listed = structure(&[1, 1, 1], stone(), vec![]);
    listed.insert("blocks", ints(&[1]));
    assert_eq!(refuse(listed), none);
    assert_eq!(refuse(structure(&[1, 1, 1], stone(), vec![placed(&[0, 0], 0)])), none);
    assert_eq!(refuse(structure(&[1, 1, 1], stone(), vec![placed(&[0, 0, 0], 1)])), none);
    assert_eq!(refuse(structure(&[1, 1, 1], stone(), vec![placed(&[0, 0, 0], -1)])), none);
    let mut stateless = NbtCompound::new();
    stateless.insert("pos", ints(&[0, 0, 0]));
    assert_eq!(refuse(structure(&[1, 1, 1], stone(), vec![stateless])), none);
    assert_eq!(
        refuse(structure(&[2, 3, 4], stone(), vec![placed(&[0, 3, -1], 0)])),
        "x has a block at [0, 3, -1], outside its [2, 3, 4] size"
    );
    assert_eq!(
        refuse(structure(&[1, 1, 1], vec![entry("a[b", &[])], vec![placed(&[0, 0, 0], 0)])),
        "x: unterminated properties in \"a[b\""
    );
}

#[test]
fn the_first_unsound_block_decides() {
    let stone = vec![entry("minecraft:stone", &[])];
    let blocks = vec![placed(&[0, 0, 0], 0), placed(&[9, 0, 0], 0), placed(&[0, 0, 0], 7)];
    assert_eq!(
        words(read_structure(&structure(&[2, 2, 2], stone, blocks), "x")),
        "x has a block at [9, 0, 0], outside its [2, 2, 2] size"
    );
}

#[test]
fn block_entities_keep_their_data() {
    let mut root = simple();
    let mut chest = placed(&[0, 0, 0], 0);
    let mut data = NbtCompound::new();
    data.insert("id", "minecraft:chest");
    data.insert("Lock", "key");
    chest.insert("nbt", data);
    let mut sign = placed(&[1, 0, 0], 0);
    let mut odd = NbtCompound::new();
    odd.insert("id", 5i32);
    odd.insert("Id", "ignored");
    sign.insert("nbt", odd);
    root.insert("blocks", list(vec![NbtTag::Compound(chest), NbtTag::Compound(sign)]));
    let loaded = read_structure(&root, "a.nbt").unwrap();
    let mut found: Vec<(i32, String)> = loaded
        .schematic
        .get_block_entities_as_list()
        .iter()
        .map(|entity| (entity.position.0, entity.id.to_string()))
        .collect();
    found.sort();
    assert_eq!(
        found,
        vec![(0, "minecraft:chest".to_string()), (1, "minecraft:stone".to_string())]
    );
    let chest = loaded
        .schematic
        .get_block_entities_as_list()
        .into_iter()
        .find(|entity| entity.position.0 == 0)
        .unwrap();
    assert_eq!(chest.nbt.get("Lock").and_then(|v| v.as_string()).cloned(), Some("key".to_string()));
}

fn entity(id: Option<&str>, position: NbtTag) -> NbtTag {
    let mut data = NbtCompound::new();
    if let Some(id) = id {
        data.insert("id", id.to_string());
    }
    let mut outer = NbtCompound::new();
    outer.insert("pos", position);
    outer.insert("nbt", data);
    NbtTag::Compound(outer)
}

#[test]
fn entities_are_counted_and_placed() {
    let mut root = simple();
    let doubles = list(vec![NbtTag::Double(1.5), NbtTag::Double(2.0), NbtTag::Double(3.0)]);
    let floats = list(vec![NbtTag::Float(0.5), NbtTag::Float(0.25), NbtTag::Float(-1.0)]);
    root.insert(
        "entities",
        list(vec![
            entity(Some("minecraft:cow"), doubles.clone()),
            entity(Some("pig"), floats),
            entity(None, doubles),
            entity(Some("minecraft:bat"), ints(&[1, 2, 3])),
        ]),
    );
    let loaded = read_structure(&root, "a.nbt").unwrap();
    assert_eq!(loaded.entities, 2);
    let seen: Vec<(String, (f64, f64, f64))> = loaded
        .schematic
        .get_entities_as_list()
        .into_iter()
        .map(|entity| (entity.id, entity.position))
        .collect();
    assert_eq!(
        seen,
        vec![
            ("minecraft:cow".to_string(), (1.5, 2.0, 3.0)),
            ("minecraft:pig".to_string(), (0.5, 0.25, -1.0)),
        ]
    );
}

#[test]
fn room_that_is_refused_is_told() {
    let root = simple();
    let refused: Result<UniversalSchematic, String> = Err("out of memory".to_string());
    assert_eq!(words(settle_structure(&root, [1, 1, 1], refused, "x")), "x: out of memory");
}

#[test]
fn gzip_is_unpacked_within_its_limit() {
    let raw = vec![7u8; 5 * 1024 * 1024];
    let packed = gzip(&raw);
    assert_eq!(maybe_gunzip(&packed, u32::MAX).unwrap(), raw);
    assert_eq!(maybe_gunzip(&packed, MAX_DECOMPRESSED_BYTES).unwrap(), raw);
    assert_eq!(maybe_gunzip(&raw, 1).unwrap(), raw);
    assert_eq!(maybe_gunzip(&[0x1f], 1).unwrap(), vec![0x1f]);
    assert_eq!(
        maybe_gunzip(&packed, 1024 * 1024).unwrap_err().to_text(),
        "compressed payload expands to 5 MiB, beyond the 1 MiB limit"
    );
    let mut understated = packed.clone();
    let end = understated.len();
    understated[end - 4..].copy_from_slice(&[1, 0, 0, 0]);
    assert_eq!(
        maybe_gunzip(&understated, 1024 * 1024).unwrap_err().to_text(),
        "compressed payload expands beyond the 1 MiB limit"
    );
    assert_eq!(maybe_gunzip(&[0x1f, 0x8b, 8], 1).unwrap_err().to_text(), "truncated gzip stream");
    let cut = maybe_gunzip(&packed[..packed.len() / 2], u32::MAX).unwrap_err().to_text();
    assert!(cut.starts_with("gzip decompression failed: "));
}

#[test]
fn only_structures_are_binary_structures() {
    let raw = bytes_of(&simple());
    assert!(is_binary_structure(&raw));
    assert!(is_binary_structure(&gzip(&raw)));
    let mut other = NbtCompound::new();
    other.insert("blocks", 1i32);
    assert!(!is_binary_structure(&bytes_of(&other)));
    assert!(!is_binary_structure(b"not nbt"));
    assert!(!is_binary_structure(&[0x1f, 0x8b, 8]));
    assert!(!is_binary_structure(&raw[..raw.len() - 1]));
}

#[test]
fn framing_covers_every_length() {
    let raw = bytes_of(&simple());
    assert!(is_framed(&raw));
    for end in 0..raw.len() {
        assert!(!is_framed(&raw[..end].to_vec()));
    }
    // A compound with one array that says it has -1 or far too many elements.
    for length in [0xffff_ffffu32, 0x7fff_ffff] {
        let mut bad = vec![10, 0, 0, 7, 0, 1, b'a'];
        bad.extend_from_slice(&length.to_be_bytes());
        bad.push(0);
        assert!(!is_framed(&bad));
        assert!(!is_binary_structure(&bad));
    }
    assert!(is_framed(&vec![10, 0, 0, 0]));
    assert!(!is_framed(&vec![9, 0, 0, 0]));
}

#[test]
fn nesting_is_followed_to_a_depth() {
    let nested = |depth: usize| {
        let mut raw = vec![10u8, 0, 0];
        for _ in 0..depth {
            raw.extend_from_slice(&[10, 0, 0]);
        }
        raw.extend(std::iter::repeat(0u8).take(depth + 1));
        raw
    };
    assert!(is_framed(&nested(2047)));
    assert!(!is_framed(&nested(2048)));
    assert!(!is_binary_structure(&nested(2047)));
    let listed = |depth: usize| {
        let mut raw = vec![10u8, 0, 0, 9, 0, 0];
        for _ in 0..depth {
            raw.extend_from_slice(&[9, 0, 0, 0, 1]);
        }
        raw.extend_from_slice(&[0, 0, 0, 0, 0, 0]);
        raw
    };
    assert!(is_framed(&listed(2046)));
    assert!(!is_framed(&listed(2047)));
    assert!(!is_binary_structure(&listed(2046)));
}

#[test]
fn every_kind_of_tag_is_framed() {
    let mut root = NbtCompound::new();
    root.insert("byte", 1i8);
    root.insert("short", 1i16);
    root.insert("int", 1i32);
    root.insert("long", 1i64);
    root.insert("float", 1f32);
    root.insert("double", 1f64);
    root.insert("bytes", NbtTag::ByteArray(vec![1, 2]));
    root.insert("text", "text");
    root.insert("list", list(vec![ints(&[1, 2]), ints(&[])]));
    root.insert("compound", NbtCompound::new());
    root.insert("ints", NbtTag::IntArray(vec![1, 2]));
    root.insert("longs", NbtTag::LongArray(vec![1, 2]));
    assert!(is_framed(&bytes_of(&root)));
}

#[test]
fn unreadable_nbt_is_told() {
    // Soundly framed, but the name of a field is not text.
    let raw = vec![10, 0, 0, 1, 0, 1, 0xff, 0, 0];
    assert!(is_framed(&raw));
    assert!(words(load_structure_nbt(&raw, "x")).starts_with("x is not readable NBT: "));
    let whole = bytes_of(&simple());
    assert!(load_structure_nbt(&whole, "x").is_ok());
    for end in [0, 1, 7, whole.len() - 1] {
        for bytes in [whole[..end].to_vec(), gzip(&whole[..end])] {
            assert_eq!(
                words(load_structure_nbt(&bytes, "x")),
                "x is not readable NBT: it breaks off, or nests too deep"
            );
        }
    }
}

#[test]
fn files_that_nothing_reads_are_refused() {
    assert_eq!(words(load_bytes(&[], "x")), "x is empty");
    assert!(words(load_bytes(b"plain text", "x")).starts_with("x could not be read: "));
}

#[test]
fn every_outcome_of_a_reading_is_settled() {
    let raw = bytes_of(&simple());
    assert_eq!(words(settle_reading(None, &raw, "x")), "the format manager is poisoned");
    assert_eq!(
        words(settle_reading(Some(Err("no".to_string())), b"text", "x")),
        "x could not be read: no"
    );
    let loaded = settle_reading(Some(Err("no".to_string())), &raw, "x").unwrap();
    assert_eq!(loaded.format, "nbt (structure)");
    let build = UniversalSchematic::new("given".to_string());
    let given = settle_reading(Some(Ok(("litematic".to_string(), build))), &raw, "x").unwrap();
    assert_eq!(given.format, "litematic");
    assert_eq!(given.entities, 0);
}

#[test]
fn formats_that_nucleation_knows_are_read_by_it() {
    let mut build = UniversalSchematic::new("given".to_string());
    build.set_block(0, 0, 0, &nucleation::BlockState::new("minecraft:stone"));
    let bytes = nucleation::litematic::to_litematic(&build).unwrap();
    let loaded = load_bytes(&bytes, "x.litematic").unwrap();
    assert_eq!(loaded.format, "litematic");
    assert_eq!(blocks_of(&loaded.schematic).len(), 1);
}

#[test]
fn the_name_and_version_are_noted() {
    let mut root = simple();
    root.insert("DataVersion", 2975);
    let loaded = read_structure(&root, "house.nbt").unwrap();
    assert_eq!(loaded.schematic.metadata.name.as_deref(), Some("house.nbt"));
    assert_eq!(loaded.schematic.metadata.mc_version, Some(2975));
    assert_eq!(loaded.schematic.metadata.source_data_version, Some(2975));
    assert_eq!(loaded.schematic.get_region_names().len(), 1);
    root.insert("DataVersion", "2975");
    let unversioned = read_structure(&root, "house.nbt").unwrap();
    assert_eq!(unversioned.schematic.metadata.mc_version, None);
}
