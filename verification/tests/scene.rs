use nucleation::{BlockState, Region, UniversalSchematic};
use schematic_diff::changes::{Block, Change, Changes, Replacement};
use schematic_diff::color::{name_color, pack, rgb, tint};
use schematic_diff::layout::Panel;
use schematic_diff::error::Error;
use schematic_diff::format::Loaded;
use schematic_diff::render::{Bounds, Grid};
use schematic_diff::scene::{
    change_categories, change_legend, changes_grid, choose_panels, flat_scene, grid_of,
    settle_changes, settle_scene, shared_frame, ADDED_COLOR, ADDED_TEXT, CAPTION_TEXT,
    CHANGED_COLOR, REMOVED_COLOR, REMOVED_TEXT, SWAPPED_COLOR,
};
use schematic_diff::schematic::{compare, is_walkable};
use schematic_diff::subset::{settle_subset, subset};

fn block(name: &str) -> Block {
    Block { name: name.to_string(), properties: Vec::new() }
}

/// A block from its text, `name` or `name[key=value,..]`.
fn spelt(text: &str) -> Block {
    let (name, rest) = text.split_once('[').unwrap_or((text, ""));
    let properties = rest
        .trim_end_matches(']')
        .split(',')
        .filter_map(|pair| pair.split_once('='))
        .map(|(key, value)| (key.to_string(), value.to_string()))
        .collect();
    Block { name: name.to_string(), properties }
}

fn text_of(block: &Block) -> String {
    let pairs: Vec<String> =
        block.properties.iter().map(|(key, value)| format!("{key}={value}")).collect();
    if pairs.is_empty() {
        block.name.clone()
    } else {
        format!("{}[{}]", block.name, pairs.join(","))
    }
}

fn sample() -> Changes {
    Changes {
        added: vec![Change { position: [1, 0, 0], block: block("minecraft:stone") }],
        removed: Vec::new(),
        changed: vec![Replacement {
            position: [2, 0, 0],
            was: block("minecraft:dirt"),
            now: block("minecraft:sand"),
        }],
        swapped: Vec::new(),
        support: 0,
    }
}

#[test]
fn changes_are_grouped_into_categories() {
    let changes = sample();
    let categories = change_categories(Some(&changes));
    assert_eq!(categories.len(), 2);
    assert_eq!(categories[0].color, ADDED_COLOR);
    assert_eq!(categories[0].cells[0].position, [1, 0, 0]);
    assert_eq!(categories[1].color, CHANGED_COLOR);
    assert_eq!(categories[1].cells[0].block.name, "minecraft:sand");
    assert!(change_categories(None).is_empty());
}

#[test]
fn changed_cells_show_in_the_grid() {
    let changes = sample();
    let categories = change_categories(Some(&changes));
    let frame = Bounds { min: [0, 0, 0], max: [1, 0, 0] };
    let grid = changes_grid(frame, &categories).unwrap();
    let expected = pack(tint(rgb(name_color("minecraft:stone")), rgb(ADDED_COLOR)));
    assert_eq!(grid.color_at(1, 0, 0), Some(expected));
    assert_eq!(grid.color_at(0, 0, 0), None);
    assert_eq!(grid.color_at(2, 0, 0), None);
    let none = Bounds { min: [1, 0, 0], max: [0, 0, 0] };
    assert_eq!(
        changes_grid(none, &categories).unwrap_err().to_text(),
        "the 0x1x1 extent is too large to render"
    );
}

#[test]
fn panels_share_a_frame() {
    let a = Bounds { min: [0, 0, 0], max: [1, 1, 1] };
    let b = Bounds { min: [-1, 0, 0], max: [0, 2, 0] };
    assert_eq!(shared_frame(Some(a), Some(b)), Bounds { min: [-1, 0, 0], max: [1, 2, 1] });
    assert_eq!(shared_frame(Some(a), None), a);
    assert_eq!(shared_frame(None, Some(b)), b);
    assert_eq!(shared_frame(None, None), Bounds::default());
}

fn captions(panels: &[Panel<u8>]) -> Vec<(String, [u8; 3], u8)> {
    panels
        .iter()
        .map(|panel| (panel.caption[0].text.clone(), panel.caption[0].color, panel.picture))
        .collect()
}

#[test]
fn a_comparison_has_two_or_three_panels() {
    let wide = choose_panels(Some(1u8), Some(2), Some(3), "a", "b", false, 1080);
    assert_eq!(
        captions(&wide),
        vec![
            ("BEFORE  a".to_string(), CAPTION_TEXT, 1),
            ("AFTER  b".to_string(), CAPTION_TEXT, 2),
            ("CHANGES  ".to_string(), CAPTION_TEXT, 3),
        ]
    );
    let narrow = choose_panels(Some(1u8), Some(2), Some(3), "a", "b", false, 1079);
    assert_eq!(narrow.len(), 2);
    let same = choose_panels(Some(1u8), Some(2), None, "a", "b", true, 2000);
    assert_eq!(same[1].caption[0].text, "AFTER  b  (no changes)");
}

#[test]
fn one_side_has_one_panel() {
    let one = |before: Option<u8>, after: Option<u8>, standalone: bool| {
        captions(&choose_panels(before, after, None, "a", "b", standalone, 2000))
    };
    assert_eq!(one(None, Some(2), false), vec![("ADDED  b".to_string(), ADDED_TEXT, 2)]);
    assert_eq!(one(None, Some(2), true), vec![("b".to_string(), CAPTION_TEXT, 2)]);
    assert_eq!(one(Some(1), None, false), vec![("DELETED  a".to_string(), REMOVED_TEXT, 1)]);
    assert_eq!(one(Some(1), None, true), vec![("a".to_string(), CAPTION_TEXT, 1)]);
    assert!(one(None, None, true).is_empty());
}

#[test]
fn the_legend_is_in_the_colours_of_the_cells() {
    let legend: Vec<(String, [u8; 3])> =
        change_legend().into_iter().map(|segment| (segment.text, segment.color)).collect();
    assert_eq!(
        legend,
        vec![
            ("CHANGES  ".to_string(), CAPTION_TEXT),
            ("+added  ".to_string(), rgb(ADDED_COLOR)),
            ("-removed  ".to_string(), rgb(REMOVED_COLOR)),
            ("*changed  ".to_string(), rgb(CHANGED_COLOR)),
            ("#re-paletted".to_string(), rgb(SWAPPED_COLOR)),
        ]
    );
}

fn build(blocks: &[(i32, &str)]) -> UniversalSchematic {
    let mut schematic = UniversalSchematic::new("test".to_string());
    for (x, name) in blocks {
        schematic.set_block(*x, 0, 0, &BlockState::new(*name));
    }
    schematic
}

#[test]
fn builds_are_compared_cell_by_cell() {
    let before = build(&[(0, "minecraft:stone"), (1, "minecraft:dirt"), (2, "minecraft:sand"), (3, "minecraft:ice")]);
    let after = build(&[(0, "minecraft:stone"), (1, "minecraft:dirt"), (2, "minecraft:sand"), (9, "minecraft:tnt")]);
    let changes = compare(&before, &after).unwrap();
    assert_eq!(changes.added.len(), 1);
    assert_eq!(changes.added[0].position, [9, 0, 0]);
    assert_eq!(changes.added[0].block.name, "minecraft:tnt");
    assert_eq!(changes.removed.len(), 1);
    assert_eq!(changes.removed[0].position, [3, 0, 0]);
    assert_eq!(changes.removed[0].block.name, "minecraft:ice");
    assert!(changes.changed.is_empty());
    assert_eq!(f32::from_bits(changes.support), 0.75);
}

#[test]
fn a_build_is_no_different_from_itself() {
    let one = build(&[(0, "minecraft:stone"), (1, "minecraft:dirt")]);
    let changes = compare(&one, &one).unwrap();
    assert!(changes.added.is_empty() && changes.removed.is_empty());
    assert!(changes.changed.is_empty() && changes.swapped.is_empty());
    assert_eq!(f32::from_bits(changes.support), 1.0);
}

#[test]
fn an_exchanged_block_is_listed_with_its_state() {
    let before = build(&[(0, "minecraft:stone"), (1, "minecraft:dirt"), (2, "minecraft:ice")]);
    let mut after = build(&[(0, "minecraft:stone"), (1, "minecraft:dirt")]);
    let chest = BlockState::new("minecraft:chest").with_property("facing", "east");
    after.set_block(2, 0, 0, &chest);
    let changes = compare(&before, &after).unwrap();
    let listed: Vec<_> = changes.changed.iter().chain(changes.swapped.iter()).collect();
    assert_eq!(listed.len(), 1);
    assert_eq!(listed[0].position, [2, 0, 0]);
    assert_eq!(listed[0].was.name, "minecraft:ice");
    assert_eq!(listed[0].now.name, "minecraft:chest");
    assert_eq!(text_of(&listed[0].now), "minecraft:chest[facing=east]");
}

#[test]
fn builds_that_reach_too_far_are_not_compared() {
    let near = build(&[(0, "minecraft:stone")]);
    let edge = build(&[(1_342_176_279, "minecraft:stone")]);
    let far = build(&[(1_342_176_280, "minecraft:stone")]);
    assert!(compare(&near, &edge).is_some());
    assert!(compare(&near, &far).is_none());
    assert!(compare(&far, &near).is_none());
}

#[test]
fn builds_far_off_are_compared_where_they_are_close() {
    let before = build(&[(1_000_000_000, "minecraft:stone")]);
    let after = build(&[(1_000_000_000, "minecraft:stone"), (1_000_000_001, "minecraft:tnt")]);
    let changes = compare(&before, &after).unwrap();
    assert_eq!(changes.added.len(), 1);
    assert_eq!(changes.added[0].position, [1_000_000_001, 0, 0]);
    assert!(changes.removed.is_empty());
}

#[test]
fn a_build_at_the_end_of_the_coordinates_cannot_be_walked() {
    let at = |x: i32| {
        let mut region = Region::new("Main".to_string(), (x, 0, 0), (1, 1, 1));
        region.set_block(x, 0, 0, &BlockState::new("minecraft:stone"));
        let mut schematic = UniversalSchematic::new("test".to_string());
        schematic.default_region = region;
        schematic
    };
    assert!(is_walkable(&at(i32::MAX - 1)));
    assert!(!is_walkable(&at(i32::MAX)));
}

#[test]
fn changes_at_the_end_of_the_coordinates_are_not_put_down() {
    let mut changes = sample();
    changes.added[0].position = [i32::MAX, 0, 0];
    let categories = change_categories(Some(&changes));
    assert_eq!(
        subset(&categories[0]).err().unwrap().to_text(),
        "the changed blocks reach the end of the coordinate range"
    );
}

fn side(blocks: &[(i32, &str)]) -> Option<Loaded> {
    Some(Loaded { schematic: build(blocks), format: "test".to_string(), entities: 0 })
}

#[test]
fn a_flat_scene_holds_both_sides_and_their_changes() {
    let before = side(&[(0, "minecraft:stone"), (1, "minecraft:dirt"), (2, "minecraft:ice")]);
    let after = side(&[(0, "minecraft:stone"), (1, "minecraft:dirt"), (5, "minecraft:tnt")]);
    let changes = compare(
        &before.as_ref().unwrap().schematic,
        &after.as_ref().unwrap().schematic,
    )
    .unwrap();
    let scene = flat_scene(&before, &after, &change_categories(Some(&changes))).unwrap();
    assert_eq!(scene.frame, Bounds { min: [0, 0, 0], max: [5, 0, 0] });
    let left = scene.before.unwrap();
    assert_eq!(left.bounds(), Bounds { min: [0, 0, 0], max: [2, 0, 0] });
    assert_eq!(left.color_at(2, 0, 0), Some(name_color("minecraft:ice")));
    assert_eq!(scene.after.unwrap().color_at(5, 0, 0), Some(name_color("minecraft:tnt")));
    let marks = scene.changes.unwrap();
    assert_eq!(marks.color_at(0, 0, 0), None);
    let gone = pack(tint(rgb(name_color("minecraft:ice")), rgb(REMOVED_COLOR)));
    assert_eq!(marks.color_at(2, 0, 0), Some(gone));
    let new = pack(tint(rgb(name_color("minecraft:tnt")), rgb(ADDED_COLOR)));
    assert_eq!(marks.color_at(5, 0, 0), Some(new));
}

fn refusal<T>(words: &str) -> Result<T, Error> {
    Err(Error::message(words.to_string()))
}

#[test]
fn changes_are_drawn_into_the_grid_that_is_granted() {
    let changes = sample();
    let categories = change_categories(Some(&changes));
    let blank = Grid::empty_over(Bounds { min: [0, 0, 0], max: [1, 0, 0] });
    let grid = settle_changes(blank, &categories).unwrap();
    let expected = pack(tint(rgb(name_color("minecraft:stone")), rgb(ADDED_COLOR)));
    assert_eq!(grid.color_at(1, 0, 0), Some(expected));
    assert_eq!(grid.color_at(0, 0, 0), None);
    let refused = settle_changes(refusal("no room"), &categories);
    assert_eq!(refused.unwrap_err().to_text(), "no room");
}

#[test]
fn a_scene_is_put_together_or_refused_by_its_first_part() {
    let grid = |min: i32, max: i32| {
        Grid::empty_over(Bounds { min: [min, 0, 0], max: [max, 0, 0] }).unwrap()
    };
    let told = |result: Result<schematic_diff::scene::FlatScene, Error>| {
        result.err().map(|error| error.to_text())
    };
    let scene = settle_scene(Ok(Some(grid(0, 1))), Ok(Some(grid(3, 4))), None).unwrap();
    assert_eq!(scene.frame, Bounds { min: [0, 0, 0], max: [4, 0, 0] });
    assert!(scene.changes.is_none());
    let scene = settle_scene(Ok(None), Ok(Some(grid(3, 4))), Some(Ok(grid(3, 4)))).unwrap();
    assert_eq!(scene.frame, Bounds { min: [3, 0, 0], max: [4, 0, 0] });
    assert!(scene.before.is_none() && scene.changes.is_some());
    let one = settle_scene(refusal("a"), refusal("b"), Some(refusal("c")));
    assert_eq!(told(one), Some("a".to_string()));
    let two = settle_scene(Ok(None), refusal("b"), Some(refusal("c")));
    assert_eq!(told(two), Some("b".to_string()));
    let three = settle_scene(Ok(None), Ok(None), Some(refusal("c")));
    assert_eq!(told(three), Some("c".to_string()));
}

#[test]
fn a_flat_scene_of_one_side_has_no_changes() {
    let after = side(&[(3, "minecraft:stone")]);
    let scene = flat_scene(&None, &after, &change_categories(None)).unwrap();
    assert!(scene.before.is_none());
    assert!(scene.changes.is_none());
    assert_eq!(scene.frame, Bounds { min: [3, 0, 0], max: [3, 0, 0] });
    assert!(grid_of(&None).unwrap().is_none());
}

#[test]
fn an_outsized_side_has_no_scene() {
    let mut schematic = build(&[(0, "minecraft:stone")]);
    let far = 0x2000_0000;
    schematic.add_region(Region::new("far".to_string(), (far, 0, 0), (1, 1, 1)));
    schematic.set_block_in_region("far", far, 0, 0, &BlockState::new("minecraft:stone"));
    let wide = Some(Loaded { schematic, format: "test".to_string(), entities: 0 });
    let said = "the build's 536870913x1x1 extent (536870913 cells) is too large to render";
    assert_eq!(grid_of(&wide).unwrap_err().to_text(), said);
    assert_eq!(
        flat_scene(&wide, &None, &change_categories(None)).err().unwrap().to_text(),
        said
    );
}

fn shown(build: &UniversalSchematic) -> Vec<(i32, i32, i32, String)> {
    let mut cells: Vec<(i32, i32, i32, String)> = build
        .iter_blocks()
        .filter(|(_, block)| block.get_name() != "minecraft:air")
        .map(|(p, block)| (p.x, p.y, p.z, block.to_string()))
        .collect();
    cells.sort();
    cells
}

fn added(cells: &[([i32; 3], &str)]) -> Changes {
    Changes {
        added: cells
            .iter()
            .map(|(position, text)| Change { position: *position, block: spelt(text) })
            .collect(),
        removed: Vec::new(),
        changed: Vec::new(),
        swapped: Vec::new(),
        support: 0,
    }
}

#[test]
fn a_category_is_a_build_of_its_own() {
    let changes = added(&[
        ([-3, 7, 2], "minecraft:stone"),
        ([5, 7, 9], "minecraft:oak_stairs[facing=east,half=top]"),
    ]);
    let categories = change_categories(Some(&changes));
    let build = subset(&categories[0]).unwrap();
    assert_eq!(
        shown(&build),
        vec![
            (-3, 7, 2, "minecraft:stone".to_string()),
            (5, 7, 9, "minecraft:oak_stairs[facing=east,half=top]".to_string()),
        ]
    );
    assert!(build.get_entities_as_list().is_empty());
}

#[test]
fn a_block_is_put_down_with_all_its_properties() {
    let mut changes = added(&[([0, 0, 0], "mod:lamp")]);
    changes.added[0].block.properties =
        vec![("tints".to_string(), "red,blue".to_string()), ("a".to_string(), "b=c".to_string())];
    let categories = change_categories(Some(&changes));
    let build = subset(&categories[0]).unwrap();
    let (_, block) = build.iter_blocks().next().unwrap();
    assert_eq!(block.get_name(), "mod:lamp");
    let pairs: Vec<(&str, &str)> =
        block.properties.iter().map(|(key, value)| (key.as_str(), value.as_str())).collect();
    assert_eq!(pairs, vec![("tints", "red,blue"), ("a", "b=c")]);
}

#[test]
fn a_category_too_wide_is_refused() {
    let changes = added(&[
        ([i32::MIN, 0, 0], "minecraft:stone"),
        ([i32::MAX, 0, 0], "minecraft:stone"),
    ]);
    let categories = change_categories(Some(&changes));
    assert_eq!(
        subset(&categories[0]).err().unwrap().to_text(),
        "the 2147483647x1x1 extent is too large to render"
    );
    let refused = settle_subset(&categories[0], Err("out of memory".to_string()));
    assert_eq!(refused.err().unwrap().to_text(), "out of memory");
}

#[test]
fn what_dominates_is_re_paletted_and_the_rest_changed() {
    // Blocks of many kinds that stay hold the two builds in place.
    let kinds = ["ice", "tnt", "clay", "gravel", "bricks", "bookshelf", "obsidian", "glass"];
    let row = |news: [&str; 5]| {
        let mut schematic = UniversalSchematic::new("test".to_string());
        for (x, kind) in kinds.iter().enumerate() {
            let block = BlockState::new(format!("minecraft:{kind}"));
            schematic.set_block(x as i32, 0, 0, &block);
        }
        for (x, kind) in news.iter().enumerate() {
            let block = BlockState::new(format!("minecraft:{kind}"));
            schematic.set_block(x as i32, 1, 0, &block);
        }
        schematic
    };
    let before = row(["stone"; 5]);
    let most = compare(&before, &row(["dirt", "dirt", "sand", "dirt", "dirt"])).unwrap();
    let news = |list: &[Replacement]| {
        list.iter().map(|replacement| replacement.now.name.clone()).collect::<Vec<String>>()
    };
    assert_eq!(news(&most.swapped), vec!["minecraft:dirt"; 4]);
    assert_eq!(news(&most.changed), vec!["minecraft:sand"]);
    let few = compare(&before, &row(["dirt", "dirt", "sand", "dirt", "sand"])).unwrap();
    assert!(few.swapped.is_empty());
    assert_eq!(few.changed.len(), 5);
    let every = compare(&before, &row(["dirt"; 5])).unwrap();
    assert_eq!(every.swapped.len(), 5);
    assert!(every.changed.is_empty());
}

#[test]
fn blocks_with_the_same_data_are_not_listed() {
    let chest = |lock: &str| {
        let mut schematic = build(&[(0, "minecraft:stone"), (1, "minecraft:dirt")]);
        schematic.set_block(2, 0, 0, &BlockState::new("minecraft:chest"));
        let mut data = nucleation::nbt::NbtMap::new();
        data.insert("Lock".to_string(), nucleation::nbt::NbtValue::String(lock.to_string()));
        let mut entity =
            nucleation::block_entity::BlockEntity::new("minecraft:chest".to_string(), (2, 0, 0));
        entity.set_nbt(data);
        let position = nucleation::block_position::BlockPosition { x: 2, y: 0, z: 0 };
        schematic.set_block_entity(position, entity);
        schematic
    };
    let same = compare(&chest("key"), &chest("key")).unwrap();
    assert!(same.changed.is_empty() && same.swapped.is_empty());
    assert!(same.added.is_empty() && same.removed.is_empty());
    let other = compare(&chest("key"), &chest("lost")).unwrap();
    assert_eq!(other.changed.len() + other.swapped.len(), 1);
}

#[test]
fn blocks_are_told_apart_by_their_properties() {
    let facing = |way: &str| {
        let mut schematic = build(&[(0, "minecraft:stone"), (1, "minecraft:dirt")]);
        let stairs = BlockState::new("minecraft:oak_stairs").with_property("facing", way);
        schematic.set_block(2, 0, 0, &stairs);
        schematic
    };
    let changes = compare(&facing("east"), &facing("west")).unwrap();
    assert!(changes.added.is_empty() && changes.removed.is_empty());
    let replaced: Vec<&Replacement> = changes.changed.iter().chain(&changes.swapped).collect();
    assert_eq!(replaced.len(), 1);
    assert_eq!(text_of(&replaced[0].was), "minecraft:oak_stairs[facing=east]");
    assert_eq!(text_of(&replaced[0].now), "minecraft:oak_stairs[facing=west]");
}
