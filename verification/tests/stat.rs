use nucleation::{BlockState, UniversalSchematic};
use schematic_diff::changes::{Block, Change, Changes, Replacement};
use schematic_diff::format::Loaded;
use schematic_diff::stat::{
    count_blocks, difference_stat, format_palette_stat, format_stat, material_stat, StatMode,
};

fn block(name: &str) -> Block {
    Block { name: name.to_string(), properties: Vec::new() }
}

fn change(name: &str) -> Change {
    Change { position: [0, 0, 0], block: block(name) }
}

fn replacement(was: &str, now: &str) -> Replacement {
    Replacement { position: [0, 0, 0], was: block(was), now: block(now) }
}

fn sample() -> Changes {
    Changes {
        added: vec![change("b"), change("a"), change("b")],
        removed: vec![change("c")],
        changed: vec![replacement("a", "a"), replacement("a", "z"), replacement("a", "y")],
        swapped: vec![replacement("a", "z")],
        support: 0,
    }
}

fn loaded(names: &[&str]) -> Loaded {
    let mut schematic = UniversalSchematic::new("test".to_string());
    for (i, name) in names.iter().enumerate() {
        schematic.set_block(i as i32, 0, 0, &BlockState::new(*name));
    }
    Loaded { schematic, format: "test".to_string(), entities: 0 }
}

#[test]
fn a_difference_is_ranked_by_count_and_name() {
    assert_eq!(
        difference_stat(Some(&sample()), StatMode::Uncapped),
        vec![
            "  stat",
            "    ~ 2  a -> z",
            "    + 2  b",
            "    + 1  a",
            "    ~ 1  a (state)",
            "    ~ 1  a -> y",
            "    - 1  c",
        ]
    );
}

#[test]
fn a_capped_difference_notes_the_rest() {
    assert_eq!(
        difference_stat(Some(&sample()), StatMode::Capped(2)),
        vec!["  stat", "    ~ 2  a -> z", "    + 2  b", "    ... and 4 more block changes"]
    );
    assert_eq!(difference_stat(Some(&sample()), StatMode::Capped(6)).len(), 7);
    assert_eq!(
        difference_stat(Some(&sample()), StatMode::Capped(0)),
        vec!["  stat", "    ... and 6 more block changes"]
    );
}

#[test]
fn an_empty_difference_says_so() {
    let none = Changes {
        added: Vec::new(),
        removed: Vec::new(),
        changed: Vec::new(),
        swapped: Vec::new(),
        support: 0,
    };
    assert_eq!(
        difference_stat(Some(&none), StatMode::Uncapped),
        vec!["  stat", "    (no block differences)"]
    );
    assert_eq!(difference_stat(None, StatMode::Uncapped), vec!["  stat", "    (no changes)"]);
}

#[test]
fn counts_are_set_flush_right() {
    let mut names = vec!["rare"];
    for _ in 0..12 {
        names.push("common");
    }
    assert_eq!(
        material_stat(&names, "", StatMode::Uncapped),
        vec!["  stat", "    12  common", "     1  rare"]
    );
    assert_eq!(
        material_stat(&names, "+ ", StatMode::Capped(1)),
        vec!["  stat", "    + 12  common", "    ... and 1 more block types"]
    );
    assert_eq!(
        material_stat(&Vec::new(), "- ", StatMode::Uncapped),
        vec!["  stat", "    (empty schematic)"]
    );
}

#[test]
fn a_breakdown_does_not_depend_on_the_order_of_names() {
    let one = material_stat(&vec!["a", "b", "b", "c", "a"], "", StatMode::Uncapped);
    let other = material_stat(&vec!["c", "b", "a", "a", "b"], "", StatMode::Uncapped);
    assert_eq!(one, other);
}

#[test]
fn a_build_is_listed_without_its_air() {
    let build = loaded(&["minecraft:stone", "minecraft:cave_air", "minecraft:dirt", "minecraft:stone"]);
    assert_eq!(count_blocks(&build.schematic), 3);
    assert_eq!(
        format_palette_stat(&build, "- ", StatMode::Uncapped),
        vec!["  stat", "    - 2  minecraft:stone", "    - 1  minecraft:dirt"]
    );
}

#[test]
fn the_breakdown_goes_by_the_sides_that_exist() {
    let stone = || Some(loaded(&["minecraft:stone"]));
    let mode = StatMode::Uncapped;
    assert_eq!(
        format_stat(&None, &stone(), None, false, mode),
        vec!["  stat", "    + 1  minecraft:stone"]
    );
    assert_eq!(
        format_stat(&stone(), &None, None, false, mode),
        vec!["  stat", "    - 1  minecraft:stone"]
    );
    assert_eq!(
        format_stat(&None, &stone(), None, true, mode),
        vec!["  stat", "    1  minecraft:stone"]
    );
    assert_eq!(
        format_stat(&stone(), &stone(), None, false, mode),
        vec!["  stat", "    (no changes)"]
    );
    assert_eq!(format_stat(&stone(), &stone(), Some(&sample()), false, mode).len(), 7);
    assert!(format_stat(&None, &None, None, false, mode).is_empty());
}

#[test]
fn the_counts_add_up() {
    let changes = sample();
    let total = changes.added.len()
        + changes.removed.len()
        + changes.changed.len()
        + changes.swapped.len();
    let sum: usize = difference_stat(Some(&changes), StatMode::Uncapped)[1..]
        .iter()
        .map(|line| line[6..].split_whitespace().next().unwrap().parse::<usize>().unwrap())
        .sum();
    assert_eq!(sum, total);
    let build = loaded(&["a:x", "a:y", "a:x", "minecraft:air"]);
    let listed: usize = format_palette_stat(&build, "", StatMode::Uncapped)[1..]
        .iter()
        .map(|line| line.split_whitespace().next().unwrap().parse::<usize>().unwrap())
        .sum();
    assert_eq!(listed, count_blocks(&build.schematic));
    assert_eq!(listed, 3);
}
