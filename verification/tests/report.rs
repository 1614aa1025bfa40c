use nucleation::{BlockState, Entity, UniversalSchematic};
use schematic_diff::changes::{Block, Change, Changes};
use schematic_diff::format::Loaded;
use schematic_diff::report::{
    check_pack, describe, details, heading, image_steps, no_image_reason, summary_lines, PackStats,
};

fn loaded(entities: usize) -> Loaded {
    let mut schematic = UniversalSchematic::new("test".to_string());
    schematic.set_block(0, 0, 0, &BlockState::new("minecraft:stone"));
    schematic.set_block(2, 3, 4, &BlockState::new("minecraft:dirt"));
    for _ in 0..entities {
        schematic.add_entity(Entity::new("minecraft:cow".to_string(), (0.0, 0.0, 0.0)));
    }
    Loaded { schematic, format: "litematic".to_string(), entities }
}

fn changes() -> Changes {
    let block = Block { name: "a".to_string(), properties: Vec::new() };
    Changes {
        added: vec![Change { position: [0, 0, 0], block }],
        removed: Vec::new(),
        changed: Vec::new(),
        swapped: Vec::new(),
        support: 0.5f32.to_bits(),
    }
}

const LINE: &str = "3x4x5  2 blocks  1 region  [litematic]";

#[test]
fn headings_tell_what_happened() {
    assert_eq!(heading("p", false, true, true), "p  [modified]");
    assert_eq!(heading("p", false, false, true), "p  [added]");
    assert_eq!(heading("p", false, true, false), "p  [deleted]");
    assert_eq!(heading("p", true, true, true), "p  [modified]");
    assert_eq!(heading("p", true, false, true), "p");
}

#[test]
fn sides_are_described() {
    assert_eq!(describe(&loaded(0)), LINE);
    assert_eq!(describe(&loaded(1)), "3x4x5  2 blocks  1 region  1 entity  [litematic]");
    assert_eq!(describe(&loaded(2)), "3x4x5  2 blocks  1 region  2 entities  [litematic]");
    let mut two = loaded(0);
    two.schematic.set_block_in_region("other", 9, 9, 9, &BlockState::new("minecraft:stone"));
    assert_eq!(describe(&two), "3x4x5  3 blocks  2 regions  [litematic]");
}

#[test]
fn a_change_is_detailed() {
    let stat = vec!["  stat".to_string(), "    + 1  a".to_string()];
    let lines = details(
        false,
        &Some(loaded(0)),
        &Some(loaded(0)),
        Some(&changes()),
        Some((&PackStats { blockstates: 1, models: 2, textures: 3 }, "pack.zip")),
        &stat,
    );
    assert_eq!(
        lines,
        vec![
            format!("  before  {LINE}"),
            format!("  after   {LINE}"),
            "  changes +1 added, -0 removed, ~0 changed, 0 re-paletted (50% of cells aligned)"
                .to_string(),
            "  pack    1 blockstates, 2 models, 3 textures  [pack.zip]".to_string(),
            "  stat".to_string(),
            "    + 1  a".to_string(),
        ]
    );
    assert_eq!(lines.len() as u32 + 1, summary_lines(true, true, true, 2, false));
}

#[test]
fn one_side_is_detailed() {
    let none = Vec::new();
    let added = details(false, &None, &Some(loaded(0)), None, None, &none);
    assert_eq!(
        added,
        vec![
            format!("  after   {LINE}"),
            "  changes not computed (only one side exists)".to_string(),
        ]
    );
    assert_eq!(added.len() as u32 + 1, summary_lines(false, true, false, 0, false));
    for (before, after) in [(None, Some(loaded(0))), (Some(loaded(0)), None)] {
        let lines = details(true, &before, &after, None, None, &none);
        assert_eq!(lines, vec![format!("  build   {LINE}")]);
        assert_eq!(
            lines.len() as u32 + 1,
            summary_lines(before.is_some(), after.is_some(), false, 0, true)
        );
    }
}

#[test]
fn two_missing_sides_are_not_compared() {
    assert_eq!(
        details(false, &None, &None, None, None, &Vec::new()),
        vec!["  changes not computed (only one side exists)".to_string()]
    );
}

#[test]
fn a_missing_image_is_explained() {
    assert_eq!(no_image_reason(Some("a.png"), false), "no image drawn; it was written to a.png");
    assert_eq!(
        no_image_reason(None, false),
        "no terminal to draw in; pass --output=<file> to save the image, or run this \
         under kitty, Ghostty or Konsole"
    );
    assert_eq!(
        no_image_reason(None, true),
        "the terminal was not recognised as speaking the kitty graphics protocol; pass --kitty \
         to draw anyway"
    );
}

#[test]
fn a_pack_needs_blockstates() {
    let stats = |blockstates: usize| PackStats { blockstates, models: 0, textures: 0 };
    assert!(check_pack("p", &stats(1)).is_ok());
    assert_eq!(
        check_pack("p", &stats(0)).unwrap_err().to_text(),
        "p holds no blockstates, so it is not a resource pack"
    );
}

#[test]
fn an_image_is_drawn_or_explained() {
    let all = image_steps(true, true, true);
    assert!(all.save && all.draw && !all.explain);
    let saved = image_steps(true, false, true);
    assert!(saved.save && !saved.draw && saved.explain);
    let none = image_steps(false, true, true);
    assert!(!none.save && !none.draw && !none.explain);
}
