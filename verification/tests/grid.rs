use nucleation::{BlockState, UniversalSchematic};
use schematic_diff::color::name_color;
use schematic_diff::error::Error;
use schematic_diff::render::{
    face_shade, grid_cell_count, next_axis, settle_blank, settle_cells, settle_grid, step_into,
    take_turn, Axis, Bounds, Crossings, Grid, Turn, Walk,
};
use schematic_diff::schematic::Cell;

fn build(blocks: &[(i32, i32, i32, &str)]) -> UniversalSchematic {
    let mut schematic = UniversalSchematic::new("test".to_string());
    for (x, y, z, name) in blocks {
        schematic.set_block(*x, *y, *z, &BlockState::new(*name));
    }
    schematic
}

#[test]
fn extents_unite() {
    let a = Bounds { min: [0, 0, 0], max: [2, 2, 2] };
    let b = Bounds { min: [-1, 1, 0], max: [1, 5, 2] };
    let both = Bounds { min: [-1, 0, 0], max: [2, 5, 2] };
    assert_eq!(a.union(b), both);
    assert_eq!(b.union(a), both);
    assert_eq!(a.union(a), a);
    let mut one = Bounds::singleton(1, 2, 3);
    one.extend(0, 9, 3);
    assert_eq!(one, Bounds { min: [0, 2, 3], max: [1, 9, 3] });
    assert_eq!(Bounds::default(), Bounds::singleton(0, 0, 0));
}

#[test]
fn sizes_are_held_to_their_range() {
    assert_eq!(Bounds { min: [0, 1, 2], max: [0, 2, 5] }.size(), [1, 2, 4]);
    assert_eq!(Bounds { min: [5, 0, 0], max: [4, -9, 0] }.size(), [0, 0, 1]);
    assert_eq!(
        Bounds { min: [i32::MIN, 0, 0], max: [i32::MAX, 0, 0] }.size(),
        [i32::MAX, 1, 1]
    );
}

#[test]
fn cells_are_counted_or_refused() {
    assert_eq!(grid_cell_count([2, 3, 4]).unwrap(), 24);
    assert_eq!(
        grid_cell_count([-1, -1, 1]).unwrap_err().to_text(),
        "the -1x-1x1 extent is too large to render"
    );
    assert_eq!(
        grid_cell_count([0, 3, 4]).unwrap_err().to_text(),
        "the 0x3x4 extent is too large to render"
    );
    assert_eq!(
        grid_cell_count([i32::MAX, i32::MAX, 3]).unwrap_err().to_text(),
        "the 2147483647x2147483647x3 extent is too large to render"
    );
}

#[test]
fn a_grid_holds_the_colours_of_a_build() {
    let schematic = build(&[
        (1, 2, 3, "minecraft:stone"),
        (2, 4, 3, "minecraft:dirt"),
        (9, 9, 9, "minecraft:cave_air"),
    ]);
    let grid = Grid::from_schematic(&schematic).unwrap();
    assert_eq!(grid.min, [1, 2, 3]);
    assert_eq!(grid.dims, [2, 3, 1]);
    assert_eq!(grid.cells.len(), 6);
    assert_eq!(grid.bounds(), Bounds { min: [1, 2, 3], max: [2, 4, 3] });
    assert_eq!(grid.color_at(1, 2, 3), Some(name_color("minecraft:stone")));
    assert_eq!(grid.color_at(2, 4, 3), Some(name_color("minecraft:dirt")));
    assert_eq!(grid.color_at(1, 3, 3), None);
    assert_eq!(grid.color_at(9, 9, 9), None);
    assert_eq!(grid.color_at(i32::MIN, 0, i32::MAX), None);
}

#[test]
fn an_empty_build_has_one_empty_cell() {
    let grid = Grid::from_schematic(&build(&[])).unwrap();
    assert_eq!(grid.min, [0, 0, 0]);
    assert_eq!(grid.dims, [1, 1, 1]);
    assert_eq!(grid.cells, vec![0]);
}

#[test]
fn a_build_that_is_too_large_is_refused() {
    let cell = |x: i32, y: i32, z: i32| Cell { x, y, z, name: "minecraft:stone" };
    assert_eq!(
        Grid::from_cells(&vec![cell(0, 0, 0), cell(1023, 1023, 512)]).unwrap_err().to_text(),
        "the build's 1024x1024x513 extent (537919488 cells) is too large to render"
    );
    let far = vec![cell(i32::MIN, i32::MIN, 0), cell(i32::MAX, i32::MAX, 9)];
    assert_eq!(
        Grid::from_cells(&far).unwrap_err().to_text(),
        "the 2147483647x2147483647x10 extent is too large to render"
    );
}

#[test]
fn the_last_cell_at_a_position_is_drawn() {
    let cells = vec![
        Cell { x: 0, y: 0, z: 0, name: "minecraft:stone" },
        Cell { x: 0, y: 0, z: 0, name: "minecraft:red_wool" },
        Cell { x: 0, y: 0, z: 0, name: "minecraft:air" },
    ];
    let grid = Grid::from_cells(&cells).unwrap();
    assert_eq!(grid.color_at(0, 0, 0), Some(name_color("minecraft:red_wool")));
}

#[test]
fn a_grid_is_made_of_the_room_that_is_granted() {
    let frame = Bounds { min: [0, 0, 0], max: [1, 0, 0] };
    let refused = || Err(Error::message("no room".to_string()));
    assert_eq!(settle_cells(Some(Vec::new()), 2, [2, 1, 1]).unwrap(), vec![0, 0]);
    assert_eq!(
        settle_cells(None, 2, [2, 1, 1]).unwrap_err().to_text(),
        "the 2x1x1 extent (2 cells) is too large to render"
    );
    let blank = settle_blank(frame, Ok(vec![0, 0])).unwrap();
    assert_eq!(blank.bounds(), frame);
    assert_eq!(blank.color_at(1, 0, 0), None);
    assert_eq!(settle_blank(frame, refused()).unwrap_err().to_text(), "no room");
    let cells = vec![
        Cell { x: 1, y: 0, z: 0, name: "minecraft:stone" },
        Cell { x: 0, y: 0, z: 0, name: "minecraft:dirt" },
        Cell { x: 1, y: 0, z: 0, name: "minecraft:red_wool" },
    ];
    let grid = settle_grid(&cells, frame, Ok(vec![0, 0])).unwrap();
    assert_eq!(grid.bounds(), frame);
    assert_eq!(grid.color_at(0, 0, 0), Some(name_color("minecraft:dirt")));
    assert_eq!(grid.color_at(1, 0, 0), Some(name_color("minecraft:red_wool")));
    assert_eq!(settle_grid(&cells, frame, refused()).unwrap_err().to_text(), "no room");
}

#[test]
fn an_empty_grid_is_written_cell_by_cell() {
    let frame = Bounds { min: [-1, -1, -1], max: [1, 1, 1] };
    let mut grid = Grid::empty_over(frame).unwrap();
    assert_eq!(grid.cells, vec![0; 27]);
    grid.set(0, 1, -1, 5);
    grid.set(2, 0, 0, 6);
    assert_eq!(grid.color_at(0, 1, -1), Some(5));
    assert_eq!(grid.cells.iter().filter(|cell| **cell != 0).count(), 1);
    assert_eq!(grid.cells[(2 * 3 + 0) * 3 + 1], 5);
    assert_eq!(
        Grid::empty_over(Bounds { min: [1, 0, 0], max: [0, 0, 0] }).unwrap_err().to_text(),
        "the 0x1x1 extent is too large to render"
    );
    assert_eq!(
        Grid::empty_over(Bounds { min: [0; 3], max: [1023, 1023, 512] }).unwrap_err().to_text(),
        "the 1024x1024x513 extent is too large to render"
    );
}

#[test]
fn a_ray_takes_the_first_boundary() {
    assert_eq!(next_axis(true, true, false), Axis::X);
    assert_eq!(next_axis(true, false, true), Axis::Z);
    assert_eq!(next_axis(false, true, true), Axis::Y);
    assert_eq!(next_axis(false, false, false), Axis::Z);
    assert_eq!(step_into([1, 2, 3], Axis::X, true), Some(([2, 2, 3], 3)));
    assert_eq!(step_into([1, 2, 3], Axis::Y, false), Some(([1, 1, 3], 1)));
    assert_eq!(step_into([1, 2, 3], Axis::Z, true), Some(([1, 2, 4], 5)));
    assert_eq!(step_into([1, 2, i32::MAX], Axis::Z, true), None);
    let (there, face) = step_into([1, 2, 3], Axis::Y, true).unwrap();
    let (back, opposite) = step_into(there, Axis::Y, false).unwrap();
    assert_eq!(back, [1, 2, 3]);
    assert_eq!((face + 3) % 6, opposite);
}

#[test]
fn a_ray_walks_until_it_hits_or_leaves() {
    let mut grid = Grid::empty_over(Bounds { min: [0; 3], max: [2, 0, 0] }).unwrap();
    grid.set(2, 0, 0, 0x123456);
    let mut walk = Walk { cell: [0, 0, 0], face: 3, forward: [true; 3] };
    let ahead = Crossings {
        x_before_y: true,
        x_before_z: true,
        y_before_z: true,
        past: [false, true, true],
    };
    for expected in [1, 2] {
        match take_turn(&walk, &grid, &ahead) {
            Turn::Onward { walk: next, axis } => {
                assert_eq!(axis, Axis::X);
                assert_eq!(next.cell, [expected, 0, 0]);
                walk = next;
            }
            other => panic!("{other:?}"),
        }
    }
    assert!(matches!(
        take_turn(&walk, &grid, &ahead),
        Turn::Hit { color: 0x123456, face: 3 }
    ));
    let sideways = Crossings { x_before_y: false, ..ahead };
    let start = Walk { cell: [0, 0, 0], face: 3, forward: [true; 3] };
    assert!(matches!(take_turn(&start, &grid, &sideways), Turn::Left));
}

#[test]
fn faces_are_lit_from_above() {
    assert_eq!([0, 1, 2, 3, 4, 5].map(face_shade), [82, 100, 68, 82, 55, 68]);
    for (face, level) in [(0u8, 0.82f32), (1, 1.0), (2, 0.68), (4, 0.55)] {
        assert_eq!(f32::from(face_shade(face)) / 100.0, level);
    }
}
