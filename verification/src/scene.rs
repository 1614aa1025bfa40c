//! What is drawn: the changes grouped into categories, the grid that shows them,
//! and the panels of the image.

use vstd::prelude::*;
use vstd::multiset::Multiset;
use crate::changes::{at, Block, Change, Changes, Position, Replacement};
use crate::color::{
    air, channel, color_of, dye_color, is_blend, lemma_color_is_visible, lemma_tint_shows,
    lemma_tinted_is_a_blend, name_color, pack, packed, rgb, tint, tinted,
};
use crate::error::{failure, Error};
use crate::format::{is_sound_side, Loaded};
use crate::layout::{fits, Panel, Segment};
use crate::render::{
    any_seen, cell_total, extent_size, greatest_of, is_tight, least_of, no_room, oversized, seen,
    shows_blocks, tells_grid, tells_grid_over, within, Bounds, Grid, MAX_CELLS,
};
use crate::schematic::{back, built, stands, tells};

verus! {

/// Category colours, the single source of truth for the pixels showing a change
/// and the caption text naming it, so the legend cannot drift from what it
/// describes.
pub const ADDED_COLOR: u32 = 0x70_B9_19;

pub const REMOVED_COLOR: u32 = 0xA1_27_22;

pub const CHANGED_COLOR: u32 = 0xF8_C5_27;

pub const SWAPPED_COLOR: u32 = 0x3A_AF_D9;

/// Caption greys, kept apart from the category colours so a legend stays readable
/// even where one of those colours is dark against the background.
pub const CAPTION_TEXT: [u8; 3] = [222, 226, 234];

pub const ADDED_TEXT: [u8; 3] = [146, 208, 80];

pub const REMOVED_TEXT: [u8; 3] = [228, 138, 133];

/// A changed cell with the block to draw in it.
#[derive(Clone, Copy)]
pub struct Shown<'a> {
    pub position: [i32; 3],
    pub block: &'a Block,
}

/// One category of change: the changed cells, and the colour they are shown in.
///
/// For a removal the block is the one that used to be there; every other category
/// shows the block that is there now, which is what the change produced.
pub struct Category<'a> {
    pub color: u32,
    pub cells: Vec<Shown<'a>>,
}

/// A category as plain values: its colour, and the position and block of each
/// cell.
pub type Group = (u32, Seq<(Position, Block)>);

impl<'a> Category<'a> {
    pub open spec fn group(self) -> Group {
        (
            self.color,
            Seq::new(
                self.cells@.len(),
                |i: int| (at(self.cells@[i].position), *self.cells@[i].block),
            ),
        )
    }
}

/// Some categories as plain values.
pub open spec fn groups(categories: Seq<Category<'_>>) -> Seq<Group> {
    Seq::new(categories.len(), |i: int| categories[i].group())
}

/// The cells that one side has and the other has not, with their blocks.
pub open spec fn lone_cells(list: Seq<Change>) -> Seq<(Position, Block)> {
    Seq::new(list.len(), |i: int| (at(list[i].position), list[i].block))
}

/// The cells that both sides have, with the blocks that are there now.
pub open spec fn new_cells(list: Seq<Replacement>) -> Seq<(Position, Block)> {
    Seq::new(list.len(), |i: int| (at(list[i].position), list[i].now))
}

/// A category, if it has cells.
pub open spec fn if_any(color: u32, cells: Seq<(Position, Block)>) -> Seq<Group> {
    if cells.len() == 0 {
        Seq::empty()
    } else {
        seq![(color, cells)]
    }
}

/// The categories of a difference.
pub open spec fn grouped(changes: Changes) -> Seq<Group> {
    if_any(ADDED_COLOR, lone_cells(changes.added@)) + if_any(
        REMOVED_COLOR,
        lone_cells(changes.removed@),
    ) + if_any(CHANGED_COLOR, new_cells(changes.changed@)) + if_any(
        SWAPPED_COLOR,
        new_cells(changes.swapped@),
    )
}

fn push_lone<'a>(out: &mut Vec<Category<'a>>, color: u32, list: &'a Vec<Change>)
    ensures
        groups(final(out)@) == groups(old(out)@) + if_any(color, lone_cells(list@)),
{
    if list.len() == 0 {
        assert(groups(out@) =~= groups(out@) + if_any(color, lone_cells(list@)));
        return;
    }
    let ghost before = groups(out@);
    let mut cells: Vec<Shown<'a>> = Vec::new();
    let mut i: usize = 0;
    while i < list.len()
        invariant
            i <= list.len(),
            cells@.len() == i,
            forall|k: int|
                0 <= k < i ==> (#[trigger] cells@[k]).position == list@[k].position
                    && *cells@[k].block == list@[k].block,
        decreases list.len() - i,
    {
        cells.push(Shown { position: list[i].position, block: &list[i].block });
        i = i + 1;
    }
    let category = Category { color, cells };
    assert(category.group().1 =~= lone_cells(list@));
    out.push(category);
    assert(groups(out@) =~= before + if_any(color, lone_cells(list@)));
}

fn push_new<'a>(out: &mut Vec<Category<'a>>, color: u32, list: &'a Vec<Replacement>)
    ensures
        groups(final(out)@) == groups(old(out)@) + if_any(color, new_cells(list@)),
{
    if list.len() == 0 {
        assert(groups(out@) =~= groups(out@) + if_any(color, new_cells(list@)));
        return;
    }
    let ghost before = groups(out@);
    let mut cells: Vec<Shown<'a>> = Vec::new();
    let mut i: usize = 0;
    while i < list.len()
        invariant
            i <= list.len(),
            cells@.len() == i,
            forall|k: int|
                0 <= k < i ==> (#[trigger] cells@[k]).position == list@[k].position
                    && *cells@[k].block == list@[k].now,
        decreases list.len() - i,
    {
        cells.push(Shown { position: list[i].position, block: &list[i].now });
        i = i + 1;
    }
    let category = Category { color, cells };
    assert(category.group().1 =~= new_cells(list@));
    out.push(category);
    assert(groups(out@) =~= before + if_any(color, new_cells(list@)));
}

/// The changes, grouped into the categories they are drawn in.
///
/// Grouping is what lets each category be drawn in its own colour: a category is
/// meshed on its own, and the colour is applied as the panel is rasterized, so the
/// renderer never has to work out which category a triangle belongs to.
///
/// A change is defined against both sides, so where only one exists there is none
/// to show.
pub fn change_categories<'a>(changes: Option<&'a Changes>) -> (r: Vec<Category<'a>>)
    ensures
        groups(r@) == (match changes {
            Some(changes) => grouped(*changes),
            None => Seq::empty(),
        }),
{
    let mut out: Vec<Category<'a>> = Vec::new();
    assert(groups(out@) =~= Seq::empty());
    match changes {
        Some(changes) => {
            push_lone(&mut out, ADDED_COLOR, &changes.added);
            push_lone(&mut out, REMOVED_COLOR, &changes.removed);
            push_new(&mut out, CHANGED_COLOR, &changes.changed);
            push_new(&mut out, SWAPPED_COLOR, &changes.swapped);
            assert(groups(out@) =~= grouped(*changes));
        },
        None => {},
    }
    out
}

/// The colour of a changed block: its own, with the category's laid over it.
pub open spec fn marked(name: Seq<char>, color: u32) -> int {
    let own = color_of(name);
    packed(
        tinted(channel(own, 0), channel(color as int, 0)) as int,
        tinted(channel(own, 1), channel(color as int, 1)) as int,
        tinted(channel(own, 2), channel(color as int, 2)) as int,
    )
}

/// The colour of the last of the first `n` cells of a category at a position, if one
/// of them is there.
pub open spec fn last_mark(
    cells: Seq<(Position, Block)>,
    n: int,
    color: u32,
    p: Position,
) -> Option<int>
    decreases n,
{
    if n <= 0 {
        None
    } else if cells[n - 1].0 == p {
        Some(marked(cells[n - 1].1.name@, color))
    } else {
        last_mark(cells, n - 1, color, p)
    }
}

/// The colour of a position once the first `n` categories are drawn, zero where
/// none of them has it.
pub open spec fn drawn_mark(all: Seq<Group>, n: int, p: Position) -> int
    decreases n,
{
    if n <= 0 {
        0
    } else {
        match last_mark(all[n - 1].1, all[n - 1].1.len() as int, all[n - 1].0, p) {
            Some(mark) => mark,
            None => drawn_mark(all, n - 1, p),
        }
    }
}

/// Each category of a list has a colour that shows on any block.
pub open spec fn shows_on_blocks(color: u32) -> bool {
    channel(color as int, 0) >= 2 || channel(color as int, 1) >= 2 || channel(color as int, 2) >= 2
}

/// A changed cell is never invisible: its colour is not zero.
pub proof fn lemma_mark_is_visible(name: Seq<char>, color: u32)
    requires
        shows_on_blocks(color),
    ensures
        0 < marked(name, color) < 0x100_0000,
{
    let own = color_of(name);
    lemma_color_is_visible(name);
    lemma_tint_shows(channel(own, 0), channel(color as int, 0));
    lemma_tint_shows(channel(own, 1), channel(color as int, 1));
    lemma_tint_shows(channel(own, 2), channel(color as int, 2));
}

/// The colour that a changed cell is drawn in.
fn mark(name: &str, color: u32) -> (r: u32)
    ensures
        r == marked(name@, color),
{
    let own = color_bytes(name_color(name));
    let over = color_bytes(color);
    pack(tint(own, over))
}

/// Some categories all show on any block.
pub open spec fn all_show(all: Seq<Group>) -> bool {
    forall|i: int| 0 <= i < all.len() ==> shows_on_blocks((#[trigger] all[i]).0)
}

/// The categories of a difference all show on any block.
pub proof fn lemma_groups_show(changes: Changes)
    ensures
        all_show(grouped(changes)),
{
}

/// Draw one category into a grid.
fn draw_category(
    grid: &mut Grid,
    category: &Category<'_>,
    Ghost(all): Ghost<Seq<Group>>,
    Ghost(n): Ghost<int>,
)
    requires
        old(grid).wf(),
        0 <= n < all.len(),
        all[n] == category.group(),
        forall|p: Position|
            within(old(grid).low(), old(grid).high(), p) ==> #[trigger] old(grid).shade(p)
                == drawn_mark(all, n, p),
    ensures
        final(grid).wf(),
        final(grid).low() == old(grid).low(),
        final(grid).high() == old(grid).high(),
        forall|p: Position|
            within(old(grid).low(), old(grid).high(), p) ==> #[trigger] final(grid).shade(p)
                == drawn_mark(all, n + 1, p),
{
    let ghost cells = category.group().1;
    let ghost low = grid.low();
    let ghost high = grid.high();
    let color: u32 = category.color;
    let mut i: usize = 0;
    while i < category.cells.len()
        invariant
            i <= category.cells.len(),
            color == category.color,
            cells == category.group().1,
            cells.len() == category.cells@.len(),
            grid.wf(),
            grid.low() == low,
            grid.high() == high,
            forall|p: Position|
                within(low, high, p) ==> #[trigger] grid.shade(p) == (match last_mark(
                    cells,
                    i as int,
                    color,
                    p,
                ) {
                    Some(mark) => mark,
                    None => drawn_mark(all, n, p),
                }),
        decreases category.cells.len() - i,
    {
        let cell = category.cells[i];
        let shade: u32 = mark(cell.block.name.as_str(), color);
        proof {
            assert(cells[i as int] == (at(cell.position), *cell.block));
        }
        grid.set(cell.position[0], cell.position[1], cell.position[2], shade);
        i = i + 1;
    }
}

/// What a grid of some categories over a frame is.
pub open spec fn tells_changes(r: Result<Grid, Error>, frame: Bounds, all: Seq<Group>) -> bool {
    let size = extent_size(frame.low(), frame.high());
    if 0 < cell_total(size) <= MAX_CELLS {
        match r {
            Ok(grid) => grid.wf() && grid.low() == frame.low() && grid.high() == frame.high()
                && forall|p: Position|
                within(frame.low(), frame.high(), p) ==> #[trigger] grid.shade(p) == drawn_mark(
                    all,
                    all.len() as int,
                    p,
                ),
            Err(error) => error.text() == no_room(size),
        }
    } else {
        failure(r) == Some(oversized(size))
    }
}

/// The changed blocks as a grid, for the flat renderer's changes panel.
///
/// Each cell holds the colour of the block that changed, with the category's
/// colour laid over it — the same treatment the meshed panels give their textures,
/// and what keeps the two renderers showing the same thing.
///
/// The grid spans the union extent, because a removal can sit outside the after
/// build's own bounds: that is precisely what a shrunken build looks like, and it
/// has to stay visible.
pub fn changes_grid(frame: Bounds, categories: &Vec<Category<'_>>) -> (r: Result<Grid, Error>)
    ensures
        tells_changes(r, frame, groups(categories@)),
{
    settle_changes(Grid::empty_over(frame), categories)
}

/// Draw some categories into the empty grid that was granted, or hand the refusal on.
pub fn settle_changes(granted: Result<Grid, Error>, categories: &Vec<Category<'_>>) -> (r: Result<
    Grid,
    Error,
>)
    requires
        granted matches Ok(grid) ==> grid.wf() && forall|p: Position| #[trigger] grid.shade(p) == 0,
    ensures
        match granted {
            Ok(grid) => r is Ok && r->Ok_0.wf() && r->Ok_0.low() == grid.low() && r->Ok_0.high()
                == grid.high() && forall|p: Position|
                within(grid.low(), grid.high(), p) ==> #[trigger] r->Ok_0.shade(p) == drawn_mark(
                    groups(categories@),
                    categories@.len() as int,
                    p,
                ),
            Err(error) => failure(r) == Some(error.text()),
        },
{
    let mut grid = match granted {
        Ok(grid) => grid,
        Err(error) => {
            return Err(error);
        },
    };
    let ghost all = groups(categories@);
    let ghost low = grid.low();
    let ghost high = grid.high();
    let mut i: usize = 0;
    while i < categories.len()
        invariant
            i <= categories.len(),
            all == groups(categories@),
            grid.wf(),
            grid.low() == low,
            grid.high() == high,
            forall|p: Position|
                within(low, high, p) ==> #[trigger] grid.shade(p) == drawn_mark(all, i as int, p),
        decreases categories.len() - i,
    {
        proof {
            assert(all[i as int] == categories@[i as int].group());
        }
        draw_category(&mut grid, &categories[i], Ghost(all), Ghost(i as int));
        i = i + 1;
    }
    Ok(grid)
}

/// Every changed cell inside the frame shows in the grid of changes.
pub proof fn lemma_changed_cells_show(all: Seq<Group>, g: int, k: int, n: int)
    requires
        all_show(all),
        0 <= g < n <= all.len(),
        0 <= k < all[g].1.len(),
    ensures
        drawn_mark(all, n, all[g].1[k].0) != 0,
    decreases n,
{
    let p = all[g].1[k].0;
    let (color, cells) = all[n - 1];
    lemma_last_mark(cells, cells.len() as int, color, p);
    if g == n - 1 {
        assert(cells[k].0 == p);
    } else {
        lemma_changed_cells_show(all, g, k, n - 1);
    }
}

proof fn lemma_last_mark(cells: Seq<(Position, Block)>, n: int, color: u32, p: Position)
    requires
        shows_on_blocks(color),
        0 <= n <= cells.len(),
    ensures
        last_mark(cells, n, color, p) != Some(0int),
        last_mark(cells, n, color, p) is Some <==> exists|k: int|
            0 <= k < n && (#[trigger] cells[k]).0 == p,
    decreases n,
{
    if n > 0 {
        lemma_mark_is_visible(cells[n - 1].1.name@, color);
        lemma_last_mark(cells, n - 1, color, p);
    }
}

/// A frame is the one for two extents: the least that holds both.
pub open spec fn is_frame(frame: Bounds, before: Option<Bounds>, after: Option<Bounds>) -> bool {
    match (before, after) {
        (Some(b), Some(a)) => frame.low() == least_of(b.low(), a.low()) && frame.high()
            == greatest_of(b.high(), a.high()),
        (Some(b), None) => frame == b,
        (None, Some(a)) => frame == a,
        (None, None) => frame.low() == (0int, 0int, 0int) && frame.high() == (0int, 0int, 0int),
    }
}

/// One frame for every panel: framing each side to its own extent would rescale the
/// two independently and hide the size change being inspected.
pub fn shared_frame(before: Option<Bounds>, after: Option<Bounds>) -> (r: Bounds)
    ensures
        is_frame(r, before, after),
{
    match (before, after) {
        (Some(b), Some(a)) => b.union(a),
        (Some(b), None) => b,
        (None, Some(a)) => a,
        (None, None) => Bounds::default(),
    }
}

/// What the grid of a side is, where the side exists.
pub open spec fn tells_side(r: Result<Option<Grid>, Error>, side: Option<Loaded>) -> bool {
    match side {
        Some(loaded) => match r {
            Ok(Some(grid)) => tells_grid(Ok(grid), built(loaded.schematic)),
            Ok(None) => false,
            Err(error) => tells_grid(Err(error), built(loaded.schematic)),
        },
        None => r == Ok::<Option<Grid>, Error>(None),
    }
}

/// Rasterize one side, if it exists.
pub fn grid_of(side: &Option<Loaded>) -> (r: Result<Option<Grid>, Error>)
    requires
        is_sound_side(*side),
    ensures
        tells_side(r, *side),
{
    match side {
        Some(loaded) => match Grid::from_schematic(&loaded.schematic) {
            Ok(grid) => Ok(Some(grid)),
            Err(error) => Err(error),
        },
        None => Ok(None),
    }
}

/// What is drawn where no resource pack is given: the two sides and the changed
/// blocks as grids, and the extent that they are all framed to.
pub struct FlatScene {
    pub before: Option<Grid>,
    pub after: Option<Grid>,
    /// The changed blocks, if there are any.
    pub changes: Option<Grid>,
    pub frame: Bounds,
}

/// A frame is the one for two grids.
pub open spec fn frames(frame: Bounds, before: Option<Grid>, after: Option<Grid>) -> bool {
    match (before, after) {
        (Some(b), Some(a)) => frame.low() == least_of(b.low(), a.low()) && frame.high()
            == greatest_of(b.high(), a.high()),
        (Some(b), None) => frame.low() == b.low() && frame.high() == b.high(),
        (None, Some(a)) => frame.low() == a.low() && frame.high() == a.high(),
        (None, None) => frame.low() == (0int, 0int, 0int) && frame.high() == (0int, 0int, 0int),
    }
}

/// A scene is the one for two sides and the categories of their changes.
pub open spec fn is_scene(
    scene: FlatScene,
    before: Option<Loaded>,
    after: Option<Loaded>,
    all: Seq<Group>,
) -> bool {
    &&& tells_side(Ok(scene.before), before)
    &&& tells_side(Ok(scene.after), after)
    &&& frames(scene.frame, scene.before, scene.after)
    &&& match scene.changes {
        Some(grid) => all.len() > 0 && tells_changes(Ok(grid), scene.frame, all),
        None => all.len() == 0,
    }
}

/// A scene is refused in these words: because the first side is, or the second, or
/// the grid of the changes over their common extent.
pub open spec fn is_refused_scene(
    error: Error,
    before: Option<Loaded>,
    after: Option<Loaded>,
    all: Seq<Group>,
) -> bool {
    ||| tells_side(Err(error), before)
    ||| tells_side(Err(error), after)
    ||| all.len() > 0 && exists|b: Option<Grid>, a: Option<Grid>, frame: Bounds|
        tells_side(Ok(b), before) && tells_side(Ok(a), after) && #[trigger] frames(frame, b, a)
            && tells_changes(Err(error), frame, all)
}

/// What is drawn where no resource pack is given.
pub fn flat_scene(
    before: &Option<Loaded>,
    after: &Option<Loaded>,
    categories: &Vec<Category<'_>>,
) -> (r: Result<FlatScene, Error>)
    requires
        is_sound_side(*before),
        is_sound_side(*after),
    ensures
        match r {
            Ok(scene) => is_scene(scene, *before, *after, groups(categories@)),
            Err(error) => is_refused_scene(error, *before, *after, groups(categories@)),
        },
{
    let first = grid_of(before);
    let second = grid_of(after);
    let changes = match (&first, &second) {
        (Ok(b), Ok(a)) => {
            if categories.len() == 0 {
                None
            } else {
                Some(changes_grid(frame_of(b, a), categories))
            }
        },
        _ => None,
    };
    settle_scene(first, second, changes)
}

/// The frame for two grids.
fn frame_of(before: &Option<Grid>, after: &Option<Grid>) -> (r: Bounds)
    requires
        is_sound_grid(*before),
        is_sound_grid(*after),
    ensures
        frames(r, *before, *after),
{
    shared_frame(
        match before {
            Some(grid) => Some(grid.bounds()),
            None => None,
        },
        match after {
            Some(grid) => Some(grid.bounds()),
            None => None,
        },
    )
}

/// A grid that may be missing is sound.
pub open spec fn is_sound_grid(grid: Option<Grid>) -> bool {
    grid matches Some(grid) ==> grid.wf()
}

/// Put a scene together from what became of its two sides and, where there are any, of
/// its changes, or hand the first refusal on.
pub fn settle_scene(
    before: Result<Option<Grid>, Error>,
    after: Result<Option<Grid>, Error>,
    changes: Option<Result<Grid, Error>>,
) -> (r: Result<FlatScene, Error>)
    requires
        before matches Ok(grid) ==> is_sound_grid(grid),
        after matches Ok(grid) ==> is_sound_grid(grid),
    ensures
        match (before, after, changes) {
            (Err(error), _, _) => failure(r) == Some(error.text()),
            (_, Err(error), _) => failure(r) == Some(error.text()),
            (_, _, Some(Err(error))) => failure(r) == Some(error.text()),
            (Ok(b), Ok(a), Some(Ok(grid))) => r is Ok && r->Ok_0.before == b && r->Ok_0.after == a
                && r->Ok_0.changes == Some(grid) && frames(r->Ok_0.frame, b, a),
            (Ok(b), Ok(a), None) => r is Ok && r->Ok_0.before == b && r->Ok_0.after == a
                && r->Ok_0.changes is None && frames(r->Ok_0.frame, b, a),
        },
{
    let before = match before {
        Ok(grid) => grid,
        Err(error) => {
            return Err(error);
        },
    };
    let after = match after {
        Ok(grid) => grid,
        Err(error) => {
            return Err(error);
        },
    };
    let changes = match changes {
        Some(Ok(grid)) => Some(grid),
        Some(Err(error)) => {
            return Err(error);
        },
        None => None,
    };
    let frame = frame_of(&before, &after);
    Ok(FlatScene { before, after, changes, frame })
}

/// A grid holds every position at which it shows a block.
proof fn lemma_seen_is_held(
    grid: Grid,
    blocks: Multiset<(Position, Seq<char>)>,
    p: Position,
    name: Seq<char>,
)
    requires
        tells_grid(Ok(grid), blocks),
        seen(blocks, p, name),
    ensures
        within(grid.low(), grid.high(), p),
{
    assert(any_seen(blocks));
    let (low, high) = choose|low: Position, high: Position| #[trigger]
        is_tight(low, high, blocks) && tells_grid_over(Ok(grid), blocks, low, high);
    assert(failure(Ok::<Grid, Error>(grid)) is None);
}

/// The block of a changed cell is one that stands there: before the change where it
/// was removed, and after it otherwise.
proof fn lemma_grouped_stands(
    changes: Changes,
    before: Multiset<(Position, Seq<char>)>,
    after: Multiset<(Position, Seq<char>)>,
    g: int,
    k: int,
)
    requires
        tells(changes, before, after, (0int, 0int, 0int)),
        0 <= g < grouped(changes).len(),
        0 <= k < grouped(changes)[g].1.len(),
    ensures
        ({
            let (p, block) = grouped(changes)[g].1[k];
            stands(before, p, block.name@) || stands(after, p, block.name@)
        }),
{
    let a = if_any(ADDED_COLOR, lone_cells(changes.added@));
    let b = a + if_any(REMOVED_COLOR, lone_cells(changes.removed@));
    let c = b + if_any(CHANGED_COLOR, new_cells(changes.changed@));
    let (p, block) = grouped(changes)[g].1[k];
    assert(back(p, (0int, 0int, 0int)) == p);
    if g < a.len() {
        assert(grouped(changes)[g] == a[g]);
        assert(stands(after, at(changes.added@[k].position), changes.added@[k].block.name@));
    } else if g < b.len() {
        assert(grouped(changes)[g] == b[g]);
        let change = changes.removed@[k];
        assert(stands(
            before,
            back(at(change.position), (0int, 0int, 0int)),
            change.block.name@,
        ));
    } else if g < c.len() {
        assert(grouped(changes)[g] == c[g]);
        assert(stands(after, at(changes.changed@[k].position), changes.changed@[k].now.name@));
    } else {
        assert(stands(after, at(changes.swapped@[k].position), changes.swapped@[k].now.name@));
    }
}

/// Every change shows: where the builds were laid over each other as they stand,
/// each changed cell whose block is not air lies in the frame of the scene and is
/// marked in its grid of changes.
pub proof fn lemma_every_change_shows(
    scene: FlatScene,
    before: Loaded,
    after: Loaded,
    changes: Changes,
    g: int,
    k: int,
)
    requires
        is_scene(scene, Some(before), Some(after), grouped(changes)),
        tells(changes, built(before.schematic), built(after.schematic), (0int, 0int, 0int)),
        0 <= g < grouped(changes).len(),
        0 <= k < grouped(changes)[g].1.len(),
        !air(grouped(changes)[g].1[k].1.name@),
    ensures
        within(scene.frame.low(), scene.frame.high(), grouped(changes)[g].1[k].0),
        scene.changes is Some,
        scene.changes->0.shade(grouped(changes)[g].1[k].0) != 0,
{
    let all = grouped(changes);
    let (p, block) = all[g].1[k];
    let old_blocks = built(before.schematic);
    let new_blocks = built(after.schematic);
    lemma_grouped_stands(changes, old_blocks, new_blocks, g, k);
    if stands(old_blocks, p, block.name@) {
        assert(seen(old_blocks, p, block.name@));
        lemma_seen_is_held(scene.before->0, old_blocks, p, block.name@);
    } else {
        assert(seen(new_blocks, p, block.name@));
        lemma_seen_is_held(scene.after->0, new_blocks, p, block.name@);
    }
    lemma_groups_show(changes);
    lemma_changed_cells_show(all, g, k, all.len() as int);
    assert(failure(Ok::<Grid, Error>(scene.changes->0)) is None);
}

/// Some categories have a cell: one of the given colour holds it, at that position and with
/// that block.
pub open spec fn has_cell(
    categories: Seq<Category<'_>>,
    color: u32,
    position: [i32; 3],
    block: Block,
) -> bool {
    exists|g: int, k: int|
        0 <= g < categories.len() && 0 <= k < categories[g].cells@.len() && is_cell(
            #[trigger] categories[g],
            #[trigger] categories[g].cells@[k],
            color,
            position,
            block,
        )
}

/// A cell of a category has the given colour, position and block.
pub open spec fn is_cell(
    category: Category<'_>,
    cell: Shown<'_>,
    color: u32,
    position: [i32; 3],
    block: Block,
) -> bool {
    category.color == color && cell.position@ == position@ && *cell.block == block
}

/// How many cells some categories have in all.
pub open spec fn cells_in(categories: Seq<Category<'_>>) -> nat
    decreases categories.len(),
{
    if categories.len() == 0 {
        0
    } else {
        cells_in(categories.drop_last()) + categories.last().cells@.len()
    }
}

/// The cells of some groups, counted.
spec fn cells_of(all: Seq<Group>) -> nat
    decreases all.len(),
{
    if all.len() == 0 {
        0
    } else {
        cells_of(all.drop_last()) + all.last().1.len()
    }
}

proof fn lemma_cells_of_groups(categories: Seq<Category<'_>>)
    ensures
        cells_in(categories) == cells_of(groups(categories)),
    decreases categories.len(),
{
    if categories.len() > 0 {
        assert(groups(categories).drop_last() =~= groups(categories.drop_last()));
        lemma_cells_of_groups(categories.drop_last());
    }
}

proof fn lemma_cells_of_one_more(all: Seq<Group>, color: u32, cells: Seq<(Position, Block)>)
    ensures
        cells_of(all + if_any(color, cells)) == cells_of(all) + cells.len(),
{
    let more = all + if_any(color, cells);
    if cells.len() == 0 {
        assert(more =~= all);
    } else {
        assert(more.drop_last() =~= all);
    }
}

/// A cell of a group is one of the category that the group is of.
proof fn lemma_group_cell_is_held(
    categories: Seq<Category<'_>>,
    g: int,
    k: int,
    color: u32,
    position: [i32; 3],
    block: Block,
)
    requires
        0 <= g < categories.len(),
        0 <= k < groups(categories)[g].1.len(),
        groups(categories)[g].0 == color,
        groups(categories)[g].1[k] == (at(position), block),
    ensures
        has_cell(categories, color, position, block),
{
    let category = categories[g];
    assert(groups(categories)[g] == category.group());
    let cell = category.cells@[k];
    assert(cell.position@ =~= position@) by {
        assert(at(cell.position) == at(position));
    }
    assert(is_cell(categories[g], categories[g].cells@[k], color, position, block));
}

/// Every change is in a category of its own kind: each added cell in one of the colour of
/// what is added, with the block that was added; each removed cell in one of the colour of
/// what is removed, with the block that was there; and each changed or re-paletted cell in
/// one of its colour, with the block that is there now. The categories hold no more cells
/// than these.
#[verifier::rlimit(60)]
pub proof fn lemma_every_change_has_its_category(changes: &Changes, r: Vec<Category<'_>>)
    requires
        call_ensures(change_categories, (Some(changes),), r),
    ensures
        forall|i: int|
            0 <= i < changes.added@.len() ==> has_cell(
                r@,
                ADDED_COLOR,
                (#[trigger] changes.added@[i]).position,
                changes.added@[i].block,
            ),
        forall|i: int|
            0 <= i < changes.removed@.len() ==> has_cell(
                r@,
                REMOVED_COLOR,
                (#[trigger] changes.removed@[i]).position,
                changes.removed@[i].block,
            ),
        forall|i: int|
            0 <= i < changes.changed@.len() ==> has_cell(
                r@,
                CHANGED_COLOR,
                (#[trigger] changes.changed@[i]).position,
                changes.changed@[i].now,
            ),
        forall|i: int|
            0 <= i < changes.swapped@.len() ==> has_cell(
                r@,
                SWAPPED_COLOR,
                (#[trigger] changes.swapped@[i]).position,
                changes.swapped@[i].now,
            ),
        cells_in(r@) == changes.added@.len() + changes.removed@.len() + changes.changed@.len()
            + changes.swapped@.len(),
{
    let a = if_any(ADDED_COLOR, lone_cells(changes.added@));
    let b = if_any(REMOVED_COLOR, lone_cells(changes.removed@));
    let c = if_any(CHANGED_COLOR, new_cells(changes.changed@));
    let d = if_any(SWAPPED_COLOR, new_cells(changes.swapped@));
    let all = groups(r@);
    assert(all == a + b + c + d);
    assert forall|i: int| 0 <= i < changes.added@.len() implies has_cell(
        r@,
        ADDED_COLOR,
        (#[trigger] changes.added@[i]).position,
        changes.added@[i].block,
    ) by {
        assert(all[0] == a[0]);
        let change = changes.added@[i];
        lemma_group_cell_is_held(r@, 0, i, ADDED_COLOR, change.position, change.block);
    }
    assert forall|i: int| 0 <= i < changes.removed@.len() implies has_cell(
        r@,
        REMOVED_COLOR,
        (#[trigger] changes.removed@[i]).position,
        changes.removed@[i].block,
    ) by {
        let g = a.len() as int;
        assert(all[g] == b[0]);
        let change = changes.removed@[i];
        lemma_group_cell_is_held(r@, g, i, REMOVED_COLOR, change.position, change.block);
    }
    assert forall|i: int| 0 <= i < changes.changed@.len() implies has_cell(
        r@,
        CHANGED_COLOR,
        (#[trigger] changes.changed@[i]).position,
        changes.changed@[i].now,
    ) by {
        let g = (a.len() + b.len()) as int;
        assert(all[g] == c[0]);
        let change = changes.changed@[i];
        lemma_group_cell_is_held(r@, g, i, CHANGED_COLOR, change.position, change.now);
    }
    assert forall|i: int| 0 <= i < changes.swapped@.len() implies has_cell(
        r@,
        SWAPPED_COLOR,
        (#[trigger] changes.swapped@[i]).position,
        changes.swapped@[i].now,
    ) by {
        let g = (a.len() + b.len() + c.len()) as int;
        assert(all[g] == d[0]);
        let change = changes.swapped@[i];
        lemma_group_cell_is_held(r@, g, i, SWAPPED_COLOR, change.position, change.now);
    }
    lemma_cells_of_groups(r@);
    lemma_cells_of_one_more(Seq::empty(), ADDED_COLOR, lone_cells(changes.added@));
    lemma_cells_of_one_more(a, REMOVED_COLOR, lone_cells(changes.removed@));
    lemma_cells_of_one_more(a + b, CHANGED_COLOR, new_cells(changes.changed@));
    lemma_cells_of_one_more(a + b + c, SWAPPED_COLOR, new_cells(changes.swapped@));
    assert(Seq::<Group>::empty() + a =~= a);
}

/// A cell is the one at some place in a list of lone cells.
pub open spec fn is_lone_cell(list: Seq<Change>, k: int, cell: Shown<'_>) -> bool {
    0 <= k < list.len() && cell.position@ == list[k].position@ && *cell.block == list[k].block
}

/// A cell is the one at some place in a list of replacements, with the block that is there
/// now.
pub open spec fn is_new_cell(list: Seq<Replacement>, k: int, cell: Shown<'_>) -> bool {
    0 <= k < list.len() && cell.position@ == list[k].position@ && *cell.block == list[k].now
}

/// The place of a category among the four, by its colour.
pub open spec fn category_rank(color: u32) -> int {
    if color == ADDED_COLOR {
        0
    } else if color == REMOVED_COLOR {
        1
    } else if color == CHANGED_COLOR {
        2
    } else {
        3
    }
}

/// Every cell of a category is a change of its kind: the list that the colour of the category
/// stands for has it in the same place, at that position and with that block. No category is
/// empty, those of what is added, removed, changed and re-paletted come in this order, and
/// where there is nothing to compare there is none.
#[verifier::rlimit(60)]
pub proof fn lemma_every_category_is_of_changes(
    changes: Option<&Changes>,
    r: Vec<Category<'_>>,
    g: int,
    k: int,
)
    requires
        call_ensures(change_categories, (changes,), r),
        0 <= g < r@.len(),
    ensures
        changes is Some,
        r@[g].cells@.len() > 0,
        forall|h: int|
            g < h < r@.len() ==> category_rank(r@[g].color) < category_rank(
                (#[trigger] r@[h]).color,
            ),
        0 <= k < r@[g].cells@.len() ==> {
            let cell = r@[g].cells@[k];
            ||| r@[g].color == ADDED_COLOR && is_lone_cell(changes->0.added@, k, cell)
            ||| r@[g].color == REMOVED_COLOR && is_lone_cell(changes->0.removed@, k, cell)
            ||| r@[g].color == CHANGED_COLOR && is_new_cell(changes->0.changed@, k, cell)
            ||| r@[g].color == SWAPPED_COLOR && is_new_cell(changes->0.swapped@, k, cell)
        },
{
    let all = groups(r@);
    assert(all[g] == r@[g].group());
    if changes is None {
        assert(all =~= Seq::<Group>::empty());
        assert(all.len() == r@.len());
    }
    let a = if_any(ADDED_COLOR, lone_cells(changes->0.added@));
    let b = if_any(REMOVED_COLOR, lone_cells(changes->0.removed@));
    let c = if_any(CHANGED_COLOR, new_cells(changes->0.changed@));
    let d = if_any(SWAPPED_COLOR, new_cells(changes->0.swapped@));
    assert(all == a + b + c + d);
    assert forall|h: int| g < h < r@.len() implies category_rank(r@[g].color) < category_rank(
        (#[trigger] r@[h]).color,
    ) by {
        assert(all[h] == r@[h].group());
    }
    if 0 <= k < r@[g].cells@.len() {
        let cell = r@[g].cells@[k];
        let (p, block) = all[g].1[k];
        assert(p == at(cell.position) && block == *cell.block);
        if g < a.len() {
            assert(all[g] == a[g]);
            assert(cell.position@ =~= changes->0.added@[k].position@);
        } else if g < a.len() + b.len() {
            assert(all[g] == b[0]);
            assert(cell.position@ =~= changes->0.removed@[k].position@);
        } else if g < a.len() + b.len() + c.len() {
            assert(all[g] == c[0]);
            assert(cell.position@ =~= changes->0.changed@[k].position@);
        } else {
            assert(all[g] == d[0]);
            assert(cell.position@ =~= changes->0.swapped@[k].position@);
        }
    }
}

/// Each kind of change is shown in a colour of its own, that of a dye: lime for what is added,
/// red for what is removed, yellow for what is changed and light blue for what is re-paletted.
#[verifier::rlimit(60)]
pub proof fn lemma_category_colors_are_dyes(
    lime: Option<u32>,
    red: Option<u32>,
    yellow: Option<u32>,
    light_blue: Option<u32>,
)
    requires
        call_ensures(dye_color, ("lime",), lime),
        call_ensures(dye_color, ("red",), red),
        call_ensures(dye_color, ("yellow",), yellow),
        call_ensures(dye_color, ("light_blue",), light_blue),
    ensures
        lime == Some(ADDED_COLOR),
        red == Some(REMOVED_COLOR),
        yellow == Some(CHANGED_COLOR),
        light_blue == Some(SWAPPED_COLOR),
        ADDED_COLOR != REMOVED_COLOR && ADDED_COLOR != CHANGED_COLOR && ADDED_COLOR
            != SWAPPED_COLOR && REMOVED_COLOR != CHANGED_COLOR && REMOVED_COLOR != SWAPPED_COLOR
            && CHANGED_COLOR != SWAPPED_COLOR,
{
    reveal_strlit("white");
    reveal_strlit("orange");
    reveal_strlit("magenta");
    reveal_strlit("light_blue");
    reveal_strlit("yellow");
    reveal_strlit("lime");
    reveal_strlit("pink");
    reveal_strlit("gray");
    reveal_strlit("light_gray");
    reveal_strlit("cyan");
    reveal_strlit("purple");
    reveal_strlit("blue");
    reveal_strlit("brown");
    reveal_strlit("green");
    reveal_strlit("red");
    assert("lime"@[0] == 'l' && "lime"@.len() == 4);
    assert("red"@[0] == 'r' && "red"@.len() == 3);
    assert("yellow"@[0] == 'y' && "yellow"@.len() == 6);
    assert("light_blue"@[6] == 'b' && "light_blue"@.len() == 10);
    assert("pink"@[0] == 'p' && "orange"@[0] == 'o');
}

/// A cell is the last that some categories have at its position: no later one of its category
/// is there, nor any of a later category.
pub open spec fn is_last_cell(categories: Seq<Category<'_>>, g: int, k: int) -> bool {
    &&& 0 <= g < categories.len()
    &&& 0 <= k < categories[g].cells@.len()
    &&& forall|h: int, l: int|
        #![trigger categories[h].cells@[l]]
        0 <= h < categories.len() && 0 <= l < categories[h].cells@.len() && (h > g || h == g && l
            > k) ==> at(categories[h].cells@[l].position) != at(categories[g].cells@[k].position)
}

/// A colour is that of a block with a category's laid over it, channel by channel.
pub open spec fn is_laid_over(shade: int, own: int, color: u32) -> bool {
    &&& 0 <= shade < 0x100_0000
    &&& is_blend(shade / 65536, channel(own, 0), channel(color as int, 0))
    &&& is_blend((shade / 256) % 256, channel(own, 1), channel(color as int, 1))
    &&& is_blend(shade % 256, channel(own, 2), channel(color as int, 2))
}

proof fn lemma_packed_comes_apart(red: int, green: int, blue: int)
    requires
        0 <= red <= 255,
        0 <= green <= 255,
        0 <= blue <= 255,
    ensures
        0 <= packed(red, green, blue) < 0x100_0000,
        packed(red, green, blue) / 65536 == red,
        (packed(red, green, blue) / 256) % 256 == green,
        packed(red, green, blue) % 256 == blue,
{
}

#[verifier::rlimit(60)]
proof fn lemma_mark_is_laid_over(name: Seq<char>, color: u32)
    ensures
        is_laid_over(marked(name, color), color_of(name), color),
{
    let own = color_of(name);
    let (a, b, c) = (channel(own, 0), channel(own, 1), channel(own, 2));
    let over = color as int;
    let (d, e, f) = (channel(over, 0), channel(over, 1), channel(over, 2));
    lemma_tinted_is_a_blend(a, d);
    lemma_tinted_is_a_blend(b, e);
    lemma_tinted_is_a_blend(c, f);
    lemma_tint_shows(a, d);
    lemma_tint_shows(b, e);
    lemma_tint_shows(c, f);
    lemma_packed_comes_apart(tinted(a, d) as int, tinted(b, e) as int, tinted(c, f) as int);
    let shade = marked(name, color);
    assert(shade == packed(tinted(a, d) as int, tinted(b, e) as int, tinted(c, f) as int));
    assert(shade / 65536 == tinted(a, d));
    assert((shade / 256) % 256 == tinted(b, e));
    assert(shade % 256 == tinted(c, f));
}

proof fn lemma_last_mark_is_the_last(
    cells: Seq<(Position, Block)>,
    n: int,
    color: u32,
    p: Position,
    k: int,
)
    requires
        0 <= n <= cells.len(),
    ensures
        0 <= k < n && cells[k].0 == p && (forall|l: int|
            k < l < n ==> (#[trigger] cells[l]).0 != p) ==> last_mark(cells, n, color, p) == Some(
            marked(cells[k].1.name@, color),
        ),
        (forall|l: int| 0 <= l < n ==> (#[trigger] cells[l]).0 != p) ==> last_mark(
            cells,
            n,
            color,
            p,
        ) is None,
    decreases n,
{
    if n > 0 {
        lemma_last_mark_is_the_last(cells, n - 1, color, p, k);
    }
}

proof fn lemma_drawn_mark_is_the_last(
    categories: Seq<Category<'_>>,
    n: int,
    g: int,
    k: int,
)
    requires
        is_last_cell(categories, g, k),
        g < n <= categories.len(),
    ensures
        drawn_mark(groups(categories), n, at(categories[g].cells@[k].position)) == marked(
            categories[g].cells@[k].block.name@,
            categories[g].color,
        ),
    decreases n,
{
    let p = at(categories[g].cells@[k].position);
    let all = groups(categories);
    let (color, cells) = all[n - 1];
    assert(all[n - 1] == categories[n - 1].group());
    lemma_last_mark_is_the_last(cells, cells.len() as int, color, p, k);
    assert forall|l: int|
        0 <= l < cells.len() && (n - 1 > g || n - 1 == g && l > k) implies (#[trigger] cells[l]).0
        != p by {
        assert(at(categories[n - 1].cells@[l].position) != p);
    }
    if n - 1 > g {
        lemma_drawn_mark_is_the_last(categories, n - 1, g, k);
    }
}

proof fn lemma_no_mark(categories: Seq<Category<'_>>, n: int, p: Position)
    requires
        0 <= n <= categories.len(),
        forall|h: int, l: int|
            #![trigger categories[h].cells@[l]]
            0 <= h < categories.len() && 0 <= l < categories[h].cells@.len() ==> at(
                categories[h].cells@[l].position,
            ) != p,
    ensures
        drawn_mark(groups(categories), n, p) == 0,
    decreases n,
{
    if n > 0 {
        let all = groups(categories);
        let (color, cells) = all[n - 1];
        assert(all[n - 1] == categories[n - 1].group());
        assert forall|l: int| 0 <= l < cells.len() implies (#[trigger] cells[l]).0 != p by {
            assert(at(categories[n - 1].cells@[l].position) != p);
        }
        lemma_last_mark_is_the_last(cells, cells.len() as int, color, p, 0);
        lemma_no_mark(categories, n - 1, p);
    }
}

/// The grid of changes spans its frame, and a cell in it has the colour of the last change
/// there: that of its block with that of its category laid over it.
pub proof fn lemma_grid_shows_the_last_change(
    frame: Bounds,
    categories: &Vec<Category<'_>>,
    r: Result<Grid, Error>,
    g: int,
    k: int,
)
    requires
        call_ensures(changes_grid, (frame, categories), r),
        r is Ok,
        is_last_cell(categories@, g, k),
        within(frame.low(), frame.high(), at(categories@[g].cells@[k].position)),
    ensures
        r->Ok_0.low() == frame.low(),
        r->Ok_0.high() == frame.high(),
        is_laid_over(
            r->Ok_0.shade(at(categories@[g].cells@[k].position)) as int,
            color_of(categories@[g].cells@[k].block.name@),
            categories@[g].color,
        ),
{
    assert(failure(r) is None);
    lemma_drawn_mark_is_the_last(categories@, categories@.len() as int, g, k);
    lemma_mark_is_laid_over(categories@[g].cells@[k].block.name@, categories@[g].color);
}

/// The grid of changes is empty where nothing changed.
pub proof fn lemma_grid_shows_changes_only(
    frame: Bounds,
    categories: &Vec<Category<'_>>,
    r: Result<Grid, Error>,
    p: Position,
)
    requires
        call_ensures(changes_grid, (frame, categories), r),
        r is Ok,
        forall|h: int, l: int|
            #![trigger categories@[h].cells@[l]]
            0 <= h < categories@.len() && 0 <= l < categories@[h].cells@.len() ==> at(
                categories@[h].cells@[l].position,
            ) != p,
    ensures
        r->Ok_0.shade(p) == 0,
{
    assert(failure(r) is None);
    lemma_no_mark(categories@, categories@.len() as int, p);
}

/// A changed cell of a difference: it is in one of the four lists, and the block is the one
/// that was added, that was removed, or that is there now.
pub open spec fn is_changed_cell(changes: Changes, p: Position, name: Seq<char>) -> bool {
    ||| exists|i: int|
        0 <= i < changes.added@.len() && at((#[trigger] changes.added@[i]).position) == p
            && changes.added@[i].block.name@ == name
    ||| exists|i: int|
        0 <= i < changes.removed@.len() && at((#[trigger] changes.removed@[i]).position) == p
            && changes.removed@[i].block.name@ == name
    ||| exists|i: int|
        0 <= i < changes.changed@.len() && at((#[trigger] changes.changed@[i]).position) == p
            && changes.changed@[i].now.name@ == name
    ||| exists|i: int|
        0 <= i < changes.swapped@.len() && at((#[trigger] changes.swapped@[i]).position) == p
            && changes.swapped@[i].now.name@ == name
}

/// A changed cell of a difference is one of a group of it.
#[verifier::rlimit(60)]
proof fn lemma_changed_cell_is_grouped(changes: Changes, p: Position, name: Seq<char>) -> (r: (
    int,
    int,
))
    requires
        is_changed_cell(changes, p, name),
    ensures
        0 <= r.0 < grouped(changes).len(),
        0 <= r.1 < grouped(changes)[r.0].1.len(),
        grouped(changes)[r.0].1[r.1].0 == p,
        grouped(changes)[r.0].1[r.1].1.name@ == name,
{
    let a = if_any(ADDED_COLOR, lone_cells(changes.added@));
    let b = if_any(REMOVED_COLOR, lone_cells(changes.removed@));
    let c = if_any(CHANGED_COLOR, new_cells(changes.changed@));
    let d = if_any(SWAPPED_COLOR, new_cells(changes.swapped@));
    let all = grouped(changes);
    assert(all == a + b + c + d);
    if exists|i: int|
        0 <= i < changes.added@.len() && at((#[trigger] changes.added@[i]).position) == p
            && changes.added@[i].block.name@ == name {
        let i = choose|i: int|
            0 <= i < changes.added@.len() && at((#[trigger] changes.added@[i]).position) == p
                && changes.added@[i].block.name@ == name;
        assert(all[0] == a[0]);
        (0, i)
    } else if exists|i: int|
        0 <= i < changes.removed@.len() && at((#[trigger] changes.removed@[i]).position) == p
            && changes.removed@[i].block.name@ == name {
        let i = choose|i: int|
            0 <= i < changes.removed@.len() && at((#[trigger] changes.removed@[i]).position) == p
                && changes.removed@[i].block.name@ == name;
        let g = a.len() as int;
        assert(all[g] == b[0]);
        (g, i)
    } else if exists|i: int|
        0 <= i < changes.changed@.len() && at((#[trigger] changes.changed@[i]).position) == p
            && changes.changed@[i].now.name@ == name {
        let i = choose|i: int|
            0 <= i < changes.changed@.len() && at((#[trigger] changes.changed@[i]).position) == p
                && changes.changed@[i].now.name@ == name;
        let g = (a.len() + b.len()) as int;
        assert(all[g] == c[0]);
        (g, i)
    } else {
        let i = choose|i: int|
            0 <= i < changes.swapped@.len() && at((#[trigger] changes.swapped@[i]).position) == p
                && changes.swapped@[i].now.name@ == name;
        let g = (a.len() + b.len() + c.len()) as int;
        assert(all[g] == d[0]);
        (g, i)
    }
}

/// Every change of a difference shows, whichever of the four lists it is in: where the builds
/// were laid over each other as they stand, and the scene was made of the categories of their
/// difference, each changed cell whose block is not air lies in the frame and is marked.
pub proof fn lemma_every_listed_change_shows(
    scene: FlatScene,
    before: &Option<Loaded>,
    after: &Option<Loaded>,
    changes: &Changes,
    categories: &Vec<Category<'_>>,
    p: Position,
    name: Seq<char>,
)
    requires
        call_ensures(change_categories, (Some(changes),), *categories),
        call_ensures(flat_scene, (before, after, categories), Ok::<FlatScene, Error>(scene)),
        before is Some,
        after is Some,
        tells(
            *changes,
            built(before->0.schematic),
            built(after->0.schematic),
            (0int, 0int, 0int),
        ),
        is_changed_cell(*changes, p, name),
        !air(name),
    ensures
        within(scene.frame.low(), scene.frame.high(), p),
        scene.changes is Some,
        scene.changes->0.shade(p) != 0,
{
    let (g, k) = lemma_changed_cell_is_grouped(*changes, p, name);
    lemma_every_change_shows(scene, before->0, after->0, *changes, g, k);
}

/// Each side of a scene is drawn in its own grid: a block that stands alone in its cell before
/// the change has its colour there in the grid before, one after it in the grid after, and a
/// cell that is drawn in a grid has a block in the build of that side.
pub proof fn lemma_sides_are_drawn_apart(
    scene: FlatScene,
    before: &Option<Loaded>,
    after: &Option<Loaded>,
    categories: &Vec<Category<'_>>,
    p: Position,
)
    requires
        call_ensures(flat_scene, (before, after, categories), Ok::<FlatScene, Error>(scene)),
    ensures
        scene.before is Some <==> before is Some,
        scene.after is Some <==> after is Some,
        before matches Some(loaded) ==> shows_its_blocks(
            scene.before->0,
            built(loaded.schematic),
            p,
        ),
        after matches Some(loaded) ==> shows_its_blocks(
            scene.after->0,
            built(loaded.schematic),
            p,
        ),
        scene.changes is Some <==> categories@.len() > 0,
{
    if before is Some {
        lemma_grid_shows_its_blocks(scene.before->0, built(before->0.schematic), p);
    }
    if after is Some {
        lemma_grid_shows_its_blocks(scene.after->0, built(after->0.schematic), p);
    }
}

/// A grid shows some blocks at one position: it is coloured exactly where one stands that is
/// not air, in the colour of such a block.
pub open spec fn shows_its_blocks(
    grid: Grid,
    blocks: Multiset<(Position, Seq<char>)>,
    p: Position,
) -> bool {
    &&& grid.shade(p) != 0 <==> exists|name: Seq<char>|
        !air(name) && #[trigger] blocks.count((p, name)) > 0
    &&& grid.shade(p) != 0 ==> exists|name: Seq<char>|
        !air(name) && #[trigger] blocks.count((p, name)) > 0 && grid.shade(p) == color_of(name)
}

proof fn lemma_grid_shows_its_blocks(
    grid: Grid,
    blocks: Multiset<(Position, Seq<char>)>,
    p: Position,
)
    requires
        tells_grid(Ok(grid), blocks),
    ensures
        shows_its_blocks(grid, blocks, p),
{
    assert(failure(Ok::<Grid, Error>(grid)) is None);
    if any_seen(blocks) {
        let (low, high) = choose|low: Position, high: Position| #[trigger]
            is_tight(low, high, blocks) && tells_grid_over(Ok(grid), blocks, low, high);
        assert(shows_blocks(grid, blocks));
        if grid.shade(p) != 0 {
            let name = choose|name: Seq<char>| #[trigger]
                seen(blocks, p, name) && color_of(name) == grid.shade(p);
            assert(blocks.count((p, name)) > 0);
        }
        if exists|name: Seq<char>| !air(name) && #[trigger] blocks.count((p, name)) > 0 {
            let name = choose|name: Seq<char>|
                !air(name) && #[trigger] blocks.count((p, name)) > 0;
            assert(seen(blocks, p, name));
        }
    } else {
        assert forall|name: Seq<char>| !(!air(name) && #[trigger] blocks.count((p, name)) > 0) by {
            assert(!seen(blocks, p, name));
        }
        if within(grid.low(), grid.high(), p) {
            assert(p == (0int, 0int, 0int));
        }
    }
}

/// The shared frame holds the extents of both sides, and reaches no further than one of them
/// along any axis, so that all panels are drawn to one scale.
pub proof fn lemma_frame_is_the_least_for_both(
    before: Option<Bounds>,
    after: Option<Bounds>,
    r: Bounds,
)
    requires
        call_ensures(shared_frame, (before, after), r),
    ensures
        forall|i: int|
            0 <= i < 3 ==> {
                &&& before matches Some(b) ==> #[trigger] r.min@[i] <= b.min@[i] && r.max@[i]
                    >= b.max@[i]
                &&& after matches Some(a) ==> r.min@[i] <= a.min@[i] && r.max@[i] >= a.max@[i]
                &&& before is Some || after is Some ==> (before is Some && r.min@[i]
                    == before->0.min@[i] || after is Some && r.min@[i] == after->0.min@[i])
                &&& before is Some || after is Some ==> (before is Some && r.max@[i]
                    == before->0.max@[i] || after is Some && r.max@[i] == after->0.max@[i])
            },
{
    assert forall|i: int| 0 <= i < 3 implies {
        &&& before matches Some(b) ==> #[trigger] r.min@[i] <= b.min@[i] && r.max@[i] >= b.max@[i]
        &&& after matches Some(a) ==> r.min@[i] <= a.min@[i] && r.max@[i] >= a.max@[i]
        &&& before is Some || after is Some ==> (before is Some && r.min@[i] == before->0.min@[i]
            || after is Some && r.min@[i] == after->0.min@[i])
        &&& before is Some || after is Some ==> (before is Some && r.max@[i] == before->0.max@[i]
            || after is Some && r.max@[i] == after->0.max@[i])
    } by {
        assert(i == 0 || i == 1 || i == 2);
    }
}

/// A caption as plain values: the text and colour of each run.
pub open spec fn runs(caption: Seq<Segment>) -> Seq<(Seq<char>, Seq<u8>)> {
    Seq::new(caption.len(), |i: int| (caption[i].text@, caption[i].color@))
}

/// The channels of a packed colour.
pub open spec fn channels(color: u32) -> Seq<u8> {
    seq![channel(color as int, 0), channel(color as int, 1), channel(color as int, 2)]
}

/// The caption of the changes panel, one run per category, each drawn in the colour
/// of the blocks it names.
pub open spec fn legend_runs() -> Seq<(Seq<char>, Seq<u8>)> {
    seq![
        ("CHANGES  "@, CAPTION_TEXT@),
        ("+added  "@, channels(ADDED_COLOR)),
        ("-removed  "@, channels(REMOVED_COLOR)),
        ("*changed  "@, channels(CHANGED_COLOR)),
        ("#re-paletted"@, channels(SWAPPED_COLOR)),
    ]
}

fn color_bytes(color: u32) -> (r: [u8; 3])
    ensures
        r@ == channels(color),
{
    let r = rgb(color);
    assert(r@ =~= channels(color));
    r
}

/// The caption of the changes panel.
pub fn change_legend() -> (r: Vec<Segment>)
    ensures
        runs(r@) == legend_runs(),
{
    let mut out: Vec<Segment> = Vec::new();
    out.push(Segment::new("CHANGES  ".to_owned(), CAPTION_TEXT));
    out.push(Segment::new("+added  ".to_owned(), color_bytes(ADDED_COLOR)));
    out.push(Segment::new("-removed  ".to_owned(), color_bytes(REMOVED_COLOR)));
    out.push(Segment::new("*changed  ".to_owned(), color_bytes(CHANGED_COLOR)));
    out.push(Segment::new("#re-paletted".to_owned(), color_bytes(SWAPPED_COLOR)));
    assert(runs(out@) =~= legend_runs());
    out
}

/// A panel is the one with this caption and picture.
pub open spec fn is_panel<P>(
    panel: Panel<P>,
    caption: Seq<(Seq<char>, Seq<u8>)>,
    picture: P,
) -> bool {
    runs(panel.caption@) == caption && panel.picture == picture
}

/// The panels of an image: before, after, then the changed blocks.
///
/// Two panels are always drawn, so the comparison survives a narrow window; the
/// changes panel is the one that can go. The after panel carries the note that
/// nothing changed: it is the side the diff is read against, and the one a reader
/// looks at when nothing is tinted.
pub open spec fn are_panels<P>(
    r: Seq<Panel<P>>,
    before: Option<P>,
    after: Option<P>,
    changes: Option<P>,
    names: (Seq<char>, Seq<char>),
    standalone: bool,
    width: u32,
) -> bool {
    match (before, after) {
        (Some(b), Some(a)) => {
            let note = if changes is Some {
                Seq::empty()
            } else {
                "  (no changes)"@
            };
            &&& r.len() == if changes is Some && width >= 1080 {
                3int
            } else {
                2
            }
            &&& is_panel(r[0], seq![("BEFORE  "@ + names.0, CAPTION_TEXT@)], b)
            &&& is_panel(r[1], seq![("AFTER  "@ + names.1 + note, CAPTION_TEXT@)], a)
            &&& r.len() == 3 ==> is_panel(r[2], legend_runs(), changes->0)
        },
        (None, Some(a)) => r.len() == 1 && is_panel(
            r[0],
            if standalone {
                seq![(names.1, CAPTION_TEXT@)]
            } else {
                seq![("ADDED  "@ + names.1, ADDED_TEXT@)]
            },
            a,
        ),
        (Some(b), None) => r.len() == 1 && is_panel(
            r[0],
            if standalone {
                seq![(names.0, CAPTION_TEXT@)]
            } else {
                seq![("DELETED  "@ + names.0, REMOVED_TEXT@)]
            },
            b,
        ),
        (None, None) => r.len() == 0,
    }
}

fn titled<P>(title: &str, name: &str, note: &str, color: [u8; 3], picture: P) -> (r: Panel<P>)
    ensures
        is_panel(r, seq![(title@ + name@ + note@, color@)], picture),
{
    let mut text = title.to_owned();
    text.append(name);
    text.append(note);
    let panel = Panel::new(text, color, picture);
    assert(runs(panel.caption@) =~= seq![(title@ + name@ + note@, color@)]);
    panel
}

/// Choose the panels of an image.
///
/// The layout is the same in both renderers, so only what each panel is drawn from
/// differs.
pub fn choose_panels<P>(
    before: Option<P>,
    after: Option<P>,
    changes: Option<P>,
    before_name: &str,
    after_name: &str,
    standalone: bool,
    width: u32,
) -> (r: Vec<Panel<P>>)
    ensures
        are_panels(
            r@,
            before,
            after,
            changes,
            (before_name@, after_name@),
            standalone,
            width,
        ),
{
    proof {
        reveal_strlit("");
        assert("BEFORE  "@ + before_name@ + ""@ =~= "BEFORE  "@ + before_name@);
        assert("AFTER  "@ + after_name@ + ""@ =~= "AFTER  "@ + after_name@ + Seq::<char>::empty());
        assert("ADDED  "@ + after_name@ + ""@ =~= "ADDED  "@ + after_name@);
        assert("DELETED  "@ + before_name@ + ""@ =~= "DELETED  "@ + before_name@);
        assert(""@ + before_name@ + ""@ =~= before_name@);
        assert(""@ + after_name@ + ""@ =~= after_name@);
    }
    let mut panels: Vec<Panel<P>> = Vec::new();
    match (before, after) {
        (Some(b), Some(a)) => {
            let note = if changes.is_some() {
                ""
            } else {
                "  (no changes)"
            };
            panels.push(titled("BEFORE  ", before_name, "", CAPTION_TEXT, b));
            panels.push(titled("AFTER  ", after_name, note, CAPTION_TEXT, a));
            match changes {
                Some(changes) => {
                    if fits(width, 3) {
                        panels.push(Panel::legend(change_legend(), changes));
                    }
                },
                None => {},
            }
        },
        (None, Some(a)) => {
            panels.push(
                if standalone {
                    titled("", after_name, "", CAPTION_TEXT, a)
                } else {
                    titled("ADDED  ", after_name, "", ADDED_TEXT, a)
                },
            );
        },
        (Some(b), None) => {
            panels.push(
                if standalone {
                    titled("", before_name, "", CAPTION_TEXT, b)
                } else {
                    titled("DELETED  ", before_name, "", REMOVED_TEXT, b)
                },
            );
        },
        (None, None) => {},
    }
    panels
}

/// A caption names a side: it starts with some word, and the name of the side's file follows.
pub open spec fn names_side(caption: Seq<Segment>, word: Seq<char>, name: Seq<char>) -> bool {
    caption.len() == 1 && (word + name).is_prefix_of(caption[0].text@)
}

/// Of two sides the one before the change is the panel on the left and the one after it the
/// next, each under its own name; the changes are a third where there are any and the image
/// is wide enough, and only the panel after the change says that there are none. Of one side
/// there is one panel, which says what became of it unless it is looked at by itself.
#[verifier::rlimit(60)]
pub proof fn lemma_panels_show_their_sides<P>(
    before: Option<P>,
    after: Option<P>,
    changes: Option<P>,
    before_name: &str,
    after_name: &str,
    standalone: bool,
    width: u32,
    r: Vec<Panel<P>>,
)
    requires
        call_ensures(
            choose_panels::<P>,
            (before, after, changes, before_name, after_name, standalone, width),
            r,
        ),
    ensures
        before is Some && after is Some ==> {
            &&& r@.len() >= 2
            &&& r@[0].picture == before->0
            &&& names_side(r@[0].caption@, "BEFORE  "@, before_name@)
            &&& r@[1].picture == after->0
            &&& names_side(r@[1].caption@, "AFTER  "@, after_name@)
            &&& r@.len() == 3 <==> changes is Some && width >= 1080
            &&& r@.len() == 3 ==> r@[2].picture == changes->0
            &&& r@.len() <= 3
            &&& changes is None ==> r@[1].caption@[0].text@ == "AFTER  "@ + after_name@
                + "  (no changes)"@
            &&& changes is Some ==> r@[1].caption@[0].text@ == "AFTER  "@ + after_name@
            &&& r@[0].caption@[0].text@ == "BEFORE  "@ + before_name@
        },
        before is None && after is Some ==> {
            &&& r@.len() == 1
            &&& r@[0].picture == after->0
            &&& standalone ==> r@[0].caption@.len() == 1 && r@[0].caption@[0].text@ == after_name@
            &&& !standalone ==> names_side(r@[0].caption@, "ADDED  "@, after_name@)
        },
        before is Some && after is None ==> {
            &&& r@.len() == 1
            &&& r@[0].picture == before->0
            &&& standalone ==> r@[0].caption@.len() == 1 && r@[0].caption@[0].text@ == before_name@
            &&& !standalone ==> names_side(r@[0].caption@, "DELETED  "@, before_name@)
        },
        before is None && after is None ==> r@.len() == 0,
{
    if r@.len() > 0 {
        lemma_run_is_its_segment(r@[0].caption@);
    }
    if r@.len() > 1 {
        lemma_run_is_its_segment(r@[1].caption@);
    }
    assert forall|front: Seq<char>, rest: Seq<char>| #[trigger]
        front.is_prefix_of(front + rest) by {
        assert((front + rest).subrange(0, front.len() as int) =~= front);
    }
    let none: Seq<char> = Seq::empty();
    assert("AFTER  "@ + after_name@ + none =~= "AFTER  "@ + after_name@);
    let first = "BEFORE  "@ + before_name@;
    assert(first.is_prefix_of(first + none) && first + none =~= first);
    let second = "AFTER  "@ + after_name@;
    assert(second.is_prefix_of(second + none) && second.is_prefix_of(second + "  (no changes)"@));
    let added = "ADDED  "@ + after_name@;
    assert(added.is_prefix_of(added + none) && added + none =~= added);
    let deleted = "DELETED  "@ + before_name@;
    assert(deleted.is_prefix_of(deleted + none) && deleted + none =~= deleted);
}

/// A caption has as many runs as segments, and the first run is the first segment.
proof fn lemma_run_is_its_segment(caption: Seq<Segment>)
    ensures
        runs(caption).len() == caption.len(),
        caption.len() > 0 ==> runs(caption)[0] == (caption[0].text@, caption[0].color@),
{
}

/// The legend names each kind of change in the colour that its cells are shown in.
pub proof fn lemma_legend_has_the_colors_of_the_cells(r: Vec<Segment>)
    requires
        call_ensures(change_legend, (), r),
    ensures
        r@.len() == 5,
        r@[0].text@ == "CHANGES  "@ && r@[0].color@ == seq![222u8, 226u8, 234u8],
        r@[1].text@ == "+added  "@ && spells_color(r@[1].color, ADDED_COLOR),
        r@[2].text@ == "-removed  "@ && spells_color(r@[2].color, REMOVED_COLOR),
        r@[3].text@ == "*changed  "@ && spells_color(r@[3].color, CHANGED_COLOR),
        r@[4].text@ == "#re-paletted"@ && spells_color(r@[4].color, SWAPPED_COLOR),
{
    let told = runs(r@);
    assert(told.len() == 5);
    assert(CAPTION_TEXT@ =~= seq![222u8, 226u8, 234u8]);
    assert(told[0] == (r@[0].text@, r@[0].color@));
    assert(told[1] == (r@[1].text@, r@[1].color@));
    assert(told[2] == (r@[2].text@, r@[2].color@));
    assert(told[3] == (r@[3].text@, r@[3].color@));
    assert(told[4] == (r@[4].text@, r@[4].color@));
}

/// Three channels are those of a packed colour, red first.
pub open spec fn spells_color(channels: [u8; 3], color: u32) -> bool {
    channels@[0] * 65536 + channels@[1] * 256 + channels@[2] == color
}

/// A caption has one run in a colour.
pub open spec fn is_in_color(caption: Seq<Segment>, red: u8, green: u8, blue: u8) -> bool {
    caption.len() == 1 && caption[0].color@ == seq![red, green, blue]
}

/// The captions say by their colour what became of a side: that of a build that was added is
/// green, that of one that was deleted is red, and any other is a light grey.
pub proof fn lemma_captions_have_their_colors<P>(
    before: Option<P>,
    after: Option<P>,
    changes: Option<P>,
    before_name: &str,
    after_name: &str,
    standalone: bool,
    width: u32,
    r: Vec<Panel<P>>,
)
    requires
        call_ensures(
            choose_panels::<P>,
            (before, after, changes, before_name, after_name, standalone, width),
            r,
        ),
    ensures
        before is Some && after is Some ==> is_in_color(r@[0].caption@, 222, 226, 234)
            && is_in_color(r@[1].caption@, 222, 226, 234),
        before is None && after is Some && !standalone ==> is_in_color(
            r@[0].caption@,
            146,
            208,
            80,
        ),
        before is Some && after is None && !standalone ==> is_in_color(
            r@[0].caption@,
            228,
            138,
            133,
        ),
        standalone && (before is Some) != (after is Some) ==> is_in_color(
            r@[0].caption@,
            222,
            226,
            234,
        ),
{
    if r@.len() > 0 {
        lemma_run_is_its_segment(r@[0].caption@);
    }
    if r@.len() > 1 {
        lemma_run_is_its_segment(r@[1].caption@);
    }
    assert(CAPTION_TEXT@ =~= seq![222u8, 226u8, 234u8]);
    assert(ADDED_TEXT@ =~= seq![146u8, 208u8, 80u8]);
    assert(REMOVED_TEXT@ =~= seq![228u8, 138u8, 133u8]);
}

/// A scene is framed to both of its sides: their grids lie in the frame, and along each axis
/// the frame begins where one of them begins and ends where one of them ends. The grid of
/// changes spans the frame.
pub proof fn lemma_scene_is_framed_to_both(
    scene: FlatScene,
    before: &Option<Loaded>,
    after: &Option<Loaded>,
    categories: &Vec<Category<'_>>,
)
    requires
        call_ensures(flat_scene, (before, after, categories), Ok::<FlatScene, Error>(scene)),
    ensures
        scene.before matches Some(grid) ==> within(
            scene.frame.low(),
            scene.frame.high(),
            grid.low(),
        ) && within(scene.frame.low(), scene.frame.high(), grid.high()),
        scene.after matches Some(grid) ==> within(
            scene.frame.low(),
            scene.frame.high(),
            grid.low(),
        ) && within(scene.frame.low(), scene.frame.high(), grid.high()),
        scene.changes matches Some(grid) ==> grid.low() == scene.frame.low() && grid.high()
            == scene.frame.high(),
        scene.before is Some && scene.after is Some ==> {
            let (b, a, f) = (scene.before->0, scene.after->0, scene.frame);
            &&& f.low().0 == b.low().0 || f.low().0 == a.low().0
            &&& f.low().1 == b.low().1 || f.low().1 == a.low().1
            &&& f.low().2 == b.low().2 || f.low().2 == a.low().2
            &&& f.high().0 == b.high().0 || f.high().0 == a.high().0
            &&& f.high().1 == b.high().1 || f.high().1 == a.high().1
            &&& f.high().2 == b.high().2 || f.high().2 == a.high().2
        },
        scene.before is Some != scene.after is Some ==> {
            let grid = if scene.before is Some {
                scene.before->0
            } else {
                scene.after->0
            };
            scene.frame.low() == grid.low() && scene.frame.high() == grid.high()
        },
{
    if scene.before is Some {
        lemma_grid_is_sound(scene.before->0, before->0);
    }
    if scene.after is Some {
        lemma_grid_is_sound(scene.after->0, after->0);
    }
    if scene.changes is Some {
        assert(failure(Ok::<Grid, Error>(scene.changes->0)) is None);
    }
}

proof fn lemma_grid_is_sound(grid: Grid, loaded: Loaded)
    requires
        tells_grid(Ok(grid), built(loaded.schematic)),
    ensures
        grid.wf(),
        within(grid.low(), grid.high(), grid.low()),
        within(grid.low(), grid.high(), grid.high()),
{
    assert(failure(Ok::<Grid, Error>(grid)) is None);
    let blocks = built(loaded.schematic);
    if any_seen(blocks) {
        let (low, high) = choose|low: Position, high: Position| #[trigger]
            is_tight(low, high, blocks) && tells_grid_over(Ok(grid), blocks, low, high);
        assert(grid.wf());
    }
}

} // verus!
