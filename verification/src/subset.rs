//! The changed blocks of one category as a build of their own.

use vstd::prelude::*;
use vstd::multiset::Multiset;
use nucleation::UniversalSchematic;
use crate::changes::{at, Block, Position, State};
use crate::error::{failure, Error};
use crate::format::{cell_holds, cell_is_empty, lemma_block_replaces, push_dimensions};
use crate::nbt::Fields;
use crate::render::{
    cell_total, extent_size, greatest_of, grid_cell_count, least_of, oversized, within, Bounds,
};
use crate::scene::Category;
use crate::schematic::{
    block_entities, built, entities, in_region, is_empty_room, is_walkable_span, keeps_to_room,
    make_block, may_refuse, new_build, occupied, place, region_total, replaced, restated, room,
    spans, stated, walkable, Coordinates,
};

verus! {

/// The blocks of a build once some cells were put down in it, one after another.
pub open spec fn laid(cells: Seq<(Position, Block)>) -> Multiset<(Position, Seq<char>)>
    decreases cells.len(),
{
    if cells.len() == 0 {
        Multiset::empty()
    } else {
        replaced(laid(cells.drop_last()), cells.last().0, cells.last().1.name@)
    }
}

/// The same with properties.
pub open spec fn laid_states(cells: Seq<(Position, Block)>) -> Multiset<(Position, State)>
    decreases cells.len(),
{
    if cells.len() == 0 {
        Multiset::empty()
    } else {
        restated(laid_states(cells.drop_last()), cells.last().0, cells.last().1.state())
    }
}

/// A build holds some changed cells and nothing else.
pub open spec fn is_subset(build: UniversalSchematic, cells: Seq<(Position, Block)>) -> bool {
    &&& built(build) == laid(cells)
    &&& stated(build) == laid_states(cells)
    &&& block_entities(build) == Map::<Position, (Seq<char>, Fields)>::empty()
    &&& entities(build) == Multiset::<(Seq<char>, Coordinates)>::empty()
    &&& region_total(build) == 1
}

/// What is said of changed blocks behind which there is no cell to step on to.
pub open spec fn at_the_end() -> Seq<char> {
    "the changed blocks reach the end of the coordinate range"@
}

/// The least coordinates of some cells, zero where there are none.
pub open spec fn low_of(cells: Seq<(Position, Block)>) -> Position
    decreases cells.len(),
{
    if cells.len() == 0 {
        (0int, 0int, 0int)
    } else if cells.len() == 1 {
        cells[0].0
    } else {
        least_of(low_of(cells.drop_last()), cells.last().0)
    }
}

/// The greatest coordinates of some cells, zero where there are none.
pub open spec fn high_of(cells: Seq<(Position, Block)>) -> Position
    decreases cells.len(),
{
    if cells.len() == 0 {
        (0int, 0int, 0int)
    } else if cells.len() == 1 {
        cells[0].0
    } else {
        greatest_of(high_of(cells.drop_last()), cells.last().0)
    }
}

/// A region from one corner to another can be written down.
pub open spec fn is_spannable(low: Position, high: Position) -> bool {
    &&& high.0 - low.0 < i32::MAX
    &&& high.1 - low.1 < i32::MAX
    &&& high.2 - low.2 < i32::MAX
    &&& cell_total(extent_size(low, high)) <= i64::MAX
}

/// The extent of some cells.
fn extent_of(category: &Category<'_>) -> (r: Bounds)
    ensures
        r.low() == low_of(category.group().1),
        r.high() == high_of(category.group().1),
        forall|i: int|
            0 <= i < category.cells@.len() ==> within(
                r.low(),
                r.high(),
                at((#[trigger] category.cells@[i]).position),
            ),
        within(r.low(), r.high(), r.low()),
{
    let cells = &category.cells;
    let ghost all = category.group().1;
    if cells.len() == 0 {
        return Bounds::default();
    }
    let first = cells[0].position;
    let mut bounds = Bounds::singleton(first[0], first[1], first[2]);
    let mut i: usize = 1;
    assert(all.take(1)[0] == all[0]);
    while i < cells.len()
        invariant
            1 <= i <= cells.len(),
            cells@ == category.cells@,
            all == category.group().1,
            all.len() == cells@.len(),
            bounds.low() == low_of(all.take(i as int)),
            bounds.high() == high_of(all.take(i as int)),
            forall|k: int|
                0 <= k < i ==> within(
                    bounds.low(),
                    bounds.high(),
                    at((#[trigger] category.cells@[k]).position),
                ),
            within(bounds.low(), bounds.high(), bounds.low()),
        decreases cells.len() - i,
    {
        let p = cells[i].position;
        proof {
            assert(all.take(i + 1).drop_last() =~= all.take(i as int));
            assert(all.take(i + 1).last() == all[i as int]);
        }
        bounds.extend(p[0], p[1], p[2]);
        i = i + 1;
    }
    assert(all.take(i as int) =~= all);
    bounds
}

/// Put down the changed cells once the room for them was asked for.
pub fn settle_subset(
    category: &Category<'_>,
    granted: Result<UniversalSchematic, String>,
) -> (r: Result<UniversalSchematic, Error>)
    requires
        granted matches Ok(build) ==> room(build) is Some && is_empty_room(build, room(build)->0)
            && forall|i: int|
            0 <= i < category.cells@.len() ==> in_region(
                room(build)->0,
                at((#[trigger] category.cells@[i]).position),
            ),
    ensures
        match granted {
            Ok(build) => r is Ok && is_subset(r->Ok_0, category.group().1) && room(r->Ok_0) == room(
                build,
            ) && keeps_to_room(r->Ok_0),
            Err(words) => failure(r) == Some(words@),
        },
{
    let mut build = match granted {
        Ok(build) => build,
        Err(words) => {
            return Err(Error::message(words));
        },
    };
    let cells = &category.cells;
    let ghost all = category.group().1;
    let ghost region = room(build)->0;
    let mut i: usize = 0;
    while i < cells.len()
        invariant
            i <= cells.len(),
            cells@ == category.cells@,
            all == category.group().1,
            all.len() == cells@.len(),
            room(build) == Some(region),
            forall|k: int|
                0 <= k < category.cells@.len() ==> in_region(
                    region,
                    at((#[trigger] category.cells@[k]).position),
                ),
            keeps_to_room(build),
            is_subset(build, all.take(i as int)),
        decreases cells.len() - i,
    {
        let cell = cells[i];
        proof {
            assert(all.take(i + 1).drop_last() =~= all.take(i as int));
            assert(all.take(i + 1).last() == all[i as int]);
        }
        let block = make_block(cell.block.name.as_str(), &cell.block.properties);
        place(&mut build, cell.position, &block);
        i = i + 1;
    }
    assert(all.take(i as int) =~= all);
    Ok(build)
}

/// One category's cells as a build of their own, ready to mesh.
///
/// The mesher draws exactly what it is given, so handing it a category's cells and
/// nothing else is what keeps the changes panel to the blocks that changed. The
/// memory for the build may be refused, in words of the allocator's.
pub fn subset(category: &Category<'_>) -> (r: Result<UniversalSchematic, Error>)
    ensures
        ({
            let cells = category.group().1;
            let low = low_of(cells);
            let high = high_of(cells);
            if !is_spannable(low, high) {
                failure(r) == Some(oversized(extent_size(low, high)))
            } else if high.0 == i32::MAX {
                failure(r) == Some(at_the_end())
            } else {
                match r {
                    Ok(build) => is_subset(build, cells) && walkable(build),
                    Err(error) => may_refuse(low, extent_size(low, high), error.text()),
                }
            }
        }),
{
    let bounds = extent_of(category);
    let size = bounds.size();
    match grid_cell_count(size) {
        Ok(_) => {},
        Err(error) => {
            return Err(error);
        },
    }
    let far: i64 = i32::MAX as i64;
    let wide = bounds.max[0] as i64 - bounds.min[0] as i64 >= far || bounds.max[1] as i64
        - bounds.min[1] as i64 >= far || bounds.max[2] as i64 - bounds.min[2] as i64 >= far;
    if wide {
        let mut text = "the ".to_owned();
        push_dimensions(&mut text, size);
        text.append(" extent is too large to render");
        return Err(Error::message(text));
    }
    if bounds.max[0] == i32::MAX {
        return Err(
            Error::message("the changed blocks reach the end of the coordinate range".to_owned()),
        );
    }
    let granted = new_build("", None, bounds.min, size);
    let filled = settle_subset(category, granted);
    proof {
        if filled is Ok {
            let build = filled->Ok_0;
            let region = (bounds.low(), at(size));
            assert forall|span: (Position, Position)| #[trigger]
                spans(build).contains(span) implies is_walkable_span(span) by {
                assert(in_region(region, span.0) && in_region(region, span.1));
            }
        }
    }
    filled
}

/// A category's build holds the changed blocks and no others: a block is in it
/// exactly where it is that of a changed cell, the last one at its position.
pub proof fn lemma_subset_is_the_changed_cells(
    cells: Seq<(Position, Block)>,
    o: (Position, Seq<char>),
)
    ensures
        laid(cells).count(o) > 0 <==> occupied(o.1) && exists|k: int|
            0 <= k < cells.len() && (#[trigger] cells[k]).0 == o.0 && cells[k].1.name@ == o.1
                && forall|j: int| k < j < cells.len() ==> (#[trigger] cells[j]).0 != o.0,
    decreases cells.len(),
{
    broadcast use vstd::multiset::group_multiset_axioms;

    if cells.len() > 0 {
        let before = cells.drop_last();
        let n = cells.len() - 1;
        lemma_subset_is_the_changed_cells(before, o);
        lemma_block_replaces(laid(before), cells.last().0, cells.last().1.name@, o);
        if o.0 == cells.last().0 {
            assert(cells[n].0 == o.0);
        } else if laid(before).count(o) > 0 {
            let k = choose|k: int|
                0 <= k < before.len() && (#[trigger] before[k]).0 == o.0 && before[k].1.name@ == o.1
                    && forall|j: int| k < j < before.len() ==> (#[trigger] before[j]).0 != o.0;
            assert(cells[k].0 == o.0);
            assert forall|j: int| k < j < cells.len() implies (#[trigger] cells[j]).0 != o.0 by {
                if j < n {
                    assert(before[j].0 != o.0);
                }
            }
        } else if occupied(o.1) && exists|k: int|
            0 <= k < cells.len() && (#[trigger] cells[k]).0 == o.0 && cells[k].1.name@ == o.1
                && forall|j: int| k < j < cells.len() ==> (#[trigger] cells[j]).0 != o.0 {
            let k = choose|k: int|
                0 <= k < cells.len() && (#[trigger] cells[k]).0 == o.0 && cells[k].1.name@ == o.1
                    && forall|j: int| k < j < cells.len() ==> (#[trigger] cells[j]).0 != o.0;
            assert(before[k] == cells[k]);
            assert forall|j: int| k < j < before.len() implies (#[trigger] before[j]).0 != o.0 by {
                assert(cells[j].0 != o.0);
            }
        }
    }
}

/// A cell of a category is the last one at its position.
pub open spec fn is_last_there(category: Category<'_>, k: int) -> bool {
    &&& 0 <= k < category.cells@.len()
    &&& forall|l: int|
        k < l < category.cells@.len() ==> at((#[trigger] category.cells@[l]).position) != at(
            category.cells@[k].position,
        )
}

#[verifier::rlimit(60)]
proof fn lemma_laid_cells(cells: Seq<(Position, Block)>, p: Position, k: int)
    ensures
        0 <= k < cells.len() && cells[k].0 == p && (forall|l: int|
            k < l < cells.len() ==> (#[trigger] cells[l]).0 != p) ==> cell_holds(
            laid(cells),
            laid_states(cells),
            p,
            cells[k].1.state(),
        ),
        (forall|l: int| 0 <= l < cells.len() ==> (#[trigger] cells[l]).0 != p) ==> cell_is_empty(
            laid(cells),
            laid_states(cells),
            p,
        ),
    decreases cells.len(),
{
    broadcast use vstd::multiset::group_multiset_axioms;

    if cells.len() > 0 {
        let fewer = cells.drop_last();
        let n = cells.len() - 1;
        let (q, block) = cells.last();
        lemma_laid_cells(fewer, p, k);
        assert forall|name: Seq<char>| #[trigger] laid(cells).count((p, name)) == (if p == q {
            if name == block.name@ && block.name@ != "minecraft:air"@ {
                1nat
            } else {
                0
            }
        } else {
            laid(fewer).count((p, name))
        }) by {
            lemma_block_replaces(laid(fewer), q, block.name@, (p, name));
        }
        assert forall|s: State| #[trigger] laid_states(cells).count((p, s)) == (if p == q {
            if s == block.state() && block.name@ != "minecraft:air"@ {
                1nat
            } else {
                0
            }
        } else {
            laid_states(fewer).count((p, s))
        }) by {}
        assert(cells[n].0 == q);
        if p != q {
            assert(forall|l: int| 0 <= l < n ==> #[trigger] fewer[l] == cells[l]);
        }
    }
}

/// The build of a category holds its cells: where one is the last at its position, its block
/// stands there, with its properties, and nothing else does.
pub proof fn lemma_subset_holds_its_cells(
    category: &Category<'_>,
    r: Result<UniversalSchematic, Error>,
    k: int,
)
    requires
        call_ensures(subset, (category,), r),
        r is Ok,
        is_last_there(*category, k),
    ensures
        cell_holds(
            built(r->Ok_0),
            stated(r->Ok_0),
            at(category.cells@[k].position),
            category.cells@[k].block.state(),
        ),
{
    let cells = category.group().1;
    assert(failure(r) is None);
    let p = at(category.cells@[k].position);
    assert(cells[k].0 == p);
    assert forall|l: int| k < l < cells.len() implies (#[trigger] cells[l]).0 != p by {
        assert(at(category.cells@[l].position) != p);
    }
    lemma_laid_cells(cells, p, k);
}

/// The build of a category holds nothing where the category has no cell, and no block
/// entities or entities at all.
pub proof fn lemma_subset_holds_nothing_else(
    category: &Category<'_>,
    r: Result<UniversalSchematic, Error>,
    p: Position,
)
    requires
        call_ensures(subset, (category,), r),
        r is Ok,
        forall|l: int|
            0 <= l < category.cells@.len() ==> at((#[trigger] category.cells@[l]).position) != p,
    ensures
        cell_is_empty(built(r->Ok_0), stated(r->Ok_0), p),
        !block_entities(r->Ok_0).contains_key(p),
        entities(r->Ok_0).len() == 0,
{
    let cells = category.group().1;
    assert(failure(r) is None);
    assert forall|l: int| 0 <= l < cells.len() implies (#[trigger] cells[l]).0 != p by {
        assert(at(category.cells@[l].position) != p);
    }
    lemma_laid_cells(cells, p, 0);
}

/// The cells of a category lie along each axis in a range, as far as it goes.
pub open spec fn lie_between(category: Category<'_>, low: Position, high: Position) -> bool {
    forall|i: int|
        0 <= i < category.cells@.len() ==> {
            let p = at((#[trigger] category.cells@[i]).position);
            &&& low.0 <= p.0 <= high.0
            &&& low.1 <= p.1 <= high.1
            &&& low.2 <= p.2 <= high.2
        }
}

proof fn lemma_extent_is_least(cells: Seq<(Position, Block)>, low: Position, high: Position)
    requires
        cells.len() > 0,
        forall|i: int|
            0 <= i < cells.len() ==> low.0 <= (#[trigger] cells[i]).0.0 <= high.0 && low.1
                <= cells[i].0.1 <= high.1 && low.2 <= cells[i].0.2 <= high.2,
    ensures
        low.0 <= low_of(cells).0 && low.1 <= low_of(cells).1 && low.2 <= low_of(cells).2,
        high_of(cells).0 <= high.0 && high_of(cells).1 <= high.1 && high_of(cells).2 <= high.2,
    decreases cells.len(),
{
    assert(low.0 <= cells[0].0.0);
    if cells.len() > 1 {
        let fewer = cells.drop_last();
        assert(forall|i: int| 0 <= i < fewer.len() ==> #[trigger] fewer[i] == cells[i]);
        lemma_extent_is_least(fewer, low, high);
        assert(low.0 <= cells[cells.len() - 1].0.0);
    }
}

/// A category whose cells keep together is not refused for its size: where they lie in a
/// stretch short of the end of the range, with no more cells than can be counted, the build
/// is made unless the memory for it is refused.
pub proof fn lemma_close_cells_are_not_refused(
    category: &Category<'_>,
    r: Result<UniversalSchematic, Error>,
    low: Position,
    high: Position,
)
    requires
        call_ensures(subset, (category,), r),
        category.cells@.len() > 0,
        lie_between(*category, low, high),
        high.0 < i32::MAX,
        0 <= high.0 - low.0 <= 1_000_000,
        0 <= high.1 - low.1 <= 1_000_000,
        0 <= high.2 - low.2 <= 1_000_000,
    ensures
        r matches Err(error) ==> exists|corner: Position, size: Position| #[trigger]
            may_refuse(corner, size, error.text()),
{
    let cells = category.group().1;
    assert forall|i: int| 0 <= i < cells.len() implies low.0 <= (#[trigger] cells[i]).0.0 <= high.0
        && low.1 <= cells[i].0.1 <= high.1 && low.2 <= cells[i].0.2 <= high.2 by {
        let p = at(category.cells@[i].position);
        assert(cells[i].0 == p);
    }
    lemma_extent_is_least(cells, low, high);
    let (x, y, z) = extent_size(low_of(cells), high_of(cells));
    assert(0 <= x <= 1_000_001 && 0 <= y <= 1_000_001 && 0 <= z <= 1_000_001);
    assert(x * y * z <= 0x7fff_ffff_ffff_ffff) by (nonlinear_arith)
        requires
            0 <= x <= 1_000_001,
            0 <= y <= 1_000_001,
            0 <= z <= 1_000_001,
    ;
}

} // verus!
