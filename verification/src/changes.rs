//! What changed between two builds, cell by cell.

use vstd::prelude::*;

verus! {

/// A position in a build.
pub type Position = (int, int, int);

/// What a block is: its name, and its properties in the order it has them in.
pub type State = (Seq<char>, Seq<(Seq<char>, Seq<char>)>);

/// A block.
#[derive(Debug)]
pub struct Block {
    pub name: String,
    /// The name and the value of each property.
    pub properties: Vec<(String, String)>,
}

/// The names and values of some properties.
pub open spec fn pairs(properties: Seq<(String, String)>) -> Seq<(Seq<char>, Seq<char>)> {
    Seq::new(properties.len(), |i: int| (properties[i].0@, properties[i].1@))
}

impl Block {
    pub open spec fn state(self) -> State {
        (self.name@, pairs(self.properties@))
    }
}

/// A cell that one side has and the other has not.
#[derive(Debug)]
pub struct Change {
    pub position: [i32; 3],
    pub block: Block,
}

/// A cell that both sides have, with different blocks in it.
#[derive(Debug)]
pub struct Replacement {
    pub position: [i32; 3],
    pub was: Block,
    pub now: Block,
}

/// The difference between two builds. All positions are in the frame of the
/// build after the change.
#[derive(Debug)]
pub struct Changes {
    pub added: Vec<Change>,
    pub removed: Vec<Change>,
    pub changed: Vec<Replacement>,
    /// Cells whose block was exchanged for another one throughout the build.
    pub swapped: Vec<Replacement>,
    /// The share of the cells that found a counterpart, as the bits of a
    /// single-precision number.
    pub support: u32,
}

/// The coordinates of a position.
pub open spec fn at(position: [i32; 3]) -> Position {
    (position@[0] as int, position@[1] as int, position@[2] as int)
}

/// A block is its name and its properties, each a name and a value, in the order it has them
/// in; and a position is where it is along the three axes, in their order.
pub proof fn lemma_block_is_its_name_and_properties(block: Block, i: int, position: [i32; 3])
    ensures
        block.state().0 == block.name@,
        block.state().1.len() == block.properties@.len(),
        0 <= i < block.properties@.len() ==> block.state().1[i].0 == block.properties@[i].0@
            && block.state().1[i].1 == block.properties@[i].1@,
        at(position).0 == position@[0] && at(position).1 == position@[1] && at(position).2
            == position@[2],
{
}

} // verus!
