use vstd::prelude::*;

verus! {

/// The state of one side of a cell: `Up` blocks the passage, `Down` opens it.
#[derive(Clone, Copy, Debug, PartialEq, Eq, Hash, Structural)]
pub enum Wall {
    Up,
    Down,
}

/// One cell of the grid: a wall on each of its four sides and a visited mark.
#[derive(Clone, Copy, Debug, PartialEq, Eq, Hash, Structural)]
pub struct Node {
    pub visited: bool,
    pub north: Wall,
    pub east: Wall,
    pub south: Wall,
    pub west: Wall,
}

impl Node {
    /// A cell that nothing has reached yet: every wall up.
    pub open spec fn closed() -> Node {
        Node { visited: false, north: Wall::Up, east: Wall::Up, south: Wall::Up, west: Wall::Up }
    }

    /// Every wall of the cell is up.
    pub open spec fn all_walls_up(self) -> bool {
        self.north == Wall::Up && self.east == Wall::Up && self.south == Wall::Up && self.west
            == Wall::Up
    }

    pub fn new() -> (r: Node)
        ensures
            r == Node::closed(),
    {
        Node { visited: false, north: Wall::Up, east: Wall::Up, south: Wall::Up, west: Wall::Up }
    }
}

} // verus!
