use vstd::prelude::*;

verus! {

/// Represents movement information including the net, vertex, and partition details.
#[derive(Debug, Copy, Clone)]
pub struct MoveInfo<Node> {
    /// The identifier for the net involved in the move.
    pub net: Node,
    /// The vertex being moved.
    pub v: Node,
    /// The partition the vertex is moving from.
    pub from_part: u8,
    /// The target partition to which the vertex is moving.
    pub to_part: u8,
}

/// Represents simplified movement information focusing on vertex and partition changes.
#[derive(Debug, Copy, Clone)]
pub struct MoveInfoV<Node> {
    /// The vertex being moved.
    pub v: Node,
    /// The partition the vertex is moving from.
    pub from_part: u8,
    /// The target partition to which the vertex is moving.
    pub to_part: u8,
}

} // verus!
