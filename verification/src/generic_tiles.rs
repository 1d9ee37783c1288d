//! A hand-made tile set: nine tiles, each described by what lies along its
//! four edges.

use vstd::prelude::*;

verus! {

/// What lies on a third of a tile's edge.
#[derive(Clone, Copy, Debug, PartialEq, Eq, Structural)]
pub enum EdgePartType {
    Path,
    Forest,
    Coast,
    Water,
}

/// The number of tiles in the set.
pub const TILE_COUNT: usize = 9;

/// An edge, as its three parts in reading order.
pub open spec fn edge(first: EdgePartType, second: EdgePartType, third: EdgePartType) -> Seq<
    EdgePartType,
> {
    seq![first, second, third]
}

/// The edge of tile `tile` on side `side`, 0 being the top, 1 the right, 2
/// the bottom and 3 the left one. The tiles are, in this order: the curved
/// coast, the straight coast, the sea, the dead end, the straight path, the
/// curved path, the crossing, the junction of three paths, and the forest.
pub open spec fn tile_edge(tile: int, side: int) -> Seq<EdgePartType> {
    let forest = edge(EdgePartType::Forest, EdgePartType::Forest, EdgePartType::Forest);
    let water = edge(EdgePartType::Water, EdgePartType::Water, EdgePartType::Water);
    let path = edge(EdgePartType::Forest, EdgePartType::Path, EdgePartType::Forest);
    let shore = edge(EdgePartType::Forest, EdgePartType::Coast, EdgePartType::Water);
    let back_shore = edge(EdgePartType::Water, EdgePartType::Coast, EdgePartType::Forest);
    if tile == 0 {
        if side == 0 {
            shore
        } else if side == 1 {
            back_shore
        } else {
            forest
        }
    } else if tile == 1 {
        if side == 0 {
            shore
        } else if side == 1 {
            water
        } else if side == 2 {
            back_shore
        } else {
            forest
        }
    } else if tile == 2 {
        water
    } else if tile == 3 {
        if side == 0 {
            path
        } else {
            forest
        }
    } else if tile == 4 {
        if side == 0 || side == 2 {
            path
        } else {
            forest
        }
    } else if tile == 5 {
        if side == 0 || side == 1 {
            path
        } else {
            forest
        }
    } else if tile == 6 {
        path
    } else if tile == 7 {
        if side == 2 {
            forest
        } else {
            path
        }
    } else {
        forest
    }
}

/// The three parts of an edge, in reading order.
fn parts(first: EdgePartType, second: EdgePartType, third: EdgePartType) -> (out: Vec<EdgePartType>)
    ensures
        out@ == edge(first, second, third),
{
    let mut out: Vec<EdgePartType> = Vec::new();
    out.push(first);
    out.push(second);
    out.push(third);
    assert(out@ =~= edge(first, second, third));
    out
}

/// The edge of tile `tile` on side `side`; `None` where the set has no such
/// tile or a tile no such side.
pub fn edge_of(tile: usize, side: usize) -> (out: Option<Vec<EdgePartType>>)
    ensures
        out is Some <==> tile < TILE_COUNT && side < 4,
        out matches Some(parts) ==> parts@ == tile_edge(tile as int, side as int),
{
    if tile >= TILE_COUNT || side >= 4 {
        return None;
    }
    let coast_first = (tile == 0 || tile == 1) && side == 0;
    let coast_last = (tile == 0 && side == 1) || (tile == 1 && side == 2);
    let sea = tile == 2 || (tile == 1 && side == 1);
    let road = (tile == 3 && side == 0) || (tile == 4 && (side == 0 || side == 2)) || (tile == 5 && (
    side == 0 || side == 1)) || tile == 6 || (tile == 7 && side != 2);
    if coast_first {
        Some(parts(EdgePartType::Forest, EdgePartType::Coast, EdgePartType::Water))
    } else if coast_last {
        Some(parts(EdgePartType::Water, EdgePartType::Coast, EdgePartType::Forest))
    } else if sea {
        Some(parts(EdgePartType::Water, EdgePartType::Water, EdgePartType::Water))
    } else if road {
        Some(parts(EdgePartType::Forest, EdgePartType::Path, EdgePartType::Forest))
    } else {
        Some(parts(EdgePartType::Forest, EdgePartType::Forest, EdgePartType::Forest))
    }
}

} // verus!
