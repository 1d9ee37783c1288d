use wfc::generic_tiles::{edge_of, EdgePartType, TILE_COUNT};

const F: EdgePartType = EdgePartType::Forest;
const P: EdgePartType = EdgePartType::Path;
const C: EdgePartType = EdgePartType::Coast;
const W: EdgePartType = EdgePartType::Water;

#[test]
fn tile_set_has_nine_tiles() {
    assert_eq!(TILE_COUNT, 9);
    for tile in 0..9 {
        for side in 0..4 {
            assert_eq!(edge_of(tile, side).unwrap().len(), 3);
        }
        assert_eq!(edge_of(tile, 4), None);
    }
    assert_eq!(edge_of(9, 0), None);
}

#[test]
fn tile_edges_are_as_drawn() {
    let expected: [[[EdgePartType; 3]; 4]; 9] = [
        [[F, C, W], [W, C, F], [F, F, F], [F, F, F]],
        [[F, C, W], [W, W, W], [W, C, F], [F, F, F]],
        [[W, W, W], [W, W, W], [W, W, W], [W, W, W]],
        [[F, P, F], [F, F, F], [F, F, F], [F, F, F]],
        [[F, P, F], [F, F, F], [F, P, F], [F, F, F]],
        [[F, P, F], [F, P, F], [F, F, F], [F, F, F]],
        [[F, P, F], [F, P, F], [F, P, F], [F, P, F]],
        [[F, P, F], [F, P, F], [F, F, F], [F, P, F]],
        [[F, F, F], [F, F, F], [F, F, F], [F, F, F]],
    ];
    for tile in 0..9 {
        for side in 0..4 {
            assert_eq!(edge_of(tile, side).unwrap(), expected[tile][side].to_vec());
        }
    }
}
