use wfc::image::{Image, Pixel};
use wfc::tile_model::{get_edge_colors, get_edges_for_images, EdgeCodes, TileProcessor};
use wfc::utils::AdjacencyData;
use wfc::{process, Drawable, InvalidSourceDimensions, WfcPreprocessor};

fn px(v: u8) -> Pixel {
    Pixel { r: v, g: 0, b: 0, a: 255 }
}

fn image(rows: &[&[u8]]) -> Image {
    let height = rows.len() as u16;
    let width = if rows.is_empty() { 0 } else { rows[0].len() as u16 };
    let mut pixels = Vec::new();
    for row in rows {
        for v in row.iter() {
            pixels.push(px(*v));
        }
    }
    Image::from_pixels(width, height, pixels).unwrap()
}

fn sheet() -> Image {
    image(&[&[1, 1, 2, 2], &[1, 3, 2, 1], &[3, 3, 1, 1], &[3, 1, 1, 1]])
}

fn assert_images(found: &[Image], expected: &[Image]) {
    assert_eq!(found.len(), expected.len());
    for (f, e) in found.iter().zip(expected.iter()) {
        assert!(f.same(e), "{:?} is not {:?}", f, e);
    }
}

fn rows_of(table: &AdjacencyData) -> Vec<Vec<Vec<usize>>> {
    let mut rows = Vec::new();
    for a in 0..table.len() {
        let mut four = Vec::new();
        for dir in 0..4 {
            four.push(table.get(a, dir).clone());
        }
        rows.push(four);
    }
    rows
}

fn codes(top: usize, right: usize, bottom: usize, left: usize) -> EdgeCodes {
    EdgeCodes { top, right, bottom, left }
}

#[test]
fn tiles_are_cut_column_by_column() {
    let images = TileProcessor::new(2, false).extract_images(&sheet()).unwrap();
    assert_images(
        &images,
        &[
            image(&[&[1, 1], &[1, 3]]),
            image(&[&[3, 3], &[3, 1]]),
            image(&[&[2, 2], &[2, 1]]),
            image(&[&[1, 1], &[1, 1]]),
        ],
    );
}

#[test]
fn equal_tiles_are_one_pattern() {
    let src = image(&[&[1, 2, 1, 2], &[3, 4, 3, 4]]);
    let images = TileProcessor::new(2, false).extract_images(&src).unwrap();
    assert_images(&images, &[image(&[&[1, 2], &[3, 4]])]);
}

#[test]
fn rotated_tiles_come_first() {
    let images = TileProcessor::new(2, true).extract_images(&sheet()).unwrap();
    assert_eq!(images.len(), 13);
    assert!(images[0].same(&image(&[&[1, 1], &[3, 1]])));
    assert!(images[1].same(&image(&[&[3, 1], &[1, 1]])));
    assert!(images[2].same(&image(&[&[1, 3], &[1, 1]])));
    assert!(images[3].same(&image(&[&[1, 1], &[1, 3]])));
    assert!(images[12].same(&image(&[&[1, 1], &[1, 1]])));
}

#[test]
fn side_must_divide_the_sample() {
    let src = sheet();
    assert_eq!(TileProcessor::new(3, false).extract_images(&src).err(), Some(InvalidSourceDimensions));
    assert_eq!(TileProcessor::new(5, true).extract_images(&src).err(), Some(InvalidSourceDimensions));
    assert_eq!(TileProcessor::new(0, false).extract_images(&src).err(), Some(InvalidSourceDimensions));
    let wide = image(&[&[1, 2, 3, 4], &[5, 6, 7, 8]]);
    assert!(TileProcessor::new(2, false).extract_images(&wide).is_ok());
    assert_eq!(TileProcessor::new(4, false).extract_images(&wide).err(), Some(InvalidSourceDimensions));
    assert!(process(&TileProcessor::new(3, false), &src).is_err());
}

#[test]
fn whole_sample_can_be_one_tile() {
    let images = TileProcessor::new(4, false).extract_images(&sheet()).unwrap();
    assert_images(&images, &[sheet()]);
}

#[test]
fn empty_sample_has_no_tile() {
    let src = Image::new(0, 0, px(0));
    let images = TileProcessor::new(8, true).extract_images(&src).unwrap();
    assert_eq!(images.len(), 0);
}

#[test]
fn edges_are_top_right_bottom_left() {
    let edges = get_edge_colors(&image(&[&[1, 2, 3], &[4, 5, 6]]));
    assert_eq!(
        edges,
        vec![
            vec![px(1), px(2), px(3)],
            vec![px(3), px(6)],
            vec![px(4), px(5), px(6)],
            vec![px(1), px(4)],
        ]
    );
    let none = get_edge_colors(&Image::new(0, 3, px(0)));
    assert_eq!(none, vec![Vec::<Pixel>::new(); 4]);
}

#[test]
fn codes_are_given_out_as_edges_are_first_seen() {
    let images = TileProcessor::new(2, false).extract_images(&sheet()).unwrap();
    assert_eq!(
        get_edges_for_images(&images),
        vec![codes(0, 1, 1, 0), codes(2, 3, 3, 2), codes(4, 5, 5, 4), codes(0, 0, 0, 0)]
    );
    assert_eq!(codes(7, 8, 9, 10).get(0), 7);
    assert_eq!(codes(7, 8, 9, 10).get(1), 8);
    assert_eq!(codes(7, 8, 9, 10).get(2), 9);
    assert_eq!(codes(7, 8, 9, 10).get(3), 10);
}

#[test]
fn tiles_touch_where_their_edges_are_equal() {
    let builder = TileProcessor::new(2, false);
    let images = builder.extract_images(&sheet()).unwrap();
    let table = builder.create_adjacency_rules(&images);
    assert_eq!(
        rows_of(&table),
        vec![
            vec![vec![3], vec![], vec![], vec![3]],
            vec![vec![], vec![], vec![], vec![]],
            vec![vec![], vec![], vec![], vec![]],
            vec![vec![3], vec![0, 3], vec![0, 3], vec![3]],
        ]
    );
}

#[test]
fn edge_rules_are_symmetric() {
    let builder = TileProcessor::new(2, true);
    let images = builder.extract_images(&sheet()).unwrap();
    let table = builder.create_adjacency_rules(&images);
    assert_eq!(table.len(), 13);
    for a in 0..table.len() {
        for b in 0..table.len() {
            assert_eq!(table.allows(a, 0, b), table.allows(b, 2, a));
            assert_eq!(table.allows(a, 1, b), table.allows(b, 3, a));
        }
    }
}

#[test]
fn catalog_keeps_the_tiles() {
    let builder = TileProcessor::new(2, false);
    let (patterns, table) = process(&builder, &sheet()).unwrap();
    assert_eq!(patterns.len(), 4);
    assert_eq!(table.len(), 4);
    assert!(patterns.tile(1).same(&image(&[&[3, 3], &[3, 1]])));
    assert!(patterns.0[3].same(&image(&[&[1, 1], &[1, 1]])));
}

#[test]
fn single_cell_tiles() {
    let builder = TileProcessor::new(1, false);
    let images = builder.extract_images(&image(&[&[1, 2], &[3, 4]])).unwrap();
    assert_images(&images, &[image(&[&[1]]), image(&[&[3]]), image(&[&[2]]), image(&[&[4]])]);
    let table = builder.create_adjacency_rules(&images);
    for a in 0..4 {
        for dir in 0..4 {
            assert_eq!(table.get(a, dir), &vec![a]);
        }
    }
}
