use wfc::image::{Image, Pixel};
use wfc::overlapping_model::{
    get_pattern_image, overlap_agrees, overlap_rules, OverlappingPreprocessor,
};
use wfc::utils::AdjacencyData;
use wfc::{process, Drawable, WfcPreprocessor};

fn px(v: u8) -> Pixel {
    Pixel { r: v, g: 0, b: 0, a: 255 }
}

fn image(rows: &[&[u8]]) -> Image {
    let height = rows.len() as u16;
    let width = if rows.is_empty() { 0 } else { rows[0].len() as u16 };
    let mut pixels = Vec::new();
    for row in rows {
        for v in row.iter() {
            pixels.push(px(*v));
        }
    }
    Image::from_pixels(width, height, pixels).unwrap()
}

fn sample() -> Image {
    image(&[&[1, 2, 1], &[2, 1, 3]])
}

fn assert_images(found: &[Image], expected: &[Image]) {
    assert_eq!(found.len(), expected.len());
    for (f, e) in found.iter().zip(expected.iter()) {
        assert!(f.same(e), "{:?} is not {:?}", f, e);
    }
}

fn rows_of(table: &AdjacencyData) -> Vec<Vec<Vec<usize>>> {
    let mut rows = Vec::new();
    for a in 0..table.len() {
        let mut four = Vec::new();
        for dir in 0..4 {
            four.push(table.get(a, dir).clone());
        }
        rows.push(four);
    }
    rows
}

#[test]
fn window_wraps_around_the_sample() {
    let src = sample();
    assert!(get_pattern_image(&src, 2, 0, 0).same(&image(&[&[1, 2], &[2, 1]])));
    assert!(get_pattern_image(&src, 2, 2, 0).same(&image(&[&[1, 1], &[3, 2]])));
    assert!(get_pattern_image(&src, 2, 2, 1).same(&image(&[&[3, 2], &[1, 1]])));
    assert!(get_pattern_image(&src, 4, 1, 1)
        .same(&image(&[&[1, 3, 2, 1], &[2, 1, 1, 2], &[1, 3, 2, 1], &[2, 1, 1, 2]])));
}

#[test]
fn wrapped_sample_gives_a_window_at_every_position() {
    let images =
        OverlappingPreprocessor::new(2, true, true, false).extract_images(&sample()).unwrap();
    assert_images(
        &images,
        &[
            image(&[&[1, 2], &[2, 1]]),
            image(&[&[2, 1], &[1, 2]]),
            image(&[&[2, 1], &[1, 3]]),
            image(&[&[1, 3], &[2, 1]]),
            image(&[&[1, 1], &[3, 2]]),
            image(&[&[3, 2], &[1, 1]]),
        ],
    );
}

#[test]
fn unwrapped_sample_keeps_the_window_inside() {
    let images =
        OverlappingPreprocessor::new(2, false, false, false).extract_images(&sample()).unwrap();
    assert_images(&images, &[image(&[&[1, 2], &[2, 1]]), image(&[&[2, 1], &[1, 3]])]);
}

#[test]
fn wrap_can_be_chosen_per_axis() {
    let images =
        OverlappingPreprocessor::new(2, true, false, false).extract_images(&sample()).unwrap();
    assert_images(
        &images,
        &[image(&[&[1, 2], &[2, 1]]), image(&[&[2, 1], &[1, 3]]), image(&[&[1, 1], &[3, 2]])],
    );
}

#[test]
fn rotations_come_before_the_window_itself() {
    let images =
        OverlappingPreprocessor::new(2, false, false, true).extract_images(&sample()).unwrap();
    assert_images(
        &images,
        &[
            image(&[&[2, 1], &[1, 2]]),
            image(&[&[1, 2], &[2, 1]]),
            image(&[&[1, 2], &[3, 1]]),
            image(&[&[3, 1], &[1, 2]]),
            image(&[&[1, 3], &[2, 1]]),
            image(&[&[2, 1], &[1, 3]]),
        ],
    );
}

#[test]
fn window_as_large_as_the_sample_is_one_pattern() {
    let src = image(&[&[1, 2], &[3, 4]]);
    let images = OverlappingPreprocessor::new(2, false, false, false).extract_images(&src).unwrap();
    assert_images(&images, &[image(&[&[1, 2], &[3, 4]])]);
}

#[test]
fn window_larger_than_the_sample_needs_wrapping() {
    let src = image(&[&[1, 2], &[3, 4]]);
    let none = OverlappingPreprocessor::new(3, false, false, false).extract_images(&src).unwrap();
    assert_eq!(none.len(), 0);
    let some = OverlappingPreprocessor::new(3, true, true, false).extract_images(&src).unwrap();
    assert_eq!(some.len(), 4);
    assert!(some[0].same(&image(&[&[1, 2, 1], &[3, 4, 3], &[1, 2, 1]])));
}

#[test]
fn window_without_a_side_gives_no_pattern() {
    for n in [0isize, -1, -7, 65536] {
        for wrap in [false, true] {
            let images =
                OverlappingPreprocessor::new(n, wrap, wrap, true).extract_images(&sample()).unwrap();
            assert_eq!(images.len(), 0);
        }
    }
}

#[test]
fn empty_sample_gives_no_pattern() {
    let src = Image::new(0, 0, px(0));
    for wrap in [false, true] {
        let images = OverlappingPreprocessor::new(1, wrap, wrap, false).extract_images(&src).unwrap();
        assert_eq!(images.len(), 0);
    }
}

#[test]
fn uniform_sample_gives_one_pattern() {
    let src = Image::new(4, 3, px(7));
    for n in 1..=5isize {
        for rotate in [false, true] {
            let images =
                OverlappingPreprocessor::new(n, true, true, rotate).extract_images(&src).unwrap();
            assert_eq!(images.len(), 1);
            assert!(images[0].same(&Image::new(n as u16, n as u16, px(7))));
        }
    }
    for n in 1..=3isize {
        for rotate in [false, true] {
            let images =
                OverlappingPreprocessor::new(n, false, false, rotate).extract_images(&src).unwrap();
            assert_eq!(images.len(), 1);
        }
    }
}

#[test]
fn catalog_takes_the_top_left_colour() {
    let builder = OverlappingPreprocessor::new(2, true, true, false);
    let images = builder.extract_images(&sample()).unwrap();
    let patterns = builder.create_patterns(&images);
    assert_eq!(patterns.len(), 6);
    assert_eq!(patterns.0, vec![px(1), px(2), px(2), px(1), px(1), px(3)]);
    assert_eq!(patterns.color(5), px(3));
}

#[test]
fn overlap_compares_the_shared_cells() {
    let a = image(&[&[1, 2], &[2, 1]]);
    let b = image(&[&[2, 1], &[1, 2]]);
    let c = image(&[&[2, 1], &[1, 3]]);
    // east: the left column of the neighbour lies on the right column of `a`
    assert!(overlap_agrees(&a, &b, 2, 1));
    assert!(overlap_agrees(&a, &c, 2, 1));
    assert!(!overlap_agrees(&a, &a, 2, 1));
    // north: the bottom row of the neighbour lies on the top row of `a`
    assert!(overlap_agrees(&a, &b, 2, 0));
    assert!(!overlap_agrees(&a, &c, 2, 0));
    // south and west
    assert!(overlap_agrees(&a, &c, 2, 2));
    assert!(!overlap_agrees(&c, &a, 2, 2));
    assert!(overlap_agrees(&a, &b, 2, 3));
}

#[test]
fn single_cells_overlap_nowhere() {
    let a = image(&[&[1]]);
    let b = image(&[&[2]]);
    for dir in 0..4 {
        assert!(overlap_agrees(&a, &b, 1, dir));
    }
    let table = overlap_rules(&vec![a, b], 1);
    assert_eq!(rows_of(&table), vec![vec![vec![0, 1]; 4]; 2]);
}

#[test]
fn overlap_rules_of_the_wrapped_sample() {
    let builder = OverlappingPreprocessor::new(2, true, true, false);
    let images = builder.extract_images(&sample()).unwrap();
    let table = builder.create_adjacency_rules(&images);
    assert_eq!(
        rows_of(&table),
        vec![
            vec![vec![1], vec![1, 2], vec![1, 2], vec![1, 4]],
            vec![vec![0, 3], vec![0, 3], vec![0], vec![0, 5]],
            vec![vec![0, 3], vec![4], vec![3], vec![0, 5]],
            vec![vec![2], vec![5], vec![1, 2], vec![1, 4]],
            vec![vec![5], vec![0, 3], vec![5], vec![2]],
            vec![vec![4], vec![1, 2], vec![4], vec![3]],
        ]
    );
}

#[test]
fn overlap_rules_may_be_asymmetric() {
    let builder = OverlappingPreprocessor::new(2, false, false, false);
    let images = builder.extract_images(&sample()).unwrap();
    let table = builder.create_adjacency_rules(&images);
    assert_eq!(
        rows_of(&table),
        vec![
            vec![vec![], vec![1], vec![1], vec![]],
            vec![vec![0], vec![], vec![], vec![0]],
        ]
    );
}

#[test]
fn process_builds_catalog_and_rules() {
    let builder = OverlappingPreprocessor::new(2, true, true, false);
    let (patterns, table) = process(&builder, &sample()).unwrap();
    assert_eq!(patterns.len(), 6);
    assert_eq!(table.len(), 6);
    assert_eq!(table.get(2, 1), &vec![4]);
}

#[test]
fn extraction_is_repeatable() {
    let builder = OverlappingPreprocessor::new(2, true, true, true);
    let first = builder.extract_images(&sample()).unwrap();
    let second = builder.extract_images(&sample()).unwrap();
    assert_images(&first, &second);
    assert_eq!(
        rows_of(&builder.create_adjacency_rules(&first)),
        rows_of(&builder.create_adjacency_rules(&second))
    );
}
