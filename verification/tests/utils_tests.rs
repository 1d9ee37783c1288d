use wfc::image::{Image, Pixel};
use wfc::utils::{
    copy_ids, direction_offset, index_from_xy, opposite_direction, rotate_image, xy_from_index,
    AdjacencyData,
};

fn px(v: u8) -> Pixel {
    Pixel { r: v, g: 0, b: 0, a: 255 }
}

fn image(rows: &[&[u8]]) -> Image {
    let height = rows.len() as u16;
    let width = if rows.is_empty() { 0 } else { rows[0].len() as u16 };
    let mut pixels = Vec::new();
    for row in rows {
        for v in row.iter() {
            pixels.push(px(*v));
        }
    }
    Image::from_pixels(width, height, pixels).unwrap()
}

#[test]
fn index_and_position_are_inverse() {
    assert_eq!(xy_from_index(0, 5), (0, 0));
    assert_eq!(xy_from_index(7, 5), (2, 1));
    assert_eq!(xy_from_index(14, 5), (4, 2));
    assert_eq!(index_from_xy(2, 1, 5), 7);
    assert_eq!(index_from_xy(4, 2, 5), 14);
    for i in 0..30 {
        let (x, y) = xy_from_index(i, 6);
        assert_eq!(index_from_xy(x, y, 6), i);
    }
}

#[test]
fn directions_are_north_east_south_west() {
    assert_eq!(direction_offset(0), (0, -1));
    assert_eq!(direction_offset(1), (1, 0));
    assert_eq!(direction_offset(2), (0, 1));
    assert_eq!(direction_offset(3), (-1, 0));
    assert_eq!(opposite_direction(0), 2);
    assert_eq!(opposite_direction(1), 3);
    assert_eq!(opposite_direction(2), 0);
    assert_eq!(opposite_direction(3), 1);
}

#[test]
fn rotate_zero_times_is_a_copy() {
    let img = image(&[&[1, 2], &[3, 4]]);
    assert!(rotate_image(&img, 0).same(&img));
}

#[test]
fn rotate_turns_clockwise() {
    let img = image(&[&[1, 2], &[3, 4]]);
    assert!(rotate_image(&img, 1).same(&image(&[&[3, 1], &[4, 2]])));
    assert!(rotate_image(&img, 2).same(&image(&[&[4, 3], &[2, 1]])));
    assert!(rotate_image(&img, 3).same(&image(&[&[2, 4], &[1, 3]])));
    assert!(rotate_image(&img, 4).same(&img));
}

#[test]
fn rotate_swaps_the_sides_of_a_rectangle() {
    let img = image(&[&[1, 2, 3], &[4, 5, 6]]);
    let turned = rotate_image(&img, 1);
    assert_eq!(turned.width(), 2);
    assert_eq!(turned.height(), 3);
    assert!(turned.same(&image(&[&[4, 1], &[5, 2], &[6, 3]])));
    assert!(rotate_image(&img, 2).same(&image(&[&[6, 5, 4], &[3, 2, 1]])));
}

#[test]
fn rotate_keeps_an_empty_image_empty() {
    let img = Image::new(0, 0, px(0));
    assert_eq!(rotate_image(&img, 3).get_image_data().len(), 0);
}

#[test]
fn table_from_rows_checks_the_rows() {
    let ok = vec![
        vec![vec![0usize, 1], vec![1], vec![], vec![0]],
        vec![vec![1usize], vec![0, 1], vec![0], vec![]],
    ];
    let table = AdjacencyData::from_rows(ok).unwrap();
    assert_eq!(table.len(), 2);
    assert_eq!(table.get(0, 0), &vec![0, 1]);
    assert_eq!(table.get(1, 2), &vec![0]);
    assert!(table.allows(0, 1, 1));
    assert!(!table.allows(0, 1, 0));
    assert!(!table.allows(0, 2, 0));
    assert!(!table.allows(1, 3, 7));

    let three_directions = vec![vec![vec![0usize], vec![0], vec![0]]];
    assert!(AdjacencyData::from_rows(three_directions).is_none());
    let unknown_id = vec![vec![vec![0usize], vec![0], vec![1], vec![0]]];
    assert!(AdjacencyData::from_rows(unknown_id).is_none());
    assert_eq!(AdjacencyData::from_rows(vec![]).unwrap().len(), 0);
}

#[test]
fn table_copy_has_the_same_rows() {
    let rows = vec![
        vec![vec![0usize, 1], vec![1], vec![], vec![0]],
        vec![vec![1usize], vec![0, 1], vec![0], vec![]],
    ];
    let table = AdjacencyData::from_rows(rows.clone()).unwrap();
    let copy = table.copy();
    assert_eq!(copy.len(), 2);
    for a in 0..2 {
        for dir in 0..4 {
            assert_eq!(copy.get(a, dir), &rows[a][dir]);
        }
    }
}

#[test]
fn table_push_appends_a_pattern() {
    let mut table = AdjacencyData::new();
    assert_eq!(table.len(), 0);
    table.push(vec![0], vec![], vec![0], vec![]);
    assert_eq!(table.len(), 1);
    assert_eq!(table.get(0, 0), &vec![0]);
    assert_eq!(table.get(0, 1), &Vec::<usize>::new());
}

#[test]
fn copy_ids_copies() {
    assert_eq!(copy_ids(&vec![3, 1, 2]), vec![3, 1, 2]);
    assert_eq!(copy_ids(&vec![]), Vec::<usize>::new());
}
