use wfc::image::{Image, Pixel};

fn px(v: u8) -> Pixel {
    Pixel { r: v, g: 0, b: 0, a: 255 }
}

fn image(rows: &[&[u8]]) -> Image {
    let height = rows.len() as u16;
    let width = if rows.is_empty() { 0 } else { rows[0].len() as u16 };
    let mut pixels = Vec::new();
    for row in rows {
        for v in row.iter() {
            pixels.push(px(*v));
        }
    }
    Image::from_pixels(width, height, pixels).unwrap()
}

#[test]
fn new_image_is_uniform() {
    let img = Image::new(3, 2, px(9));
    assert_eq!(img.width(), 3);
    assert_eq!(img.height(), 2);
    assert_eq!(img.get_image_data(), &vec![px(9); 6]);
}

#[test]
fn new_image_may_be_empty() {
    let img = Image::new(0, 5, px(1));
    assert_eq!(img.get_image_data().len(), 0);
    assert_eq!(img.height(), 5);
}

#[test]
fn from_pixels_checks_the_count() {
    assert!(Image::from_pixels(2, 2, vec![px(1); 4]).is_some());
    assert!(Image::from_pixels(2, 2, vec![px(1); 3]).is_none());
    assert!(Image::from_pixels(2, 2, vec![px(1); 5]).is_none());
    assert!(Image::from_pixels(0, 0, vec![]).is_some());
}

#[test]
fn pixels_are_stored_row_by_row() {
    let img = image(&[&[1, 2, 3], &[4, 5, 6]]);
    assert_eq!(img.get_pixel(0, 0), px(1));
    assert_eq!(img.get_pixel(2, 0), px(3));
    assert_eq!(img.get_pixel(0, 1), px(4));
    assert_eq!(img.get_pixel(2, 1), px(6));
}

#[test]
fn set_pixel_changes_one_pixel() {
    let mut img = image(&[&[1, 2, 3], &[4, 5, 6]]);
    img.set_pixel(1, 1, px(50));
    assert!(img.same(&image(&[&[1, 2, 3], &[4, 50, 6]])));
}

#[test]
fn same_compares_size_and_pixels() {
    let a = image(&[&[1, 2], &[3, 4]]);
    assert!(a.same(&image(&[&[1, 2], &[3, 4]])));
    assert!(!a.same(&image(&[&[1, 2], &[3, 5]])));
    assert!(!a.same(&image(&[&[1, 2, 3, 4]])));
    assert!(!image(&[&[1, 2, 3, 4]]).same(&image(&[&[1], &[2], &[3], &[4]])));
}

#[test]
fn copy_is_equal() {
    let a = image(&[&[1, 2], &[3, 4]]);
    let b = a.copy();
    assert!(a.same(&b));
}

#[test]
fn sub_image_cuts_a_rectangle() {
    let img = image(&[&[1, 2, 3, 4], &[5, 6, 7, 8], &[9, 10, 11, 12]]);
    assert!(img.sub_image(1, 1, 2, 2).same(&image(&[&[6, 7], &[10, 11]])));
    assert!(img.sub_image(0, 0, 4, 3).same(&img));
    assert!(img.sub_image(3, 2, 1, 1).same(&image(&[&[12]])));
    assert_eq!(img.sub_image(2, 1, 0, 0).get_image_data().len(), 0);
}
