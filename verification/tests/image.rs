use hollowatlas::atlas::pixels::Image;

fn numbered(width: u32, height: u32) -> Image {
    let mut image = Image::new(width, height);
    for y in 0..height {
        for x in 0..width {
            image.put_pixel(x, y, [x as u8, y as u8, 7, 255]);
        }
    }
    image
}

#[test]
fn rotation_turns_a_quarter_clockwise() {
    let image = numbered(3, 2);
    let turned = image.rotated();
    assert_eq!(turned.dimensions(), (2, 3));
    // pixel (x, y) of the result is pixel (y, height - 1 - x) of the source
    assert_eq!(turned.get_pixel(0, 0), [0, 1, 7, 255]);
    assert_eq!(turned.get_pixel(1, 0), [0, 0, 7, 255]);
    assert_eq!(turned.get_pixel(0, 2), [2, 1, 7, 255]);
}

#[test]
fn crop_is_clamped_to_the_image() {
    let image = numbered(4, 3);
    let part = image.crop(1, 1, 2, 1);
    assert_eq!(part.dimensions(), (2, 1));
    assert_eq!(part.get_pixel(0, 0), [1, 1, 7, 255]);
    assert_eq!(part.get_pixel(1, 0), [2, 1, 7, 255]);
    let clamped = image.crop(3, 2, 10, 10);
    assert_eq!(clamped.dimensions(), (1, 1));
    assert_eq!(clamped.get_pixel(0, 0), [3, 2, 7, 255]);
}

#[test]
fn raw_bytes_round_trip_row_by_row() {
    let image = numbered(2, 2);
    let bytes = image.to_raw();
    assert_eq!(bytes, vec![0, 0, 7, 255, 1, 0, 7, 255, 0, 1, 7, 255, 1, 1, 7, 255]);
    let back = Image::from_raw(2, 2, bytes).unwrap();
    assert_eq!(back.get_pixel(1, 0), [1, 0, 7, 255]);
    assert!(Image::from_raw(2, 2, vec![0; 15]).is_none());
    let copy = image.copy();
    assert_eq!(copy.get_pixel(1, 1), [1, 1, 7, 255]);
    assert_eq!((image.width(), image.height()), (2, 2));
}
