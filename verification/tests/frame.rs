use bop::frame::content_bounds;

fn image(w: usize, h: usize, ink: &[(usize, usize)]) -> Vec<u8> {
    let mut data = vec![255u8; 4 * w * h];
    for &(x, y) in ink {
        let i = 4 * (y * w + x);
        data[i] = 0;
        data[i + 1] = 0;
        data[i + 2] = 0;
    }
    data
}

#[test]
fn crop_box_around_ink_with_margin() {
    let data = image(20, 10, &[(8, 5), (12, 6)]);
    assert_eq!(content_bounds(&data, 20, 10, 4), (1, 9, 4, 16));
    assert_eq!(content_bounds(&data, 20, 10, 0), (5, 6, 8, 12));
}

#[test]
fn crop_box_of_a_blank_image_is_the_whole_image() {
    let data = image(5, 3, &[]);
    assert_eq!(content_bounds(&data, 5, 3, 4), (0, 2, 0, 4));
}

#[test]
fn near_white_is_not_ink() {
    let mut data = image(4, 4, &[]);
    let i = 4 * (2 * 4 + 1);
    data[i] = 251;
    data[i + 1] = 251;
    data[i + 2] = 250;
    assert_eq!(content_bounds(&data, 4, 4, 0), (2, 2, 1, 1));
    data[i + 2] = 251;
    assert_eq!(content_bounds(&data, 4, 4, 0), (0, 3, 0, 3));
}
