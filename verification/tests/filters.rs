use imagely::Image;

fn image(channels: u8, width: u32, height: u32, data: Vec<u8>) -> Image {
    Image::from_bytes(channels, width, height, data).unwrap()
}

#[test]
fn mean_blur_of_three_by_three() {
    let mut img = image(
        4,
        3,
        3,
        vec![
            1, 4, 7, 200, 8, 11, 14, 201, 15, 18, 21, 202, 22, 25, 28, 203, 29, 32, 35, 204, 36,
            39, 42, 205, 43, 46, 49, 206, 50, 53, 56, 207, 57, 60, 63, 208,
        ],
    );
    img.mean_blur();
    assert_eq!(
        img.as_bytes(),
        &vec![
            15, 18, 21, 200, 15, 18, 21, 201, 22, 25, 28, 202, 24, 27, 30, 203, 29, 32, 35, 204,
            33, 36, 39, 205, 36, 39, 42, 206, 43, 46, 49, 207, 43, 46, 49, 208
        ]
    );
    assert_eq!((img.width(), img.height(), img.channels()), (3, 3, 4));
}

#[test]
fn mean_blur_of_two_pixels_swaps_them() {
    let mut img = image(3, 1, 2, vec![10, 20, 30, 50, 60, 70]);
    img.mean_blur();
    assert_eq!(img.as_bytes(), &vec![50, 60, 70, 10, 20, 30]);
}

#[test]
fn mean_blur_truncates() {
    let mut img = image(3, 3, 1, vec![0, 0, 0, 9, 9, 9, 1, 2, 4]);
    img.mean_blur();
    assert_eq!(img.as_bytes(), &vec![9, 9, 9, 0, 1, 2, 9, 9, 9]);
}

#[test]
fn mean_blur_of_nothing() {
    let mut img = Image::new(0, 4);
    img.mean_blur();
    assert_eq!(img.as_bytes().len(), 0);
}

#[test]
fn kernel_taps_in_the_middle() {
    let img = Image::new(3, 3);
    assert_eq!(
        img.kernel_taps(1, 1, 3),
        vec![(0, 0), (1, 4), (2, 8), (3, 12), (4, 16), (5, 20), (6, 24), (7, 28), (8, 32)]
    );
}

#[test]
fn kernel_taps_leave_out_what_lies_outside() {
    let img = image(3, 3, 3, vec![0; 27]);
    assert_eq!(img.kernel_taps(0, 0, 3), vec![(4, 0), (5, 3), (7, 9), (8, 12)]);
    assert_eq!(img.kernel_taps(2, 2, 3), vec![(0, 12), (1, 15), (3, 21), (4, 24)]);
    assert_eq!(img.kernel_taps(2, 1, 3), vec![(0, 3), (1, 6), (3, 12), (4, 15), (6, 21), (7, 24)]);
}

#[test]
fn kernel_taps_of_one_cell() {
    let img = Image::new(2, 2);
    assert_eq!(img.kernel_taps(1, 0, 1), vec![(0, 4)]);
}

#[test]
fn kernel_taps_of_a_kernel_wider_than_the_image() {
    let img = Image::new(2, 1);
    assert_eq!(img.kernel_taps(0, 0, 5), vec![(12, 0), (13, 4)]);
    assert_eq!(img.kernel_taps(1, 0, 5), vec![(11, 0), (12, 4)]);
}

#[test]
fn set_colors_keeps_alpha() {
    let mut img = image(4, 2, 1, vec![1, 2, 3, 4, 5, 6, 7, 8]);
    img.set_colors(&vec![10, 20, 30, 40, 50, 60]);
    assert_eq!(img.as_bytes(), &vec![10, 20, 30, 4, 40, 50, 60, 8]);
    let mut rgb = image(3, 1, 2, vec![1, 2, 3, 5, 6, 7]);
    rgb.set_colors(&vec![10, 20, 30, 40, 50, 60]);
    assert_eq!(rgb.as_bytes(), &vec![10, 20, 30, 40, 50, 60]);
}
