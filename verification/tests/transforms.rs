use imagely::Image;

fn image(channels: u8, width: u32, height: u32, data: Vec<u8>) -> Image {
    Image::from_bytes(channels, width, height, data).unwrap()
}

fn numbered(channels: u8, width: u32, height: u32) -> Image {
    let len = (width * height * channels as u32) as usize;
    image(channels, width, height, (0..len).map(|i| (i * 7 % 256) as u8).collect())
}

fn six_rgb_pixels() -> Vec<u8> {
    vec![0, 1, 2, 10, 11, 12, 20, 21, 22, 30, 31, 32, 40, 41, 42, 50, 51, 52]
}

#[test]
fn rotate_180_of_four_colours() {
    let mut img = image(
        4,
        2,
        2,
        vec![255, 0, 0, 255, 0, 255, 0, 255, 0, 0, 255, 255, 255, 255, 0, 255],
    );
    img.rotate_180();
    assert_eq!(img.width(), 2);
    assert_eq!(img.height(), 2);
    assert_eq!(img.channels(), 4);
    assert_eq!(
        img.as_bytes(),
        &vec![255, 255, 0, 255, 0, 0, 255, 255, 0, 255, 0, 255, 255, 0, 0, 255]
    );
}

#[test]
fn rotate_180_keeps_a_wide_image_wide() {
    let mut img = image(3, 3, 2, six_rgb_pixels());
    img.rotate_180();
    assert_eq!((img.width(), img.height()), (3, 2));
    assert_eq!(
        img.as_bytes(),
        &vec![50, 51, 52, 40, 41, 42, 30, 31, 32, 20, 21, 22, 10, 11, 12, 0, 1, 2]
    );
}

#[test]
fn rotate_180_twice_is_identity() {
    for (channels, width, height) in [(3, 5, 4), (4, 1, 7), (4, 6, 1), (3, 0, 0), (4, 3, 3)] {
        let mut img = numbered(channels, width, height);
        let before = img.as_bytes().clone();
        img.rotate_180();
        img.rotate_180();
        assert_eq!(img.as_bytes(), &before);
        assert_eq!((img.width(), img.height()), (width, height));
    }
}

#[test]
fn rotate_90_turns_clockwise() {
    let mut img = image(3, 3, 2, six_rgb_pixels());
    img.rotate_90();
    assert_eq!((img.width(), img.height()), (2, 3));
    assert_eq!(img.channels(), 3);
    assert_eq!(
        img.as_bytes(),
        &vec![30, 31, 32, 0, 1, 2, 40, 41, 42, 10, 11, 12, 50, 51, 52, 20, 21, 22]
    );
}

#[test]
fn rotate_270_turns_counterclockwise() {
    let mut img = image(3, 3, 2, six_rgb_pixels());
    img.rotate_270();
    assert_eq!((img.width(), img.height()), (2, 3));
    assert_eq!(
        img.as_bytes(),
        &vec![20, 21, 22, 50, 51, 52, 10, 11, 12, 40, 41, 42, 0, 1, 2, 30, 31, 32]
    );
}

#[test]
fn rotate_90_moves_each_pixel_by_the_index_formula() {
    let (width, height) = (4usize, 3usize);
    let src = numbered(4, width as u32, height as u32);
    let mut img = numbered(4, width as u32, height as u32);
    img.rotate_90();
    for y in 0..height {
        for x in 0..width {
            let new_index = x * height + (height - 1 - y);
            for c in 0..4 {
                assert_eq!(img.as_bytes()[new_index * 4 + c], src.sample_at(x, y, c));
            }
        }
    }
}

#[test]
fn quarter_turns_undo_each_other() {
    for (channels, width, height) in [(3, 5, 4), (4, 1, 7), (4, 6, 1), (3, 0, 2), (4, 3, 3)] {
        let mut img = numbered(channels, width, height);
        let before = img.as_bytes().clone();
        img.rotate_270();
        assert_eq!((img.width(), img.height()), (height, width));
        img.rotate_90();
        assert_eq!(img.as_bytes(), &before);
        assert_eq!((img.width(), img.height()), (width, height));
        img.rotate_90();
        assert_eq!((img.width(), img.height()), (height, width));
        img.rotate_270();
        assert_eq!(img.as_bytes(), &before);
        assert_eq!((img.width(), img.height()), (width, height));
    }
}

#[test]
fn two_quarter_turns_make_a_half_turn() {
    let mut twice = numbered(4, 5, 3);
    twice.rotate_90();
    twice.rotate_90();
    let mut half = numbered(4, 5, 3);
    half.rotate_180();
    assert_eq!(twice.as_bytes(), half.as_bytes());
    assert_eq!((twice.width(), twice.height()), (5, 3));
}

#[test]
fn grayscale_takes_the_truncated_mean() {
    let mut img = image(4, 2, 1, vec![10, 20, 40, 99, 255, 255, 254, 0]);
    img.to_grayscale();
    assert_eq!(img.as_bytes(), &vec![23, 23, 23, 99, 254, 254, 254, 0]);
    let mut rgb = image(3, 2, 1, vec![0, 0, 2, 1, 1, 0]);
    rgb.to_grayscale();
    assert_eq!(rgb.as_bytes(), &vec![0, 0, 0, 0, 0, 0]);
}

#[test]
fn grayscale_twice_is_grayscale_once() {
    for channels in [3, 4] {
        let mut img = numbered(channels, 5, 4);
        img.to_grayscale();
        let once = img.as_bytes().clone();
        img.to_grayscale();
        assert_eq!(img.as_bytes(), &once);
    }
}

#[test]
fn crop_to_the_centre_of_four_by_four() {
    let mut img = image(4, 4, 4, (0..64).collect());
    img.crop((1, 1, 3, 3));
    assert_eq!((img.width(), img.height()), (2, 2));
    assert_eq!(img.channels(), 4);
    assert_eq!(
        img.as_bytes(),
        &vec![20, 21, 22, 23, 24, 25, 26, 27, 36, 37, 38, 39, 40, 41, 42, 43]
    );
}

#[test]
fn crop_to_the_whole_changes_nothing() {
    let mut img = numbered(3, 5, 4);
    let before = img.as_bytes().clone();
    img.crop((0, 0, 5, 4));
    assert_eq!(img.as_bytes(), &before);
    assert_eq!((img.width(), img.height()), (5, 4));
}

#[test]
fn crop_again_to_the_whole_result() {
    let mut img = numbered(4, 6, 5);
    img.crop((2, 1, 5, 4));
    assert_eq!((img.width(), img.height()), (3, 3));
    let once = img.as_bytes().clone();
    img.crop((0, 0, 3, 3));
    assert_eq!(img.as_bytes(), &once);
    assert_eq!((img.width(), img.height()), (3, 3));
}

#[test]
fn crop_to_nothing() {
    let mut img = numbered(3, 5, 4);
    img.crop((5, 2, 5, 4));
    assert_eq!((img.width(), img.height()), (0, 2));
    assert_eq!(img.as_bytes().len(), 0);
    let mut img = numbered(3, 5, 4);
    img.crop((1, 4, 3, 4));
    assert_eq!((img.width(), img.height()), (2, 0));
    assert_eq!(img.as_bytes().len(), 0);
}

#[test]
fn crop_of_a_single_row_of_rgb() {
    let mut img = image(3, 3, 2, six_rgb_pixels());
    img.crop((1, 1, 3, 2));
    assert_eq!((img.width(), img.height()), (2, 1));
    assert_eq!(img.as_bytes(), &vec![40, 41, 42, 50, 51, 52]);
}
