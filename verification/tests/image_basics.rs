use imagely::{Image, Pixel, PixelIterator, PixelRGB, PixelRGBA};

fn numbered(channels: u8, width: u32, height: u32) -> Image {
    let len = (width * height * channels as u32) as usize;
    let data: Vec<u8> = (0..len).map(|i| (i % 251) as u8).collect();
    Image::from_bytes(channels, width, height, data).unwrap()
}

#[test]
fn new_image_is_transparent_black() {
    let image = Image::new(3, 2);
    assert_eq!(image.channels(), 4);
    assert_eq!(image.width(), 3);
    assert_eq!(image.height(), 2);
    assert_eq!(image.as_bytes(), &vec![0u8; 24]);
    assert_eq!(image.pixel_count(), 6);
}

#[test]
fn new_image_may_be_empty() {
    let image = Image::new(0, 5);
    assert_eq!(image.as_bytes().len(), 0);
    assert_eq!(image.pixel_count(), 0);
}

#[test]
fn from_bytes_takes_matching_lengths() {
    let rgb = Image::from_bytes(3, 2, 2, vec![7; 12]).unwrap();
    assert_eq!(rgb.channels(), 3);
    assert_eq!(rgb.width(), 2);
    assert_eq!(rgb.height(), 2);
    assert_eq!(rgb.into_bytes(), vec![7; 12]);
    assert!(Image::from_bytes(4, 2, 2, vec![7; 16]).is_some());
    assert!(Image::from_bytes(4, 0, 9, vec![]).is_some());
}

#[test]
fn from_bytes_refuses_other_channel_counts() {
    assert!(Image::from_bytes(2, 2, 2, vec![0; 8]).is_none());
    assert!(Image::from_bytes(5, 2, 2, vec![0; 20]).is_none());
    assert!(Image::from_bytes(0, 2, 2, vec![]).is_none());
    assert!(Image::from_bytes(1, 2, 2, vec![0; 4]).is_none());
}

#[test]
fn from_bytes_refuses_wrong_lengths() {
    assert!(Image::from_bytes(3, 2, 2, vec![0; 11]).is_none());
    assert!(Image::from_bytes(3, 2, 2, vec![0; 13]).is_none());
    assert!(Image::from_bytes(4, 2, 2, vec![0; 12]).is_none());
    assert!(Image::from_bytes(4, u32::MAX, u32::MAX, vec![0; 4]).is_none());
}

#[test]
fn pos_to_index_is_row_major() {
    let rgba = numbered(4, 4, 3);
    assert_eq!(rgba.pos_to_index(0, 0), 0);
    assert_eq!(rgba.pos_to_index(2, 1), 24);
    assert_eq!(rgba.pos_to_index(3, 2), 44);
    let rgb = numbered(3, 4, 3);
    assert_eq!(rgb.pos_to_index(2, 1), 18);
}

#[test]
fn index_to_pos_undoes_pos_to_index() {
    let rgba = numbered(4, 4, 3);
    assert_eq!(rgba.index_to_pos(24), (2, 1));
    assert_eq!(rgba.index_to_pos(27), (2, 1));
    assert_eq!(rgba.index_to_pos(28), (3, 1));
    let rgb = numbered(3, 5, 2);
    assert_eq!(rgb.index_to_pos(rgb.pos_to_index(4, 1)), (4, 1));
}

#[test]
fn pixel_index_functions() {
    let rgba = numbered(4, 4, 3);
    assert_eq!(rgba.pixel_index_to_index(6), 24);
    assert_eq!(rgba.pixel_index_to_pos(6), (2, 1));
    assert_eq!(rgba.pixel_index_to_pos(11), (3, 2));
    let rgb = numbered(3, 4, 3);
    assert_eq!(rgb.pixel_index_to_index(6), 18);
}

#[test]
fn is_pos_in_image_bounds() {
    let image = Image::new(4, 3);
    assert!(image.is_pos_in_image((0, 0)));
    assert!(image.is_pos_in_image((3, 2)));
    assert!(!image.is_pos_in_image((4, 2)));
    assert!(!image.is_pos_in_image((3, 3)));
    assert!(!image.is_pos_in_image((-1, 0)));
    assert!(!image.is_pos_in_image((0, -1)));
    assert!(!image.is_pos_in_image((isize::MIN, isize::MAX)));
    let empty = Image::new(0, 0);
    assert!(!empty.is_pos_in_image((0, 0)));
}

#[test]
fn sum_pos_adds_componentwise() {
    assert_eq!(Image::sum_pos((1usize, 2usize), (30, 40)), (31, 42));
    assert_eq!(Image::sum_pos((-5i32, 2), (3, -7)), (-2, -5));
}

#[test]
fn subtract_pos_may_go_below_zero() {
    assert_eq!(Image::subtract_pos((5, 9), (2, 3)), (3, 6));
    assert_eq!(Image::subtract_pos((2, 3), (5, 9)), (-3, -6));
    assert_eq!(Image::subtract_pos((0, 7), (0, 7)), (0, 0));
    assert_eq!(Image::subtract_pos((usize::MAX, 0), (usize::MAX - 1, 1)), (1, -1));
    assert_eq!(
        Image::subtract_pos((0, isize::MAX as usize), (isize::MAX as usize + 1, 0)),
        (isize::MIN, isize::MAX)
    );
}

#[test]
fn pixels_are_built_from_leading_bytes() {
    let rgba = PixelRGBA::build(vec![1, 2, 3, 4, 5]);
    assert_eq!((rgba.r, rgba.g, rgba.b, rgba.a), (1, 2, 3, 4));
    let rgb = PixelRGB::build(vec![9, 8, 7]);
    assert_eq!((rgb.r, rgb.g, rgb.b), (9, 8, 7));
}

#[test]
fn sample_and_pixel_reads() {
    let image = numbered(4, 3, 2);
    assert_eq!(image.sample_at(1, 1, 2), 18);
    assert_eq!(image.pixel_at(2, 0), vec![8, 9, 10, 11]);
    let rgb = numbered(3, 3, 2);
    assert_eq!(rgb.pixel_at(2, 1), vec![15, 16, 17]);
}

#[test]
fn pixel_walk_hands_out_every_rgba_pixel() {
    let image = numbered(4, 2, 2);
    let mut walk = PixelIterator::new(&image);
    let mut seen = Vec::new();
    while let Some(pixel) = walk.next() {
        match pixel {
            Pixel::RGBA(p) => seen.push((p.r, p.g, p.b, p.a)),
            Pixel::RGB(_) => panic!("a four-channel image has no three-channel pixel"),
        }
    }
    assert_eq!(seen, vec![(0, 1, 2, 3), (4, 5, 6, 7), (8, 9, 10, 11), (12, 13, 14, 15)]);
    assert!(walk.next().is_none());
    assert!(walk.next().is_none());
}

#[test]
fn pixel_walk_hands_out_every_rgb_pixel() {
    let image = numbered(3, 3, 1);
    let mut walk = PixelIterator::new(&image);
    let mut seen = Vec::new();
    while let Some(pixel) = walk.next() {
        match pixel {
            Pixel::RGB(p) => seen.push((p.r, p.g, p.b)),
            Pixel::RGBA(_) => panic!("a three-channel image has no four-channel pixel"),
        }
    }
    assert_eq!(seen, vec![(0, 1, 2), (3, 4, 5), (6, 7, 8)]);
}

#[test]
fn pixel_walk_over_nothing_ends_at_once() {
    let image = Image::new(0, 3);
    let mut walk = PixelIterator::new(&image);
    assert!(walk.next().is_none());
}
