use imagely::geometry::Circle;
use imagely::Image;

fn lit(img: &Image) -> Vec<(usize, usize)> {
    let mut points = Vec::new();
    for y in 0..img.height() as usize {
        for x in 0..img.width() as usize {
            if img.sample_at(x, y, 0) != 0 {
                points.push((x, y));
            }
        }
    }
    points
}

#[test]
fn circle_pos_along_the_axes() {
    let circle = Circle::build((10, 20), 5);
    assert_eq!(circle.circle_pos((10, 15)), (10, 15));
    assert_eq!(circle.circle_pos((10, 25)), (10, 25));
    assert_eq!(circle.circle_pos((5, 20)), (5, 20));
    assert_eq!(circle.circle_pos((15, 20)), (15, 20));
    assert_eq!(circle.circle_pos((10, 3)), (10, 15));
    assert_eq!(circle.circle_pos((40, 20)), (15, 20));
}

#[test]
fn circle_pos_at_the_centre() {
    let circle = Circle::build((10, 20), 5);
    assert_eq!(circle.circle_pos((10, 20)), (10, 20));
}

#[test]
fn circle_pos_on_a_slanted_ray() {
    let circle = Circle::build((100, 100), 5);
    assert_eq!(circle.circle_pos((103, 96)), (103, 96));
    assert_eq!(circle.circle_pos((106, 92)), (103, 96));
    assert_eq!(circle.circle_pos((97, 104)), (97, 104));
    assert_eq!(circle.circle_pos((95, 95)), (96, 96));
    assert_eq!(circle.circle_pos((105, 105)), (104, 104));
    let circle = Circle::build((1000, 1000), 499);
    assert_eq!(circle.circle_pos((1100, 501)), (1098, 511));
    let circle = Circle::build((50, 50), 10);
    assert_eq!(circle.circle_pos((51, 40)), (51, 40));
}

#[test]
fn circle_pos_may_leave_the_image() {
    let circle = Circle::build((1, 1), 5);
    assert_eq!(circle.circle_pos((-4, 1)), (-4, 1));
    assert_eq!(circle.circle_pos((1, -4)), (1, -4));
    assert_eq!(circle.circle_pos((-4, -4)), (-3, -3));
}

#[test]
fn bounding_pos_to_pos_starts_at_the_box_corner() {
    let circle = Circle::build((10, 20), 5);
    assert_eq!(circle.bounding_pos_to_pos((0, 0)), (5, 15));
    assert_eq!(circle.bounding_pos_to_pos((10, 10)), (15, 25));
    assert_eq!(circle.bounding_pos_to_pos((5, 5)), (10, 20));
    let circle = Circle::build((1, 2), 5);
    assert_eq!(circle.bounding_pos_to_pos((0, 0)), (-4, -3));
}

#[test]
fn outline_of_radius_two() {
    let mut img = Image::new(7, 7);
    Circle::build((3, 3), 2).draw_outline(&mut img, (255, 0, 0, 255));
    assert_eq!(
        lit(&img),
        vec![
            (2, 1),
            (3, 1),
            (4, 1),
            (1, 2),
            (2, 2),
            (4, 2),
            (5, 2),
            (1, 3),
            (5, 3),
            (1, 4),
            (2, 4),
            (4, 4),
            (5, 4),
            (2, 5),
            (3, 5),
            (4, 5)
        ]
    );
    for (x, y) in lit(&img) {
        assert_eq!(img.pixel_at(x, y), vec![255, 0, 0, 255]);
    }
}

#[test]
fn outline_of_radius_three_through_the_image() {
    let mut img = Image::new(9, 9);
    img.draw_circle_outline((4, 4), 3, (9, 8, 7, 6));
    assert_eq!(
        lit(&img),
        vec![
            (3, 1),
            (4, 1),
            (5, 1),
            (2, 2),
            (6, 2),
            (1, 3),
            (7, 3),
            (1, 4),
            (7, 4),
            (1, 5),
            (7, 5),
            (2, 6),
            (6, 6),
            (3, 7),
            (4, 7),
            (5, 7)
        ]
    );
    assert_eq!(img.pixel_at(4, 1), vec![9, 8, 7, 6]);
    assert_eq!(img.pixel_at(4, 4), vec![0, 0, 0, 0]);
}

#[test]
fn outline_of_radius_zero_is_the_centre() {
    let mut img = Image::new(3, 3);
    img.draw_circle_outline((1, 1), 0, (1, 2, 3, 4));
    assert_eq!(lit(&img), vec![(1, 1)]);
}

#[test]
fn outline_outside_the_image_is_passed_over() {
    let mut img = Image::new(3, 3);
    img.draw_circle_outline((0, 0), 2, (255, 255, 255, 255));
    assert_eq!(lit(&img), vec![(2, 0), (1, 1), (2, 1), (0, 2), (1, 2)]);
    let mut img = Image::new(3, 3);
    img.draw_circle_outline((100, 100), 2, (255, 255, 255, 255));
    assert_eq!(lit(&img), vec![]);
}

#[test]
fn outline_on_rgb_uses_three_bytes() {
    let mut img = Image::from_bytes(3, 3, 3, vec![0; 27]).unwrap();
    img.draw_circle_outline((1, 1), 1, (5, 6, 7, 8));
    assert_eq!(img.channels(), 3);
    assert_eq!(img.as_bytes().len(), 27);
    assert_eq!(img.pixel_at(1, 0), vec![5, 6, 7]);
    assert_eq!(img.pixel_at(1, 1), vec![0, 0, 0]);
    assert_eq!(
        lit(&img),
        vec![(0, 0), (1, 0), (2, 0), (0, 1), (2, 1), (0, 2), (1, 2), (2, 2)]
    );
}

#[test]
fn replace_pixel_if_viable_passes_over_outside() {
    let mut img = Image::new(2, 2);
    img.replace_pixel_if_viable((1, 0), &vec![1, 2, 3, 4]);
    img.replace_pixel_if_viable((2, 0), &vec![9, 9, 9, 9]);
    img.replace_pixel_if_viable((0, -1), &vec![9, 9, 9, 9]);
    img.replace_pixel_if_viable((-1, 1), &vec![9, 9, 9, 9]);
    img.replace_pixel_if_viable((0, 2), &vec![9, 9, 9, 9]);
    assert_eq!(img.as_bytes(), &vec![0, 0, 0, 0, 1, 2, 3, 4, 0, 0, 0, 0, 0, 0, 0, 0]);
}

#[test]
fn replace_pixel_at_writes_one_pixel() {
    let mut img = Image::from_bytes(3, 2, 2, vec![0; 12]).unwrap();
    img.replace_pixel_at((0, 1), &vec![1, 2, 3, 4]);
    assert_eq!(img.as_bytes(), &vec![0, 0, 0, 0, 0, 0, 1, 2, 3, 0, 0, 0]);
}
