use point_index::draw::{ImageDraw, MapView, Rgba};

const RED: Rgba = Rgba { r: 200, g: 10, b: 20, a: 255 };
const GLASS: Rgba = Rgba { r: 1, g: 2, b: 3, a: 4 };

#[test]
fn new_map_view_is_white() {
    let mut view = MapView::init(3, 2);
    let image = view.get_draw();
    assert_eq!(image.data().len(), 24);
    assert!(image.data().iter().all(|byte| *byte == 255));
}

#[test]
fn empty_map_view_has_no_bytes() {
    let mut view = MapView::init(0, 7);
    assert!(view.get_draw().data().is_empty());
}

#[test]
fn pixel_lies_at_four_times_its_number() {
    let mut view = MapView::init(3, 2);
    view.get_draw().set_pixel(2, 1, GLASS);
    let mut expected = vec![255u8; 24];
    // pixel number 3 * 1 + 2 = 5 begins at byte 20
    expected[20] = 1;
    expected[21] = 2;
    expected[22] = 3;
    expected[23] = 4;
    assert_eq!(view.get_draw().data(), &expected);
    view.get_draw().set_pixel(0, 0, RED);
    expected[0] = 200;
    expected[1] = 10;
    expected[2] = 20;
    expected[3] = 255;
    assert_eq!(view.get_draw().data(), &expected);
    view.get_draw().set_pixel(1, 0, GLASS);
    assert_eq!(&view.get_draw().data()[4..8], &[1, 2, 3, 4]);
    assert_eq!(&view.get_draw().data()[8..20], &[255; 12]);
}

#[test]
fn image_needs_four_bytes_for_each_pixel() {
    assert!(ImageDraw::new(vec![0; 24], 3, 2).is_some());
    assert!(ImageDraw::new(vec![0; 23], 3, 2).is_none());
    assert!(ImageDraw::new(vec![0; 25], 3, 2).is_none());
    assert!(ImageDraw::new(Vec::new(), 0, 5).is_some());
    assert!(ImageDraw::new(Vec::new(), u32::MAX, u32::MAX).is_none());
    let mut image = ImageDraw::new(vec![9; 8], 1, 2).unwrap();
    image.set_pixel(0, 1, RED);
    assert_eq!(image.data(), &vec![9, 9, 9, 9, 200, 10, 20, 255]);
}
