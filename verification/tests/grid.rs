use thermometer::grid::PixelGrid;

#[test]
fn grid_reads_pixels_row_by_row() {
    let buf: Vec<u8> = (0..24).collect();
    let grid = PixelGrid::from_raw(3, 2, buf).unwrap();
    assert_eq!(grid.width(), 3);
    assert_eq!(grid.height(), 2);
    assert_eq!(grid.get_pixel(0, 0), Some([0, 1, 2, 3]));
    assert_eq!(grid.get_pixel(2, 0), Some([8, 9, 10, 11]));
    assert_eq!(grid.get_pixel(0, 1), Some([12, 13, 14, 15]));
    assert_eq!(grid.get_pixel(2, 1), Some([20, 21, 22, 23]));
}

#[test]
fn grid_has_no_pixel_outside() {
    let grid = PixelGrid::from_raw(3, 2, vec![0; 24]).unwrap();
    assert_eq!(grid.get_pixel(3, 0), None);
    assert_eq!(grid.get_pixel(0, 2), None);
    assert_eq!(grid.get_pixel(4294967295, 4294967295), None);
}

#[test]
fn grid_refuses_a_short_buffer() {
    assert!(PixelGrid::from_raw(3, 2, vec![0; 23]).is_none());
    assert!(PixelGrid::from_raw(4294967295, 4294967295, vec![0; 16]).is_none());
    assert!(PixelGrid::from_raw(3, 2, vec![0; 25]).is_some());
    assert!(PixelGrid::from_raw(0, 7, Vec::new()).is_some());
}

#[test]
fn grid_gives_its_buffer_back() {
    let buf: Vec<u8> = (100..124).collect();
    let grid = PixelGrid::from_raw(2, 3, buf.clone()).unwrap();
    assert_eq!(grid.into_raw(), buf);
}

#[test]
fn grid_agrees_with_the_image_buffer() {
    let mut img = image::RgbaImage::new(4, 3);
    img.put_pixel(1, 2, image::Rgba([9, 8, 7, 6]));
    img.put_pixel(3, 0, image::Rgba([1, 2, 3, 4]));
    let grid = PixelGrid::from_raw(4, 3, img.clone().into_raw()).unwrap();
    for y in 0..3 {
        for x in 0..4 {
            assert_eq!(grid.get_pixel(x, y), Some(img.get_pixel(x, y).0));
        }
    }
}
