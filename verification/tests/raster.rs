use private_count::raster::PlainImage;

#[test]
fn a_buffer_of_the_wrong_length_is_no_image() {
    assert!(PlainImage::new(2, 2, vec![0; 12]).is_some());
    assert!(PlainImage::new(2, 2, vec![0; 11]).is_none());
    assert!(PlainImage::new(2, 2, vec![0; 13]).is_none());
    assert!(PlainImage::new(2, 2, vec![0; 4]).is_none());
    assert!(PlainImage::new(0, 9, vec![]).is_some());
    assert!(PlainImage::new(0, 9, vec![1, 2, 3]).is_none());
    assert!(PlainImage::new(u32::MAX, u32::MAX, vec![0; 3]).is_none());
}

#[test]
fn pixels_lie_row_by_row() {
    let pixels: Vec<u8> = (0..18).collect();
    let img = PlainImage::new(3, 2, pixels).unwrap();
    assert_eq!(img.pixel_offset(0, 0), 0);
    assert_eq!(img.pixel_offset(2, 0), 6);
    assert_eq!(img.pixel_offset(0, 1), 9);
    assert_eq!(img.pixel_offset(2, 1), 15);
    assert_eq!(img.get_pixel(1, 0), [3, 4, 5]);
    assert_eq!(img.get_pixel(2, 1), [15, 16, 17]);
}
