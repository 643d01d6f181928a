use raytracer::image_data::ImageData;

fn blank(width: u32, height: u32) -> Vec<u8> {
    vec![0u8; 3 * width as usize * height as usize]
}

fn with_pixel(width: u32, height: u32, x: u32, y: u32, rgb: [u8; 3]) -> ImageData {
    let mut bytes = blank(width, height);
    let o = 3 * (y as usize * width as usize + x as usize);
    bytes[o..o + 3].copy_from_slice(&rgb);
    ImageData::new(width, height, bytes).unwrap()
}

#[test]
fn new_checks_dimensions_and_length() {
    assert!(ImageData::new(10, 10, blank(10, 10)).is_some());
    assert!(ImageData::new(0, 10, Vec::new()).is_none());
    assert!(ImageData::new(10, 0, Vec::new()).is_none());
    assert!(ImageData::new(10, 10, blank(10, 9)).is_none());
    assert!(ImageData::new(2, 1, vec![1, 2, 3, 4, 5, 6, 7]).is_none());
    let img = ImageData::new(4, 3, blank(4, 3)).unwrap();
    assert_eq!((img.width(), img.height()), (4, 3));
}

#[test]
fn pixel_reads_row_major_from_top() {
    let img = ImageData::new(2, 2, vec![1, 2, 3, 4, 5, 6, 7, 8, 9, 10, 11, 12]).unwrap();
    assert_eq!(img.pixel(0, 0), (1, 2, 3));
    assert_eq!(img.pixel(1, 0), (4, 5, 6));
    assert_eq!(img.pixel(0, 1), (7, 8, 9));
    assert_eq!(img.pixel(1, 1), (10, 11, 12));
}

#[test]
fn texel_at_centre() {
    let img = with_pixel(10, 10, 5, 5, [255, 0, 0]);
    assert_eq!(img.texel(5, 5), (255, 0, 0));
    assert_eq!(img.texel(4, 5), (0, 0, 0));
}

#[test]
fn texel_clamps_to_edges() {
    let img = with_pixel(10, 10, 9, 0, [1, 2, 3]);
    assert_eq!(img.texel(10, 0), (1, 2, 3));
    assert_eq!(img.texel(i64::MAX, -4), (1, 2, 3));
    let img = with_pixel(10, 10, 0, 9, [7, 8, 9]);
    assert_eq!(img.texel(-1, 10), (7, 8, 9));
    assert_eq!(img.texel(i64::MIN, 1000), (7, 8, 9));
}
