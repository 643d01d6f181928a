use raytracer::ppm::{encode_ppm, pixel_position, ppm_header, ppm_pixel, quantise};

#[test]
fn header_of_smoke_render() {
    assert_eq!(ppm_header(400, 225), b"P3\n400 225\n255\n".to_vec());
    assert_eq!(ppm_header(0, 1), b"P3\n0 1\n255\n".to_vec());
    assert_eq!(ppm_header(u32::MAX, 10), b"P3\n4294967295 10\n255\n".to_vec());
}

#[test]
fn pixel_line() {
    assert_eq!(ppm_pixel((255, 0, 7)), b"255 0 7\n".to_vec());
    assert_eq!(ppm_pixel((10, 99, 100)), b"10 99 100\n".to_vec());
}

#[test]
fn smoke_render_layout() {
    let pixels = vec![(1u8, 2u8, 3u8); 400 * 225];
    let bytes = encode_ppm(400, 225, &pixels).unwrap();
    let text = String::from_utf8(bytes).unwrap();
    assert!(text.starts_with("P3\n400 225\n255\n"));
    let lines: Vec<&str> = text.lines().collect();
    assert_eq!(lines.len(), 3 + 400 * 225);
    assert!(lines[3..].iter().all(|l| *l == "1 2 3"));
    assert!(text.ends_with("1 2 3\n"));
}

#[test]
fn encode_keeps_pixel_order() {
    let pixels = vec![(0, 0, 0), (255, 255, 255), (12, 34, 56)];
    let bytes = encode_ppm(3, 1, &pixels).unwrap();
    assert_eq!(bytes, b"P3\n3 1\n255\n0 0 0\n255 255 255\n12 34 56\n".to_vec());
}

#[test]
fn encode_rejects_wrong_pixel_count() {
    assert!(encode_ppm(2, 2, &vec![(0, 0, 0); 3]).is_none());
    assert!(encode_ppm(2, 2, &vec![(0, 0, 0); 5]).is_none());
    assert_eq!(encode_ppm(0, 5, &Vec::new()), Some(b"P3\n0 5\n255\n".to_vec()));
}

#[test]
fn quantise_stays_in_byte_range() {
    assert_eq!(quantise(-5), 0);
    assert_eq!(quantise(0), 0);
    assert_eq!(quantise(128), 128);
    assert_eq!(quantise(255), 255);
    assert_eq!(quantise(256), 255);
    assert_eq!(quantise(i64::MAX), 255);
    assert_eq!(quantise(i64::MIN), 0);
}

#[test]
fn quantise_of_gamma_corrected_component() {
    // A mean radiance of 0.25 becomes 0.5 after gamma 2, which is 128 of 256.
    let scaled = (256.0f32 * 0.25f32.sqrt()).floor() as i64;
    assert_eq!(quantise(scaled), 128);
    let scaled = (256.0f32 * 4.0f32.sqrt()).floor() as i64;
    assert_eq!(quantise(scaled), 255);
}

#[test]
fn pixels_run_from_top_row_leftwards_first() {
    assert_eq!(pixel_position(0, 400, 225), Some((0, 224)));
    assert_eq!(pixel_position(399, 400, 225), Some((399, 224)));
    assert_eq!(pixel_position(400, 400, 225), Some((0, 223)));
    assert_eq!(pixel_position(400 * 225 - 1, 400, 225), Some((399, 0)));
    assert_eq!(pixel_position(400 * 225, 400, 225), None);
    assert_eq!(pixel_position(0, 0, 5), None);
    assert_eq!(pixel_position(0, 5, 0), None);
}

#[test]
fn pixel_order_covers_every_pixel_once() {
    let (w, h) = (7u32, 5u32);
    let mut seen = vec![false; (w * h) as usize];
    for index in 0..(w * h) as u64 {
        let (i, j) = pixel_position(index, w, h).unwrap();
        let slot = (j * w + i) as usize;
        assert!(!seen[slot]);
        seen[slot] = true;
    }
    assert!(seen.iter().all(|&s| s));
}
