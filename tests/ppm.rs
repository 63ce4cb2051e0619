use raytracer::ppm::{encode_header, encode_image, encode_pixel, push_decimal};

#[test]
fn decimal_digits_of_edge_values() {
    let mut out: Vec<u8> = Vec::new();
    push_decimal(&mut out, 0);
    assert_eq!(out, b"0".to_vec());
    let mut out: Vec<u8> = b"x".to_vec();
    push_decimal(&mut out, 4294967295);
    assert_eq!(out, b"x4294967295".to_vec());
    let mut out: Vec<u8> = Vec::new();
    push_decimal(&mut out, 100);
    assert_eq!(out, b"100".to_vec());
}

#[test]
fn pixel_line_is_space_separated_with_newline() {
    assert_eq!(encode_pixel(255, 128, 0), b"255 128 0\n".to_vec());
    assert_eq!(encode_pixel(0, 0, 0), b"0 0 0\n".to_vec());
    assert_eq!(encode_pixel(9, 10, 99), b"9 10 99\n".to_vec());
}

#[test]
fn header_names_format_size_and_maximum() {
    assert_eq!(encode_header(400, 225), b"P3\n400 225\n255\n".to_vec());
    assert_eq!(encode_header(1, 10), b"P3\n1 10\n255\n".to_vec());
}

#[test]
fn image_is_header_then_lines_in_order() {
    let lines = vec![encode_pixel(1, 2, 3), encode_pixel(255, 255, 255)];
    assert_eq!(
        encode_image(2, 1, &lines),
        b"P3\n2 1\n255\n1 2 3\n255 255 255\n".to_vec()
    );
}

#[test]
fn image_without_lines_is_the_header() {
    assert_eq!(encode_image(0, 0, &Vec::new()), b"P3\n0 0\n255\n".to_vec());
}
