use simple_graph::bitmap::{
    can_encode, parse_color, HEADER_SIZE, MAX_PIXELS, MAX_SIDE, PALETTE_CAPACITY,
};
use simple_graph::BitMap;

#[test]
fn a_descriptor_names_red_green_and_blue() {
    assert_eq!(parse_color("#ffffff"), 0xff_ffff);
    assert_eq!(parse_color("#000000"), 0);
    assert_eq!(parse_color("#0000ff"), 0x00_00ff);
    assert_eq!(parse_color("#AbCdEf"), 0xab_cdef);
    assert_eq!(parse_color("#123456"), 0x12_3456);
    assert_eq!(parse_color("#09afAF"), 0x09_afaf);
}

#[test]
fn a_descriptor_of_another_form_names_black() {
    for color in ["", "#", "ffffff", "fffffff", "#fffff", "#fffffff", "#ggg000", "#ff ff0", "#12345g", "#€00000", "red", "#/00000", "#:00000", "#@00000", "#G00000", "#`00000"] {
        assert_eq!(parse_color(color), 0, "{}", color);
    }
}

#[test]
fn a_color_keeps_its_index() {
    let mut image = BitMap::new(4, 4);
    assert_eq!(image.add_color("#ffffff"), Some(0));
    assert_eq!(image.add_color("#000000"), Some(1));
    assert_eq!(image.add_color("#0000ff"), Some(2));
    assert_eq!(image.add_color("#ffffff"), Some(0));
    assert_eq!(image.add_color("#FFFFFF"), Some(0));
    assert_eq!(image.add_color("#0000ff"), Some(2));
    assert_eq!(image.add_color("#000000"), Some(1));
    assert_eq!(image.add_color("black"), Some(1));
    assert_eq!(image.add_color("#000001"), Some(3));
}

#[test]
fn a_full_palette_refuses_a_new_color() {
    let mut image = BitMap::new(1, 1);
    for i in 0..PALETTE_CAPACITY {
        assert_eq!(image.add_color(&format!("#{:06x}", i * 3)), Some(i as u8));
    }
    assert_eq!(image.add_color("#ffffff"), None);
    assert_eq!(image.add_color("#000001"), None);
    assert_eq!(image.add_color("#000003"), Some(1));
    assert_eq!(image.add_color("#0002fd"), Some(255));
    assert_eq!(image.add_color("#ffffff"), None);
}

#[test]
fn an_image_is_encoded_byte_for_byte() {
    let mut image = BitMap::new(3, 2);
    assert_eq!(image.add_color("#112233"), Some(0));
    assert_eq!(image.add_color("#aabbcc"), Some(1));
    image.add_pixels(&vec![0, 1, 0, 1, 1, 0]);
    let bytes = image.to_vec();

    let mut expected: Vec<u8> = vec![
        0x42, 0x4d, // signature
        0x3c, 0x04, 0x00, 0x00, // size of the file: 1078 + 6
        0x00, 0x00, 0x00, 0x00, // left at zero
        0x36, 0x04, 0x00, 0x00, // start of the pixels: 1078
        0x28, 0x00, 0x00, 0x00, // size of the image header: 40
        0x03, 0x00, 0x00, 0x00, // width
        0xfe, 0xff, 0xff, 0xff, // height, negative: rows run from the top
        0x01, 0x00, // planes
        0x08, 0x00, // bits per pixel
        0x00, 0x00, 0x00, 0x00, // no compression
        0x06, 0x00, 0x00, 0x00, // pixel bytes
        0x00, 0x00, 0x00, 0x00, // horizontal resolution
        0x00, 0x00, 0x00, 0x00, // vertical resolution
        0x00, 0x01, 0x00, 0x00, // colors in the table: 256
        0x00, 0x00, 0x00, 0x00, // all of them needed
        0x33, 0x22, 0x11, 0x00, // first color: blue, green, red
        0xcc, 0xbb, 0xaa, 0x00, // second color
    ];
    expected.resize(HEADER_SIZE, 0);
    expected.extend_from_slice(&[0, 1, 0, 1, 1, 0]);
    assert_eq!(bytes, expected);
}

#[test]
fn a_new_image_is_all_index_zero() {
    let image = BitMap::new(5, 7);
    let bytes = image.to_vec();
    assert_eq!(bytes.len(), HEADER_SIZE + 35);
    assert!(bytes[54..].iter().all(|b| *b == 0));
    assert_eq!(&bytes[18..22], &[5, 0, 0, 0]);
    assert_eq!(&bytes[22..26], &[0xf9, 0xff, 0xff, 0xff]);
}

#[test]
fn an_image_without_pixels_is_headers_only() {
    let image = BitMap::new(0, 9);
    assert_eq!(image.to_vec().len(), HEADER_SIZE);
    let image = BitMap::new(9, 0);
    let bytes = image.to_vec();
    assert_eq!(bytes.len(), HEADER_SIZE);
    assert_eq!(&bytes[22..26], &[0, 0, 0, 0]);
}

#[test]
fn sizes_that_fit_the_headers_can_be_encoded() {
    assert_eq!(HEADER_SIZE, 14 + 40 + 4 * 256);
    assert!(can_encode(0, 0));
    assert!(can_encode(740, 480));
    assert!(can_encode(MAX_SIDE, 0));
    assert!(can_encode(0, MAX_SIDE));
    assert!(can_encode(MAX_SIDE, 1));
    assert!(can_encode(1, MAX_SIDE));
    assert!(!can_encode(MAX_SIDE + 1, 0));
    assert!(!can_encode(0, MAX_SIDE + 1));
    assert!(can_encode(65535, 65535));
    assert!(!can_encode(65536, 65536));
    assert!(can_encode(MAX_PIXELS / 3, 3));
    assert!(!can_encode(MAX_PIXELS / 3 + 1, 3));
    assert!(!can_encode(MAX_SIDE, MAX_SIDE));
}
