use rt::texture::ImageTexture;

fn two_by_two() -> ImageTexture {
    // Top row: red, green. Bottom row: blue, white.
    let data: Vec<u8> = vec![255, 0, 0, 0, 255, 0, 0, 0, 255, 255, 255, 255];
    ImageTexture::from_raw(data, 2, 2).unwrap()
}

#[test]
fn empty_texture_has_no_texel() {
    let tex = ImageTexture::new();
    assert!(tex.is_empty());
    assert_eq!(tex.width(), 0);
    assert_eq!(tex.height(), 0);
    assert_eq!(tex.texel(0, 0), None);
    assert_eq!(tex.texel(7, 9), None);
    assert_eq!(tex.texel_index(0, 0), None);
}

#[test]
fn from_raw_accepts_matching_size() {
    let tex = two_by_two();
    assert!(!tex.is_empty());
    assert_eq!(tex.width(), 2);
    assert_eq!(tex.height(), 2);
}

#[test]
fn from_raw_rejects_wrong_length() {
    assert!(ImageTexture::from_raw(vec![0u8; 11], 2, 2).is_none());
    assert!(ImageTexture::from_raw(vec![0u8; 13], 2, 2).is_none());
    assert!(ImageTexture::from_raw(vec![0u8; 3], 0, 0).is_none());
}

#[test]
fn from_raw_rejects_stride_overflow() {
    assert!(ImageTexture::from_raw(Vec::new(), u32::MAX, 0).is_none());
    assert!(ImageTexture::from_raw(Vec::new(), u32::MAX / 3 + 1, 0).is_none());
    assert!(ImageTexture::from_raw(Vec::new(), u32::MAX / 3, 0).is_some());
}

#[test]
fn from_raw_of_nothing_is_empty() {
    let tex = ImageTexture::from_raw(Vec::new(), 0, 0).unwrap();
    assert!(tex.is_empty());
    assert_eq!(tex.texel(0, 0), None);
    let flat = ImageTexture::from_raw(Vec::new(), 5, 0).unwrap();
    assert!(flat.is_empty());
    assert_eq!(flat.width(), 5);
}

#[test]
fn texel_reads_each_pixel() {
    let tex = two_by_two();
    assert_eq!(tex.texel(0, 0), Some((255, 0, 0)));
    assert_eq!(tex.texel(1, 0), Some((0, 255, 0)));
    assert_eq!(tex.texel(0, 1), Some((0, 0, 255)));
    assert_eq!(tex.texel(1, 1), Some((255, 255, 255)));
}

#[test]
fn texel_clamps_to_last_column_and_row() {
    let tex = two_by_two();
    assert_eq!(tex.texel(2, 0), Some((0, 255, 0)));
    assert_eq!(tex.texel(0, 2), Some((0, 0, 255)));
    assert_eq!(tex.texel(u32::MAX, u32::MAX), Some((255, 255, 255)));
}

#[test]
fn texel_index_is_row_major() {
    let data: Vec<u8> = (0..60).collect();
    let tex = ImageTexture::from_raw(data, 5, 4).unwrap();
    assert_eq!(tex.texel_index(0, 0), Some(0));
    assert_eq!(tex.texel_index(3, 0), Some(9));
    assert_eq!(tex.texel_index(0, 1), Some(15));
    assert_eq!(tex.texel_index(4, 3), Some(57));
    assert_eq!(tex.texel_index(9, 9), Some(57));
    assert_eq!(tex.texel(2, 2), Some((36, 37, 38)));
}
