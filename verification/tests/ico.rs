use cursorpack::ico::{
    and_stride, closest, decode, decode_dim, dim_byte, encode, largest, read_dir, Image, DIR_ENTRY, DIR_HEADER,
    TYPE_CURSOR,
};

fn solid(size: u32, rgba: [u8; 4]) -> Image {
    Image {
        size,
        rgba: rgba.iter().copied().cycle().take((size * size * 4) as usize).collect(),
        hot_x: 0,
        hot_y: 0,
    }
}

#[test]
fn image_lengths_match_windows_cursors() {
    assert_eq!(solid(64, [0; 4]).encoded_len(), 16936);
    assert_eq!(solid(48, [0; 4]).encoded_len(), 9640);
    assert_eq!(solid(32, [0; 4]).encoded_len(), 4264);
}

#[test]
fn and_mask_stride_is_padded_to_four_bytes() {
    assert_eq!(and_stride(32), 4);
    assert_eq!(and_stride(48), 8);
    assert_eq!(and_stride(64), 8);
    assert_eq!(and_stride(96), 12);
    assert_eq!(and_stride(128), 16);
}

#[test]
fn round_trip_preserves_pixels_and_hotspots() {
    let mut a = solid(32, [10, 20, 30, 255]);
    a.hot_x = 3;
    a.hot_y = 2;
    let mut b = solid(64, [40, 50, 60, 128]);
    b.hot_x = 6;
    b.hot_y = 4;

    let bytes = encode(&[a.clone(), b.clone()], TYPE_CURSOR).unwrap();
    let back = decode(&bytes).unwrap();

    assert_eq!(back.len(), 2);
    assert_eq!(back[0].size, 64);
    assert_eq!(back[1].size, 32);
    assert_eq!(back[0], b);
    assert_eq!(back[1], a);
}

#[test]
fn declared_offsets_land_on_real_images() {
    let bytes = encode(&[solid(32, [1, 2, 3, 4]), solid(64, [5, 6, 7, 8])], TYPE_CURSOR).unwrap();
    let dir = read_dir(&bytes).unwrap();
    let mut cursor = (DIR_HEADER + DIR_ENTRY * 2) as u32;
    for e in &dir {
        assert_eq!(e.offset, cursor, "entries must be contiguous");
        cursor += e.bytes;
    }
    assert_eq!(cursor as usize, bytes.len(), "no trailing slack");
}

#[test]
fn rejects_wrong_buffer_size() {
    assert!(Image::new(32, vec![0; 10], 0, 0).is_err());
    assert!(Image::new(32, vec![0; 32 * 32 * 4], 0, 0).is_ok());
}

#[test]
fn size_256_is_stored_as_zero() {
    assert_eq!(dim_byte(256), 0);
    assert_eq!(decode_dim(0), 256);
    assert_eq!(dim_byte(128), 128);
    assert_eq!(decode_dim(128), 128);
}

#[test]
fn the_planes_add_up_to_the_encoded_length() {
    let i = solid(48, [0; 4]);
    assert_eq!(i.xor_len(), 48 * 48 * 4);
    assert_eq!(i.and_len(), 8 * 48);
    assert_eq!(i.encoded_len(), 40 + i.xor_len() + i.and_len());
}

#[test]
fn nothing_to_encode_is_an_error() {
    assert!(encode(&[], TYPE_CURSOR).is_err());
}

#[test]
fn junk_is_not_a_cursor() {
    assert!(decode(b"\x00\x00").is_err());
    assert!(read_dir(b"\x00\x00\x02\x00\x00\x00").is_err());
    assert!(decode(b"\x00\x00\x02\x00\x05\x00").is_err());
}

#[test]
fn largest_picks_the_biggest_and_the_last_among_equals() {
    let imgs = vec![solid(32, [0; 4]), solid(64, [1; 4]), solid(48, [2; 4]), solid(64, [3; 4])];
    assert_eq!(largest(&imgs), 3);
    assert_eq!(largest(&imgs[..1]), 0);
}

#[test]
fn the_closest_size_wins_and_ties_go_to_the_first() {
    let images = vec![solid(32, [0; 4]), solid(64, [0; 4]), solid(48, [0; 4]), solid(80, [0; 4])];
    assert_eq!(closest(&images, 64), 1);
    assert_eq!(closest(&images, 1), 0);
    assert_eq!(closest(&images, 56), 1);
    assert_eq!(closest(&images, 300), 3);
    assert_eq!(closest(&images, 40), 0);
}
