//! The debug texture byte pattern: palette rows rotated right one texel per
//! row.

use chunk_stream::texture::uv_debug_texture_data;

const PALETTE: [u8; 32] = [
    255, 102, 159, 255, 255, 159, 102, 255, 236, 255, 102, 255, 121, 255, 102, 255, 102, 255,
    198, 255, 102, 198, 255, 255, 121, 102, 255, 255, 236, 102, 255, 255,
];

#[test]
fn texture_is_256_bytes() {
    assert_eq!(uv_debug_texture_data().len(), 256);
}

#[test]
fn first_row_is_the_palette() {
    let data = uv_debug_texture_data();
    assert_eq!(&data[0..32], &PALETTE);
}

#[test]
fn each_row_rotates_one_texel_right() {
    let data = uv_debug_texture_data();
    for y in 0..8usize {
        for i in 0..32usize {
            let src = (i + 32 - 4 * y) % 32;
            assert_eq!(data[y * 32 + i], PALETTE[src], "row {y}, byte {i}");
        }
    }
}

#[test]
fn second_row_starts_with_last_palette_texel() {
    let data = uv_debug_texture_data();
    assert_eq!(&data[32..36], &[236, 102, 255, 255]);
}
