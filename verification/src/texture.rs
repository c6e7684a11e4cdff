//! The UV debug texture: an 8 by 8 grid of RGBA texels built from
//! a 32-byte palette, each row the palette rotated right by one texel (four
//! bytes) more than the row above. Only the byte pattern lives here; turning
//! it into a GPU image is the rendering collaborator's business.

use vstd::prelude::*;

verus! {

/// The 8 palette texels, 4 bytes each, that the rows rotate through.
pub open spec fn palette() -> Seq<u8> {
    seq![
        255u8, 102u8, 159u8, 255u8,
        255u8, 159u8, 102u8, 255u8,
        236u8, 255u8, 102u8, 255u8,
        121u8, 255u8, 102u8, 255u8,
        102u8, 255u8, 198u8, 255u8,
        102u8, 198u8, 255u8, 255u8,
        121u8, 102u8, 255u8, 255u8,
        236u8, 102u8, 255u8, 255u8,
    ]
}

/// Byte `i` of texture row `y`: the palette rotated right by `4 * y` bytes.
pub open spec fn texel_byte(y: int, i: int) -> u8
    recommends
        0 <= y < 8,
        0 <= i < 32,
{
    if i >= 4 * y {
        palette()[i - 4 * y]
    } else {
        palette()[i - 4 * y + 32]
    }
}

/// The palette as bytes.
fn palette_bytes() -> (p: Vec<u8>)
    ensures
        p@ == palette(),
{
    let mut p: Vec<u8> = Vec::new();
    p.push(255);
    p.push(102);
    p.push(159);
    p.push(255);
    p.push(255);
    p.push(159);
    p.push(102);
    p.push(255);
    p.push(236);
    p.push(255);
    p.push(102);
    p.push(255);
    p.push(121);
    p.push(255);
    p.push(102);
    p.push(255);
    p.push(102);
    p.push(255);
    p.push(198);
    p.push(255);
    p.push(102);
    p.push(198);
    p.push(255);
    p.push(255);
    p.push(121);
    p.push(102);
    p.push(255);
    p.push(255);
    p.push(236);
    p.push(102);
    p.push(255);
    p.push(255);
    proof {
        assert(p@ =~= palette());
    }
    p
}

/// The raw bytes of the 8 by 8 RGBA debug texture, row-major: 256 bytes, row
/// `y` holding the palette rotated right by `y` texels.
pub fn uv_debug_texture_data() -> (data: Vec<u8>)
    ensures
        data@.len() == 256,
        forall|k: int| 0 <= k < 256 ==> data@[k] == texel_byte(k / 32, k % 32),
{
    let palette = palette_bytes();
    let mut data: Vec<u8> = Vec::new();
    let mut k: usize = 0;
    while k < 256
        invariant
            k <= 256,
            palette@ == crate::texture::palette(),
            data@.len() == k,
            forall|j: int| 0 <= j < k ==> data@[j] == texel_byte(j / 32, j % 32),
        decreases 256 - k,
    {
        let y = k / 32;
        let i = k % 32;
        let src = if i >= 4 * y {
            i - 4 * y
        } else {
            i + 32 - 4 * y
        };
        data.push(palette[src]);
        k += 1;
    }
    data
}

} // verus!
