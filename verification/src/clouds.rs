use vstd::prelude::*;
use vstd::wrapping::u32_specs::wrapping_mul;

verus! {

/// Texture sizes of the cloud noise assets.
#[derive(Clone, Copy, Debug)]
pub struct CloudNoiseSizes {
    pub base_noise_size: u32,
    pub detail_noise_size: u32,
    pub weather_map_size: u32,
    pub blue_noise_size: u32,
}

impl Default for CloudNoiseSizes {
    fn default() -> (s: Self)
        ensures
            s.base_noise_size == 128,
            s.detail_noise_size == 32,
            s.weather_map_size == 256,
            s.blue_noise_size == 128,
    {
        CloudNoiseSizes { base_noise_size: 128, detail_noise_size: 32, weather_map_size: 256, blue_noise_size: 128 }
    }
}

/// Which byte of a weather-map texel holds which quantity.
#[derive(Clone, Copy, Debug)]
pub struct CloudWeatherChannelLayout {
    pub coverage: u8,
    pub cloud_type: u8,
    pub thickness: u8,
    pub reserved: u8,
}

impl Default for CloudWeatherChannelLayout {
    fn default() -> (l: Self)
        ensures
            l.coverage == 0,
            l.cloud_type == 1,
            l.thickness == 2,
            l.reserved == 3,
    {
        CloudWeatherChannelLayout { coverage: 0, cloud_type: 1, thickness: 2, reserved: 3 }
    }
}

/// The integer lattice hash behind the cloud noise textures.
pub open spec fn spec_hash_noise(x: u32, y: u32, z: u32, seed: u32) -> u32 {
    let v = wrapping_mul(x, 374761393u32) ^ wrapping_mul(y, 668265263u32) ^ wrapping_mul(z, 2246822519u32)
        ^ wrapping_mul(seed, 3266489917u32);
    let w = wrapping_mul(v ^ (v >> 13u32), 1274126177u32);
    w ^ (w >> 16u32)
}

pub fn hash_noise(x: u32, y: u32, z: u32, seed: u32) -> (h: u32)
    ensures
        h == spec_hash_noise(x, y, z, seed),
{
    let mut v = x.wrapping_mul(374761393) ^ y.wrapping_mul(668265263) ^ z.wrapping_mul(2246822519)
        ^ seed.wrapping_mul(3266489917);
    v = (v ^ (v >> 13u32)).wrapping_mul(1274126177);
    v ^ (v >> 16u32)
}

/// The low byte of a `u32`.
pub open spec fn low_byte(v: u32) -> u8 {
    (v % 256) as u8
}

fn to_byte(v: u32) -> (b: u8)
    ensures
        b == low_byte(v),
{
    (v % 256) as u8
}

/// Byte `c` of texel `i` of a noise atlas: `dims[2]` layers of
/// `dims[0] x dims[1]` texels laid side by side, so a row is
/// `dims[0] * dims[2]` texels wide. The texel at column `z * dims[0] + x` of
/// row `y` holds the hash of `(x, y, z)` under `seed ^ (layer_seed * z)` in
/// its colour bytes and 255 in its alpha byte.
pub open spec fn atlas_byte(dims: [u32; 3], seed: u32, layer_seed: u32, i: int, c: int) -> u8 {
    let width = dims[0] as int * dims[2] as int;
    let y = i / width;
    let column = i % width;
    let z = column / dims[0] as int;
    let x = column % dims[0] as int;
    if c == 3 {
        255u8
    } else {
        low_byte(spec_hash_noise(x as u32, y as u32, z as u32, seed ^ wrapping_mul(layer_seed, z as u32)))
    }
}

/// The position in a noise atlas of texel `(x, y, z)`: row `y`, column
/// `z * dims[0] + x` of rows `dims[0] * dims[2]` texels wide.
pub open spec fn atlas_texel_index(dims: [u32; 3], x: int, y: int, z: int) -> int {
    y * (dims[0] as int * dims[2] as int) + z * dims[0] as int + x
}

/// The texel of a noise atlas at `(x, y, z)` holds, in each colour byte,
/// the low byte of the hash of its own coordinates `(x, y, z)` under the
/// seed `seed ^ (layer_seed * z)` of its layer, and 255 in its alpha byte.
pub proof fn lemma_atlas_texel(dims: [u32; 3], seed: u32, layer_seed: u32, x: int, y: int, z: int, c: int)
    requires
        0 <= x < dims[0],
        0 <= y < dims[1],
        0 <= z < dims[2],
        0 <= c < 4,
    ensures
        atlas_byte(dims, seed, layer_seed, atlas_texel_index(dims, x, y, z), c) == if c == 3 {
            255u8
        } else {
            low_byte(spec_hash_noise(x as u32, y as u32, z as u32, seed ^ wrapping_mul(layer_seed, z as u32)))
        },
{
    let d0 = dims[0] as int;
    let w = d0 * dims[2] as int;
    let column = z * d0 + x;
    assert(z * d0 <= (dims[2] as int - 1) * d0) by (nonlinear_arith)
        requires
            z <= dims[2] as int - 1,
            d0 >= 0,
    ;
    assert((dims[2] as int - 1) * d0 == w - d0) by (nonlinear_arith)
        requires
            w == d0 * dims[2] as int,
    ;
    assert(column >= 0) by (nonlinear_arith)
        requires
            column == z * d0 + x,
            z >= 0,
            x >= 0,
            d0 >= 0,
    ;
    vstd::arithmetic::div_mod::lemma_fundamental_div_mod_converse(atlas_texel_index(dims, x, y, z), w, y, column);
    vstd::arithmetic::div_mod::lemma_fundamental_div_mod_converse(column, d0, z, x);
}

/// The RGBA8 pixels of a noise atlas with the given dimensions and seeds.
pub fn noise_atlas_data(dims: [u32; 3], seed: u32, layer_seed: u32) -> (data: Vec<u8>)
    requires
        dims[0] as int * dims[2] as int * dims[1] as int * 4 <= u32::MAX,
    ensures
        data@.len() == 4 * (dims[0] as int * dims[2] as int * dims[1] as int),
        forall|i: int, c: int| 0 <= i < dims[0] as int * dims[2] as int * dims[1] as int && 0 <= c < 4
            ==> #[trigger] data@[4 * i + c] == atlas_byte(dims, seed, layer_seed, i, c),
        forall|x: int, y: int, z: int, c: int| 0 <= x < dims[0] && 0 <= y < dims[1] && 0 <= z < dims[2] && 0 <= c < 4
            ==> #[trigger] data@[4 * atlas_texel_index(dims, x, y, z) + c] == if c == 3 {
                255u8
            } else {
                low_byte(spec_hash_noise(x as u32, y as u32, z as u32, seed ^ wrapping_mul(layer_seed, z as u32)))
            },
{
    proof {
        assert(dims[0] as int * dims[2] as int <= dims[0] as int * dims[2] as int * dims[1] as int || dims[1] == 0) by (nonlinear_arith);
        assert(dims[0] as int * dims[2] as int * dims[1] as int >= 0) by (nonlinear_arith);
        assert(dims[0] as int * dims[2] as int >= 0) by (nonlinear_arith);
    }
    let width: u32 = if dims[1] == 0 { 0 } else { dims[0] * dims[2] };
    let ghost full_width = dims[0] as int * dims[2] as int;
    let texels: u32 = if dims[1] == 0 { 0 } else { width * dims[1] };
    proof {
        assert(texels as int == full_width * dims[1] as int) by (nonlinear_arith)
            requires texels as int == (if dims[1] == 0 { 0int } else { width as int * dims[1] as int }),
                dims[1] == 0 || width as int == full_width;
        assert(texels as int * 4 <= u32::MAX);
    }
    let mut data: Vec<u8> = Vec::new();
    let mut i: u32 = 0;
    while i < texels
        invariant
            texels as int == full_width * dims[1] as int,
            full_width == dims[0] as int * dims[2] as int,
            texels > 0 ==> width as int == full_width,
            i <= texels,
            data@.len() == 4 * i,
            forall|j: int, c: int| 0 <= j < i && 0 <= c < 4 ==> #[trigger] data@[4 * j + c] == atlas_byte(dims, seed, layer_seed, j, c),
        decreases texels - i,
    {
        proof {
            assert(width > 0) by (nonlinear_arith)
                requires texels as int == full_width * dims[1] as int, texels > 0, width as int == full_width;
            assert(dims[0] > 0) by (nonlinear_arith)
                requires width as int == dims[0] as int * dims[2] as int, width > 0;
        }
        let y = i / width;
        let column = i % width;
        let z = column / dims[0];
        let x = column % dims[0];
        let value = to_byte(hash_noise(x, y, z, seed ^ layer_seed.wrapping_mul(z)));
        data.push(value);
        data.push(value);
        data.push(value);
        data.push(255u8);
        proof {
            let ii = i as int;
            assert forall|j: int, c: int| 0 <= j < ii + 1 && 0 <= c < 4 implies #[trigger] data@[4 * j + c] == atlas_byte(dims, seed, layer_seed, j, c) by {
                if j < ii {
                } else {
                    assert(j == ii);
                }
            }
        }
        i += 1;
    }
    proof {
        assert forall|x: int, y: int, z: int, c: int| 0 <= x < dims[0] && 0 <= y < dims[1] && 0 <= z < dims[2] && 0 <= c < 4
            implies #[trigger] data@[4 * atlas_texel_index(dims, x, y, z) + c] == if c == 3 {
                255u8
            } else {
                low_byte(spec_hash_noise(x as u32, y as u32, z as u32, seed ^ wrapping_mul(layer_seed, z as u32)))
            } by {
            lemma_atlas_texel(dims, seed, layer_seed, x, y, z, c);
            let i = atlas_texel_index(dims, x, y, z);
            assert(0 <= i < dims[0] as int * dims[2] as int * dims[1] as int) by (nonlinear_arith)
                requires
                    i == y * (dims[0] as int * dims[2] as int) + z * dims[0] as int + x,
                    0 <= x < dims[0] as int,
                    0 <= y < dims[1] as int,
                    0 <= z < dims[2] as int,
            ;
            assert(data@[4 * i + c] == atlas_byte(dims, seed, layer_seed, i, c));
        }
    }
    data
}

/// Byte `c` of texel `i` of the `size x size` blue-noise texture: two
/// hashes of the texel's position in red and green, 0 in blue, 255 in alpha.
pub open spec fn blue_noise_byte(size: u32, i: int, c: int) -> u8 {
    let y = i / size as int;
    let x = i % size as int;
    if c == 0 {
        low_byte(spec_hash_noise(x as u32, y as u32, 0, 0x1234567u32))
    } else if c == 1 {
        low_byte(spec_hash_noise(x as u32, y as u32, 1, 0x7654321u32))
    } else if c == 2 {
        0u8
    } else {
        255u8
    }
}

/// The texel of the blue-noise texture at column `x`, row `y` holds the
/// low bytes of the hashes of `(x, y, 0)` and `(x, y, 1)` under their two
/// fixed seeds in red and green, 0 in blue and 255 in alpha.
pub proof fn lemma_blue_noise_texel(size: u32, x: int, y: int, c: int)
    requires
        0 <= x < size,
        0 <= y < size,
        0 <= c < 4,
    ensures
        blue_noise_byte(size, y * size + x, c) == if c == 0 {
            low_byte(spec_hash_noise(x as u32, y as u32, 0, 0x1234567u32))
        } else if c == 1 {
            low_byte(spec_hash_noise(x as u32, y as u32, 1, 0x7654321u32))
        } else if c == 2 {
            0u8
        } else {
            255u8
        },
{
    vstd::arithmetic::div_mod::lemma_fundamental_div_mod_converse(y * size + x, size as int, y, x);
}

/// The RGBA8 pixels of the blue-noise texture.
pub fn blue_noise_data(size: u32) -> (data: Vec<u8>)
    requires
        size as int * size as int * 4 <= u32::MAX,
    ensures
        data@.len() == 4 * (size as int * size as int),
        forall|i: int, c: int| 0 <= i < size as int * size as int && 0 <= c < 4
            ==> #[trigger] data@[4 * i + c] == blue_noise_byte(size, i, c),
        forall|x: int, y: int, c: int| 0 <= x < size && 0 <= y < size && 0 <= c < 4
            ==> #[trigger] data@[4 * (y * size + x) + c] == if c == 0 {
                low_byte(spec_hash_noise(x as u32, y as u32, 0, 0x1234567u32))
            } else if c == 1 {
                low_byte(spec_hash_noise(x as u32, y as u32, 1, 0x7654321u32))
            } else if c == 2 {
                0u8
            } else {
                255u8
            },
{
    proof {
        assert(size as int * size as int >= 0) by (nonlinear_arith);
    }
    let texels: u32 = size * size;
    let mut data: Vec<u8> = Vec::new();
    let mut i: u32 = 0;
    while i < texels
        invariant
            texels as int == size as int * size as int,
            i <= texels,
            data@.len() == 4 * i,
            forall|j: int, c: int| 0 <= j < i && 0 <= c < 4 ==> #[trigger] data@[4 * j + c] == blue_noise_byte(size, j, c),
        decreases texels - i,
    {
        proof {
            assert(size > 0) by (nonlinear_arith)
                requires texels as int == size as int * size as int, texels > 0;
        }
        let y = i / size;
        let x = i % size;
        let v0 = to_byte(hash_noise(x, y, 0, 0x1234567));
        let v1 = to_byte(hash_noise(x, y, 1, 0x7654321));
        data.push(v0);
        data.push(v1);
        data.push(0u8);
        data.push(255u8);
        proof {
            let ii = i as int;
            assert forall|j: int, c: int| 0 <= j < ii + 1 && 0 <= c < 4 implies #[trigger] data@[4 * j + c] == blue_noise_byte(size, j, c) by {
                if j == ii {
                }
            }
        }
        i += 1;
    }
    proof {
        assert forall|x: int, y: int, c: int| 0 <= x < size && 0 <= y < size && 0 <= c < 4
            implies #[trigger] data@[4 * (y * size + x) + c] == if c == 0 {
                low_byte(spec_hash_noise(x as u32, y as u32, 0, 0x1234567u32))
            } else if c == 1 {
                low_byte(spec_hash_noise(x as u32, y as u32, 1, 0x7654321u32))
            } else if c == 2 {
                0u8
            } else {
                255u8
            } by {
            lemma_blue_noise_texel(size, x, y, c);
            assert(0 <= y * size + x < size as int * size as int) by (nonlinear_arith)
                requires
                    0 <= x < size as int,
                    0 <= y < size as int,
            ;
            assert(data@[4 * (y * size + x) + c] == blue_noise_byte(size, y * size + x, c));
        }
    }
    data
}

/// Byte `c` of a weather-map texel whose coverage, cloud-type and thickness
/// bytes are `ch`: each channel lands at the byte its layout names, written
/// in the order coverage, type, thickness, then 255 for the reserved one, so
/// a later channel wins a shared byte; a byte no channel names stays 0.
pub open spec fn weather_byte(layout: CloudWeatherChannelLayout, ch: [u8; 3], c: int) -> u8 {
    if c == layout.reserved {
        255u8
    } else if c == layout.thickness {
        ch[2]
    } else if c == layout.cloud_type {
        ch[1]
    } else if c == layout.coverage {
        ch[0]
    } else {
        0u8
    }
}

fn weather_texel_byte(layout: &CloudWeatherChannelLayout, ch: &[u8; 3], c: u8) -> (b: u8)
    ensures
        b == weather_byte(*layout, *ch, c as int),
{
    if c == layout.reserved {
        255u8
    } else if c == layout.thickness {
        ch[2]
    } else if c == layout.cloud_type {
        ch[1]
    } else if c == layout.coverage {
        ch[0]
    } else {
        0u8
    }
}

/// With the four channels of a layout at four different bytes, each
/// channel's byte holds that channel: coverage, cloud type and thickness
/// from the texel's channel bytes, 255 in the reserved byte.
pub proof fn lemma_weather_channels_placed(layout: CloudWeatherChannelLayout, ch: [u8; 3])
    requires
        layout.coverage != layout.cloud_type,
        layout.coverage != layout.thickness,
        layout.coverage != layout.reserved,
        layout.cloud_type != layout.thickness,
        layout.cloud_type != layout.reserved,
        layout.thickness != layout.reserved,
    ensures
        weather_byte(layout, ch, layout.coverage as int) == ch[0],
        weather_byte(layout, ch, layout.cloud_type as int) == ch[1],
        weather_byte(layout, ch, layout.thickness as int) == ch[2],
        weather_byte(layout, ch, layout.reserved as int) == 255,
        forall|c: int| c != layout.coverage && c != layout.cloud_type && c != layout.thickness && c != layout.reserved
            ==> #[trigger] weather_byte(layout, ch, c) == 0,
{
}

/// The RGBA8 pixels of the `size x size` weather map from the channel bytes
/// of each texel, row by row, placed by `layout`.
pub fn weather_map_data(size: u32, layout: CloudWeatherChannelLayout, channels: &Vec<[u8; 3]>) -> (data: Vec<u8>)
    requires
        size as int * size as int * 4 <= u32::MAX,
        channels@.len() == size as int * size as int,
        size > 0 ==> layout.coverage < 4 && layout.cloud_type < 4 && layout.thickness < 4 && layout.reserved < 4,
    ensures
        data@.len() == 4 * (size as int * size as int),
        forall|i: int, c: int| 0 <= i < size as int * size as int && 0 <= c < 4
            ==> #[trigger] data@[4 * i + c] == weather_byte(layout, channels@[i], c),
        ({
            let l = layout;
            l.coverage != l.cloud_type && l.coverage != l.thickness && l.coverage != l.reserved
                && l.cloud_type != l.thickness && l.cloud_type != l.reserved && l.thickness != l.reserved
            ==> forall|i: int| 0 <= i < size as int * size as int ==> {
                &&& #[trigger] data@[4 * i + l.coverage] == channels@[i][0]
                &&& data@[4 * i + l.cloud_type] == channels@[i][1]
                &&& data@[4 * i + l.thickness] == channels@[i][2]
                &&& data@[4 * i + l.reserved] == 255
            }
        }),
{
    let texels: usize = channels.len();
    let mut data: Vec<u8> = Vec::new();
    let mut i: usize = 0;
    while i < texels
        invariant
            texels == channels@.len(),
            i <= texels,
            data@.len() == 4 * i,
            forall|j: int, c: int| 0 <= j < i && 0 <= c < 4 ==> #[trigger] data@[4 * j + c] == weather_byte(layout, channels@[j], c),
        decreases texels - i,
    {
        let ch = &channels[i];
        data.push(weather_texel_byte(&layout, ch, 0));
        data.push(weather_texel_byte(&layout, ch, 1));
        data.push(weather_texel_byte(&layout, ch, 2));
        data.push(weather_texel_byte(&layout, ch, 3));
        proof {
            let ii = i as int;
            assert forall|j: int, c: int| 0 <= j < ii + 1 && 0 <= c < 4 implies #[trigger] data@[4 * j + c] == weather_byte(layout, channels@[j], c) by {
                if j == ii {
                }
            }
        }
        i += 1;
    }
    proof {
        let l = layout;
        if l.coverage != l.cloud_type && l.coverage != l.thickness && l.coverage != l.reserved
            && l.cloud_type != l.thickness && l.cloud_type != l.reserved && l.thickness != l.reserved {
            assert forall|i: int| 0 <= i < size as int * size as int implies {
                &&& #[trigger] data@[4 * i + l.coverage] == channels@[i][0]
                &&& data@[4 * i + l.cloud_type] == channels@[i][1]
                &&& data@[4 * i + l.thickness] == channels@[i][2]
                &&& data@[4 * i + l.reserved] == 255
            } by {
                lemma_weather_channels_placed(layout, channels@[i]);
                assert(data@[4 * i + l.coverage] == weather_byte(layout, channels@[i], l.coverage as int));
                assert(data@[4 * i + l.cloud_type] == weather_byte(layout, channels@[i], l.cloud_type as int));
                assert(data@[4 * i + l.thickness] == weather_byte(layout, channels@[i], l.thickness as int));
                assert(data@[4 * i + l.reserved] == weather_byte(layout, channels@[i], l.reserved as int));
            }
        }
    }
    data
}

/// `x` clamped to the `u32` range from above.
pub open spec fn saturate(x: int) -> int {
    if x > u32::MAX { u32::MAX as int } else { x }
}

/// The side of cloud shadow cascade `i`: its own resolution, or the base
/// shadow resolution (at least 1) when it has none.
pub open spec fn cascade_side(base: u32, resolutions: [u32; 4], i: int) -> int {
    if resolutions[i] == 0 { vstd::math::max(base as int, 1) } else { resolutions[i] as int }
}

/// Where cascade `i` starts in the shared shadow buffer: the texel counts of
/// the cascades before it, summed with saturation.
pub open spec fn cascade_offset(base: u32, resolutions: [u32; 4], i: nat) -> int
    decreases i,
{
    if i == 0 {
        0
    } else {
        let side = cascade_side(base, resolutions, i - 1);
        saturate(cascade_offset(base, resolutions, (i - 1) as nat) + saturate(side * side))
    }
}

/// The largest side among the base resolution (at least 1) and the first
/// `n` cascades.
pub open spec fn largest_side(base: u32, resolutions: [u32; 4], n: nat) -> int
    decreases n,
{
    if n == 0 {
        vstd::math::max(base as int, 1)
    } else {
        vstd::math::max(largest_side(base, resolutions, (n - 1) as nat), cascade_side(base, resolutions, n - 1))
    }
}

/// How many cloud shadow cascades are active: the count asked for, between 1 and 4.
pub open spec fn active_cascades(count: u32) -> int {
    vstd::math::min(vstd::math::max(count as int, 1), 4)
}

/// The texels of cascade `i`: its side squared.
pub open spec fn cascade_texels(base: u32, resolutions: [u32; 4], i: int) -> int {
    cascade_side(base, resolutions, i) * cascade_side(base, resolutions, i)
}

/// Each cascade starts where the texels of all the cascades before it end,
/// clamped to the `u32` range: the first at 0, the second after the first
/// cascade's texels, and so on.
pub proof fn lemma_cascade_offsets_sum(base: u32, resolutions: [u32; 4])
    ensures
        cascade_offset(base, resolutions, 0) == 0,
        cascade_offset(base, resolutions, 1) == vstd::math::min(cascade_texels(base, resolutions, 0), u32::MAX as int),
        cascade_offset(base, resolutions, 2) == vstd::math::min(
            cascade_texels(base, resolutions, 0) + cascade_texels(base, resolutions, 1),
            u32::MAX as int,
        ),
        cascade_offset(base, resolutions, 3) == vstd::math::min(
            cascade_texels(base, resolutions, 0) + cascade_texels(base, resolutions, 1) + cascade_texels(base, resolutions, 2),
            u32::MAX as int,
        ),
{
    let t0 = cascade_texels(base, resolutions, 0);
    let t1 = cascade_texels(base, resolutions, 1);
    let t2 = cascade_texels(base, resolutions, 2);
    assert(t0 >= 0 && t1 >= 0 && t2 >= 0) by (nonlinear_arith)
        requires
            t0 == cascade_side(base, resolutions, 0) * cascade_side(base, resolutions, 0),
            t1 == cascade_side(base, resolutions, 1) * cascade_side(base, resolutions, 1),
            t2 == cascade_side(base, resolutions, 2) * cascade_side(base, resolutions, 2),
    ;
    reveal_with_fuel(cascade_offset, 4);
    assert(cascade_offset(base, resolutions, 0) == 0);
    assert(cascade_offset(base, resolutions, 1) == saturate(0 + saturate(t0)));
    assert(cascade_offset(base, resolutions, 2) == saturate(cascade_offset(base, resolutions, 1) + saturate(t1)));
    assert(cascade_offset(base, resolutions, 3) == saturate(cascade_offset(base, resolutions, 2) + saturate(t2)));
}

/// The largest side over the first `n` cascades is at least the base
/// resolution (at least 1) and each of their sides, and is one of them.
pub proof fn lemma_largest_side_is_max(base: u32, resolutions: [u32; 4], n: nat)
    requires
        n <= 4,
    ensures
        largest_side(base, resolutions, n) >= vstd::math::max(base as int, 1),
        forall|j: int| 0 <= j < n ==> largest_side(base, resolutions, n) >= #[trigger] cascade_side(base, resolutions, j),
        largest_side(base, resolutions, n) == vstd::math::max(base as int, 1)
            || exists|j: int| 0 <= j < n && largest_side(base, resolutions, n) == #[trigger] cascade_side(base, resolutions, j),
    decreases n,
{
    if n > 0 {
        lemma_largest_side_is_max(base, resolutions, (n - 1) as nat);
        if largest_side(base, resolutions, n) != vstd::math::max(base as int, 1)
            && largest_side(base, resolutions, n) != cascade_side(base, resolutions, n - 1) {
            let j = choose|j: int| 0 <= j < n - 1 && largest_side(base, resolutions, (n - 1) as nat) == #[trigger] cascade_side(base, resolutions, j);
            assert(largest_side(base, resolutions, n) == cascade_side(base, resolutions, j));
        }
    }
}

/// The layout of the cloud shadow cascades in their shared buffer: each
/// active cascade's offset (0 for the inactive ones) and the largest side.
pub fn cloud_shadow_layout(cascade_count: u32, base_resolution: u32, resolutions: [u32; 4]) -> (layout: ([u32; 4], u32))
    ensures
        forall|i: int| 0 <= i < active_cascades(cascade_count) ==> layout.0[i] as int == cascade_offset(base_resolution, resolutions, i as nat),
        forall|i: int| active_cascades(cascade_count) <= i < 4 ==> layout.0[i] == 0,
        layout.1 as int == largest_side(base_resolution, resolutions, active_cascades(cascade_count) as nat),
        layout.0[0] == 0,
        active_cascades(cascade_count) > 1 ==> layout.0[1] as int == vstd::math::min(
            cascade_texels(base_resolution, resolutions, 0),
            u32::MAX as int,
        ),
        active_cascades(cascade_count) > 2 ==> layout.0[2] as int == vstd::math::min(
            cascade_texels(base_resolution, resolutions, 0) + cascade_texels(base_resolution, resolutions, 1),
            u32::MAX as int,
        ),
        active_cascades(cascade_count) > 3 ==> layout.0[3] as int == vstd::math::min(
            cascade_texels(base_resolution, resolutions, 0) + cascade_texels(base_resolution, resolutions, 1)
                + cascade_texels(base_resolution, resolutions, 2),
            u32::MAX as int,
        ),
        layout.1 as int >= vstd::math::max(base_resolution as int, 1),
        forall|j: int| 0 <= j < active_cascades(cascade_count) ==> layout.1 as int >= #[trigger] cascade_side(
            base_resolution,
            resolutions,
            j,
        ),
{
    proof {
        lemma_cascade_offsets_sum(base_resolution, resolutions);
        lemma_largest_side_is_max(base_resolution, resolutions, active_cascades(cascade_count) as nat);
    }
    let count: u32 = if cascade_count > 1 { cascade_count } else { 1 };
    let active: u32 = if count < 4 { count } else { 4 };
    let base: u32 = if base_resolution > 1 { base_resolution } else { 1 };
    let mut offsets: [u32; 4] = [0u32; 4];
    let mut largest: u32 = base;
    let mut running: u32 = 0;
    let mut i: u32 = 0;
    while i < active
        invariant
            active as int == active_cascades(cascade_count),
            base as int == vstd::math::max(base_resolution as int, 1),
            i <= active,
            running as int == cascade_offset(base_resolution, resolutions, i as nat),
            largest as int == largest_side(base_resolution, resolutions, i as nat),
            forall|j: int| 0 <= j < i ==> offsets[j] as int == cascade_offset(base_resolution, resolutions, j as nat),
            forall|j: int| i <= j < 4 ==> offsets[j] == 0,
        decreases active - i,
    {
        let own = resolutions[i as usize];
        let side: u32 = if own == 0 { base } else { own };
        proof {
            assert((side as int) * (side as int) <= 0xFFFF_FFFF * 0xFFFF_FFFF) by (nonlinear_arith)
                requires
                    side <= 0xFFFF_FFFFu32,
            ;
        }
        let wide: u64 = (side as u64) * (side as u64);
        let texels: u32 = if wide > 0xFFFF_FFFFu64 { u32::MAX } else { wide as u32 };
        offsets[i as usize] = running;
        running = running.saturating_add(texels);
        if side > largest {
            largest = side;
        }
        i += 1;
    }
    (offsets, largest)
}

/// How far below the screen resolution the clouds are traced.
#[derive(Clone, Copy, Debug, PartialEq, Eq, Structural)]
pub enum CloudResolutionScale {
    Half,
    Quarter,
}

impl Default for CloudResolutionScale {
    fn default() -> (s: Self)
        ensures
            s == CloudResolutionScale::Half,
    {
        CloudResolutionScale::Half
    }
}

/// The cloud render target size for a viewport of `width x height` pixels:
/// each side divided by 2 or 4, never below 1.
pub fn calc_low_res(width: u32, height: u32, scale: CloudResolutionScale) -> (r: [u32; 2])
    ensures
        ({
            let d: int = if scale == CloudResolutionScale::Half { 2 } else { 4 };
            &&& r[0] as int == vstd::math::max(vstd::math::max(width as int, 1) / d, 1)
            &&& r[1] as int == vstd::math::max(vstd::math::max(height as int, 1) / d, 1)
            &&& r[0] >= 1 && r[1] >= 1
            &&& width >= d ==> r[0] * d <= width < (r[0] + 1) * d
            &&& height >= d ==> r[1] * d <= height < (r[1] + 1) * d
            &&& width < d ==> r[0] == 1
            &&& height < d ==> r[1] == 1
        }),
{
    let divisor: u32 = match scale {
        CloudResolutionScale::Half => 2,
        CloudResolutionScale::Quarter => 4,
    };
    let w: u32 = if width == 0 { 1 } else { width };
    let h: u32 = if height == 0 { 1 } else { height };
    let mut rw = w / divisor;
    if rw == 0 {
        rw = 1;
    }
    let mut rh = h / divisor;
    if rh == 0 {
        rh = 1;
    }
    [rw, rh]
}

} // verus!
