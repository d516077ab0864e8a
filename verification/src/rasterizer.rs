//! The lossless province ID raster: one province id per pixel (0 is ocean)
//! with its RGBA texture, the on-disk cache format, painting of scanline
//! spans and hit testing.

use vstd::prelude::*;
use vstd::arithmetic::div_mod::{lemma_fundamental_div_mod_converse_div, lemma_fundamental_div_mod_converse_mod};
use vstd::arithmetic::mul::{lemma_mul_inequality, lemma_mul_is_distributive_add_other_way};

verus! {

/// Width of the ID raster in pixels.
pub const MAP_WIDTH: usize = 9600;

/// Height of the ID raster in pixels.
pub const MAP_HEIGHT: usize = 5440;

/// A cache file whose map has no more land pixels than this is rebuilt.
pub const MIN_CACHED_LAND_PIXELS: usize = 1000000;

/// The raster: `id_buffer` holds, row by row, the 1-based province id of
/// each pixel (0 for ocean), and `rgba_texture_data` the same ids as RGBA
/// texels for the GPU.
pub struct RasterizedMap {
    pub width: usize,
    pub height: usize,
    pub id_buffer: Vec<u32>,
    pub rgba_texture_data: Vec<u8>,
}

/// The index of pixel `(x, y)` in a raster `w` pixels wide.
pub open spec fn pixel_index(w: int, x: int, y: int) -> int {
    y * w + x
}

/// The texel of a province id: its low three bytes as red, green and blue
/// (most significant first), opaque for land and transparent for ocean.
pub open spec fn texel_byte(id: u32, channel: int) -> u8 {
    if channel == 0 {
        ((id as int / 65536) % 256) as u8
    } else if channel == 1 {
        ((id as int / 256) % 256) as u8
    } else if channel == 2 {
        (id as int % 256) as u8
    } else if id > 0 {
        255u8
    } else {
        0u8
    }
}

/// The texture holds, for every pixel, the texel of its id.
pub open spec fn texture_matches(rgba: Seq<u8>, ids: Seq<u32>) -> bool {
    &&& rgba.len() == 4 * ids.len()
    &&& forall|i: int, c: int| 0 <= i < ids.len() && 0 <= c < 4 ==> #[trigger] rgba[4 * i + c] == texel_byte(ids[i], c)
}

impl RasterizedMap {
    /// The buffers have one entry (four texture bytes) per pixel and the
    /// texture encodes the ids.
    pub open spec fn wf(&self) -> bool {
        &&& self.id_buffer@.len() == self.width * self.height
        &&& texture_matches(self.rgba_texture_data@, self.id_buffer@)
    }
}

fn texel(id: u32) -> (t: [u8; 4])
    ensures
        forall|c: int| 0 <= c < 4 ==> #[trigger] t[c] == texel_byte(id, c),
{
    let r = ((id >> 16) & 0xFF) as u8;
    let g = ((id >> 8) & 0xFF) as u8;
    let b = (id & 0xFF) as u8;
    assert((id >> 16) & 0xFF == (id / 65536) % 256) by (bit_vector);
    assert((id >> 8) & 0xFF == (id / 256) % 256) by (bit_vector);
    assert(id & 0xFF == id % 256) by (bit_vector);
    let a: u8 = if id > 0 { 255 } else { 0 };
    [r, g, b, a]
}

impl RasterizedMap {
    /// The raster of the given ids, `width` by `height`, with its texture.
    pub fn from_ids(width: usize, height: usize, id_buffer: Vec<u32>) -> (m: Self)
        requires
            id_buffer@.len() == width * height,
            4 * id_buffer@.len() <= usize::MAX,
        ensures
            m.wf(),
            m.width == width,
            m.height == height,
            m.id_buffer@ == id_buffer@,
    {
        let n = id_buffer.len();
        let mut rgba_texture_data: Vec<u8> = Vec::new();
        let mut i: usize = 0;
        while i < n
            invariant
                i <= n,
                n == id_buffer@.len(),
                4 * n <= usize::MAX,
                rgba_texture_data@.len() == 4 * i,
                forall|j: int, c: int| 0 <= j < i && 0 <= c < 4 ==> #[trigger] rgba_texture_data@[4 * j + c] == texel_byte(id_buffer@[j], c),
            decreases n - i,
        {
            let t = texel(id_buffer[i]);
            let ghost before = rgba_texture_data@;
            rgba_texture_data.push(t[0]);
            rgba_texture_data.push(t[1]);
            rgba_texture_data.push(t[2]);
            rgba_texture_data.push(t[3]);
            assert forall|j: int, c: int| 0 <= j < i + 1 && 0 <= c < 4 implies #[trigger] rgba_texture_data@[4 * j + c] == texel_byte(id_buffer@[j], c) by {
                if j < i {
                    assert(rgba_texture_data@[4 * j + c] == before[4 * j + c]);
                } else {
                    assert(t[c] == texel_byte(id_buffer@[j], c));
                }
            }
            i = i + 1;
        }
        RasterizedMap { width, height, id_buffer, rgba_texture_data }
    }

    /// An all-ocean raster, `width` by `height`.
    pub fn blank(width: usize, height: usize) -> (m: Self)
        requires
            4 * (width * height) <= usize::MAX,
        ensures
            m.wf(),
            m.width == width,
            m.height == height,
            forall|i: int| 0 <= i < m.id_buffer@.len() ==> #[trigger] m.id_buffer@[i] == 0,
    {
        proof {
            vstd::arithmetic::mul::lemma_mul_nonnegative(width as int, height as int);
        }
        let n = width * height;
        let mut ids: Vec<u32> = Vec::new();
        let mut i: usize = 0;
        while i < n
            invariant
                i <= n,
                ids@.len() == i,
                forall|j: int| 0 <= j < i ==> #[trigger] ids@[j] == 0,
            decreases n - i,
        {
            ids.push(0);
            i = i + 1;
        }
        Self::from_ids(width, height, ids)
    }
}

} // verus!

verus! {

/// Span `s = (row, first column, last column)` covers pixel `(x, y)` of a
/// raster `w` by `h`: the row is on the raster and the column lies in the
/// span (columns past the right edge are cut off).
pub open spec fn span_covers(s: (usize, usize, usize), w: int, h: int, x: int, y: int) -> bool {
    s.0 < h && s.0 == y && s.1 <= x && x <= s.2 && x < w
}

/// Some span of `spans` covers pixel `(x, y)`.
pub open spec fn covered(spans: Seq<(usize, usize, usize)>, w: int, h: int, x: int, y: int) -> bool {
    exists|k: int| 0 <= k < spans.len() && span_covers(#[trigger] spans[k], w, h, x, y)
}

proof fn lemma_pixel_index(w: int, h: int, x: int, y: int)
    requires
        0 <= x < w,
        0 <= y < h,
    ensures
        0 <= pixel_index(w, x, y) < w * h,
        pixel_index(w, x, y) / w == y,
        pixel_index(w, x, y) % w == x,
{
    lemma_mul_inequality(y + 1, h, w);
    lemma_mul_is_distributive_add_other_way(w, y, 1);
    vstd::arithmetic::mul::lemma_mul_is_commutative(h, w);
    vstd::arithmetic::mul::lemma_mul_nonnegative(y, w);
    lemma_fundamental_div_mod_converse_div(pixel_index(w, x, y), w, y, x);
    lemma_fundamental_div_mod_converse_mod(pixel_index(w, x, y), w, y, x);
}

proof fn lemma_pixel_index_injective(w: int, h: int, x1: int, y1: int, x2: int, y2: int)
    requires
        0 <= x1 < w,
        0 <= y1 < h,
        0 <= x2 < w,
        0 <= y2 < h,
        pixel_index(w, x1, y1) == pixel_index(w, x2, y2),
    ensures
        x1 == x2 && y1 == y2,
{
    lemma_pixel_index(w, h, x1, y1);
    lemma_pixel_index(w, h, x2, y2);
}

impl RasterizedMap {
    /// Paints province id `id` into every pixel covered by `spans` (rows
    /// below the raster and columns past its right edge are skipped) and
    /// keeps the texture in step.
    pub fn paint_spans(&mut self, id: u32, spans: &Vec<(usize, usize, usize)>)
        requires
            old(self).wf(),
            old(self).width > 0,
            id > 0,
        ensures
            final(self).wf(),
            final(self).width == old(self).width,
            final(self).height == old(self).height,
            forall|x: int, y: int| 0 <= x < old(self).width && 0 <= y < old(self).height ==>
                #[trigger] final(self).id_buffer@[pixel_index(old(self).width as int, x, y)] == if covered(spans@, old(self).width as int, old(self).height as int, x, y) {
                    id
                } else {
                    old(self).id_buffer@[pixel_index(old(self).width as int, x, y)]
                },
    {
        let w = self.width;
        let h = self.height;
        let ghost start = self.id_buffer@;
        let mut k: usize = 0;
        while k < spans.len()
            invariant
                k <= spans@.len(),
                self.wf(),
                self.width == w,
                self.height == h,
                w > 0,
                id > 0,
                start.len() == w * h,
                forall|x: int, y: int| 0 <= x < w && 0 <= y < h ==>
                    #[trigger] self.id_buffer@[pixel_index(w as int, x, y)] == if covered(spans@.take(k as int), w as int, h as int, x, y) {
                        id
                    } else {
                        start[pixel_index(w as int, x, y)]
                    },
            decreases spans@.len() - k,
        {
            let (y0, x_start, x_end) = spans[k];
            let ghost done = spans@.take(k as int);
            let ghost next = spans@.take(k + 1);
            assert(next =~= done.push(spans@[k as int]));
            assert forall|x: int, y: int| 0 <= x < w && 0 <= y < h implies covered(next, w as int, h as int, x, y) == (covered(done, w as int, h as int, x, y) || span_covers(spans@[k as int], w as int, h as int, x, y)) by {
                if covered(next, w as int, h as int, x, y) {
                    let kk = choose|kk: int| 0 <= kk < next.len() && span_covers(#[trigger] next[kk], w as int, h as int, x, y);
                    if kk < k {
                        assert(done[kk] == next[kk]);
                    }
                }
                if covered(done, w as int, h as int, x, y) {
                    let kk = choose|kk: int| 0 <= kk < done.len() && span_covers(#[trigger] done[kk], w as int, h as int, x, y);
                    assert(next[kk] == done[kk]);
                }
                if span_covers(spans@[k as int], w as int, h as int, x, y) {
                    assert(next[k as int] == spans@[k as int]);
                }
            }
            let x_last = if x_end < w - 1 { x_end } else { w - 1 };
            if y0 < h && x_start <= x_last {
                let mut x = x_start;
                while x <= x_last
                    invariant
                        self.wf(),
                        self.width == w,
                        self.height == h,
                        w > 0,
                        id > 0,
                        y0 < h,
                        x_last < w,
                        x_last == (if x_end < w - 1 { x_end } else { (w - 1) as usize }),
                        x_start <= x <= x_last + 1,
                        start.len() == w * h,
                        forall|xx: int, yy: int| 0 <= xx < w && 0 <= yy < h ==>
                            #[trigger] self.id_buffer@[pixel_index(w as int, xx, yy)] == if covered(done, w as int, h as int, xx, yy) || (yy == y0 && x_start <= xx < x) {
                                id
                            } else {
                                start[pixel_index(w as int, xx, yy)]
                            },
                    decreases x_last + 1 - x,
                {
                    proof {
                        lemma_pixel_index(w as int, h as int, x as int, y0 as int);
                    }
                    let n = self.id_buffer.len();
                    assert(y0 * w + x < n);
                    let idx = y0 * w + x;
                    let tex_len = self.rgba_texture_data.len();
                    assert(4 * idx + 3 < tex_len);
                    let t = texel(id);
                    let ghost ids_before = self.id_buffer@;
                    let ghost tex_before = self.rgba_texture_data@;
                    self.id_buffer.set(idx, id);
                    self.rgba_texture_data.set(4 * idx, t[0]);
                    self.rgba_texture_data.set(4 * idx + 1, t[1]);
                    self.rgba_texture_data.set(4 * idx + 2, t[2]);
                    self.rgba_texture_data.set(4 * idx + 3, t[3]);
                    proof {
                        assert forall|i: int, c: int| 0 <= i < self.id_buffer@.len() && 0 <= c < 4 implies #[trigger] self.rgba_texture_data@[4 * i + c] == texel_byte(self.id_buffer@[i], c) by {
                            if i != idx {
                                assert(self.rgba_texture_data@[4 * i + c] == tex_before[4 * i + c]);
                            } else {
                                assert(t[c] == texel_byte(id, c));
                            }
                        }
                        assert forall|xx: int, yy: int| 0 <= xx < w && 0 <= yy < h implies
                            #[trigger] self.id_buffer@[pixel_index(w as int, xx, yy)] == if covered(done, w as int, h as int, xx, yy) || (yy == y0 && x_start <= xx < x + 1) {
                                id
                            } else {
                                start[pixel_index(w as int, xx, yy)]
                            } by {
                            lemma_pixel_index(w as int, h as int, xx, yy);
                            if pixel_index(w as int, xx, yy) == idx {
                                lemma_pixel_index_injective(w as int, h as int, xx, yy, x as int, y0 as int);
                            } else {
                                assert(self.id_buffer@[pixel_index(w as int, xx, yy)] == ids_before[pixel_index(w as int, xx, yy)]);
                            }
                        }
                    }
                    x = x + 1;
                }
                assert forall|xx: int, yy: int| 0 <= xx < w && 0 <= yy < h implies
                    (yy == y0 && x_start <= xx < x) == span_covers(spans@[k as int], w as int, h as int, xx, yy) by {}
            } else {
                assert forall|xx: int, yy: int| 0 <= xx < w && 0 <= yy < h implies
                    !span_covers(spans@[k as int], w as int, h as int, xx, yy) by {}
            }
            k = k + 1;
        }
        assert(spans@.take(k as int) =~= spans@);
    }
}

} // verus!

verus! {

impl RasterizedMap {
    /// The province under pixel `(px, py)`: `None` off the raster or on the
    /// ocean, else the 0-based province index, if it is below `province_count`.
    pub fn province_at_pixel(&self, px: i64, py: i64, province_count: usize) -> (r: Option<usize>)
        requires
            self.wf(),
        ensures
            match r {
                Some(p) => {
                    &&& 0 <= px < self.width
                    &&& 0 <= py < self.height
                    &&& self.id_buffer@[pixel_index(self.width as int, px as int, py as int)] == p + 1
                    &&& p < province_count
                },
                None => {
                    ||| px < 0 || px >= self.width || py < 0 || py >= self.height
                    ||| ({
                        let id = self.id_buffer@[pixel_index(self.width as int, px as int, py as int)];
                        id == 0 || id - 1 >= province_count
                    })
                },
            },
    {
        if px < 0 || py < 0 {
            return None;
        }
        let x = px as u64;
        let y = py as u64;
        if x >= self.width as u64 || y >= self.height as u64 {
            return None;
        }
        let x = x as usize;
        let y = y as usize;
        proof {
            lemma_pixel_index(self.width as int, self.height as int, x as int, y as int);
        }
        let n = self.id_buffer.len();
        assert(y * self.width + x < n);
        let id = self.id_buffer[y * self.width + x];
        if id == 0 {
            None
        } else {
            let p = (id - 1) as usize;
            if p < province_count {
                Some(p)
            } else {
                None
            }
        }
    }
}

/// The little-endian `u32` stored in bytes `4i .. 4i + 4` of `b`.
pub open spec fn le_u32_at(b: Seq<u8>, i: int) -> int {
    b[4 * i] + 256 * b[4 * i + 1] + 65536 * b[4 * i + 2] + 16777216 * b[4 * i + 3]
}

/// Byte `c` of the little-endian encoding of `id`.
pub open spec fn le_byte(id: u32, c: int) -> u8 {
    if c == 0 {
        (id as int % 256) as u8
    } else if c == 1 {
        ((id as int / 256) % 256) as u8
    } else if c == 2 {
        ((id as int / 65536) % 256) as u8
    } else {
        (id as int / 16777216) as u8
    }
}

/// The number of land pixels (non-zero ids) of `ids`.
pub open spec fn land_count(ids: Seq<u32>) -> nat
    decreases ids.len(),
{
    if ids.len() == 0 {
        0
    } else {
        land_count(ids.drop_last()) + if ids.last() > 0 { 1nat } else { 0nat }
    }
}

proof fn lemma_land_count_bound(ids: Seq<u32>)
    ensures
        land_count(ids) <= ids.len(),
    decreases ids.len(),
{
    if ids.len() > 0 {
        lemma_land_count_bound(ids.drop_last());
    }
}

fn read_le_u32(bytes: &Vec<u8>, i: usize) -> (v: u32)
    requires
        4 * i + 3 < bytes@.len(),
    ensures
        v as int == le_u32_at(bytes@, i as int),
{
    let len = bytes.len();
    assert(4 * i + 3 < len);
    let b0 = bytes[4 * i];
    let b1 = bytes[4 * i + 1];
    let b2 = bytes[4 * i + 2];
    let b3 = bytes[4 * i + 3];
    let v = (b0 as u32) | ((b1 as u32) << 8) | ((b2 as u32) << 16) | ((b3 as u32) << 24);
    assert(v == b0 as int + 256 * b1 as int + 65536 * b2 as int + 16777216 * b3 as int) by (bit_vector)
        requires
            v == (b0 as u32) | ((b1 as u32) << 8) | ((b2 as u32) << 16) | ((b3 as u32) << 24),
    ;
    v
}

/// The province ids of a raster cache file, if it is one: exactly one
/// little-endian `u32` per pixel of the 9600 x 5440 raster, with more than
/// a million land pixels. Anything else is refused, and the raster is rebuilt.
pub fn decode_id_cache(bytes: &Vec<u8>) -> (r: Option<Vec<u32>>)
    ensures
        match r {
            Some(ids) => {
                &&& bytes@.len() == 4 * MAP_WIDTH * MAP_HEIGHT
                &&& ids@.len() == MAP_WIDTH * MAP_HEIGHT
                &&& forall|i: int| 0 <= i < ids@.len() ==> #[trigger] ids@[i] as int == le_u32_at(bytes@, i)
                &&& land_count(ids@) > MIN_CACHED_LAND_PIXELS
            },
            None => bytes@.len() != 4 * MAP_WIDTH * MAP_HEIGHT || ({
                let ids = Seq::new((MAP_WIDTH * MAP_HEIGHT) as nat, |i: int| le_u32_at(bytes@, i) as u32);
                land_count(ids) <= MIN_CACHED_LAND_PIXELS
            }),
        },
{
    let expected = MAP_WIDTH * MAP_HEIGHT * 4;
    if bytes.len() != expected {
        return None;
    }
    let n = MAP_WIDTH * MAP_HEIGHT;
    let ghost spec_ids = Seq::new(n as nat, |i: int| le_u32_at(bytes@, i) as u32);
    let mut ids: Vec<u32> = Vec::new();
    let mut land: usize = 0;
    let mut i: usize = 0;
    while i < n
        invariant
            i <= n,
            n == MAP_WIDTH * MAP_HEIGHT,
            bytes@.len() == 4 * n,
            ids@.len() == i,
            ids@ == spec_ids.take(i as int),
            spec_ids == Seq::new(n as nat, |i: int| le_u32_at(bytes@, i) as u32),
            land == land_count(ids@),
        decreases n - i,
    {
        let v = read_le_u32(bytes, i);
        let ghost before = ids@;
        proof {
            lemma_land_count_bound(before);
        }
        ids.push(v);
        assert(ids@.drop_last() =~= before);
        if v > 0 {
            land = land + 1;
        }
        assert(ids@ =~= spec_ids.take(i + 1));
        i = i + 1;
    }
    assert(ids@ =~= spec_ids);
    if land > MIN_CACHED_LAND_PIXELS {
        Some(ids)
    } else {
        None
    }
}

impl RasterizedMap {
    /// The cache file contents of the raster: each id as a little-endian `u32`, row by row.
    pub fn cache_bytes(&self) -> (bytes: Vec<u8>)
        requires
            4 * self.id_buffer@.len() <= usize::MAX,
        ensures
            bytes@.len() == 4 * self.id_buffer@.len(),
            forall|i: int, c: int| 0 <= i < self.id_buffer@.len() && 0 <= c < 4 ==> #[trigger] bytes@[4 * i + c] == le_byte(self.id_buffer@[i], c),
    {
        let n = self.id_buffer.len();
        let mut bytes: Vec<u8> = Vec::new();
        let mut i: usize = 0;
        while i < n
            invariant
                i <= n,
                n == self.id_buffer@.len(),
                4 * n <= usize::MAX,
                bytes@.len() == 4 * i,
                forall|j: int, c: int| 0 <= j < i && 0 <= c < 4 ==> #[trigger] bytes@[4 * j + c] == le_byte(self.id_buffer@[j], c),
            decreases n - i,
        {
            let id = self.id_buffer[i];
            let ghost before = bytes@;
            let b0 = (id & 0xFF) as u8;
            let b1 = ((id >> 8) & 0xFF) as u8;
            let b2 = ((id >> 16) & 0xFF) as u8;
            let b3 = ((id >> 24) & 0xFF) as u8;
            assert(id & 0xFF == id % 256) by (bit_vector);
            assert((id >> 8) & 0xFF == (id / 256) % 256) by (bit_vector);
            assert((id >> 16) & 0xFF == (id / 65536) % 256) by (bit_vector);
            assert((id >> 24) & 0xFF == id / 16777216) by (bit_vector);
            bytes.push(b0);
            bytes.push(b1);
            bytes.push(b2);
            bytes.push(b3);
            assert forall|j: int, c: int| 0 <= j < i + 1 && 0 <= c < 4 implies #[trigger] bytes@[4 * j + c] == le_byte(self.id_buffer@[j], c) by {
                if j < i {
                    assert(bytes@[4 * j + c] == before[4 * j + c]);
                }
            }
            i = i + 1;
        }
        bytes
    }
}

/// Reading back a cache written from ids gives the same ids: the
/// little-endian bytes of each id decode to it.
pub proof fn lemma_cache_roundtrip(ids: Seq<u32>, bytes: Seq<u8>, i: int)
    requires
        bytes.len() == 4 * ids.len(),
        forall|j: int, c: int| 0 <= j < ids.len() && 0 <= c < 4 ==> #[trigger] bytes[4 * j + c] == le_byte(ids[j], c),
        0 <= i < ids.len(),
    ensures
        le_u32_at(bytes, i) == ids[i] as int,
{
    let id = ids[i];
    assert(bytes[4 * i + 0] == le_byte(id, 0));
    assert(bytes[4 * i + 1] == le_byte(id, 1));
    assert(bytes[4 * i + 2] == le_byte(id, 2));
    assert(bytes[4 * i + 3] == le_byte(id, 3));
    assert(id as int == id as int % 256 + 256 * ((id as int / 256) % 256) + 65536 * ((id as int / 65536) % 256) + 16777216 * (id as int / 16777216)) by (nonlinear_arith)
        requires
            0 <= id <= 0xFFFF_FFFF,
    ;
}


/// The id pixel `(x, y)` ends with when the outlines `spans[0..n]` are
/// painted in order with ids 1, 2, ...: the number of the last outline that
/// covers it, 0 (ocean) when none does.
pub open spec fn last_cover(spans: Seq<Vec<(usize, usize, usize)>>, n: int, w: int, h: int, x: int, y: int) -> int
    decreases n,
{
    if n <= 0 {
        0
    } else if covered(spans[n - 1]@, w, h, x, y) {
        n
    } else {
        last_cover(spans, n - 1, w, h, x, y)
    }
}

impl RasterizedMap {
    /// The raster of the provinces whose outlines are `spans`, province `k`
    /// painted with id `k + 1` in order: each pixel carries the id of the
    /// last province whose outline covers it, 0 where none does.
    pub fn from_spans(width: usize, height: usize, spans: &Vec<Vec<(usize, usize, usize)>>) -> (m: Self)
        requires
            4 * (width * height) <= usize::MAX,
            width > 0,
            spans@.len() < u32::MAX,
        ensures
            m.wf(),
            m.width == width,
            m.height == height,
            forall|x: int, y: int| 0 <= x < width && 0 <= y < height ==>
                #[trigger] m.id_buffer@[pixel_index(width as int, x, y)] == last_cover(spans@, spans@.len() as int, width as int, height as int, x, y),
    {
        let mut m = RasterizedMap::blank(width, height);
        assert forall|x: int, y: int| 0 <= x < width && 0 <= y < height implies
            #[trigger] m.id_buffer@[pixel_index(width as int, x, y)] == last_cover(spans@, 0, width as int, height as int, x, y) by {
            lemma_pixel_index(width as int, height as int, x, y);
        }
        let mut k: usize = 0;
        while k < spans.len()
            invariant
                m.wf(),
                m.width == width,
                m.height == height,
                width > 0,
                k <= spans@.len(),
                spans@.len() < u32::MAX,
                forall|x: int, y: int| 0 <= x < width && 0 <= y < height ==>
                    #[trigger] m.id_buffer@[pixel_index(width as int, x, y)] == last_cover(spans@, k as int, width as int, height as int, x, y),
            decreases spans@.len() - k,
        {
            let id = (k + 1) as u32;
            m.paint_spans(id, &spans[k]);
            k = k + 1;
        }
        m
    }
}

/// The ids a raster cache file holds: one little-endian `u32` per pixel of
/// the map raster.
pub open spec fn cache_ids(bytes: Seq<u8>) -> Seq<u32> {
    Seq::new((MAP_WIDTH * MAP_HEIGHT) as nat, |i: int| le_u32_at(bytes, i) as u32)
}

impl RasterizedMap {
    /// The raster stored in a cache file, if the file is one (see
    /// `decode_id_cache`): exactly one id per pixel of the map raster, with
    /// more than a million land pixels.
    pub fn from_cache(bytes: &Vec<u8>) -> (r: Option<Self>)
        ensures
            match r {
                Some(m) => {
                    &&& m.wf()
                    &&& m.width == MAP_WIDTH
                    &&& m.height == MAP_HEIGHT
                    &&& bytes@.len() == 4 * MAP_WIDTH * MAP_HEIGHT
                    &&& m.id_buffer@ == cache_ids(bytes@)
                    &&& land_count(m.id_buffer@) > MIN_CACHED_LAND_PIXELS
                },
                None => bytes@.len() != 4 * MAP_WIDTH * MAP_HEIGHT || land_count(cache_ids(bytes@)) <= MIN_CACHED_LAND_PIXELS,
            },
    {
        match decode_id_cache(bytes) {
            Some(ids) => {
                assert(ids@ =~= cache_ids(bytes@));
                Some(RasterizedMap::from_ids(MAP_WIDTH, MAP_HEIGHT, ids))
            },
            None => {
                assert(Seq::new((MAP_WIDTH * MAP_HEIGHT) as nat, |i: int| le_u32_at(bytes@, i) as u32) =~= cache_ids(bytes@));
                None
            },
        }
    }
}

/// A raster's cache file reads back as the raster: the bytes `cache_bytes`
/// writes for a map-sized raster hold exactly its ids, so `from_cache`
/// returns the same ids when the raster has more than a million land pixels
/// and refuses the file otherwise.
pub proof fn lemma_cache_file_roundtrip(ids: Seq<u32>, bytes: Seq<u8>)
    requires
        ids.len() == MAP_WIDTH * MAP_HEIGHT,
        bytes.len() == 4 * ids.len(),
        forall|j: int, c: int| 0 <= j < ids.len() && 0 <= c < 4 ==> #[trigger] bytes[4 * j + c] == le_byte(ids[j], c),
    ensures
        bytes.len() == 4 * MAP_WIDTH * MAP_HEIGHT,
        cache_ids(bytes) == ids,
{
    assert forall|i: int| 0 <= i < ids.len() implies #[trigger] cache_ids(bytes)[i] == ids[i] by {
        lemma_cache_roundtrip(ids, bytes, i);
    }
    assert(cache_ids(bytes) =~= ids);
}

} // verus!
