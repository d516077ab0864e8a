//! The colour palette the map shader reads: one RGBA entry per province
//! id (id 0 is the ocean), coloured by the active map mode.

use vstd::prelude::*;
use crate::parser::is_wasteland_label;
use crate::text::{contains_seq, lowercase, str_contains, to_lowercase};
use crate::types::{MapMode, Province};

verus! {

/// The number of bytes of the palette texture (256 x 256 RGBA entries).
pub const PALETTE_LEN: usize = 262144;

/// The colour a province shows in a map mode: its faction colour (or the
/// default when unassigned) in political and terrain modes, dark for
/// wasteland and pale for settled land in wasteland mode, orange for
/// unassigned and slate for claimed land in independence mode, the default
/// everywhere in plain mode.
pub open spec fn palette_color(p: Province, mode: MapMode, default_color: [u8; 3]) -> [u8; 3] {
    match mode {
        MapMode::Political | MapMode::Terrain => if p.group_key@.len() == 0 {
            default_color
        } else {
            p.color
        },
        MapMode::Wastelands => if p.is_wasteland || is_wasteland_label(p.group_label@) {
            [35u8, 35u8, 35u8]
        } else {
            [180u8, 190u8, 200u8]
        },
        MapMode::Independent => if p.group_key@.len() == 0 {
            [255u8, 140u8, 0u8]
        } else {
            [75u8, 90u8, 105u8]
        },
        MapMode::Plain => default_color,
    }
}

/// The colours of the map modes: the terrain mode colours provinces as the
/// political mode does (the faction colour of an owned province, the
/// default colour of an unowned one); the independence mode shows unowned
/// land orange (`#ff8c00`) and owned land slate; the wasteland mode shows
/// wastelands (by flag, or by a label containing "wasteland" in any case)
/// dark and other land pale; the plain mode shows everything in the default colour.
pub proof fn lemma_map_mode_colors(p: Province, d: [u8; 3])
    ensures
        palette_color(p, MapMode::Terrain, d) == palette_color(p, MapMode::Political, d),
        p.group_key@.len() > 0 ==> palette_color(p, MapMode::Political, d) == p.color,
        p.group_key@.len() > 0 ==> palette_color(p, MapMode::Terrain, d) == p.color,
        p.group_key@.len() == 0 ==> palette_color(p, MapMode::Political, d) == d,
        p.group_key@.len() == 0 ==> palette_color(p, MapMode::Independent, d) == [255u8, 140u8, 0u8],
        p.group_key@.len() > 0 ==> palette_color(p, MapMode::Independent, d) == [75u8, 90u8, 105u8],
        (p.is_wasteland || contains_seq(lowercase(p.group_label@), "wasteland"@)) ==> palette_color(p, MapMode::Wastelands, d)
            == [35u8, 35u8, 35u8],
        !(p.is_wasteland || contains_seq(lowercase(p.group_label@), "wasteland"@)) ==> palette_color(p, MapMode::Wastelands, d)
            == [180u8, 190u8, 200u8],
        palette_color(p, MapMode::Plain, d) == d,
{
}

/// The colour of one province in a map mode.
pub fn province_color(p: &Province, mode: MapMode, default_color: [u8; 3]) -> (c: [u8; 3])
    ensures
        c == palette_color(*p, mode, default_color),
{
    match mode {
        MapMode::Political | MapMode::Terrain => {
            if p.group_key.as_str().is_empty() {
                default_color
            } else {
                p.color
            }
        },
        MapMode::Wastelands => {
            let lowered = to_lowercase(p.group_label.as_str());
            if p.is_wasteland || str_contains(lowered.as_str(), "wasteland") {
                [35, 35, 35]
            } else {
                [180, 190, 200]
            }
        },
        MapMode::Independent => {
            if p.group_key.as_str().is_empty() {
                [255, 140, 0]
            } else {
                [75, 90, 105]
            }
        },
        MapMode::Plain => default_color,
    }
}

/// The last province of `ps` whose palette entry is `k` (its index plus
/// one), if that entry lies wholly inside a buffer of `len` bytes.
pub open spec fn last_with_entry(ps: Seq<Province>, k: int, len: int) -> Option<int>
    decreases ps.len(),
{
    if ps.len() == 0 || 4 * k + 3 >= len {
        None
    } else if ps.last().index + 1 == k {
        Some(ps.len() - 1)
    } else {
        last_with_entry(ps.drop_last(), k, len)
    }
}

/// Byte `b` of the palette after it is filled: entry 0 is the background,
/// each province's entry its map-mode colour (the last province with that
/// entry wins), all filled entries opaque, other bytes unchanged.
pub open spec fn palette_byte(
    old: Seq<u8>,
    ps: Seq<Province>,
    mode: MapMode,
    background: [u8; 3],
    default_color: [u8; 3],
    b: int,
) -> u8 {
    let k = b / 4;
    let r = b % 4;
    if k == 0 {
        if r < 3 { background[r] } else { 255u8 }
    } else {
        match last_with_entry(ps, k, old.len() as int) {
            Some(j) => if r < 3 { palette_color(ps[j], mode, default_color)[r] } else { 255u8 },
            None => old[b],
        }
    }
}

proof fn lemma_last_with_entry_bounds(ps: Seq<Province>, k: int, len: int)
    ensures
        last_with_entry(ps, k, len) matches Some(j) ==> 0 <= j < ps.len() && ps[j].index + 1 == k,
    decreases ps.len(),
{
    if ps.len() > 0 {
        lemma_last_with_entry_bounds(ps.drop_last(), k, len);
    }
}

/// Fills the palette for `provinces` in map mode `mode`.
pub fn fill_palette(
    buffer: &mut Vec<u8>,
    provinces: &Vec<Province>,
    mode: MapMode,
    background: [u8; 3],
    default_color: [u8; 3],
)
    requires
        old(buffer)@.len() >= 4,
    ensures
        final(buffer)@.len() == old(buffer)@.len(),
        forall|b: int| 0 <= b < old(buffer)@.len() ==> #[trigger] final(buffer)@[b] == palette_byte(
            old(buffer)@,
            provinces@,
            mode,
            background,
            default_color,
            b,
        ),
{
    let ghost start = buffer@;
    let ghost ps = provinces@;
    let len = buffer.len();
    buffer.set(0, background[0]);
    buffer.set(1, background[1]);
    buffer.set(2, background[2]);
    buffer.set(3, 255);
    let mut i: usize = 0;
    while i < provinces.len()
        invariant
            i <= ps.len(),
            ps == provinces@,
            len == start.len(),
            buffer@.len() == len,
            len >= 4,
            forall|b: int| 0 <= b < len ==> #[trigger] buffer@[b] == palette_byte(
                start,
                ps.take(i as int),
                mode,
                background,
                default_color,
                b,
            ),
        decreases ps.len() - i,
    {
        let p = &provinces[i];
        let ghost prev = ps.take(i as int);
        let ghost next = ps.take(i + 1);
        assert(next.drop_last() =~= prev);
        assert(next.last() == ps[i as int]);
        let ghost before = buffer@;
        if p.index < len / 4 && (p.index + 1) * 4 + 3 < len {
            let offset = (p.index + 1) * 4;
            let color = province_color(p, mode, default_color);
            buffer.set(offset, color[0]);
            buffer.set(offset + 1, color[1]);
            buffer.set(offset + 2, color[2]);
            buffer.set(offset + 3, 255);
            assert forall|b: int| 0 <= b < len implies #[trigger] buffer@[b] == palette_byte(start, next, mode, background, default_color, b) by {
                let k = b / 4;
                if offset <= b < offset + 4 {
                    assert(k == p.index + 1);
                    assert(b % 4 == b - offset);
                    assert(4 * k + 3 < len);
                    assert(last_with_entry(next, k, len as int) == Some(i as int));
                    assert(next[i as int] == *p);
                } else {
                    assert(buffer@[b] == before[b]);
                    assert(before[b] == palette_byte(start, prev, mode, background, default_color, b));
                    if k != 0 {
                        assert(k != p.index + 1);
                        assert(last_with_entry(next, k, len as int) == last_with_entry(prev, k, len as int));
                        lemma_last_with_entry_bounds(prev, k, len as int);
                        if let Some(j) = last_with_entry(prev, k, len as int) {
                            assert(next[j] == prev[j]);
                        }
                    }
                }
            }
        } else {
            assert forall|b: int| 0 <= b < len implies #[trigger] buffer@[b] == palette_byte(start, next, mode, background, default_color, b) by {
                let k = b / 4;
                if k == p.index + 1 {
                    assert(4 * k + 3 >= len);
                }
                if k != 0 {
                    assert(last_with_entry(next, k, len as int) == last_with_entry(prev, k, len as int));
                    lemma_last_with_entry_bounds(prev, k, len as int);
                    if let Some(j) = last_with_entry(prev, k, len as int) {
                        assert(next[j] == prev[j]);
                    }
                }
                assert(buffer@[b] == palette_byte(start, prev, mode, background, default_color, b));
            }
        }
        i = i + 1;
    }
    assert(ps.take(i as int) =~= ps);
}

} // verus!
