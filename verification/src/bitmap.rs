//! Pixel packing, tile variant expansion and output composition.
//!
//! The solver itself never inspects pixels; these helpers carry tile images
//! as flat `u32` buffers: packing RGBA bytes into one word, expanding a base
//! tile image into its rotated and reflected variants, and compositing the
//! observed grid into one output buffer.

use vstd::prelude::*;
use crate::array_utils::{rotate, reflect, spec_rotate, spec_reflect};

verus! {

/// An RGBA pixel packed into one word, alpha in the top byte, red in the
/// lowest.
pub open spec fn spec_pack(r: u8, g: u8, b: u8, a: u8) -> u32 {
    ((a as u32) << 24) | ((b as u32) << 16) | ((g as u32) << 8) | (r as u32)
}

/// Pack the four RGBA channel bytes of one pixel into a single word.
pub fn pack_rgba(r: u8, g: u8, b: u8, a: u8) -> (p: u32)
    ensures
        p == spec_pack(r, g, b, a),
{
    ((a as u32) << 24u32) | ((b as u32) << 16u32) | ((g as u32) << 8u32) | (r as u32)
}

/// Split a packed pixel back into its RGBA channel bytes: packing the result
/// gives the word back, so the two functions are inverses.
pub fn unpack_rgba(p: u32) -> (r: (u8, u8, u8, u8))
    ensures
        spec_pack(r.0, r.1, r.2, r.3) == p,
{
    let red: u8 = (p & 0xFF) as u8;
    let green: u8 = ((p >> 8u32) & 0xFF) as u8;
    let blue: u8 = ((p >> 16u32) & 0xFF) as u8;
    let alpha: u8 = ((p >> 24u32) & 0xFF) as u8;
    proof {
        assert((((((p >> 24u32) & 0xFF) as u8) as u32) << 24) | (((((p >> 16u32) & 0xFF) as u8)
            as u32) << 16) | (((((p >> 8u32) & 0xFF) as u8) as u32) << 8) | (((p & 0xFF) as u8)
            as u32) == p) by (bit_vector);
    }
    (red, green, blue, alpha)
}

/// Expand a square base tile image into its first `variants` orientations:
/// slot 0 is the base image, slots 1 to 3 are successive 90-degree rotations,
/// and slots 4 and up are reflections of the slot four places earlier.
pub fn expand_tile_variants(base: Vec<u32>, variants: u8) -> (r: Vec<Vec<u32>>)
    requires
        1 <= variants <= 8,
        exists|s: int| 0 <= s && #[trigger] (s * s) == base@.len(),
    ensures
        r@.len() == variants,
        r@[0]@ == base@,
        forall|i: int| 0 <= i < variants ==> (#[trigger] r@[i]@).len() == base@.len(),
        ({
            let size = choose|s: int| 0 <= s && #[trigger] (s * s) == base@.len();
            &&& forall|i: int| 1 <= i < variants && i <= 3 ==> (#[trigger] r@[i]@) == spec_rotate(
                r@[i - 1]@,
                size,
            )
            &&& forall|i: int| 4 <= i < variants ==> (#[trigger] r@[i]@) == spec_reflect(
                r@[i - 4]@,
                size,
            )
        }),
{
    let ghost size = choose|s: int| 0 <= s && #[trigger] (s * s) == base@.len();
    let mut result: Vec<Vec<u32>> = Vec::new();
    let ghost base_view = base@;
    result.push(base);
    let mut i: u8 = 1;
    while i < variants
        invariant
            1 <= variants <= 8,
            1 <= i <= variants,
            result@.len() == i,
            result@[0]@ == base_view,
            0 <= size,
            size * size == base_view.len(),
            forall|j: int| 0 <= j < i ==> (#[trigger] result@[j]@).len() == base_view.len(),
            forall|j: int|
                1 <= j < i && j <= 3 ==> (#[trigger] result@[j]@) == spec_rotate(
                    result@[j - 1]@,
                    size,
                ),
            forall|j: int|
                4 <= j < i ==> (#[trigger] result@[j]@) == spec_reflect(result@[j - 4]@, size),
        decreases variants - i,
    {
        if i <= 3 {
            let prev: &Vec<u32> = &result[(i - 1) as usize];
            proof {
                assert(0 <= size && size * size == prev@.len());
            }
            let turned: Vec<u32> = rotate(prev.as_slice());
            proof {
                let s2 = choose|s: int| 0 <= s && #[trigger] (s * s) == prev@.len();
                assert(s2 == size) by (nonlinear_arith)
                    requires
                        0 <= s2,
                        0 <= size,
                        s2 * s2 == size * size,
                ;
            }
            result.push(turned);
        } else {
            let prev: &Vec<u32> = &result[(i - 4) as usize];
            proof {
                assert(0 <= size && size * size == prev@.len());
            }
            let mirrored: Vec<u32> = reflect(prev.as_slice());
            proof {
                let s2 = choose|s: int| 0 <= s && #[trigger] (s * s) == prev@.len();
                assert(s2 == size) by (nonlinear_arith)
                    requires
                        0 <= s2,
                        0 <= size,
                        s2 * s2 == size * size,
                ;
            }
            result.push(mirrored);
        }
        i = i + 1;
    }
    result
}


/// Distinct (cell, in-tile offset) positions land on distinct output pixels.
proof fn lemma_pixel_index_injective(
    m_x: int,
    ts: int,
    x1: int,
    y1: int,
    dx1: int,
    dy1: int,
    x2: int,
    y2: int,
    dx2: int,
    dy2: int,
)
    requires
        1 <= ts,
        0 <= x1 < m_x,
        0 <= x2 < m_x,
        0 <= dx1 < ts,
        0 <= dx2 < ts,
        0 <= dy1 < ts,
        0 <= dy2 < ts,
        0 <= y1,
        0 <= y2,
        !(x1 == x2 && y1 == y2 && dx1 == dx2 && dy1 == dy2),
    ensures
        (x1 * ts + dx1) + (y1 * ts + dy1) * (m_x * ts) != (x2 * ts + dx2) + (y2 * ts + dy2) * (m_x
            * ts),
{
    let a1 = x1 * ts + dx1;
    let a2 = x2 * ts + dx2;
    let b1 = y1 * ts + dy1;
    let b2 = y2 * ts + dy2;
    assert(0 <= a1 < m_x * ts && 0 <= a2 < m_x * ts && 0 <= b1 && 0 <= b2) by (nonlinear_arith)
        requires
            a1 == x1 * ts + dx1,
            a2 == x2 * ts + dx2,
            b1 == y1 * ts + dy1,
            b2 == y2 * ts + dy2,
            1 <= ts,
            0 <= x1 < m_x,
            0 <= x2 < m_x,
            0 <= dx1 < ts,
            0 <= dx2 < ts,
            0 <= dy1 < ts,
            0 <= dy2 < ts,
            0 <= y1,
            0 <= y2,
    ;
    if b1 == b2 {
        assert(y1 == y2 && dy1 == dy2) by (nonlinear_arith)
            requires
                y1 * ts + dy1 == y2 * ts + dy2,
                1 <= ts,
                0 <= dy1 < ts,
                0 <= dy2 < ts,
                0 <= y1,
                0 <= y2,
        ;
        assert(a1 != a2) by (nonlinear_arith)
            requires
                1 <= ts,
                0 <= dx1 < ts,
                0 <= dx2 < ts,
                !(x1 == x2 && dx1 == dx2),
                a1 == x1 * ts + dx1,
                a2 == x2 * ts + dx2,
        ;
    } else {
        assert(a1 + b1 * (m_x * ts) != a2 + b2 * (m_x * ts)) by (nonlinear_arith)
            requires
                0 <= a1 < m_x * ts,
                0 <= a2 < m_x * ts,
                b1 != b2,
        ;
    }
}

/// Composite the observed grid into one flat output buffer: cell (x, y) of
/// the grid shows the image of its observed variant, tiled at pixel offset
/// (x, y) times the tile side; unresolved cells, or pixels a short tile image
/// cannot supply, stay zero.
pub fn compose_bitmap(
    observed: &Vec<Option<usize>>,
    tiles: &Vec<Vec<u32>>,
    m_x: usize,
    m_y: usize,
    tilesize: usize,
) -> (r: Vec<u32>)
    requires
        observed@.len() == m_x * m_y,
        m_x * m_y * (tilesize * tilesize) <= usize::MAX,
        1 <= tilesize,
        1 <= m_x,
        1 <= m_y,
    ensures
        r@.len() == m_x * m_y * (tilesize * tilesize),
        forall|x: int, y: int, dx: int, dy: int|
            0 <= x < m_x && 0 <= y < m_y && 0 <= dx < tilesize && 0 <= dy < tilesize
                ==> #[trigger] r@[(x * tilesize + dx) + (y * tilesize + dy) * (m_x * tilesize)] == ({
                match observed@[x + y * m_x] {
                    Some(t) => if t < tiles@.len() && dx + dy * tilesize < tiles@[t as int]@.len() {
                        tiles@[t as int]@[dx + dy * tilesize]
                    } else {
                        0u32
                    },
                    None => 0u32,
                }
            }),
{
    proof {
        assert(tilesize * tilesize <= m_x * m_y * (tilesize * tilesize) && m_x * m_y <= m_x * m_y
            * (tilesize * tilesize) && m_x * tilesize <= m_x * m_y * (tilesize * tilesize) && (m_x
            * tilesize) * (m_y * tilesize) == m_x * m_y * (tilesize * tilesize))
            by (nonlinear_arith)
            requires
                1 <= m_x,
                1 <= m_y,
                1 <= tilesize,
        ;
    }
    let total: usize = m_x * m_y * (tilesize * tilesize);
    let mut bitmap: Vec<u32> = Vec::new();
    while bitmap.len() < total
        invariant
            bitmap@.len() <= total,
            forall|j: int| 0 <= j < bitmap@.len() ==> #[trigger] bitmap@[j] == 0u32,
        decreases total - bitmap@.len(),
    {
        bitmap.push(0);
    }
    let width: usize = m_x * tilesize;
    proof {
        assert forall|xx: int, yy: int, dx: int, dy: int|
            0 <= xx < m_x && 0 <= yy < m_y && 0 <= dx < tilesize && 0 <= dy < tilesize implies (
        #[trigger] bitmap@[(xx * tilesize + dx) + (yy * tilesize + dy) * (m_x * tilesize)])
            == 0u32 by {
            assert(0 <= (xx * tilesize + dx) + (yy * tilesize + dy) * (m_x * tilesize) < (m_x
                * tilesize) * (m_y * tilesize)) by (nonlinear_arith)
                requires
                    0 <= xx < m_x,
                    0 <= yy < m_y,
                    0 <= dx < tilesize,
                    0 <= dy < tilesize,
            ;
        }
    }
    let mut x: usize = 0;
    while x < m_x
        invariant
            total == m_x * m_y * (tilesize * tilesize),
            width == m_x * tilesize,
            (m_x * tilesize) * (m_y * tilesize) == total,
            observed@.len() == m_x * m_y,
            1 <= tilesize,
            1 <= m_x,
            1 <= m_y,
            x <= m_x,
            bitmap@.len() == total,
            forall|xx: int, yy: int, dx: int, dy: int|
                0 <= xx < m_x && 0 <= yy < m_y && 0 <= dx < tilesize && 0 <= dy < tilesize && !(xx
                    < x) ==> #[trigger] bitmap@[(xx * tilesize + dx) + (yy * tilesize + dy) * (m_x
                    * tilesize)] == 0u32,
            forall|xx: int, yy: int, dx: int, dy: int|
                0 <= xx < x && 0 <= yy < m_y && 0 <= dx < tilesize && 0 <= dy < tilesize
                    ==> #[trigger] bitmap@[(xx * tilesize + dx) + (yy * tilesize + dy) * (m_x
                    * tilesize)] == ({
                    match observed@[xx + yy * m_x] {
                        Some(t) => if t < tiles@.len() && dx + dy * tilesize < tiles@[t as int]@.len() {
                            tiles@[t as int]@[dx + dy * tilesize]
                        } else {
                            0u32
                        },
                        None => 0u32,
                    }
                }),
        decreases m_x - x,
    {
        let mut y: usize = 0;
        while y < m_y
            invariant
                total == m_x * m_y * (tilesize * tilesize),
                width == m_x * tilesize,
                (m_x * tilesize) * (m_y * tilesize) == total,
                observed@.len() == m_x * m_y,
                1 <= tilesize,
                1 <= m_x,
                1 <= m_y,
                x < m_x,
                y <= m_y,
                bitmap@.len() == total,
                forall|xx: int, yy: int, dx: int, dy: int|
                    0 <= xx < m_x && 0 <= yy < m_y && 0 <= dx < tilesize && 0 <= dy < tilesize && !(
                    xx < x || (xx == x && yy < y)) ==> #[trigger] bitmap@[(xx * tilesize + dx) + (yy
                        * tilesize + dy) * (m_x * tilesize)] == 0u32,
                forall|xx: int, yy: int, dx: int, dy: int|
                    0 <= xx < m_x && 0 <= yy < m_y && 0 <= dx < tilesize && 0 <= dy < tilesize && (
                    xx < x || (xx == x && yy < y)) ==> #[trigger] bitmap@[(xx * tilesize + dx) + (yy
                        * tilesize + dy) * (m_x * tilesize)] == ({
                        match observed@[xx + yy * m_x] {
                            Some(t) => if t < tiles@.len() && dx + dy * tilesize < tiles@[t as int]@.len() {
                                tiles@[t as int]@[dx + dy * tilesize]
                            } else {
                                0u32
                            },
                            None => 0u32,
                        }
                    }),
            decreases m_y - y,
        {
            proof {
                assert(x + y * m_x < m_x * m_y && y * m_x <= m_x * m_y && m_x * m_y <= m_x * m_y
                    * (tilesize * tilesize)) by (nonlinear_arith)
                    requires
                        0 <= x < m_x,
                        0 <= y < m_y,
                        1 <= tilesize,
                ;
            }
            let cell: usize = x + y * m_x;
            match observed[cell] {
                Some(t) => {
                    if t < tiles.len() {
                        let mut dy: usize = 0;
                        while dy < tilesize
                            invariant
                                total == m_x * m_y * (tilesize * tilesize),
                                width == m_x * tilesize,
                                (m_x * tilesize) * (m_y * tilesize) == total,
                                observed@.len() == m_x * m_y,
                                1 <= tilesize,
                                1 <= m_x,
                                1 <= m_y,
                                x < m_x,
                                y < m_y,
                                dy <= tilesize,
                                cell == x + y * m_x,
                                observed@[cell as int] == Some(t),
                                t < tiles@.len(),
                                bitmap@.len() == total,
                                forall|xx: int, yy: int, ddx: int, ddy: int|
                                    0 <= xx < m_x && 0 <= yy < m_y && 0 <= ddx < tilesize && 0
                                        <= ddy < tilesize && !(xx < x || (xx == x && yy < y) || (xx
                                        == x && yy == y && ddy < dy)) ==> #[trigger] bitmap@[(xx
                                        * tilesize + ddx) + (yy * tilesize + ddy) * (m_x
                                        * tilesize)] == 0u32,
                                forall|xx: int, yy: int, ddx: int, ddy: int|
                                    0 <= xx < m_x && 0 <= yy < m_y && 0 <= ddx < tilesize && 0
                                        <= ddy < tilesize && (xx < x || (xx == x && yy < y))
                                        ==> #[trigger] bitmap@[(xx * tilesize + ddx) + (yy
                                        * tilesize + ddy) * (m_x * tilesize)] == ({
                                        match observed@[xx + yy * m_x] {
                                            Some(tt) => if tt < tiles@.len() && ddx + ddy
                                                * tilesize < tiles@[tt as int]@.len() {
                                                tiles@[tt as int]@[ddx + ddy * tilesize]
                                            } else {
                                                0u32
                                            },
                                            None => 0u32,
                                        }
                                    }),
                                forall|ddx: int, ddy: int|
                                    0 <= ddx < tilesize && 0 <= ddy < dy ==> #[trigger] bitmap@[(x
                                        * tilesize + ddx) + (y * tilesize + ddy) * (m_x
                                        * tilesize)] == ({
                                        if ddx + ddy * tilesize < tiles@[t as int]@.len() {
                                            tiles@[t as int]@[ddx + ddy * tilesize]
                                        } else {
                                            0u32
                                        }
                                    }),
                            decreases tilesize - dy,
                        {
                            let mut dx: usize = 0;
                            while dx < tilesize
                                invariant
                                    total == m_x * m_y * (tilesize * tilesize),
                                    width == m_x * tilesize,
                                    (m_x * tilesize) * (m_y * tilesize) == total,
                                    observed@.len() == m_x * m_y,
                                    1 <= tilesize,
                                    1 <= m_x,
                                    1 <= m_y,
                                    x < m_x,
                                    y < m_y,
                                    dy < tilesize,
                                    dx <= tilesize,
                                    cell == x + y * m_x,
                                    observed@[cell as int] == Some(t),
                                    t < tiles@.len(),
                                    bitmap@.len() == total,
                                    forall|xx: int, yy: int, ddx: int, ddy: int|
                                        0 <= xx < m_x && 0 <= yy < m_y && 0 <= ddx < tilesize && 0
                                            <= ddy < tilesize && !(xx < x || (xx == x && yy < y)
                                            || (xx == x && yy == y && (ddy < dy || (ddy == dy && ddx
                                            < dx)))) ==> #[trigger] bitmap@[(xx * tilesize + ddx)
                                            + (yy * tilesize + ddy) * (m_x * tilesize)] == 0u32,
                                    forall|xx: int, yy: int, ddx: int, ddy: int|
                                        0 <= xx < m_x && 0 <= yy < m_y && 0 <= ddx < tilesize && 0
                                            <= ddy < tilesize && (xx < x || (xx == x && yy < y))
                                            ==> #[trigger] bitmap@[(xx * tilesize + ddx) + (yy
                                            * tilesize + ddy) * (m_x * tilesize)] == ({
                                            match observed@[xx + yy * m_x] {
                                                Some(tt) => if tt < tiles@.len() && ddx + ddy
                                                    * tilesize < tiles@[tt as int]@.len() {
                                                    tiles@[tt as int]@[ddx + ddy * tilesize]
                                                } else {
                                                    0u32
                                                },
                                                None => 0u32,
                                            }
                                        }),
                                    forall|ddx: int, ddy: int|
                                        0 <= ddx < tilesize && (0 <= ddy < dy || (ddy == dy && 0
                                            <= ddx < dx)) ==> #[trigger] bitmap@[(x * tilesize
                                            + ddx) + (y * tilesize + ddy) * (m_x * tilesize)] == ({
                                            if ddx + ddy * tilesize < tiles@[t as int]@.len() {
                                                tiles@[t as int]@[ddx + ddy * tilesize]
                                            } else {
                                                0u32
                                            }
                                        }),
                                decreases tilesize - dx,
                            {
                                proof {
                                    assert((x * tilesize + dx) + (y * tilesize + dy) * (m_x
                                        * tilesize) < (m_x * tilesize) * (m_y * tilesize) && x
                                        * tilesize + dx < m_x * tilesize && (y * tilesize + dy)
                                        * (m_x * tilesize) <= (m_x * tilesize) * (m_y * tilesize)
                                        && y * tilesize + dy <= m_y * tilesize && y * tilesize
                                        <= m_y * tilesize && m_y * tilesize <= (m_x * tilesize)
                                        * (m_y * tilesize) && dx + dy
                                        * tilesize < tilesize * tilesize && tilesize * tilesize
                                        <= (m_x * tilesize) * (m_y * tilesize))
                                        by (nonlinear_arith)
                                        requires
                                            0 <= x < m_x,
                                            0 <= y < m_y,
                                            0 <= dx < tilesize,
                                            0 <= dy < tilesize,
                                            1 <= m_x,
                                            1 <= m_y,
                                    ;
                                }
                                let bitmap_idx: usize = (x * tilesize + dx) + (y * tilesize + dy)
                                    * width;
                                let tile_idx: usize = dx + dy * tilesize;
                                let ghost bitmap_prev = bitmap@;
                                if tile_idx < tiles[t].len() {
                                    let pixel: u32 = tiles[t][tile_idx];
                                    bitmap[bitmap_idx] = pixel;
                                }
                                proof {
                                    assert forall|xx: int, yy: int, ddx: int, ddy: int|
                                        0 <= xx < m_x && 0 <= yy < m_y && 0 <= ddx < tilesize && 0
                                            <= ddy < tilesize && !(xx == x && yy == y && ddx == dx
                                            && ddy == dy) implies #[trigger] bitmap@[(xx * tilesize
                                            + ddx) + (yy * tilesize + ddy) * (m_x * tilesize)]
                                        == bitmap_prev[(xx * tilesize + ddx) + (yy * tilesize
                                            + ddy) * (m_x * tilesize)] by {
                                        lemma_pixel_index_injective(
                                            m_x as int,
                                            tilesize as int,
                                            xx,
                                            yy,
                                            ddx,
                                            ddy,
                                            x as int,
                                            y as int,
                                            dx as int,
                                            dy as int,
                                        );
                                        assert(0 <= (xx * tilesize + ddx) + (yy * tilesize + ddy)
                                            * (m_x * tilesize) < (m_x * tilesize) * (m_y
                                            * tilesize)) by (nonlinear_arith)
                                            requires
                                                0 <= xx < m_x,
                                                0 <= yy < m_y,
                                                0 <= ddx < tilesize,
                                                0 <= ddy < tilesize,
                                        ;
                                    }
                                }
                                dx = dx + 1;
                            }
                            dy = dy + 1;
                        }
                    }
                },
                None => {},
            }
            y = y + 1;
        }
        x = x + 1;
    }
    bitmap
}

} // verus!
