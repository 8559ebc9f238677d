//! Fixed-point coordinates and the cube arithmetic of the octree.
//!
//! A coordinate is an unsigned fixed-point number with `FRACTION_BITS`
//! fractional bits: the `u64` value `v` stands for `v / 2^32`. A tile of
//! depth `d` is a cube whose edge is `2^d` units, that is `2^(d + 32)` in
//! fixed point. Depths range over `MIN_DEPTH ..= MAX_DEPTH`, so that every
//! edge length is a power of two that fits in a `u64`.
use vstd::prelude::*;
use vstd::arithmetic::power2::{pow2, lemma_pow2_unfold, lemma_pow2_pos, lemma_pow2_strictly_increases};
use vstd::bits::{lemma_u64_shl_is_mul, lemma_u64_pow2_no_overflow};

verus! {

/// Number of fractional bits of a fixed-point coordinate.
pub const FRACTION_BITS: u32 = 32;

/// The smallest tile depth: an edge of one fixed-point step.
pub const MIN_DEPTH: i32 = -32;

/// The largest tile depth: an edge of `2^63` fixed-point steps.
pub const MAX_DEPTH: i32 = 31;

/// A point, one fixed-point coordinate per axis.
pub type Point = (u64, u64, u64);

/// The bound that every tile of a well-formed tree stays below, on each axis.
pub open spec fn coord_limit() -> int {
    pow2(63) as int
}

pub open spec fn valid_depth(d: int) -> bool {
    MIN_DEPTH <= d <= MAX_DEPTH
}

/// Edge length, in fixed-point steps, of a tile of depth `d`.
pub open spec fn tile_size(d: int) -> int {
    pow2((d + FRACTION_BITS) as nat) as int
}

/// 0 when `p` lies in the lower half (along one axis) of the tile of depth
/// `d` whose corner is at `corner`, 1 otherwise.
pub open spec fn axis_bit(p: int, corner: int, d: int) -> int {
    if p < corner + tile_size(d - 1) {
        0
    } else {
        1
    }
}

/// Slot (0..8) of the child of a tile (corner, depth `d`) towards which `p`
/// lies: bit 0 for x, bit 1 for y, bit 2 for z.
pub open spec fn child_slot(corner: Point, d: int, p: Point) -> int {
    axis_bit(p.0 as int, corner.0 as int, d) + 2 * axis_bit(p.1 as int, corner.1 as int, d) + 4
        * axis_bit(p.2 as int, corner.2 as int, d)
}

/// Corner of the child in slot `s` of a tile (corner, depth `d`).
pub open spec fn child_corner(corner: Point, d: int, s: int) -> Point {
    let w = tile_size(d - 1);
    (
        (corner.0 + (s % 2) * w) as u64,
        (corner.1 + ((s / 2) % 2) * w) as u64,
        (corner.2 + (s / 4) * w) as u64,
    )
}

/// The cube (corner, depth `d`) holds the point `p`.
pub open spec fn cube_contains(corner: Point, d: int, p: Point) -> bool {
    &&& corner.0 <= p.0 < corner.0 + tile_size(d)
    &&& corner.1 <= p.1 < corner.1 + tile_size(d)
    &&& corner.2 <= p.2 < corner.2 + tile_size(d)
}

/// A tile (corner, depth `d`) lies inside the coordinate range on every axis.
pub open spec fn in_range(corner: Point, d: int) -> bool {
    &&& corner.0 + tile_size(d) <= coord_limit()
    &&& corner.1 + tile_size(d) <= coord_limit()
    &&& corner.2 + tile_size(d) <= coord_limit()
}

/// Facts about tile sizes: positive, and each one twice the size one level down.
pub proof fn lemma_tile_size(d: int)
    requires
        valid_depth(d),
    ensures
        0 < tile_size(d) <= coord_limit(),
        coord_limit() < u64::MAX,
        d > MIN_DEPTH ==> tile_size(d) == 2 * tile_size(d - 1),
{
    lemma_pow2_pos((d + 32) as nat);
    lemma_u64_pow2_no_overflow(63);
    if d < MAX_DEPTH {
        lemma_pow2_strictly_increases((d + 32) as nat, 63);
    }
    if d > MIN_DEPTH {
        lemma_pow2_unfold((d + 32) as nat);
    }
}

/// The offsets of a child corner, one per axis, are 0 or the child's edge.
pub proof fn lemma_slot_offsets(s: int, w: int)
    requires
        0 <= s < 8,
    ensures
        (s % 2) * w == (if s % 2 == 1 { w } else { 0 }),
        ((s / 2) % 2) * w == (if (s / 2) % 2 == 1 { w } else { 0 }),
        (s / 4) * w == (if s / 4 == 1 { w } else { 0 }),
        s / 4 == 0 || s / 4 == 1,
{
    if s % 2 == 1 {
        assert((s % 2) * w == w);
    } else {
        assert((s % 2) * w == 0);
    }
    if (s / 2) % 2 == 1 {
        assert(((s / 2) % 2) * w == w);
    } else {
        assert(((s / 2) % 2) * w == 0);
    }
    if s / 4 == 1 {
        assert((s / 4) * w == w);
    } else {
        assert(s / 4 == 0);
        assert((s / 4) * w == 0);
    }
}

/// A child corner lies inside its parent and in range.
pub proof fn lemma_child_corner(corner: Point, d: int, s: int)
    requires
        valid_depth(d),
        d > MIN_DEPTH,
        in_range(corner, d),
        0 <= s < 8,
    ensures
        in_range(child_corner(corner, d, s), d - 1),
        corner.0 <= child_corner(corner, d, s).0,
        corner.1 <= child_corner(corner, d, s).1,
        corner.2 <= child_corner(corner, d, s).2,
        child_corner(corner, d, s).0 + tile_size(d - 1) <= corner.0 + tile_size(d),
        child_corner(corner, d, s).1 + tile_size(d - 1) <= corner.1 + tile_size(d),
        child_corner(corner, d, s).2 + tile_size(d - 1) <= corner.2 + tile_size(d),
{
    lemma_tile_size(d);
    lemma_tile_size(d - 1);
    lemma_slot_offsets(s, tile_size(d - 1));
}

/// Edge length of the children of a tile of depth `d`.
pub fn half_width(d: i32) -> (w: u64)
    requires
        MIN_DEPTH < d <= MAX_DEPTH,
    ensures
        w == tile_size(d - 1),
        0 < w,
{
    let shift: u64 = (d + 31) as u64;
    proof {
        lemma_u64_pow2_no_overflow(shift as nat);
        lemma_u64_shl_is_mul(1, shift);
    }
    1u64 << shift
}

/// Edge length of a tile of depth `d`.
pub fn full_width(d: i32) -> (w: u64)
    requires
        valid_depth(d as int),
    ensures
        w == tile_size(d as int),
{
    let shift: u64 = (d + 32) as u64;
    proof {
        lemma_u64_pow2_no_overflow(shift as nat);
        lemma_u64_shl_is_mul(1, shift);
    }
    1u64 << shift
}

/// Slot of the child towards which `p` lies, in a tile whose corner is
/// `corner` and whose children have edge `w`.
pub fn slot_index(corner: Point, d: i32, w: u64, p: Point) -> (s: usize)
    requires
        MIN_DEPTH < d <= MAX_DEPTH,
        w == tile_size(d - 1),
        in_range(corner, d as int),
    ensures
        s == child_slot(corner, d as int, p),
        s < 8,
{
    proof {
        lemma_tile_size(d as int);
    }
    let id_x: usize = if p.0 < corner.0 + w {
        0
    } else {
        1
    };
    let id_y: usize = if p.1 < corner.1 + w {
        0
    } else {
        1
    };
    let id_z: usize = if p.2 < corner.2 + w {
        0
    } else {
        1
    };
    id_x + id_y * 2 + id_z * 4
}

/// Corner of the child in slot `s`, for a tile whose corner is `corner` and
/// whose children have edge `w`.
pub fn slot_corner(corner: Point, d: i32, w: u64, s: usize) -> (c: Point)
    requires
        MIN_DEPTH < d <= MAX_DEPTH,
        w == tile_size(d - 1),
        in_range(corner, d as int),
        s < 8,
    ensures
        c == child_corner(corner, d as int, s as int),
{
    proof {
        lemma_tile_size(d as int);
        lemma_slot_offsets(s as int, w as int);
    }
    let ox: u64 = if s % 2 == 1 {
        w
    } else {
        0
    };
    let oy: u64 = if (s / 2) % 2 == 1 {
        w
    } else {
        0
    };
    let oz: u64 = if s / 4 == 1 {
        w
    } else {
        0
    };
    (corner.0 + ox, corner.1 + oy, corner.2 + oz)
}

} // verus!
