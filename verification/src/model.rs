//! Voxel models: the depth of the chunk that holds a model, and the writes
//! that fill the chunk with the model's voxels.
use vstd::prelude::*;
use vstd::arithmetic::power2::{pow2, lemma_pow2_unfold, lemma2_to64, lemma_pow2_adds};
use vstd::arithmetic::mul::lemma_mul_inequality;
use crate::color::{Rgb, CHANNEL_FULL};
use crate::geometry::{Point, MIN_DEPTH, valid_depth, tile_size, full_width, lemma_tile_size};
use crate::map::ChunkData;
use crate::laws::{
    lemma_inserted_frame, lemma_inserted_wf, lemma_lookup_after_insert, lemma_insert_keeps_covered,
};
use crate::tile::Tile;

verus! {

/// A voxel of a model: its cell (in voxel units) and its palette index.
#[derive(Clone, Copy, Debug, PartialEq, Eq, Structural)]
pub struct Voxel {
    pub x: u8,
    pub y: u8,
    pub z: u8,
    pub i: u8,
}

/// The point of a voxel in a chunk whose voxels are tiles of depth `deph`.
/// The model's `z` axis is the chunk's second axis, its `y` the third.
pub open spec fn voxel_point(v: Voxel, deph: int) -> Point {
    (
        (v.x * tile_size(deph)) as u64,
        (v.z * tile_size(deph)) as u64,
        (v.y * tile_size(deph)) as u64,
    )
}

/// The voxel's point is representable.
pub open spec fn voxel_fits(v: Voxel, deph: int) -> bool {
    &&& v.x * tile_size(deph) <= u64::MAX
    &&& v.y * tile_size(deph) <= u64::MAX
    &&& v.z * tile_size(deph) <= u64::MAX
}

/// The largest cell coordinate, on any axis, among the first `n` voxels.
pub open spec fn extent(voxels: Seq<Voxel>, n: int) -> int
    decreases n,
{
    if n <= 0 {
        0
    } else {
        let v = voxels[n - 1];
        let m = extent(voxels, n - 1);
        let a = if v.x > v.y {
            v.x as int
        } else {
            v.y as int
        };
        let b = if a > v.z {
            a
        } else {
            v.z as int
        };
        if b > m {
            b
        } else {
            m
        }
    }
}

/// `e` is the base-2 logarithm of `m`, rounded up.
pub open spec fn is_ceil_log2(e: int, m: int) -> bool {
    &&& e >= 0
    &&& m <= pow2(e as nat)
    &&& (e == 0 || pow2((e - 1) as nat) < m)
}

/// The tree after writing the first `n` voxels, in order, each at depth
/// `deph` in its palette colour.
pub open spec fn loaded(t: Tile, voxels: Seq<Voxel>, palette: Seq<Rgb>, deph: int, n: int) -> Tile
    decreases n,
{
    if n <= 0 {
        t
    } else {
        let v = voxels[n - 1];
        loaded(t, voxels, palette, deph, n - 1).inserted(
            voxel_point(v, deph),
            deph,
            palette[v.i as int],
        )
    }
}

/// Depth of the root of a chunk that holds a model whose voxels are tiles
/// of depth `deph`: the base-2 logarithm, rounded up, of the model's
/// largest coordinate. A model whose coordinates are all 0 gives `i32::MIN`.
pub fn model_depth(voxels: &Vec<Voxel>, deph: i32) -> (d: i32)
    requires
        valid_depth(deph as int),
    ensures
        extent(voxels@, voxels@.len() as int) == 0 ==> d == i32::MIN,
        extent(voxels@, voxels@.len() as int) > 0 ==> is_ceil_log2(
            d - deph,
            extent(voxels@, voxels@.len() as int),
        ),
{
    let mut m: u8 = 0;
    let mut i: usize = 0;
    while i < voxels.len()
        invariant
            0 <= i <= voxels@.len(),
            m == extent(voxels@, i as int),
        decreases voxels@.len() - i,
    {
        let v = voxels[i];
        let a = if v.x > v.y {
            v.x
        } else {
            v.y
        };
        let b = if a > v.z {
            a
        } else {
            v.z
        };
        if b > m {
            m = b;
        }
        i = i + 1;
    }
    if m == 0 {
        return i32::MIN;
    }
    let mut e: u32 = 0;
    let mut p: u32 = 1;
    proof {
        lemma2_to64();
    }
    while p < m as u32
        invariant
            0 <= e <= 8,
            p == pow2(e as nat),
            m >= 1,
            e == 0 || pow2((e - 1) as nat) < m,
            pow2(8) == 256,
            forall|k: nat| k <= 8 ==> pow2(k) <= 256,
        decreases 8 - e,
    {
        proof {
            if e == 8 {
                assert(false);
            }
            lemma_pow2_unfold((e + 1) as nat);
        }
        p = p * 2;
        e = e + 1;
    }
    e as i32 + deph
}

/// Every cell coordinate is at most the extent.
pub proof fn lemma_extent_bounds(voxels: Seq<Voxel>, n: int, k: int)
    requires
        0 <= k < n <= voxels.len(),
    ensures
        voxels[k].x <= extent(voxels, n),
        voxels[k].y <= extent(voxels, n),
        voxels[k].z <= extent(voxels, n),
    decreases n,
{
    if k < n - 1 {
        lemma_extent_bounds(voxels, n - 1, k);
    }
}

/// A chunk of the depth that `model_depth` gives spans the model: no
/// coordinate of a voxel's point exceeds the chunk's edge. A coordinate
/// equal to the edge (a model whose largest coordinate is a power of two)
/// lies on the far face, just outside the root's cube.
pub proof fn lemma_model_fits_chunk(voxels: Seq<Voxel>, deph: int, d: int, k: int)
    requires
        valid_depth(deph),
        0 <= k < voxels.len(),
        extent(voxels, voxels.len() as int) > 0,
        is_ceil_log2(d - deph, extent(voxels, voxels.len() as int)),
    ensures
        voxels[k].x * tile_size(deph) <= tile_size(d),
        voxels[k].y * tile_size(deph) <= tile_size(d),
        voxels[k].z * tile_size(deph) <= tile_size(d),
{
    let m = extent(voxels, voxels.len() as int);
    let e = d - deph;
    lemma_extent_bounds(voxels, voxels.len() as int, k);
    lemma_pow2_adds(e as nat, (deph + 32) as nat);
    assert((e as nat + (deph + 32) as nat) as nat == (d + 32) as nat);
    lemma_tile_size(deph);
    lemma_mul_inequality(voxels[k].x as int, pow2(e as nat) as int, tile_size(deph));
    lemma_mul_inequality(voxels[k].y as int, pow2(e as nat) as int, tile_size(deph));
    lemma_mul_inequality(voxels[k].z as int, pow2(e as nat) as int, tile_size(deph));
}

/// Whether every palette colour is valid and every voxel has a palette
/// entry and a representable point.
pub fn voxels_fit(voxels: &Vec<Voxel>, palette: &Vec<Rgb>, deph: i32) -> (b: bool)
    requires
        valid_depth(deph as int),
    ensures
        b == ((forall|j: int| 0 <= j < palette@.len() ==> (#[trigger] palette@[j]).valid())
            && forall|k: int|
            0 <= k < voxels@.len() ==> (#[trigger] voxels@[k]).i < palette@.len() && voxel_fits(
                voxels@[k],
                deph as int,
            )),
{
    let mut j: usize = 0;
    while j < palette.len()
        invariant
            0 <= j <= palette@.len(),
            forall|i: int| 0 <= i < j ==> (#[trigger] palette@[i]).valid(),
        decreases palette@.len() - j,
    {
        let c = palette[j];
        if c.r > CHANNEL_FULL || c.g > CHANNEL_FULL || c.b > CHANNEL_FULL {
            return false;
        }
        j = j + 1;
    }
    let palette_len = palette.len();
    let w = full_width(deph);
    proof {
        lemma_tile_size(deph as int);
    }
    let limit: u64 = u64::MAX / w;
    let mut i: usize = 0;
    while i < voxels.len()
        invariant
            0 <= i <= voxels@.len(),
            w == tile_size(deph as int),
            w > 0,
            palette_len == palette@.len(),
            forall|j: int| 0 <= j < palette@.len() ==> (#[trigger] palette@[j]).valid(),
            limit == u64::MAX / w,
            forall|k: int|
                0 <= k < i ==> (#[trigger] voxels@[k]).i < palette_len && voxel_fits(
                    voxels@[k],
                    deph as int,
                ),
        decreases voxels@.len() - i,
    {
        let v = voxels[i];
        proof {
            lemma_fits_iff(v.x as int, w as int);
            lemma_fits_iff(v.y as int, w as int);
            lemma_fits_iff(v.z as int, w as int);
        }
        if v.i as usize >= palette_len || v.x as u64 > limit || v.y as u64 > limit || v.z as u64
            > limit {
            return false;
        }
        i = i + 1;
    }
    true
}

/// `a * w` fits in a `u64` exactly when `a` is at most `u64::MAX / w`.
proof fn lemma_fits_iff(a: int, w: int)
    requires
        a >= 0,
        w > 0,
    ensures
        (a * w <= u64::MAX) <==> (a <= (u64::MAX as int) / w),
{
    let q = (u64::MAX as int) / w;
    assert(q * w <= u64::MAX < (q + 1) * w) by (nonlinear_arith)
        requires
            w > 0,
            q == (u64::MAX as int) / w,
    ;
    if a <= q {
        lemma_mul_inequality(a, q, w);
    } else {
        lemma_mul_inequality(q + 1, a, w);
    }
}

/// The point of a voxel in a chunk whose voxels are tiles of depth `deph`.
pub fn voxel_position(v: Voxel, deph: i32) -> (p: Point)
    requires
        valid_depth(deph as int),
        voxel_fits(v, deph as int),
    ensures
        p == voxel_point(v, deph as int),
{
    let w = full_width(deph);
    (v.x as u64 * w, v.z as u64 * w, v.y as u64 * w)
}

/// Writes every voxel, in order, at depth `deph` in its palette colour.
pub fn insert_voxels(map: &mut ChunkData, voxels: &Vec<Voxel>, palette: &Vec<Rgb>, deph: i32)
    requires
        MIN_DEPTH <= deph <= old(map).tree().d,
        forall|j: int| 0 <= j < palette@.len() ==> (#[trigger] palette@[j]).valid(),
        forall|k: int|
            0 <= k < voxels@.len() ==> (#[trigger] voxels@[k]).i < palette@.len() && voxel_fits(
                voxels@[k],
                deph as int,
            ),
    ensures
        final(map).tree() == loaded(old(map).tree(), voxels@, palette@, deph as int, voxels@.len() as int),
        final(map).tiles() == old(map).tiles(),
{
    let mut i: usize = 0;
    while i < voxels.len()
        invariant
            0 <= i <= voxels@.len(),
            map.tree().d == old(map).tree().d,
            MIN_DEPTH <= deph <= old(map).tree().d,
            map.tree() == loaded(old(map).tree(), voxels@, palette@, deph as int, i as int),
            map.tiles() == old(map).tiles(),
            forall|j: int| 0 <= j < palette@.len() ==> (#[trigger] palette@[j]).valid(),
            forall|k: int|
                0 <= k < voxels@.len() ==> (#[trigger] voxels@[k]).i < palette@.len() && voxel_fits(
                    voxels@[k],
                    deph as int,
                ),
        decreases voxels@.len() - i,
    {
        let v = voxels[i];
        assert(voxels@[i as int] == v);
        proof {
            use_type_invariant(&*map);
        }
        let pos = voxel_position(v, deph);
        let color = palette[v.i as usize];
        proof {
            lemma_inserted_frame(map.tree(), pos, deph as int, color);
        }
        let _ = map.insert_value(pos, deph, color);
        i = i + 1;
    }
}

/// Loading writes every voxel. Loading no voxel leaves the tree as it is,
/// loading `n` voxels is loading the first `n - 1` and then writing the
/// last one at its point and depth in its palette colour, the tree stays
/// well formed at the same root depth, and afterwards a lookup at the point
/// of every loaded voxel finds a solid tile.
pub proof fn lemma_loaded_covers(
    t: Tile,
    voxels: Seq<Voxel>,
    palette: Seq<Rgb>,
    deph: int,
    n: int,
)
    requires
        t.wf(),
        MIN_DEPTH <= deph <= t.d,
        0 <= n <= voxels.len(),
        forall|j: int| 0 <= j < palette.len() ==> (#[trigger] palette[j]).valid(),
        forall|k: int| 0 <= k < voxels.len() ==> (#[trigger] voxels[k]).i < palette.len(),
    ensures
        loaded(t, voxels, palette, deph, 0) == t,
        n >= 1 ==> loaded(t, voxels, palette, deph, n) == loaded(t, voxels, palette, deph, n - 1).inserted(
            voxel_point(voxels[n - 1], deph),
            deph,
            palette[voxels[n - 1].i as int],
        ),
        loaded(t, voxels, palette, deph, n).wf(),
        loaded(t, voxels, palette, deph, n).d == t.d,
        forall|k: int|
            0 <= k < n ==> (#[trigger] loaded(t, voxels, palette, deph, n).lookup(
                voxel_point(voxels[k], deph),
            )) is Some,
        n >= 1 ==> {
            let v = voxels[n - 1];
            let before = loaded(t, voxels, palette, deph, n - 1).lookup(voxel_point(v, deph));
            let after = loaded(t, voxels, palette, deph, n).lookup(voxel_point(v, deph));
            (before is None || before->0.d <= deph) ==> after->0.d == deph && after->0.color
                == palette[v.i as int]
        },
    decreases n,
{
    if n >= 1 {
        let prev = loaded(t, voxels, palette, deph, n - 1);
        lemma_loaded_covers(t, voxels, palette, deph, n - 1);
        let v = voxels[n - 1];
        let c = palette[v.i as int];
        let p = voxel_point(v, deph);
        lemma_inserted_wf(prev, p, deph, c);
        lemma_inserted_frame(prev, p, deph, c);
        lemma_lookup_after_insert(prev, p, deph, c);
        assert forall|k: int| 0 <= k < n implies (#[trigger] loaded(t, voxels, palette, deph, n).lookup(
            voxel_point(voxels[k], deph),
        )) is Some by {
            if k < n - 1 {
                lemma_insert_keeps_covered(prev, p, voxel_point(voxels[k], deph), deph, c);
            }
        }
    }
}

} // verus!
