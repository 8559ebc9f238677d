use voxmap::color::{Rgb, CHANNEL_FULL};
use voxmap::geometry::{full_width, half_width, slot_corner, slot_index, FRACTION_BITS};
use voxmap::map::{ChunkData, GpuTileData, UNFILLED};

fn fx(v: u64) -> u64 {
    v << FRACTION_BITS
}

fn pt(x: u64, y: u64, z: u64) -> (u64, u64, u64) {
    (fx(x), fx(y), fx(z))
}

const RED: Rgb = Rgb { r: CHANNEL_FULL, g: 0, b: 0 };
const GREEN: Rgb = Rgb { r: 0, g: CHANNEL_FULL, b: 0 };
const BLUE: Rgb = Rgb { r: 0, g: 0, b: CHANNEL_FULL };

fn serialized(map: &mut ChunkData) -> Vec<GpuTileData> {
    assert!(map.tile_count().is_some());
    map.serialize();
    map.gpu_tiles().clone()
}

fn check_links_forward(tiles: &[GpuTileData]) {
    for (k, t) in tiles.iter().enumerate() {
        for &l in t.children.iter() {
            if l != 0 {
                let l = l as usize;
                assert!(k < l && l < tiles.len());
                assert_eq!(tiles[l].d, t.d - 1);
            }
        }
    }
}

#[test]
fn widths_are_powers_of_two() {
    assert_eq!(full_width(0), 1u64 << 32);
    assert_eq!(full_width(3), 8u64 << 32);
    assert_eq!(full_width(-32), 1);
    assert_eq!(half_width(3), 4u64 << 32);
    assert_eq!(half_width(-31), 1);
}

#[test]
fn slots_and_corners() {
    let corner = pt(8, 0, 8);
    let w = half_width(4);
    assert_eq!(w, fx(8));
    assert_eq!(slot_index(corner, 4, w, pt(9, 1, 9)), 0);
    assert_eq!(slot_index(corner, 4, w, pt(16, 1, 9)), 1);
    assert_eq!(slot_index(corner, 4, w, pt(9, 8, 9)), 2);
    assert_eq!(slot_index(corner, 4, w, pt(9, 1, 16)), 4);
    assert_eq!(slot_index(corner, 4, w, pt(20, 20, 20)), 7);
    assert_eq!(slot_corner(corner, 4, w, 0), pt(8, 0, 8));
    assert_eq!(slot_corner(corner, 4, w, 5), pt(16, 0, 16));
    assert_eq!(slot_corner(corner, 4, w, 6), pt(8, 8, 16));
}

#[test]
fn new_chunk_is_empty() {
    let mut map = ChunkData::new(3);
    assert_eq!(map.depth(), 3);
    assert!(map.gpu_tiles().is_empty());
    assert!(map._retrieve_value(pt(1, 1, 1)).is_err());
    assert_eq!(map.tile_count(), Some(1));
    let tiles = serialized(&mut map);
    assert_eq!(tiles.len(), 1);
    assert_eq!(tiles[0].filled, UNFILLED);
    assert_eq!(tiles[0].d, 3);
    assert_eq!(tiles[0].children, [0; 8]);
}

#[test]
fn lookup_after_insert_finds_the_written_voxel() {
    let mut map = ChunkData::new(3);
    assert_eq!(map.insert_value(pt(5, 2, 6), 0, RED), Ok(()));
    let t = map._retrieve_value(pt(5, 2, 6)).unwrap();
    assert_eq!(t.d, 0);
    assert_eq!(t.filled, 0);
    assert_eq!(t.color, RED);
    assert_eq!(t.position, pt(5, 2, 6));
    // A point inside the same unit cube finds the same tile.
    let inside = (fx(5) + 7, fx(2) + (1 << 31), fx(6) + 1);
    assert_eq!(map._retrieve_value(inside).unwrap().color, RED);
    // A neighbouring cube was never written.
    assert!(map._retrieve_value(pt(4, 2, 6)).is_err());
}

#[test]
fn path_tiles_remember_the_deepest_write() {
    let mut map = ChunkData::new(2);
    map.insert_value(pt(0, 0, 0), 0, RED).unwrap();
    let tiles = serialized(&mut map);
    // Root, one tile at depth 1, one at depth 0.
    assert_eq!(tiles.len(), 3);
    assert_eq!(tiles[0].filled, 0);
    assert_eq!(tiles[0].color, 0xff);
    assert_eq!(tiles[0].children, [1, 0, 0, 0, 0, 0, 0, 0]);
    assert_eq!(tiles[1].d, 1);
    assert_eq!(tiles[1].filled, 0);
    assert_eq!(tiles[1].children, [2, 0, 0, 0, 0, 0, 0, 0]);
    assert_eq!(tiles[2].d, 0);
    assert_eq!(tiles[2].filled, 0);
    assert_eq!(tiles[2].children, [0; 8]);
    // A later write at the same depth does not recolour the path.
    map.insert_value(pt(3, 3, 3), 0, BLUE).unwrap();
    let tiles = serialized(&mut map);
    assert_eq!(tiles[0].color, 0xff);
    assert_eq!(tiles[0].children[7], 3);
    check_links_forward(&tiles);
}

#[test]
fn coarser_solid_tile_keeps_answering() {
    let mut map = ChunkData::new(3);
    map.insert_value(pt(4, 4, 4), 2, GREEN).unwrap();
    map.insert_value(pt(5, 5, 5), 0, RED).unwrap();
    let t = map._retrieve_value(pt(5, 5, 5)).unwrap();
    assert_eq!(t.d, 2);
    assert_eq!(t.color, GREEN);
    assert_eq!(t.position, pt(4, 4, 4));
    // Elsewhere the finer write is found.
    map.insert_value(pt(1, 1, 1), 0, RED).unwrap();
    let t = map._retrieve_value(pt(1, 1, 1)).unwrap();
    assert_eq!((t.d, t.color), (0, RED));
}

#[test]
fn writing_twice_changes_nothing() {
    let mut once = ChunkData::new(3);
    once.insert_value(pt(2, 7, 1), 0, BLUE).unwrap();
    let mut twice = once.clone();
    twice.insert_value(pt(2, 7, 1), 0, BLUE).unwrap();
    let a = serialized(&mut once);
    let b = serialized(&mut twice);
    assert_eq!(a.len(), b.len());
    for (x, y) in a.iter().zip(b.iter()) {
        assert_eq!((x.filled, x.color, x.children, x.d), (y.filled, y.color, y.children, y.d));
    }
}

#[test]
fn writes_never_uncover_points() {
    let mut map = ChunkData::new(3);
    map.insert_value(pt(1, 1, 1), 0, RED).unwrap();
    for (x, y, z) in [(0, 0, 0), (7, 7, 7), (1, 1, 2), (6, 0, 3)] {
        map.insert_value(pt(x, y, z), 1, GREEN).unwrap();
        assert!(map._retrieve_value(pt(1, 1, 1)).is_ok());
    }
}

#[test]
fn negative_depths_use_the_fraction_bits() {
    let mut map = ChunkData::new(0);
    let half = 1u64 << 31;
    map.insert_value((half, 0, 0), -1, RED).unwrap();
    let t = map._retrieve_value((half + 5, 3, 7)).unwrap();
    assert_eq!(t.d, -1);
    assert_eq!(t.position, (half, 0, 0));
    assert!(map._retrieve_value((0, 0, 0)).is_err());
}

#[test]
fn merging_eight_solid_children() {
    let mut map = ChunkData::new(2);
    let colors = [10u8, 20, 30, 40, 50, 60, 70, 81];
    let mut i = 0;
    for z in 0..2 {
        for y in 0..2 {
            for x in 0..2 {
                map.insert_value(pt(x, y, z), 0, Rgb::from_bytes(colors[i], 0, 255)).unwrap();
                i += 1;
            }
        }
    }
    assert_eq!(map.tile_count(), Some(10));
    map.optimize(None);
    let t = map._retrieve_value(pt(1, 0, 1)).unwrap();
    assert_eq!(t.d, 1);
    assert_eq!(t.filled, 1);
    // (10 + 20 + ... + 81) / 8 = 361 / 8 bytes, in steps of 2^-16 of a byte.
    assert_eq!(t.color, Rgb { r: 361 * 65536 / 8, g: 0, b: CHANNEL_FULL });
    assert_eq!(t.color.pack(), 45 + (255 << 16));
    assert!(t.children.iter().all(|c| c.is_none()));
    assert_eq!(map.tile_count(), Some(2));
    // Merging again changes nothing.
    let before = serialized(&mut map);
    map.optimize(None);
    let after = serialized(&mut map);
    assert_eq!(before.len(), after.len());
    assert_eq!(after[1].color, 45 + (255 << 16));
}

#[test]
fn merging_keeps_partial_tiles_without_a_resolution() {
    let mut map = ChunkData::new(2);
    map.insert_value(pt(0, 0, 0), 0, RED).unwrap();
    map.insert_value(pt(1, 1, 1), 0, BLUE).unwrap();
    map.optimize(None);
    assert_eq!(map._retrieve_value(pt(0, 0, 0)).unwrap().d, 0);
    assert!(map._retrieve_value(pt(1, 0, 0)).is_err());
    assert_eq!(map.tile_count(), Some(4));
}

#[test]
fn merging_with_a_resolution_fills_coarse_tiles() {
    let mut map = ChunkData::new(2);
    map.insert_value(pt(0, 0, 0), 0, Rgb::from_bytes(100, 0, 0)).unwrap();
    map.insert_value(pt(1, 1, 1), 0, Rgb::from_bytes(201, 0, 0)).unwrap();
    map.optimize(Some(1));
    let t = map._retrieve_value(pt(1, 0, 0)).unwrap();
    assert_eq!(t.d, 1);
    assert_eq!(t.color, Rgb { r: 301 * 65536 / 2, g: 0, b: 0 });
    assert_eq!(t.color.pack(), 150);
    assert_eq!(map.tile_count(), Some(2));
}

#[test]
fn solid_tiles_drop_their_children_when_merged() {
    let mut map = ChunkData::new(3);
    map.insert_value(pt(1, 1, 1), 0, RED).unwrap();
    map.insert_value(pt(0, 0, 0), 1, GREEN).unwrap();
    // The depth-1 tile is solid but still holds the depth-0 child.
    let before = serialized(&mut map);
    assert_eq!(before.len(), 3);
    map.optimize(None);
    let t = map._retrieve_value(pt(1, 1, 1)).unwrap();
    assert_eq!((t.d, t.color), (1, GREEN));
    assert!(t.children.iter().all(|c| c.is_none()));
}

#[test]
fn serialized_links_point_forward() {
    let mut map = ChunkData::new(4);
    for (x, y, z, d) in [(0, 0, 0, 0), (15, 15, 15, 0), (3, 9, 12, 1), (8, 8, 8, 2), (7, 0, 15, 0)] {
        map.insert_value(pt(x, y, z), d, RED).unwrap();
    }
    let count = map.tile_count().unwrap();
    let tiles = serialized(&mut map);
    assert_eq!(tiles.len(), count as usize);
    assert_eq!(tiles[0].d, 4);
    check_links_forward(&tiles);
}

#[test]
fn packing_colours() {
    assert_eq!(Rgb::from_bytes(1, 2, 3).pack(), 0x030201);
    assert_eq!(Rgb::from_bytes(1, 2, 3), Rgb { r: 65536, g: 131072, b: 196608 });
    assert_eq!(Rgb { r: CHANNEL_FULL, g: CHANNEL_FULL, b: CHANNEL_FULL }.pack(), 0xffffff);
    assert_eq!(Rgb { r: 65535, g: 65536, b: 131071 }.pack(), 0x010100);
    assert_eq!(Rgb::zero().pack(), 0);
    assert_eq!(voxmap::color::mean(30, 31, 0, 2), Rgb { r: 15, g: 15, b: 0 });
}

#[test]
fn merged_colours_keep_precision_below_a_byte() {
    // Intensities 0.003 and 0.005: bytes 0 and 1, mean 0.004, byte 1.
    let a = Rgb { r: 50_135, g: 0, b: 0 };
    let b = Rgb { r: 83_558, g: 0, b: 0 };
    assert_eq!((a.pack(), b.pack()), (0, 1));
    let mut map = ChunkData::new(1);
    map.insert_value(pt(0, 0, 0), 0, a).unwrap();
    map.insert_value(pt(1, 0, 0), 0, b).unwrap();
    map.optimize(Some(1));
    let t = map._retrieve_value(pt(0, 0, 0)).unwrap();
    assert_eq!(t.color.r, 66_846);
    assert_eq!(t.color.pack(), 1);
}

#[test]
fn found_tiles_hold_the_point() {
    let mut map = ChunkData::new(4);
    map.insert_value(pt(9, 3, 14), 2, BLUE).unwrap();
    let q = (fx(10) + 99, fx(1), fx(15) + 5);
    let t = map._retrieve_value(q).unwrap();
    let size = full_width(t.d);
    assert_eq!(t.d, 2);
    assert_eq!(t.position, pt(8, 0, 12));
    assert!(t.position.0 <= q.0 && q.0 < t.position.0 + size);
    assert!(t.position.1 <= q.1 && q.1 < t.position.1 + size);
    assert!(t.position.2 <= q.2 && q.2 < t.position.2 + size);
}

#[test]
fn merging_with_a_resolution_never_uncovers() {
    let mut map = ChunkData::new(3);
    let points = [(0, 0, 0), (5, 1, 7), (7, 7, 7), (2, 6, 3)];
    for (x, y, z) in points {
        map.insert_value(pt(x, y, z), 0, GREEN).unwrap();
    }
    map.optimize(Some(1));
    for (x, y, z) in points {
        assert!(map._retrieve_value(pt(x, y, z)).is_ok());
    }
}

#[test]
fn writes_elsewhere_leave_lookups_alone() {
    let mut map = ChunkData::new(3);
    map.insert_value(pt(1, 1, 1), 1, RED).unwrap();
    map.insert_value(pt(6, 6, 6), 1, GREEN).unwrap();
    map.insert_value(pt(3, 0, 0), 0, BLUE).unwrap();
    let t = map._retrieve_value(pt(1, 0, 1)).unwrap();
    assert_eq!((t.d, t.color, t.position), (1, RED, pt(0, 0, 0)));
    let t = map._retrieve_value(pt(7, 6, 7)).unwrap();
    assert_eq!((t.d, t.color, t.position), (1, GREEN, pt(6, 6, 6)));
}
