use voxmap::color::{Rgb, CHANNEL_FULL};
use voxmap::map::ChunkData;
use voxmap::model::{insert_voxels, model_depth, voxel_position, voxels_fit, Voxel};

fn v(x: u8, y: u8, z: u8, i: u8) -> Voxel {
    Voxel { x, y, z, i }
}

#[test]
fn depth_of_a_model() {
    assert_eq!(model_depth(&vec![v(5, 1, 2, 0)], 0), 3);
    assert_eq!(model_depth(&vec![v(1, 8, 2, 0), v(3, 0, 0, 0)], 0), 3);
    assert_eq!(model_depth(&vec![v(0, 0, 9, 0)], 0), 4);
    assert_eq!(model_depth(&vec![v(1, 0, 0, 0)], 0), 0);
    assert_eq!(model_depth(&vec![v(255, 0, 0, 0)], 0), 8);
    assert_eq!(model_depth(&vec![v(5, 1, 2, 0)], -3), 0);
    assert_eq!(model_depth(&vec![v(5, 1, 2, 0)], 2), 5);
}

#[test]
fn depth_of_an_empty_model() {
    assert_eq!(model_depth(&vec![], 0), i32::MIN);
    assert_eq!(model_depth(&vec![v(0, 0, 0, 3)], 1), i32::MIN);
}

#[test]
fn voxel_points_swap_y_and_z() {
    assert_eq!(voxel_position(v(1, 2, 3, 0), 0), (1 << 32, 3 << 32, 2 << 32));
    assert_eq!(voxel_position(v(1, 2, 3, 0), -1), (1 << 31, 3 << 31, 2 << 31));
    assert_eq!(voxel_position(v(4, 0, 0, 0), 2), (16 << 32, 0, 0));
}

#[test]
fn fitting_voxels() {
    let voxels = vec![v(1, 2, 3, 4)];
    let five = vec![Rgb::zero(); 5];
    let four = vec![Rgb::zero(); 4];
    let one = vec![Rgb::zero(); 1];
    assert!(voxels_fit(&voxels, &five, 0));
    assert!(!voxels_fit(&voxels, &four, 0));
    assert!(voxels_fit(&voxels, &five, 29));
    assert!(!voxels_fit(&vec![v(2, 0, 0, 0)], &one, 31));
    assert!(voxels_fit(&vec![v(1, 0, 0, 0)], &one, 31));
    let too_bright = vec![Rgb { r: CHANNEL_FULL + 1, g: 0, b: 0 }];
    assert!(!voxels_fit(&vec![v(0, 0, 0, 0)], &too_bright, 0));
}

#[test]
fn loading_voxels_writes_them_in_palette_colours() {
    let palette = vec![Rgb::from_bytes(1, 2, 3), Rgb::from_bytes(9, 8, 7)];
    let voxels = vec![v(1, 2, 3, 0), v(3, 3, 0, 1), v(1, 2, 3, 1)];
    let d = model_depth(&voxels, 0);
    assert_eq!(d, 2);
    assert!(voxels_fit(&voxels, &palette, 0));
    let mut map = ChunkData::new(d);
    insert_voxels(&mut map, &voxels, &palette, 0);
    // The last write to a cell wins.
    let t = map._retrieve_value(voxel_position(voxels[2], 0)).unwrap();
    assert_eq!(t.color, palette[1]);
    let t = map._retrieve_value(voxel_position(voxels[1], 0)).unwrap();
    assert_eq!(t.color, palette[1]);
    assert_eq!(t.position, (3 << 32, 0, 3 << 32));
    assert!(map._retrieve_value((0, 0, 0)).is_err());
}
