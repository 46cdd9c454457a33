use bevox::address::UVec3;
use bevox::material::MaterialId;
use bevox::vox::{fitting_extent, import_model, load_vox, VoxColor, VoxData, VoxError, VoxModel, VoxVoxel};

/// `i` here is the in-memory palette index, which is already one less than the
/// number stored in the file.
fn model(size: (u32, u32, u32), voxels: &[(u8, u8, u8, u8)]) -> VoxData {
    VoxData {
        models: vec![VoxModel {
            size: UVec3::new(size.0, size.1, size.2),
            voxels: voxels.iter().map(|(x, y, z, i)| VoxVoxel { x: *x, y: *y, z: *z, i: *i }).collect(),
        }],
        // Palette entry k is identifiable by its red channel being k.
        palette: (0..256).map(|i| VoxColor { r: i as u8, g: 0, b: 0, a: 255 }).collect(),
    }
}

#[test]
fn extents_round_up_to_powers_of_four() {
    assert_eq!(fitting_extent(1), Some(4));
    assert_eq!(fitting_extent(4), Some(4));
    assert_eq!(fitting_extent(5), Some(16));
    assert_eq!(fitting_extent(64), Some(64));
    assert_eq!(fitting_extent(126), Some(256));
    assert_eq!(fitting_extent(1024), Some(1024));
    assert_eq!(fitting_extent(1025), None);
}

#[test]
fn a_file_with_no_models_is_an_error() {
    let mut data = model((4, 4, 4), &[]);
    data.models.clear();
    assert_eq!(import_model(&data, 0).unwrap_err(), VoxError::NoModels);
}

#[test]
fn asking_for_a_model_beyond_the_file_is_an_error() {
    let data = model((4, 4, 4), &[]);
    assert_eq!(
        import_model(&data, 3).unwrap_err(),
        VoxError::ModelOutOfRange { index: 3, count: 1 }
    );
}

#[test]
fn z_up_becomes_y_up() {
    // A voxel high on MagicaVoxel's z axis must land high on our y.
    let data = model((4, 4, 4), &[(1, 2, 3, 6)]);
    let (volume, _) = import_model(&data, 0).unwrap();
    assert_eq!(volume.get(UVec3::new(1, 3, 2)), MaterialId(7));
    assert_eq!(volume.get(UVec3::new(1, 2, 3)), MaterialId::empty());
}

/// dot_vox stores palette indices zero-based, and our zero means empty, so a
/// direct copy would delete every voxel using the first palette colour.
#[test]
fn palette_index_zero_is_a_real_voxel_not_empty_space() {
    let data = model((4, 4, 4), &[(0, 0, 0, 0)]);
    let (volume, materials) = import_model(&data, 0).unwrap();

    let id = volume.get(UVec3::new(0, 0, 0));
    assert_ne!(id, MaterialId::empty(), "the voxel vanished");
    assert_eq!(id, MaterialId(1));
    // Slot 1 holds dot_vox palette entry 0, whose red channel is 0.
    assert_eq!(materials.get(id).color[0], 0);
}

#[test]
fn the_volume_is_padded_to_a_power_of_four() {
    let data = model((5, 5, 5), &[(4, 4, 4, 1)]);
    let (volume, _) = import_model(&data, 0).unwrap();
    assert_eq!(volume.extent(), 16);
    assert_eq!(volume.get(UVec3::new(4, 4, 4)), MaterialId(2));
}

#[test]
fn the_palette_is_carried_across_with_the_index_shift() {
    let data = model((4, 4, 4), &[(0, 0, 0, 5)]);
    let (_, materials) = import_model(&data, 0).unwrap();
    // dot_vox index 5 becomes our MaterialId(6), holding palette entry 5.
    assert_eq!(materials.get(MaterialId(6)).color[0], 5);
    assert_eq!(materials.get(MaterialId::empty()).color[3], 0, "slot 0 stays empty");
}

#[test]
fn an_oversized_model_is_rejected() {
    let data = model((2000, 4, 4), &[]);
    assert_eq!(import_model(&data, 0).unwrap_err(), VoxError::TooLarge { extent: 2000 });
}

/// A chunk of a file: its name, the lengths of its own bytes and of the chunks
/// inside it, and those bytes.
fn chunk(name: &str, content: &[u8], inside: &[u8]) -> Vec<u8> {
    let mut out = name.as_bytes().to_vec();
    out.extend((content.len() as u32).to_le_bytes());
    out.extend((inside.len() as u32).to_le_bytes());
    out.extend(content);
    out.extend(inside);
    out
}

/// A file with one model in it.
fn file(size: [u32; 3], voxels: &[[u8; 4]]) -> Vec<u8> {
    let size: Vec<u8> = size.iter().flat_map(|s| s.to_le_bytes()).collect();
    let mut listed = (voxels.len() as u32).to_le_bytes().to_vec();
    listed.extend(voxels.iter().flatten());
    let mut chunks = chunk("SIZE", &size, &[]);
    chunks.extend(chunk("XYZI", &listed, &[]));
    let mut out = b"VOX ".to_vec();
    out.extend(150u32.to_le_bytes());
    out.extend(chunk("MAIN", &[], &chunks));
    out
}

/// A file is parsed into a volume: z up becomes y up, and the palette index is the
/// one in the file.
#[test]
fn a_file_of_bytes_loads() {
    let bytes = file([5, 3, 2], &[[4, 1, 0, 9], [0, 2, 1, 1]]);
    let (volume, materials) = load_vox(&bytes).unwrap();
    assert_eq!(volume.extent(), 16);
    assert_eq!(volume.get(UVec3::new(4, 0, 1)), MaterialId(9));
    assert_eq!(volume.get(UVec3::new(0, 1, 2)), MaterialId(1));
    assert!(volume.get(UVec3::new(4, 1, 0)).is_empty());
    assert!(materials.len() > 9, "the palette did not come along");
}

#[test]
fn bytes_that_are_no_file_are_an_error() {
    assert_eq!(load_vox(b"not a model").err(), Some(VoxError::ReadFailed));
    assert_eq!(load_vox(&[]).err(), Some(VoxError::ReadFailed));
}

/// A file may parse and still hold no model.
#[test]
fn a_file_without_models_is_an_error() {
    let mut bytes = b"VOX ".to_vec();
    bytes.extend(150u32.to_le_bytes());
    bytes.extend(chunk("MAIN", &[], &[]));
    assert_eq!(load_vox(&bytes).err(), Some(VoxError::NoModels));
}
