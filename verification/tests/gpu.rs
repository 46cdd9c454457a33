use bevox::address::UVec3;
use bevox::contree::Contree;
use bevox::dense::DenseVolume;
use bevox::gpu::{pack_voxels, unpack_voxel, GpuNode, GpuVolume};
use bevox::material::MaterialId;
use bevox::node::Node;

#[test]
fn gpu_node_is_sixteen_bytes() {
    assert_eq!(size_of::<GpuNode>(), 16);
}

#[test]
fn a_mask_survives_the_split_into_halves() {
    let node = Node::subdivided(0xDEAD_BEEF_1234_5678, 42);
    let gpu = GpuNode::from(node);
    assert_eq!(gpu.mask_lo, 0x1234_5678);
    assert_eq!(gpu.mask_hi, 0xDEAD_BEEF);
    assert_eq!(gpu.child_base, 42);
    assert_eq!(
        (gpu.mask_hi as u64) << 32 | gpu.mask_lo as u64,
        0xDEAD_BEEF_1234_5678
    );
}

#[test]
fn the_top_and_bottom_mask_bits_both_survive() {
    let node = Node::subdivided(1u64 << 63 | 1, 0);
    let gpu = GpuNode::from(node);
    assert_eq!(gpu.mask_lo, 1);
    assert_eq!(gpu.mask_hi, 1 << 31);
}

#[test]
fn voxels_pack_four_to_a_word_and_unpack_again() {
    let bytes: Vec<u8> = (0..10u8).map(|i| i * 7 + 1).collect();
    let packed = pack_voxels(&bytes);
    assert_eq!(packed.len(), 3, "10 bytes need 3 words");
    for (i, b) in bytes.iter().enumerate() {
        assert_eq!(unpack_voxel(&packed, i), *b, "byte {i}");
    }
}

#[test]
fn packing_an_empty_slice_yields_no_words() {
    assert!(pack_voxels(&[]).is_empty());
}

#[test]
fn a_volume_converts_with_its_arena_intact() {
    let mut dense = DenseVolume::new(16).unwrap();
    dense.set(UVec3::new(3, 4, 5), MaterialId(9));
    dense.set(UVec3::new(9, 1, 2), MaterialId(4));
    let tree = Contree::from_dense(&dense);
    let gpu = GpuVolume::from_contree(&tree);

    assert_eq!(gpu.depth, tree.depth());
    assert_eq!(gpu.nodes.len(), tree.arena().nodes().len());
    assert_eq!(gpu.root, GpuNode::from(tree.root()));
    // Every arena node survived the conversion.
    for (i, n) in tree.arena().nodes().iter().enumerate() {
        assert_eq!(gpu.nodes[i], GpuNode::from(*n), "node {i}");
    }
    // Every voxel byte is recoverable from the packed words.
    for (i, b) in tree.arena().voxels().iter().enumerate() {
        assert_eq!(unpack_voxel(&gpu.voxels, i), *b, "voxel {i}");
    }
}

#[test]
fn byte_views_have_the_expected_lengths() {
    let tree = Contree::from_dense(&DenseVolume::new(16).unwrap());
    let gpu = GpuVolume::from_contree(&tree);
    assert_eq!(gpu.node_bytes().len(), gpu.nodes.len() * 16);
    assert_eq!(gpu.voxel_bytes().len(), gpu.voxels.len() * 4);
}

#[test]
fn buffer_layout_puts_the_root_first_and_shifts_the_arena_by_one() {
    let mut dense = DenseVolume::new(16).unwrap();
    dense.set(UVec3::new(1, 1, 1), MaterialId(2));
    let tree = Contree::from_dense(&dense);
    let gpu = GpuVolume::from_contree(&tree);
    let buffer = gpu.buffer_nodes();

    assert_eq!(buffer.len(), gpu.nodes.len() + 1);
    assert_eq!(buffer[0], gpu.root);
    for (i, n) in gpu.nodes.iter().enumerate() {
        assert_eq!(buffer[i + 1], *n, "arena slot {i} should sit at index {}", i + 1);
    }
}
