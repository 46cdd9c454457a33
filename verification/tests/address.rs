use bevox::address::{ChunkCoord, UVec3, VoxelPos};

#[test]
fn origin_positions_share_a_chunk() {
    let a = VoxelPos::at_origin(UVec3::new(1, 2, 3));
    let b = VoxelPos::at_origin(UVec3::new(9, 9, 9));
    assert_eq!(a.chunk, b.chunk);
    assert_eq!(a.chunk, ChunkCoord::origin());
}
