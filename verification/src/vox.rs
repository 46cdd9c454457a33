//! MagicaVoxel import.
//!
//! Three conventions differ from ours and all are handled here rather than at
//! call sites: MagicaVoxel is Z-up where we are Y-up, its model sizes are
//! arbitrary where our volumes are powers of four, and its in-memory palette
//! indices are zero-based where ours reserve zero for empty space.

use crate::address::UVec3;
use crate::dense::{is_extent, DenseVolume};
use crate::material::{
    empty_material, Material, MaterialId, MaterialTable, DEFAULT_DENSITY, DEFAULT_FRICTION,
    DEFAULT_RESTITUTION, DEFAULT_STRENGTH,
};
use crate::tree::extent_of;
use vstd::prelude::*;

verus! {

/// A voxel of a model, Z-up, with a zero-based palette index.
#[derive(Clone, Copy, PartialEq, Eq, Structural, Debug)]
pub struct VoxVoxel {
    pub x: u8,
    pub y: u8,
    pub z: u8,
    pub i: u8,
}

/// A palette entry.
#[derive(Clone, Copy, PartialEq, Eq, Structural, Debug)]
pub struct VoxColor {
    pub r: u8,
    pub g: u8,
    pub b: u8,
    pub a: u8,
}

/// A model, Z-up, of the size it declares.
#[derive(Clone, PartialEq, Eq, Debug)]
pub struct VoxModel {
    pub size: UVec3,
    pub voxels: Vec<VoxVoxel>,
}

/// What import reads of a file.
#[derive(Clone, PartialEq, Eq, Debug)]
pub struct VoxData {
    pub models: Vec<VoxModel>,
    pub palette: Vec<VoxColor>,
}

/// Why a model could not be imported.
#[derive(Clone, Copy, PartialEq, Eq, Debug)]
pub enum VoxError {
    /// The file could not be read or parsed at all.
    ReadFailed,
    NoModels,
    ModelOutOfRange { index: usize, count: usize },
    /// Larger than the biggest volume the engine addresses.
    TooLarge { extent: u32 },
}

impl View for VoxModel {
    type V = (UVec3, Seq<VoxVoxel>);

    open spec fn view(&self) -> (UVec3, Seq<VoxVoxel>) {
        (self.size, self.voxels@)
    }
}

impl View for VoxData {
    type V = (Seq<(UVec3, Seq<VoxVoxel>)>, Seq<VoxColor>);

    open spec fn view(&self) -> (Seq<(UVec3, Seq<VoxVoxel>)>, Seq<VoxColor>) {
        (self.models@.map_values(|m: VoxModel| m@), self.palette@)
    }
}

/// What `dot_vox::load_bytes` makes of a file's bytes: the models, in file
/// order, each with its declared size and its voxels, and the palette, or nothing
/// where the bytes are no `.vox` file.
pub uninterp spec fn vox_file(
    bytes: Seq<u8>,
) -> Option<(Seq<(UVec3, Seq<VoxVoxel>)>, Seq<VoxColor>)>;

/// `dot_vox::load_bytes`, with the parts import reads carried over field by
/// field. The result is the parse of the bytes, whatever the bytes are. The parser
/// calls itself once for each chunk that lies in another, so how deep chunks may
/// nest is up to the machine's stack.
#[verifier::external_body]
fn parse_vox(bytes: &[u8]) -> (data: Option<VoxData>)
    ensures
        vox_file(bytes@) == match data {
            Some(data) => Some(data@),
            None => None,
        },
{
    let data = dot_vox::load_bytes(bytes).ok()?;
    let voxel = |v: &dot_vox::Voxel| VoxVoxel { x: v.x, y: v.y, z: v.z, i: v.i };
    let model = |m: &dot_vox::Model| VoxModel {
        size: UVec3 { x: m.size.x, y: m.size.y, z: m.size.z },
        voxels: m.voxels.iter().map(voxel).collect(),
    };
    let color = |c: &dot_vox::Color| VoxColor { r: c.r, g: c.g, b: c.b, a: c.a };
    Some(
        VoxData {
            models: data.models.iter().map(model).collect(),
            palette: data.palette.iter().map(color).collect(),
        },
    )
}

/// Whether an extent is the smallest legal one that fits `size`.
pub open spec fn fits_size(extent: int, size: int) -> bool {
    is_extent(extent) && size <= extent && (extent == 4 || extent < 4 * size)
}

/// Smallest power of four that fits `size`, or `None` beyond 1024.
pub fn fitting_extent(size: u32) -> (extent: Option<u32>)
    ensures
        extent is None <==> size > 1024,
        extent matches Some(e) ==> fits_size(e as int, size as int) && 4 <= e <= 1024,
        extent matches Some(e) ==> {
            &&& e == 4 || e == 16 || e == 64 || e == 256 || e == 1024
            &&& size <= e
            &&& e > 4 ==> e / 4 < size
        },
{
    let mut extent: u32 = 4;
    let ghost mut level: int = 0;
    proof {
        reveal_with_fuel(extent_of, 2);
    }
    while extent < size
        invariant
            4 <= extent <= 1024,
            0 <= level,
            extent == extent_of(level),
            extent == 4 || extent < 4 * size,
            extent == 4 || extent == 16 || extent == 64 || extent == 256 || extent == 1024,
        decreases 1024 - extent,
    {
        if extent == 1024 {
            return None;
        }
        extent = extent * 4;
        proof {
            level = level + 1;
        }
    }
    assert(is_extent(extent as int));
    Some(extent)
}

/// Where a model's voxel lands: our axes are Y-up, so its y and z swap.
pub open spec fn lands(v: VoxVoxel) -> UVec3 {
    UVec3 { x: v.x as u32, y: v.z as u32, z: v.y as u32 }
}

/// The material a model's voxels put at a position: the last one there wins, with
/// its palette index shifted past the reserved slot.
pub open spec fn model_at(voxels: Seq<VoxVoxel>, p: UVec3) -> MaterialId
    decreases voxels.len(),
{
    if voxels.len() == 0 {
        MaterialId(0)
    } else if lands(voxels.last()) == p {
        let i = voxels.last().i;
        MaterialId(
            if i == 255 {
                255
            } else {
                (i + 1) as u8
            },
        )
    } else {
        model_at(voxels.drop_last(), p)
    }
}

/// The material a palette colour becomes: what a palette says nothing about
/// takes its default.
pub open spec fn palette_material(c: VoxColor) -> Material {
    Material {
        color: [c.r, c.g, c.b, c.a],
        density: DEFAULT_DENSITY,
        friction: DEFAULT_FRICTION,
        restitution: DEFAULT_RESTITUTION,
        strength: DEFAULT_STRENGTH,
    }
}

/// The table a palette becomes: the reserved slot, then at most 255 colours.
pub open spec fn palette_table(palette: Seq<VoxColor>) -> Seq<Material> {
    let n = if palette.len() > 255 {
        255
    } else {
        palette.len() as int
    };
    seq![empty_material()] + palette.take(n).map_values(|c: VoxColor| palette_material(c))
}

/// The longest side.
pub open spec fn longest(size: UVec3) -> int {
    vstd::math::max(vstd::math::max(size.x as int, size.y as int), size.z as int)
}

/// What importing a model of a file gives.
pub open spec fn imports(
    file: (Seq<(UVec3, Seq<VoxVoxel>)>, Seq<VoxColor>),
    index: int,
    result: Result<(DenseVolume, MaterialTable), VoxError>,
) -> bool {
    let (models, palette) = file;
    if models.len() == 0 {
        result matches Err(e) && e == VoxError::NoModels
    } else if index >= models.len() {
        result matches Err(e) && e == (VoxError::ModelOutOfRange {
            index: index as usize,
            count: models.len() as usize,
        })
    } else if longest(models[index].0) > 1024 {
        result matches Err(e) && e == (VoxError::TooLarge {
            extent: longest(models[index].0) as u32,
        })
    } else {
        &&& result matches Ok(imported)
        &&& fits_size(imported.0.side() as int, longest(models[index].0))
        &&& forall|p: UVec3|
            p.within(imported.0.side() as int) ==> #[trigger] imported.0.at(p) == model_at(
                models[index].1,
                p,
            )
        &&& imported.1.wf()
        &&& imported.1@ == palette_table(palette)
    }
}

/// Converts one model to a padded volume plus its palette.
pub fn import_model(data: &VoxData, index: usize) -> (result: Result<
    (DenseVolume, MaterialTable),
    VoxError,
>)
    ensures
        imports(data@, index as int, result),
        result is Ok <==> {
            &&& index < data.models@.len()
            &&& data.models@[index as int].size.x <= 1024
            &&& data.models@[index as int].size.y <= 1024
            &&& data.models@[index as int].size.z <= 1024
        },
        result matches Ok(imported) ==> {
            &&& imported.1@.len() == 1 + vstd::math::min(255, data.palette@.len() as int)
            &&& forall|i: int|
                0 <= i < 255 && i < data.palette@.len() ==> {
                    let made = #[trigger] imported.1@[i + 1];
                    &&& made.color@[0] == data.palette@[i].r
                    &&& made.color@[1] == data.palette@[i].g
                    &&& made.color@[2] == data.palette@[i].b
                    &&& made.color@[3] == data.palette@[i].a
                    &&& made.density == DEFAULT_DENSITY
                    &&& made.friction == DEFAULT_FRICTION
                    &&& made.restitution == DEFAULT_RESTITUTION
                    &&& made.strength == DEFAULT_STRENGTH
                }
        },
{
    proof {
        law_an_imported_palette_keeps_its_colours(data.palette@);
    }
    if data.models.len() == 0 {
        return Err(VoxError::NoModels);
    }
    if index >= data.models.len() {
        return Err(VoxError::ModelOutOfRange { index, count: data.models.len() });
    }
    let size = data.models[index].size;
    let wide: u32 = if size.x > size.y { size.x } else { size.y };
    let long: u32 = if wide > size.z { wide } else { size.z };
    let extent = match fitting_extent(long) {
        Some(extent) => extent,
        None => {
            return Err(VoxError::TooLarge { extent: long });
        },
    };
    proof {
        assert(extent * extent * extent <= 1024 * 1024 * 1024) by (nonlinear_arith)
            requires
                0 <= extent <= 1024,
        ;
    }
    let mut volume = DenseVolume::new(extent).unwrap();
    let ghost voxels = data.models@[index as int].voxels@;
    let total: usize = data.models[index].voxels.len();
    for k in 0..total
        invariant
            index < data.models@.len(),
            total == voxels.len(),
            voxels == data.models@[index as int].voxels@,
            volume.side() == extent,
            forall|p: UVec3|
                p.within(extent as int) ==> #[trigger] volume.at(p) == model_at(
                    voxels.take(k as int),
                    p,
                ),
    {
        let v = data.models[index].voxels[k];
        let ghost before = volume;
        proof {
            assert(voxels.take(k + 1).drop_last() =~= voxels.take(k as int));
            assert(voxels.take(k + 1).last() == v);
        }
        // Our axes are Y-up, MagicaVoxel's are Z-up, so its y and z swap.
        let p = UVec3::new(v.x as u32, v.z as u32, v.y as u32);
        // File data is untrusted: a malformed model can name a voxel outside the
        // size it declared, and that must not panic the importer.
        if p.x < extent && p.y < extent && p.z < extent {
            // The file's palette indices are zero-based in memory, ours reserve
            // zero for empty, so everything shifts up by one. Without this, every
            // voxel using the first palette colour would silently become empty
            // space.
            volume.set(p, MaterialId(v.i.saturating_add(1)));
        }
        proof {
            assert forall|q: UVec3| q.within(extent as int) implies #[trigger] volume.at(q)
                == model_at(voxels.take(k + 1), q) by {
                assert(before.at(q) == model_at(voxels.take(k as int), q));
            }
        }
    }
    assert(voxels.take(voxels.len() as int) =~= voxels);
    let mut materials = MaterialTable::new();
    let count: usize = if data.palette.len() > 255 { 255 } else { data.palette.len() };
    for k in 0..count
        invariant
            count <= 255,
            count <= data.palette@.len(),
            materials.wf(),
            materials@ == seq![empty_material()] + data.palette@.take(k as int).map_values(
                |c: VoxColor| palette_material(c),
            ),
    {
        let c = data.palette[k];
        let ghost before = materials@;
        let pushed = materials.push(
            Material {
                color: [c.r, c.g, c.b, c.a],
                density: DEFAULT_DENSITY,
                friction: DEFAULT_FRICTION,
                restitution: DEFAULT_RESTITUTION,
                strength: DEFAULT_STRENGTH,
            },
        );
        assert(materials@ =~= seq![empty_material()] + data.palette@.take(k + 1).map_values(
            |c: VoxColor| palette_material(c),
        ));
    }
    assert(data@.1 == data.palette@);
    Ok((volume, materials))
}

/// Reads the bytes of a `.vox` file and imports its first model.
pub fn load_vox(bytes: &[u8]) -> (result: Result<(DenseVolume, MaterialTable), VoxError>)
    ensures
        match vox_file(bytes@) {
            None => result matches Err(e) && e == VoxError::ReadFailed,
            Some(file) => imports(file, 0, result),
        },
{
    // A file that cannot be parsed and a file with no models are different
    // faults, and saying "contains no models" about the first sends the reader
    // looking in the wrong place.
    match parse_vox(bytes) {
        None => Err(VoxError::ReadFailed),
        Some(data) => import_model(&data, 0),
    }
}

/// Every palette colour an import keeps stands one slot past its index, channel by
/// channel, with the default of everything a palette does not tell. The slot before
/// them all is empty space.
pub proof fn law_an_imported_palette_keeps_its_colours(palette: Seq<VoxColor>)
    ensures
        palette_table(palette).len() == 1 + vstd::math::min(255, palette.len() as int),
        palette_table(palette)[0] == empty_material(),
        forall|i: int|
            0 <= i < 255 && i < palette.len() ==> {
                let made = #[trigger] palette_table(palette)[i + 1];
                &&& made.color@.len() == 4
                &&& made.color@[0] == palette[i].r
                &&& made.color@[1] == palette[i].g
                &&& made.color@[2] == palette[i].b
                &&& made.color@[3] == palette[i].a
                &&& made.density == DEFAULT_DENSITY
                &&& made.friction == DEFAULT_FRICTION
                &&& made.restitution == DEFAULT_RESTITUTION
                &&& made.strength == DEFAULT_STRENGTH
            },
{
    assert forall|i: int| 0 <= i < 255 && i < palette.len() implies {
        let made = #[trigger] palette_table(palette)[i + 1];
        &&& made.color@.len() == 4
        &&& made.color@[0] == palette[i].r
        &&& made.color@[1] == palette[i].g
        &&& made.color@[2] == palette[i].b
        &&& made.color@[3] == palette[i].a
        &&& made.density == DEFAULT_DENSITY
        &&& made.friction == DEFAULT_FRICTION
        &&& made.restitution == DEFAULT_RESTITUTION
        &&& made.strength == DEFAULT_STRENGTH
    } by {
        assert(palette_table(palette)[i + 1] == palette_material(palette[i]));
    }
}

/// Of the voxels a model has at a place the last one stands, with its palette index
/// one slot further, on our axes: up is our second axis and the model's third. The
/// last index has no slot of its own and shares that of the one before it.
pub proof fn law_a_models_voxels_stand_upright(voxels: Seq<VoxVoxel>, k: int)
    requires
        0 <= k < voxels.len(),
        forall|j: int|
            k < j < voxels.len() ==> {
                ||| (#[trigger] voxels[j]).x != voxels[k].x
                ||| voxels[j].y != voxels[k].y
                ||| voxels[j].z != voxels[k].z
            },
    ensures
        ({
            let v = voxels[k];
            let held = model_at(voxels, UVec3 { x: v.x as u32, y: v.z as u32, z: v.y as u32 });
            &&& v.i < 255 ==> held.0 == v.i + 1
            &&& v.i == 255 ==> held.0 == 255
        }),
    decreases voxels.len(),
{
    let last = voxels.len() - 1;
    assert(voxels[last] == voxels.last());
    if k < last {
        let rest = voxels.drop_last();
        assert forall|j: int| k < j < rest.len() implies {
            ||| (#[trigger] rest[j]).x != rest[k].x
            ||| rest[j].y != rest[k].y
            ||| rest[j].z != rest[k].z
        } by {
            assert(rest[j] == voxels[j]);
        }
        law_a_models_voxels_stand_upright(rest, k);
    }
}

/// Where a model has no voxel there is empty space.
pub proof fn law_no_voxel_is_empty_space(voxels: Seq<VoxVoxel>, p: UVec3)
    requires
        forall|k: int|
            0 <= k < voxels.len() ==> {
                ||| (#[trigger] voxels[k]).x != p.x
                ||| voxels[k].z != p.y
                ||| voxels[k].y != p.z
            },
    ensures
        model_at(voxels, p).0 == 0,
    decreases voxels.len(),
{
    if voxels.len() > 0 {
        assert(voxels[voxels.len() - 1] == voxels.last());
        let rest = voxels.drop_last();
        assert forall|k: int| 0 <= k < rest.len() implies {
            ||| (#[trigger] rest[k]).x != p.x
            ||| rest[k].z != p.y
            ||| rest[k].y != p.z
        } by {
            assert(rest[k] == voxels[k]);
        }
        law_no_voxel_is_empty_space(rest, p);
    }
}

/// What an import gives, told of the file alone. It fails exactly where the model is
/// not there or is longer than 1024 along some axis; it is as small as a volume that
/// holds the model can be; it holds every voxel the model has, and nothing else; and
/// its colours are those of the palette.
pub proof fn law_an_import_is_the_model(
    file: (Seq<(UVec3, Seq<VoxVoxel>)>, Seq<VoxColor>),
    index: int,
    result: Result<(DenseVolume, MaterialTable), VoxError>,
)
    requires
        imports(file, index, result),
        index >= 0,
    ensures
        result is Ok <==> {
            &&& index < file.0.len()
            &&& file.0[index].0.x <= 1024
            &&& file.0[index].0.y <= 1024
            &&& file.0[index].0.z <= 1024
        },
        result matches Err(e) ==> {
            &&& e == VoxError::NoModels <==> file.0.len() == 0
            &&& e is ModelOutOfRange <==> 0 < file.0.len() <= index
            &&& e matches VoxError::TooLarge { extent } ==> {
                &&& extent > 1024
                &&& extent >= file.0[index].0.x
                &&& extent >= file.0[index].0.y
                &&& extent >= file.0[index].0.z
                &&& extent == file.0[index].0.x || extent == file.0[index].0.y || extent
                    == file.0[index].0.z
            }
        },
        result matches Ok(imported) ==> {
            let side = imported.0.side() as int;
            let (size, voxels) = file.0[index];
            &&& size.x <= side && size.y <= side && size.z <= side
            &&& side == 4 || side < 4 * size.x || side < 4 * size.y || side < 4 * size.z
            &&& forall|k: int|
                {
                    let v = #[trigger] voxels[k];
                    &&& 0 <= k < voxels.len()
                    &&& v.x < side && v.y < side && v.z < side
                    &&& forall|j: int|
                        k < j < voxels.len() ==> {
                            ||| (#[trigger] voxels[j]).x != v.x
                            ||| voxels[j].y != v.y
                            ||| voxels[j].z != v.z
                        }
                } ==> {
                    let v = voxels[k];
                    let held = imported.0.at(
                        UVec3 { x: v.x as u32, y: v.z as u32, z: v.y as u32 },
                    );
                    &&& v.i < 255 ==> held.0 == v.i + 1
                    &&& v.i == 255 ==> held.0 == 255
                }
            &&& forall|p: UVec3|
                p.x < side && p.y < side && p.z < side && (forall|k: int|
                    0 <= k < voxels.len() ==> {
                        ||| (#[trigger] voxels[k]).x != p.x
                        ||| voxels[k].z != p.y
                        ||| voxels[k].y != p.z
                    }) ==> (#[trigger] imported.0.at(p)).0 == 0
            &&& imported.1@.len() == 1 + vstd::math::min(255, file.1.len() as int)
            &&& forall|i: int|
                0 <= i < 255 && i < file.1.len() ==> {
                    let made = #[trigger] imported.1@[i + 1];
                    &&& made.color@[0] == file.1[i].r
                    &&& made.color@[1] == file.1[i].g
                    &&& made.color@[2] == file.1[i].b
                    &&& made.color@[3] == file.1[i].a
                }
        },
{
    if let Ok(imported) = result {
        let side = imported.0.side() as int;
        let (size, voxels) = file.0[index];
        law_an_imported_palette_keeps_its_colours(file.1);
        assert forall|k: int|
            {
                let v = #[trigger] voxels[k];
                &&& 0 <= k < voxels.len()
                &&& v.x < side && v.y < side && v.z < side
                &&& forall|j: int|
                    k < j < voxels.len() ==> {
                        ||| (#[trigger] voxels[j]).x != v.x
                        ||| voxels[j].y != v.y
                        ||| voxels[j].z != v.z
                    }
            } implies {
            let v = voxels[k];
            let held = imported.0.at(UVec3 { x: v.x as u32, y: v.z as u32, z: v.y as u32 });
            &&& v.i < 255 ==> held.0 == v.i + 1
            &&& v.i == 255 ==> held.0 == 255
        } by {
            law_a_models_voxels_stand_upright(voxels, k);
            let v = voxels[k];
            let p = UVec3 { x: v.x as u32, y: v.z as u32, z: v.y as u32 };
            assert(p.within(side));
            assert(imported.0.at(p) == model_at(voxels, p));
        }
        assert forall|p: UVec3|
            p.x < side && p.y < side && p.z < side && (forall|k: int|
                0 <= k < voxels.len() ==> {
                    ||| (#[trigger] voxels[k]).x != p.x
                    ||| voxels[k].z != p.y
                    ||| voxels[k].y != p.z
                }) implies (#[trigger] imported.0.at(p)).0 == 0 by {
            law_no_voxel_is_empty_space(voxels, p);
            assert(p.within(side));
        }
    }
}

} // verus!
