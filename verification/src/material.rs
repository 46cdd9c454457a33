//! Material identity. Index 0 is reserved for empty space.

use vstd::prelude::*;

verus! {

/// Index into a [`MaterialTable`].
#[derive(Clone, Copy, PartialEq, Eq, Structural, Debug, Default)]
pub struct MaterialId(pub u8);

impl MaterialId {
    /// The absence of a voxel. Never appears in a material table as a real entry.
    pub fn empty() -> (id: MaterialId)
        ensures
            id == MaterialId(0),
    {
        MaterialId(0)
    }

    pub fn is_empty(self) -> (empty: bool)
        ensures
            empty == (self == MaterialId(0)),
    {
        self.0 == 0
    }
}

/// A material's properties: how it is drawn, how heavy it is, and how it
/// behaves on contact.
///
/// Density is relative: only ratios between voxels, and a joint's force against
/// them, are observable. The contact columns are hundredths: `friction` 60 is a
/// coefficient of 0.6, `restitution` 80 is 0.8. Friction may exceed 1;
/// restitution above 1 would add energy on every bounce, so it is clamped where
/// it is used.
#[derive(Clone, Copy, PartialEq, Eq, Debug)]
pub struct Material {
    pub color: [u8; 4],
    pub density: u16,
    pub friction: u8,
    pub restitution: u8,
    /// The impact this material survives, as the speed change a contact
    /// imposes on the body that struck it, in voxels a second.
    /// `UNBREAKABLE` survives anything.
    pub strength: u16,
}

/// The density a material gets when its source says nothing about mass, such
/// as a MagicaVoxel palette.
pub const DEFAULT_DENSITY: u16 = 1000;

/// What a material's friction is when its source says nothing: like dry stone.
pub const DEFAULT_FRICTION: u8 = 60;

/// Barely bouncy, which is what most solids are.
pub const DEFAULT_RESTITUTION: u8 = 5;

/// What a material takes before it cracks when its source says nothing, in
/// voxels a second, as `Material::strength` is.
pub const DEFAULT_STRENGTH: u16 = 40;

/// A material that never fractures, however hard it is hit.
pub const UNBREAKABLE: u16 = 65535;

/// The reserved entry of slot 0: no colour, no weight, nothing to break.
pub open spec fn empty_material() -> Material {
    Material { color: [0, 0, 0, 0], density: 0, friction: 0, restitution: 0, strength: UNBREAKABLE }
}

/// The materials a scene's voxels name, in slot order.
#[derive(Clone, Debug)]
pub struct MaterialTable {
    entries: Vec<Material>,
}

impl View for MaterialTable {
    type V = Seq<Material>;

    closed spec fn view(&self) -> Seq<Material> {
        self.entries@
    }
}

impl MaterialTable {
    /// Slot 0 is reserved, and a voxel byte can name every slot there is.
    pub open spec fn wf(&self) -> bool {
        1 <= self@.len() <= 256 && self@[0] == empty_material()
    }

    /// Creates a table whose slot 0 is the reserved empty material.
    ///
    /// Unbreakable rather than of no strength: there is nothing in an empty
    /// voxel to break.
    pub fn new() -> (table: MaterialTable)
        ensures
            table.wf(),
            table@ == seq![empty_material()],
            table@.len() == 1,
            table@[0].color@ == seq![0u8, 0u8, 0u8, 0u8],
            table@[0].density == 0,
            table@[0].friction == 0,
            table@[0].restitution == 0,
            table@[0].strength == u16::MAX,
    {
        let mut entries: Vec<Material> = Vec::new();
        entries.push(
            Material {
                color: [0, 0, 0, 0],
                density: 0,
                friction: 0,
                restitution: 0,
                strength: UNBREAKABLE,
            },
        );
        MaterialTable { entries }
    }

    /// Appends a material. Returns `None` when all 255 usable slots are taken.
    pub fn push(&mut self, material: Material) -> (id: Option<MaterialId>)
        ensures
            old(self).wf() ==> final(self).wf(),
            old(self)@.len() > 255 ==> id is None && final(self)@ == old(self)@,
            old(self)@.len() <= 255 ==> {
                &&& id == Some(MaterialId(old(self)@.len() as u8))
                &&& final(self)@ == old(self)@.push(material)
            },
    {
        if self.entries.len() > 255 {
            return None;
        }
        let id = MaterialId(self.entries.len() as u8);
        self.entries.push(material);
        Some(id)
    }

    /// The material of a slot in use.
    pub fn get(&self, id: MaterialId) -> (material: Material)
        requires
            id.0 < self@.len(),
        ensures
            material == self@[id.0 as int],
    {
        self.entries[id.0 as usize]
    }

    /// The colours of all 256 slots a voxel byte can name, in order. A slot no
    /// material has is all zero, as the empty one is.
    pub fn palette(&self) -> (colors: Vec<[u8; 4]>)
        ensures
            colors@.len() == 256,
            forall|i: int|
                0 <= i < 256 ==> #[trigger] colors@[i] == if i < self@.len() {
                    self@[i].color
                } else {
                    [0u8, 0u8, 0u8, 0u8]
                },
    {
        let mut colors: Vec<[u8; 4]> = Vec::new();
        for i in 0..256usize
            invariant
                colors@.len() == i,
                forall|k: int|
                    0 <= k < i ==> #[trigger] colors@[k] == if k < self@.len() {
                        self@[k].color
                    } else {
                        [0u8, 0u8, 0u8, 0u8]
                    },
        {
            if i < self.entries.len() {
                colors.push(self.entries[i].color);
            } else {
                colors.push([0, 0, 0, 0]);
            }
        }
        colors
    }

    pub fn len(&self) -> (len: usize)
        ensures
            len == self@.len(),
    {
        self.entries.len()
    }

    /// Whether the table names no material but the reserved one.
    pub fn is_empty(&self) -> (empty: bool)
        ensures
            empty == (self@.len() <= 1),
    {
        self.entries.len() <= 1
    }
}

/// How much of the approach speed a bounce between two surfaces keeps, in
/// hundredths: the larger of the two, so a bouncy ball bounces off a dead floor.
pub fn combine_restitution(a: u8, b: u8) -> (r: u8)
    ensures
        r == if a > b {
            a
        } else {
            b
        },
        r >= a && r >= b,
        r == a || r == b,
{
    if a > b {
        a
    } else {
        b
    }
}

/// The square of how two surfaces grip each other, in hundredths of hundredths:
/// friction combines as the geometric mean, whose square is the product.
pub fn combine_friction_squared(a: u8, b: u8) -> (r: u16)
    ensures
        r == a * b,
        a == b ==> r == a * a,
        b > 0 ==> r as int / b as int == a && r as int % b as int == 0,
        b == 0 ==> r == 0,
{
    proof {
        assert(0 <= a * b <= 255 * 255) by (nonlinear_arith)
            requires
                0 <= a <= 255,
                0 <= b <= 255,
        ;
        if b > 0 {
            vstd::arithmetic::div_mod::lemma_fundamental_div_mod_converse(
                a * b,
                b as int,
                a as int,
                0,
            );
        }
    }
    a as u16 * b as u16
}

impl Default for MaterialTable {
    fn default() -> (table: MaterialTable)
        ensures
            table.wf(),
            table@ == seq![empty_material()],
    {
        MaterialTable::new()
    }
}

} // verus!
