use bevox::material::{
    combine_friction_squared, combine_restitution, Material, MaterialId, MaterialTable,
    DEFAULT_DENSITY, DEFAULT_FRICTION, DEFAULT_RESTITUTION, DEFAULT_STRENGTH, UNBREAKABLE,
};

/// Both contact columns are hundredths, so 60 is a coefficient of 0.6.
#[test]
fn a_material_keeps_its_friction_and_bounce() {
    let mut table = MaterialTable::new();
    let id = table
        .push(Material {
            color: [1, 2, 3, 255],
            density: 900,
            friction: 5,
            restitution: 80,
            strength: 25,
        })
        .unwrap();
    assert_eq!(table.get(id).friction, 5);
    assert_eq!(table.get(id).restitution, 80);
    assert_eq!(table.get(id).strength, 25);
    assert_eq!(
        table.get(MaterialId::empty()).strength,
        UNBREAKABLE,
        "empty space must not be breakable; there is nothing there to break"
    );
}

/// How two surfaces grip each other, out of hundredths.
fn combine_friction(a: u8, b: u8) -> f32 {
    (combine_friction_squared(a, b) as f32).sqrt() / 100.0
}

/// A colour as the shader reads it, from 0 to 1.
fn to_gpu(table: &MaterialTable) -> Vec<[f32; 4]> {
    table.palette().iter().map(|c| c.map(|v| v as f32 / 255.0)).collect()
}

/// Friction combines as the geometric mean, so ice against stone is
/// slippery rather than the average of the two. Restitution takes the
/// larger, so a bouncy ball bounces off a dead floor.
#[test]
fn coefficients_combine_the_way_two_surfaces_do() {
    assert!((combine_friction(100, 100) - 1.0).abs() < 1e-6);
    assert!((combine_friction(4, 100) - 0.2).abs() < 1e-6, "ice against stone");
    assert_eq!(combine_friction(0, 100), 0.0, "frictionless against anything is frictionless");
    assert_eq!(combine_restitution(80, 5), 80);
    assert_eq!(combine_restitution(0, 0), 0);
}

fn orange() -> Material {
    Material {
        color: [255, 128, 0, 255],
        density: DEFAULT_DENSITY,
        friction: DEFAULT_FRICTION,
        restitution: DEFAULT_RESTITUTION,
        strength: DEFAULT_STRENGTH,
    }
}

#[test]
fn the_gpu_palette_is_always_two_hundred_and_fifty_six_entries() {
    let mut table = MaterialTable::new();
    table.push(orange()).unwrap();
    let gpu = to_gpu(&table);
    assert_eq!(gpu.len(), 256, "the shader indexes this by a byte");
}

#[test]
fn palette_entries_are_normalised_and_slot_zero_is_transparent() {
    let mut table = MaterialTable::new();
    let id = table.push(orange()).unwrap();
    let gpu = to_gpu(&table);

    assert_eq!(gpu[0], [0.0, 0.0, 0.0, 0.0], "slot 0 is empty space");
    let e = gpu[id.0 as usize];
    assert!((e[0] - 1.0).abs() < 1e-6, "red was {}", e[0]);
    assert!((e[1] - 128.0 / 255.0).abs() < 1e-6, "green was {}", e[1]);
    assert!((e[3] - 1.0).abs() < 1e-6, "alpha was {}", e[3]);
}

#[test]
fn unset_palette_slots_are_zero() {
    let table = MaterialTable::new();
    let gpu = to_gpu(&table);
    assert!(gpu.iter().all(|e| *e == [0.0, 0.0, 0.0, 0.0]));
}

/// Density rides along with colour: mass properties read it back by id.
#[test]
fn a_material_keeps_its_density() {
    let mut table = MaterialTable::new();
    let id = table
 .push(Material {
     color: [1, 2, 3, 255],
     density: 2600,
     friction: DEFAULT_FRICTION,
     restitution: DEFAULT_RESTITUTION,
     strength: DEFAULT_STRENGTH,
 })
 .unwrap();
    assert_eq!(table.get(id).density, 2600);
    assert_eq!(table.get(MaterialId::empty()).density, 0, "empty space must weigh nothing");
}

#[test]
fn slot_zero_is_empty_and_not_pushable() {
    let table = MaterialTable::new();
    assert_eq!(table.len(), 1);
    assert!(MaterialId::empty().is_empty());
    assert!(table.get(MaterialId::empty()).color[3] == 0);
}

#[test]
fn push_returns_sequential_ids() {
    let mut table = MaterialTable::new();
    let a = table
 .push(Material {
     color: [255, 0, 0, 255],
     density: DEFAULT_DENSITY,
     friction: DEFAULT_FRICTION,
     restitution: DEFAULT_RESTITUTION,
     strength: DEFAULT_STRENGTH,
 })
 .unwrap();
    let b = table
 .push(Material {
     color: [0, 255, 0, 255],
     density: DEFAULT_DENSITY,
     friction: DEFAULT_FRICTION,
     restitution: DEFAULT_RESTITUTION,
     strength: DEFAULT_STRENGTH,
 })
 .unwrap();
    assert_eq!(a, MaterialId(1));
    assert_eq!(b, MaterialId(2));
    assert_eq!(table.get(a).color, [255, 0, 0, 255]);
}

#[test]
fn push_rejects_the_two_hundred_fifty_seventh_material() {
    let mut table = MaterialTable::new();
    for i in 1..=255u16 {
        assert!(table.push(Material {
            color: [i as u8, 0, 0, 255],
            density: DEFAULT_DENSITY,
            friction: DEFAULT_FRICTION,
            restitution: DEFAULT_RESTITUTION,
            strength: DEFAULT_STRENGTH,
        }).is_some());
    }
    assert!(table.push(Material {
        color: [1, 2, 3, 4],
        density: DEFAULT_DENSITY,
        friction: DEFAULT_FRICTION,
        restitution: DEFAULT_RESTITUTION,
        strength: DEFAULT_STRENGTH,
    }).is_none());
}
