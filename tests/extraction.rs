use cool_material::extract::{extract, Snapshot, SnapshotEntry};
use cool_material::layout::encode;
use cool_material::record::{CoolMaterial, Vec4Bits};

fn material(alpha: f32, slots: usize) -> CoolMaterial {
    CoolMaterial::new(Vec4Bits::new(0, 0, 0, alpha.to_bits()), None, slots)
}

fn snapshot_bytes(s: &Snapshot) -> Vec<(u64, u64, Vec<u8>)> {
    (0..s.len())
        .map(|i| {
            let e = s.entry(i);
            (e.entity, e.handle, encode(&e.input))
        })
        .collect()
}

#[test]
fn first_extraction_adds_each_entity() {
    let sources = vec![
        SnapshotEntry::new(7, material(0.75, 2), 100),
        SnapshotEntry::new(9, material(0.5, 2), 101),
    ];
    let mut snap = Snapshot::new();
    assert_eq!(snap.len(), 0);
    extract(&mut snap, &sources);
    assert_eq!(snap.len(), 2);
    let i = snap.find(9).unwrap();
    assert_eq!(snap.entry(i).handle, 101);
    assert_eq!(snap.entry(i).input.color.w, 0.5f32.to_bits());
    assert!(snap.find(8).is_none());
}

#[test]
fn extraction_without_mutation_is_byte_identical() {
    let sources = vec![
        SnapshotEntry::new(1, material(0.75, 64), 10),
        SnapshotEntry::new(2, material(0.25, 64), 11),
    ];
    let mut snap = Snapshot::new();
    extract(&mut snap, &sources);
    let first = snapshot_bytes(&snap);
    extract(&mut snap, &sources);
    let second = snapshot_bytes(&snap);
    assert_eq!(first, second);
}

#[test]
fn later_extraction_updates_in_place() {
    let mut sources = vec![SnapshotEntry::new(3, material(0.75, 1), 5)];
    let mut snap = Snapshot::new();
    extract(&mut snap, &sources);
    sources[0].input.position[0].x = 0.5f32.to_bits();
    sources[0].handle = 6;
    extract(&mut snap, &sources);
    assert_eq!(snap.len(), 1);
    assert_eq!(snap.entry(0).input.position[0].x, 0.5f32.to_bits());
    assert_eq!(snap.entry(0).handle, 6);
}

#[test]
fn extraction_copies_by_value() {
    let mut sources = vec![SnapshotEntry::new(4, material(0.75, 2), 8)];
    let mut snap = Snapshot::new();
    extract(&mut snap, &sources);
    sources[0].input.position[1].y = 3.0f32.to_bits();
    sources[0].input.color.w = 0.1f32.to_bits();
    assert_eq!(snap.entry(0).input.position[1].y, 0);
    assert_eq!(snap.entry(0).input.color.w, 0.75f32.to_bits());
}

#[test]
fn entities_missing_from_sources_are_kept() {
    let mut snap = Snapshot::new();
    extract(&mut snap, &vec![SnapshotEntry::new(1, material(0.75, 0), 1)]);
    extract(&mut snap, &vec![SnapshotEntry::new(2, material(0.5, 0), 2)]);
    assert_eq!(snap.len(), 2);
    assert!(snap.find(1).is_some());
    assert!(snap.find(2).is_some());
}
