use cool_material::extract::{extract, Snapshot, SnapshotEntry};
use cool_material::layout::encode;
use cool_material::mirror::{mirror_entry, prepare, resolve};
use cool_material::record::{CoolMaterial, Vec4Bits};

fn material(alpha: f32) -> CoolMaterial {
    CoolMaterial::new(Vec4Bits::new(0, 1.0f32.to_bits(), 0, alpha.to_bits()), None, 2)
}

#[test]
fn resolve_takes_first_binding() {
    let table = vec![(5, 50), (6, 60), (5, 55)];
    assert_eq!(resolve(&table, 5), Some(50));
    assert_eq!(resolve(&table, 6), Some(60));
    assert_eq!(resolve(&table, 7), None);
    assert_eq!(resolve(&Vec::new(), 5), None);
}

#[test]
fn unresolved_handle_is_skipped() {
    let m = material(1.0);
    assert!(mirror_entry(&m, None).is_none());
}

#[test]
fn resolved_handle_overwrites_whole_block() {
    let m = material(0.75);
    let w = mirror_entry(&m, Some(42)).unwrap();
    assert_eq!(w.buffer, 42);
    assert_eq!(w.offset, 0);
    assert_eq!(w.bytes, encode(&m));
    assert_eq!(w.bytes.len(), 48);
}

#[test]
fn prepare_writes_once_per_resolved_entity() {
    let sources = vec![
        SnapshotEntry::new(1, material(0.1), 10),
        SnapshotEntry::new(2, material(0.2), 20),
        SnapshotEntry::new(3, material(0.3), 30),
    ];
    let mut snap = Snapshot::new();
    extract(&mut snap, &sources);
    let table = vec![(30, 3), (10, 1)];
    let writes = prepare(&snap, &table);
    assert_eq!(writes.len(), 2);
    assert_eq!(writes[0].buffer, 1);
    assert_eq!(writes[0].bytes, encode(&sources[0].input));
    assert_eq!(writes[1].buffer, 3);
    assert_eq!(writes[1].bytes, encode(&sources[2].input));
    assert!(writes.iter().all(|w| w.offset == 0));
}

#[test]
fn prepare_with_no_buffers_writes_nothing() {
    let mut snap = Snapshot::new();
    extract(&mut snap, &vec![SnapshotEntry::new(1, material(0.5), 10)]);
    assert!(prepare(&snap, &Vec::new()).is_empty());
    assert!(prepare(&Snapshot::new(), &vec![(10, 1)]).is_empty());
}
