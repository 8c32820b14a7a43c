use cool_material::input::{
    floor_at_zero_bits, plan_slot_moves, plan_time_move, Adjustment, Axis, HeldKeys, Target,
};
use cool_material::layout::encode;
use cool_material::record::{CoolMaterial, Vec4Bits};

const TIME_SKIP: f32 = 1. / 60.;
const SPEED: f32 = 100.0;
const STEP: f32 = 0.01 * TIME_SKIP * SPEED;

fn v4(x: f32, y: f32, z: f32, w: f32) -> Vec4Bits {
    Vec4Bits::new(x.to_bits(), y.to_bits(), z.to_bits(), w.to_bits())
}

fn step_of(a: &Adjustment) -> f32 {
    match a.target {
        Target::ColorAlpha => 0.01,
        Target::Time => 0.0001,
        _ => STEP,
    }
}

/// Takes one frame's moves, stepping in f32 as the running program does.
fn run_frame(m: &mut CoolMaterial, keys: HeldKeys) {
    for a in plan_slot_moves(keys) {
        if let Some(bits) = m.field_bits(a.target) {
            let cur = f32::from_bits(bits);
            let next = if a.increase { cur + step_of(&a) } else { cur - step_of(&a) };
            m.apply_move(a, next.to_bits());
        }
    }
}

fn scenario_material() -> CoolMaterial {
    CoolMaterial::new(v4(0.0, 1.0, 0.3, 1.0), None, 2)
}

#[test]
fn one_frame_of_d_moves_only_slot0_x() {
    let mut m = scenario_material();
    let before = encode(&m);
    run_frame(&mut m, HeldKeys { d: true, ..Default::default() });
    let x = f32::from_bits(m.position[0].x);
    assert_eq!(x, STEP);
    assert!((x - 0.0167).abs() < 1e-4);
    assert_eq!(m.color, v4(0.0, 1.0, 0.3, 1.0));
    assert_eq!(m.position[0].y, 0);
    assert_eq!(m.position[0].z, 0);
    assert_eq!(m.position[1], Vec4Bits::zero());
    let after = encode(&m);
    assert_eq!(after.len(), before.len());
    for i in 0..after.len() {
        if (16..20).contains(&i) {
            continue;
        }
        assert_eq!(after[i], before[i], "byte {} changed", i);
    }
    assert_eq!(&after[16..20], &STEP.to_le_bytes());
}

#[test]
fn each_group_moves_by_one_step() {
    let mut m = scenario_material();
    m.position[0] = v4(0.5, 0.5, 0.5, 0.0);
    m.position[1] = v4(0.5, 0.5, 0.5, 0.0);
    run_frame(&mut m, HeldKeys { s: true, numpad9: true, x: true, ..Default::default() });
    assert_eq!(f32::from_bits(m.position[0].y), 0.5 - STEP);
    assert_eq!(f32::from_bits(m.position[1].z), 0.5 + STEP);
    assert_eq!(f32::from_bits(m.color.w), 1.0 + 0.01);
    assert_eq!(f32::from_bits(m.position[0].x), 0.5);
    assert_eq!(f32::from_bits(m.position[1].x), 0.5);
}

#[test]
fn decrement_key_wins_over_increment_key() {
    let moves = plan_slot_moves(HeldKeys { a: true, d: true, ..Default::default() });
    assert_eq!(moves.len(), 1);
    assert_eq!(moves[0], Adjustment { target: Target::Slot { index: 0, axis: Axis::X }, increase: false });
    let moves = plan_slot_moves(HeldKeys { numpad7: true, numpad9: true, ..Default::default() });
    assert_eq!(moves, vec![Adjustment { target: Target::Slot { index: 1, axis: Axis::Z }, increase: false }]);
}

#[test]
fn earlier_axis_wins_within_a_group() {
    let moves = plan_slot_moves(HeldKeys { w: true, q: true, e: true, ..Default::default() });
    assert_eq!(moves, vec![Adjustment { target: Target::Slot { index: 0, axis: Axis::Y }, increase: true }]);
    let moves = plan_slot_moves(HeldKeys { up: true, down: true, left: true, ..Default::default() });
    assert_eq!(moves, vec![Adjustment { target: Target::Translation { axis: Axis::Y }, increase: true }]);
}

#[test]
fn groups_come_in_fixed_order() {
    let keys = HeldKeys { e: true, numpad2: true, right: true, z: true, ..Default::default() };
    let moves = plan_slot_moves(keys);
    assert_eq!(
        moves,
        vec![
            Adjustment { target: Target::Slot { index: 0, axis: Axis::Z }, increase: true },
            Adjustment { target: Target::Slot { index: 1, axis: Axis::Y }, increase: false },
            Adjustment { target: Target::Translation { axis: Axis::X }, increase: true },
            Adjustment { target: Target::ColorAlpha, increase: false },
        ]
    );
}

#[test]
fn no_keys_no_moves() {
    assert!(plan_slot_moves(HeldKeys::default()).is_empty());
    assert_eq!(plan_time_move(HeldKeys::default()), None);
}

#[test]
fn depth_below_zero_becomes_zero() {
    let mut m = scenario_material();
    m.position[0].z = 0.01f32.to_bits();
    m.position[1].z = 0.0f32.to_bits();
    run_frame(&mut m, HeldKeys { q: true, numpad7: true, ..Default::default() });
    assert_eq!(m.position[0].z, 0.0f32.to_bits());
    assert_eq!(m.position[1].z, 0.0f32.to_bits());
}

#[test]
fn depth_above_zero_is_not_floored() {
    let mut m = scenario_material();
    m.position[0].z = 0.5f32.to_bits();
    run_frame(&mut m, HeldKeys { q: true, ..Default::default() });
    assert_eq!(f32::from_bits(m.position[0].z), 0.5 - STEP);
}

#[test]
fn other_lanes_are_not_floored() {
    let mut m = scenario_material();
    run_frame(&mut m, HeldKeys { a: true, numpad2: true, ..Default::default() });
    assert_eq!(f32::from_bits(m.position[0].x), -STEP);
    assert_eq!(f32::from_bits(m.position[1].y), -STEP);
}

#[test]
fn alpha_is_not_saturated() {
    let mut m = CoolMaterial::new(v4(0.0, 0.0, 0.0, 0.0), None, 2);
    run_frame(&mut m, HeldKeys { z: true, ..Default::default() });
    assert_eq!(f32::from_bits(m.color.w), -0.01);
    let mut m = CoolMaterial::new(v4(0.0, 0.0, 0.0, 1.0), None, 2);
    run_frame(&mut m, HeldKeys { x: true, ..Default::default() });
    assert!(f32::from_bits(m.color.w) > 1.0);
}

#[test]
fn floor_at_zero_bits_matches_max_with_zero() {
    assert_eq!(floor_at_zero_bits((-0.5f32).to_bits()), 0);
    assert_eq!(floor_at_zero_bits((-0.0f32).to_bits()), 0);
    assert_eq!(floor_at_zero_bits(f32::NEG_INFINITY.to_bits()), 0);
    assert_eq!(floor_at_zero_bits(f32::NAN.to_bits()), 0);
    assert_eq!(floor_at_zero_bits(0.25f32.to_bits()), 0.25f32.to_bits());
    assert_eq!(floor_at_zero_bits(f32::INFINITY.to_bits()), f32::INFINITY.to_bits());
    for x in [-3.0f32, -1e-30, 0.0, 1e-30, 7.0] {
        assert_eq!(f32::from_bits(floor_at_zero_bits(x.to_bits())), x.max(0.0));
    }
}

#[test]
fn translation_is_not_a_material_field() {
    let m = scenario_material();
    assert_eq!(m.field_bits(Target::Translation { axis: Axis::X }), None);
    assert_eq!(m.field_bits(Target::Time), None);
    assert_eq!(m.field_bits(Target::Slot { index: 2, axis: Axis::X }), None);
    assert_eq!(m.field_bits(Target::ColorAlpha), Some(1.0f32.to_bits()));
}

#[test]
fn time_controls_move_time() {
    let up = plan_time_move(HeldKeys { up: true, down: true, ..Default::default() });
    assert_eq!(up, Some(Adjustment { target: Target::Time, increase: true }));
    let down = plan_time_move(HeldKeys { down: true, ..Default::default() });
    assert_eq!(down, Some(Adjustment { target: Target::Time, increase: false }));
    let mut m = CoolMaterial::new(v4(0.0, 1.0, 0.0, 1.0), Some(0.0f32.to_bits()), 0);
    let a = down.unwrap();
    let t = f32::from_bits(m.field_bits(a.target).unwrap());
    m.apply_move(a, (t - 0.0001).to_bits());
    assert_eq!(f32::from_bits(m.time.unwrap()), -0.0001);
}
