//! Keyboard rules: which held keys move which field, in which direction.
//! Within one group of keys the checks run in a fixed order and the first
//! held key wins, so a group moves at most one field per frame. The float
//! step itself is taken by the caller; the field update and the depth floor
//! are applied here.
use vstd::prelude::*;
use crate::layout::{encoded, lemma_slots_le, lemma_slots_update, slots_le, splice, time_le, u32_le, vec4_le};
use crate::record::{CoolMaterial, MaterialView, Vec4Bits};

verus! {

/// The keys read each frame, `true` when held.
#[derive(Clone, Copy, PartialEq, Eq, Structural, Debug, Default)]
pub struct HeldKeys {
    pub a: bool,
    pub d: bool,
    pub s: bool,
    pub w: bool,
    pub q: bool,
    pub e: bool,
    pub numpad4: bool,
    pub numpad6: bool,
    pub numpad2: bool,
    pub numpad8: bool,
    pub numpad7: bool,
    pub numpad9: bool,
    pub up: bool,
    pub down: bool,
    pub left: bool,
    pub right: bool,
    pub z: bool,
    pub x: bool,
}

#[derive(Clone, Copy, PartialEq, Eq, Structural, Debug)]
pub enum Axis {
    X,
    Y,
    Z,
}

/// A field that a key moves.
#[derive(Clone, Copy, PartialEq, Eq, Structural, Debug)]
pub enum Target {
    /// One lane of a position slot.
    Slot { index: usize, axis: Axis },
    /// One lane of the renderable's 2D translation, which the material does
    /// not hold.
    Translation { axis: Axis },
    /// The colour's alpha channel.
    ColorAlpha,
    /// The scalar time field.
    Time,
}

/// A one-step move of a field, up or down.
#[derive(Clone, Copy, PartialEq, Eq, Structural, Debug)]
pub struct Adjustment {
    pub target: Target,
    pub increase: bool,
}

pub open spec fn adj(target: Target, increase: bool) -> Option<Adjustment> {
    Some(Adjustment { target, increase })
}

pub open spec fn slot(index: usize, axis: Axis) -> Target {
    Target::Slot { index, axis }
}

/// The move of the first slot: A/D on x, S/W on y, Q/E on depth.
pub open spec fn first_slot_move(k: HeldKeys) -> Option<Adjustment> {
    if k.a {
        adj(slot(0, Axis::X), false)
    } else if k.d {
        adj(slot(0, Axis::X), true)
    } else if k.s {
        adj(slot(0, Axis::Y), false)
    } else if k.w {
        adj(slot(0, Axis::Y), true)
    } else if k.q {
        adj(slot(0, Axis::Z), false)
    } else if k.e {
        adj(slot(0, Axis::Z), true)
    } else {
        None
    }
}

/// The move of the second slot: numpad 4/6 on x, 2/8 on y, 7/9 on depth.
pub open spec fn second_slot_move(k: HeldKeys) -> Option<Adjustment> {
    if k.numpad4 {
        adj(slot(1, Axis::X), false)
    } else if k.numpad6 {
        adj(slot(1, Axis::X), true)
    } else if k.numpad2 {
        adj(slot(1, Axis::Y), false)
    } else if k.numpad8 {
        adj(slot(1, Axis::Y), true)
    } else if k.numpad7 {
        adj(slot(1, Axis::Z), false)
    } else if k.numpad9 {
        adj(slot(1, Axis::Z), true)
    } else {
        None
    }
}

/// The move of the translation: arrow keys, up first.
pub open spec fn translation_move(k: HeldKeys) -> Option<Adjustment> {
    if k.up {
        adj(Target::Translation { axis: Axis::Y }, true)
    } else if k.down {
        adj(Target::Translation { axis: Axis::Y }, false)
    } else if k.left {
        adj(Target::Translation { axis: Axis::X }, false)
    } else if k.right {
        adj(Target::Translation { axis: Axis::X }, true)
    } else {
        None
    }
}

/// The move of the colour's alpha: Z down, X up.
pub open spec fn alpha_move(k: HeldKeys) -> Option<Adjustment> {
    if k.z {
        adj(Target::ColorAlpha, false)
    } else if k.x {
        adj(Target::ColorAlpha, true)
    } else {
        None
    }
}

/// The move of the time field: up arrow raises it, down arrow lowers it.
pub open spec fn time_move(k: HeldKeys) -> Option<Adjustment> {
    if k.up {
        adj(Target::Time, true)
    } else if k.down {
        adj(Target::Time, false)
    } else {
        None
    }
}

pub open spec fn opt_seq(o: Option<Adjustment>) -> Seq<Adjustment> {
    match o {
        Some(a) => seq![a],
        None => Seq::empty(),
    }
}

/// The moves of one frame under the slot controls, group by group.
pub open spec fn slot_moves(k: HeldKeys) -> Seq<Adjustment> {
    opt_seq(first_slot_move(k)) + opt_seq(second_slot_move(k)) + opt_seq(translation_move(k))
        + opt_seq(alpha_move(k))
}

/// Whether a move is floored at zero: lowering the depth of the first two
/// slots.
pub open spec fn floored(a: Adjustment) -> bool {
    &&& !a.increase
    &&& a.target matches Target::Slot { index, axis }
    &&& axis == Axis::Z
    &&& index < 2
}

/// Sign bit of an f32 bit pattern.
pub open spec fn f32_sign(b: u32) -> bool {
    b >> 31u32 == 1
}

/// Whether an f32 bit pattern is a NaN.
pub open spec fn f32_is_nan(b: u32) -> bool {
    &&& b & 0x7f80_0000 == 0x7f80_0000
    &&& b & 0x007f_ffff != 0
}

/// `max(b, 0.0)` on f32 bit patterns: a NaN or any negative value (negative
/// zero included) becomes positive zero; every other value is kept.
pub open spec fn floor_at_zero(b: u32) -> u32 {
    if f32_is_nan(b) || f32_sign(b) {
        0
    } else {
        b
    }
}

pub fn floor_at_zero_bits(b: u32) -> (r: u32)
    ensures
        r == floor_at_zero(b),
        !f32_sign(r),
        f32_sign(b) ==> r == 0,
{
    let nan = (b & 0x7f80_0000u32) == 0x7f80_0000u32 && (b & 0x007f_ffffu32) != 0;
    let neg = (b >> 31u32) == 1;
    if nan || neg {
        assert(!f32_sign(0u32)) by (bit_vector);
        0
    } else {
        b
    }
}

fn first_slot_of(k: HeldKeys) -> (r: Option<Adjustment>)
    ensures
        r == first_slot_move(k),
{
    if k.a {
        Some(Adjustment { target: Target::Slot { index: 0, axis: Axis::X }, increase: false })
    } else if k.d {
        Some(Adjustment { target: Target::Slot { index: 0, axis: Axis::X }, increase: true })
    } else if k.s {
        Some(Adjustment { target: Target::Slot { index: 0, axis: Axis::Y }, increase: false })
    } else if k.w {
        Some(Adjustment { target: Target::Slot { index: 0, axis: Axis::Y }, increase: true })
    } else if k.q {
        Some(Adjustment { target: Target::Slot { index: 0, axis: Axis::Z }, increase: false })
    } else if k.e {
        Some(Adjustment { target: Target::Slot { index: 0, axis: Axis::Z }, increase: true })
    } else {
        None
    }
}

fn second_slot_of(k: HeldKeys) -> (r: Option<Adjustment>)
    ensures
        r == second_slot_move(k),
{
    if k.numpad4 {
        Some(Adjustment { target: Target::Slot { index: 1, axis: Axis::X }, increase: false })
    } else if k.numpad6 {
        Some(Adjustment { target: Target::Slot { index: 1, axis: Axis::X }, increase: true })
    } else if k.numpad2 {
        Some(Adjustment { target: Target::Slot { index: 1, axis: Axis::Y }, increase: false })
    } else if k.numpad8 {
        Some(Adjustment { target: Target::Slot { index: 1, axis: Axis::Y }, increase: true })
    } else if k.numpad7 {
        Some(Adjustment { target: Target::Slot { index: 1, axis: Axis::Z }, increase: false })
    } else if k.numpad9 {
        Some(Adjustment { target: Target::Slot { index: 1, axis: Axis::Z }, increase: true })
    } else {
        None
    }
}

fn translation_of(k: HeldKeys) -> (r: Option<Adjustment>)
    ensures
        r == translation_move(k),
{
    if k.up {
        Some(Adjustment { target: Target::Translation { axis: Axis::Y }, increase: true })
    } else if k.down {
        Some(Adjustment { target: Target::Translation { axis: Axis::Y }, increase: false })
    } else if k.left {
        Some(Adjustment { target: Target::Translation { axis: Axis::X }, increase: false })
    } else if k.right {
        Some(Adjustment { target: Target::Translation { axis: Axis::X }, increase: true })
    } else {
        None
    }
}

fn alpha_of(k: HeldKeys) -> (r: Option<Adjustment>)
    ensures
        r == alpha_move(k),
{
    if k.z {
        Some(Adjustment { target: Target::ColorAlpha, increase: false })
    } else if k.x {
        Some(Adjustment { target: Target::ColorAlpha, increase: true })
    } else {
        None
    }
}

fn push_opt(out: &mut Vec<Adjustment>, o: Option<Adjustment>)
    ensures
        final(out)@ == old(out)@ + opt_seq(o),
{
    match o {
        Some(a) => {
            out.push(a);
            assert(out@ =~= old(out)@ + opt_seq(o));
        },
        None => {
            assert(out@ =~= old(out)@ + opt_seq(o));
        },
    }
}

/// The moves that the held keys call for under the slot controls: at most
/// one per group (first slot, second slot, translation, alpha), in that
/// order.
pub fn plan_slot_moves(k: HeldKeys) -> (r: Vec<Adjustment>)
    ensures
        r@ == slot_moves(k),
{
    let mut out: Vec<Adjustment> = Vec::new();
    push_opt(&mut out, first_slot_of(k));
    push_opt(&mut out, second_slot_of(k));
    push_opt(&mut out, translation_of(k));
    push_opt(&mut out, alpha_of(k));
    assert(out@ =~= slot_moves(k));
    out
}

/// The move that the held keys call for under the time controls.
pub fn plan_time_move(k: HeldKeys) -> (r: Option<Adjustment>)
    ensures
        r == time_move(k),
{
    if k.up {
        Some(Adjustment { target: Target::Time, increase: true })
    } else if k.down {
        Some(Adjustment { target: Target::Time, increase: false })
    } else {
        None
    }
}

pub open spec fn lane(v: Vec4Bits, axis: Axis) -> u32 {
    match axis {
        Axis::X => v.x,
        Axis::Y => v.y,
        Axis::Z => v.z,
    }
}

pub open spec fn with_lane(v: Vec4Bits, axis: Axis, bits: u32) -> Vec4Bits {
    match axis {
        Axis::X => Vec4Bits { x: bits, ..v },
        Axis::Y => Vec4Bits { y: bits, ..v },
        Axis::Z => Vec4Bits { z: bits, ..v },
    }
}

/// Whether the material holds the target field.
pub open spec fn holds(m: MaterialView, t: Target) -> bool {
    match t {
        Target::Slot { index, axis } => index < m.position.len(),
        Target::Translation { axis } => false,
        Target::ColorAlpha => true,
        Target::Time => m.time is Some,
    }
}

/// The bits of the target field.
pub open spec fn field(m: MaterialView, t: Target) -> u32 {
    match t {
        Target::Slot { index, axis } => lane(m.position[index as int], axis),
        Target::Translation { axis } => 0,
        Target::ColorAlpha => m.color.w,
        Target::Time => m.time.unwrap(),
    }
}

/// The material with the target field set to `bits` and nothing else changed.
pub open spec fn with_field(m: MaterialView, t: Target, bits: u32) -> MaterialView {
    match t {
        Target::Slot { index, axis } => MaterialView {
            position: m.position.update(index as int, with_lane(m.position[index as int], axis, bits)),
            ..m
        },
        Target::Translation { axis } => m,
        Target::ColorAlpha => MaterialView { color: Vec4Bits { w: bits, ..m.color }, ..m },
        Target::Time => MaterialView { time: Some(bits), ..m },
    }
}

/// The bits a move leaves in its field, given the stepped value.
pub open spec fn settled(a: Adjustment, stepped: u32) -> u32 {
    if floored(a) {
        floor_at_zero(stepped)
    } else {
        stepped
    }
}

impl CoolMaterial {
    /// The bits of the target field, if the material holds it.
    pub fn field_bits(&self, t: Target) -> (r: Option<u32>)
        ensures
            r is Some <==> holds(self@, t),
            r matches Some(b) ==> b == field(self@, t),
    {
        match t {
            Target::Slot { index, axis } => {
                if index < self.position.len() {
                    let v = self.position[index];
                    Some(
                        match axis {
                            Axis::X => v.x,
                            Axis::Y => v.y,
                            Axis::Z => v.z,
                        },
                    )
                } else {
                    None
                }
            },
            Target::Translation { axis } => None,
            Target::ColorAlpha => Some(self.color.w),
            Target::Time => self.time,
        }
    }

    /// Applies a move whose stepped value the caller has computed: stores it
    /// in the target field, floored at zero where the move is floored, and
    /// leaves every other field as it was.
    pub fn apply_move(&mut self, a: Adjustment, stepped: u32)
        requires
            holds(old(self)@, a.target),
        ensures
            final(self)@ == with_field(old(self)@, a.target, settled(a, stepped)),
    {
        let bits = match a.target {
            Target::Slot { index, axis } => {
                if index < 2 && !a.increase && axis == Axis::Z {
                    floor_at_zero_bits(stepped)
                } else {
                    stepped
                }
            },
            _ => stepped,
        };
        match a.target {
            Target::Slot { index, axis } => {
                let v = self.position[index];
                let nv = match axis {
                    Axis::X => Vec4Bits { x: bits, ..v },
                    Axis::Y => Vec4Bits { y: bits, ..v },
                    Axis::Z => Vec4Bits { z: bits, ..v },
                };
                self.position.set(index, nv);
            },
            Target::Translation { axis } => {},
            Target::ColorAlpha => {
                self.color.w = bits;
            },
            Target::Time => {
                self.time = Some(bits);
            },
        }
        assert(self@ =~= with_field(old(self)@, a.target, settled(a, stepped)));
    }
}

/// A move sets its own field to the settled value and leaves every other
/// field of the material as it was.
pub proof fn lemma_move_touches_only_target(m: MaterialView, a: Adjustment, stepped: u32, t: Target)
    requires
        holds(m, a.target),
        holds(m, t),
    ensures
        holds(with_field(m, a.target, settled(a, stepped)), t),
        t == a.target ==> field(with_field(m, a.target, settled(a, stepped)), t) == settled(
            a,
            stepped,
        ),
        t != a.target ==> field(with_field(m, a.target, settled(a, stepped)), t) == field(m, t),
{
}

/// Lowering the depth of either of the first two slots never leaves a
/// negative value: a negative result of the step becomes zero.
pub proof fn lemma_depth_floor(a: Adjustment, stepped: u32)
    requires
        !a.increase,
        a.target == slot(0, Axis::Z) || a.target == slot(1, Axis::Z),
    ensures
        !f32_sign(settled(a, stepped)),
        f32_sign(stepped) ==> settled(a, stepped) == 0,
{
    if f32_is_nan(stepped) || f32_sign(stepped) {
        assert(!f32_sign(0u32)) by (bit_vector);
    }
}

/// The moves of one frame under the slot controls target pairwise different
/// fields, so each field moves at most once per frame.
pub proof fn lemma_slot_moves_distinct(k: HeldKeys)
    ensures
        slot_moves(k).len() <= 4,
        forall|i: int, j: int|
            0 <= i < j < slot_moves(k).len() ==> #[trigger] slot_moves(k)[i].target
                != #[trigger] slot_moves(k)[j].target,
{
}

pub open spec fn lane_index(axis: Axis) -> int {
    match axis {
        Axis::X => 0,
        Axis::Y => 1,
        Axis::Z => 2,
    }
}

/// Offset of a material field in its uniform block.
pub open spec fn field_offset(m: MaterialView, t: Target) -> int {
    match t {
        Target::Slot { index, axis } => (if m.time is Some { 32int } else { 16int }) + 16 * index
            + 4 * lane_index(axis),
        Target::Translation { axis } => 0,
        Target::ColorAlpha => 12,
        Target::Time => 16,
    }
}

proof fn lemma_lane_bytes(v: Vec4Bits, axis: Axis, bits: u32)
    ensures
        vec4_le(with_lane(v, axis, bits)) == splice(vec4_le(v), 4 * lane_index(axis), u32_le(bits)),
{
    assert(vec4_le(with_lane(v, axis, bits)) =~= splice(vec4_le(v), 4 * lane_index(axis), u32_le(bits)));
}

/// Setting one field of a material changes its uniform block in exactly the
/// four bytes at that field's offset, which then hold the new bits; every
/// other byte is kept.
pub proof fn lemma_field_bytes(m: MaterialView, t: Target, bits: u32)
    requires
        holds(m, t),
    ensures
        encoded(with_field(m, t, bits)) == splice(encoded(m), field_offset(m, t), u32_le(bits)),
{
    let n = with_field(m, t, bits);
    lemma_slots_le(m.position);
    match t {
        Target::Slot { index, axis } => {
            let i = index as int;
            let o = field_offset(m, t);
            let head = vec4_le(m.color) + time_le(m.time);
            let nv = with_lane(m.position[i], axis, bits);
            lemma_slots_update(m.position, i, nv);
            lemma_lane_bytes(m.position[i], axis, bits);
            assert(slots_le(m.position).subrange(16 * i, 16 * i + 16) == vec4_le(m.position[i]));
            let sl = slots_le(m.position);
            let inner = splice(vec4_le(m.position[i]), 4 * lane_index(axis), u32_le(bits));
            assert(slots_le(n.position) == splice(sl, 16 * i, inner));
            assert(splice(sl, 16 * i, inner) =~= splice(sl, 16 * i + 4 * lane_index(axis), u32_le(bits)));
            assert(encoded(n) == head + slots_le(n.position));
            assert(encoded(m) == head + sl);
            assert(head.len() + 16 * i + 4 * lane_index(axis) == o);
            assert(encoded(n) =~= splice(encoded(m), o, u32_le(bits)));
        },
        Target::Translation { axis } => {},
        Target::ColorAlpha => {
            assert(encoded(n) =~= splice(encoded(m), 12, u32_le(bits)));
        },
        Target::Time => {
            assert(encoded(n) =~= splice(encoded(m), 16, u32_le(bits)));
        },
    }
}

/// The material after a frame's moves, taken in order; `stepped[i]` is the
/// stepped value of the `i`-th move. A move whose field the material does not
/// hold leaves it as it is.
pub open spec fn after_moves(m: MaterialView, moves: Seq<Adjustment>, stepped: Seq<u32>) -> MaterialView
    decreases moves.len(),
{
    if moves.len() == 0 {
        m
    } else {
        let before = after_moves(m, moves.drop_last(), stepped);
        let a = moves.last();
        if holds(before, a.target) {
            with_field(before, a.target, settled(a, stepped[moves.len() - 1]))
        } else {
            before
        }
    }
}

/// One frame of moves to pairwise different fields sets each moved field to
/// its settled value and leaves every field that no move targets as it was.
pub proof fn lemma_frame_moves(m: MaterialView, moves: Seq<Adjustment>, stepped: Seq<u32>)
    requires
        stepped.len() == moves.len(),
        forall|i: int, j: int|
            0 <= i < j < moves.len() ==> #[trigger] moves[i].target != #[trigger] moves[j].target,
    ensures
        forall|t: Target| #[trigger] holds(after_moves(m, moves, stepped), t) == holds(m, t),
        forall|t: Target|
            holds(m, t) && (forall|i: int| 0 <= i < moves.len() ==> moves[i].target != t) ==> #[trigger] field(
                after_moves(m, moves, stepped),
                t,
            ) == field(m, t),
        forall|i: int|
            0 <= i < moves.len() && holds(m, #[trigger] moves[i].target) ==> field(
                after_moves(m, moves, stepped),
                moves[i].target,
            ) == settled(moves[i], stepped[i]),
    decreases moves.len(),
{
    if moves.len() > 0 {
        let pm = moves.drop_last();
        let ps = stepped.drop_last();
        let n = moves.len() - 1;
        assert forall|i: int, j: int| 0 <= i < j < pm.len() implies #[trigger] pm[i].target
            != #[trigger] pm[j].target by {
            assert(moves[i].target != moves[j].target);
        }
        lemma_frame_moves(m, pm, ps);
        assert(after_moves(m, pm, stepped) == after_moves(m, pm, ps)) by {
            lemma_after_moves_prefix(m, pm, stepped, ps);
        }
        let before = after_moves(m, pm, ps);
        let a = moves.last();
        assert forall|t: Target| #[trigger] holds(after_moves(m, moves, stepped), t) == holds(m, t) by {
            assert(holds(before, t) == holds(m, t));
        }
        assert forall|t: Target|
            holds(m, t) && (forall|i: int| 0 <= i < moves.len() ==> moves[i].target != t) implies #[trigger] field(
            after_moves(m, moves, stepped),
            t,
        ) == field(m, t) by {
            assert(holds(before, t));
            assert forall|i: int| 0 <= i < pm.len() implies pm[i].target != t by {
                assert(pm[i] == moves[i]);
            }
            assert(field(before, t) == field(m, t));
            assert(a.target != t) by {
                assert(moves[n] == a);
            }
            if holds(before, a.target) {
                lemma_move_touches_only_target(before, a, stepped[n], t);
            }
        }
        assert forall|i: int|
            0 <= i < moves.len() && holds(m, #[trigger] moves[i].target) implies field(
            after_moves(m, moves, stepped),
            moves[i].target,
        ) == settled(moves[i], stepped[i]) by {
            assert(holds(before, moves[i].target));
            if i < n {
                assert(pm[i] == moves[i]);
                assert(ps[i] == stepped[i]);
                assert(moves[i].target != moves[n].target);
                assert(holds(before, a.target) == holds(m, a.target));
                if holds(before, a.target) {
                    lemma_move_touches_only_target(before, a, stepped[n], moves[i].target);
                }
            } else {
                lemma_move_touches_only_target(before, a, stepped[n], a.target);
            }
        }
    }
}

proof fn lemma_after_moves_prefix(m: MaterialView, moves: Seq<Adjustment>, s1: Seq<u32>, s2: Seq<u32>)
    requires
        s1.len() >= moves.len(),
        s2.len() >= moves.len(),
        forall|i: int| 0 <= i < moves.len() ==> s1[i] == s2[i],
    ensures
        after_moves(m, moves, s1) == after_moves(m, moves, s2),
    decreases moves.len(),
{
    if moves.len() > 0 {
        lemma_after_moves_prefix(m, moves.drop_last(), s1, s2);
    }
}

/// For any keys held, one frame under the slot controls sets each field that
/// a move targets to that move's settled value, and leaves every field that
/// no move targets as it was.
pub proof fn lemma_slot_frame(m: MaterialView, k: HeldKeys, stepped: Seq<u32>)
    requires
        stepped.len() == slot_moves(k).len(),
    ensures
        forall|t: Target|
            holds(m, t) && (forall|i: int|
                0 <= i < slot_moves(k).len() ==> slot_moves(k)[i].target != t) ==> #[trigger] field(
                after_moves(m, slot_moves(k), stepped),
                t,
            ) == field(m, t),
        forall|i: int|
            0 <= i < slot_moves(k).len() && holds(m, #[trigger] slot_moves(k)[i].target) ==> field(
                after_moves(m, slot_moves(k), stepped),
                slot_moves(k)[i].target,
            ) == settled(slot_moves(k)[i], stepped[i]),
{
    lemma_slot_moves_distinct(k);
    lemma_frame_moves(m, slot_moves(k), stepped);
}

} // verus!
