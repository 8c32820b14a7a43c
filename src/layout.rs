//! Byte layout of the material's uniform block, by the uniform address-space
//! packing rules: `color: vec4<f32>` at offset 0; then, when the material has
//! one, `time: f32` at offset 16 followed by 12 bytes of padding; then the
//! `array<vec4<f32>, N>` of position slots, 16 bytes apart. Every lane is
//! stored little-endian. The block's size is thus always a multiple of 16.
use vstd::prelude::*;
use crate::record::{zero_vec4, CoolMaterial, MaterialView, Vec4Bits, MAX_SLOTS};

verus! {

/// The shape of a uniform block: whether it has the scalar time field, and
/// how many position slots it carries.
#[derive(Clone, Copy, PartialEq, Eq, Structural, Debug)]
pub struct UniformSchema {
    pub has_time: bool,
    pub slot_count: usize,
}

pub open spec fn schema_wf(s: UniformSchema) -> bool {
    s.slot_count <= MAX_SLOTS
}

/// The schema that a material value fits.
pub open spec fn schema_of(m: MaterialView) -> UniformSchema {
    UniformSchema { has_time: m.time is Some, slot_count: m.position.len() as usize }
}

pub open spec fn fits(s: UniformSchema, m: MaterialView) -> bool {
    &&& m.time is Some == s.has_time
    &&& m.position.len() == s.slot_count
}

/// Offset of the first position slot.
pub open spec fn slots_offset(s: UniformSchema) -> nat {
    if s.has_time { 32 } else { 16 }
}

/// Size in bytes of the whole block.
pub open spec fn block_size(s: UniformSchema) -> nat {
    (slots_offset(s) + 16 * s.slot_count) as nat
}

/// Little-endian bytes of a 32-bit value.
pub open spec fn u32_le(v: u32) -> Seq<u8> {
    seq![(v & 0xff) as u8, ((v >> 8u32) & 0xff) as u8, ((v >> 16u32) & 0xff) as u8, (v >> 24u32) as u8]
}

pub open spec fn vec4_le(v: Vec4Bits) -> Seq<u8> {
    u32_le(v.x) + u32_le(v.y) + u32_le(v.z) + u32_le(v.w)
}

pub open spec fn zeros(n: nat) -> Seq<u8> {
    Seq::new(n, |i: int| 0u8)
}

/// The slots one after the other.
pub open spec fn slots_le(s: Seq<Vec4Bits>) -> Seq<u8>
    decreases s.len(),
{
    if s.len() == 0 {
        Seq::empty()
    } else {
        slots_le(s.drop_last()) + vec4_le(s.last())
    }
}

/// The time field with its padding, if the material has one.
pub open spec fn time_le(t: Option<u32>) -> Seq<u8> {
    match t {
        Some(v) => u32_le(v) + zeros(12),
        None => Seq::empty(),
    }
}

/// The bytes of the uniform block that holds `m`.
pub open spec fn encoded(m: MaterialView) -> Seq<u8> {
    vec4_le(m.color) + time_le(m.time) + slots_le(m.position)
}

/// The 32-bit value stored little-endian at `off`.
pub open spec fn u32_at(b: Seq<u8>, off: int) -> u32 {
    (b[off] as u32) | ((b[off + 1] as u32) << 8u32) | ((b[off + 2] as u32) << 16u32) | ((
    b[off + 3] as u32) << 24u32)
}

pub open spec fn vec4_at(b: Seq<u8>, off: int) -> Vec4Bits {
    Vec4Bits { x: u32_at(b, off), y: u32_at(b, off + 4), z: u32_at(b, off + 8), w: u32_at(b, off + 12) }
}

/// The material that a block of the given schema holds; `None` when the
/// byte count is not the block's size.
pub open spec fn decoded(s: UniformSchema, b: Seq<u8>) -> Option<MaterialView> {
    if b.len() != block_size(s) {
        None
    } else {
        Some(
            MaterialView {
                color: vec4_at(b, 0),
                time: if s.has_time { Some(u32_at(b, 16)) } else { None },
                position: Seq::new(s.slot_count as nat, |i: int| vec4_at(b, slots_offset(s) + 16 * i)),
            },
        )
    }
}

proof fn lemma_u32_round_trip(v: u32)
    ensures
        u32_at(u32_le(v), 0) == v,
{
    let b0 = (v & 0xff) as u8;
    let b1 = ((v >> 8u32) & 0xff) as u8;
    let b2 = ((v >> 16u32) & 0xff) as u8;
    let b3 = (v >> 24u32) as u8;
    assert((b0 as u32) | ((b1 as u32) << 8u32) | ((b2 as u32) << 16u32) | ((b3 as u32) << 24u32)
        == v) by (bit_vector)
        requires
            b0 == (v & 0xff) as u8,
            b1 == ((v >> 8u32) & 0xff) as u8,
            b2 == ((v >> 16u32) & 0xff) as u8,
            b3 == (v >> 24u32) as u8,
    ;
}

proof fn lemma_u32_at(b: Seq<u8>, off: int, v: u32)
    requires
        0 <= off,
        off + 4 <= b.len(),
        b.subrange(off, off + 4) == u32_le(v),
    ensures
        u32_at(b, off) == v,
{
    let c = u32_le(v);
    assert(b[off] == b.subrange(off, off + 4)[0]);
    assert(b[off + 1] == b.subrange(off, off + 4)[1]);
    assert(b[off + 2] == b.subrange(off, off + 4)[2]);
    assert(b[off + 3] == b.subrange(off, off + 4)[3]);
    lemma_u32_round_trip(v);
}

proof fn lemma_vec4_round_trip(b: Seq<u8>, off: int, v: Vec4Bits)
    requires
        0 <= off,
        off + 16 <= b.len(),
        b.subrange(off, off + 16) == vec4_le(v),
    ensures
        vec4_at(b, off) == v,
{
    let w = b.subrange(off, off + 16);
    assert(w.subrange(0, 4) =~= u32_le(v.x));
    assert(w.subrange(4, 8) =~= u32_le(v.y));
    assert(w.subrange(8, 12) =~= u32_le(v.z));
    assert(w.subrange(12, 16) =~= u32_le(v.w));
    assert(b.subrange(off, off + 4) =~= w.subrange(0, 4));
    assert(b.subrange(off + 4, off + 8) =~= w.subrange(4, 8));
    assert(b.subrange(off + 8, off + 12) =~= w.subrange(8, 12));
    assert(b.subrange(off + 12, off + 16) =~= w.subrange(12, 16));
    lemma_u32_at(b, off, v.x);
    lemma_u32_at(b, off + 4, v.y);
    lemma_u32_at(b, off + 8, v.z);
    lemma_u32_at(b, off + 12, v.w);
}

pub(crate) proof fn lemma_slots_le(s: Seq<Vec4Bits>)
    ensures
        slots_le(s).len() == 16 * s.len(),
        forall|i: int|
            0 <= i < s.len() ==> #[trigger] slots_le(s).subrange(16 * i, 16 * i + 16) == vec4_le(
                s[i],
            ),
    decreases s.len(),
{
    if s.len() > 0 {
        let p = s.drop_last();
        lemma_slots_le(p);
        let whole = slots_le(s);
        assert(whole == slots_le(p) + vec4_le(s.last()));
        assert forall|i: int| 0 <= i < s.len() implies #[trigger] whole.subrange(
            16 * i,
            16 * i + 16,
        ) == vec4_le(s[i]) by {
            if i < p.len() {
                assert(whole.subrange(16 * i, 16 * i + 16) =~= slots_le(p).subrange(
                    16 * i,
                    16 * i + 16,
                ));
                assert(p[i] == s[i]);
            } else {
                assert(whole.subrange(16 * i, 16 * i + 16) =~= vec4_le(s.last()));
            }
        }
    }
}

/// `b` with the bytes from `off` on overwritten by `w`.
pub open spec fn splice(b: Seq<u8>, off: int, w: Seq<u8>) -> Seq<u8> {
    b.subrange(0, off) + w + b.subrange(off + w.len(), b.len() as int)
}

/// Replacing one slot replaces its sixteen bytes and no others.
pub(crate) proof fn lemma_slots_update(s: Seq<Vec4Bits>, i: int, v: Vec4Bits)
    requires
        0 <= i < s.len(),
    ensures
        slots_le(s.update(i, v)) == splice(slots_le(s), 16 * i, vec4_le(v)),
    decreases s.len(),
{
    let u = s.update(i, v);
    let p = s.drop_last();
    lemma_slots_le(s);
    lemma_slots_le(p);
    lemma_slots_le(u);
    assert(slots_le(s) == slots_le(p) + vec4_le(s.last()));
    if i == s.len() - 1 {
        assert(u.drop_last() =~= p);
        assert(slots_le(u) == slots_le(p) + vec4_le(v));
        assert(slots_le(s).subrange(0, 16 * i) =~= slots_le(p));
        assert(slots_le(u) =~= splice(slots_le(s), 16 * i, vec4_le(v)));
    } else {
        assert(u.drop_last() =~= p.update(i, v));
        lemma_slots_update(p, i, v);
        assert(u.last() == s.last());
        assert(slots_le(u) == slots_le(p.update(i, v)) + vec4_le(s.last()));
        assert(slots_le(s).subrange(0, 16 * i) =~= slots_le(p).subrange(0, 16 * i));
        assert(slots_le(s).subrange(16 * i + 16, slots_le(s).len() as int) =~= slots_le(p).subrange(
            16 * i + 16,
            slots_le(p).len() as int,
        ) + vec4_le(s.last()));
        assert(slots_le(u) =~= splice(slots_le(s), 16 * i, vec4_le(v)));
    }
}

/// Size of the encoded block, by the schema that `m` fits.
pub proof fn lemma_encoded_len(m: MaterialView)
    requires
        m.position.len() <= MAX_SLOTS,
    ensures
        encoded(m).len() == block_size(schema_of(m)),
{
    lemma_slots_le(m.position);
}

/// Decoding an encoded block with the schema its material fits gives back the
/// material, every field bit for bit.
pub proof fn lemma_decode_encode(s: UniformSchema, m: MaterialView)
    requires
        schema_wf(s),
        fits(s, m),
    ensures
        decoded(s, encoded(m)) == Some(m),
{
    let b = encoded(m);
    lemma_slots_le(m.position);
    let head = vec4_le(m.color) + time_le(m.time);
    assert(b == head + slots_le(m.position));
    assert(head.len() == slots_offset(s));
    assert(b.subrange(0, 16) =~= vec4_le(m.color));
    lemma_vec4_round_trip(b, 0, m.color);
    if s.has_time {
        let t = m.time.unwrap();
        assert(b.subrange(16, 20) =~= u32_le(t));
        lemma_u32_at(b, 16, t);
    }
    let o = slots_offset(s) as int;
    let pos = Seq::new(s.slot_count as nat, |i: int| vec4_at(b, o + 16 * i));
    assert forall|i: int| 0 <= i < s.slot_count implies pos[i] == m.position[i] by {
        assert(slots_le(m.position).subrange(16 * i, 16 * i + 16) == vec4_le(m.position[i]));
        assert(b.subrange(o + 16 * i, o + 16 * i + 16) =~= slots_le(m.position).subrange(
            16 * i,
            16 * i + 16,
        ));
        lemma_vec4_round_trip(b, o + 16 * i, m.position[i]);
    }
    assert(pos =~= m.position);
}

/// Size in bytes of a block of schema `s`.
pub fn block_len(s: UniformSchema) -> (r: usize)
    requires
        schema_wf(s),
    ensures
        r == block_size(s),
{
    let head: usize = if s.has_time { 32 } else { 16 };
    head + 16 * s.slot_count
}

fn push_u32(out: &mut Vec<u8>, v: u32)
    ensures
        final(out)@ == old(out)@ + u32_le(v),
{
    out.push((v & 0xff) as u8);
    out.push(((v >> 8u32) & 0xff) as u8);
    out.push(((v >> 16u32) & 0xff) as u8);
    out.push((v >> 24u32) as u8);
    assert(out@ =~= old(out)@ + u32_le(v));
}

fn push_vec4(out: &mut Vec<u8>, v: Vec4Bits)
    ensures
        final(out)@ == old(out)@ + vec4_le(v),
{
    push_u32(out, v.x);
    push_u32(out, v.y);
    push_u32(out, v.z);
    push_u32(out, v.w);
    assert(out@ =~= old(out)@ + vec4_le(v));
}

/// Encodes a material into the bytes of its uniform block, fields in schema
/// order, zero-valued slots included.
pub fn encode(m: &CoolMaterial) -> (r: Vec<u8>)
    ensures
        r@ == encoded(m@),
{
    let mut out: Vec<u8> = Vec::new();
    push_vec4(&mut out, m.color);
    match m.time {
        Some(t) => {
            push_u32(&mut out, t);
            let mut k: usize = 0;
            while k < 12
                invariant
                    k <= 12,
                    out@ == vec4_le(m.color) + u32_le(t) + zeros(k as nat),
                decreases 12 - k,
            {
                out.push(0u8);
                k = k + 1;
                assert(out@ =~= vec4_le(m.color) + u32_le(t) + zeros(k as nat));
            }
        },
        None => {},
    }
    assert(out@ =~= vec4_le(m.color) + time_le(m.time));
    let ghost head = out@;
    let mut i: usize = 0;
    while i < m.position.len()
        invariant
            i <= m.position.len(),
            out@ == head + slots_le(m.position@.subrange(0, i as int)),
        decreases m.position.len() - i,
    {
        let ghost before = out@;
        push_vec4(&mut out, m.position[i]);
        let ghost next = m.position@.subrange(0, i + 1);
        assert(next.drop_last() =~= m.position@.subrange(0, i as int));
        assert(out@ =~= head + slots_le(next));
        i = i + 1;
    }
    assert(m.position@.subrange(0, i as int) =~= m.position@);
    out
}

fn read_u32(b: &Vec<u8>, off: usize) -> (r: u32)
    requires
        off + 4 <= b.len(),
    ensures
        r == u32_at(b@, off as int),
{
    (b[off] as u32) | ((b[off + 1] as u32) << 8u32) | ((b[off + 2] as u32) << 16u32) | ((b[off
        + 3] as u32) << 24u32)
}

fn read_vec4(b: &Vec<u8>, off: usize) -> (r: Vec4Bits)
    requires
        off + 16 <= b.len(),
    ensures
        r == vec4_at(b@, off as int),
{
    Vec4Bits {
        x: read_u32(b, off),
        y: read_u32(b, off + 4),
        z: read_u32(b, off + 8),
        w: read_u32(b, off + 12),
    }
}

/// Reads a uniform block of schema `s` back into a material; `None` when the
/// byte count is not the block's size.
pub fn decode(s: UniformSchema, b: &Vec<u8>) -> (r: Option<CoolMaterial>)
    requires
        schema_wf(s),
    ensures
        r is None <==> decoded(s, b@) is None,
        r matches Some(m) ==> decoded(s, b@) == Some(m@),
{
    if b.len() != block_len(s) {
        return None;
    }
    let color = read_vec4(b, 0);
    let time = if s.has_time { Some(read_u32(b, 16)) } else { None };
    let base: usize = if s.has_time { 32 } else { 16 };
    let mut position: Vec<Vec4Bits> = Vec::new();
    let mut i: usize = 0;
    while i < s.slot_count
        invariant
            i <= s.slot_count,
            s.slot_count <= MAX_SLOTS,
            base == slots_offset(s),
            b@.len() == block_size(s),
            position@ == Seq::new(i as nat, |k: int| vec4_at(b@, base + 16 * k)),
        decreases s.slot_count - i,
    {
        position.push(read_vec4(b, base + 16 * i));
        i = i + 1;
        assert(position@ =~= Seq::new(i as nat, |k: int| vec4_at(b@, base + 16 * k)));
    }
    let m = CoolMaterial { color, time, position };
    assert(decoded(s, b@) == Some(m@));
    Some(m)
}

impl CoolMaterial {
    /// The material every field of which is zero, shaped by `s`: the value a
    /// freshly created material starts from.
    pub fn blank(s: UniformSchema) -> (r: CoolMaterial)
        requires
            schema_wf(s),
        ensures
            fits(s, r@),
            r@.color == zero_vec4(),
            r@.time == (if s.has_time { Some(0u32) } else { None }),
            r@.position == Seq::new(s.slot_count as nat, |i: int| zero_vec4()),
    {
        let time = if s.has_time { Some(0u32) } else { None };
        CoolMaterial::new(Vec4Bits::zero(), time, s.slot_count)
    }
}

} // verus!
