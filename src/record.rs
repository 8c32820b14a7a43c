use vstd::prelude::*;

verus! {

/// Largest number of position slots a material can carry.
pub const MAX_SLOTS: usize = 64;

/// A four-component float vector, each lane held as its IEEE-754 bit pattern.
#[derive(Clone, Copy, PartialEq, Eq, Structural, Debug, Default)]
pub struct Vec4Bits {
    pub x: u32,
    pub y: u32,
    pub z: u32,
    pub w: u32,
}

/// Mathematical value of a [`CoolMaterial`].
pub ghost struct MaterialView {
    pub color: Vec4Bits,
    pub time: Option<u32>,
    pub position: Seq<Vec4Bits>,
}

/// The uniform inputs of the cool material attached to one renderable:
/// an RGBA colour, an optional scalar time, and the position slots.
#[derive(Debug)]
pub struct CoolMaterial {
    pub color: Vec4Bits,
    pub time: Option<u32>,
    pub position: Vec<Vec4Bits>,
}

impl View for CoolMaterial {
    type V = MaterialView;

    open spec fn view(&self) -> MaterialView {
        MaterialView { color: self.color, time: self.time, position: self.position@ }
    }
}

/// The all-zero vector.
pub open spec fn zero_vec4() -> Vec4Bits {
    Vec4Bits { x: 0, y: 0, z: 0, w: 0 }
}

impl Vec4Bits {
    pub fn zero() -> (r: Vec4Bits)
        ensures
            r == zero_vec4(),
    {
        Vec4Bits { x: 0, y: 0, z: 0, w: 0 }
    }

    pub fn new(x: u32, y: u32, z: u32, w: u32) -> (r: Vec4Bits)
        ensures
            r == (Vec4Bits { x, y, z, w }),
    {
        Vec4Bits { x, y, z, w }
    }
}

impl CoolMaterial {
    /// A material with the given colour and time and `slot_count` zero slots.
    pub fn new(color: Vec4Bits, time: Option<u32>, slot_count: usize) -> (r: CoolMaterial)
        requires
            slot_count <= MAX_SLOTS,
        ensures
            r@.color == color,
            r@.time == time,
            r@.position == Seq::new(slot_count as nat, |i: int| zero_vec4()),
    {
        let mut position: Vec<Vec4Bits> = Vec::new();
        let mut i: usize = 0;
        while i < slot_count
            invariant
                i <= slot_count,
                position@ == Seq::new(i as nat, |k: int| zero_vec4()),
            decreases slot_count - i,
        {
            position.push(Vec4Bits::zero());
            i = i + 1;
            assert(position@ =~= Seq::new(i as nat, |k: int| zero_vec4()));
        }
        CoolMaterial { color, time, position }
    }

    /// A value copy: the result holds the same fields and shares nothing.
    pub fn copy(&self) -> (r: CoolMaterial)
        ensures
            r@ == self@,
    {
        let mut position: Vec<Vec4Bits> = Vec::new();
        let mut i: usize = 0;
        while i < self.position.len()
            invariant
                i <= self.position.len(),
                position@ == self.position@.subrange(0, i as int),
            decreases self.position.len() - i,
        {
            position.push(self.position[i]);
            i = i + 1;
            assert(position@ =~= self.position@.subrange(0, i as int));
        }
        assert(position@ =~= self.position@);
        CoolMaterial { color: self.color, time: self.time, position }
    }
}

} // verus!
