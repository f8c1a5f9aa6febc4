use vstd::prelude::*;

verus! {

/// Number of bytes one preset occupies in the device image.
pub const PRESET_LEN: usize = 16;

/// One configuration slot of the device.
#[derive(Debug, Clone, Copy, PartialEq, Eq)]
pub struct Preset {
    pub program_changes: [u8; 5],
    pub control_changes: [(u8, u8); 2],
    pub expression_pedal_a: (u8, u8, u8),
    pub expression_pedal_b: (u8, u8, u8),
    pub note: u8,
}

impl Preset {
    /// The sixteen bytes of the fixed layout, in field order.
    pub open spec fn bytes(self) -> Seq<u8> {
        seq![
            self.program_changes[0],
            self.program_changes[1],
            self.program_changes[2],
            self.program_changes[3],
            self.program_changes[4],
            self.control_changes[0].0,
            self.control_changes[0].1,
            self.control_changes[1].0,
            self.control_changes[1].1,
            self.expression_pedal_a.0,
            self.expression_pedal_a.1,
            self.expression_pedal_a.2,
            self.expression_pedal_b.0,
            self.expression_pedal_b.1,
            self.expression_pedal_b.2,
            self.note,
        ]
    }

    /// A preset with every field zero.
    pub fn new() -> (r: Self)
        ensures
            r.bytes() == Seq::new(16, |i: int| 0u8),
    {
        let r = Preset {
            program_changes: [0, 0, 0, 0, 0],
            control_changes: [(0, 0), (0, 0)],
            expression_pedal_a: (0, 0, 0),
            expression_pedal_b: (0, 0, 0),
            note: 0,
        };
        assert(r.bytes() =~= Seq::new(16, |i: int| 0u8));
        r
    }

    /// Reads a preset from the first sixteen bytes of `bytes`.
    pub fn from_bytes(bytes: &[u8]) -> (r: Self)
        requires
            bytes@.len() >= 16,
        ensures
            r.bytes() == bytes@.subrange(0, 16),
    {
        let r = Preset {
            program_changes: [bytes[0], bytes[1], bytes[2], bytes[3], bytes[4]],
            control_changes: [(bytes[5], bytes[6]), (bytes[7], bytes[8])],
            expression_pedal_a: (bytes[9], bytes[10], bytes[11]),
            expression_pedal_b: (bytes[12], bytes[13], bytes[14]),
            note: bytes[15],
        };
        assert(r.bytes() =~= bytes@.subrange(0, 16));
        r
    }

    /// The sixteen bytes of the fixed layout.
    pub fn to_bytes(&self) -> (r: [u8; 16])
        ensures
            r@ == self.bytes(),
    {
        let r = [
            self.program_changes[0],
            self.program_changes[1],
            self.program_changes[2],
            self.program_changes[3],
            self.program_changes[4],
            self.control_changes[0].0,
            self.control_changes[0].1,
            self.control_changes[1].0,
            self.control_changes[1].1,
            self.expression_pedal_a.0,
            self.expression_pedal_a.1,
            self.expression_pedal_a.2,
            self.expression_pedal_b.0,
            self.expression_pedal_b.1,
            self.expression_pedal_b.2,
            self.note,
        ];
        assert(r@ =~= self.bytes());
        r
    }
}

/// A preset is determined by its bytes.
pub proof fn lemma_bytes_injective(a: Preset, b: Preset)
    requires
        a.bytes() == b.bytes(),
    ensures
        a == b,
{
    assert(a.bytes()[0] == b.bytes()[0]);
    assert(a.bytes()[1] == b.bytes()[1]);
    assert(a.bytes()[2] == b.bytes()[2]);
    assert(a.bytes()[3] == b.bytes()[3]);
    assert(a.bytes()[4] == b.bytes()[4]);
    assert(a.bytes()[5] == b.bytes()[5]);
    assert(a.bytes()[6] == b.bytes()[6]);
    assert(a.bytes()[7] == b.bytes()[7]);
    assert(a.bytes()[8] == b.bytes()[8]);
    assert(a.bytes()[9] == b.bytes()[9]);
    assert(a.bytes()[10] == b.bytes()[10]);
    assert(a.bytes()[11] == b.bytes()[11]);
    assert(a.bytes()[12] == b.bytes()[12]);
    assert(a.bytes()[13] == b.bytes()[13]);
    assert(a.bytes()[14] == b.bytes()[14]);
    assert(a.bytes()[15] == b.bytes()[15]);
    assert(a.program_changes@ =~= b.program_changes@);
    assert(a.control_changes@ =~= b.control_changes@);
    assert(a.program_changes == b.program_changes);
    assert(a.control_changes == b.control_changes);
}

} // verus!
