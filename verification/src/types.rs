//! Packets.

use vstd::prelude::*;

verus! {

/// The largest payload of a packet.
pub const PACKET_DATA_SIZE: usize = 1_232;

/// The two kinds of shred.
#[derive(Clone, Copy, Debug, PartialEq, Eq, Structural)]
pub enum ShredType {
    Data,
    Code,
}

impl ShredType {
    /// The number that stands for the kind on the wire and on disk.
    pub open spec fn tag(self) -> u8 {
        match self {
            ShredType::Data => 0b1010_0101,
            ShredType::Code => 0b0101_1010,
        }
    }

    pub fn as_u8(self) -> (tag: u8)
        ensures
            tag == self.tag(),
    {
        match self {
            ShredType::Data => 0b1010_0101,
            ShredType::Code => 0b0101_1010,
        }
    }
}

/// What a shred's common header says, as far as the stores read it.
#[derive(Clone, Copy, Debug, PartialEq, Eq, Structural)]
pub struct ShredHeader {
    pub slot: u64,
    pub index: u32,
    pub version: u16,
    pub fec_set_index: u32,
    pub kind: ShredType,
}

} // verus!
