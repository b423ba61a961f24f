//! Vector-tile geometry integers: the packed command and zigzag-coded
//! parameter values of the tile grammar.

use vstd::prelude::*;
use vstd::bits::lemma_u32_low_bits_mask_is_mod;

verus! {

/// A geometry command of a vector tile.
#[derive(Debug, Clone, Copy, PartialEq, Eq, Structural)]
pub enum GeoCmd {
    MoveTo,
    LineTo,
    ClosePath,
    UnKnown,
}

/// The command that a packed command integer names in its low three bits.
pub open spec fn spec_cmd_id(v: u32) -> GeoCmd {
    if v % 8 == 1 {
        GeoCmd::MoveTo
    } else if v % 8 == 2 {
        GeoCmd::LineTo
    } else if v % 8 == 7 {
        GeoCmd::ClosePath
    } else {
        GeoCmd::UnKnown
    }
}

/// A packed command integer: a command id in the low three bits and a repeat
/// count above them.
pub struct CommandInteger(pub u32);

impl CommandInteger {
    /// The command named by the low three bits.
    pub fn id(&self) -> (r: GeoCmd)
        ensures
            r == spec_cmd_id(self.0),
    {
        proof {
            lemma_u32_low_bits_mask_is_mod(self.0, 3);
            vstd::arithmetic::power2::lemma2_to64();
        }
        match self.0 & 0x07 {
            0x01 => GeoCmd::MoveTo,
            0x02 => GeoCmd::LineTo,
            0x07 => GeoCmd::ClosePath,
            _ => GeoCmd::UnKnown,
        }
    }

    /// The repeat count stored above the command id.
    pub fn count(&self) -> (r: u32)
        ensures
            r == self.0 / 8,
    {
        proof {
            vstd::bits::lemma_u32_shr_is_div(self.0, 3);
            vstd::arithmetic::power2::lemma2_to64();
        }
        self.0 >> 3
    }
}

/// The signed value a zigzag-coded parameter integer stands for.
pub open spec fn spec_zigzag(v: u32) -> int {
    if v % 2 == 0 {
        v as int / 2
    } else {
        -(v as int / 2) - 1
    }
}

/// A zigzag-coded geometry parameter.
pub struct ParameterInteger(pub u32);

impl ParameterInteger {
    /// Decodes the zigzag coding: even values map to 0, 1, 2, ... and odd
    /// values to -1, -2, -3, ...
    pub fn value(&self) -> (r: i32)
        ensures
            r == spec_zigzag(self.0),
    {
        let half: u32 = self.0 / 2;
        if self.0 % 2 == 0 {
            half as i32
        } else {
            -(half as i32) - 1
        }
    }
}

} // verus!
