//! The self-describing tag byte in front of every encoded field: the low
//! two bits give the field type, the rest a type-specific sub-marker.
use crate::buffer::Input;
use crate::buffer::Output;
use crate::error::Error;
use vstd::prelude::*;

verus! {

/// The four field types of the wire format.
#[derive(Clone, Copy, Debug, PartialEq, Eq, Structural)]
pub enum FlagType {
    SketchFeatures,
    PositiveStore,
    IndexMapping,
    NegativeStore,
}

impl FlagType {
    /// The two type bits of this field type.
    pub open spec fn spec_bits(self) -> u8 {
        match self {
            FlagType::SketchFeatures => 0,
            FlagType::PositiveStore => 1,
            FlagType::IndexMapping => 2,
            FlagType::NegativeStore => 3,
        }
    }

    pub fn bits(self) -> (r: u8)
        ensures
            r == self.spec_bits(),
    {
        match self {
            FlagType::SketchFeatures => 0,
            FlagType::PositiveStore => 1,
            FlagType::IndexMapping => 2,
            FlagType::NegativeStore => 3,
        }
    }

    /// The field type named by two bits.
    pub open spec fn spec_of_bits(b: u8) -> FlagType
        recommends
            b < 4,
    {
        if b == 0 {
            FlagType::SketchFeatures
        } else if b == 1 {
            FlagType::PositiveStore
        } else if b == 2 {
            FlagType::IndexMapping
        } else {
            FlagType::NegativeStore
        }
    }
}

/// One tag byte: `sub_flag * 4 + type bits`.
#[derive(Clone, Copy, Debug, PartialEq, Eq, Structural)]
pub struct Flag {
    marker: u8,
}

impl Flag {
    /// The whole tag byte.
    pub closed spec fn spec_marker(self) -> u8 {
        self.marker
    }

    /// The flag byte combining a field type and a sub-marker.
    pub open spec fn spec_with_type(t: FlagType, sub_flag: u8) -> u8
        recommends
            sub_flag < 64,
    {
        (sub_flag * 4 + t.spec_bits()) as u8
    }

    pub fn with_type(t: FlagType, sub_flag: u8) -> (r: Flag)
        requires
            sub_flag < 64,
        ensures
            r.spec_marker() == Flag::spec_with_type(t, sub_flag),
    {
        Flag { marker: sub_flag * 4 + t.bits() }
    }

    pub fn of_byte(b: u8) -> (r: Flag)
        ensures
            r.spec_marker() == b,
    {
        Flag { marker: b }
    }

    pub fn get_marker(&self) -> (r: u8)
        ensures
            r == self.spec_marker(),
    {
        self.marker
    }

    /// The field type named by the low two bits.
    pub fn get_type(&self) -> (r: FlagType)
        ensures
            r == FlagType::spec_of_bits((self.spec_marker() % 4) as u8),
    {
        let b = self.marker % 4;
        if b == 0 {
            FlagType::SketchFeatures
        } else if b == 1 {
            FlagType::PositiveStore
        } else if b == 2 {
            FlagType::IndexMapping
        } else {
            FlagType::NegativeStore
        }
    }

    pub fn encode(&self, out: &mut Output)
        ensures
            final(out)@ == old(out)@.push(self.spec_marker()),
    {
        out.write_byte(self.marker);
    }

    /// Reads one tag byte; fails exactly when the input is exhausted.
    pub fn decode(input: &mut Input) -> (r: Result<Flag, Error>)
        requires
            old(input).wf(),
        ensures
            final(input).wf(),
            final(input).bytes() == old(input).bytes(),
            match r {
                Ok(f) => old(input).pos() < old(input).bytes().len() && f.spec_marker() == old(
                    input,
                ).bytes()[old(input).pos() as int] && final(input).pos() == old(input).pos() + 1,
                Err(e) => old(input).pos() == old(input).bytes().len() && e matches Error::IoError(
                    _,
                ),
            },
    {
        let b = input.read_byte()?;
        Ok(Flag { marker: b })
    }
}

} // verus!
