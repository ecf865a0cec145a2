//! The index mapping's persisted identity.  Only `gamma` and the index
//! offset go to the wire, as raw 64-bit double bit patterns; everything
//! else about the logarithmic mapping is derived from them by the
//! floating-point layer around this crate.
use crate::buffer::Input;
use crate::buffer::Output;
use crate::error::Error;
use crate::flag::Flag;
use crate::flag::FlagType;
use vstd::prelude::*;

verus! {

/// The mapping layouts the wire format names.  Only the logarithmic one
/// exists; the flag leaves room for others.
#[derive(Clone, Copy, Debug, PartialEq, Eq, Structural)]
pub enum IndexMappingLayout {
    LOG,
}

impl IndexMappingLayout {
    /// Reads the layout out of an index-mapping flag; fails exactly on a
    /// sub-marker that names no layout.
    pub fn of_flag(flag: &Flag) -> (r: Result<IndexMappingLayout, Error>)
        ensures
            match r {
                Ok(l) => flag.spec_marker() / 4 == 0 && l == IndexMappingLayout::LOG,
                Err(e) => flag.spec_marker() / 4 != 0 && e matches Error::InvalidArgument(_),
            },
    {
        let index = flag.get_marker() / 4;
        match index {
            0 => Ok(IndexMappingLayout::LOG),
            _ => Err(Error::InvalidArgument("Unknown Index Flag.")),
        }
    }

    /// The flag announcing a mapping of this layout.
    pub fn to_flag(self) -> (r: Flag)
        ensures
            r.spec_marker() == Flag::spec_with_type(FlagType::IndexMapping, 0),
    {
        Flag::with_type(FlagType::IndexMapping, 0)
    }
}

/// A logarithmic index mapping, identified on the wire by the raw bit
/// patterns of its two parameters: the bucket growth ratio `gamma` and the
/// real-valued index offset.
#[derive(Clone, Copy, Debug, PartialEq, Eq, Structural)]
pub enum IndexMapping {
    LogarithmicMapping(u64, u64),
}

/// The wire bytes of a mapping: its layout flag, then `gamma` and the
/// index offset as little-endian doubles.
pub open spec fn mapping_bytes(m: IndexMapping) -> Seq<u8> {
    seq![Flag::spec_with_type(FlagType::IndexMapping, 0)] + crate::buffer::le8(m.spec_gamma_bits())
        + crate::buffer::le8(m.spec_index_offset_bits())
}

impl IndexMapping {
    pub open spec fn spec_gamma_bits(self) -> u64 {
        match self {
            IndexMapping::LogarithmicMapping(g, _o) => g,
        }
    }

    pub open spec fn spec_index_offset_bits(self) -> u64 {
        match self {
            IndexMapping::LogarithmicMapping(_g, o) => o,
        }
    }

    /// A mapping from the raw bit patterns of its parameters.
    pub fn with_gamma_offset_bits(gamma_bits: u64, index_offset_bits: u64) -> (r: IndexMapping)
        ensures
            r.spec_gamma_bits() == gamma_bits,
            r.spec_index_offset_bits() == index_offset_bits,
    {
        IndexMapping::LogarithmicMapping(gamma_bits, index_offset_bits)
    }

    pub fn layout(&self) -> (r: IndexMappingLayout)
        ensures
            r == IndexMappingLayout::LOG,
    {
        match self {
            IndexMapping::LogarithmicMapping(_g, _o) => IndexMappingLayout::LOG,
        }
    }

    pub fn gamma_bits(&self) -> (r: u64)
        ensures
            r == self.spec_gamma_bits(),
    {
        match self {
            IndexMapping::LogarithmicMapping(g, _o) => *g,
        }
    }

    pub fn index_offset_bits(&self) -> (r: u64)
        ensures
            r == self.spec_index_offset_bits(),
    {
        match self {
            IndexMapping::LogarithmicMapping(_g, o) => *o,
        }
    }

    /// Writes the mapping's flag and parameters.
    pub fn encode(&self, out: &mut Output)
        ensures
            final(out)@ == old(out)@ + mapping_bytes(*self),
    {
        self.layout().to_flag().encode(out);
        out.write_double_le_bits(self.gamma_bits());
        out.write_double_le_bits(self.index_offset_bits());
        proof {
            assert(out@ =~= old(out)@ + mapping_bytes(*self));
        }
    }

    /// Reads the two mapping parameters following an index-mapping flag;
    /// fails exactly when fewer than sixteen bytes remain.
    pub fn decode_body(input: &mut Input) -> (r: Result<IndexMapping, Error>)
        requires
            old(input).wf(),
        ensures
            final(input).wf(),
            final(input).bytes() == old(input).bytes(),
            final(input).pos() >= old(input).pos(),
            match r {
                Ok(m) => old(input).pos() + 16 <= old(input).bytes().len() && final(input).pos()
                    == old(input).pos() + 16 && crate::buffer::le8(m.spec_gamma_bits()) == old(
                    input,
                ).bytes().subrange(old(input).pos() as int, old(input).pos() as int + 8)
                    && crate::buffer::le8(m.spec_index_offset_bits()) == old(
                    input,
                ).bytes().subrange(old(input).pos() as int + 8, old(input).pos() as int + 16),
                Err(e) => old(input).bytes().len() < old(input).pos() + 16 && e
                    matches Error::IoError(_),
            },
    {
        let gamma_bits = input.read_double_le_bits()?;
        let index_offset_bits = input.read_double_le_bits()?;
        Ok(IndexMapping::LogarithmicMapping(gamma_bits, index_offset_bits))
    }
}

} // verus!
