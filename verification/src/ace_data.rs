use vstd::prelude::*;

use crate::blocks::{DataBlockType, DataBlocks};

verus! {

/// Identification fields of an ACE table header. The numeric header fields
/// (atomic mass fraction, kT, temperature) are floating point and live with
/// the host layer; the logic here reads only the identifiers.
pub struct AceHeader {
    pub zaid: String,
    pub szaid: Option<String>,
}

/// One (ZA, atomic weight ratio) pair of the IZAW array. The ratio is kept
/// as the raw bits of its 64-bit float representation; the decoding logic
/// never computes with it.
#[derive(Clone, Copy, Debug, PartialEq, Eq, Structural)]
pub struct IzawPair {
    pub za: usize,
    pub iz_bits: u64,
}

/// The IZAW array: the S(alpha, beta) pairs of the table.
pub struct IzawArray {
    pub pairs: Vec<IzawPair>,
}

/// The NXS array: the counts and identifiers that lay out the main XXS
/// array. Z and A derive from ZA.
#[derive(Clone, Copy, Debug, PartialEq, Eq, Structural)]
pub struct NxsArray {
    pub xxs_len: usize,
    pub za: usize,
    pub nes: usize,
    pub ntr: usize,
    pub z: usize,
    pub a: usize,
}

impl NxsArray {
    /// Reads the leading NXS entries: XXS length, ZA, number of energies,
    /// number of reactions; Z and A are the thousands and the remainder of
    /// ZA.
    pub fn from_entries(entries: &Vec<usize>) -> (r: Option<NxsArray>)
        ensures
            match r {
                Some(n) => {
                    &&& entries@.len() >= 4
                    &&& n.xxs_len == entries@[0]
                    &&& n.za == entries@[1]
                    &&& n.nes == entries@[2]
                    &&& n.ntr == entries@[3]
                    &&& n.z == entries@[1] as int / 1000
                    &&& n.a == entries@[1] as int % 1000
                },
                None => entries@.len() < 4,
            },
    {
        if entries.len() < 4 {
            return None;
        }
        let za = entries[1];
        Some(
            NxsArray {
                xxs_len: entries[0],
                za,
                nes: entries[2],
                ntr: entries[3],
                z: za / 1000,
                a: za % 1000,
            },
        )
    }
}

/// The JXS array: one start index into the XXS array per block slot; zero
/// means the block is absent.
pub struct JxsArray {
    pub slots: Vec<usize>,
}

impl JxsArray {
    pub open spec fn wf(&self) -> bool {
        self.slots@.len() == 32
    }

    /// Reads the 32 JXS entries.
    pub fn from_entries(entries: &Vec<usize>) -> (r: Option<JxsArray>)
        ensures
            match r {
                Some(j) => j.wf() && entries@.len() >= 32 && j.slots@ == entries@.subrange(0, 32),
                None => entries@.len() < 32,
            },
    {
        if entries.len() < 32 {
            return None;
        }
        let mut slots: Vec<usize> = Vec::new();
        for i in 0..32usize
            invariant
                entries@.len() >= 32,
                slots@ == entries@.subrange(0, i as int),
        {
            slots.push(entries[i]);
            proof {
                assert(slots@ =~= entries@.subrange(0, i as int + 1));
            }
        }
        Some(JxsArray { slots })
    }

    /// The start index recorded for a block type's JXS slot.
    pub fn get(&self, block_type: &DataBlockType) -> (r: usize)
        requires
            self.wf(),
        ensures
            r == self.slots@[block_type.jxs_slot_spec() - 1],
    {
        let slot = block_type.jxs_slot();
        self.slots[slot - 1]
    }
}

/// A decoded ACE table: header, index arrays and the decoded data blocks.
pub struct AceIsotopeData {
    pub header: AceHeader,
    pub izaw_array: IzawArray,
    pub nxs_array: NxsArray,
    pub jxs_array: JxsArray,
    pub data_blocks: DataBlocks,
}

impl AceIsotopeData {
    /// ZAID of the isotope.
    pub fn zaid(&self) -> (r: String)
        ensures
            r@ == self.header.zaid@,
    {
        self.header.zaid.clone()
    }

    /// SZAID of the isotope, present from format version 2.0.0 on.
    pub fn szaid(&self) -> (r: Option<String>)
        ensures
            match r {
                Some(s) => self.header.szaid is Some && s@ == self.header.szaid.unwrap()@,
                None => self.header.szaid is None,
            },
    {
        match &self.header.szaid {
            Some(s) => Some(s.clone()),
            None => None,
        }
    }

    /// S(alpha, beta) pairs of ZAIDs and atomic weight ratios.
    pub fn s_a_b_pairs(&self) -> (r: Vec<IzawPair>)
        ensures
            r@ == self.izaw_array.pairs@,
    {
        let n = self.izaw_array.pairs.len();
        let mut out: Vec<IzawPair> = Vec::new();
        for i in 0..n
            invariant
                n == self.izaw_array.pairs@.len(),
                out@ == self.izaw_array.pairs@.subrange(0, i as int),
        {
            out.push(self.izaw_array.pairs[i]);
            proof {
                assert(out@ =~= self.izaw_array.pairs@.subrange(0, i as int + 1));
            }
        }
        proof {
            assert(out@ =~= self.izaw_array.pairs@);
        }
        out
    }

    /// Number of entries in the main XXS data array.
    pub fn num_entries(&self) -> (r: usize)
        ensures
            r == self.nxs_array.xxs_len,
    {
        self.nxs_array.xxs_len
    }

    /// Number of energies of the grid.
    pub fn num_energies(&self) -> (r: usize)
        ensures
            r == self.nxs_array.nes,
    {
        self.nxs_array.nes
    }

    /// ZA of the isotope.
    pub fn za(&self) -> (r: usize)
        ensures
            r == self.nxs_array.za,
    {
        self.nxs_array.za
    }

    /// Atomic number.
    pub fn z(&self) -> (r: usize)
        ensures
            r == self.nxs_array.z,
    {
        self.nxs_array.z
    }

    /// Mass number.
    pub fn a(&self) -> (r: usize)
        ensures
            r == self.nxs_array.a,
    {
        self.nxs_array.a
    }
}

} // verus!
