use vstd::prelude::*;
use crate::nibbles::{all_nibbles, joined, nibbles_of};

verus! {

/// Splits an instruction word into its four nibbles, most significant first.
pub fn get_nibbles(instr: u16) -> (r: [u16; 4])
    ensures
        r@ == nibbles_of(instr),
{
    crate::nibbles::get_nibbles(instr)
}

/// Reassembles base-16 digits, most significant first, into one number.
pub fn join_nibbles(nibbles: &[u16]) -> (r: u16)
    requires
        1 <= nibbles@.len() <= 4,
        all_nibbles(nibbles@),
    ensures
        r == joined(nibbles@),
{
    crate::nibbles::join_nibbles(nibbles)
}

} // verus!
