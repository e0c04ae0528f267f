//! What the processor can do.

use vstd::prelude::*;
use crate::bytes::{find, occurs};
use crate::logger::put;

verus! {

/// What the processor can do: its instruction set, as the device tree spells it.
#[derive(Debug)]
pub struct Capabilities {
    pub isa_string: Vec<u8>,
}

/// The extension that lets a core set its timer itself: "sstc".
pub open spec fn sstc_word() -> Seq<u8> {
    seq![0x73u8, 0x73, 0x74, 0x63]
}

/// What the processor can do, from the instruction set in the device tree, and whether its cores
/// set their timers themselves. Where the device tree says nothing, they do not.
pub fn init_from_fdt(isa: &[u8]) -> (r: (Option<Capabilities>, bool))
    ensures
        r.0 is None <==> isa@.len() == 0,
        r.0 matches Some(c) ==> c.isa_string@ == isa@,
        r.1 == (isa@.len() > 0 && occurs(isa@, sstc_word())),
{
    if isa.len() == 0 {
        return (None, false);
    }
    let word: [u8; 4] = [0x73, 0x73, 0x74, 0x63];
    assert(word@ =~= sstc_word());
    let sstc: bool = find(isa, word.as_slice());
    let mut s: Vec<u8> = Vec::new();
    put(&mut s, isa);
    assert(s@ =~= isa@);
    (Some(Capabilities { isa_string: s }), sstc)
}

} // verus!
