//! Small helpers for writing bytecode by hand.

use vstd::prelude::*;

use crate::bytes;
use crate::bytes::push_u64;

verus! {

/// The nine bytes of `PUSH8 v`.
pub open spec fn push_code(v: u64) -> Seq<u8> {
    seq![0x01u8] + bytes::le8(v)
}

/// The nine bytes of `PUSH8 v`.
pub fn push(v: u64) -> (o: Vec<u8>)
    ensures
        o@ == push_code(v),
        o@.len() == 9,
{
    broadcast use crate::bytes::group_le;

    let mut o: Vec<u8> = vec![0x01u8];
    push_u64(&mut o, v);
    assert(o@ =~= push_code(v));
    o
}

pub const STOP: u8 = 0x00;

pub const ADD: u8 = 0x03;

pub const MUL: u8 = 0x05;

pub const SLOAD: u8 = 0x11;

pub const SSTORE: u8 = 0x12;

} // verus!
