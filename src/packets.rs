//! The packets of the protocol, each a plain record of wire fields.
use vstd::prelude::*;

pub mod c2s;
pub mod s2c;

verus! {

pub const HANDSHAKING_STATE: u8 = 0;
pub const STATUS_STATE: u8 = 1;
pub const LOGIN_STATE: u8 = 2;
pub const PLAY_STATE: u8 = 3;

/// A field carried on the wire as a VarInt.
#[derive(Clone, Copy, Debug, PartialEq, Eq)]
pub struct Vari32 {
    pub val: i32,
}

} // verus!
