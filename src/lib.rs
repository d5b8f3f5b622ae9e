//! An intercepting proxy core for a length-prefixed, stateful wire protocol:
//! the VarInt codec, an indexed byte buffer, typed packets, the transformer
//! registry and the frame pipeline that re-emits (possibly modified) frames.

pub mod varint;
pub mod indexed_vec;
pub mod buffers;
pub mod packets;
pub mod transformation;
pub mod contexts;
pub mod dispatch;
pub mod handling;
pub mod framing;
