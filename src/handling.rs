//! The protocol registry: for each (direction, state, id) whether packets
//! of that key are decoded, and the ordered chain of transformers run on
//! them; and the dispatch of one decoded frame through its chain.
use vstd::prelude::*;
use crate::contexts::ConnectionContext;
use crate::dispatch::{kind_for, spec_kind_for, Packet, PacketKind};
use crate::indexed_vec::IndexedVec;
use crate::buffers::VarIntsMut;
use crate::packets::PLAY_STATE;
use crate::packets::s2c::EntityPositionPacket;
use crate::transformation::{combined, TransformationResult};
use crate::varint::encode_var_i32;

verus! {

/// Number of packet ids per state.
pub const PACKET_IDS: usize = 0x5C;

/// Number of protocol states.
pub const STATES: usize = 4;

/// The part of a connection that transformers read and change: its
/// protocol state and compression threshold.
pub type Protocol = (u8, i32);

pub open spec fn protocol_of(c: ConnectionContext) -> Protocol {
    (c.state, c.compression_threshold)
}

/// A transformer installed on a packet kind.
#[derive(Clone, Copy, Debug, PartialEq, Eq, Structural)]
pub enum Transformer {
    /// On a handshake: both halves take its next state.
    AdoptNextState,
    /// Both halves enter the play state.
    EnterPlay,
    /// On a compression notice: both halves take its threshold.
    AdoptCompression,
    /// On an entity move: sets the x and y deltas.
    SetEntityDelta { delta_x: i16, delta_y: i16 },
    /// Drops the frame.
    Cancel,
    /// Observes only.
    Pass,
    /// Forwards the packet re-encoded, unchanged in value.
    Reencode,
}

/// What one transformer does: its result, the packet after it, and the
/// protocol of the receiving half and of its peer after it. A transformer
/// that does not fit the packet's kind leaves everything as it is.
pub open spec fn applies(t: Transformer, p: Packet, a: Protocol, b: Protocol) -> (
    TransformationResult,
    Packet,
    Protocol,
    Protocol,
) {
    match t {
        Transformer::AdoptNextState => match p {
            Packet::Handshake(h) => {
                let s = h.next_state.val as u8;
                (TransformationResult::Unchanged, p, (s, a.1), (s, b.1))
            },
            _ => (TransformationResult::Unchanged, p, a, b),
        },
        Transformer::EnterPlay => (
            TransformationResult::Unchanged,
            p,
            (PLAY_STATE, a.1),
            (PLAY_STATE, b.1),
        ),
        Transformer::AdoptCompression => match p {
            Packet::SetCompression(c) => {
                let th = c.threshold.val;
                (TransformationResult::Unchanged, p, (a.0, th), (b.0, th))
            },
            _ => (TransformationResult::Unchanged, p, a, b),
        },
        Transformer::SetEntityDelta { delta_x, delta_y } => match p {
            Packet::EntityPosition(e) => (
                TransformationResult::Modified,
                Packet::EntityPosition(
                    EntityPositionPacket {
                        entity_id: e.entity_id,
                        delta_x,
                        delta_y,
                        delta_z: e.delta_z,
                        on_ground: e.on_ground,
                    },
                ),
                a,
                b,
            ),
            _ => (TransformationResult::Unchanged, p, a, b),
        },
        Transformer::Cancel => (TransformationResult::Canceled, p, a, b),
        Transformer::Pass => (TransformationResult::Unchanged, p, a, b),
        Transformer::Reencode => (TransformationResult::Modified, p, a, b),
    }
}

/// Runs `chain` in order from the combined result `acc`, stopping at the
/// first `Canceled`.
pub open spec fn run_chain(chain: Seq<Transformer>, acc: TransformationResult, p: Packet, a: Protocol, b: Protocol) -> (
    TransformationResult,
    Packet,
    Protocol,
    Protocol,
)
    decreases chain.len(),
{
    if chain.len() == 0 {
        (acc, p, a, b)
    } else {
        let (r, next_p, a2, b2) = applies(chain[0], p, a, b);
        let acc2 = combined(acc, r);
        if acc2 == TransformationResult::Canceled {
            (TransformationResult::Canceled, next_p, a2, b2)
        } else {
            run_chain(chain.drop_first(), acc2, next_p, a2, b2)
        }
    }
}

/// A chain that holds a `Cancel` ends `Canceled`, wherever it stands.
pub proof fn lemma_cancel_anywhere(chain: Seq<Transformer>, acc: TransformationResult, p: Packet, a: Protocol, b: Protocol, i: int)
    requires
        0 <= i < chain.len(),
        chain[i] == Transformer::Cancel,
    ensures
        run_chain(chain, acc, p, a, b).0 == TransformationResult::Canceled,
    decreases chain.len(),
{
    if i > 0 {
        let (r, next_p, a2, b2) = applies(chain[0], p, a, b);
        let acc2 = combined(acc, r);
        if acc2 != TransformationResult::Canceled {
            lemma_cancel_anywhere(chain.drop_first(), acc2, next_p, a2, b2, i - 1);
        }
    }
}

/// A chain of observers only leaves the result `Unchanged`.
pub proof fn lemma_observers_unchanged(chain: Seq<Transformer>, p: Packet, a: Protocol, b: Protocol)
    requires
        forall|i: int|
            0 <= i < chain.len() ==> chain[i] != Transformer::Cancel && chain[i]
                != Transformer::Reencode && !(chain[i] is SetEntityDelta),
    ensures
        run_chain(chain, TransformationResult::Unchanged, p, a, b).0
            == TransformationResult::Unchanged,
    decreases chain.len(),
{
    if chain.len() > 0 {
        let (r, next_p, a2, b2) = applies(chain[0], p, a, b);
        assert(r == TransformationResult::Unchanged);
        lemma_observers_unchanged(chain.drop_first(), next_p, a2, b2);
    }
}

/// Runs one transformer on a decoded packet and the two halves.
pub fn apply_transformer(
    t: Transformer,
    connection_ctx: &mut ConnectionContext,
    other_ctx: &mut ConnectionContext,
    packet: &mut Packet,
) -> (r: TransformationResult)
    ensures
        ({
            let (res, next_p, a2, b2) = applies(
                t,
                *old(packet),
                protocol_of(*old(connection_ctx)),
                protocol_of(*old(other_ctx)),
            );
            &&& r == res
            &&& *final(packet) == next_p
            &&& protocol_of(*final(connection_ctx)) == a2
            &&& protocol_of(*final(other_ctx)) == b2
        }),
        final(connection_ctx).token_self == old(connection_ctx).token_self,
        final(connection_ctx).token_other == old(connection_ctx).token_other,
        final(connection_ctx).should_close == old(connection_ctx).should_close,
        final(connection_ctx).read_buffering == old(connection_ctx).read_buffering,
        final(connection_ctx).write_buffering == old(connection_ctx).write_buffering,
        final(connection_ctx).is_writable == old(connection_ctx).is_writable,
        final(connection_ctx).inbound == old(connection_ctx).inbound,
        final(other_ctx).token_self == old(other_ctx).token_self,
        final(other_ctx).token_other == old(other_ctx).token_other,
        final(other_ctx).should_close == old(other_ctx).should_close,
        final(other_ctx).read_buffering == old(other_ctx).read_buffering,
        final(other_ctx).write_buffering == old(other_ctx).write_buffering,
        final(other_ctx).is_writable == old(other_ctx).is_writable,
        final(other_ctx).inbound == old(other_ctx).inbound,
{
    match t {
        Transformer::AdoptNextState => {
            match packet {
                Packet::Handshake(h) => {
                    let s = h.next_state.val as u8;
                    connection_ctx.state = s;
                    other_ctx.state = s;
                },
                _ => {},
            }
            TransformationResult::Unchanged
        },
        Transformer::EnterPlay => {
            connection_ctx.state = PLAY_STATE;
            other_ctx.state = PLAY_STATE;
            TransformationResult::Unchanged
        },
        Transformer::AdoptCompression => {
            match packet {
                Packet::SetCompression(c) => {
                    connection_ctx.compression_threshold = c.threshold.val;
                    other_ctx.compression_threshold = c.threshold.val;
                },
                _ => {},
            }
            TransformationResult::Unchanged
        },
        Transformer::SetEntityDelta { delta_x, delta_y } => {
            match packet {
                Packet::EntityPosition(e) => {
                    e.delta_x = delta_x;
                    e.delta_y = delta_y;
                    TransformationResult::Modified
                },
                _ => TransformationResult::Unchanged,
            }
        },
        Transformer::Cancel => TransformationResult::Canceled,
        Transformer::Pass => TransformationResult::Unchanged,
        Transformer::Reencode => TransformationResult::Modified,
    }
}

/// A frame's packet id and the bytes after it, decompressed.
pub struct UnparsedPacket {
    pub id: i32,
    pub buf: IndexedVec,
}

impl UnparsedPacket {
    pub fn new(id: i32, buf: IndexedVec) -> (r: UnparsedPacket)
        ensures
            r.id == id,
            r.buf == buf,
    {
        UnparsedPacket { id, buf }
    }
}

/// The cell of a (state, id) key in a direction's table.
pub open spec fn slot(state: int, id: int) -> int {
    state * PACKET_IDS + id
}

/// The registry of decoders and transformer chains.
pub struct HandlingContext {
    inbound_packets: Vec<bool>,
    outbound_packets: Vec<bool>,
    inbound_transformers: Vec<Vec<Transformer>>,
    outbound_transformers: Vec<Vec<Transformer>>,
}

impl HandlingContext {
    /// Packets under the key are decoded.
    pub closed spec fn has_supplier(&self, inbound: bool, state: int, id: int) -> bool {
        if inbound {
            self.inbound_packets@[slot(state, id)]
        } else {
            self.outbound_packets@[slot(state, id)]
        }
    }

    /// The transformers under the key, in registration order.
    pub closed spec fn chain(&self, inbound: bool, state: int, id: int) -> Seq<Transformer> {
        if inbound {
            self.inbound_transformers@[slot(state, id)]@
        } else {
            self.outbound_transformers@[slot(state, id)]@
        }
    }

    /// Each table has a cell per key, and only keys that name a packet kind
    /// have a decoder or transformers.
    pub closed spec fn wf(&self) -> bool {
        &&& self.inbound_packets@.len() == STATES * PACKET_IDS
        &&& self.outbound_packets@.len() == STATES * PACKET_IDS
        &&& self.inbound_transformers@.len() == STATES * PACKET_IDS
        &&& self.outbound_transformers@.len() == STATES * PACKET_IDS
        &&& forall|inbound: bool, state: int, id: int|
            0 <= state < STATES && 0 <= id < PACKET_IDS && (#[trigger] self.has_supplier(
                inbound,
                state,
                id,
            ) || self.chain(inbound, state, id).len() > 0) ==> spec_kind_for(
                inbound,
                state as u8,
                id as i32,
            ) is Some
    }

    /// Frames under the key are decoded and run through a chain; any other
    /// frame is forwarded untouched.
    pub open spec fn active(&self, inbound: bool, state: u8, id: i32) -> bool {
        &&& state < STATES
        &&& 0 <= id < PACKET_IDS
        &&& self.has_supplier(inbound, state as int, id as int)
        &&& self.chain(inbound, state as int, id as int).len() > 0
    }

    /// How dispatching the decoded packet `p` of an active key ends: the
    /// chain runs from `Unchanged` on the protocols of the two halves
    /// (`c0`, `o0`, after it `c1`, `o1`); `Unchanged` and `Canceled` come
    /// back as they are, and `Modified` with `VarInt(id) ++ body` of the
    /// packet after the chain, or as `Canceled` with the connection marked
    /// for closing when its lengths no longer fit a VarInt.
    pub open spec fn handled_as(
        &self,
        inbound: bool,
        state: u8,
        id: i32,
        p: Packet,
        c0: ConnectionContext,
        o0: ConnectionContext,
        c1: ConnectionContext,
        o1: ConnectionContext,
        r: (TransformationResult, Option<IndexedVec>),
    ) -> bool {
        let (res, next_p, a2, b2) = run_chain(
            self.chain(inbound, state as int, id as int),
            TransformationResult::Unchanged,
            p,
            protocol_of(c0),
            protocol_of(o0),
        );
        &&& protocol_of(c1) == a2
        &&& protocol_of(o1) == b2
        &&& res == TransformationResult::Modified && next_p.wire_ok() ==> (r.0
            == TransformationResult::Modified && (r.1 matches Some(b) && b.readable()
            == encode_var_i32(id) + next_p.wire()))
        &&& res == TransformationResult::Modified && !next_p.wire_ok() ==> r.0
            == TransformationResult::Canceled && r.1 is None && c1.should_close
        &&& res != TransformationResult::Modified ==> r.0 == res && r.1 is None && c1.should_close
            == c0.should_close
    }

    /// An empty registry.
    pub fn new() -> (r: HandlingContext)
        ensures
            r.wf(),
            forall|inbound: bool, state: int, id: int|
                #![trigger r.has_supplier(inbound, state, id)]
                #![trigger r.chain(inbound, state, id)]
                0 <= state < STATES && 0 <= id < PACKET_IDS ==> !r.has_supplier(inbound, state, id)
                    && r.chain(inbound, state, id).len() == 0,
    {
        let mut inbound_packets: Vec<bool> = Vec::new();
        let mut outbound_packets: Vec<bool> = Vec::new();
        let mut inbound_transformers: Vec<Vec<Transformer>> = Vec::new();
        let mut outbound_transformers: Vec<Vec<Transformer>> = Vec::new();
        let n = STATES * PACKET_IDS;
        let mut i: usize = 0;
        while i < n
            invariant
                n == STATES * PACKET_IDS,
                i <= n,
                inbound_packets@.len() == i,
                outbound_packets@.len() == i,
                inbound_transformers@.len() == i,
                outbound_transformers@.len() == i,
                forall|j: int| 0 <= j < i ==> !inbound_packets@[j] && !outbound_packets@[j]
                    && inbound_transformers@[j]@.len() == 0 && outbound_transformers@[j]@.len()
                    == 0,
            decreases n - i,
        {
            inbound_packets.push(false);
            outbound_packets.push(false);
            inbound_transformers.push(Vec::new());
            outbound_transformers.push(Vec::new());
            i = i + 1;
        }
        let r = HandlingContext {
            inbound_packets,
            outbound_packets,
            inbound_transformers,
            outbound_transformers,
        };
        assert forall|inbound: bool, state: int, id: int|
            #![trigger r.has_supplier(inbound, state, id)]
            #![trigger r.chain(inbound, state, id)]
            0 <= state < STATES && 0 <= id < PACKET_IDS implies !r.has_supplier(inbound, state, id)
                && r.chain(inbound, state, id).len() == 0 by {
            lemma_slot_range(state, id);
            let j = slot(state, id);
            assert(!r.inbound_packets@[j] && !r.outbound_packets@[j]);
            assert(r.inbound_transformers@[j]@.len() == 0);
            assert(r.outbound_transformers@[j]@.len() == 0);
        }
        r
    }

    /// Installs decoding for packets of `kind`.
    pub fn register_packet_supplier(&mut self, kind: PacketKind)
        requires
            old(self).wf(),
        ensures
            final(self).wf(),
            forall|inbound: bool, state: int, id: int|
                #![trigger final(self).chain(inbound, state, id)]
                #![trigger final(self).has_supplier(inbound, state, id)]
                0 <= state < STATES && 0 <= id < PACKET_IDS ==> {
                    &&& final(self).chain(inbound, state, id) == old(self).chain(inbound, state, id)
                    &&& final(self).has_supplier(inbound, state, id) == (old(self).has_supplier(
                        inbound,
                        state,
                        id,
                    ) || (inbound == kind.spec_inbound() && state == kind.spec_state() && id
                        == kind.spec_id()))
                },
    {
        let i = kind.state() as usize * PACKET_IDS + kind.id() as usize;
        proof {
            lemma_kind_in_range(kind);
        }
        if kind.inbound() {
            self.inbound_packets.set(i, true);
        } else {
            self.outbound_packets.set(i, true);
        }
        proof {
            lemma_slot_injective(kind);
            let ks = kind.spec_state() as int;
            let ki = kind.spec_id() as int;
            assert forall|inbound: bool, state: int, id: int|
                #![trigger self.chain(inbound, state, id)]
                #![trigger self.has_supplier(inbound, state, id)]
                0 <= state < STATES && 0 <= id < PACKET_IDS implies {
                    let here = inbound == kind.spec_inbound() && state == ks && id == ki;
                    &&& self.chain(inbound, state, id) == old(self).chain(inbound, state, id)
                    &&& self.has_supplier(inbound, state, id) == (old(self).has_supplier(
                        inbound,
                        state,
                        id,
                    ) || here)
                } by {
                lemma_slot_range(state, id);
                if slot(state, id) == slot(ks, ki) {
                    assert(state == ks && id == ki);
                }
                
            }
            assert forall|inbound: bool, state: int, id: int|
                0 <= state < STATES && 0 <= id < PACKET_IDS && (#[trigger] self.has_supplier(
                    inbound,
                    state,
                    id,
                ) || self.chain(inbound, state, id).len() > 0) implies spec_kind_for(
                inbound,
                state as u8,
                id as i32,
            ) is Some by {
                lemma_slot_range(state, id);
                if inbound == kind.spec_inbound() && state == ks && id == ki {
                    lemma_kind_in_range(kind);
                } else {
                    assert(old(self).has_supplier(inbound, state, id) || old(self).chain(inbound, state, id).len() > 0);
                }
            }
        }
    }

    /// Appends `transformer` to the chain of `kind`, installing decoding for
    /// it when absent.
    pub fn register_transformer(&mut self, kind: PacketKind, transformer: Transformer)
        requires
            old(self).wf(),
        ensures
            final(self).wf(),
            forall|inbound: bool, state: int, id: int|
                #![trigger final(self).chain(inbound, state, id)]
                #![trigger final(self).has_supplier(inbound, state, id)]
                0 <= state < STATES && 0 <= id < PACKET_IDS ==> {
                    let here = inbound == kind.spec_inbound() && state == kind.spec_state() && id
                        == kind.spec_id();
                    &&& final(self).chain(inbound, state, id) == if here {
                        old(self).chain(inbound, state, id).push(transformer)
                    } else {
                        old(self).chain(inbound, state, id)
                    }
                    &&& final(self).has_supplier(inbound, state, id) == (old(self).has_supplier(
                        inbound,
                        state,
                        id,
                    ) || here)
                },
    {
        self.register_packet_supplier(kind);
        let ghost mid = *self;
        let i = kind.state() as usize * PACKET_IDS + kind.id() as usize;
        proof {
            lemma_kind_in_range(kind);
        }
        if kind.inbound() {
            let mut v: Vec<Transformer> = Vec::new();
            std::mem::swap(&mut self.inbound_transformers[i], &mut v);
            v.push(transformer);
            self.inbound_transformers.set(i, v);
            assert(self.inbound_transformers@ =~= mid.inbound_transformers@.update(i as int, self.inbound_transformers@[i as int]));
        } else {
            let mut v: Vec<Transformer> = Vec::new();
            std::mem::swap(&mut self.outbound_transformers[i], &mut v);
            v.push(transformer);
            self.outbound_transformers.set(i, v);
            assert(self.outbound_transformers@ =~= mid.outbound_transformers@.update(i as int, self.outbound_transformers@[i as int]));
        }
        proof {
            lemma_slot_injective(kind);
            let ks = kind.spec_state() as int;
            let ki = kind.spec_id() as int;
            assert forall|inbound: bool, state: int, id: int|
                #![trigger self.chain(inbound, state, id)]
                #![trigger self.has_supplier(inbound, state, id)]
                0 <= state < STATES && 0 <= id < PACKET_IDS implies {
                    let here = inbound == kind.spec_inbound() && state == ks && id == ki;
                    &&& self.chain(inbound, state, id) == if here {
                        old(self).chain(inbound, state, id).push(transformer)
                    } else {
                        old(self).chain(inbound, state, id)
                    }
                    &&& self.has_supplier(inbound, state, id) == (old(self).has_supplier(
                        inbound,
                        state,
                        id,
                    ) || here)
                } by {
                lemma_slot_range(state, id);
                if slot(state, id) == slot(ks, ki) {
                    assert(state == ks && id == ki);
                }
                assert(mid.chain(inbound, state, id) == old(self).chain(inbound, state, id));
                assert(mid.has_supplier(inbound, state, id) == (old(self).has_supplier(inbound, state, id) || (inbound == kind.spec_inbound() && state == ks && id == ki)));
            }
            assert forall|inbound: bool, state: int, id: int|
                0 <= state < STATES && 0 <= id < PACKET_IDS && (#[trigger] self.has_supplier(
                    inbound,
                    state,
                    id,
                ) || self.chain(inbound, state, id).len() > 0) implies spec_kind_for(
                inbound,
                state as u8,
                id as i32,
            ) is Some by {
                lemma_slot_range(state, id);
                if inbound == kind.spec_inbound() && state == ks && id == ki {
                    lemma_kind_in_range(kind);
                } else {
                    assert(old(self).has_supplier(inbound, state, id) || old(self).chain(inbound, state, id).len() > 0);
                }
            }
        }
    }
}

/// A key's cell lies within the tables.
pub proof fn lemma_slot_range(state: int, id: int)
    requires
        0 <= state < STATES,
        0 <= id < PACKET_IDS,
    ensures
        0 <= slot(state, id) < STATES * PACKET_IDS,
{
    assert(0 <= state * 0x5C + id < 4 * 0x5C) by (nonlinear_arith)
        requires
            0 <= state < 4,
            0 <= id < 0x5C,
    ;
}

impl HandlingContext {
    /// Decodes the packet of a frame whose key is active, runs the key's
    /// chain in order, and returns the combined result, with the
    /// re-encoded `VarInt(id) ++ body` when it is `Modified`. An inactive
    /// key gives `Unchanged` and touches nothing. A body that does not
    /// decode, or a modified packet whose lengths no longer fit a VarInt,
    /// gives `Canceled` and marks the connection for closing.
    pub fn handle_packet(
        &self,
        connection_ctx: &mut ConnectionContext,
        other_ctx: &mut ConnectionContext,
        packet: UnparsedPacket,
        inbound: bool,
    ) -> (r: (TransformationResult, Option<IndexedVec>))
        requires
            self.wf(),
            packet.buf.wf(),
        ensures
            final(connection_ctx).token_self == old(connection_ctx).token_self,
            final(connection_ctx).token_other == old(connection_ctx).token_other,
            final(connection_ctx).read_buffering == old(connection_ctx).read_buffering,
            final(connection_ctx).write_buffering == old(connection_ctx).write_buffering,
            final(connection_ctx).is_writable == old(connection_ctx).is_writable,
            final(connection_ctx).inbound == old(connection_ctx).inbound,
            final(other_ctx).token_self == old(other_ctx).token_self,
            final(other_ctx).token_other == old(other_ctx).token_other,
            final(other_ctx).read_buffering == old(other_ctx).read_buffering,
            final(other_ctx).write_buffering == old(other_ctx).write_buffering,
            final(other_ctx).is_writable == old(other_ctx).is_writable,
            final(other_ctx).inbound == old(other_ctx).inbound,
            final(other_ctx).should_close == old(other_ctx).should_close,
            old(connection_ctx).should_close ==> final(connection_ctx).should_close,
            r.1 matches Some(b) ==> b.wf(),
            !self.active(inbound, old(connection_ctx).state, packet.id) ==> {
                &&& r.0 == TransformationResult::Unchanged
                &&& r.1 is None
                &&& *final(connection_ctx) == *old(connection_ctx)
                &&& *final(other_ctx) == *old(other_ctx)
            },
            self.active(inbound, old(connection_ctx).state, packet.id) ==> {
                let state = old(connection_ctx).state;
                let kind = spec_kind_for(inbound, state, packet.id)->0;
                let chain = self.chain(inbound, state as int, packet.id as int);
                let body = packet.buf.readable();
                &&& !kind.parses(body) ==> r.0 == TransformationResult::Canceled && r.1 is None
                    && final(connection_ctx).should_close && protocol_of(*final(connection_ctx))
                    == protocol_of(*old(connection_ctx)) && protocol_of(*final(other_ctx))
                    == protocol_of(*old(other_ctx))
                &&& kind.parses(body) ==> exists|p: Packet|
                    #![trigger p.parsed_from(body)]
                    p.kind() == kind && p.parsed_from(body) && self.handled_as(
                        inbound,
                        state,
                        packet.id,
                        p,
                        *old(connection_ctx),
                        *old(other_ctx),
                        *final(connection_ctx),
                        *final(other_ctx),
                        r,
                    )
            },
    {
        let id = packet.id;
        let state = connection_ctx.state;
        if state as usize >= STATES || id < 0 || id as usize >= PACKET_IDS {
            return (TransformationResult::Unchanged, None);
        }
        let i = state as usize * PACKET_IDS + id as usize;
        proof {
            lemma_slot_range(state as int, id as int);
        }
        let (has_supplier, transformers) = if inbound {
            (self.inbound_packets[i], &self.inbound_transformers[i])
        } else {
            (self.outbound_packets[i], &self.outbound_transformers[i])
        };
        if !has_supplier || transformers.len() == 0 {
            return (TransformationResult::Unchanged, None);
        }
        let ghost chain = transformers@;
        assert(chain == self.chain(inbound, state as int, id as int));
        assert(self.has_supplier(inbound, state as int, id as int));
        assert(spec_kind_for(inbound, state as int as u8, id as int as i32) is Some);
        assert(self.active(inbound, state, id));
        let ghost body = packet.buf.readable();
        let kind = match kind_for(inbound, state, id) {
            Some(k) => k,
            None => {
                return (TransformationResult::Unchanged, None);
            },
        };
        let mut buf = packet.buf;
        let mut pk = match Packet::read(kind, &mut buf) {
            Some(p) => p,
            None => {
                connection_ctx.should_close = true;
                return (TransformationResult::Canceled, None);
            },
        };
        let ghost first_p = pk;
        let ghost a0 = protocol_of(*connection_ctx);
        let ghost b0 = protocol_of(*other_ctx);
        let mut result = TransformationResult::Unchanged;
        let mut k: usize = 0;
        assert(chain.skip(0) =~= chain);
        assert(first_p.parsed_from(body));
        while k < transformers.len()
            invariant
                first_p.parsed_from(body),
                first_p.kind() == kind,
                state == old(connection_ctx).state,
                id == packet.id,
                self.active(inbound, state, id),
                kind == spec_kind_for(inbound, state, id)->0,
                chain == self.chain(inbound, state as int, id as int),
                body == packet.buf.readable(),
                a0 == protocol_of(*old(connection_ctx)),
                b0 == protocol_of(*old(other_ctx)),
                chain == transformers@,
                k <= chain.len(),
                result != TransformationResult::Canceled,
                run_chain(chain, TransformationResult::Unchanged, first_p, a0, b0) == run_chain(
                    chain.skip(k as int),
                    result,
                    pk,
                    protocol_of(*connection_ctx),
                    protocol_of(*other_ctx),
                ),
                connection_ctx.token_self == old(connection_ctx).token_self,
                connection_ctx.token_other == old(connection_ctx).token_other,
                connection_ctx.read_buffering == old(connection_ctx).read_buffering,
                connection_ctx.write_buffering == old(connection_ctx).write_buffering,
                connection_ctx.is_writable == old(connection_ctx).is_writable,
                connection_ctx.inbound == old(connection_ctx).inbound,
                connection_ctx.should_close == old(connection_ctx).should_close,
                other_ctx.token_self == old(other_ctx).token_self,
                other_ctx.token_other == old(other_ctx).token_other,
                other_ctx.read_buffering == old(other_ctx).read_buffering,
                other_ctx.write_buffering == old(other_ctx).write_buffering,
                other_ctx.is_writable == old(other_ctx).is_writable,
                other_ctx.inbound == old(other_ctx).inbound,
                other_ctx.should_close == old(other_ctx).should_close,
            decreases chain.len() - k,
        {
            let t = transformers[k];
            assert(chain.skip(k as int)[0] == t);
            assert(chain.skip(k as int).drop_first() =~= chain.skip(k + 1));
            let ghost before = (result, pk, protocol_of(*connection_ctx), protocol_of(*other_ctx));
            let step = apply_transformer(t, connection_ctx, other_ctx, &mut pk);
            if result.combine(step) {
                assert(run_chain(chain.skip(k as int), before.0, before.1, before.2, before.3) == (
                    TransformationResult::Canceled,
                    pk,
                    protocol_of(*connection_ctx),
                    protocol_of(*other_ctx),
                ));
                return (TransformationResult::Canceled, None);
            }
            k = k + 1;
        }
        assert(chain.skip(k as int) =~= Seq::<Transformer>::empty());
        match result {
            TransformationResult::Modified => {},
            _ => {
                return (result, None);
            },
        }
        if !pk.fits() {
            connection_ctx.should_close = true;
            return (TransformationResult::Canceled, None);
        }
        let mut buffer = IndexedVec::new();
        buffer.put_var_i32(id);
        pk.write(&mut buffer);
        assert(buffer.readable() =~= encode_var_i32(id) + pk.wire());
        (TransformationResult::Modified, Some(buffer))
    }
}

/// Installs the transformers that drive the protocol state: the
/// handshake's next state, entering play on login success, and adopting
/// the compression threshold, each on both halves.
pub fn register_packets(handler_context: &mut HandlingContext)
    requires
        old(handler_context).wf(),
    ensures
        final(handler_context).wf(),
        final(handler_context).chain(true, 0, 0) == old(handler_context).chain(true, 0, 0).push(
            Transformer::AdoptNextState,
        ),
        final(handler_context).chain(false, 2, 2) == old(handler_context).chain(false, 2, 2).push(
            Transformer::EnterPlay,
        ),
        final(handler_context).chain(false, 2, 3) == old(handler_context).chain(false, 2, 3).push(
            Transformer::AdoptCompression,
        ),
        final(handler_context).has_supplier(true, 0, 0),
        final(handler_context).has_supplier(false, 2, 2),
        final(handler_context).has_supplier(false, 2, 3),
{
    handler_context.register_transformer(PacketKind::Handshake, Transformer::AdoptNextState);
    handler_context.register_transformer(PacketKind::LoginSuccess, Transformer::EnterPlay);
    assert(handler_context.chain(true, 0, 0) == old(handler_context).chain(true, 0, 0).push(
        Transformer::AdoptNextState,
    ));
    handler_context.register_transformer(PacketKind::SetCompression, Transformer::AdoptCompression);
}

/// Every kind's key lies within the tables and names that kind.
pub proof fn lemma_kind_in_range(kind: PacketKind)
    ensures
        kind.spec_state() < STATES,
        0 <= kind.spec_id() < PACKET_IDS,
        0 <= slot(kind.spec_state() as int, kind.spec_id() as int) < STATES * PACKET_IDS,
        spec_kind_for(kind.spec_inbound(), kind.spec_state(), kind.spec_id()) == Some(kind),
{
}

/// Distinct keys have distinct cells.
pub proof fn lemma_slot_injective(kind: PacketKind)
    ensures
        forall|state: int, id: int|
            0 <= state < STATES && 0 <= id < PACKET_IDS && #[trigger] slot(state, id) == slot(
                kind.spec_state() as int,
                kind.spec_id() as int,
            ) ==> state == kind.spec_state() && id == kind.spec_id(),
{
    assert forall|state: int, id: int|
        0 <= state < STATES && 0 <= id < PACKET_IDS && #[trigger] slot(state, id) == slot(
            kind.spec_state() as int,
            kind.spec_id() as int,
        ) implies state == kind.spec_state() && id == kind.spec_id() by {
        let s2 = kind.spec_state() as int;
        let i2 = kind.spec_id() as int;
        assert(state == s2 && id == i2) by (nonlinear_arith)
            requires
                0 <= state < 4,
                0 <= id < 0x5C,
                0 <= s2 < 4,
                0 <= i2 < 0x5C,
                state * 0x5C + id == s2 * 0x5C + i2,
        ;
    }
}

} // verus!
