use crate::ident::{spec_index, EntityId};
use crate::message::{BodyV, EnvelopeV, MsgEnvelope, MsgPayload, PayloadV};
use crate::rng::{rng_out, SeededRng};
use vstd::prelude::*;

verus! {

/// A condition with no recovery: the process stops on it.
#[derive(Clone, Copy, Debug, PartialEq, Eq, Structural)]
pub enum FatalError {
    /// A `generate` request arrived before any `init`.
    GenerateBeforeInit,
    /// A structurally valid message of a kind this node never answers,
    /// such as a reply-only kind arriving as a request.
    UnexpectedMessage,
}

/// The mathematical shape of a node's context: its identifier once
/// known, the roster, the next outgoing sequence number, and the random
/// source as its seed and draw count once seeded.
pub struct NodeStateV {
    pub self_id: Option<EntityId>,
    pub peers: Seq<EntityId>,
    pub next_msg_id: usize,
    pub rng: Option<(u64, nat)>,
}

/// The context a single node carries across its lifetime.
pub struct NodeState {
    self_id: Option<EntityId>,
    peers: Vec<EntityId>,
    next_msg_id: usize,
    rng: Option<SeededRng>,
}

impl View for NodeState {
    type V = NodeStateV;

    closed spec fn view(&self) -> NodeStateV {
        NodeStateV {
            self_id: self.self_id,
            peers: self.peers@,
            next_msg_id: self.next_msg_id,
            rng: match self.rng {
                Some(r) => Some((r.seed(), r.drawn())),
                None => None,
            },
        }
    }
}

/// The state a node starts from: nothing known, the sequence counter at one.
pub open spec fn initial_state() -> NodeStateV {
    NodeStateV { self_id: None, peers: Seq::empty(), next_msg_id: 1, rng: None }
}

/// The 64-bit unique value: epoch seconds truncated to 32 bits on top,
/// the node index modulo four on bits 31 and 30, and the random word
/// with its low two bits cleared across the low bits.  The random word
/// is not shifted, so its top two bits land on the node bits; the layout
/// reproduces the generator this protocol is deployed against.
pub open spec fn spec_make_id(now: u64, idx: u64, r: u32) -> u64 {
    (now & 0xFFFF_FFFF) << 32 | (idx & 0x3) << 30 | r as u64 & 0xFFFF_FFFC
}

/// The seed and position the node draws its next random word from: the
/// stored source if one was seeded, else a fresh stream seeded from the
/// node's own index.
pub open spec fn spec_draw_source(st: NodeStateV, me: EntityId) -> (u64, nat) {
    match st.rng {
        Some(sp) => sp,
        None => (spec_index(me) as u64, 0),
    }
}

/// What one dispatcher step does: from the current state and one
/// incoming envelope, the state afterwards and either the single reply
/// or the fatal condition.  `init` records identity and roster and is
/// acknowledged; `echo` is reflected in any state; `generate` answers
/// with a fresh identifier once initialized and is fatal before that;
/// every reply-only kind is fatal.  A successful step consumes exactly
/// one sequence number; a fatal one leaves the state unchanged.
pub open spec fn spec_handle(st: NodeStateV, env: EnvelopeV, now: u64) -> (NodeStateV, Result<
    EnvelopeV,
    FatalError,
>) {
    match env.body.payload {
        PayloadV::Init { node_id, node_ids } => {
            let st1 = NodeStateV {
                self_id: Some(node_id),
                peers: node_ids,
                next_msg_id: (st.next_msg_id + 1) as usize,
                rng: st.rng,
            };
            (st1, Ok(crate::message::spec_reply(env, st.next_msg_id, PayloadV::InitOk)))
        },
        PayloadV::Echo { echo } => {
            let st1 = NodeStateV { next_msg_id: (st.next_msg_id + 1) as usize, ..st };
            (st1, Ok(crate::message::spec_reply(env, st.next_msg_id, PayloadV::EchoOk { echo })))
        },
        PayloadV::Generate => {
            match st.self_id {
                Some(me) => {
                    let sp = spec_draw_source(st, me);
                    let id = spec_make_id(now, spec_index(me) as u64, rng_out(sp.0, sp.1));
                    let st1 = NodeStateV {
                        next_msg_id: (st.next_msg_id + 1) as usize,
                        rng: Some((sp.0, sp.1 + 1)),
                        ..st
                    };
                    (
                        st1,
                        Ok(
                            crate::message::spec_reply(
                                env,
                                st.next_msg_id,
                                PayloadV::GenerateOk { id },
                            ),
                        ),
                    )
                },
                None => (st, Err(FatalError::GenerateBeforeInit)),
            }
        },
        _ => (st, Err(FatalError::UnexpectedMessage)),
    }
}

/// Copies a roster of identifiers.
fn copy_ids(v: &Vec<EntityId>) -> (r: Vec<EntityId>)
    ensures
        r@ == v@,
{
    let mut r: Vec<EntityId> = Vec::new();
    let mut i: usize = 0;
    while i < v.len()
        invariant
            i <= v.len(),
            r@ == v@.subrange(0, i as int),
        decreases v.len() - i,
    {
        r.push(v[i]);
        proof {
            assert(v@.subrange(0, i as int).push(v@[i as int]) =~= v@.subrange(0, i as int + 1));
        }
        i += 1;
    }
    proof {
        assert(v@.subrange(0, v@.len() as int) =~= v@);
    }
    r
}

/// Packs epoch seconds, node index and random word into the unique value.
pub fn make_unique_id(now: u64, idx: u64, r: u32) -> (id: u64)
    ensures
        id == spec_make_id(now, idx, r),
{
    (now & 0xFFFF_FFFF) << 32 | (idx & 0x3) << 30 | r as u64 & 0xFFFF_FFFC
}

impl NodeState {
    /// A node that has seen nothing yet.
    pub fn new() -> (r: NodeState)
        ensures
            r@ == initial_state(),
    {
        let r = NodeState { self_id: None, peers: Vec::new(), next_msg_id: 1, rng: None };
        proof {
            assert(r@.peers =~= initial_state().peers);
        }
        r
    }

    /// The sequence number the next reply will carry.
    pub fn next_msg_id(&self) -> (r: usize)
        ensures
            r == self@.next_msg_id,
    {
        self.next_msg_id
    }

    /// One dispatcher step, exactly as `spec_handle` states it.  The
    /// sequence counter must not yet have reached its ceiling; the
    /// transport around the node never comes near it.
    pub fn handle(&mut self, env: &MsgEnvelope, now_secs: u64) -> (r: Result<
        MsgEnvelope,
        FatalError,
    >)
        requires
            old(self)@.next_msg_id < usize::MAX,
        ensures
            final(self)@ == spec_handle(old(self)@, env@, now_secs).0,
            (match r {
                Ok(out) => Ok::<EnvelopeV, FatalError>(out@),
                Err(e) => Err::<EnvelopeV, FatalError>(e),
            }) == spec_handle(old(self)@, env@, now_secs).1,
    {
        match &env.body.payload {
            MsgPayload::Init { node_id, node_ids } => {
                self.self_id = Some(*node_id);
                self.peers = copy_ids(node_ids);
                let m = self.next_msg_id;
                self.next_msg_id = m + 1;
                Ok(env.reply(m, MsgPayload::InitOk))
            },
            MsgPayload::Echo { echo } => {
                let m = self.next_msg_id;
                self.next_msg_id = m + 1;
                Ok(env.reply(m, MsgPayload::EchoOk { echo: echo.clone() }))
            },
            MsgPayload::Generate => {
                match self.self_id {
                    Some(me) => {
                        if self.rng.is_none() {
                            let idx = me.index();
                            self.rng = Some(SeededRng::from_seed(idx as u64));
                        }
                        let word = match &mut self.rng {
                            Some(source) => source.next_u32(),
                            None => vstd::pervasive::unreached(),
                        };
                        let idx = me.index();
                        let id = make_unique_id(now_secs, idx as u64, word);
                        let m = self.next_msg_id;
                        self.next_msg_id = m + 1;
                        Ok(env.reply(m, MsgPayload::GenerateOk { id }))
                    },
                    None => Err(FatalError::GenerateBeforeInit),
                }
            },
            MsgPayload::InitOk | MsgPayload::EchoOk { .. } | MsgPayload::GenerateOk { .. } => Err(
                FatalError::UnexpectedMessage,
            ),
        }
    }
}

/// The generated identifier inside a dispatcher result, where there is one.
pub open spec fn generated_id(r: Result<EnvelopeV, FatalError>) -> Option<u64> {
    match r {
        Ok(env) => match env.body.payload {
            PayloadV::GenerateOk { id } => Some(id),
            _ => None,
        },
        Err(_) => None,
    }
}

/// Law: over two consecutively handled requests that both succeed, the
/// sequence numbers assigned to the replies increase strictly, whatever
/// the payloads are.
pub proof fn lemma_msg_id_monotone(st0: NodeStateV, e1: EnvelopeV, now1: u64, e2: EnvelopeV, now2: u64)
    requires
        st0.next_msg_id + 1 <= usize::MAX,
        spec_handle(st0, e1, now1).1 is Ok,
        spec_handle(spec_handle(st0, e1, now1).0, e2, now2).1 is Ok,
    ensures
        ({
            let r1 = spec_handle(st0, e1, now1);
            let r2 = spec_handle(r1.0, e2, now2);
            r1.1->Ok_0.body.msg_id->0 < r2.1->Ok_0.body.msg_id->0
        }),
{
}

/// Law: the first generated value of a freshly initialized node is a
/// function of its numeric index and the clock reading alone: two nodes
/// that agree on both, with no word drawn yet, generate the same value.
pub proof fn lemma_generate_deterministic(
    st1: NodeStateV,
    st2: NodeStateV,
    e1: EnvelopeV,
    e2: EnvelopeV,
    now: u64,
)
    requires
        st1.self_id == st2.self_id,
        st1.self_id is Some,
        st1.rng is None,
        st2.rng is None,
        e1.body.payload is Generate,
        e2.body.payload is Generate,
    ensures
        generated_id(spec_handle(st1, e1, now).1) is Some,
        generated_id(spec_handle(st1, e1, now).1) == generated_id(spec_handle(st2, e2, now).1),
{
}

/// Law: before any `init`, a `generate` request is fatal and yields no
/// reply, and the state does not move.
pub proof fn lemma_generate_before_init(st: NodeStateV, e: EnvelopeV, now: u64)
    requires
        st.self_id is None,
        e.body.payload is Generate,
    ensures
        spec_handle(st, e, now).1 == Err::<EnvelopeV, FatalError>(FatalError::GenerateBeforeInit),
        spec_handle(st, e, now).0 == st,
{
}

/// Law: the top 32 bits of a generated value are exactly the epoch
/// seconds truncated to 32 bits.
pub proof fn lemma_id_time_bits(now: u64, idx: u64, r: u32)
    ensures
        spec_make_id(now, idx, r) >> 32 == now & 0xFFFF_FFFF,
{
    assert(((now & 0xFFFF_FFFF) << 32 | (idx & 0x3) << 30 | r as u64 & 0xFFFF_FFFC) >> 32 == now
        & 0xFFFF_FFFF) by (bit_vector);
}

/// Law: within one epoch second, nodes whose indices differ modulo four
/// generate values that differ on bits 31 and 30, provided the random
/// words leave those bits clear.  (The random word is combined unshifted,
/// so a word with either of its top two bits set can mask the
/// difference; such words are left out here.)
pub proof fn lemma_id_node_bits_discriminate(now: u64, i1: u64, i2: u64, r1: u32, r2: u32)
    requires
        i1 % 4 != i2 % 4,
        r1 & 0xC000_0000 == 0,
        r2 & 0xC000_0000 == 0,
    ensures
        (spec_make_id(now, i1, r1) >> 30) & 0x3 != (spec_make_id(now, i2, r2) >> 30) & 0x3,
{
    lemma_id_node_bits(now, i1, r1);
    lemma_id_node_bits(now, i2, r2);
    assert(i1 % 4 == i1 & 0x3) by (bit_vector);
    assert(i2 % 4 == i2 & 0x3) by (bit_vector);
}

/// The two node-discriminator bits of a generated value are the index
/// modulo four, as long as the random word leaves those bits clear.
pub proof fn lemma_id_node_bits(now: u64, idx: u64, r: u32)
    requires
        r & 0xC000_0000 == 0,
    ensures
        (spec_make_id(now, idx, r) >> 30) & 0x3 == idx & 0x3,
{
    assert((((now & 0xFFFF_FFFF) << 32 | (idx & 0x3) << 30 | r as u64 & 0xFFFF_FFFC) >> 30) & 0x3
        == idx & 0x3) by (bit_vector)
        requires
            r & 0xC000_0000 == 0,
    ;
}

} // verus!
