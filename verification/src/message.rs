use crate::ident::EntityId;
use vstd::prelude::*;

verus! {

/// The tagged content of a message: the closed set of kinds this node
/// understands.
#[derive(Clone, Debug, PartialEq)]
pub enum MsgPayload {
    /// Cluster bootstrap: the node's own identifier and the whole roster.
    Init { node_id: EntityId, node_ids: Vec<EntityId> },
    /// Acknowledges an `Init`.
    InitOk,
    /// Asks the node to reflect a string.
    Echo { echo: String },
    /// The reflected string.
    EchoOk { echo: String },
    /// Asks for a fresh unique identifier.
    Generate,
    /// The generated identifier.
    GenerateOk { id: u64 },
}

/// The correlation metadata around a payload: an optional outgoing
/// sequence number and an optional back-reference to the message being
/// answered.
#[derive(Clone, Debug, PartialEq)]
pub struct MsgBody {
    pub msg_id: Option<usize>,
    pub in_reply_to: Option<usize>,
    pub payload: MsgPayload,
}

/// One complete message: sender, recipient and body.
#[derive(Clone, Debug, PartialEq)]
pub struct MsgEnvelope {
    pub src: EntityId,
    pub dest: EntityId,
    pub body: MsgBody,
}

/// The mathematical shape of a payload: text as character sequences,
/// rosters as sequences.
pub enum PayloadV {
    Init { node_id: EntityId, node_ids: Seq<EntityId> },
    InitOk,
    Echo { echo: Seq<char> },
    EchoOk { echo: Seq<char> },
    Generate,
    GenerateOk { id: u64 },
}

/// The mathematical shape of a body.
pub struct BodyV {
    pub msg_id: Option<usize>,
    pub in_reply_to: Option<usize>,
    pub payload: PayloadV,
}

/// The mathematical shape of an envelope.
pub struct EnvelopeV {
    pub src: EntityId,
    pub dest: EntityId,
    pub body: BodyV,
}

impl View for MsgPayload {
    type V = PayloadV;

    open spec fn view(&self) -> PayloadV {
        match self {
            MsgPayload::Init { node_id, node_ids } => PayloadV::Init {
                node_id: *node_id,
                node_ids: node_ids@,
            },
            MsgPayload::InitOk => PayloadV::InitOk,
            MsgPayload::Echo { echo } => PayloadV::Echo { echo: echo@ },
            MsgPayload::EchoOk { echo } => PayloadV::EchoOk { echo: echo@ },
            MsgPayload::Generate => PayloadV::Generate,
            MsgPayload::GenerateOk { id } => PayloadV::GenerateOk { id: *id },
        }
    }
}

impl View for MsgBody {
    type V = BodyV;

    open spec fn view(&self) -> BodyV {
        BodyV { msg_id: self.msg_id, in_reply_to: self.in_reply_to, payload: self.payload@ }
    }
}

impl View for MsgEnvelope {
    type V = EnvelopeV;

    open spec fn view(&self) -> EnvelopeV {
        EnvelopeV { src: self.src, dest: self.dest, body: self.body@ }
    }
}

/// The envelope that answers `env`: roles swapped, the new sequence
/// number installed, and the back-reference set to the sequence number of
/// `env` (absent when `env` carried none).
pub open spec fn spec_reply(env: EnvelopeV, msg_id: usize, payload: PayloadV) -> EnvelopeV {
    EnvelopeV {
        src: env.dest,
        dest: env.src,
        body: BodyV { msg_id: Some(msg_id), in_reply_to: env.body.msg_id, payload },
    }
}

impl MsgEnvelope {
    /// Builds the reply to this envelope, without mutating it: `src` and
    /// `dest` swap roles, `msg_id` becomes the caller-supplied sequence
    /// number, and `in_reply_to` mirrors this envelope's `msg_id`.
    pub fn reply(&self, msg_id: usize, payload: MsgPayload) -> (r: MsgEnvelope)
        ensures
            r.src == self.dest,
            r.dest == self.src,
            r.body.msg_id == Some(msg_id),
            r.body.in_reply_to == self.body.msg_id,
            r.body.payload == payload,
            r@ == spec_reply(self@, msg_id, payload@),
    {
        MsgEnvelope {
            src: self.dest,
            dest: self.src,
            body: MsgBody { msg_id: Some(msg_id), in_reply_to: self.body.msg_id, payload },
        }
    }
}

} // verus!
