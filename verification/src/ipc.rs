//! Framing and fan-in discipline of the shared-memory pub/sub layer.
//!
//! A message travels as a fixed-size slot: a routing header `{ id, len }`
//! followed by a payload of at most `MAX_PAYLOAD_LEN` bytes. The transport
//! itself — the shared-memory service and the codec that turns typed
//! messages into payload bytes — lives outside the library; what is framed,
//! routed and scheduled is decided here.

use vstd::prelude::*;
use vstd::string::StringExecFns;

verus! {

/// Routing id that broadcasts to every receiver.
pub const TO_ALL: u64 = 0;

/// Size of a shared-memory payload slice, in bytes.
pub const MAX_PAYLOAD_LEN: usize = 128;

/// Routing header written into each shared-memory slot: the destination id
/// and the encoded payload length.
#[derive(Clone, Copy, Debug, PartialEq, Eq, Structural, Default)]
pub struct CustomHeader {
    pub id: u64,
    pub len: usize,
}

/// Errors of the pub/sub endpoints.
#[derive(Debug, PartialEq, Eq)]
pub enum PubSubError {
    BuildError(String),
    SubscriberReceive,
    PublisherLoan,
    PublisherSend,
    Decode,
    Encode,
}

/// Errors surfaced by the strategy-side receive and send paths.
#[derive(Debug, PartialEq, Eq)]
pub enum BotError {
    Timeout,
    Interrupted,
    AssetNotFound,
    Custom(String),
}

/// Builds the header and slot for a payload: the header carries the
/// routing id and the true length, and the slot is the payload padded with
/// zeros to the fixed slice size. Fails, as encoding into the slot does,
/// when the payload does not fit.
pub fn make_frame(id: u64, payload: &Vec<u8>) -> (r: Result<(CustomHeader, Vec<u8>), PubSubError>)
    ensures
        (r is Ok) == (payload@.len() <= MAX_PAYLOAD_LEN),
        r matches Ok(hs) ==> hs.0.id == id && hs.0.len == payload@.len() && hs.1@.len()
            == MAX_PAYLOAD_LEN && hs.1@.subrange(0, payload@.len() as int) == payload@,
        r is Err ==> r == Result::<(CustomHeader, Vec<u8>), PubSubError>::Err(PubSubError::Encode),
{
    let n = payload.len();
    if n > MAX_PAYLOAD_LEN {
        return Err(PubSubError::Encode);
    }
    let mut slot: Vec<u8> = Vec::new();
    let mut i: usize = 0;
    while i < n
        invariant
            n == payload@.len(),
            0 <= i <= n,
            slot@ == payload@.take(i as int),
        decreases n - i,
    {
        slot.push(payload[i]);
        proof {
            assert(slot@ =~= payload@.take(i as int + 1));
        }
        i += 1;
    }
    proof {
        assert(slot@ =~= payload@);
    }
    while slot.len() < MAX_PAYLOAD_LEN
        invariant
            n <= slot@.len() <= MAX_PAYLOAD_LEN,
            slot@.subrange(0, n as int) == payload@,
        decreases MAX_PAYLOAD_LEN - slot@.len(),
    {
        slot.push(0);
        proof {
            assert(slot@.subrange(0, n as int) =~= payload@);
        }
    }
    Ok((CustomHeader { id, len: n }, slot))
}

/// Reads a received slot: takes the `len` bytes the header names and
/// ignores the trailing padding. Fails, as decoding does, when the header
/// names more bytes than the slot holds.
pub fn extract_frame(header: &CustomHeader, slot: &Vec<u8>) -> (r: Result<Vec<u8>, PubSubError>)
    ensures
        (r is Ok) == (header.len <= slot@.len()),
        r matches Ok(p) ==> p@ == slot@.subrange(0, header.len as int),
        r is Err ==> r == Result::<Vec<u8>, PubSubError>::Err(PubSubError::Decode),
{
    let n = header.len;
    if n > slot.len() {
        return Err(PubSubError::Decode);
    }
    let mut out: Vec<u8> = Vec::new();
    let mut i: usize = 0;
    while i < n
        invariant
            n <= slot@.len(),
            0 <= i <= n,
            out@ == slot@.take(i as int),
        decreases n - i,
    {
        out.push(slot[i]);
        proof {
            assert(out@ =~= slot@.take(i as int + 1));
        }
        i += 1;
    }
    proof {
        assert(out@ =~= slot@.subrange(0, n as int));
    }
    Ok(out)
}

/// Law: a frame carries its payload faithfully — reading back a slot built
/// by `make_frame` under its header yields the routing id and the payload
/// unchanged. The hypotheses are what `make_frame` ensures of a built
/// frame, and `out` is what `extract_frame` returns for it.
pub proof fn lemma_frame_round_trip(
    id: u64,
    payload: Seq<u8>,
    header: CustomHeader,
    slot: Seq<u8>,
    out: Seq<u8>,
)
    requires
        payload.len() <= MAX_PAYLOAD_LEN,
        header.id == id,
        header.len == payload.len(),
        slot.len() == MAX_PAYLOAD_LEN,
        slot.subrange(0, payload.len() as int) == payload,
        out == slot.subrange(0, header.len as int),
    ensures
        header.len <= slot.len(),
        out == payload,
        header.id == id,
{
}

/// Name of the strategy-to-connector service of an asset.
pub fn from_bot_service(name: &str) -> (r: String)
    ensures
        r@ == name@ + "/FromBot"@,
{
    let mut s = name.to_owned();
    s.append("/FromBot");
    s
}

/// Name of the connector-to-strategy service of an asset.
pub fn to_bot_service(name: &str) -> (r: String)
    ensures
        r@ == name@ + "/ToBot"@,
{
    let mut s = name.to_owned();
    s.append("/ToBot");
    s
}

/// The next round-robin position after `i` among `n` endpoints.
pub open spec fn rr_next(i: int, n: int) -> int {
    if i + 1 == n {
        0
    } else {
        i + 1
    }
}

/// The round-robin position `s` steps after `i`.
pub open spec fn rr_iter(i: int, s: nat, n: int) -> int
    decreases s,
{
    if s == 0 {
        i
    } else {
        rr_next(rr_iter(i, (s - 1) as nat, n), n)
    }
}

pub proof fn lemma_rr_iter_closed(i: int, s: nat, n: int)
    requires
        0 <= i < n,
        s <= n,
    ensures
        rr_iter(i, s, n) == if i + s < n {
            i + s
        } else {
            i + s - n
        },
    decreases s,
{
    if s > 0 {
        lemma_rr_iter_closed(i, (s - 1) as nat, n);
    }
}

/// Law: the round-robin cursor starves no endpoint — from any position,
/// every endpoint index is reached within `n` steps.
pub proof fn lemma_round_robin_covers(i: int, n: int, j: int)
    requires
        0 <= i < n,
        0 <= j < n,
    ensures
        exists|s: nat| s < n && rr_iter(i, s, n) == j,
{
    let s: nat = if j >= i {
        (j - i) as nat
    } else {
        (j + n - i) as nat
    };
    lemma_rr_iter_closed(i, s, n);
    assert(rr_iter(i, s, n) == j);
}

/// Scheduling decision of one pass of the strategy-side receive loop:
/// the deadline is checked first against the elapsed monotonic time; then
/// a termination or interrupt notification surfaces; a plain tick polls
/// the next endpoint in round-robin order.
#[derive(Clone, Copy, Debug, PartialEq, Eq, Structural)]
pub enum NodeSignal {
    Tick,
    TerminationRequest,
    InterruptSignal,
}

#[derive(Clone, Copy, Debug, PartialEq, Eq, Structural)]
pub enum RecvDecision {
    TimedOut,
    Interrupted,
    Poll(usize),
}

/// Round-robin cursor of the fan-in over `n` receive endpoints.
pub struct FanIn {
    pub n: usize,
    pub cursor: usize,
}

impl FanIn {
    pub open spec fn wf(&self) -> bool {
        0 < self.n && self.cursor < self.n
    }

    /// A fan-in needs at least one endpoint.
    pub fn new(n: usize) -> (r: Self)
        requires
            n > 0,
        ensures
            r.wf(),
            r.n == n,
            r.cursor == 0,
    {
        FanIn { n, cursor: 0 }
    }

    /// Decides one pass of `recv_timeout`: `TimedOut` once the elapsed
    /// time exceeds the deadline, `Interrupted` on a termination or
    /// interrupt notification, else which endpoint to poll — the cursor's
    /// endpoint, advancing the cursor.
    pub fn recv_step(&mut self, elapsed_ns: u64, timeout_ns: u64, signal: NodeSignal) -> (r:
        RecvDecision)
        requires
            old(self).wf(),
        ensures
            final(self).wf(),
            final(self).n == old(self).n,
            elapsed_ns > timeout_ns ==> r == RecvDecision::TimedOut && *final(self) == *old(self),
            elapsed_ns <= timeout_ns && !(signal is Tick) ==> r == RecvDecision::Interrupted
                && *final(self) == *old(self),
            elapsed_ns <= timeout_ns && signal is Tick ==> r == RecvDecision::Poll(
                old(self).cursor,
            ) && final(self).cursor as int == rr_next(old(self).cursor as int, old(self).n as int),
    {
        if elapsed_ns > timeout_ns {
            return RecvDecision::TimedOut;
        }
        match signal {
            NodeSignal::Tick => {
                let i = self.cursor;
                self.cursor = self.cursor + 1;
                if self.cursor == self.n {
                    self.cursor = 0;
                }
                RecvDecision::Poll(i)
            },
            NodeSignal::TerminationRequest | NodeSignal::InterruptSignal => {
                RecvDecision::Interrupted
            },
        }
    }
}

/// Whether a polled message is delivered to the strategy whose identity is
/// `id`: broadcasts (`TO_ALL`) and messages addressed to `id` pass, every
/// other message is discarded.
pub fn route<T>(id: u64, msg: Option<(u64, T)>) -> (r: Option<T>)
    ensures
        match msg {
            Some(m) => if m.0 == TO_ALL || m.0 == id {
                r == Some(m.1)
            } else {
                r is None
            },
            None => r is None,
        },
{
    match msg {
        Some((dst_id, ev)) => {
            if dst_id == TO_ALL || dst_id == id {
                Some(ev)
            } else {
                None
            }
        },
        None => None,
    }
}

/// The publisher used by the strategy-side send path: `asset_no` indexes
/// the endpoint list of length `n`; out of range is `AssetNotFound`.
pub fn select_publisher(asset_no: usize, n: usize) -> (r: Result<usize, BotError>)
    ensures
        (r is Ok) == (asset_no < n),
        r matches Ok(i) ==> i == asset_no,
        r is Err ==> r == Result::<usize, BotError>::Err(BotError::AssetNotFound),
{
    if asset_no < n {
        Ok(asset_no)
    } else {
        Err(BotError::AssetNotFound)
    }
}

} // verus!
