//! One accepted connection: its slot token, the inbound buffer accumulating
//! partially received frames, and the outbound queue of shared messages with
//! the partial-write cursor into the head message.
//!
//! The embedding program performs the non-blocking reads and writes; this
//! module holds the state machine between them: bytes read go in through
//! `receive`, complete frames come out through `extract_message`, and a
//! flush step is `pending` (what to write) followed by `advance` (what was
//! written).

use vstd::prelude::*;
use std::collections::VecDeque;
use std::rc::Rc;
use crate::frame;
use crate::frame::FrameError;

verus! {

/// Maximum accepted payload length of a single message; a frame declaring
/// more is a protocol violation.
pub const MAX_PAYLOAD_LEN: usize = 8192;

/// A received message, already framed for the wire, shared unchanged by
/// every outbound queue that is due to send it.
pub type Message = Rc<Vec<u8>>;

/// Relies on std's `Rc::clone`: the returned handle shares the same
/// allocation, so it holds exactly the same bytes.
#[verifier::external_body]
pub(crate) fn share_message(m: &Message) -> (r: Message)
    ensures
        r@ == m@,
{
    m.clone()
}

/// Relies on std's `Rc::as_ref`: borrows the shared allocation itself.
#[verifier::external_body]
fn message_bytes(m: &Message) -> (r: &Vec<u8>)
    ensures
        r@ == m@,
{
    m.as_ref()
}

/// Wraps a freshly framed payload into a shareable message.
pub fn new_message(bytes: Vec<u8>) -> (m: Message)
    ensures
        m@ == bytes@,
{
    Rc::new(bytes)
}

/// The outbound queue and partial-write cursor after `p` more bytes of the
/// head message go out: the cursor advances, and the head is dropped —
/// exactly once — the moment its last byte is sent.
pub open spec fn after_advance(q: Seq<Seq<u8>>, w: nat, p: nat) -> (Seq<Seq<u8>>, nat)
    recommends
        q.len() > 0,
        w + p <= q[0].len(),
{
    if w + p == q[0].len() {
        (q.skip(1), 0nat)
    } else {
        (q, (w + p) as nat)
    }
}

/// The bytes that step sends: the head message from the cursor on, `p` of
/// them.
pub open spec fn chunk_sent(q: Seq<Seq<u8>>, w: nat, p: nat) -> Seq<u8>
    recommends
        q.len() > 0,
        w + p <= q[0].len(),
{
    q[0].subrange(w as int, (w + p) as int)
}

/// Partial write resumption: when only `p` of the head message's
/// outstanding bytes can be sent, the next full step sends exactly the
/// remaining ones — every outstanding byte goes out once, none is
/// duplicated or dropped — and the queue advances exactly once.
pub proof fn lemma_partial_write_resumption(q: Seq<Seq<u8>>, w: nat, p: nat)
    requires
        q.len() > 0,
        w + p < q[0].len(),
    ensures
        ({
            let mid = after_advance(q, w, p);
            let rest = (q[0].len() - (w + p)) as nat;
            &&& chunk_sent(q, w, p) + chunk_sent(mid.0, mid.1, rest) == q[0].skip(w as int)
            &&& after_advance(mid.0, mid.1, rest).0 == q.skip(1)
            &&& after_advance(mid.0, mid.1, rest).1 == 0
        }),
{
    let mid = after_advance(q, w, p);
    let rest = (q[0].len() - (w + p)) as nat;
    assert(chunk_sent(q, w, p) + chunk_sent(mid.0, mid.1, rest) =~= q[0].skip(w as int));
}

/// One accepted connection's state between I/O steps.
pub struct Connection {
    token: usize,
    inbound: Vec<u8>,
    outbound: VecDeque<Message>,
    written: usize,
}

impl Connection {
    /// The slot token this connection identifies itself by.
    pub closed spec fn token_spec(self) -> usize {
        self.token
    }

    /// The bytes read from the peer and not yet consumed as frames.
    pub closed spec fn inbound_bytes(self) -> Seq<u8> {
        self.inbound@
    }

    /// The outbound queue, each message as its wire bytes.
    pub closed spec fn queue(self) -> Seq<Seq<u8>> {
        self.outbound@.map_values(|m: Message| m@)
    }

    /// How many bytes of the head-of-queue message were already written.
    pub closed spec fn written_spec(self) -> nat {
        self.written as nat
    }

    /// Queued messages are never empty (every frame carries its header),
    /// and the partial-write cursor lies strictly inside the head message —
    /// or at zero when there is nothing to send.
    pub closed spec fn wf(self) -> bool {
        &&& forall|i: int| 0 <= i < self.queue().len() ==> (#[trigger] self.queue()[i]).len() > 0
        &&& if self.queue().len() == 0 {
            self.written == 0
        } else {
            self.written < self.queue()[0].len()
        }
    }

    /// A fresh connection for the slot `token`: nothing read, nothing
    /// queued.
    pub fn new(token: usize) -> (c: Connection)
        ensures
            c.wf(),
            c.token_spec() == token,
            c.inbound_bytes() == Seq::<u8>::empty(),
            c.queue() == Seq::<Seq<u8>>::empty(),
            c.written_spec() == 0,
    {
        let c = Connection { token, inbound: Vec::new(), outbound: VecDeque::new(), written: 0 };
        proof {
            assert(c.queue() =~= Seq::<Seq<u8>>::empty());
        }
        c
    }

    /// The token, for self-identification when a removal must be enqueued.
    pub fn get_token(&self) -> (t: usize)
        ensures
            t == self.token_spec(),
    {
        self.token
    }

    /// Appends bytes that one non-blocking read produced.
    pub fn receive(&mut self, bytes: &[u8])
        ensures
            final(self).inbound_bytes() == old(self).inbound_bytes() + bytes@,
            final(self).queue() == old(self).queue(),
            final(self).written_spec() == old(self).written_spec(),
            final(self).token_spec() == old(self).token_spec(),
            old(self).wf() ==> final(self).wf(),
    {
        let mut i: usize = 0;
        while i < bytes.len()
            invariant
                i <= bytes@.len(),
                self.inbound@ == old(self).inbound@ + bytes@.take(i as int),
                self.outbound == old(self).outbound,
                self.written == old(self).written,
                self.token == old(self).token,
            decreases bytes@.len() - i,
        {
            self.inbound.push(bytes[i]);
            assert(self.inbound@ =~= old(self).inbound@ + bytes@.take(i + 1));
            i = i + 1;
        }
        assert(bytes@.take(bytes@.len() as int) =~= bytes@);
    }

    /// One extraction step of `read_message`: takes one complete framed
    /// message out of the inbound buffer if enough bytes have arrived.
    /// `Ok(None)` means more bytes are needed; an error means the peer
    /// declared a payload above the per-message maximum and must be
    /// removed.
    pub fn extract_message(&mut self) -> (r: Result<Option<Vec<u8>>, FrameError>)
        ensures
            final(self).queue() == old(self).queue(),
            final(self).written_spec() == old(self).written_spec(),
            final(self).token_spec() == old(self).token_spec(),
            old(self).wf() ==> final(self).wf(),
            match r {
                Ok(None) => {
                    &&& final(self).inbound_bytes() == old(self).inbound_bytes()
                    &&& !frame::frame_complete(old(self).inbound_bytes(), MAX_PAYLOAD_LEN as nat)
                    &&& !frame::oversized(old(self).inbound_bytes(), MAX_PAYLOAD_LEN as nat)
                },
                Ok(Some(m)) => {
                    &&& frame::frame_complete(old(self).inbound_bytes(), MAX_PAYLOAD_LEN as nat)
                    &&& m@ == frame::frame_payload(old(self).inbound_bytes())
                    &&& m@.len() <= MAX_PAYLOAD_LEN
                    &&& final(self).inbound_bytes() == frame::frame_rest(old(self).inbound_bytes())
                },
                Err(e) => {
                    &&& e == FrameError::Oversized
                    &&& frame::oversized(old(self).inbound_bytes(), MAX_PAYLOAD_LEN as nat)
                    &&& final(self).inbound_bytes() == old(self).inbound_bytes()
                },
            },
    {
        frame::try_extract(&mut self.inbound, MAX_PAYLOAD_LEN)
    }

    /// Queues one shared message. Reports whether the queue was empty
    /// before the call — exactly then must the connection start asking for
    /// write readiness.
    pub fn enqueue(&mut self, msg: Message) -> (was_empty: bool)
        requires
            old(self).wf(),
            msg@.len() > 0,
        ensures
            final(self).wf(),
            final(self).queue() == old(self).queue().push(msg@),
            final(self).inbound_bytes() == old(self).inbound_bytes(),
            final(self).written_spec() == old(self).written_spec(),
            final(self).token_spec() == old(self).token_spec(),
            was_empty == (old(self).queue().len() == 0),
    {
        let was_empty: bool = self.outbound.len() == 0;
        self.outbound.push_back(msg);
        proof {
            assert(self.queue() =~= old(self).queue().push(msg@));
        }
        was_empty
    }

    /// The bytes of the head-of-queue message still to be sent, or `None`
    /// when the queue is empty.
    pub fn pending(&self) -> (r: Option<Vec<u8>>)
        requires
            self.wf(),
        ensures
            match r {
                None => self.queue().len() == 0,
                Some(b) => {
                    &&& self.queue().len() > 0
                    &&& b@ == self.queue()[0].skip(self.written_spec() as int)
                    &&& b@.len() > 0
                },
            },
    {
        if self.outbound.len() == 0 {
            return None;
        }
        let head: &Message = &self.outbound[0];
        let bytes: &Vec<u8> = message_bytes(head);
        let mut out: Vec<u8> = Vec::new();
        let mut i: usize = self.written;
        while i < bytes.len()
            invariant
                self.written <= i <= bytes@.len(),
                out@ == bytes@.subrange(self.written as int, i as int),
            decreases bytes@.len() - i,
        {
            out.push(bytes[i]);
            assert(out@ =~= bytes@.subrange(self.written as int, i + 1));
            i = i + 1;
        }
        proof {
            assert(out@ =~= self.queue()[0].skip(self.written_spec() as int));
        }
        Some(out)
    }

    /// Records that `p` of the pending bytes were accepted by the socket:
    /// the flush step of `flush_writes`. Pops the head message exactly when
    /// its last byte went out. Reports whether the queue drained — exactly
    /// then must the connection drop write interest.
    pub fn advance(&mut self, p: usize) -> (drained: bool)
        requires
            old(self).wf(),
            old(self).queue().len() > 0,
            old(self).written_spec() + p <= old(self).queue()[0].len(),
        ensures
            final(self).wf(),
            final(self).queue() == after_advance(
                old(self).queue(),
                old(self).written_spec(),
                p as nat,
            ).0,
            final(self).written_spec() == after_advance(
                old(self).queue(),
                old(self).written_spec(),
                p as nat,
            ).1,
            final(self).inbound_bytes() == old(self).inbound_bytes(),
            final(self).token_spec() == old(self).token_spec(),
            drained == (final(self).queue().len() == 0),
    {
        let head_len: usize = message_bytes(&self.outbound[0]).len();
        let nw: usize = self.written + p;
        if nw == head_len {
            let _ = self.outbound.pop_front();
            self.written = 0;
            proof {
                assert(self.queue() =~= old(self).queue().skip(1));
            }
        } else {
            self.written = nw;
            proof {
                assert(self.queue() =~= old(self).queue());
            }
        }
        self.outbound.len() == 0
    }
}

} // verus!
