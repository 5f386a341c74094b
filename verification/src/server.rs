//! The dispatcher core: the bounded connection table together with the
//! event policy around it — which readiness events mean accept, read,
//! flush or removal, how an accepted client is given a token, and how one
//! received message is broadcast to every live connection's outbound
//! queue.
//!
//! The embedding program owns the listener, the sockets and the readiness
//! notifier; it feeds accepted clients, read bytes and write completions
//! in and carries registrations, writes and removals out.

use vstd::prelude::*;
use crate::connection;
use crate::connection::{Connection, Message, MAX_PAYLOAD_LEN};
use crate::frame;
use crate::frame::FrameError;
use crate::table::ConnTable;

verus! {

/// The reserved token of the listening socket.  It is strictly greater
/// than any token the connection table can allocate — the configured
/// maximum connection count must stay below it.
pub const LISTENER_TOKEN: usize = 1000;

/// The dispatcher's state: the bounded table of live connections.
pub struct Server {
    conns: ConnTable,
}

/// What the dispatcher does with one readiness event, in policy order:
/// error or closed readiness removes the token outright; readability on
/// the listener token starts the accept loop; readability elsewhere
/// drives reads; writability drives a flush (a lookup miss — the listener
/// token included — is dropped silently).
pub struct EventPlan {
    pub remove_now: bool,
    pub accept: bool,
    pub read: bool,
    pub flush: bool,
}

/// The event-dispatch policy, one readiness event at a time.
pub fn plan_event(token: usize, is_error: bool, is_readable: bool, is_writable: bool) -> (p:
    EventPlan)
    ensures
        p.remove_now == is_error,
        p.accept == (!is_error && is_readable && token == LISTENER_TOKEN),
        p.read == (!is_error && is_readable && token != LISTENER_TOKEN),
        p.flush == (!is_error && is_writable),
{
    if is_error {
        EventPlan { remove_now: true, accept: false, read: false, flush: false }
    } else {
        EventPlan {
            remove_now: false,
            accept: is_readable && token == LISTENER_TOKEN,
            read: is_readable && token != LISTENER_TOKEN,
            flush: is_writable,
        }
    }
}

/// The wire bytes broadcast when a buffer's front frame is consumed: the
/// extracted payload, reframed.
pub open spec fn relayed_frame(b: Seq<u8>) -> Seq<u8> {
    frame::frame_bytes(frame::frame_payload(b))
}

impl Server {
    /// The connection table this dispatcher owns.
    pub closed spec fn table(self) -> ConnTable {
        self.conns
    }

    /// The table is well formed and its capacity leaves the listener
    /// token unreachable by allocation.
    pub open spec fn wf(self) -> bool {
        &&& self.table().wf()
        &&& self.table().cap() < LISTENER_TOKEN
    }

    /// A dispatcher for at most `max_clients` concurrent connections.
    /// A configured maximum that could collide with the reserved listener
    /// token is rejected and the server does not start.
    pub fn new(max_clients: usize) -> (r: Option<Server>)
        ensures
            match r {
                Some(s) => {
                    &&& max_clients < LISTENER_TOKEN
                    &&& s.wf()
                    &&& s.table().cap() == max_clients
                    &&& s.table().num_live() == 0
                    &&& forall|t: int| 0 <= t < max_clients ==> !s.table().occupied(t)
                },
                None => max_clients >= LISTENER_TOKEN,
            },
    {
        if max_clients >= LISTENER_TOKEN {
            return None;
        }
        Some(Server { conns: ConnTable::with_capacity(max_clients) })
    }

    /// Gives a freshly accepted client the lowest vacant token, or refuses
    /// when the table is full — the caller then closes the new socket
    /// without it ever entering the table.  The reserved listener token is
    /// never returned: every allocated token lies below the capacity.
    pub fn available_token(&mut self) -> (r: Option<usize>)
        requires
            old(self).wf(),
        ensures
            final(self).wf(),
            final(self).table().cap() == old(self).table().cap(),
            match r {
                Some(t) => {
                    &&& t < old(self).table().cap()
                    &&& t < LISTENER_TOKEN
                    &&& !old(self).table().occupied(t as int)
                    &&& forall|j: int| 0 <= j < t ==> old(self).table().occupied(j)
                    &&& final(self).table().occupied(t as int)
                    &&& final(self).table().conn_at(t as int).token_spec() == t
                    &&& final(self).table().conn_at(t as int).inbound_bytes() == Seq::<
                        u8,
                    >::empty()
                    &&& final(self).table().conn_at(t as int).queue() == Seq::<Seq<u8>>::empty()
                    &&& forall|j: int|
                        0 <= j < old(self).table().cap() && j != t ==> final(self).table().slot(j)
                            == old(self).table().slot(j)
                    &&& final(self).table().num_live() == old(self).table().num_live() + 1
                },
                None => {
                    &&& forall|j: int|
                        0 <= j < old(self).table().cap() ==> old(self).table().occupied(j)
                    &&& old(self).table().num_live() == old(self).table().cap()
                    &&& forall|j: int|
                        0 <= j < old(self).table().cap() ==> final(self).table().slot(j) == old(
                            self,
                        ).table().slot(j)
                    &&& final(self).table().num_live() == old(self).table().num_live()
                },
            },
    {
        self.conns.insert()
    }

    /// Removes the occupant of `token`: the slot becomes vacant at once,
    /// free for reuse, and no other occupant is touched.  A stale token —
    /// the reserved listener token included — removes nothing.
    pub fn remove_client(&mut self, token: usize)
        requires
            old(self).wf(),
        ensures
            final(self).wf(),
            final(self).table().cap() == old(self).table().cap(),
            !final(self).table().occupied(token as int),
            forall|j: int|
                0 <= j < old(self).table().cap() && j != token ==> final(self).table().slot(j)
                    == old(self).table().slot(j),
            final(self).table().num_live() == old(self).table().num_live() - (if old(
                self,
            ).table().occupied(token as int) {
                1nat
            } else {
                0nat
            }),
    {
        self.conns.remove(token)
    }

    /// The live connection behind `token`; a stale token yields `None`
    /// and is dropped silently by the dispatch policy.
    pub fn get_client(&self, token: usize) -> (r: Option<&Connection>)
        ensures
            match r {
                Some(c) => self.table().occupied(token as int) && *c == self.table().conn_at(
                    token as int,
                ),
                None => !self.table().occupied(token as int),
            },
    {
        self.conns.get(token)
    }

    /// How many connections are currently live; never above the capacity.
    pub fn client_count(&self) -> (n: usize)
        ensures
            n == self.table().num_live(),
            n <= self.table().cap(),
    {
        self.conns.len()
    }


    /// Hands the connection at `token` the bytes one non-blocking read
    /// produced; bytes arriving for a stale token are dropped silently.
    pub fn receive_bytes(&mut self, token: usize, bytes: &[u8]) -> (live: bool)
        requires
            old(self).wf(),
        ensures
            final(self).wf(),
            final(self).table().cap() == old(self).table().cap(),
            final(self).table().num_live() == old(self).table().num_live(),
            live == old(self).table().occupied(token as int),
            forall|j: int|
                0 <= j < old(self).table().cap() && j != token ==> final(self).table().slot(j)
                    == old(self).table().slot(j),
            live ==> {
                &&& final(self).table().occupied(token as int)
                &&& final(self).table().conn_at(token as int).inbound_bytes() == old(
                    self,
                ).table().conn_at(token as int).inbound_bytes() + bytes@
                &&& final(self).table().conn_at(token as int).queue() == old(self).table().conn_at(
                    token as int,
                ).queue()
                &&& final(self).table().conn_at(token as int).written_spec() == old(
                    self,
                ).table().conn_at(token as int).written_spec()
            },
            !live ==> forall|j: int|
                0 <= j < old(self).table().cap() ==> final(self).table().slot(j) == old(
                    self,
                ).table().slot(j),
    {
        if self.conns.contains(token) {
            self.conns.receive_at(token, bytes);
            true
        } else {
            false
        }
    }

    /// One step of `forward_readable`: tries to take one complete framed
    /// message off the connection at `token` and, when one is there,
    /// re-broadcasts it — the sender included — by queueing one shared
    /// copy on every live connection.
    ///
    /// `Ok(None)` means nothing was extracted (a stale token, or not yet a
    /// full frame): the caller stops draining.  `Ok(Some(regs))` hands
    /// back every token whose outbound queue was empty until now and so
    /// must newly ask for write readiness.  An error reports a protocol
    /// violation: the caller removes the offending connection, and no
    /// other connection has received anything.
    pub fn process_message(&mut self, token: usize) -> (r: Result<Option<Vec<usize>>, FrameError>)
        requires
            old(self).wf(),
        ensures
            final(self).wf(),
            final(self).table().cap() == old(self).table().cap(),
            final(self).table().num_live() == old(self).table().num_live(),
            forall|j: int|
                0 <= j < old(self).table().cap() ==> (final(self).table().occupied(j) <==> old(
                    self,
                ).table().occupied(j)),
            match r {
                Ok(None) => {
                    &&& forall|j: int|
                        0 <= j < old(self).table().cap() && j != token ==> final(self).table().slot(j) == old(self).table().slot(j)
                    &&& !old(self).table().occupied(token as int) ==> forall|j: int|
                        0 <= j < old(self).table().cap() ==> final(self).table().slot(j) == old(
                            self,
                        ).table().slot(j)
                    &&& old(self).table().occupied(token as int) ==> {
                        &&& !frame::frame_complete(
                            old(self).table().conn_at(token as int).inbound_bytes(),
                            MAX_PAYLOAD_LEN as nat,
                        )
                        &&& !frame::oversized(
                            old(self).table().conn_at(token as int).inbound_bytes(),
                            MAX_PAYLOAD_LEN as nat,
                        )
                        &&& final(self).table().conn_at(token as int).inbound_bytes() == old(
                            self,
                        ).table().conn_at(token as int).inbound_bytes()
                        &&& final(self).table().conn_at(token as int).queue() == old(
                            self,
                        ).table().conn_at(token as int).queue()
                        &&& final(self).table().conn_at(token as int).written_spec() == old(
                            self,
                        ).table().conn_at(token as int).written_spec()
                    }
                },
                Ok(Some(regs)) => {
                    &&& old(self).table().occupied(token as int)
                    &&& frame::frame_complete(
                        old(self).table().conn_at(token as int).inbound_bytes(),
                        MAX_PAYLOAD_LEN as nat,
                    )
                    &&& final(self).table().conn_at(token as int).inbound_bytes()
                        == frame::frame_rest(
                        old(self).table().conn_at(token as int).inbound_bytes(),
                    )
                    &&& forall|j: int|
                        0 <= j < old(self).table().cap() && old(self).table().occupied(j) ==> (
                        #[trigger] final(self).table().conn_at(j)).queue() == old(
                            self,
                        ).table().conn_at(j).queue().push(
                            relayed_frame(
                                old(self).table().conn_at(token as int).inbound_bytes(),
                            ),
                        )
                    &&& forall|j: int|
                        0 <= j < old(self).table().cap() && old(self).table().occupied(j) && j
                            != token ==> (#[trigger] final(self).table().conn_at(
                            j,
                        )).inbound_bytes() == old(self).table().conn_at(j).inbound_bytes()
                    &&& forall|j: int|
                        0 <= j < old(self).table().cap() && old(self).table().occupied(j) ==> (
                        #[trigger] final(self).table().conn_at(j)).written_spec() == old(
                            self,
                        ).table().conn_at(j).written_spec()
                    &&& forall|k: int|
                        0 <= k < regs@.len() ==> #[trigger] regs@[k] < old(self).table().cap()
                            && old(self).table().occupied(regs@[k] as int) && old(
                            self,
                        ).table().conn_at(regs@[k] as int).queue().len() == 0
                    &&& forall|j: int|
                        0 <= j < old(self).table().cap() && old(self).table().occupied(j) && (
                        #[trigger] old(self).table().conn_at(j)).queue().len() == 0
                            ==> regs@.contains(j as usize)
                },
                Err(e) => {
                    &&& old(self).table().occupied(token as int)
                    &&& e == FrameError::Oversized
                    &&& frame::oversized(
                        old(self).table().conn_at(token as int).inbound_bytes(),
                        MAX_PAYLOAD_LEN as nat,
                    )
                    &&& forall|j: int|
                        0 <= j < old(self).table().cap() && j != token ==> final(self).table().slot(j) == old(self).table().slot(j)
                    &&& final(self).table().conn_at(token as int).inbound_bytes() == old(
                        self,
                    ).table().conn_at(token as int).inbound_bytes()
                    &&& final(self).table().conn_at(token as int).queue() == old(
                        self,
                    ).table().conn_at(token as int).queue()
                    &&& final(self).table().conn_at(token as int).written_spec() == old(
                        self,
                    ).table().conn_at(token as int).written_spec()
                },
            },
    {
        if !self.conns.contains(token) {
            return Ok(None);
        }
        let ext = self.conns.extract_at(token);
        let payload = match ext {
            Err(e) => {
                return Err(e);
            },
            Ok(None) => {
                return Ok(None);
            },
            Ok(Some(p)) => p,
        };
        let framed = frame::encode_frame(&payload);
        let msg: Message = connection::new_message(framed);
        let ghost mid: Server = *self;
        let ghost fb: Seq<u8> = msg@;
        proof {
            assert(fb == relayed_frame(old(self).table().conn_at(token as int).inbound_bytes()));
            assert(fb.len() > 0);
        }
        let mut regs: Vec<usize> = Vec::new();
        let cap: usize = self.conns.capacity();
        let mut t: usize = 0;
        while t < cap
            invariant
                t <= cap,
                self.conns.wf(),
                cap == self.conns.cap(),
                mid.conns.cap() == cap,
                mid.conns.wf(),
                fb.len() > 0,
                msg@ == fb,
                self.conns.num_live() == mid.conns.num_live(),
                forall|j: int|
                    0 <= j < cap ==> (self.conns.occupied(j) <==> mid.conns.occupied(j)),
                forall|j: int| t <= j < cap ==> self.conns.slot(j) == mid.conns.slot(j),
                forall|j: int|
                    0 <= j < t && mid.conns.occupied(j) ==> {
                        &&& (#[trigger] self.conns.conn_at(j)).queue() == mid.conns.conn_at(
                            j,
                        ).queue().push(fb)
                        &&& self.conns.conn_at(j).inbound_bytes() == mid.conns.conn_at(
                            j,
                        ).inbound_bytes()
                        &&& self.conns.conn_at(j).written_spec() == mid.conns.conn_at(
                            j,
                        ).written_spec()
                    },
                forall|k: int|
                    0 <= k < regs@.len() ==> #[trigger] regs@[k] < t && mid.conns.occupied(
                        regs@[k] as int,
                    ) && mid.conns.conn_at(regs@[k] as int).queue().len() == 0,
                forall|j: int|
                    0 <= j < t && mid.conns.occupied(j) && (#[trigger] mid.conns.conn_at(
                        j,
                    )).queue().len() == 0 ==> regs@.contains(j as usize),
            decreases cap - t,
        {
            let ghost pre: ConnTable = self.conns;
            let ghost pre_regs: Seq<usize> = regs@;
            let is_live = self.conns.contains(t);
            if is_live {
                let m2 = connection::share_message(&msg);
                let we = self.conns.enqueue_at(t, m2);
                if we {
                    regs.push(t);
                }
            }
            proof {
                assert forall|j: int|
                    0 <= j < t + 1 && mid.conns.occupied(j) implies {
                    &&& (#[trigger] self.conns.conn_at(j)).queue() == mid.conns.conn_at(
                        j,
                    ).queue().push(fb)
                    &&& self.conns.conn_at(j).inbound_bytes() == mid.conns.conn_at(
                        j,
                    ).inbound_bytes()
                    &&& self.conns.conn_at(j).written_spec() == mid.conns.conn_at(
                        j,
                    ).written_spec()
                } by {
                    if j < t {
                        assert(pre.conn_at(j).queue() == mid.conns.conn_at(j).queue().push(fb));
                        if is_live {
                            assert(self.conns.slot(j) == pre.slot(j));
                        }
                        assert(self.conns.conn_at(j) == pre.conn_at(j));
                    } else {
                        assert(pre.slot(t as int) == mid.conns.slot(t as int));
                        assert(pre.occupied(t as int));
                        assert(is_live);
                        assert(pre.conn_at(t as int) == mid.conns.conn_at(t as int));
                    }
                }
                assert forall|k: int|
                    0 <= k < regs@.len() implies #[trigger] regs@[k] < t + 1
                        && mid.conns.occupied(regs@[k] as int) && mid.conns.conn_at(
                    regs@[k] as int,
                ).queue().len() == 0 by {
                    if k < pre_regs.len() {
                        assert(regs@[k] == pre_regs[k]);
                    } else {
                        assert(regs@[k] == t);
                        assert(pre.slot(t as int) == mid.conns.slot(t as int));
                        assert(pre.conn_at(t as int) == mid.conns.conn_at(t as int));
                    }
                }
                assert forall|j: int|
                    0 <= j < t + 1 && mid.conns.occupied(j) && (#[trigger] mid.conns.conn_at(
                        j,
                    )).queue().len() == 0 implies regs@.contains(j as usize) by {
                    if j < t {
                        assert(pre_regs.contains(j as usize));
                        let k = choose|k: int| 0 <= k < pre_regs.len() && pre_regs[k] == (
                        j as usize);
                        assert(regs@[k] == (j as usize));
                    } else {
                        assert(pre.slot(t as int) == mid.conns.slot(t as int));
                        assert(pre.conn_at(t as int) == mid.conns.conn_at(t as int));
                        assert(pre.conn_at(t as int).queue().len() == 0);
                        assert(regs@[regs@.len() - 1] == t);
                    }
                }
            }
            t = t + 1;
        }
        proof {
            let pre0 = old(self).table();
            let tk = token as int;
            assert forall|j: int| 0 <= j < cap implies (self.conns.occupied(j) <==> pre0.occupied(
                j,
            )) by {
                assert(self.conns.occupied(j) <==> mid.conns.occupied(j));
                if j != tk {
                    assert(mid.conns.slot(j) == pre0.slot(j));
                } else {
                    assert(mid.conns.occupied(tk));
                    assert(pre0.occupied(tk));
                }
            }
            assert forall|j: int|
                0 <= j < cap && pre0.occupied(j) implies {
                &&& (#[trigger] self.conns.conn_at(j)).queue() == pre0.conn_at(j).queue().push(fb)
                &&& self.conns.conn_at(j).written_spec() == pre0.conn_at(j).written_spec()
                &&& (j != tk ==> self.conns.conn_at(j).inbound_bytes() == pre0.conn_at(
                    j,
                ).inbound_bytes())
            } by {
                if j != tk {
                    assert(mid.conns.slot(j) == pre0.slot(j));
                    assert(mid.conns.conn_at(j) == pre0.conn_at(j));
                }
                assert(mid.conns.occupied(j));
                assert(mid.conns.conn_at(j).queue() == pre0.conn_at(j).queue());
                assert(mid.conns.conn_at(j).written_spec() == pre0.conn_at(j).written_spec());
            }
            assert forall|k: int|
                0 <= k < regs@.len() implies #[trigger] regs@[k] < cap && pre0.occupied(
                regs@[k] as int,
            ) && pre0.conn_at(regs@[k] as int).queue().len() == 0 by {
                let j = regs@[k] as int;
                if j != tk {
                    assert(mid.conns.slot(j) == pre0.slot(j));
                    assert(mid.conns.conn_at(j) == pre0.conn_at(j));
                }
                assert(mid.conns.conn_at(j).queue() == pre0.conn_at(j).queue());
            }
            assert forall|j: int|
                0 <= j < cap && pre0.occupied(j) && (#[trigger] pre0.conn_at(j)).queue().len()
                    == 0 implies regs@.contains(j as usize) by {
                if j != tk {
                    assert(mid.conns.slot(j) == pre0.slot(j));
                    assert(mid.conns.conn_at(j) == pre0.conn_at(j));
                }
                assert(mid.conns.occupied(j));
                assert(mid.conns.conn_at(j).queue() == pre0.conn_at(j).queue());
                assert(mid.conns.conn_at(j).queue().len() == 0);
            }
        }
        Ok(Some(regs))
    }

    /// The still-unsent bytes of the head message queued at `token`: what
    /// the next non-blocking write should try to send.  `None` when the
    /// token is stale or nothing is queued.
    pub fn pending_bytes(&self, token: usize) -> (r: Option<Vec<u8>>)
        requires
            self.wf(),
        ensures
            match r {
                None => !self.table().occupied(token as int) || self.table().conn_at(
                    token as int,
                ).queue().len() == 0,
                Some(b) => {
                    &&& self.table().occupied(token as int)
                    &&& self.table().conn_at(token as int).queue().len() > 0
                    &&& b@ == self.table().conn_at(token as int).queue()[0].skip(
                        self.table().conn_at(token as int).written_spec() as int,
                    )
                    &&& b@.len() > 0
                },
            },
    {
        if !self.conns.contains(token) {
            return None;
        }
        self.conns.pending_at(token)
    }

    /// The flush step of `flush_writes`: records that the socket accepted
    /// `p` of the pending bytes at `token`, popping the head message
    /// exactly when it completes.  Reports whether the queue drained —
    /// exactly then must the connection drop write interest.
    pub fn mark_written(&mut self, token: usize, p: usize) -> (drained: bool)
        requires
            old(self).wf(),
            old(self).table().occupied(token as int),
            old(self).table().conn_at(token as int).queue().len() > 0,
            old(self).table().conn_at(token as int).written_spec() + p <= old(
                self,
            ).table().conn_at(token as int).queue()[0].len(),
        ensures
            final(self).wf(),
            final(self).table().cap() == old(self).table().cap(),
            final(self).table().num_live() == old(self).table().num_live(),
            forall|j: int|
                0 <= j < old(self).table().cap() && j != token ==> final(self).table().slot(j)
                    == old(self).table().slot(j),
            final(self).table().occupied(token as int),
            final(self).table().conn_at(token as int).queue() == connection::after_advance(
                old(self).table().conn_at(token as int).queue(),
                old(self).table().conn_at(token as int).written_spec(),
                p as nat,
            ).0,
            final(self).table().conn_at(token as int).written_spec()
                == connection::after_advance(
                old(self).table().conn_at(token as int).queue(),
                old(self).table().conn_at(token as int).written_spec(),
                p as nat,
            ).1,
            final(self).table().conn_at(token as int).inbound_bytes() == old(
                self,
            ).table().conn_at(token as int).inbound_bytes(),
            drained == (final(self).table().conn_at(token as int).queue().len() == 0),
    {
        self.conns.advance_at(token, p)
    }

    /// Capacity invariant: however the table has been driven, it never
    /// holds more live connections than the configured maximum, which
    /// itself lies strictly below the reserved listener token.
    pub proof fn lemma_capacity_invariant(s: Server)
        requires
            s.wf(),
        ensures
            s.table().num_live() <= s.table().cap(),
            s.table().cap() < LISTENER_TOKEN,
    {
        s.table().lemma_num_live_le_cap();
    }
}

} // verus!
