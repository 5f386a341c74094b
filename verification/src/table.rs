//! The bounded connection table: a fixed-capacity arena of slots indexed by
//! token.  A token is vacant or maps to exactly one live connection; removal
//! frees the slot for reuse by a later, unrelated connection, and no other
//! occupant is moved or reindexed by it.

use vstd::prelude::*;
use crate::connection;
use crate::connection::{Connection, Message, MAX_PAYLOAD_LEN};
use crate::frame;
use crate::frame::FrameError;

verus! {

/// How many of the slots are occupied.
spec fn count_live(s: Seq<Option<Connection>>) -> nat
    decreases s.len(),
{
    if s.len() == 0 {
        0
    } else {
        count_live(s.drop_last()) + if s.last() is Some {
            1nat
        } else {
            0nat
        }
    }
}

/// A table can never hold more live connections than it has slots.
proof fn lemma_count_le_len(s: Seq<Option<Connection>>)
    ensures
        count_live(s) <= s.len(),
    decreases s.len(),
{
    if s.len() > 0 {
        lemma_count_le_len(s.drop_last());
    }
}

proof fn lemma_count_all_vacant(s: Seq<Option<Connection>>)
    requires
        forall|i: int| 0 <= i < s.len() ==> s[i] is None,
    ensures
        count_live(s) == 0,
    decreases s.len(),
{
    if s.len() > 0 {
        lemma_count_all_vacant(s.drop_last());
    }
}

proof fn lemma_count_all_occupied(s: Seq<Option<Connection>>)
    requires
        forall|i: int| 0 <= i < s.len() ==> s[i] is Some,
    ensures
        count_live(s) == s.len(),
    decreases s.len(),
{
    if s.len() > 0 {
        lemma_count_all_occupied(s.drop_last());
    }
}

proof fn lemma_count_update(s: Seq<Option<Connection>>, i: int, v: Option<Connection>)
    requires
        0 <= i < s.len(),
    ensures
        count_live(s.update(i, v)) == count_live(s) + (if v is Some {
            1nat
        } else {
            0nat
        }) - (if s[i] is Some {
            1nat
        } else {
            0nat
        }),
    decreases s.len(),
{
    let t = s.update(i, v);
    if i == s.len() - 1 {
        assert(t.drop_last() =~= s.drop_last());
    } else {
        assert(t.drop_last() =~= s.drop_last().update(i, v));
        lemma_count_update(s.drop_last(), i, v);
    }
}

proof fn lemma_count_same_occupancy(s1: Seq<Option<Connection>>, s2: Seq<Option<Connection>>)
    requires
        s1.len() == s2.len(),
        forall|i: int| 0 <= i < s1.len() ==> ((s1[i] is Some) <==> (s2[i] is Some)),
    ensures
        count_live(s1) == count_live(s2),
    decreases s1.len(),
{
    if s1.len() > 0 {
        lemma_count_same_occupancy(s1.drop_last(), s2.drop_last());
    }
}

/// Fixed-capacity sparse table mapping slot tokens to connections.
pub struct ConnTable {
    slots: Vec<Option<Connection>>,
}

impl ConnTable {
    /// The capacity, fixed at construction.
    pub closed spec fn cap(self) -> nat {
        self.slots@.len()
    }

    /// The slot behind token `t`.
    pub closed spec fn slot(self, t: int) -> Option<Connection>
        recommends
            0 <= t < self.cap(),
    {
        self.slots@[t]
    }

    /// Token `t` currently maps to a live connection.
    pub open spec fn occupied(self, t: int) -> bool {
        0 <= t < self.cap() && self.slot(t) is Some
    }

    /// The live connection behind token `t`.
    pub open spec fn conn_at(self, t: int) -> Connection
        recommends
            self.occupied(t),
    {
        self.slot(t)->Some_0
    }

    /// The number of live connections.
    pub closed spec fn num_live(self) -> nat {
        count_live(self.slots@)
    }

    /// Every occupant is well formed and carries its own slot index as its
    /// token — so no two live occupants can ever share a token.
    pub open spec fn wf(self) -> bool {
        forall|t: int|
            self.occupied(t) ==> (#[trigger] self.conn_at(t)).wf() && self.conn_at(
                t,
            ).token_spec() == t
    }

    /// An empty table of exactly `cap` slots.
    pub fn with_capacity(cap: usize) -> (t: ConnTable)
        ensures
            t.wf(),
            t.cap() == cap,
            forall|i: int| 0 <= i < cap ==> !t.occupied(i),
            t.num_live() == 0,
    {
        let mut slots: Vec<Option<Connection>> = Vec::new();
        let mut i: usize = 0;
        while i < cap
            invariant
                i <= cap,
                slots@.len() == i,
                forall|j: int| 0 <= j < i ==> slots@[j] is None,
            decreases cap - i,
        {
            slots.push(None);
            i = i + 1;
        }
        proof {
            lemma_count_all_vacant(slots@);
        }
        ConnTable { slots }
    }

    /// The capacity, for the embedding program.
    pub fn capacity(&self) -> (c: usize)
        ensures
            c == self.cap(),
    {
        self.slots.len()
    }

    /// How many connections are currently live.
    pub fn len(&self) -> (n: usize)
        ensures
            n == self.num_live(),
            n <= self.cap(),
    {
        let mut n: usize = 0;
        let mut i: usize = 0;
        while i < self.slots.len()
            invariant
                i <= self.slots@.len(),
                n == count_live(self.slots@.take(i as int)),
                n <= i,
            decreases self.slots@.len() - i,
        {
            if self.slots[i].is_some() {
                n = n + 1;
            }
            proof {
                assert(self.slots@.take(i + 1).drop_last() =~= self.slots@.take(i as int));
                assert(self.slots@.take(i + 1).last() == self.slots@[i as int]);
            }
            i = i + 1;
        }
        proof {
            assert(self.slots@.take(self.slots@.len() as int) =~= self.slots@);
            lemma_count_le_len(self.slots@);
        }
        n
    }

    /// Fills the lowest vacant slot with a fresh connection and returns its
    /// token; refuses — changing nothing — when every slot is occupied.
    pub fn insert(&mut self) -> (r: Option<usize>)
        requires
            old(self).wf(),
        ensures
            final(self).wf(),
            final(self).cap() == old(self).cap(),
            match r {
                Some(t) => {
                    &&& t < old(self).cap()
                    &&& !old(self).occupied(t as int)
                    &&& forall|j: int| 0 <= j < t ==> old(self).occupied(j)
                    &&& final(self).occupied(t as int)
                    &&& final(self).conn_at(t as int).token_spec() == t
                    &&& final(self).conn_at(t as int).inbound_bytes() == Seq::<u8>::empty()
                    &&& final(self).conn_at(t as int).queue() == Seq::<Seq<u8>>::empty()
                    &&& forall|j: int|
                        0 <= j < old(self).cap() && j != t ==> final(self).slot(j) == old(
                            self,
                        ).slot(j)
                    &&& final(self).num_live() == old(self).num_live() + 1
                },
                None => {
                    &&& forall|j: int| 0 <= j < old(self).cap() ==> old(self).occupied(j)
                    &&& old(self).num_live() == old(self).cap()
                    &&& forall|j: int|
                        0 <= j < old(self).cap() ==> final(self).slot(j) == old(self).slot(j)
                    &&& final(self).num_live() == old(self).num_live()
                },
            },
    {
        let n: usize = self.slots.len();
        let mut i: usize = 0;
        while i < n
            invariant
                i <= n,
                n == self.slots@.len(),
                self == old(self),
                old(self).wf(),
                forall|j: int| 0 <= j < i ==> old(self).occupied(j),
            decreases n - i,
        {
            if self.slots[i].is_none() {
                let c = Connection::new(i);
                self.slots.set(i, Some(c));
                proof {
                    lemma_count_update(old(self).slots@, i as int, self.slots@[i as int]);
                    assert forall|t: int| self.occupied(t) implies (#[trigger] self.conn_at(
                        t,
                    )).wf() && self.conn_at(t).token_spec() == t by {
                        if t != i {
                            assert(self.slots@[t] == old(self).slots@[t]);
                            assert(old(self).occupied(t));
                            assert(old(self).wf());
                            assert(old(self).occupied(t) ==> old(self).conn_at(t).wf() && old(
                                self,
                            ).conn_at(t).token_spec() == t);
                            assert(self.conn_at(t) == old(self).conn_at(t));
                        } else {
                            assert(self.conn_at(t) == c);
                        }
                    }
                }
                return Some(i);
            }
            i = i + 1;
        }
        proof {
            assert forall|j: int| 0 <= j < self.slots@.len() implies self.slots@[j] is Some by {
                assert(old(self).occupied(j));
            }
            lemma_count_all_occupied(self.slots@);
        }
        None
    }

    /// Vacates token `t`, freeing the slot for reuse; a stale or
    /// out-of-range token changes nothing.  No other occupant is touched.
    pub fn remove(&mut self, t: usize)
        requires
            old(self).wf(),
        ensures
            final(self).wf(),
            final(self).cap() == old(self).cap(),
            !final(self).occupied(t as int),
            forall|j: int|
                0 <= j < old(self).cap() && j != t ==> final(self).slot(j) == old(self).slot(j),
            final(self).num_live() == old(self).num_live() - (if old(self).occupied(t as int) {
                1nat
            } else {
                0nat
            }),
    {
        if t < self.slots.len() {
            proof {
                lemma_count_update(self.slots@, t as int, None);
            }
            self.slots.set(t, None);
            proof {
                assert forall|j: int| self.occupied(j) implies (#[trigger] self.conn_at(
                    j,
                )).wf() && self.conn_at(j).token_spec() == j by {
                    if j != t {
                        assert(self.slots@[j] == old(self).slots@[j]);
                        assert(old(self).occupied(j));
                        assert(old(self).conn_at(j).wf() && old(self).conn_at(
                            j,
                        ).token_spec() == j);
                        assert(self.conn_at(j) == old(self).conn_at(j));
                    } else {
                        assert(self.slots@[j] is None);
                    }
                }
            }
        }
    }

    /// A shared borrow of the occupant of token `t`; `None` for a vacant or
    /// out-of-range token.
    pub fn get(&self, t: usize) -> (r: Option<&Connection>)
        ensures
            match r {
                Some(c) => self.occupied(t as int) && *c == self.conn_at(t as int),
                None => !self.occupied(t as int),
            },
    {
        if t >= self.slots.len() {
            return None;
        }
        match &self.slots[t] {
            Some(c) => Some(c),
            None => None,
        }
    }

    /// The table never holds more live connections than it has slots.
    pub proof fn lemma_num_live_le_cap(self)
        ensures
            self.num_live() <= self.cap(),
    {
        lemma_count_le_len(self.slots@);
    }

    /// The number of live connections depends only on which tokens are
    /// occupied, never on the occupants' state.
    pub proof fn lemma_num_live_congruent(self, other: ConnTable)
        requires
            self.cap() == other.cap(),
            forall|t: int| 0 <= t < self.cap() ==> (self.occupied(t) <==> other.occupied(t)),
        ensures
            self.num_live() == other.num_live(),
    {
        assert forall|i: int| 0 <= i < self.slots@.len() implies ((self.slots@[i] is Some) <==> (
        other.slots@[i] is Some)) by {
            assert(self.occupied(i) <==> other.occupied(i));
        }
        lemma_count_same_occupancy(self.slots@, other.slots@);
    }

    /// Whether token `t` is currently live; the validity check made before
    /// any event is dispatched to a connection.
    pub fn contains(&self, t: usize) -> (b: bool)
        ensures
            b == self.occupied(t as int),
    {
        t < self.slots.len() && self.slots[t].is_some()
    }

    /// Appends bytes one non-blocking read produced to the occupant of
    /// token `t`.
    pub fn receive_at(&mut self, t: usize, bytes: &[u8])
        requires
            old(self).wf(),
            old(self).occupied(t as int),
        ensures
            final(self).wf(),
            final(self).cap() == old(self).cap(),
            final(self).num_live() == old(self).num_live(),
            forall|j: int|
                0 <= j < old(self).cap() && j != t ==> final(self).slot(j) == old(self).slot(j),
            final(self).occupied(t as int),
            final(self).conn_at(t as int).token_spec() == t,
            final(self).conn_at(t as int).inbound_bytes() == old(self).conn_at(
                t as int,
            ).inbound_bytes() + bytes@,
            final(self).conn_at(t as int).queue() == old(self).conn_at(t as int).queue(),
            final(self).conn_at(t as int).written_spec() == old(self).conn_at(
                t as int,
            ).written_spec(),
    {
        proof {
            assert(old(self).conn_at(t as int).wf());
        }
        match &mut self.slots[t] {
            Some(c) => {
                c.receive(bytes);
            },
            None => {
                proof {
                    assert(false);
                }
            },
        }
        proof {
            lemma_one_slot_changed(*old(self), *self, t as int);
        }
    }

    /// Tries to take one complete framed message from the occupant of
    /// token `t`; the extraction step of `read_message`.
    pub fn extract_at(&mut self, t: usize) -> (r: Result<Option<Vec<u8>>, FrameError>)
        requires
            old(self).wf(),
            old(self).occupied(t as int),
        ensures
            final(self).wf(),
            final(self).cap() == old(self).cap(),
            final(self).num_live() == old(self).num_live(),
            forall|j: int|
                0 <= j < old(self).cap() && j != t ==> final(self).slot(j) == old(self).slot(j),
            final(self).occupied(t as int),
            final(self).conn_at(t as int).token_spec() == t,
            final(self).conn_at(t as int).queue() == old(self).conn_at(t as int).queue(),
            final(self).conn_at(t as int).written_spec() == old(self).conn_at(
                t as int,
            ).written_spec(),
            match r {
                Ok(None) => {
                    &&& final(self).conn_at(t as int).inbound_bytes() == old(self).conn_at(
                        t as int,
                    ).inbound_bytes()
                    &&& !frame::frame_complete(
                        old(self).conn_at(t as int).inbound_bytes(),
                        MAX_PAYLOAD_LEN as nat,
                    )
                    &&& !frame::oversized(
                        old(self).conn_at(t as int).inbound_bytes(),
                        MAX_PAYLOAD_LEN as nat,
                    )
                },
                Ok(Some(m)) => {
                    &&& frame::frame_complete(
                        old(self).conn_at(t as int).inbound_bytes(),
                        MAX_PAYLOAD_LEN as nat,
                    )
                    &&& m@ == frame::frame_payload(old(self).conn_at(t as int).inbound_bytes())
                    &&& m@.len() <= MAX_PAYLOAD_LEN
                    &&& final(self).conn_at(t as int).inbound_bytes() == frame::frame_rest(
                        old(self).conn_at(t as int).inbound_bytes(),
                    )
                },
                Err(e) => {
                    &&& e == FrameError::Oversized
                    &&& frame::oversized(
                        old(self).conn_at(t as int).inbound_bytes(),
                        MAX_PAYLOAD_LEN as nat,
                    )
                    &&& final(self).conn_at(t as int).inbound_bytes() == old(self).conn_at(
                        t as int,
                    ).inbound_bytes()
                },
            },
    {
        proof {
            assert(old(self).conn_at(t as int).wf());
        }
        let r = match &mut self.slots[t] {
            Some(c) => c.extract_message(),
            None => {
                proof {
                    assert(false);
                }
                Ok(None)
            },
        };
        proof {
            lemma_one_slot_changed(*old(self), *self, t as int);
        }
        r
    }

    /// Queues one shared message on the occupant of token `t`; reports
    /// whether its queue was empty before, i.e. whether the connection must
    /// now ask for write readiness.
    pub fn enqueue_at(&mut self, t: usize, msg: Message) -> (was_empty: bool)
        requires
            old(self).wf(),
            old(self).occupied(t as int),
            msg@.len() > 0,
        ensures
            final(self).wf(),
            final(self).cap() == old(self).cap(),
            final(self).num_live() == old(self).num_live(),
            forall|j: int|
                0 <= j < old(self).cap() && j != t ==> final(self).slot(j) == old(self).slot(j),
            final(self).occupied(t as int),
            final(self).conn_at(t as int).token_spec() == t,
            final(self).conn_at(t as int).queue() == old(self).conn_at(t as int).queue().push(
                msg@,
            ),
            final(self).conn_at(t as int).inbound_bytes() == old(self).conn_at(
                t as int,
            ).inbound_bytes(),
            final(self).conn_at(t as int).written_spec() == old(self).conn_at(
                t as int,
            ).written_spec(),
            was_empty == (old(self).conn_at(t as int).queue().len() == 0),
    {
        proof {
            assert(old(self).conn_at(t as int).wf());
        }
        let was_empty = match &mut self.slots[t] {
            Some(c) => c.enqueue(msg),
            None => {
                proof {
                    assert(false);
                }
                false
            },
        };
        proof {
            lemma_one_slot_changed(*old(self), *self, t as int);
        }
        was_empty
    }

    /// The unsent bytes of the head message queued at token `t`, or `None`
    /// when nothing is queued.
    pub fn pending_at(&self, t: usize) -> (r: Option<Vec<u8>>)
        requires
            self.wf(),
            self.occupied(t as int),
        ensures
            match r {
                None => self.conn_at(t as int).queue().len() == 0,
                Some(b) => {
                    &&& self.conn_at(t as int).queue().len() > 0
                    &&& b@ == self.conn_at(t as int).queue()[0].skip(
                        self.conn_at(t as int).written_spec() as int,
                    )
                    &&& b@.len() > 0
                },
            },
    {
        proof {
            assert(self.conn_at(t as int).wf());
        }
        match &self.slots[t] {
            Some(c) => c.pending(),
            None => {
                proof {
                    assert(false);
                }
                None
            },
        }
    }

    /// Records that `p` pending bytes of the occupant of token `t` were
    /// accepted by its socket; reports whether its queue drained, i.e.
    /// whether the connection should drop write interest.
    pub fn advance_at(&mut self, t: usize, p: usize) -> (drained: bool)
        requires
            old(self).wf(),
            old(self).occupied(t as int),
            old(self).conn_at(t as int).queue().len() > 0,
            old(self).conn_at(t as int).written_spec() + p <= old(self).conn_at(
                t as int,
            ).queue()[0].len(),
        ensures
            final(self).wf(),
            final(self).cap() == old(self).cap(),
            final(self).num_live() == old(self).num_live(),
            forall|j: int|
                0 <= j < old(self).cap() && j != t ==> final(self).slot(j) == old(self).slot(j),
            final(self).occupied(t as int),
            final(self).conn_at(t as int).token_spec() == t,
            final(self).conn_at(t as int).queue() == connection::after_advance(
                old(self).conn_at(t as int).queue(),
                old(self).conn_at(t as int).written_spec(),
                p as nat,
            ).0,
            final(self).conn_at(t as int).written_spec() == connection::after_advance(
                old(self).conn_at(t as int).queue(),
                old(self).conn_at(t as int).written_spec(),
                p as nat,
            ).1,
            final(self).conn_at(t as int).inbound_bytes() == old(self).conn_at(
                t as int,
            ).inbound_bytes(),
            drained == (final(self).conn_at(t as int).queue().len() == 0),
    {
        proof {
            assert(old(self).conn_at(t as int).wf());
        }
        let drained = match &mut self.slots[t] {
            Some(c) => c.advance(p),
            None => {
                proof {
                    assert(false);
                }
                false
            },
        };
        proof {
            lemma_one_slot_changed(*old(self), *self, t as int);
        }
        drained
    }
}

/// Tokens never name two live occupants at once: an occupant's token is
/// its slot index, so two occupied slots sharing a token are the same
/// slot.
pub proof fn lemma_token_unique(s: ConnTable, i: int, j: int)
    requires
        s.wf(),
        s.occupied(i),
        s.occupied(j),
        s.conn_at(i).token_spec() == s.conn_at(j).token_spec(),
    ensures
        i == j,
{
}

/// Slot reuse: vacating token `t` frees exactly that slot, and when every
/// slot below `t` is occupied, the next allocation — which always hands
/// out the lowest vacant slot — returns `t` again.  `pre` is the table
/// before the removal, `post` after it, and `r` what the following
/// allocation returned, each as `remove` and `insert` describe them.
pub proof fn lemma_slot_reuse(pre: ConnTable, post: ConnTable, t: int, r: usize)
    requires
        pre.wf(),
        pre.occupied(t),
        forall|j: int| 0 <= j < t ==> pre.occupied(j),
        post.cap() == pre.cap(),
        !post.occupied(t),
        forall|j: int| 0 <= j < pre.cap() && j != t ==> post.slot(j) == pre.slot(j),
        r < post.cap(),
        !post.occupied(r as int),
        forall|j: int| 0 <= j < r ==> post.occupied(j),
    ensures
        r == t,
{
    if (r as int) < t {
        assert(pre.occupied(r as int));
        assert(post.slot(r as int) == pre.slot(r as int));
        assert(post.occupied(r as int));
    }
    if (r as int) > t {
        assert(post.occupied(t));
    }
}

/// When exactly one slot's occupant changes state in place — neither
/// appearing nor disappearing nor changing its token — the table stays
/// well formed and its live count stays put.
proof fn lemma_one_slot_changed(pre: ConnTable, post: ConnTable, t: int)
    requires
        pre.wf(),
        pre.cap() == post.cap(),
        0 <= t < pre.cap(),
        pre.occupied(t),
        post.occupied(t),
        post.conn_at(t).wf(),
        post.conn_at(t).token_spec() == pre.conn_at(t).token_spec(),
        forall|j: int| 0 <= j < pre.cap() && j != t ==> post.slot(j) == pre.slot(j),
    ensures
        post.wf(),
        post.num_live() == pre.num_live(),
{
    assert forall|j: int| post.occupied(j) implies (#[trigger] post.conn_at(j)).wf()
        && post.conn_at(j).token_spec() == j by {
        if j != t {
            assert(post.slot(j) == pre.slot(j));
            assert(pre.occupied(j));
            assert(pre.conn_at(j).wf() && pre.conn_at(j).token_spec() == j);
            assert(post.conn_at(j) == pre.conn_at(j));
        } else {
            assert(pre.conn_at(t).token_spec() == t);
        }
    }
    assert forall|j: int| 0 <= j < pre.cap() implies (pre.occupied(j) <==> post.occupied(j)) by {
        if j != t {
            assert(post.slot(j) == pre.slot(j));
        }
    }
    post.lemma_num_live_congruent(pre);
}

} // verus!
