//! Slot table of client sessions for one fan-out worker.
//!
//! The pool owns an ordered table of optional sessions with stable indices
//! and a stack of free indices for reuse without shifting. The caller's
//! event loop drives it: readiness events arrive by slot index, records
//! from the bus fan out to every nearby session, and a failed session is
//! removed, its slot going back on the free stack.

use vstd::prelude::*;
use crate::client::{Client, Position, traffic_close_spec, traffic_dgram, parse_position_spec};
use crate::dgramostream;
use crate::traffic_infos::TrafficInfos;

verus! {

/// Maximum number of clients connected at the same time for the pool.
pub const CLIENTS_MAX_NB: usize = 200;

/// Event identifiers for use in a readiness multiplexer's data field.
pub const EVENT_TYPE_CLIENT: u32 = 1;

pub const EVENT_TYPE_TRAFFIC_RECV: u32 = 2;

/// An event identifier: an event type in the upper 32 bits and an event
/// number in the lower 32 bits of one plain integer, so a multiplexer can
/// carry it as opaque user data.
pub struct EventId(pub u64);

impl EventId {
    /// Packs an event type and an event number.
    pub fn new(event_type: u32, event_number: u32) -> (r: EventId)
        ensures
            r.0 == event_type as int * 0x1_0000_0000 + event_number as int,
            r.0 as int / 0x1_0000_0000 == event_type as int,
            r.0 as int % 0x1_0000_0000 == event_number as int,
    {
        proof {
            lemma_event_id_round_trip(event_type, event_number);
        }
        EventId((event_type as u64) * 0x1_0000_0000 + (event_number as u64))
    }

    /// The event type packed in the upper 32 bits.
    pub fn event_type(&self) -> (r: u32)
        ensures
            r as int == self.0 as int / 0x1_0000_0000,
    {
        (self.0 / 0x1_0000_0000) as u32
    }

    /// The event number packed in the lower 32 bits.
    pub fn event_number(&self) -> (r: u32)
        ensures
            r as int == self.0 as int % 0x1_0000_0000,
    {
        (self.0 % 0x1_0000_0000) as u32
    }
}

/// Packing an event type and number and unpacking them gives them back.
pub proof fn lemma_event_id_round_trip(event_type: u32, event_number: u32)
    ensures
        (event_type as int * 0x1_0000_0000 + event_number as int) / 0x1_0000_0000
            == event_type as int,
        (event_type as int * 0x1_0000_0000 + event_number as int) % 0x1_0000_0000
            == event_number as int,
{
    let t = event_type as u64;
    let n = event_number as u64;
    assert((t * 0x1_0000_0000 + n) / 0x1_0000_0000 == t && (t * 0x1_0000_0000 + n) % 0x1_0000_0000
        == n) by (bit_vector)
        requires
            t < 0x1_0000_0000u64 && n < 0x1_0000_0000u64,
    ;
}

/// Number of live sessions in a slot table.
pub open spec fn count_live(s: Seq<Option<Client>>) -> int
    decreases s.len(),
{
    if s.len() == 0 {
        0
    } else {
        count_live(s.drop_last()) + (if s.last() is Some {
            1int
        } else {
            0int
        })
    }
}

/// The live count lies between 0 and the table length.
proof fn lemma_count_live_bounds(s: Seq<Option<Client>>)
    ensures
        0 <= count_live(s) <= s.len(),
    decreases s.len(),
{
    if s.len() > 0 {
        lemma_count_live_bounds(s.drop_last());
    }
}

/// Replacing one slot changes the live count by the difference of the two
/// occupancies.
proof fn lemma_count_live_update(s: Seq<Option<Client>>, i: int, x: Option<Client>)
    requires
        0 <= i < s.len(),
    ensures
        count_live(s.update(i, x)) == count_live(s) - (if s[i] is Some {
            1int
        } else {
            0int
        }) + (if x is Some {
            1int
        } else {
            0int
        }),
    decreases s.len(),
{
    let s2 = s.update(i, x);
    if i == s.len() - 1 {
        assert(s2.drop_last() =~= s.drop_last());
    } else {
        assert(s2.drop_last() =~= s.drop_last().update(i, x));
        assert(s2.last() == s.last());
        lemma_count_live_update(s.drop_last(), i, x);
    }
}

/// Appending a slot adds its occupancy to the live count.
proof fn lemma_count_live_push(s: Seq<Option<Client>>, x: Option<Client>)
    ensures
        count_live(s.push(x)) == count_live(s) + (if x is Some {
            1int
        } else {
            0int
        }),
{
    assert(s.push(x).drop_last() =~= s);
}

/// What one client readiness event did to the pool.
#[derive(Clone, Copy, Debug, PartialEq, Eq, Structural)]
pub enum ClientEvent {
    /// The slot is empty: a stale event, silently ignored.
    Ignored,
    /// The position frame is not complete yet.
    Pending,
    /// A complete position message was decoded and retained.
    NewPosition(Position),
    /// The session failed and was removed; its socket must be closed and
    /// deregistered by the caller.
    Removed,
}

/// The slot table of one fan-out worker.
pub struct ClientPool {
    clients: Vec<Option<Client>>,
    free_clients: Vec<usize>,
    nb_clients: usize,
}

impl ClientPool {
    /// The slot table.
    pub closed spec fn slots(&self) -> Seq<Option<Client>> {
        self.clients@
    }

    /// The stack of free slot indices.
    pub closed spec fn free_list(&self) -> Seq<usize> {
        self.free_clients@
    }

    /// Current number of clients.
    pub closed spec fn nb_spec(&self) -> int {
        self.nb_clients as int
    }

    /// Pool invariant: the free stack holds exactly the empty slots, once
    /// each; the client count equals the number of live sessions; every
    /// live session is well formed.
    pub closed spec fn wf(&self) -> bool {
        &&& self.clients@.len() <= CLIENTS_MAX_NB
        &&& self.free_clients@.no_duplicates()
        &&& forall|i: int|
            0 <= i < self.free_clients@.len() ==> (#[trigger] self.free_clients@[i]
                < self.clients@.len() && self.clients@[self.free_clients@[i] as int] is None)
        &&& forall|j: int|
            0 <= j < self.clients@.len() && self.clients@[j] is None
                ==> self.free_clients@.contains(j as usize)
        &&& self.nb_clients + self.free_clients@.len() == self.clients@.len()
        &&& self.nb_clients == count_live(self.clients@)
        &&& forall|j: int|
            0 <= j < self.clients@.len() ==> (#[trigger] self.clients@[j] matches Some(c)
                ==> c.wf())
    }

    /// The client counter is consistent with the set of live sessions: a
    /// well-formed pool counts exactly its occupied slots, so it can never
    /// underflow.
    pub proof fn lemma_counter_matches_live_sessions(&self)
        requires
            self.wf(),
        ensures
            self.nb_spec() == count_live(self.slots()),
            0 <= self.nb_spec() <= CLIENTS_MAX_NB as int,
    {
        lemma_count_live_bounds(self.clients@);
    }

    /// Creation of an empty pool.
    pub fn new() -> (r: ClientPool)
        ensures
            r.wf(),
            r.slots().len() == 0,
            r.free_list().len() == 0,
            r.nb_spec() == 0,
    {
        ClientPool { clients: Vec::new(), free_clients: Vec::new(), nb_clients: 0 }
    }

    /// Current number of clients in the pool.
    pub fn get_nb_clients(&self) -> (r: usize)
        ensures
            r as int == self.nb_spec(),
    {
        self.nb_clients
    }

    /// Adds a new client to the pool and returns its slot index, reusing the
    /// most recently freed slot first; a full pool refuses the client and
    /// stays as it is. The caller registers the client's socket under the
    /// returned index, or closes it on refusal.
    pub fn add_new_client(&mut self, client: Client) -> (r: Option<usize>)
        requires
            old(self).wf(),
            client.wf(),
        ensures
            final(self).wf(),
            // A full pool refuses the client and does not change.
            old(self).nb_spec() >= CLIENTS_MAX_NB as int ==> r is None
                && final(self).slots() == old(self).slots()
                && final(self).free_list() == old(self).free_list()
                && final(self).nb_spec() == old(self).nb_spec(),
            // Otherwise the client is accepted.
            old(self).nb_spec() < CLIENTS_MAX_NB as int ==> (r matches Some(idx)
                && final(self).nb_spec() == old(self).nb_spec() + 1
                && idx < final(self).slots().len()
                && final(self).slots()[idx as int] == Some(client)
                && {
                    if old(self).free_list().len() > 0 {
                        // The most recently freed slot is reused.
                        &&& idx == old(self).free_list().last()
                        &&& final(self).free_list() == old(self).free_list().drop_last()
                        &&& final(self).slots() == old(self).slots().update(
                            idx as int,
                            Some(client),
                        )
                    } else {
                        // A new slot is appended.
                        &&& idx as int == old(self).slots().len()
                        &&& final(self).free_list() == old(self).free_list()
                        &&& final(self).slots() == old(self).slots().push(Some(client))
                    }
                }),
    {
        if self.nb_clients >= CLIENTS_MAX_NB {
            // The maximum number of clients is reached: refuse the new one.
            return None;
        }
        let client_index: usize;
        match self.free_clients.pop() {
            Some(i) => {
                // A freed slot exists: reuse it.
                proof {
                    assert(old(self).free_clients@[old(self).free_clients@.len() - 1] == i);
                    lemma_count_live_update(old(self).clients@, i as int, Some(client));
                }
                self.clients.set(i, Some(client));
                client_index = i;
            },
            None => {
                // No free slot: append a new one.
                proof {
                    lemma_count_live_push(old(self).clients@, Some(client));
                    lemma_count_live_bounds(old(self).clients@);
                }
                client_index = self.clients.len();
                self.clients.push(Some(client));
            },
        }
        self.nb_clients = self.nb_clients + 1;
        proof {
            self.lemma_add_preserves_wf(old(self), client, client_index);
        }
        Some(client_index)
    }

    /// The free-stack bookkeeping of an accepted client keeps the invariant.
    proof fn lemma_add_preserves_wf(&self, prev: &ClientPool, client: Client, idx: usize)
        requires
            prev.wf(),
            client.wf(),
            prev.nb_clients < CLIENTS_MAX_NB,
            self.nb_clients == prev.nb_clients + 1,
            if prev.free_clients@.len() > 0 {
                &&& idx == prev.free_clients@.last()
                &&& self.free_clients@ == prev.free_clients@.drop_last()
                &&& self.clients@ == prev.clients@.update(idx as int, Some(client))
            } else {
                &&& idx as int == prev.clients@.len()
                &&& self.free_clients@ == prev.free_clients@
                &&& self.clients@ == prev.clients@.push(Some(client))
            },
        ensures
            self.wf(),
    {
        if prev.free_clients@.len() > 0 {
            lemma_count_live_update(prev.clients@, idx as int, Some(client));
            assert forall|j: int|
                0 <= j < self.clients@.len() && self.clients@[j] is None implies self
                .free_clients@.contains(j as usize) by {
                assert(prev.clients@[j] is None);
                let p = choose|p: int|
                    0 <= p < prev.free_clients@.len() && prev.free_clients@[p] == j as usize;
                assert(p < prev.free_clients@.len() - 1);
                assert(self.free_clients@[p] == j as usize);
            };
        } else {
            lemma_count_live_push(prev.clients@, Some(client));
            lemma_count_live_bounds(prev.clients@);
            assert forall|j: int|
                0 <= j < self.clients@.len() && self.clients@[j] is None implies self
                .free_clients@.contains(j as usize) by {
                assert(j < prev.clients@.len());
            };
        }
    }

    /// Removes the session at `client_index`: the slot becomes free and goes
    /// on top of the free stack. The caller deregisters and closes the
    /// session's socket.
    pub fn delete_client(&mut self, client_index: usize)
        requires
            old(self).wf(),
            client_index < old(self).slots().len(),
            old(self).slots()[client_index as int] is Some,
        ensures
            final(self).wf(),
            final(self).slots() == old(self).slots().update(client_index as int, None::<Client>),
            final(self).free_list() == old(self).free_list().push(client_index),
            final(self).nb_spec() == old(self).nb_spec() - 1,
    {
        proof {
            lemma_count_live_update(old(self).clients@, client_index as int, None);
            lemma_count_live_bounds(old(self).clients@.update(client_index as int, None));
        }
        self.clients.set(client_index, None);
        self.free_clients.push(client_index);
        self.nb_clients = self.nb_clients - 1;
        proof {
            let prev = old(self);
            assert forall|j: int|
                0 <= j < self.clients@.len() && self.clients@[j] is None implies self
                .free_clients@.contains(j as usize) by {
                if j == client_index {
                    assert(self.free_clients@.last() == client_index);
                } else {
                    let p = choose|p: int|
                        0 <= p < prev.free_clients@.len() && prev.free_clients@[p] == j as usize;
                    assert(self.free_clients@[p] == j as usize);
                }
            };
            assert forall|i: int|
                0 <= i < self.free_clients@.len() implies (#[trigger] self.free_clients@[i]
                < self.clients@.len() && self.clients@[self.free_clients@[i] as int] is None) by {
                if i < prev.free_clients@.len() {
                    assert(prev.free_clients@[i] == self.free_clients@[i]);
                }
            };
        }
    }

    /// Most bytes the caller should read from the socket of the session at
    /// `client_index` for its current frame; 0 for an empty slot.
    pub fn client_recv_needed(&self, client_index: usize) -> (r: usize)
        requires
            self.wf(),
            client_index < self.slots().len(),
        ensures
            match self.slots()[client_index as int] {
                Some(c) => r as int == c.framer().needed(),
                None => r == 0,
            },
    {
        match &self.clients[client_index] {
            Some(client) => client.recv_needed(),
            None => 0,
        }
    }

    /// The pool as it stands once the session at `idx` has been removed.
    pub open spec fn removed_state(prev: ClientPool, post: ClientPool, idx: usize) -> bool {
        &&& post.slots() == prev.slots().update(idx as int, None::<Client>)
        &&& post.free_list() == prev.free_list().push(idx)
        &&& post.nb_spec() == prev.nb_spec() - 1
    }

    /// The pool with every slot but `idx` as it was.
    pub open spec fn kept_state(prev: ClientPool, post: ClientPool, idx: usize) -> bool {
        &&& post.free_list() == prev.free_list()
        &&& post.nb_spec() == prev.nb_spec()
        &&& post.slots().len() == prev.slots().len()
        &&& forall|j: int|
            0 <= j < prev.slots().len() && j != idx ==> post.slots()[j] == prev.slots()[j]
    }

    /// Handles a readiness event for a client slot: feeds the bytes read off
    /// the client's socket to its session; a complete message updates the
    /// position, and any session error removes the client. An event for a
    /// slot that has since been emptied is silently ignored.
    pub fn process_client_event(&mut self, client_index: usize, data: &[u8]) -> (r: ClientEvent)
        requires
            old(self).wf(),
            client_index < old(self).slots().len(),
            old(self).slots()[client_index as int] matches Some(c) ==> data@.len()
                <= c.framer().needed(),
        ensures
            final(self).wf(),
            old(self).slots()[client_index as int] is None ==> r == ClientEvent::Ignored
                && final(self).slots() == old(self).slots()
                && final(self).free_list() == old(self).free_list()
                && final(self).nb_spec() == old(self).nb_spec(),
            old(self).slots()[client_index as int] matches Some(c) ==> {
                let (fs, out) = dgramostream::recv_transition(c.framer(), data@);
                match out {
                    Err(_) => r == ClientEvent::Removed
                        && Self::removed_state(*old(self), *final(self), client_index),
                    Ok(None) => r == ClientEvent::Pending
                        && Self::kept_state(*old(self), *final(self), client_index)
                        && (final(self).slots()[client_index as int] matches Some(c2)
                            && c2.framer() == fs
                            && c2.position_spec() == c.position_spec()),
                    Ok(Some(d)) => match parse_position_spec(d) {
                        Ok(p) => r == ClientEvent::NewPosition(p)
                            && Self::kept_state(*old(self), *final(self), client_index)
                            && (final(self).slots()[client_index as int] matches Some(c2)
                                && c2.framer() == fs
                                && c2.position_spec() == Some(p)),
                        Err(_) => r == ClientEvent::Removed
                            && Self::removed_state(*old(self), *final(self), client_index),
                    },
                }
            },
    {
        let has_client = self.clients[client_index].is_some();
        if !has_client {
            return ClientEvent::Ignored;
        }
        let result;
        match &mut self.clients[client_index] {
            Some(client) => {
                result = client.recv_position(data);
            },
            None => {
                proof {
                    assert(false);
                }
                result = Ok(None);
            },
        }
        proof {
            lemma_count_live_update(
                old(self).clients@,
                client_index as int,
                self.clients@[client_index as int],
            );
            assert forall|i: int|
                0 <= i < self.free_clients@.len() implies (#[trigger] self.free_clients@[i]
                < self.clients@.len() && self.clients@[self.free_clients@[i] as int] is None) by {
                assert(old(self).clients@[self.free_clients@[i] as int] is None);
            };
            assert forall|j: int|
                0 <= j < self.clients@.len() && self.clients@[j] is None implies self
                .free_clients@.contains(j as usize) by {
                assert(old(self).clients@[j] is None);
            };
            assert(self.wf());
        }
        match result {
            Ok(Some(position)) => ClientEvent::NewPosition(position),
            Ok(None) => ClientEvent::Pending,
            Err(_) => {
                // Error while receiving the client position: remove the
                // session.
                self.delete_client(client_index);
                proof {
                    assert(self.clients@ =~= old(self).clients@.update(
                        client_index as int,
                        None::<Client>,
                    ));
                }
                ClientEvent::Removed
            },
        }
    }

    /// Fans one traffic record out: the framed GDL90 bytes for every live
    /// session whose known position is near the record, in slot order. The
    /// caller writes each frame to the session's socket and removes the
    /// sessions whose write fails.
    pub fn process_traffic_event(&self, traffic_infos: &TrafficInfos) -> (r: Vec<(usize, Vec<u8>)>)
        requires
            self.wf(),
        ensures
            forall|k: int|
                0 <= k < r@.len() ==> {
                    let (i, f) = #[trigger] r@[k];
                    &&& i < self.slots().len()
                    &&& self.slots()[i as int] matches Some(c)
                    &&& traffic_close_spec(*traffic_infos, c.position_spec())
                    &&& f@ == traffic_dgram(*traffic_infos)
                },
            forall|k1: int, k2: int| 0 <= k1 < k2 < r@.len() ==> r@[k1].0 < r@[k2].0,
            forall|i: int|
                0 <= i < self.slots().len() ==> (#[trigger] self.slots()[i] matches Some(c)
                    && traffic_close_spec(*traffic_infos, c.position_spec()) ==> exists|k: int|
                    0 <= k < r@.len() && (#[trigger] r@[k].0) as int == i),
    {
        let mut out: Vec<(usize, Vec<u8>)> = Vec::new();
        let mut i: usize = 0;
        while i < self.clients.len()
            invariant
                self.wf(),
                i <= self.slots().len(),
                forall|k: int|
                    0 <= k < out@.len() ==> {
                        let (ii, f) = #[trigger] out@[k];
                        &&& (ii as int) < i
                        &&& self.slots()[ii as int] matches Some(c)
                        &&& traffic_close_spec(*traffic_infos, c.position_spec())
                        &&& f@ == traffic_dgram(*traffic_infos)
                    },
                forall|k1: int, k2: int| 0 <= k1 < k2 < out@.len() ==> out@[k1].0 < out@[k2].0,
                forall|j: int|
                    0 <= j < i ==> (#[trigger] self.slots()[j] matches Some(c)
                        && traffic_close_spec(*traffic_infos, c.position_spec()) ==> exists|k: int|
                        0 <= k < out@.len() && (#[trigger] out@[k].0) as int == j),
            decreases self.slots().len() - i,
        {
            let ghost out0 = out@;
            match &self.clients[i] {
                Some(client) => {
                    match client.send_traffic(traffic_infos) {
                        Some(frame) => {
                            out.push((i, frame));
                            proof {
                                assert(out@[out@.len() - 1].0 as int == i as int);
                                assert forall|j: int|
                                    0 <= j < i + 1 && (#[trigger] self.slots()[j] matches Some(c)
                                        && traffic_close_spec(
                                        *traffic_infos,
                                        c.position_spec(),
                                    )) implies exists|k: int|
                                    0 <= k < out@.len() && (#[trigger] out@[k].0) as int == j by {
                                    if j < i {
                                        let k = choose|k: int|
                                            0 <= k < out0.len() && (#[trigger] out0[k].0) as int
                                                == j;
                                        assert(out@[k].0 as int == j);
                                    } else {
                                        assert(out@[out@.len() - 1].0 as int == j);
                                    }
                                };
                            }
                        },
                        None => {},
                    }
                },
                None => {},
            }
            i = i + 1;
        }
        out
    }
}

} // verus!
