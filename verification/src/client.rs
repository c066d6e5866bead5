//! One connection: what it reads, what waits to be written, and which of its
//! messages are still unacknowledged.
use crate::model::{
    first_droppable, fresh_client, free_pid, make_room, pid_after, pid_at, taken_run, with_qos0,
    ClientModel, InFlightModel, SubModel, IN_FLIGHT_CAP, WRITE_QUEUE_CAP,
};
use crate::views::{map_views, views};
use std::collections::{BTreeMap, BTreeSet, VecDeque};
use vstd::prelude::*;

verus! {

broadcast use crate::views::group_views;

/// A client's interest in the topics that match a filter.
pub struct Subscription {
    pub filter: String,
    pub token: usize,
    pub qos: u8,
}

impl View for Subscription {
    type V = SubModel;

    open spec fn view(&self) -> SubModel {
        SubModel { filter: self.filter@, token: self.token, qos: self.qos }
    }
}

/// A message that awaits its acknowledgement: at QoS 1 the PUBACK, at QoS 2
/// first the PUBREC and then, once `await_pubcomp` is set, the PUBCOMP.
pub struct InFlight {
    pub pkt: Vec<u8>,
    pub sent_at: u64,
    pub retries: u32,
    pub qos2: bool,
    pub await_pubcomp: bool,
}

impl View for InFlight {
    type V = InFlightModel;

    open spec fn view(&self) -> InFlightModel {
        InFlightModel {
            pkt: self.pkt@,
            sent_at: self.sent_at,
            retries: self.retries,
            qos2: self.qos2,
            await_pubcomp: self.await_pubcomp,
        }
    }
}

/// The state of one connection.
pub struct Client {
    /// Bytes received and not yet parsed.
    pub read_buf: Vec<u8>,
    /// Packets to be written; `true` marks those that must not be dropped.
    pub write_queue: VecDeque<(bool, Vec<u8>)>,
    /// The batch being written, and how much of it has been.
    pub write_pending: Vec<u8>,
    pub write_off: usize,
    /// Where in the batch those packets end that are not wholly written yet.
    pub write_ends: VecDeque<usize>,
    pub client_id: String,
    /// The keepalive that the client asked for, in seconds; zero for none.
    pub keepalive: u16,
    /// The time after which the client is removed, unless it is heard of
    /// before.
    pub keepalive_deadline: Option<u64>,
    pub token: usize,
    /// The packet id to try first for the next message.
    pub next_pid: u16,
    pub in_flight: BTreeMap<u16, InFlight>,
    /// Ids of QoS 2 messages received and not yet released.
    pub received_qos2: BTreeSet<u16>,
    pub will_flag: bool,
    pub will_qos: u8,
    pub will_retain: bool,
    pub will_topic: String,
    pub will_message: Vec<u8>,
    /// The client has sent DISCONNECT.
    pub clean_disconnect: bool,
    pub clean_session: bool,
}

/// Positions as natural numbers.
pub open spec fn positions(s: Seq<usize>) -> Seq<nat> {
    s.map_values(|p: usize| p as nat)
}

impl View for Client {
    type V = ClientModel;

    open spec fn view(&self) -> ClientModel {
        ClientModel {
            read_buf: self.read_buf@,
            write_queue: views(self.write_queue@),
            write_pending: self.write_pending@,
            write_off: self.write_off,
            write_ends: positions(self.write_ends@),
            client_id: self.client_id@,
            keepalive: self.keepalive,
            keepalive_deadline: self.keepalive_deadline,
            token: self.token,
            next_pid: self.next_pid,
            in_flight: map_views(self.in_flight@),
            received_qos2: self.received_qos2@,
            will_flag: self.will_flag,
            will_qos: self.will_qos,
            will_retain: self.will_retain,
            will_topic: self.will_topic@,
            will_message: self.will_message@,
            clean_disconnect: self.clean_disconnect,
            clean_session: self.clean_session,
        }
    }
}

proof fn lemma_first_droppable(q: Seq<(bool, Seq<u8>)>, i: int)
    requires
        0 <= i <= q.len(),
        forall|j: int| 0 <= j < i ==> (#[trigger] q[j]).0,
        i < q.len() ==> !q[i].0,
    ensures
        first_droppable(q) == i,
    decreases q.len(),
{
    if i > 0 {
        assert forall|j: int| 0 <= j < i - 1 implies (#[trigger] q.skip(1)[j]).0 by {
            assert(q[j + 1].0);
        }
        lemma_first_droppable(q.skip(1), i - 1);
        assert(q[0].0);
    }
}

proof fn lemma_taken_run(used: Set<u16>, start: u16, k: nat, n: nat)
    requires
        k <= n < 65535,
        !used.contains(pid_at(start, n)),
        forall|j: nat| k <= j < n ==> used.contains(#[trigger] pid_at(start, j)),
    ensures
        taken_run(used, start, k) == n,
    decreases n - k,
{
    if k < n {
        lemma_taken_run(used, start, k + 1, n);
        assert(used.contains(pid_at(start, k)));
    }
}

/// Fewer taken ids than there are ids in the window: one of the window is free.
pub proof fn lemma_some_pid_free(used: Set<u16>, start: u16, n: nat)
    requires
        used.finite(),
        used.len() < n <= 65535,
    ensures
        exists|k: nat| k < n && !used.contains(#[trigger] pid_at(start, k)),
{
    if forall|k: nat| k < n ==> used.contains(#[trigger] pid_at(start, k)) {
        let window = Seq::new(n, |k: int| pid_at(start, k as nat));
        assert forall|i: int, j: int| 0 <= i < n && 0 <= j < n && i != j implies window[i]
            != window[j] by {
            let first = if start == 0 {
                1
            } else {
                start as int
            };
            assert((first - 1 + i) % 65535 != (first - 1 + j) % 65535) by (nonlinear_arith)
                requires
                    0 <= i < 65535,
                    0 <= j < 65535,
                    i != j,
                    1 <= first <= 65535,
            ;
        }
        window.unique_seq_to_set();
        assert(window.to_set().subset_of(used)) by {
            assert forall|p: u16| window.to_set().contains(p) implies used.contains(p) by {
                let i = choose|i: int| 0 <= i < window.len() && window[i] == p;
                assert(used.contains(pid_at(start, i as nat)));
            }
        }
        vstd::set_lib::lemma_len_subset(window.to_set(), used);
    }
}

impl Client {
    /// A connection that has just been accepted.
    pub fn new(token: usize) -> (c: Client)
        ensures
            c@ == fresh_client(token),
    {
        let c = Client {
            read_buf: Vec::new(),
            write_queue: VecDeque::new(),
            write_pending: Vec::new(),
            write_off: 0,
            write_ends: VecDeque::new(),
            client_id: String::new(),
            keepalive: 0,
            keepalive_deadline: None,
            token,
            next_pid: 1,
            in_flight: BTreeMap::new(),
            received_qos2: BTreeSet::new(),
            will_flag: false,
            will_qos: 0,
            will_retain: false,
            will_topic: String::new(),
            will_message: Vec::new(),
            clean_disconnect: false,
            clean_session: true,
        };
        assert(c@ =~= fresh_client(token));
        c
    }

    /// Queues a packet that may be dropped: `false` if the queue is full.
    pub fn queue_qos0(&mut self, pkt: Vec<u8>) -> (r: bool)
        ensures
            final(self)@ == with_qos0(old(self)@, pkt@),
            r == (old(self)@.write_queue.len() < WRITE_QUEUE_CAP),
    {
        if self.write_queue.len() >= WRITE_QUEUE_CAP {
            return false;
        }
        self.write_queue.push_back((false, pkt));
        assert(self@ =~= with_qos0(old(self)@, pkt@));
        true
    }

    fn first_droppable(&self) -> (r: usize)
        ensures
            r == first_droppable(self@.write_queue),
            r <= self@.write_queue.len(),
    {
        let mut i: usize = 0;
        while i < self.write_queue.len()
            invariant
                i <= self.write_queue@.len(),
                forall|j: int| 0 <= j < i ==> (#[trigger] self.write_queue@[j]).0,
            decreases self.write_queue@.len() - i,
        {
            if !self.write_queue[i].0 {
                proof {
                    assert forall|j: int| 0 <= j < i implies (#[trigger] self@.write_queue[j]).0 by {
                        assert(self.write_queue@[j].0);
                    }
                    lemma_first_droppable(self@.write_queue, i as int);
                }
                return i;
            }
            i += 1;
        }
        proof {
            assert forall|j: int| 0 <= j < i implies (#[trigger] self@.write_queue[j]).0 by {
                assert(self.write_queue@[j].0);
            }
            lemma_first_droppable(self@.write_queue, i as int);
        }
        i
    }

    /// Queues a packet that must not be dropped. In a full queue the oldest
    /// packets that may be dropped make room for it, and the order of the rest
    /// is kept; `Err` if there is no such packet.
    pub fn queue_qos1(&mut self, pkt: Vec<u8>) -> (r: Result<(), ()>)
        ensures
            match r {
                Ok(()) => {
                    &&& make_room(old(self)@.write_queue).len() < WRITE_QUEUE_CAP
                    &&& final(self)@ == (ClientModel {
                        write_queue: make_room(old(self)@.write_queue).push((true, pkt@)),
                        ..old(self)@
                    })
                },
                Err(()) => {
                    &&& make_room(old(self)@.write_queue).len() >= WRITE_QUEUE_CAP
                    &&& final(self)@ == (ClientModel {
                        write_queue: make_room(old(self)@.write_queue),
                        ..old(self)@
                    })
                },
            },
    {
        while self.write_queue.len() >= WRITE_QUEUE_CAP
            invariant
                self@ == (ClientModel { write_queue: self@.write_queue, ..old(self)@ }),
                make_room(self@.write_queue) == make_room(old(self)@.write_queue),
            decreases self.write_queue@.len(),
        {
            let i: usize = self.first_droppable();
            if i >= self.write_queue.len() {
                assert(self@ =~= (ClientModel {
                    write_queue: make_room(old(self)@.write_queue),
                    ..old(self)@
                }));
                return Err(());
            }
            let ghost before = self@.write_queue;
            self.write_queue.remove(i);
            assert(self@.write_queue =~= before.remove(i as int));
        }
        self.write_queue.push_back((true, pkt));
        assert(self@ =~= (ClientModel {
            write_queue: make_room(old(self)@.write_queue).push((true, pkt@)),
            ..old(self)@
        }));
        Ok(())
    }

    /// Takes a packet id that is not in flight; `None` if too many messages
    /// are.
    pub fn alloc_pid(&mut self) -> (r: Option<u16>)
        ensures
            match r {
                Some(pid) => {
                    let used = old(self)@.in_flight.dom();
                    &&& used.len() < IN_FLIGHT_CAP
                    &&& pid == free_pid(used, old(self)@.next_pid)
                    &&& pid != 0
                    &&& !used.contains(pid)
                    &&& final(self)@ == (ClientModel { next_pid: pid_after(pid), ..old(self)@ })
                },
                None => {
                    &&& old(self)@.in_flight.dom().len() >= IN_FLIGHT_CAP
                    &&& final(self)@ == old(self)@
                },
            },
    {
        assert(self@.in_flight.dom() =~= self.in_flight@.dom());
        if self.in_flight.len() >= IN_FLIGHT_CAP {
            return None;
        }
        let ghost used = self@.in_flight.dom();
        let ghost start = self.next_pid;
        proof {
            lemma_some_pid_free(used, start, IN_FLIGHT_CAP as nat);
        }
        let ghost free = choose|k: nat|
            k < IN_FLIGHT_CAP && !used.contains(#[trigger] pid_at(start, k));
        let mut pid: u16 = if self.next_pid == 0 {
            1
        } else {
            self.next_pid
        };
        let ghost mut k: nat = 0;
        while self.in_flight.contains_key(&pid)
            invariant
                used == self.in_flight@.dom(),
                start == self.next_pid,
                self@ == old(self)@,
                free < IN_FLIGHT_CAP,
                !used.contains(pid_at(start, free)),
                k <= free,
                pid == pid_at(start, k),
                pid >= 1,
                forall|j: nat| j < k ==> used.contains(#[trigger] pid_at(start, j)),
            decreases free - k,
        {
            pid = if pid == 65535 {
                1
            } else {
                pid + 1
            };
            proof {
                k = k + 1;
            }
        }
        proof {
            lemma_taken_run(used, start, 0, k);
        }
        self.next_pid = if pid == 65535 {
            0
        } else {
            pid + 1
        };
        assert(self@ =~= (ClientModel { next_pid: pid_after(pid), ..old(self)@ }));
        Some(pid)
    }
}

} // verus!
