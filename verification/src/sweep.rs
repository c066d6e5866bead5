//! What the broker does from time to time: it removes clients that have
//! outlived their keepalive, and sends unanswered messages again.
use crate::broker::Broker;
use crate::bytes::copy_bytes;
use crate::client::{Client, InFlight};
use crate::model;
use crate::model::{ClientModel, QOS1_MAX_RETRIES};
use crate::order::{lemma_sorted_pids, pid_list, sorted_pids, token_list};
use crate::packet::build_pubrel;
use crate::views::{lemma_filter_next, lemma_take_next, views};
use vstd::prelude::*;

verus! {

broadcast use crate::views::group_views;

/// The time from `then` to `now`; zero if that is in the future.
pub fn elapsed(now: u64, then: u64) -> (r: u64)
    ensures
        r == model::elapsed(now, then),
{
    if now >= then {
        now - then
    } else {
        0
    }
}

/// How long to wait for an event, in milliseconds: short while there is
/// traffic, longer after more than twenty rounds without any.
pub fn poll_timeout(idle_rounds: u32) -> (ms: u64)
    ensures
        ms == (if idle_rounds > 20 {
            50u64
        } else {
            1u64
        }),
{
    if idle_rounds > 20 {
        50
    } else {
        1
    }
}

/// The number of rounds without an event, after one more round.
pub fn next_idle(idle_rounds: u32, had_events: bool) -> (r: u32)
    ensures
        r == (if had_events {
            0int
        } else {
            (idle_rounds + 1) % 0x1_0000_0000
        }),
{
    if had_events {
        0
    } else {
        idle_rounds.wrapping_add(1)
    }
}

/// The packet with its DUP flag set.
fn with_dup(pkt: Vec<u8>) -> (r: Vec<u8>)
    ensures
        r@ == model::with_dup(pkt@),
{
    let mut pkt: Vec<u8> = pkt;
    if pkt.len() > 0 {
        let first: u8 = pkt[0] | 0x08;
        pkt.set(0, first);
    }
    pkt
}

impl InFlight {
    /// Whether the message was sent at least `retry_ms` milliseconds ago.
    pub fn is_due(&self, now: u64, retry_ms: u64) -> (r: bool)
        ensures
            r == model::is_due(self@, now, retry_ms),
    {
        assert(retry_ms * 1000000 <= u64::MAX * 1000000) by (nonlinear_arith)
            requires
                retry_ms <= u64::MAX,
        ;
        elapsed(now, self.sent_at) as u128 >= retry_ms as u128 * 1000000
    }

    /// What is to be sent again for the message with id `pid`.
    pub fn retry_packet(&self, pid: u16) -> (r: Vec<u8>)
        ensures
            r@ == model::retry_packet(self@, pid),
    {
        if self.qos2 && self.await_pubcomp {
            with_dup(build_pubrel(pid))
        } else {
            with_dup(copy_bytes(self.pkt.as_slice()))
        }
    }
}

impl Client {
    /// Whether a message of this client was sent too often without an answer.
    pub fn is_given_up(&self, now: u64, retry_ms: u64) -> (r: bool)
        ensures
            r == model::is_given_up(self@, now, retry_ms),
    {
        let pids: Vec<u16> = pid_list(&self.in_flight);
        proof {
            lemma_sorted_pids(self.in_flight@.dom());
        }
        let mut i: usize = 0;
        while i < pids.len()
            invariant
                i <= pids@.len(),
                forall|p: u16| #[trigger]
                    self.in_flight@.dom().contains(p) <==> pids@.contains(p),
                forall|j: int|
                    0 <= j < i ==> !(model::is_due(
                        self@.in_flight[#[trigger] pids@[j]],
                        now,
                        retry_ms,
                    ) && self@.in_flight[pids@[j]].retries >= QOS1_MAX_RETRIES),
            decreases pids@.len() - i,
        {
            assert(pids@.contains(pids@[i as int]));
            assert(self.in_flight@.dom().contains(pids@[i as int]));
            match self.in_flight.get(&pids[i]) {
                Some(f) => {
                    assert(self@.in_flight[pids@[i as int]] == f@);
                    if f.is_due(now, retry_ms) && f.retries >= QOS1_MAX_RETRIES {
                        assert(self@.in_flight.contains_key(pids@[i as int]));
                        return true;
                    }
                },
                None => {},
            }
            i += 1;
        }
        proof {
            assert forall|p: u16| #[trigger] self@.in_flight.contains_key(p) implies !(
            model::is_due(self@.in_flight[p], now, retry_ms) && self@.in_flight[p].retries
                >= QOS1_MAX_RETRIES) by {
                assert(self.in_flight@.dom().contains(p));
                let j = choose|j: int| 0 <= j < pids@.len() && pids@[j] == p;
                assert(pids@[j] == p);
            }
        }
        false
    }

    /// Adds the messages of this client that are to be sent again to `out`.
    fn collect_retries(
        &self,
        token: usize,
        now: u64,
        retry_ms: u64,
        out: &mut Vec<(usize, u16, Vec<u8>)>,
    )
        ensures
            views(final(out)@) == views(old(out)@) + model::client_retries(
                self@,
                token,
                sorted_pids(self@.in_flight.dom()),
                now,
                retry_ms,
            ),
    {
        let pids: Vec<u16> = pid_list(&self.in_flight);
        proof {
            lemma_sorted_pids(self.in_flight@.dom());
            assert(self@.in_flight.dom() =~= self.in_flight@.dom());
        }
        let ghost base = views(out@);
        let mut i: usize = 0;
        assert(base + model::client_retries(self@, token, pids@.take(0), now, retry_ms) =~= base);
        while i < pids.len()
            invariant
                i <= pids@.len(),
                forall|p: u16| #[trigger]
                    self.in_flight@.dom().contains(p) <==> pids@.contains(p),
                views(out@) == base + model::client_retries(
                    self@,
                    token,
                    pids@.take(i as int),
                    now,
                    retry_ms,
                ),
            decreases pids@.len() - i,
        {
            proof {
                lemma_take_next(pids@, i as int);
                assert(pids@.contains(pids@[i as int]));
                assert(self.in_flight@.dom().contains(pids@[i as int]));
            }
            let ghost before = model::client_retries(
                self@,
                token,
                pids@.take(i as int),
                now,
                retry_ms,
            );
            let pid: u16 = pids[i];
            match self.in_flight.get(&pid) {
                Some(f) => {
                    assert(self@.in_flight[pid] == f@);
                    if f.is_due(now, retry_ms) && f.retries < QOS1_MAX_RETRIES {
                        let entry: (usize, u16, Vec<u8>) = (token, pid, f.retry_packet(pid));
                        assert(entry@ == (token, pid, model::retry_packet(f@, pid)));
                        out.push(entry);
                        assert(base + before.push(entry@) =~= (base + before).push(entry@));
                    }
                },
                None => {},
            }
            i += 1;
        }
        assert(pids@.take(i as int) =~= pids@);
    }

    /// Queues a message again, and renews its timer and count if it is still
    /// unanswered. `Err` if the queue cannot take it.
    pub fn resend(&mut self, pid: u16, pkt: Vec<u8>, now: u64) -> (r: Result<(), ()>)
        ensures
            match r {
                Ok(()) => model::resent(old(self)@, pid, pkt@, now) == Some(final(self)@),
                Err(()) => {
                    &&& model::resent(old(self)@, pid, pkt@, now) is None
                    &&& final(self)@ == (ClientModel {
                        write_queue: model::make_room(old(self)@.write_queue),
                        ..old(self)@
                    })
                },
            },
    {
        match self.queue_qos1(pkt) {
            Err(()) => Err(()),
            Ok(()) => {
                let ghost mid = self@;
                let ghost raw = self.in_flight@;
                match self.in_flight.remove(&pid) {
                    Some(f) => {
                        let mut f: InFlight = f;
                        assert(mid.in_flight[pid] == f@);
                        f.sent_at = now;
                        f.retries = f.retries.wrapping_add(1);
                        self.in_flight.insert(pid, f);
                        assert(raw.remove(pid).insert(pid, f) =~= raw.insert(pid, f));
                    },
                    None => {
                        assert(self.in_flight@ =~= raw);
                    },
                }
                Ok(())
            },
        }
    }
}

impl Broker {
    /// The connected clients, in the order in which they came.
    pub fn tokens(&self) -> (r: Vec<usize>)
        ensures
            r@ == model::tokens(self@),
    {
        assert(self@.clients.dom() =~= self.clients@.dom());
        token_list(&self.clients)
    }

    /// The clients that there is something to write for: queued packets, or the
    /// rest of an interrupted batch.
    pub fn waiting(&self) -> (r: Vec<usize>)
        ensures
            r@ == model::waiting(self@),
    {
        let all: Vec<usize> = self.tokens();
        let ghost keep = |t: usize| model::has_unsent(self@.clients[t]);
        let mut out: Vec<usize> = Vec::new();
        let mut i: usize = 0;
        proof {
            reveal(Seq::filter);
            self.lemma_listed(all@);
        }
        while i < all.len()
            invariant
                i <= all@.len(),
                keep == (|t: usize| model::has_unsent(self@.clients[t])),
                forall|j: int| 0 <= j < all@.len() ==> self@.clients.contains_key(#[trigger] all@[j]),
                out@ == all@.take(i as int).filter(keep),
            decreases all@.len() - i,
        {
            proof {
                lemma_filter_next(all@, i as int, keep);
                assert(self@.clients.contains_key(all@[i as int]));
            }
            if self.has_unsent(all[i]) {
                out.push(all[i]);
            }
            i += 1;
        }
        assert(all@.take(i as int) =~= all@);
        out
    }

    proof fn lemma_listed(&self, all: Seq<usize>)
        requires
            all == model::tokens(self@),
        ensures
            forall|j: int| 0 <= j < all.len() ==> self@.clients.contains_key(#[trigger] all[j]),
    {
        assert(self@.clients.dom() =~= self.clients@.dom());
        crate::order::lemma_sorted_tokens(self@.clients.dom());
        assert forall|j: int| 0 <= j < all.len() implies self@.clients.contains_key(
            #[trigger] all[j],
        ) by {
            assert(all.contains(all[j]));
        }
    }

    /// The clients whose keepalive deadline has passed.
    pub fn expired(&self, now: u64) -> (r: Vec<usize>)
        ensures
            r@ == model::expired(self@, now),
    {
        let all: Vec<usize> = self.tokens();
        let ghost keep = |t: usize| model::is_expired(self@.clients[t], now);
        let mut out: Vec<usize> = Vec::new();
        let mut i: usize = 0;
        proof {
            reveal(Seq::filter);
            self.lemma_listed(all@);
        }
        while i < all.len()
            invariant
                i <= all@.len(),
                keep == (|t: usize| model::is_expired(self@.clients[t], now)),
                forall|j: int| 0 <= j < all@.len() ==> self@.clients.contains_key(#[trigger] all@[j]),
                out@ == all@.take(i as int).filter(keep),
            decreases all@.len() - i,
        {
            proof {
                lemma_filter_next(all@, i as int, keep);
                assert(self@.clients.contains_key(all@[i as int]));
            }
            match self.clients.get(&all[i]) {
                Some(c) => {
                    assert(c@ == self@.clients[all@[i as int]]);
                    match c.keepalive_deadline {
                        Some(d) => {
                            if now > d {
                                out.push(all[i]);
                            }
                        },
                        None => {},
                    }
                },
                None => {},
            }
            i += 1;
        }
        assert(all@.take(i as int) =~= all@);
        out
    }

    /// Removes every client whose keepalive deadline has passed.
    pub fn sweep_keepalive(&mut self, now: u64)
        ensures
            final(self)@ == model::remove_all(old(self)@, model::expired(old(self)@, now), now),
    {
        let dead: Vec<usize> = self.expired(now);
        let ghost whole = model::remove_all(self@, dead@, now);
        let mut i: usize = 0;
        assert(dead@.skip(0) =~= dead@);
        while i < dead.len()
            invariant
                i <= dead@.len(),
                whole == model::remove_all(self@, dead@.skip(i as int), now),
            decreases dead@.len() - i,
        {
            assert(dead@.skip(i as int)[0] == dead@[i as int]);
            assert(dead@.skip(i as int).skip(1) =~= dead@.skip(i + 1));
            self.remove_client(dead[i], now);
            i += 1;
        }
    }

    /// The messages that are to be sent again.
    pub fn retries(&self, now: u64, retry_ms: u64) -> (r: Vec<(usize, u16, Vec<u8>)>)
        ensures
            views(r@) == model::retries(self@, model::tokens(self@), now, retry_ms),
    {
        let all: Vec<usize> = self.tokens();
        let mut out: Vec<(usize, u16, Vec<u8>)> = Vec::new();
        let mut i: usize = 0;
        proof {
            self.lemma_listed(all@);
        }
        while i < all.len()
            invariant
                i <= all@.len(),
                forall|j: int| 0 <= j < all@.len() ==> self@.clients.contains_key(#[trigger] all@[j]),
                views(out@) == model::retries(self@, all@.take(i as int), now, retry_ms),
            decreases all@.len() - i,
        {
            proof {
                lemma_take_next(all@, i as int);
                assert(self@.clients.contains_key(all@[i as int]));
            }
            match self.clients.get(&all[i]) {
                Some(c) => {
                    assert(c@ == self@.clients[all@[i as int]]);
                    c.collect_retries(all[i], now, retry_ms, &mut out);
                },
                None => {},
            }
            i += 1;
        }
        assert(all@.take(i as int) =~= all@);
        out
    }

    /// The clients that left a message unanswered too often.
    pub fn given_up(&self, now: u64, retry_ms: u64) -> (r: Vec<usize>)
        ensures
            r@ == model::given_up(self@, now, retry_ms),
    {
        let all: Vec<usize> = self.tokens();
        let ghost keep = |t: usize| model::is_given_up(self@.clients[t], now, retry_ms);
        let mut out: Vec<usize> = Vec::new();
        let mut i: usize = 0;
        proof {
            reveal(Seq::filter);
            self.lemma_listed(all@);
        }
        while i < all.len()
            invariant
                i <= all@.len(),
                keep == (|t: usize| model::is_given_up(self@.clients[t], now, retry_ms)),
                forall|j: int| 0 <= j < all@.len() ==> self@.clients.contains_key(#[trigger] all@[j]),
                out@ == all@.take(i as int).filter(keep),
            decreases all@.len() - i,
        {
            proof {
                lemma_filter_next(all@, i as int, keep);
                assert(self@.clients.contains_key(all@[i as int]));
            }
            match self.clients.get(&all[i]) {
                Some(c) => {
                    assert(c@ == self@.clients[all@[i as int]]);
                    if c.is_given_up(now, retry_ms) {
                        out.push(all[i]);
                    }
                },
                None => {},
            }
            i += 1;
        }
        assert(all@.take(i as int) =~= all@);
        out
    }

    /// Queues one message again. A client whose queue cannot take it is
    /// removed.
    pub fn resend(&mut self, token: usize, pid: u16, pkt: Vec<u8>, now: u64)
        ensures
            final(self)@ == model::resend(old(self)@, token, pid, pkt@, now),
    {
        match self.clients.remove(&token) {
            None => {
                assert(self.clients@ =~= old(self).clients@);
            },
            Some(c) => {
                let mut c: Client = c;
                let res: Result<(), ()> = c.resend(pid, pkt, now);
                self.clients.insert(token, c);
                assert(old(self).clients@.remove(token).insert(token, c)
                    =~= old(self).clients@.insert(token, c));
                match res {
                    Ok(()) => {},
                    Err(()) => {
                        self.remove_client(token, now);
                    },
                }
            },
        }
    }

    /// Sends every message again that was not answered for `retry_ms`
    /// milliseconds, and removes the clients that left one unanswered too
    /// often.
    pub fn retransmit(&mut self, now: u64, retry_ms: u64)
        ensures
            final(self)@ == model::retransmit(old(self)@, now, retry_ms),
    {
        let retry: Vec<(usize, u16, Vec<u8>)> = self.retries(now, retry_ms);
        let give_up: Vec<usize> = self.given_up(now, retry_ms);
        let ghost list = views(retry@);
        let ghost m2 = model::resend_all(self@, list, now);
        assert(list.skip(0) =~= list);
        let mut i: usize = 0;
        while i < retry.len()
            invariant
                i <= retry@.len(),
                list == views(retry@),
                m2 == model::resend_all(self@, list.skip(i as int), now),
            decreases retry@.len() - i,
        {
            assert(list.skip(i as int)[0] == retry@[i as int]@);
            assert(list.skip(i as int).skip(1) =~= list.skip(i + 1));
            let pkt: Vec<u8> = copy_bytes(retry[i].2.as_slice());
            self.resend(retry[i].0, retry[i].1, pkt, now);
            i += 1;
        }
        let ghost m3 = model::remove_present(m2, give_up@, now);
        assert(give_up@.skip(0) =~= give_up@);
        let mut k: usize = 0;
        while k < give_up.len()
            invariant
                k <= give_up@.len(),
                m3 == model::remove_present(self@, give_up@.skip(k as int), now),
            decreases give_up@.len() - k,
        {
            assert(give_up@.skip(k as int)[0] == give_up@[k as int]);
            assert(give_up@.skip(k as int).skip(1) =~= give_up@.skip(k + 1));
            if self.has_client(give_up[k]) {
                self.remove_client(give_up[k], now);
            }
            k += 1;
        }
    }
}

} // verus!
