//! Writing: queued packets are joined into batches, and a flush goes on until
//! everything is written, the connection takes no more, or it fails.
use crate::broker::Broker;
use crate::bytes::append_bytes;
use crate::client::Client;
use crate::model;
use crate::model::{ClientModel, FlushAction, WriteOutcome, BATCH_MAX};
use crate::views::views;
use std::collections::VecDeque;
use vstd::prelude::*;

verus! {

broadcast use crate::views::group_views;

impl Client {
    /// What is still to be written of the current batch.
    pub fn unwritten(&self) -> (r: &[u8])
        ensures
            r@ == model::unwritten(self@),
    {
        let n: usize = self.write_pending.len();
        let from: usize = if self.write_off <= n {
            self.write_off
        } else {
            n
        };
        let r: &[u8] = vstd::slice::slice_subrange(self.write_pending.as_slice(), from, n);
        assert(r@ =~= model::unwritten(self@));
        r
    }

    /// Takes packets from the queue into an empty batch.
    fn fill_batch(&mut self)
        ensures
            final(self)@ == ({
                let (batch, ends, rest) = model::fill_batch(
                    Seq::empty(),
                    Seq::empty(),
                    old(self)@.write_queue,
                );
                ClientModel {
                    write_pending: batch,
                    write_off: 0,
                    write_ends: ends,
                    write_queue: rest,
                    ..old(self)@
                }
            }),
    {
        self.write_pending = Vec::new();
        self.write_off = 0;
        self.write_ends = VecDeque::new();
        let ghost whole = model::fill_batch(Seq::empty(), Seq::empty(), old(self)@.write_queue);
        assert(self.write_pending@ =~= Seq::<u8>::empty());
        assert(self@.write_ends =~= Seq::<nat>::empty());
        while self.write_pending.len() < BATCH_MAX && self.write_queue.len() > 0
            invariant
                self.write_off == 0,
                self@ == (ClientModel {
                    write_pending: self@.write_pending,
                    write_off: 0,
                    write_ends: self@.write_ends,
                    write_queue: self@.write_queue,
                    ..old(self)@
                }),
                whole == model::fill_batch(
                    self@.write_pending,
                    self@.write_ends,
                    self@.write_queue,
                ),
            decreases self.write_queue@.len(),
        {
            let ghost q = self@.write_queue;
            let ghost ends = self@.write_ends;
            match self.write_queue.pop_front() {
                Some((_, p)) => {
                    append_bytes(&mut self.write_pending, p.as_slice());
                    self.write_ends.push_back(self.write_pending.len());
                    assert(self@.write_queue =~= q.skip(1));
                    assert(self@.write_ends =~= ends.push(self@.write_pending.len()));
                    assert(q[0].1 == p@);
                },
                None => {},
            }
        }
    }

    /// Forgets the packets of the batch that are wholly written, and says how
    /// many they are.
    fn take_ended(&mut self) -> (k: usize)
        ensures
            k == model::ended(old(self)@.write_ends, old(self)@.write_off),
            final(self)@ == (ClientModel {
                write_ends: old(self)@.write_ends.skip(k as int),
                ..old(self)@
            }),
    {
        let ghost all = self@.write_ends;
        let off: usize = self.write_off;
        let total: usize = self.write_ends.len();
        let mut k: usize = 0;
        assert(all.skip(0) =~= all);
        while self.write_ends.len() > 0 && self.write_ends[0] <= off
            invariant
                off == old(self)@.write_off,
                total == all.len(),
                k <= total,
                self@ == (ClientModel { write_ends: all.skip(k as int), ..old(self)@ }),
                model::ended(all, off) == k + model::ended(all.skip(k as int), off),
            decreases self.write_ends@.len(),
        {
            assert(self@.write_ends[0] == self.write_ends@[0]);
            self.write_ends.pop_front();
            assert(all.skip(k as int).skip(1) =~= all.skip(k + 1));
            assert(self@.write_ends =~= all.skip(k + 1));
            k += 1;
        }
        if self.write_ends.len() > 0 {
            assert(self@.write_ends[0] == self.write_ends@[0]);
        }
        k
    }

    /// Notes that `n` more bytes of the batch were written, and starts the
    /// next batch when this one is done. Returns the number of packets that
    /// were thereby written, and `false` if nothing is left to write.
    pub fn after_write(&mut self, n: usize) -> (r: (usize, bool))
        requires
            old(self)@.write_off + n <= usize::MAX,
        ensures
            (final(self)@, r.0 as nat, r.1) == model::after_write(old(self)@, n),
    {
        self.write_off = self.write_off + n;
        let k: usize = self.take_ended();
        if self.write_off < self.write_pending.len() {
            (k, true)
        } else if self.write_queue.len() == 0 {
            (k, false)
        } else {
            self.fill_batch();
            (k, true)
        }
    }
}

impl Broker {
    /// Whether client `token` is there and has packets queued.
    pub fn has_queued(&self, token: usize) -> (r: bool)
        ensures
            r == (self@.clients.contains_key(token) && self@.clients[token].write_queue.len() > 0),
    {
        match self.clients.get(&token) {
            Some(c) => c.write_queue.len() > 0,
            None => false,
        }
    }

    /// Whether client `token` is there and there is something to write for it:
    /// queued packets, or the rest of an interrupted batch.
    pub fn has_unsent(&self, token: usize) -> (r: bool)
        ensures
            r == (self@.clients.contains_key(token) && model::has_unsent(self@.clients[token])),
    {
        match self.clients.get(&token) {
            Some(c) => c.write_queue.len() > 0 || c.unwritten().len() > 0,
            None => false,
        }
    }

    /// What is still to be written of the current batch of client `token`.
    pub fn unwritten(&self, token: usize) -> (r: &[u8])
        requires
            self@.clients.contains_key(token),
        ensures
            r@ == model::unwritten(self@.clients[token]),
    {
        match self.clients.get(&token) {
            Some(c) => c.unwritten(),
            None => &[],
        }
    }

    fn advance(&mut self, token: usize, n: usize) -> (r: FlushAction)
        requires
            old(self)@.clients.contains_key(token),
            old(self)@.clients[token].write_off + n <= usize::MAX,
        ensures
            (final(self)@, r) == model::on_written(old(self)@, token, n),
    {
        match self.clients.remove(&token) {
            Some(c) => {
                let mut c: Client = c;
                let (k, more) = c.after_write(n);
                self.clients.insert(token, c);
                assert(old(self).clients@.remove(token).insert(token, c)
                    =~= old(self).clients@.insert(token, c));
                self.sys_msgs_sent = self.sys_msgs_sent.wrapping_add(k as u64);
                if more {
                    FlushAction::Write
                } else {
                    FlushAction::Wait { writable: false }
                }
            },
            None => FlushAction::Closed,
        }
    }

    /// One step of flushing the queue of client `token`: given what the last
    /// write did, counts the packets that are thereby written and says what to
    /// do next. A client whose connection failed is removed.
    pub fn flush_writes(&mut self, token: usize, last: WriteOutcome, now: u64) -> (r: FlushAction)
        requires
            old(self)@.clients.contains_key(token),
            last matches WriteOutcome::Wrote(n) ==> n <= model::unwritten(
                old(self)@.clients[token],
            ).len(),
        ensures
            (final(self)@, r) == model::on_write(old(self)@, token, last, now),
    {
        let n: usize = match last {
            WriteOutcome::Failed => {
                self.remove_client(token, now);
                return FlushAction::Closed;
            },
            WriteOutcome::Zero | WriteOutcome::WouldBlock => {
                return FlushAction::Wait { writable: true };
            },
            WriteOutcome::Start => 0,
            WriteOutcome::Wrote(n) => n,
        };
        assert(old(self)@.clients[token] == old(self).clients@[token]@);
        assert(old(self).clients@[token].write_pending.len() <= usize::MAX);
        self.advance(token, n)
    }
}

} // verus!
