//! The broker's own statistics, published under `$SYS/broker/`, and the
//! numbers written and read as decimal text.
use crate::broker::Broker;
use crate::model;
use crate::model::{SECOND, SYS_INTERVAL};
use crate::sweep::elapsed;
use crate::views::views;
use vstd::prelude::*;
use vstd::utf8::encode_utf8;

verus! {

broadcast use crate::views::group_views;

/// After how many milliseconds an unanswered message is sent again, unless
/// told otherwise.
pub const DEFAULT_RETRY_MS: u64 = 10000;

/// The number that a text of decimal digits stands for; zero for the empty
/// text, and `None` if anything but a digit occurs.
pub open spec fn digits_value(b: Seq<u8>) -> Option<nat>
    decreases b.len(),
{
    if b.len() == 0 {
        Some(0)
    } else {
        match digits_value(b.drop_last()) {
            Some(n) if 48 <= b.last() <= 57 => Some((n * 10 + (b.last() - 48)) as nat),
            _ => None,
        }
    }
}

/// The 64-bit number that a text stands for: digits, at least one of them,
/// behind at most one plus sign.
pub open spec fn number_in(b: Seq<u8>) -> Option<u64> {
    let digits = if b.len() > 0 && b[0] == 43 {
        b.skip(1)
    } else {
        b
    };
    match digits_value(digits) {
        Some(n) if digits.len() > 0 && n <= u64::MAX => Some(n as u64),
        _ => None,
    }
}

proof fn lemma_digits_prefix(b: Seq<u8>, k: int)
    requires
        0 <= k <= b.len(),
    ensures
        digits_value(b) matches Some(n) ==> digits_value(b.take(k)) matches Some(p) && p <= n,
    decreases b.len() - k,
{
    if k < b.len() {
        lemma_digits_prefix(b, k + 1);
        assert(b.take(k + 1).drop_last() =~= b.take(k));
    } else {
        assert(b.take(k) =~= b);
    }
}

/// Reads a 64-bit number.
pub fn parse_number(b: &[u8]) -> (r: Option<u64>)
    ensures
        r == number_in(b@),
{
    let start: usize = if b.len() > 0 && b[0] == 43 {
        1
    } else {
        0
    };
    let ghost digits = b@.skip(start as int);
    assert(start == 0 ==> digits =~= b@);
    if start >= b.len() {
        return None;
    }
    let mut n: u64 = 0;
    let mut i: usize = start;
    while i < b.len()
        invariant
            start <= i <= b@.len(),
            start < b@.len(),
            digits == b@.skip(start as int),
            digits_value(digits.take(i - start)) == Some(n as nat),
            digits == (if b@[0] == 43 {
                b@.skip(1)
            } else {
                b@
            }),
        decreases b@.len() - i,
    {
        let d: u8 = b[i];
        proof {
            assert(digits.take(i - start + 1).drop_last() =~= digits.take(i - start));
            assert(digits.take(i - start + 1).last() == d);
            lemma_digits_prefix(digits, i - start + 1);
        }
        if d < 48 || d > 57 {
            return None;
        }
        let wide: u128 = n as u128 * 10 + (d - 48) as u128;
        if wide > u64::MAX as u128 {
            return None;
        }
        n = wide as u64;
        i += 1;
    }
    assert(digits.take(i - start) =~= digits);
    Some(n)
}

/// After how many milliseconds an unanswered message is sent again, given the
/// value of the setting, if it is set.
pub fn qos1_retry_after(setting: Option<&str>) -> (ms: u64)
    ensures
        ms == match setting {
            Some(text) => match number_in(encode_utf8(text@)) {
                Some(n) => n,
                None => DEFAULT_RETRY_MS,
            },
            None => DEFAULT_RETRY_MS,
        },
{
    match setting {
        Some(text) => match parse_number(text.as_bytes()) {
            Some(n) => n,
            None => DEFAULT_RETRY_MS,
        },
        None => DEFAULT_RETRY_MS,
    }
}

/// The decimal digits of `n`, as ASCII.
pub fn decimal(n: u64) -> (r: Vec<u8>)
    ensures
        r@ == model::decimal(n as nat),
    decreases n,
{
    let last: u8 = 48 + (n % 10) as u8;
    if n < 10 {
        let mut out: Vec<u8> = Vec::new();
        out.push(last);
        assert(out@ =~= model::decimal(n as nat));
        out
    } else {
        let mut out: Vec<u8> = decimal(n / 10);
        out.push(last);
        out
    }
}

/// What is written in decimal is read back as the same number.
pub proof fn law_decimal_round_trip(n: u64)
    ensures
        number_in(model::decimal(n as nat)) == Some(n),
{
    lemma_decimal_digits(n as nat);
}

proof fn lemma_decimal_digits(n: nat)
    ensures
        digits_value(model::decimal(n)) == Some(n),
        model::decimal(n).len() > 0,
        48 <= model::decimal(n)[0] <= 57,
    decreases n,
{
    let d = model::decimal(n);
    if n < 10 {
        assert(d.drop_last() =~= Seq::<u8>::empty());
        assert(digits_value(d.drop_last()) == Some(0nat));
        assert(d.last() == 48 + n);
    } else {
        lemma_decimal_digits(n / 10);
        assert(d.drop_last() =~= model::decimal(n / 10));
        assert(d[0] == model::decimal(n / 10)[0]);
        assert(d.last() == 48 + n % 10);
        assert((n / 10) * 10 + n % 10 == n);
    }
}

impl Broker {
    fn sys_messages(&self, version: &str, now: u64) -> (r: Vec<(String, Vec<u8>)>)
        ensures
            views(r@) == model::sys_messages(self@, version@, now),
    {
        let mut name: String = "mqtt-broker-rs ".to_owned();
        name.append(version);
        let mut first: Vec<u8> = Vec::new();
        crate::bytes::append_bytes(&mut first, name.as_str().as_bytes());
        assert(first@ =~= encode_utf8("mqtt-broker-rs "@ + version@));
        assert(self@.clients.dom() =~= self.clients@.dom());
        let mut out: Vec<(String, Vec<u8>)> = Vec::new();
        out.push(("$SYS/broker/version".to_owned(), first));
        out.push(
            ("$SYS/broker/uptime".to_owned(), decimal(elapsed(now, self.sys_start) / SECOND)),
        );
        out.push(("$SYS/broker/clients/connected".to_owned(), decimal(self.clients.len() as u64)));
        out.push(("$SYS/broker/clients/total".to_owned(), decimal(self.sys_clients_total)));
        out.push(("$SYS/broker/messages/received".to_owned(), decimal(self.sys_msgs_received)));
        out.push(("$SYS/broker/messages/sent".to_owned(), decimal(self.sys_msgs_sent)));
        out.push(
            ("$SYS/broker/messages/publish/received".to_owned(), decimal(self.sys_pub_received)),
        );
        out.push(("$SYS/broker/messages/publish/sent".to_owned(), decimal(self.sys_pub_sent)));
        out.push(("$SYS/broker/subscriptions/count".to_owned(), decimal(self.subs.len() as u64)));
        assert(views(out@) =~= model::sys_messages(self@, version@, now));
        out
    }

    /// Publishes the statistics as retained messages.
    pub fn publish_sys_topics(&mut self, version: &str, now: u64)
        ensures
            final(self)@ == model::publish_sys(old(self)@, version@, now),
    {
        let msgs: Vec<(String, Vec<u8>)> = self.sys_messages(version, now);
        let ghost list = views(msgs@);
        let ghost whole = model::publish_all(self@, list, now);
        assert(list.skip(0) =~= list);
        let mut i: usize = 0;
        while i < msgs.len()
            invariant
                i <= msgs@.len(),
                list == views(msgs@),
                whole == model::publish_all(self@, list.skip(i as int), now),
            decreases msgs@.len() - i,
        {
            assert(list.skip(i as int)[0] == msgs@[i as int]@);
            assert(list.skip(i as int).skip(1) =~= list.skip(i + 1));
            self.publish(msgs[i].0.as_str(), msgs[i].1.as_slice(), 0, true, now);
            i += 1;
        }
    }

    /// Publishes the statistics if that was last done ten seconds ago.
    pub fn sys_tick(&mut self, version: &str, now: u64)
        ensures
            final(self)@ == model::sys_tick(old(self)@, version@, now),
    {
        if elapsed(now, self.sys_last_publish) >= SYS_INTERVAL {
            self.publish_sys_topics(version, now);
            self.sys_last_publish = now;
        }
    }

    /// What is done at the end of each round: statistics, keepalive, unanswered
    /// messages, and clients that were removed for being too slow, in this
    /// order.
    pub fn tick(&mut self, version: &str, now: u64, retry_ms: u64)
        ensures
            final(self)@ == model::tick(old(self)@, version@, now, retry_ms),
    {
        self.sys_tick(version, now);
        self.sweep_keepalive(now);
        self.retransmit(now, retry_ms);
        self.settle(now);
    }
}

} // verus!
