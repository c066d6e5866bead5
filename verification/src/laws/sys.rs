//! Laws of the statistics: after they are published, each is retained.
use crate::laws::bounds::{bounded, law_publish_bounded};
use crate::laws::store::{law_publish_retains, law_retain, retained_for};
use crate::model;
use crate::model::BrokerModel;
use crate::sys::{digits_value, number_in};
use vstd::prelude::*;
use vstd::utf8::{decode_utf8, encode_utf8};

verus! {

proof fn lemma_publish_all_other(
    m: BrokerModel,
    msgs: Seq<(Seq<char>, Seq<u8>)>,
    now: u64,
    topic: Seq<char>,
)
    requires
        bounded(m),
        forall|i: int| 0 <= i < msgs.len() ==> (#[trigger] msgs[i]).0 != topic,
    ensures
        retained_for(model::publish_all(m, msgs, now).retained, topic) == retained_for(
            m.retained,
            topic,
        ),
    decreases msgs.len(),
{
    if msgs.len() > 0 {
        let m2 = model::publish(m, msgs[0].0, msgs[0].1, 0, true, now).0;
        law_publish_bounded(m, msgs[0].0, msgs[0].1, 0, true, now);
        law_publish_retains(m, msgs[0].0, msgs[0].1, 0, true, now);
        law_retain(m.retained, msgs[0].0, msgs[0].1, 0, topic);
        let rest = msgs.skip(1);
        assert forall|i: int| 0 <= i < rest.len() implies (#[trigger] rest[i]).0 != topic by {
            assert(rest[i] == msgs[i + 1]);
        }
        lemma_publish_all_other(m2, rest, now, topic);
    }
}

proof fn lemma_publish_all_retained(
    m: BrokerModel,
    msgs: Seq<(Seq<char>, Seq<u8>)>,
    now: u64,
    k: int,
)
    requires
        bounded(m),
        0 <= k < msgs.len(),
        msgs[k].1.len() > 0,
        forall|i: int, j: int|
            0 <= i < j < msgs.len() ==> (#[trigger] msgs[i]).0 != (#[trigger] msgs[j]).0,
    ensures
        retained_for(model::publish_all(m, msgs, now).retained, msgs[k].0) == Some(
            (msgs[k].1, 0u8),
        ),
    decreases msgs.len(),
{
    let m2 = model::publish(m, msgs[0].0, msgs[0].1, 0, true, now).0;
    law_publish_bounded(m, msgs[0].0, msgs[0].1, 0, true, now);
    law_publish_retains(m, msgs[0].0, msgs[0].1, 0, true, now);
    law_retain(m.retained, msgs[0].0, msgs[0].1, 0, msgs[0].0);
    let rest = msgs.skip(1);
    assert forall|i: int, j: int| 0 <= i < j < rest.len() implies (#[trigger] rest[i]).0 != (
    #[trigger] rest[j]).0 by {
        assert(rest[i] == msgs[i + 1]);
        assert(rest[j] == msgs[j + 1]);
    }
    if k == 0 {
        assert forall|i: int| 0 <= i < rest.len() implies (#[trigger] rest[i]).0 != msgs[0].0 by {
            assert(rest[i] == msgs[i + 1]);
        }
        lemma_publish_all_other(m2, rest, now, msgs[0].0);
    } else {
        assert(rest[k - 1] == msgs[k]);
        lemma_publish_all_retained(m2, rest, now, k - 1);
    }
}

proof fn lemma_decimal_nonempty(n: nat)
    ensures
        model::decimal(n).len() > 0,
    decreases n,
{
    if n >= 10 {
        lemma_decimal_nonempty(n / 10);
    }
}

proof fn lemma_topics_distinct(msgs: Seq<(Seq<char>, Seq<u8>)>, i: int, j: int)
    requires
        msgs.len() == 9,
        0 <= i < j < 9,
        msgs[0].0 == "$SYS/broker/version"@,
        msgs[1].0 == "$SYS/broker/uptime"@,
        msgs[2].0 == "$SYS/broker/clients/connected"@,
        msgs[3].0 == "$SYS/broker/clients/total"@,
        msgs[4].0 == "$SYS/broker/messages/received"@,
        msgs[5].0 == "$SYS/broker/messages/sent"@,
        msgs[6].0 == "$SYS/broker/messages/publish/received"@,
        msgs[7].0 == "$SYS/broker/messages/publish/sent"@,
        msgs[8].0 == "$SYS/broker/subscriptions/count"@,
    ensures
        msgs[i].0 != msgs[j].0,
{
    reveal_strlit("$SYS/broker/version");
    reveal_strlit("$SYS/broker/uptime");
    reveal_strlit("$SYS/broker/clients/connected");
    reveal_strlit("$SYS/broker/clients/total");
    reveal_strlit("$SYS/broker/messages/received");
    reveal_strlit("$SYS/broker/messages/sent");
    reveal_strlit("$SYS/broker/messages/publish/received");
    reveal_strlit("$SYS/broker/messages/publish/sent");
    reveal_strlit("$SYS/broker/subscriptions/count");
    assert("$SYS/broker/clients/connected"@[12] == 'c');
    assert("$SYS/broker/messages/received"@[12] == 'm');
    assert("$SYS/broker/clients/total"@[12] == 'c');
    assert("$SYS/broker/messages/sent"@[12] == 'm');
    let len = |k: int| msgs[k].0.len();
    assert(len(0) == 19 && len(1) == 18 && len(2) == 29 && len(3) == 25 && len(4) == 29 && len(5)
        == 25 && len(6) == 37 && len(7) == 33 && len(8) == 31);
    assert(msgs[2].0[12] != msgs[4].0[12]);
    assert(msgs[3].0[12] != msgs[5].0[12]);
    if msgs[i].0 == msgs[j].0 {
        assert(len(i) == len(j));
        assert((i == 2 && j == 4) || (i == 3 && j == 5));
    }
}

/// Once the statistics are published, each of them is retained under its
/// topic.
pub proof fn law_statistics_retained(m: BrokerModel, version: Seq<char>, now: u64, k: int)
    requires
        bounded(m),
        0 <= k < 9,
    ensures
        ({
            let msgs = model::sys_messages(m, version, now);
            &&& msgs.len() == 9
            &&& retained_for(model::publish_sys(m, version, now).retained, msgs[k].0) == Some(
                (msgs[k].1, 0u8),
            )
        }),
{
    let msgs = model::sys_messages(m, version, now);
    let name = "mqtt-broker-rs "@ + version;
    reveal_strlit("mqtt-broker-rs ");
    assert(encode_utf8(name).len() > 0) by {
        broadcast use vstd::utf8::encode_utf8_decode_utf8;

        if encode_utf8(name).len() == 0 {
            assert(encode_utf8(name) =~= Seq::empty());
            assert(decode_utf8(encode_utf8(name)) == name);
            assert(name.len() > 0);
        }
    }
    assert(msgs[k].1.len() > 0) by {
        lemma_decimal_nonempty((model::elapsed(now, m.sys_start) / model::SECOND) as nat);
        lemma_decimal_nonempty(m.clients.dom().len());
        lemma_decimal_nonempty(m.sys_clients_total as nat);
        lemma_decimal_nonempty(m.sys_msgs_received as nat);
        lemma_decimal_nonempty(m.sys_msgs_sent as nat);
        lemma_decimal_nonempty(m.sys_pub_received as nat);
        lemma_decimal_nonempty(m.sys_pub_sent as nat);
        lemma_decimal_nonempty(m.subs.len());
    }
    assert forall|i: int, j: int| 0 <= i < j < msgs.len() implies (#[trigger] msgs[i]).0 != (
    #[trigger] msgs[j]).0 by {
        lemma_topics_distinct(msgs, i, j);
    }
    lemma_publish_all_retained(m, msgs, now, k);
}

/// The statistics are published again only after ten seconds.
pub proof fn law_statistics_interval(m: BrokerModel, version: Seq<char>, now: u64)
    requires
        m.sys_last_publish <= now < m.sys_last_publish + 10 * model::SECOND,
    ensures
        model::sys_tick(m, version, now) == m,
{
}

/// The statistics are published anew once ten seconds have passed, and the time
/// is noted.
pub proof fn law_statistics_due(m: BrokerModel, version: Seq<char>, now: u64)
    requires
        now >= m.sys_last_publish + 10000000000,
    ensures
        model::sys_tick(m, version, now) == (BrokerModel {
            sys_last_publish: now,
            ..model::publish_sys(m, version, now)
        }),
{
}

/// Before that nothing happens.
pub proof fn law_statistics_not_due(m: BrokerModel, version: Seq<char>, now: u64)
    requires
        now < m.sys_last_publish + 10000000000,
    ensures
        model::sys_tick(m, version, now) == m,
{
}

// ---- numbers as text ----

/// A number is written digit by digit, without leading zeros.
pub proof fn law_decimal_digits(n: nat, d: nat)
    requires
        d < 10,
    ensures
        model::decimal(d) == seq![(48 + d) as u8],
        n > 0 ==> model::decimal(10 * n + d) == model::decimal(n) + seq![(48 + d) as u8],
{
    if n > 0 {
        assert((10 * n + d) / 10 == n);
        assert((10 * n + d) % 10 == d);
        assert(model::decimal(10 * n + d) =~= model::decimal(n) + seq![(48 + d) as u8]);
    }
}

/// Digits stand for a number by their places; anything else stands for none.
pub proof fn law_digit_places(b: Seq<u8>, c: u8)
    ensures
        digits_value(Seq::empty()) == Some(0nat),
        48 <= c <= 57 ==> (match digits_value(b) {
            Some(n) => digits_value(b + seq![c]) == Some((10 * n + c - 48) as nat),
            None => digits_value(b + seq![c]) is None,
        }),
        !(48 <= c <= 57) ==> digits_value(b + seq![c]) is None,
{
    assert((b + seq![c]).drop_last() =~= b);
}

/// What is written of a number reads as that number.
pub proof fn law_decimal_read(n: nat)
    ensures
        digits_value(model::decimal(n)) == Some(n),
        n <= u64::MAX ==> number_in(model::decimal(n)) == Some(n as u64),
        n <= u64::MAX ==> number_in(seq![43u8] + model::decimal(n)) == Some(n as u64),
        n > u64::MAX ==> number_in(model::decimal(n)) is None,
    decreases n,
{
    lemma_decimal_nonempty(n);
    lemma_decimal_first(n);
    if n >= 10 {
        law_decimal_read(n / 10);
        law_decimal_digits(n / 10, n % 10);
        assert(10 * (n / 10) + n % 10 == n);
        law_digit_places(model::decimal(n / 10), (48 + n % 10) as u8);
    } else {
        law_digit_places(Seq::empty(), (48 + n) as u8);
        assert(Seq::<u8>::empty() + seq![(48 + n) as u8] =~= model::decimal(n));
    }
    assert((seq![43u8] + model::decimal(n)).skip(1) =~= model::decimal(n));
}

proof fn lemma_decimal_first(n: nat)
    ensures
        model::decimal(n).len() > 0,
        48 <= model::decimal(n)[0] <= 57,
    decreases n,
{
    if n >= 10 {
        lemma_decimal_first(n / 10);
    }
}

proof fn lemma_no_digit(b: Seq<u8>, i: int)
    requires
        0 <= i < b.len(),
        !(48 <= b[i] <= 57),
    ensures
        digits_value(b) is None,
    decreases b.len(),
{
    if i < b.len() - 1 {
        lemma_no_digit(b.drop_last(), i);
    }
}

/// A text with anything but digits in it, behind at most one plus sign, is no
/// number, and neither is one without a digit.
pub proof fn law_not_a_number(b: Seq<u8>, i: int)
    requires
        0 <= i < b.len(),
        !(48 <= b[i] <= 57),
        i == 0 ==> b[0] != 43 || b.len() == 1,
    ensures
        number_in(b) is None,
        number_in(Seq::empty()) is None,
{
    if b[0] == 43 && i > 0 {
        assert(b.skip(1)[i - 1] == b[i]);
        lemma_no_digit(b.skip(1), i - 1);
    } else {
        lemma_no_digit(b, i);
    }
}

// ---- what the statistics say ----

/// The first of the statistics names the broker and its version; the others are
/// numbers: seconds since the start, clients there are and were, packets and
/// messages received and sent, subscriptions.
pub proof fn law_statistics(m: BrokerModel, version: Seq<char>, now: u64)
    ensures
        ({
            let s = model::sys_messages(m, version, now);
            &&& s.len() == 9
            &&& s[0] == ("$SYS/broker/version"@, encode_utf8("mqtt-broker-rs "@ + version))
            &&& s[1].0 == "$SYS/broker/uptime"@
            &&& digits_value(s[1].1) == Some(
                if m.sys_start <= now {
                    ((now - m.sys_start) / 1000000000) as nat
                } else {
                    0
                },
            )
            &&& s[2].0 == "$SYS/broker/clients/connected"@
            &&& digits_value(s[2].1) == Some(m.clients.dom().len())
            &&& s[3].0 == "$SYS/broker/clients/total"@
            &&& digits_value(s[3].1) == Some(m.sys_clients_total as nat)
            &&& s[4].0 == "$SYS/broker/messages/received"@
            &&& digits_value(s[4].1) == Some(m.sys_msgs_received as nat)
            &&& s[5].0 == "$SYS/broker/messages/sent"@
            &&& digits_value(s[5].1) == Some(m.sys_msgs_sent as nat)
            &&& s[6].0 == "$SYS/broker/messages/publish/received"@
            &&& digits_value(s[6].1) == Some(m.sys_pub_received as nat)
            &&& s[7].0 == "$SYS/broker/messages/publish/sent"@
            &&& digits_value(s[7].1) == Some(m.sys_pub_sent as nat)
            &&& s[8].0 == "$SYS/broker/subscriptions/count"@
            &&& digits_value(s[8].1) == Some(m.subs.len())
        }),
{
    law_decimal_read((model::elapsed(now, m.sys_start) / model::SECOND) as nat);
    law_decimal_read(m.clients.dom().len());
    law_decimal_read(m.sys_clients_total as nat);
    law_decimal_read(m.sys_msgs_received as nat);
    law_decimal_read(m.sys_msgs_sent as nat);
    law_decimal_read(m.sys_pub_received as nat);
    law_decimal_read(m.sys_pub_sent as nat);
    law_decimal_read(m.subs.len());
}

/// Messages of the broker's own are published one after the other, at QoS 0 and
/// retained.
pub proof fn law_statistics_in_order(
    m: BrokerModel,
    topic: Seq<char>,
    payload: Seq<u8>,
    rest: Seq<(Seq<char>, Seq<u8>)>,
    now: u64,
)
    ensures
        model::publish_all(m, Seq::empty(), now) == m,
        model::publish_all(m, seq![(topic, payload)] + rest, now) == model::publish_all(
            model::publish(m, topic, payload, 0, true, now).0,
            rest,
            now,
        ),
{
    assert((seq![(topic, payload)] + rest).skip(1) =~= rest);
}

} // verus!
