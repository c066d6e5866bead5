# mqtt_broker

An MQTT 3.1.1 broker whose logic is verified with Verus: QoS 0, 1 and 2,
wildcard subscriptions, retained messages, last wills, persistent sessions and
`$SYS` statistics.

## Layout

- `src/` is the library. It does no I/O: bytes, outcomes of reads and writes,
  and the time are handed to it.
  - `bytes`, `frame`, `text`, `packet`, `topic`: the wire format and topic
    filters.
  - `model`: the broker as a mathematical object, its state and what each event
    does to it. The contracts of the executable code are stated over it.
  - `client`, `broker`, `writer`, `sweep`, `sys`: the broker for a single event
    loop.
  - `threaded`: the broker for two threads per connection.
  - `requests`: packets as clients write and read them.
  - `order`, `views`: helpers.
  - `laws`: what holds of the library as a whole, each stated and proved as a
    proof function named `law_...`.
- `tests/` runs the library, among other things through scenarios of several
  clients.
- `app/` is the program: sockets, the poll loop (mio), threads, and clients that
  measure a running broker.

## Limits

Per client: 65536 unparsed bytes, 8192 queued packets, 256 unacknowledged
messages. Per absent client: 1024 stored messages. Packets above one megabyte,
and packets whose remaining length takes more than four bytes, are refused.

A client is removed when it has been silent for one and a half times its
keepalive; every packet starts that time anew.

A full queue costs a subscriber its QoS 0 messages; a subscriber that cannot
take a QoS 1 or 2 message is disconnected, and leaves as on a lost connection:
its session is stored and its last will published. Unanswered messages are sent
again after ten seconds (`QOS1_RETRY_MS` changes that), and a client is given up
after three times.

## The trusted part

One outside function is called from the library: `String::from_utf8_lossy`, in
`text`. Its result is taken to depend on the bytes alone, and to be what the
bytes encode where they are valid UTF-8.
