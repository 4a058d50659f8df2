//! The single shared log. A `LogSink` serializes accepted appends into one
//! total order; its byte content is, invariantly, the lines of its accepted
//! appends laid end to end. The lemmas state that this content splits back
//! into exactly one complete, parseable `[timestamp] message` line per
//! append — no loss, no duplication, no line merged from two writers — and
//! that the serialization keeps every single connection's order.

use crate::conn::Connection;
use crate::conn::stream_messages;
use crate::conn::stream_pending;
use crate::conn::lemma_stream_messages_wf;
use crate::timestamp::Timestamp;
use crate::timestamp::now;
use crate::timestamp::render_rfc3339;
use crate::timestamp::rfc3339_spec;
use crate::timestamp::lemma_rfc3339_bytes;
use vstd::prelude::*;

verus! {

/// One accepted append, as the model of the durable log keeps it.
pub ghost struct LogEntry {
    pub ts: Timestamp,
    pub msg: Seq<u8>,
}

/// What the sink demands of an append before accepting it: a well-formed
/// timestamp and a non-empty message holding no delimiter.
pub open spec fn entry_wf(e: LogEntry) -> bool {
    &&& e.ts.wf()
    &&& e.msg.len() > 0
    &&& forall|i: int| 0 <= i < e.msg.len() ==> #[trigger] e.msg[i] != 10
}

/// One durable line: `[` + timestamp + `] ` + message + delimiter.
pub open spec fn log_line_spec(ts: Timestamp, msg: Seq<u8>) -> Seq<u8> {
    seq![91u8] + rfc3339_spec(ts) + seq![93u8, 32u8] + msg + seq![10u8]
}

/// The body of one line: everything before its delimiter.
pub open spec fn log_line_body(ts: Timestamp, msg: Seq<u8>) -> Seq<u8> {
    seq![91u8] + rfc3339_spec(ts) + seq![93u8, 32u8] + msg
}

/// The whole log file as the lines of `entries` laid end to end.
pub open spec fn file_of(entries: Seq<LogEntry>) -> Seq<u8>
    decreases entries.len(),
{
    if entries.len() == 0 {
        Seq::<u8>::empty()
    } else {
        log_line_spec(entries.first().ts, entries.first().msg) + file_of(entries.drop_first())
    }
}

/// Appending one entry appends exactly its line.
pub proof fn lemma_file_of_push(entries: Seq<LogEntry>, e: LogEntry)
    ensures
        file_of(entries.push(e)) == file_of(entries) + log_line_spec(e.ts, e.msg),
    decreases entries.len(),
{
    if entries.len() == 0 {
        assert(entries.push(e).first() == e);
        assert(entries.push(e).drop_first() =~= Seq::<LogEntry>::empty());
        assert(file_of(Seq::<LogEntry>::empty()) == Seq::<u8>::empty());
        assert(file_of(entries.push(e)) == log_line_spec(e.ts, e.msg) + Seq::<u8>::empty());
        assert(log_line_spec(e.ts, e.msg) + Seq::<u8>::empty() =~= Seq::<u8>::empty()
            + log_line_spec(e.ts, e.msg));
    } else {
        assert(entries.push(e).first() == entries.first());
        assert(entries.push(e).drop_first() =~= entries.drop_first().push(e));
        lemma_file_of_push(entries.drop_first(), e);
        assert(log_line_spec(entries.first().ts, entries.first().msg) + (file_of(
            entries.drop_first(),
        ) + log_line_spec(e.ts, e.msg)) =~= (log_line_spec(entries.first().ts, entries.first().msg)
            + file_of(entries.drop_first())) + log_line_spec(e.ts, e.msg));
    }
}

/// Builds the durable line for one accepted message.
pub fn format_log_line(ts: &Timestamp, msg: &Vec<u8>) -> (r: Vec<u8>)
    requires
        ts.wf(),
    ensures
        r@ == log_line_spec(*ts, msg@),
{
    let mut out: Vec<u8> = Vec::new();
    out.push(91);
    let mut t = render_rfc3339(ts);
    out.append(&mut t);
    out.push(93);
    out.push(32);
    proof {
        assert(out@ =~= seq![91u8] + rfc3339_spec(*ts) + seq![93u8, 32u8] + msg@.take(0));
    }
    let mut i: usize = 0;
    while i < msg.len()
        invariant
            i <= msg.len(),
            out@ == seq![91u8] + rfc3339_spec(*ts) + seq![93u8, 32u8] + msg@.take(i as int),
        decreases msg.len() - i,
    {
        out.push(msg[i]);
        proof {
            assert(out@ =~= seq![91u8] + rfc3339_spec(*ts) + seq![93u8, 32u8] + msg@.take(i + 1));
        }
        i = i + 1;
    }
    out.push(10);
    proof {
        assert(msg@.take(msg@.len() as int) =~= msg@);
        assert(out@ =~= log_line_spec(*ts, msg@));
    }
    out
}

/// The single shared append target. The exclusive access that callers in a
/// concurrent server take around it makes each `append` one atomic unit;
/// within that unit this type guarantees the bytes laid down are exactly
/// one complete line.
pub struct LogSink {
    pub file: Vec<u8>,
    pub entries: Ghost<Seq<LogEntry>>,
}

impl LogSink {
    /// The sink's invariant: its bytes are exactly the lines of the
    /// appends it accepted, and every accepted append was well-formed.
    pub open spec fn wf(&self) -> bool {
        &&& self.file@ == file_of(self.entries@)
        &&& forall|i: int| 0 <= i < self.entries@.len() ==> entry_wf(#[trigger] self.entries@[i])
    }

    /// A fresh, empty log.
    pub fn new() -> (r: LogSink)
        ensures
            r.wf(),
            r.entries@ == Seq::<LogEntry>::empty(),
            r.file@ == Seq::<u8>::empty(),
    {
        let r = LogSink { file: Vec::new(), entries: Ghost(Seq::empty()) };
        proof {
            assert(r.file@ =~= file_of(r.entries@));
        }
        r
    }

    /// Accepts one message stamped `ts`: the log gains exactly that one
    /// complete line at its end, and nothing else changes.
    pub fn append(&mut self, ts: Timestamp, msg: &Vec<u8>)
        requires
            old(self).wf(),
            ts.wf(),
            msg@.len() > 0,
            forall|i: int| 0 <= i < msg@.len() ==> #[trigger] msg@[i] != 10,
        ensures
            final(self).wf(),
            final(self).entries@ == old(self).entries@.push(LogEntry { ts, msg: msg@ }),
            final(self).file@ == old(self).file@ + log_line_spec(ts, msg@),
    {
        let mut line = format_log_line(&ts, msg);
        self.file.append(&mut line);
        let ghost e = LogEntry { ts, msg: msg@ };
        proof {
            self.entries@ = self.entries@.push(e);
            lemma_file_of_push(old(self).entries@, e);
            assert forall|i: int| 0 <= i < self.entries@.len() implies entry_wf(
                #[trigger] self.entries@[i],
            ) by {
                if i < old(self).entries@.len() {
                    assert(self.entries@[i] == old(self).entries@[i]);
                } else {
                    assert(self.entries@[i] == e);
                }
            }
        }
    }
}

/// The complete raw lines of a byte stream: each delimiter ends one line;
/// bytes after the last delimiter belong to no line.
pub open spec fn raw_lines(pending: Seq<u8>, s: Seq<u8>) -> Seq<Seq<u8>>
    decreases s.len(),
{
    if s.len() == 0 {
        seq![]
    } else if s.first() == 10 {
        seq![pending] + raw_lines(Seq::<u8>::empty(), s.drop_first())
    } else {
        raw_lines(pending.push(s.first()), s.drop_first())
    }
}

/// Reads one line body back: the twenty bytes between `[` and the first
/// `]`, and the message after `] `.
pub open spec fn parse_line(line: Seq<u8>) -> Option<(Seq<u8>, Seq<u8>)> {
    if line.len() >= 23 && line[0] == 91 && line[21] == 93 && line[22] == 32 {
        Some((line.subrange(1, 21), line.subrange(23, line.len() as int)))
    } else {
        None
    }
}

/// Delimiter-free bytes pass through the line splitter into the line
/// being gathered.
proof fn lemma_raw_lines_shift(pending: Seq<u8>, x: Seq<u8>, s: Seq<u8>)
    requires
        forall|i: int| 0 <= i < x.len() ==> #[trigger] x[i] != 10,
    ensures
        raw_lines(pending, x + s) == raw_lines(pending + x, s),
    decreases x.len(),
{
    if x.len() == 0 {
        assert(x + s =~= s);
        assert(pending + x =~= pending);
    } else {
        assert(x.first() == x[0]);
        assert((x + s).first() == x.first());
        assert((x + s).drop_first() =~= x.drop_first() + s);
        assert forall|i: int| 0 <= i < x.drop_first().len() implies #[trigger] x.drop_first()[i]
            != 10 by {
            assert(x.drop_first()[i] == x[i + 1]);
        }
        assert(pending.push(x.first()) + x.drop_first() =~= pending + x);
        lemma_raw_lines_shift(pending.push(x.first()), x.drop_first(), s);
    }
}

/// No byte of a line body is the delimiter.
proof fn lemma_body_no_delimiter(ts: Timestamp, msg: Seq<u8>)
    requires
        ts.wf(),
        forall|i: int| 0 <= i < msg.len() ==> #[trigger] msg[i] != 10,
    ensures
        forall|i: int|
            0 <= i < log_line_body(ts, msg).len() ==> #[trigger] log_line_body(ts, msg)[i] != 10,
{
    let body = log_line_body(ts, msg);
    lemma_rfc3339_bytes(ts);
    assert forall|i: int| 0 <= i < body.len() implies #[trigger] body[i] != 10 by {
        if i == 0 {
            assert(body[i] == 91);
        } else if i <= 20 {
            assert(body[i] == rfc3339_spec(ts)[i - 1]);
        } else if i == 21 {
            assert(body[i] == 93);
        } else if i == 22 {
            assert(body[i] == 32);
        } else {
            assert(body[i] == msg[i - 23]);
        }
    }
}

/// Concurrent appends never interleave: after any sequence of accepted
/// appends the log splits back into exactly one complete line per append,
/// in serialization order — never a line merged from two writers, and no
/// stray line.
pub proof fn lemma_no_interleaving(entries: Seq<LogEntry>)
    requires
        forall|i: int| 0 <= i < entries.len() ==> entry_wf(#[trigger] entries[i]),
    ensures
        raw_lines(Seq::<u8>::empty(), file_of(entries)).len() == entries.len(),
        forall|i: int|
            0 <= i < entries.len() ==> #[trigger] raw_lines(Seq::<u8>::empty(), file_of(entries))[i]
                == log_line_body(entries[i].ts, entries[i].msg),
    decreases entries.len(),
{
    let lines = raw_lines(Seq::<u8>::empty(), file_of(entries));
    if entries.len() == 0 {
    } else {
        let e = entries.first();
        let body = log_line_body(e.ts, e.msg);
        let rest = file_of(entries.drop_first());
        lemma_body_no_delimiter(e.ts, e.msg);
        assert(file_of(entries) == log_line_spec(e.ts, e.msg) + rest);
        assert(file_of(entries) =~= body + (seq![10u8] + rest));
        lemma_raw_lines_shift(Seq::<u8>::empty(), body, seq![10u8] + rest);
        assert(Seq::<u8>::empty() + body =~= body);
        assert((seq![10u8] + rest).first() == 10);
        assert((seq![10u8] + rest).drop_first() =~= rest);
        assert(lines == seq![body] + raw_lines(Seq::<u8>::empty(), rest));
        assert forall|i: int|
            0 <= i < entries.drop_first().len() implies entry_wf(
            #[trigger] entries.drop_first()[i],
        ) by {
            assert(entries.drop_first()[i] == entries[i + 1]);
        }
        lemma_no_interleaving(entries.drop_first());
        let rest_lines = raw_lines(Seq::<u8>::empty(), rest);
        assert forall|i: int| 0 <= i < entries.len() implies #[trigger] lines[i] == log_line_body(
            entries[i].ts,
            entries[i].msg,
        ) by {
            if i == 0 {
                assert(lines[i] == body);
            } else {
                assert(lines[i] == rest_lines[i - 1]);
                assert(entries.drop_first()[i - 1] == entries[i]);
            }
        }
    }
}

/// A line body parses back into exactly the rendered timestamp and the
/// message it was built from.
pub proof fn lemma_parse_line_roundtrip(ts: Timestamp, msg: Seq<u8>)
    requires
        ts.wf(),
        msg.len() > 0,
    ensures
        parse_line(log_line_body(ts, msg)) == Some((rfc3339_spec(ts), msg)),
{
    let body = log_line_body(ts, msg);
    lemma_rfc3339_bytes(ts);
    assert(body.len() == 23 + msg.len());
    assert(body[0] == 91);
    assert(body[21] == 93);
    assert(body[22] == 32);
    assert(body.subrange(1, 21) =~= rfc3339_spec(ts));
    assert(body.subrange(23, body.len() as int) =~= msg);
}

/// The log holds exactly the union of all accepted appends: one complete,
/// parseable line per append, carrying its timestamp and its message —
/// no loss, no duplication, no extra line.
pub proof fn lemma_log_holds_exactly_the_appends(entries: Seq<LogEntry>)
    requires
        forall|i: int| 0 <= i < entries.len() ==> entry_wf(#[trigger] entries[i]),
    ensures
        raw_lines(Seq::<u8>::empty(), file_of(entries)).len() == entries.len(),
        forall|i: int|
            0 <= i < entries.len() ==> #[trigger] parse_line(
                raw_lines(Seq::<u8>::empty(), file_of(entries))[i],
            ) == Some((rfc3339_spec(entries[i].ts), entries[i].msg)),
{
    lemma_no_interleaving(entries);
    let lines = raw_lines(Seq::<u8>::empty(), file_of(entries));
    assert forall|i: int| 0 <= i < entries.len() implies #[trigger] parse_line(lines[i]) == Some(
        (rfc3339_spec(entries[i].ts), entries[i].msg),
    ) by {
        lemma_parse_line_roundtrip(entries[i].ts, entries[i].msg);
    }
}

/// The serialized log restricted to one connection: the messages the sink
/// accepted from it, in serialization order.
pub open spec fn restricted_to(log: Seq<(nat, Seq<u8>)>, c: nat) -> Seq<Seq<u8>>
    decreases log.len(),
{
    if log.len() == 0 {
        seq![]
    } else if log.last().0 == c {
        restricted_to(log.drop_last(), c).push(log.last().1)
    } else {
        restricted_to(log.drop_last(), c)
    }
}

/// Serialization keeps every connection's order: one more accepted append,
/// from whichever connection, extends exactly that connection's restriction
/// of the log, at its end, and no other connection's.
pub proof fn lemma_restriction_preserves_order(log: Seq<(nat, Seq<u8>)>, d: nat, m: Seq<u8>, c: nat)
    ensures
        restricted_to(log.push((d, m)), c) == if c == d {
            restricted_to(log, c).push(m)
        } else {
            restricted_to(log, c)
        },
{
    assert(log.push((d, m)).drop_last() =~= log);
    assert(log.push((d, m)).last() == (d, m));
}

/// One turn of a connection handler: feeds newly arrived bytes, stamps
/// each message the bytes complete with the current time, and appends it.
/// The sink gains exactly the completed messages, in the order the
/// connection sent them; what every other caller appended stays untouched.
pub fn dispatch_chunk(conn: &mut Connection, sink: &mut LogSink, chunk: &Vec<u8>)
    requires
        old(conn).wf(),
        old(sink).wf(),
    ensures
        final(conn).wf(),
        final(sink).wf(),
        final(conn).buf@ == stream_pending(old(conn).buf@, chunk@),
        final(sink).entries@.len() == old(sink).entries@.len() + stream_messages(
            old(conn).buf@,
            chunk@,
        ).len(),
        forall|k: int|
            0 <= k < old(sink).entries@.len() ==> #[trigger] final(sink).entries@[k]
                == old(sink).entries@[k],
        forall|k: int|
            0 <= k < stream_messages(old(conn).buf@, chunk@).len()
                ==> (#[trigger] final(sink).entries@[old(sink).entries@.len() + k]).msg
                == stream_messages(old(conn).buf@, chunk@)[k],
{
    let ghost target = stream_messages(old(conn).buf@, chunk@);
    let ghost base = old(sink).entries@;
    proof {
        lemma_stream_messages_wf(old(conn).buf@, chunk@);
    }
    let msgs = conn.feed(chunk);
    let mut i: usize = 0;
    while i < msgs.len()
        invariant
            i <= msgs.len(),
            msgs.deep_view() == target,
            forall|k: int| 0 <= k < target.len() ==> (#[trigger] target[k]).len() > 0,
            forall|k: int, j: int|
                0 <= k < target.len() && 0 <= j < target[k].len() ==> #[trigger] target[k][j] != 10,
            sink.wf(),
            sink.entries@.len() == base.len() + i,
            forall|k: int| 0 <= k < base.len() ==> #[trigger] sink.entries@[k] == base[k],
            forall|k: int|
                0 <= k < i ==> (#[trigger] sink.entries@[base.len() + k]).msg == target[k],
        decreases msgs.len() - i,
    {
        let ts = now();
        proof {
            assert(msgs@[i as int].deep_view() =~= msgs@[i as int]@);
            assert(msgs.deep_view()[i as int] == msgs@[i as int].deep_view());
        }
        let ghost before = sink.entries@;
        sink.append(ts, &msgs[i]);
        proof {
            assert forall|k: int| 0 <= k < base.len() implies #[trigger] sink.entries@[k]
                == base[k] by {
                assert(sink.entries@[k] == before[k]);
            }
            assert forall|k: int| 0 <= k < i + 1 implies (#[trigger] sink.entries@[base.len() + k]).msg
                == target[k] by {
                if k < i {
                    assert(sink.entries@[base.len() + k] == before[base.len() + k]);
                }
            }
        }
        i = i + 1;
    }
}

} // verus!
