//! One connection's read side: a buffer that accumulates bytes until a
//! delimiter arrives, and the messages each arriving chunk completes. The
//! spec functions `stream_messages` and `stream_pending` say, for any
//! buffered prefix and any arriving bytes, which messages are dispatched
//! and which undelimited tail stays behind; the lemmas state that the
//! answer does not depend on how the bytes were cut into chunks, and that
//! a tail never followed by a delimiter is dropped rather than logged.

use crate::messages::clean_message;
use crate::messages::message_of;
use vstd::prelude::*;

verus! {

/// The messages completed when the bytes `s` arrive after `pending` bytes
/// that held no delimiter: each delimiter ends one raw line, the line is
/// trimmed, and lines with nothing left are dropped.
pub open spec fn stream_messages(pending: Seq<u8>, s: Seq<u8>) -> Seq<Seq<u8>>
    decreases s.len(),
{
    if s.len() == 0 {
        seq![]
    } else if s.first() == 10 {
        match message_of(pending) {
            Some(m) => seq![m] + stream_messages(seq![], s.drop_first()),
            None => stream_messages(seq![], s.drop_first()),
        }
    } else {
        stream_messages(pending.push(s.first()), s.drop_first())
    }
}

/// The bytes still waiting for a delimiter once `s` has arrived after
/// `pending`.
pub open spec fn stream_pending(pending: Seq<u8>, s: Seq<u8>) -> Seq<u8>
    decreases s.len(),
{
    if s.len() == 0 {
        pending
    } else if s.first() == 10 {
        stream_pending(seq![], s.drop_first())
    } else {
        stream_pending(pending.push(s.first()), s.drop_first())
    }
}

/// The read side of one accepted connection: the bytes received since the
/// last delimiter.
pub struct Connection {
    pub buf: Vec<u8>,
}

impl Connection {
    /// The buffer never holds a delimiter: one would have completed a line.
    pub open spec fn wf(&self) -> bool {
        forall|i: int| 0 <= i < self.buf@.len() ==> #[trigger] self.buf@[i] != 10
    }

    /// A fresh connection has read nothing.
    pub fn new() -> (r: Connection)
        ensures
            r.wf(),
            r.buf@ == Seq::<u8>::empty(),
    {
        Connection { buf: Vec::new() }
    }

    /// Takes one arriving chunk and hands back, in arrival order, every
    /// message the chunk completes; the undelimited tail stays buffered.
    pub fn feed(&mut self, chunk: &Vec<u8>) -> (msgs: Vec<Vec<u8>>)
        ensures
            msgs.deep_view() == stream_messages(old(self).buf@, chunk@),
            final(self).buf@ == stream_pending(old(self).buf@, chunk@),
            old(self).wf() ==> final(self).wf(),
    {
        let mut msgs: Vec<Vec<u8>> = Vec::new();
        let mut i: usize = 0;
        proof {
            assert(chunk@.skip(0) =~= chunk@);
            assert(msgs.deep_view() =~= Seq::<Seq<u8>>::empty());
        }
        while i < chunk.len()
            invariant
                i <= chunk.len(),
                stream_messages(old(self).buf@, chunk@) == msgs.deep_view() + stream_messages(
                    self.buf@,
                    chunk@.skip(i as int),
                ),
                stream_pending(old(self).buf@, chunk@) == stream_pending(
                    self.buf@,
                    chunk@.skip(i as int),
                ),
                old(self).wf() ==> self.wf(),
            decreases chunk.len() - i,
        {
            let ghost rest = chunk@.skip(i as int);
            proof {
                assert(rest.first() == chunk@[i as int]);
                assert(rest.drop_first() =~= chunk@.skip(i + 1));
            }
            let b = chunk[i];
            if b == 10 {
                let ghost msgs_before = msgs.deep_view();
                match clean_message(&self.buf) {
                    Some(m) => {
                        msgs.push(m);
                        proof {
                            assert(msgs.deep_view() =~~= msgs_before.push(m@));
                            assert(msgs_before + (seq![m@] + stream_messages(
                                Seq::<u8>::empty(),
                                rest.drop_first(),
                            )) =~= msgs_before.push(m@) + stream_messages(
                                Seq::<u8>::empty(),
                                rest.drop_first(),
                            ));
                        }
                    },
                    None => {
                    },
                }
                self.buf.clear();
                proof {
                    assert(self.buf@ =~= Seq::<u8>::empty());
                }
            } else {
                self.buf.push(b);
            }
            i = i + 1;
        }
        proof {
            assert(chunk@.skip(chunk@.len() as int) =~= Seq::<u8>::empty());
            assert(msgs.deep_view() + Seq::<Seq<u8>>::empty() =~= msgs.deep_view());
        }
        msgs
    }

    /// Ends the connection, handing back the undelimited tail so a caller
    /// sees what was dropped; the tail is never logged.
    pub fn close(self) -> (tail: Vec<u8>)
        ensures
            tail@ == self.buf@,
    {
        self.buf
    }
}

/// Every dispatched message is non-empty and holds no delimiter, as long
/// as the buffered prefix holds none.
pub proof fn lemma_stream_messages_wf(pending: Seq<u8>, s: Seq<u8>)
    requires
        forall|i: int| 0 <= i < pending.len() ==> #[trigger] pending[i] != 10,
    ensures
        forall|k: int|
            0 <= k < stream_messages(pending, s).len() ==> (#[trigger] stream_messages(
                pending,
                s,
            )[k]).len() > 0,
        forall|k: int, i: int|
            0 <= k < stream_messages(pending, s).len() && 0 <= i < stream_messages(pending, s)[k].len()
                ==> #[trigger] stream_messages(pending, s)[k][i] != 10,
    decreases s.len(),
{
    let out = stream_messages(pending, s);
    if s.len() == 0 {
    } else if s.first() == 10 {
        lemma_stream_messages_wf(Seq::<u8>::empty(), s.drop_first());
        let tail = stream_messages(Seq::<u8>::empty(), s.drop_first());
        match message_of(pending) {
            Some(m) => {
                crate::messages::lemma_trim_is_prefix(pending);
                assert(m.len() > 0);
                assert forall|i: int| 0 <= i < m.len() implies #[trigger] m[i] != 10 by {
                    assert(m[i] == pending[i]);
                }
                assert(out == seq![m] + tail);
                assert forall|k: int| 0 <= k < out.len() implies (#[trigger] out[k]).len() > 0 by {
                    if k == 0 {
                        assert(out[k] == m);
                    } else {
                        assert(out[k] == tail[k - 1]);
                    }
                }
                assert forall|k: int, i: int|
                    0 <= k < out.len() && 0 <= i < out[k].len() implies #[trigger] out[k][i]
                    != 10 by {
                    if k == 0 {
                        assert(out[k] == m);
                    } else {
                        assert(out[k] == tail[k - 1]);
                    }
                }
            },
            None => {
                assert(out == tail);
                assert forall|k: int| 0 <= k < out.len() implies (#[trigger] out[k]).len() > 0 by {
                    assert(out[k] == tail[k]);
                }
                assert forall|k: int, i: int|
                    0 <= k < out.len() && 0 <= i < out[k].len() implies #[trigger] out[k][i]
                    != 10 by {
                    assert(out[k] == tail[k]);
                }
            },
        }
    } else {
        assert forall|i: int| 0 <= i < pending.push(s.first()).len() implies #[trigger] pending.push(
            s.first(),
        )[i] != 10 by {
            if i < pending.len() {
                assert(pending.push(s.first())[i] == pending[i]);
            }
        }
        lemma_stream_messages_wf(pending.push(s.first()), s.drop_first());
        let tail = stream_messages(pending.push(s.first()), s.drop_first());
        assert(out == tail);
        assert forall|k: int| 0 <= k < out.len() implies (#[trigger] out[k]).len() > 0 by {
            assert(out[k] == tail[k]);
        }
        assert forall|k: int, i: int|
            0 <= k < out.len() && 0 <= i < out[k].len() implies #[trigger] out[k][i] != 10 by {
            assert(out[k] == tail[k]);
        }
    }
}

/// Cutting the arriving bytes in two changes nothing: feeding `s1` and
/// then `s2` dispatches the same messages, in the same order, with the
/// same tail left over, as feeding `s1 + s2` at once.
pub proof fn lemma_feed_chunking(pending: Seq<u8>, s1: Seq<u8>, s2: Seq<u8>)
    ensures
        stream_messages(pending, s1 + s2) == stream_messages(pending, s1) + stream_messages(
            stream_pending(pending, s1),
            s2,
        ),
        stream_pending(pending, s1 + s2) == stream_pending(stream_pending(pending, s1), s2),
    decreases s1.len(),
{
    if s1.len() == 0 {
        assert(s1 + s2 =~= s2);
        assert(stream_messages(pending, s1) + stream_messages(stream_pending(pending, s1), s2)
            =~= stream_messages(pending, s2));
    } else {
        assert((s1 + s2).first() == s1.first());
        assert((s1 + s2).drop_first() =~= s1.drop_first() + s2);
        if s1.first() == 10 {
            lemma_feed_chunking(Seq::<u8>::empty(), s1.drop_first(), s2);
            match message_of(pending) {
                Some(m) => {
                    assert(seq![m] + (stream_messages(Seq::<u8>::empty(), s1.drop_first())
                        + stream_messages(
                        stream_pending(Seq::<u8>::empty(), s1.drop_first()),
                        s2,
                    )) =~= (seq![m] + stream_messages(Seq::<u8>::empty(), s1.drop_first()))
                        + stream_messages(
                        stream_pending(Seq::<u8>::empty(), s1.drop_first()),
                        s2,
                    ));
                },
                None => {
                },
            }
        } else {
            lemma_feed_chunking(pending.push(s1.first()), s1.drop_first(), s2);
        }
    }
}

/// The messages dispatched when the chunks arrive one after another, each
/// fed to the connection in turn.
pub open spec fn run_messages(pending: Seq<u8>, chunks: Seq<Seq<u8>>) -> Seq<Seq<u8>>
    decreases chunks.len(),
{
    if chunks.len() == 0 {
        seq![]
    } else {
        stream_messages(pending, chunks.first()) + run_messages(
            stream_pending(pending, chunks.first()),
            chunks.drop_first(),
        )
    }
}

/// The tail left buffered once the chunks have arrived one after another.
pub open spec fn run_pending(pending: Seq<u8>, chunks: Seq<Seq<u8>>) -> Seq<u8>
    decreases chunks.len(),
{
    if chunks.len() == 0 {
        pending
    } else {
        run_pending(stream_pending(pending, chunks.first()), chunks.drop_first())
    }
}

/// However the sent bytes are cut into reads, the connection dispatches
/// the same messages in the same order, with the same tail left over, as
/// if the whole stream had arrived at once: within one connection, log
/// order is send order.
pub proof fn lemma_chunking_irrelevant(pending: Seq<u8>, chunks: Seq<Seq<u8>>)
    ensures
        run_messages(pending, chunks) == stream_messages(pending, chunks.flatten()),
        run_pending(pending, chunks) == stream_pending(pending, chunks.flatten()),
    decreases chunks.len(),
{
    if chunks.len() == 0 {
        assert(chunks.flatten() == Seq::<u8>::empty());
        assert(run_messages(pending, chunks) =~= stream_messages(pending, chunks.flatten()));
    } else {
        assert(chunks.flatten() == chunks.first() + chunks.drop_first().flatten());
        lemma_feed_chunking(pending, chunks.first(), chunks.drop_first().flatten());
        lemma_chunking_irrelevant(stream_pending(pending, chunks.first()), chunks.drop_first());
    }
}

/// Bytes never followed by a delimiter dispatch nothing: they only grow
/// the tail, which is dropped at end of stream.
pub proof fn lemma_undelimited_tail_dropped(pending: Seq<u8>, s: Seq<u8>)
    requires
        forall|i: int| 0 <= i < s.len() ==> #[trigger] s[i] != 10,
    ensures
        stream_messages(pending, s) == Seq::<Seq<u8>>::empty(),
        stream_pending(pending, s) == pending + s,
    decreases s.len(),
{
    if s.len() == 0 {
        assert(pending + s =~= pending);
    } else {
        assert(s.first() == s[0]);
        assert forall|i: int| 0 <= i < s.drop_first().len() implies #[trigger] s.drop_first()[i]
            != 10 by {
            assert(s.drop_first()[i] == s[i + 1]);
        }
        lemma_undelimited_tail_dropped(pending.push(s.first()), s.drop_first());
        assert(pending.push(s.first()) + s.drop_first() =~= pending + s);
    }
}

} // verus!
