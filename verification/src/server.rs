//! A whole server run, one serialization at a time. A trace records, in
//! the order the shared sink serialized them, which connection's bytes
//! arrived at each step; each step dispatches every message those bytes
//! complete, in send order, before the next step runs. The theorem at the
//! bottom says that however such a run interleaves its connections, the
//! serialized log restricted to any one connection is exactly the
//! messages of that connection's whole byte stream, in send order.

use crate::conn::lemma_feed_chunking;
use crate::conn::stream_messages;
use crate::conn::stream_pending;
use crate::sink::restricted_to;
use vstd::prelude::*;

verus! {

/// The chunks a run hands to connection `c`, in arrival order.
pub open spec fn chunks_of(events: Seq<(nat, Seq<u8>)>, c: nat) -> Seq<Seq<u8>>
    decreases events.len(),
{
    if events.len() == 0 {
        seq![]
    } else if events.last().0 == c {
        chunks_of(events.drop_last(), c).push(events.last().1)
    } else {
        chunks_of(events.drop_last(), c)
    }
}

/// Connection `c`'s read buffer once the run has happened.
pub open spec fn trace_pending(events: Seq<(nat, Seq<u8>)>, c: nat) -> Seq<u8>
    decreases events.len(),
{
    if events.len() == 0 {
        Seq::<u8>::empty()
    } else if events.last().0 == c {
        stream_pending(trace_pending(events.drop_last(), c), events.last().1)
    } else {
        trace_pending(events.drop_last(), c)
    }
}

/// `msgs`, each tagged as connection `c`'s.
pub open spec fn tagged(c: nat, msgs: Seq<Seq<u8>>) -> Seq<(nat, Seq<u8>)>
    decreases msgs.len(),
{
    if msgs.len() == 0 {
        seq![]
    } else {
        tagged(c, msgs.drop_last()).push((c, msgs.last()))
    }
}

/// The serialized log of a run: at each step the connection whose bytes
/// arrived dispatches, in send order, every message those bytes complete.
pub open spec fn trace_log(events: Seq<(nat, Seq<u8>)>) -> Seq<(nat, Seq<u8>)>
    decreases events.len(),
{
    if events.len() == 0 {
        seq![]
    } else {
        trace_log(events.drop_last()) + tagged(
            events.last().0,
            stream_messages(trace_pending(events.drop_last(), events.last().0), events.last().1),
        )
    }
}

/// Restriction distributes over laying two log segments end to end.
proof fn lemma_restricted_concat(a: Seq<(nat, Seq<u8>)>, b: Seq<(nat, Seq<u8>)>, c: nat)
    ensures
        restricted_to(a + b, c) == restricted_to(a, c) + restricted_to(b, c),
    decreases b.len(),
{
    if b.len() == 0 {
        assert(a + b =~= a);
        assert(restricted_to(a, c) + restricted_to(b, c) =~= restricted_to(a, c));
    } else {
        assert((a + b).drop_last() =~= a + b.drop_last());
        assert((a + b).last() == b.last());
        lemma_restricted_concat(a, b.drop_last(), c);
    }
}

/// A tagged block restricts to all of itself for its own connection and
/// to nothing for any other.
proof fn lemma_restricted_tagged(d: nat, msgs: Seq<Seq<u8>>, c: nat)
    ensures
        restricted_to(tagged(d, msgs), c) == if c == d {
            msgs
        } else {
            Seq::<Seq<u8>>::empty()
        },
    decreases msgs.len(),
{
    if msgs.len() == 0 {
        if c == d {
            assert(msgs =~= Seq::<Seq<u8>>::empty());
        }
    } else {
        assert(tagged(d, msgs).drop_last() =~= tagged(d, msgs.drop_last()));
        assert(tagged(d, msgs).last() == (d, msgs.last()));
        lemma_restricted_tagged(d, msgs.drop_last(), c);
        if c == d {
            assert(msgs.drop_last().push(msgs.last()) =~= msgs);
        }
    }
}

/// Serialization keeps every connection's send order, whatever the
/// interleaving: the log of any run, restricted to one connection, is
/// exactly the sequence of messages carried by that connection's bytes —
/// as if they had arrived in one piece — with no loss, no duplication and
/// no reordering; and the connection's buffer holds exactly the
/// undelimited tail of its stream.
pub proof fn lemma_run_keeps_send_order(events: Seq<(nat, Seq<u8>)>, c: nat)
    ensures
        restricted_to(trace_log(events), c) == stream_messages(
            Seq::<u8>::empty(),
            chunks_of(events, c).flatten(),
        ),
        trace_pending(events, c) == stream_pending(
            Seq::<u8>::empty(),
            chunks_of(events, c).flatten(),
        ),
    decreases events.len(),
{
    if events.len() == 0 {
        assert(chunks_of(events, c).flatten() == Seq::<u8>::empty());
        assert(restricted_to(trace_log(events), c) =~= Seq::<Seq<u8>>::empty());
    } else {
        let pre = events.drop_last();
        let d = events.last().0;
        let chunk = events.last().1;
        let block = stream_messages(trace_pending(pre, d), chunk);
        lemma_run_keeps_send_order(pre, c);
        lemma_restricted_concat(trace_log(pre), tagged(d, block), c);
        lemma_restricted_tagged(d, block, c);
        if c == d {
            let flat_pre = chunks_of(pre, c).flatten();
            assert(chunks_of(events, c) == chunks_of(pre, c).push(chunk));
            chunks_of(pre, c).lemma_flatten_push(chunk);
            lemma_feed_chunking(Seq::<u8>::empty(), flat_pre, chunk);
            assert(block == stream_messages(stream_pending(Seq::<u8>::empty(), flat_pre), chunk));
            assert(chunks_of(events, c).flatten() == flat_pre + chunk);
        } else {
            assert(chunks_of(events, c) == chunks_of(pre, c));
            assert(restricted_to(trace_log(pre), c) + Seq::<Seq<u8>>::empty() =~= restricted_to(
                trace_log(pre),
                c,
            ));
        }
    }
}

} // verus!
