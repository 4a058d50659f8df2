//! One raw line of the wire protocol, and the message it carries: the line
//! with its trailing whitespace (the delimiter among it) stripped, or no
//! message at all when nothing but whitespace was sent.

use vstd::prelude::*;

verus! {

/// Whitespace as far as message trimming is concerned: space, horizontal
/// tab, carriage return and line feed.
pub open spec fn is_ws(b: u8) -> bool {
    b == 32 || b == 9 || b == 13 || b == 10
}

/// `s` with every trailing whitespace byte removed.
pub open spec fn trim_trailing(s: Seq<u8>) -> Seq<u8>
    decreases s.len(),
{
    if s.len() > 0 && is_ws(s.last()) {
        trim_trailing(s.drop_last())
    } else {
        s
    }
}

/// The message carried by one raw line, delimiter already split off:
/// trailing whitespace is stripped, and a line with nothing left carries
/// no message.
pub open spec fn message_of(line: Seq<u8>) -> Option<Seq<u8>> {
    if trim_trailing(line).len() == 0 {
        None
    } else {
        Some(trim_trailing(line))
    }
}

/// The trimmed line is a prefix of the raw line.
pub proof fn lemma_trim_is_prefix(s: Seq<u8>)
    ensures
        trim_trailing(s).len() <= s.len(),
        trim_trailing(s) == s.take(trim_trailing(s).len() as int),
    decreases s.len(),
{
    if s.len() > 0 && is_ws(s.last()) {
        lemma_trim_is_prefix(s.drop_last());
        assert(s.drop_last().take(trim_trailing(s).len() as int) =~= s.take(
            trim_trailing(s).len() as int,
        ));
    } else {
        assert(s.take(trim_trailing(s).len() as int) =~= s);
    }
}

/// A line of nothing but whitespace carries no message.
pub proof fn lemma_whitespace_only_no_message(line: Seq<u8>)
    requires
        forall|i: int| 0 <= i < line.len() ==> is_ws(#[trigger] line[i]),
    ensures
        message_of(line) is None,
    decreases line.len(),
{
    if line.len() > 0 {
        assert(is_ws(line.last()));
        assert forall|i: int| 0 <= i < line.drop_last().len() implies is_ws(
            #[trigger] line.drop_last()[i],
        ) by {
            assert(line.drop_last()[i] == line[i]);
        }
        lemma_whitespace_only_no_message(line.drop_last());
    }
}

/// True exactly on the bytes that `is_ws` lists.
pub fn is_ws_byte(b: u8) -> (r: bool)
    ensures
        r == is_ws(b),
{
    b == 32 || b == 9 || b == 13 || b == 10
}

/// Strips trailing whitespace from one raw line and hands back the message
/// it carries, or `None` when nothing but whitespace was sent.
pub fn clean_message(line: &Vec<u8>) -> (r: Option<Vec<u8>>)
    ensures
        match r {
            Some(m) => message_of(line@) == Some(m@),
            None => message_of(line@) is None,
        },
{
    let mut end: usize = line.len();
    proof {
        assert(line@.take(end as int) =~= line@);
    }
    while end > 0 && is_ws_byte(line[end - 1])
        invariant
            end <= line.len(),
            trim_trailing(line@) == trim_trailing(line@.take(end as int)),
        decreases end,
    {
        proof {
            assert(line@.take(end as int).last() == line@[end - 1]);
            assert(line@.take(end as int).drop_last() =~= line@.take(end - 1));
        }
        end = end - 1;
    }
    proof {
        if end > 0 {
            assert(line@.take(end as int).last() == line@[end - 1]);
        }
        assert(trim_trailing(line@.take(end as int)) == line@.take(end as int));
    }
    if end == 0 {
        None
    } else {
        let mut out: Vec<u8> = Vec::new();
        let mut i: usize = 0;
        while i < end
            invariant
                i <= end,
                end <= line.len(),
                out@ == line@.take(i as int),
            decreases end - i,
        {
            out.push(line[i]);
            proof {
                assert(line@.take(i as int).push(line@[i as int]) =~= line@.take(i + 1));
            }
            i = i + 1;
        }
        Some(out)
    }
}

} // verus!
