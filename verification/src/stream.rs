//! One connection's reads taken as a whole: what frame they come to, stated
//! over the byte stream that they carry, and the function that frames them.

use vstd::prelude::*;
use crate::bytes::{find, lemma_find, tail};
use crate::framer::{
    outcome_view, step, truncate, FrameError, FrameErrorView, FrameView, FramerView, Outcome,
    ResponseFrame, Step, StepView, StreamFramer,
};
use crate::header::{declared_length, delimiter};

verus! {

/// The reads that count: those before the first empty one, which is how a
/// connection says that it has no more to give.
pub open spec fn live_reads(reads: Seq<Seq<u8>>) -> Seq<Seq<u8>>
    decreases reads.len(),
{
    if reads.len() == 0 || reads[0].len() == 0 {
        Seq::empty()
    } else {
        seq![reads[0]] + live_reads(reads.drop_first())
    }
}

/// Where in the stream that `reads` carry the header ends: the offset of the
/// leftmost delimiter in the first read that holds a whole delimiter. A
/// delimiter that straddles two reads is not seen.
pub open spec fn split_point(reads: Seq<Seq<u8>>) -> Option<int>
    decreases reads.len(),
{
    if reads.len() == 0 {
        None
    } else {
        match find(reads[0], delimiter()) {
            Some(at) => Some(at),
            None => match split_point(reads.drop_first()) {
                Some(at) => Some(reads[0].len() + at),
                None => None,
            },
        }
    }
}

/// What a connection's reads come to. Let the stream be the reads before the
/// first empty one, laid end to end. Without a split point all of it is
/// header text, and the outcome is the protocol error that carries it. With
/// one, the header is what stands before it; a header that declares no
/// length gives the format error, and otherwise the frame holds the
/// declared length and, of what follows the delimiter, at most that many bytes.
pub open spec fn frame_of(reads: Seq<Seq<u8>>) -> Outcome {
    let live = live_reads(reads);
    let stream = live.flatten();
    match split_point(live) {
        None => Err(FrameErrorView::Protocol { header: stream }),
        Some(at) => match declared_length(stream.take(at)) {
            Err(value) => Err(FrameErrorView::Format { value }),
            Ok(n) => Ok(
                FrameView { declared_length: n, body: truncate(stream.skip(at + 4), n as int) },
            ),
        },
    }
}

/// What the reads still to come lead to from a state that earlier reads
/// have led to.
pub open spec fn resumed(s: FramerView, reads: Seq<Seq<u8>>) -> Outcome {
    let live = live_reads(reads);
    let stream = live.flatten();
    if s.in_header {
        match split_point(live) {
            None => Err(FrameErrorView::Protocol { header: s.header + stream }),
            Some(at) => match declared_length(s.header + stream.take(at)) {
                Err(value) => Err(FrameErrorView::Format { value }),
                Ok(n) => Ok(
                    FrameView { declared_length: n, body: truncate(stream.skip(at + 4), n as int) },
                ),
            },
        }
    } else {
        Ok(
            FrameView {
                declared_length: s.declared_length,
                body: truncate(s.body + stream, s.declared_length as int),
            },
        )
    }
}

/// The views of a list of reads.
pub open spec fn reads_view(reads: Seq<Vec<u8>>) -> Seq<Seq<u8>> {
    reads.map_values(|read: Vec<u8>| read@)
}

/// A split point lies in the stream, with room for the delimiter behind it.
pub proof fn lemma_split_point_bounds(reads: Seq<Seq<u8>>)
    ensures
        split_point(reads) matches Some(at) ==> 0 <= at && at + 4 <= reads.flatten().len(),
    decreases reads.len(),
{
    if reads.len() > 0 {
        lemma_find(reads[0], delimiter());
        lemma_split_point_bounds(reads.drop_first());
        assert(delimiter().len() == 4);
    }
}

/// From the first state, the reads to come lead to what all reads come to.
pub proof fn lemma_resumed_initial(reads: Seq<Seq<u8>>)
    ensures
        resumed(FramerView::initial(), reads) == frame_of(reads),
{
    let stream = live_reads(reads).flatten();
    assert(Seq::<u8>::empty() + stream =~= stream);
    if split_point(live_reads(reads)) is Some {
        let at = split_point(live_reads(reads))->0;
        assert(Seq::<u8>::empty() + stream.take(at) =~= stream.take(at));
    }
}

/// With no read to come, reading ends where it stands.
pub proof fn lemma_resumed_end(s: FramerView)
    requires
        s.wf(),
    ensures
        resumed(s, Seq::empty()) == s.finish(),
{
    let live = live_reads(Seq::<Seq<u8>>::empty());
    assert(live.flatten() =~= Seq::<u8>::empty());
    assert(s.header + live.flatten() =~= s.header);
    assert(s.body + live.flatten() =~= s.body);
}

/// Cutting a run of bytes to a limit, then adding more and cutting again, is
/// adding first and cutting once.
pub proof fn lemma_truncate_twice(body: Seq<u8>, chunk: Seq<u8>, more: Seq<u8>, limit: int)
    requires
        body.len() <= limit,
    ensures
        truncate(body + truncate(chunk, limit - body.len()) + more, limit) == truncate(
            body + (chunk + more),
            limit,
        ),
{
    assert(truncate(body + truncate(chunk, limit - body.len()) + more, limit) =~= truncate(
        body + (chunk + more),
        limit,
    ));
}

/// One read taken off the front: where the reader's rule ends the reading,
/// that end is what the reads come to; where it goes on, the reads that are
/// left lead, from the next state, to the same as all of them did.
pub proof fn lemma_resumed_step(s: FramerView, reads: Seq<Seq<u8>>)
    requires
        s.wf(),
        reads.len() > 0,
    ensures
        match step(s, reads[0]) {
            StepView::Done(r) => resumed(s, reads) == r,
            StepView::Continue(next) => next.wf() && resumed(s, reads) == resumed(
                next,
                reads.drop_first(),
            ),
        },
{
    let chunk = reads[0];
    let rest = reads.drop_first();
    let live = live_reads(reads);
    let live_rest = live_reads(rest);
    let limit = s.declared_length as int;
    if chunk.len() == 0 {
        assert(live.flatten() =~= Seq::<u8>::empty());
        assert(s.header + live.flatten() =~= s.header);
        assert(s.body + live.flatten() =~= s.body);
    } else {
        let stream = live.flatten();
        let later = live_rest.flatten();
        assert(live.drop_first() =~= live_rest);
        assert(stream == chunk + later);
        lemma_split_point_bounds(live_rest);
        lemma_find(chunk, delimiter());
        assert(delimiter().len() == 4);
        if s.complete() {
            assert(truncate(s.body + stream, limit) =~= s.body);
        } else if !s.in_header {
            lemma_truncate_twice(s.body, chunk, later, limit);
            assert(s.body + truncate(chunk, limit - s.body.len()) + later =~= (s.body + truncate(
                chunk,
                limit - s.body.len(),
            )) + later);
        } else {
            match find(chunk, delimiter()) {
                None => {
                    match split_point(live_rest) {
                        None => {
                            assert((s.header + chunk) + later =~= s.header + stream);
                        },
                        Some(at) => {
                            assert((s.header + chunk) + later.take(at) =~= s.header + stream.take(
                                chunk.len() + at,
                            ));
                            assert(later.skip(at + 4) =~= stream.skip(chunk.len() + at + 4));
                        },
                    }
                },
                Some(at) => {
                    assert(stream.take(at) =~= chunk.subrange(0, at));
                    match declared_length(s.header + chunk.subrange(0, at)) {
                        Err(_) => {},
                        Ok(n) => {
                            let begun = truncate(tail(chunk, at + 4), n as int);
                            lemma_truncate_twice(Seq::empty(), tail(chunk, at + 4), later, n as int);
                            assert(Seq::<u8>::empty() + truncate(tail(chunk, at + 4), n as int - 0)
                                + later =~= begun + later);
                            assert(Seq::<u8>::empty() + (tail(chunk, at + 4) + later)
                                =~= stream.skip(at + 4));
                        },
                    }
                },
            }
        }
    }
}

/// What feeding the reads to the reader one by one comes to, from state `s`
/// on; the end of the reads ends the reading.
pub open spec fn fed(s: FramerView, reads: Seq<Seq<u8>>) -> Outcome
    decreases reads.len(),
{
    if reads.len() == 0 {
        s.finish()
    } else {
        match step(s, reads[0]) {
            StepView::Done(r) => r,
            StepView::Continue(next) => fed(next, reads.drop_first()),
        }
    }
}

/// Feeding the reads one by one comes to what is stated of them as a whole.
pub proof fn lemma_fed_is_resumed(s: FramerView, reads: Seq<Seq<u8>>)
    requires
        s.wf(),
    ensures
        fed(s, reads) == resumed(s, reads),
    decreases reads.len(),
{
    if reads.len() == 0 {
        assert(reads =~= Seq::<Seq<u8>>::empty());
        lemma_resumed_end(s);
    } else {
        lemma_resumed_step(s, reads);
        match step(s, reads[0]) {
            StepView::Done(_) => {},
            StepView::Continue(next) => {
                lemma_fed_is_resumed(next, reads.drop_first());
            },
        }
    }
}

/// The reader's rule, applied read after read from the first state, frames
/// the reads as `frame_of` says.
pub proof fn lemma_fed_is_frame_of(reads: Seq<Seq<u8>>)
    ensures
        fed(FramerView::initial(), reads) == frame_of(reads),
{
    lemma_fed_is_resumed(FramerView::initial(), reads);
    lemma_resumed_initial(reads);
}

/// Frames the reads of one connection, given in the order in which they
/// were made; the end of the list counts as the end of the connection.
pub fn recv_http(reads: &[Vec<u8>]) -> (r: Result<ResponseFrame, FrameError>)
    ensures
        outcome_view(r) == frame_of(reads_view(reads@)),
        r matches Ok(frame) ==> frame.wf(),
{
    let ghost all = reads_view(reads@);
    let mut framer = StreamFramer::new();
    let mut i: usize = 0;
    proof {
        lemma_resumed_initial(all);
        assert(all.skip(0) =~= all);
    }
    while i < reads.len()
        invariant
            i <= reads.len(),
            all == reads_view(reads@),
            framer@.wf(),
            resumed(framer@, all.skip(i as int)) == frame_of(all),
        decreases reads.len() - i,
    {
        proof {
            lemma_resumed_step(framer@, all.skip(i as int));
            assert(all.skip(i as int).drop_first() =~= all.skip(i + 1));
            assert(all.skip(i as int)[0] == reads@[i as int]@);
        }
        match framer.feed(reads[i].as_slice()) {
            Step::Done(r) => {
                return r;
            },
            Step::Continue(next) => {
                framer = next;
            },
        }
        i += 1;
    }
    proof {
        assert(all.skip(i as int) =~= Seq::<Seq<u8>>::empty());
        lemma_resumed_end(framer@);
    }
    framer.finish()
}

} // verus!
