//! The incremental response reader. It is fed the reads of one connection,
//! one at a time and of any size, tells the header from the body, takes the
//! declared body length from the header, and hands out the body once that
//! length is reached or the connection has no more to give.

use vstd::prelude::*;
use crate::bytes::{find, find_first, lemma_find, tail};
use crate::header::{declared_length, delimiter, read_declared_length};

verus! {

/// One framed response: the body length that its header declares, and the
/// body bytes that arrived for it.
#[derive(Debug)]
pub struct ResponseFrame {
    pub declared_length: u32,
    pub body: Vec<u8>,
}

/// What a `ResponseFrame` stands for.
pub struct FrameView {
    pub declared_length: u32,
    pub body: Seq<u8>,
}

impl View for ResponseFrame {
    type V = FrameView;

    open spec fn view(&self) -> FrameView {
        FrameView { declared_length: self.declared_length, body: self.body@ }
    }
}

impl ResponseFrame {
    /// No more body than was declared.
    pub open spec fn wf(&self) -> bool {
        self.body@.len() <= self.declared_length
    }
}

/// Why no frame came out of a connection.
#[derive(Debug)]
pub enum FrameError {
    /// The reads ended before the delimiter was seen; `header` is the header
    /// text gathered until then.
    Protocol { header: Vec<u8> },
    /// A length field of the header writes no 32-bit unsigned number;
    /// `value` is what the first such field holds in place of one.
    Format { value: Vec<u8> },
}

/// What a `FrameError` stands for.
pub enum FrameErrorView {
    Protocol { header: Seq<u8> },
    Format { value: Seq<u8> },
}

impl View for FrameError {
    type V = FrameErrorView;

    open spec fn view(&self) -> FrameErrorView {
        match self {
            FrameError::Protocol { header } => FrameErrorView::Protocol { header: header@ },
            FrameError::Format { value } => FrameErrorView::Format { value: value@ },
        }
    }
}

/// What the end of a connection's reads comes to.
pub type Outcome = Result<FrameView, FrameErrorView>;

/// What the result of framing stands for.
pub open spec fn outcome_view(r: Result<ResponseFrame, FrameError>) -> Outcome {
    match r {
        Ok(frame) => Ok(frame@),
        Err(e) => Err(e@),
    }
}

/// The reader's state as plain values. While `in_header`, `header` grows and
/// the other two rest at zero; afterwards `header` is fixed, `declared_length`
/// is what it declares, and `body` grows up to that.
pub struct FramerView {
    pub in_header: bool,
    pub header: Seq<u8>,
    pub declared_length: u32,
    pub body: Seq<u8>,
}

impl FramerView {
    /// The state before the first read.
    pub open spec fn initial() -> FramerView {
        FramerView { in_header: true, header: Seq::empty(), declared_length: 0, body: Seq::empty() }
    }

    /// The states that reading can reach.
    pub open spec fn wf(self) -> bool {
        if self.in_header {
            self.declared_length == 0 && self.body.len() == 0
        } else {
            &&& declared_length(self.header) == Ok::<u32, Seq<u8>>(self.declared_length)
            &&& self.body.len() <= self.declared_length
        }
    }

    /// The body has reached its declared length.
    pub open spec fn complete(self) -> bool {
        !self.in_header && self.body.len() == self.declared_length
    }

    /// What reading comes to when it ends in this state.
    pub open spec fn finish(self) -> Outcome {
        if self.in_header {
            Err(FrameErrorView::Protocol { header: self.header })
        } else {
            Ok(FrameView { declared_length: self.declared_length, body: self.body })
        }
    }
}

/// At most the first `limit` bytes of `bytes`.
pub open spec fn truncate(bytes: Seq<u8>, limit: int) -> Seq<u8> {
    if bytes.len() <= limit {
        bytes
    } else if limit <= 0 {
        Seq::empty()
    } else {
        bytes.take(limit)
    }
}

/// What one read leads to: reading goes on from a next state, or it is over.
pub enum StepView {
    Continue(FramerView),
    Done(Outcome),
}

/// The reader's rule. An empty read, or any read once the body is complete,
/// ends the reading. Otherwise, in the header, the read is searched for the
/// delimiter: without one it all joins the header; with one, what stands
/// before the leftmost joins the header, the header's declared length is
/// taken (a header that declares none ends the reading with the format
/// error), and what follows the delimiter starts the body. In the
/// body, the read joins the body. The body never takes more than is declared.
pub open spec fn step(s: FramerView, chunk: Seq<u8>) -> StepView {
    if chunk.len() == 0 || s.complete() {
        StepView::Done(s.finish())
    } else if s.in_header {
        match find(chunk, delimiter()) {
            None => StepView::Continue(FramerView { header: s.header + chunk, ..s }),
            Some(at) => {
                let header = s.header + chunk.subrange(0, at);
                match declared_length(header) {
                    Err(value) => StepView::Done(Err(FrameErrorView::Format { value })),
                    Ok(n) => StepView::Continue(
                        FramerView {
                            in_header: false,
                            header,
                            declared_length: n,
                            body: truncate(tail(chunk, at + 4), n as int),
                        },
                    ),
                }
            },
        }
    } else {
        StepView::Continue(
            FramerView {
                body: s.body + truncate(chunk, s.declared_length - s.body.len()),
                ..s
            },
        )
    }
}

/// The reader passes from header to body once and never back: from a state
/// in the body, a read that lets reading go on leaves header and declared
/// length as they are and only adds to the body.
pub proof fn lemma_body_phase_is_final(s: FramerView, chunk: Seq<u8>)
    requires
        s.wf(),
        !s.in_header,
    ensures
        step(s, chunk) matches StepView::Continue(next) ==> {
            &&& !next.in_header
            &&& next.header == s.header
            &&& next.declared_length == s.declared_length
            &&& s.body.is_prefix_of(next.body)
            &&& next.wf()
        },
        step(s, chunk) matches StepView::Done(r) ==> r == Ok::<FrameView, FrameErrorView>(
            FrameView { declared_length: s.declared_length, body: s.body },
        ),
{
}

/// Reading keeps to the states in which the body holds no more than was
/// declared; a frame that comes out holds no more either.
pub proof fn lemma_step_keeps_wf(s: FramerView, chunk: Seq<u8>)
    requires
        s.wf(),
    ensures
        step(s, chunk) matches StepView::Continue(next) ==> next.wf(),
        step(s, chunk) matches StepView::Done(Ok(frame)) ==> frame.body.len()
            <= frame.declared_length,
{
    lemma_find(chunk, delimiter());
}

/// The incremental response reader.
pub struct StreamFramer {
    in_header: bool,
    header: Vec<u8>,
    declared_length: u32,
    body: Vec<u8>,
}

impl View for StreamFramer {
    type V = FramerView;

    closed spec fn view(&self) -> FramerView {
        FramerView {
            in_header: self.in_header,
            header: self.header@,
            declared_length: self.declared_length,
            body: self.body@,
        }
    }
}

/// What `feed` hands back: the reader to feed the next read to, or the end.
pub enum Step {
    Continue(StreamFramer),
    Done(Result<ResponseFrame, FrameError>),
}

impl View for Step {
    type V = StepView;

    open spec fn view(&self) -> StepView {
        match self {
            Step::Continue(next) => StepView::Continue(next@),
            Step::Done(r) => StepView::Done(outcome_view(*r)),
        }
    }
}

/// Appends `src` to `dst`.
pub fn append_bytes(dst: &mut Vec<u8>, src: &[u8])
    ensures
        final(dst)@ == old(dst)@ + src@,
{
    let mut i: usize = 0;
    while i < src.len()
        invariant
            i <= src.len(),
            dst@ == old(dst)@ + src@.take(i as int),
        decreases src.len() - i,
    {
        dst.push(src[i]);
        assert(src@.take(i + 1) =~= src@.take(i as int).push(src@[i as int]));
        i += 1;
    }
    assert(src@.take(src.len() as int) =~= src@);
}

/// Appends to `dst` as much of `src` as keeps it within `limit` bytes;
/// nothing, where it is not within them to begin with.
pub fn append_within(dst: &mut Vec<u8>, src: &[u8], limit: usize)
    ensures
        final(dst)@ == old(dst)@ + truncate(src@, limit - old(dst)@.len()),
{
    let room = if dst.len() < limit {
        limit - dst.len()
    } else {
        0
    };
    if src.len() <= room {
        append_bytes(dst, src);
    } else {
        append_bytes(dst, &src[0..room]);
    }
}

impl StreamFramer {
    #[verifier::type_invariant]
    spec fn inv(self) -> bool {
        self@.wf()
    }

    /// A reader that has seen nothing yet.
    pub fn new() -> (r: StreamFramer)
        ensures
            r@ == FramerView::initial(),
    {
        StreamFramer { in_header: true, header: Vec::new(), declared_length: 0, body: Vec::new() }
    }

    /// What reading comes to when it ends here: the frame, once the header
    /// has been read through; otherwise the protocol error, with the header
    /// text gathered so far.
    pub fn finish(self) -> (r: Result<ResponseFrame, FrameError>)
        ensures
            outcome_view(r) == self@.finish(),
            r matches Ok(frame) ==> frame.wf(),
    {
        proof {
            use_type_invariant(&self);
        }
        if self.in_header {
            Err(FrameError::Protocol { header: self.header })
        } else {
            Ok(ResponseFrame { declared_length: self.declared_length, body: self.body })
        }
    }

    /// Takes one read, of any size, and says whether reading goes on.
    pub fn feed(self, chunk: &[u8]) -> (r: Step)
        ensures
            r@ == step(self@, chunk@),
            self@.wf(),
            r matches Step::Continue(next) ==> next@.wf(),
            r matches Step::Done(Ok(frame)) ==> frame.wf(),
    {
        proof {
            use_type_invariant(&self);
        }
        if chunk.len() == 0 || (!self.in_header && self.body.len() == self.declared_length as usize) {
            return Step::Done(self.finish());
        }
        let end = chunk.len();
        let StreamFramer { in_header, mut header, declared_length, mut body } = self;
        if in_header {
            let mark: [u8; 4] = [13, 10, 13, 10];
            assert(mark@ =~= delimiter());
            assert(delimiter().len() == 4);
            proof {
                lemma_find(chunk@, delimiter());
            }
            match find_first(chunk, mark.as_slice()) {
                None => {
                    append_bytes(&mut header, chunk);
                    Step::Continue(StreamFramer { in_header, header, declared_length, body })
                },
                Some(at) => {
                    append_bytes(&mut header, &chunk[0..at]);
                    match read_declared_length(header.as_slice()) {
                        Err(found) => {
                            let mut value = Vec::new();
                            append_bytes(&mut value, found);
                            Step::Done(Err(FrameError::Format { value }))
                        },
                        Ok(n) => {
                            append_within(&mut body, &chunk[at + 4..end], n as usize);
                            assert(body@ =~= truncate(tail(chunk@, at + 4), n as int));
                            Step::Continue(
                                StreamFramer { in_header: false, header, declared_length: n, body },
                            )
                        },
                    }
                },
            }
        } else {
            append_within(&mut body, chunk, declared_length as usize);
            Step::Continue(StreamFramer { in_header, header, declared_length, body })
        }
    }
}

} // verus!
