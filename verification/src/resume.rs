//! The accounting behind a download that is resumed connection after
//! connection: what has been collected, how much is still owed, and which
//! byte range the next request asks for.

use vstd::prelude::*;
use crate::framer::{FrameView, ResponseFrame};
use crate::request::ByteRange;

verus! {

/// The download's state as plain values: the bytes collected so far, the
/// resource's size once the first response has declared it, and how many
/// bytes are still owed.
pub struct ControllerView {
    pub collected: Seq<u8>,
    pub known_total: Option<u32>,
    pub remaining: u32,
}

impl ControllerView {
    /// Before the first response: nothing collected, the size unknown.
    pub open spec fn initial() -> ControllerView {
        ControllerView { collected: Seq::empty(), known_total: None, remaining: 0 }
    }

    /// Collected and owed bytes add up to the size, once it is known.
    pub open spec fn wf(self) -> bool {
        match self.known_total {
            None => self.collected.len() == 0 && self.remaining == 0,
            Some(total) => self.collected.len() + self.remaining == total,
        }
    }

    /// The size is known and nothing is owed: no further connection is made.
    pub open spec fn done(self) -> bool {
        self.known_total is Some && self.remaining == 0
    }

    /// The range that the next request asks for: none while the size is
    /// unknown, afterwards from the first byte not yet collected to the size.
    pub open spec fn next_range(self) -> Option<ByteRange> {
        match self.known_total {
            None => None,
            Some(_) => Some(
                ByteRange {
                    begin_index: self.collected.len() as u32,
                    end_index: (self.collected.len() + self.remaining) as u32,
                },
            ),
        }
    }

    /// How many bytes a response may bring: its own declared length while
    /// the size is unknown, afterwards what is still owed.
    pub open spec fn budget(self, frame: FrameView) -> u32 {
        match self.known_total {
            None => frame.declared_length,
            Some(_) => self.remaining,
        }
    }

    /// The response brings no more than it may.
    pub open spec fn accepts(self, frame: FrameView) -> bool {
        frame.body.len() <= self.budget(frame)
    }

    /// The state after a response: its body joins what was collected, the
    /// first response's declared length becomes the size, and what is owed
    /// goes down by the bytes that arrived.
    pub open spec fn accept(self, frame: FrameView) -> ControllerView {
        ControllerView {
            collected: self.collected + frame.body,
            known_total: match self.known_total {
                None => Some(frame.declared_length),
                Some(total) => Some(total),
            },
            remaining: (self.budget(frame) - frame.body.len()) as u32,
        }
    }
}

/// The accounting of one download.
pub struct ResumeController {
    collected: Vec<u8>,
    known_total: Option<u32>,
    remaining: u32,
}

impl View for ResumeController {
    type V = ControllerView;

    closed spec fn view(&self) -> ControllerView {
        ControllerView {
            collected: self.collected@,
            known_total: self.known_total,
            remaining: self.remaining,
        }
    }
}

impl ResumeController {
    #[verifier::type_invariant]
    spec fn inv(self) -> bool {
        self@.wf()
    }

    /// The accounting of a download that has not begun.
    pub fn new() -> (r: ResumeController)
        ensures
            r@ == ControllerView::initial(),
    {
        ResumeController { collected: Vec::new(), known_total: None, remaining: 0 }
    }

    /// Whether the download is complete; until then another connection is due.
    pub fn is_done(&self) -> (r: bool)
        ensures
            r == self@.done(),
    {
        self.known_total.is_some() && self.remaining == 0
    }

    /// The byte range to ask for on the next connection.
    pub fn next_range(&self) -> (r: Option<ByteRange>)
        ensures
            r == self@.next_range(),
            self@.wf(),
    {
        proof {
            use_type_invariant(self);
        }
        match self.known_total {
            None => None,
            Some(_) => {
                let begin = self.collected.len() as u32;
                Some(ByteRange { begin_index: begin, end_index: begin + self.remaining })
            },
        }
    }

    /// Whether `frame` brings no more than it may.
    pub fn accepts(&self, frame: &ResponseFrame) -> (r: bool)
        ensures
            r == self@.accepts(frame@),
    {
        proof {
            use_type_invariant(self);
        }
        let budget = match self.known_total {
            None => frame.declared_length,
            Some(_) => self.remaining,
        };
        frame.body.len() <= budget as usize
    }

    /// Takes in the frame that one connection came to.
    pub fn accept(self, frame: ResponseFrame) -> (r: ResumeController)
        requires
            self@.accepts(frame@),
        ensures
            r@ == self@.accept(frame@),
            r@.wf(),
    {
        proof {
            use_type_invariant(&self);
        }
        let ResumeController { mut collected, known_total, remaining } = self;
        let ResponseFrame { declared_length, mut body } = frame;
        let arrived = body.len() as u32;
        let (total, budget) = match known_total {
            None => (declared_length, declared_length),
            Some(total) => (total, remaining),
        };
        collected.append(&mut body);
        ResumeController { collected, known_total: Some(total), remaining: budget - arrived }
    }

    /// Hands out the bytes collected.
    pub fn into_bytes(self) -> (r: Vec<u8>)
        ensures
            r@ == self@.collected,
    {
        self.collected
    }
}

/// The state that a run of responses, taken in order, leads to.
pub open spec fn after(frames: Seq<FrameView>) -> ControllerView
    decreases frames.len(),
{
    if frames.len() == 0 {
        ControllerView::initial()
    } else {
        after(frames.drop_last()).accept(frames.last())
    }
}

/// The bodies of a run of responses, laid end to end.
pub open spec fn delivered(frames: Seq<FrameView>) -> Seq<u8>
    decreases frames.len(),
{
    if frames.len() == 0 {
        Seq::empty()
    } else {
        delivered(frames.drop_last()) + frames.last().body
    }
}

/// What has been delivered by the first `j` responses is the beginning of
/// what all of them deliver.
pub proof fn lemma_delivered_prefix(frames: Seq<FrameView>, j: int)
    requires
        0 <= j <= frames.len(),
    ensures
        delivered(frames.take(j)).len() <= delivered(frames).len(),
        delivered(frames.take(j)) == delivered(frames).take(delivered(frames.take(j)).len() as int),
        j < frames.len() ==> delivered(frames.take(j)).len() + frames[j].body.len() <= delivered(
            frames,
        ).len(),
    decreases frames.len() - j,
{
    if j == frames.len() {
        assert(frames.take(j) =~= frames);
        assert(delivered(frames).take(delivered(frames).len() as int) =~= delivered(frames));
    } else {
        let more = frames.take(j + 1);
        assert(more.drop_last() =~= frames.take(j));
        assert(more.last() == frames[j]);
        lemma_delivered_prefix(frames, j + 1);
        let part = delivered(frames.take(j));
        assert(part =~= delivered(more).take(part.len() as int));
        assert(part =~= delivered(frames).take(part.len() as int));
    }
}

/// Where a download stands after some of its responses. Let the first
/// response declare the size of the resource, and let the responses bring
/// the resource piece after piece. Then after the first `j` of them, `j`
/// at least 1, what they brought is collected, the size is known, and the
/// rest of the resource is owed.
pub proof fn lemma_resume_progress(resource: Seq<u8>, frames: Seq<FrameView>, j: int)
    requires
        resource.len() <= u32::MAX,
        frames.len() >= 1,
        frames[0].declared_length == resource.len(),
        delivered(frames) == resource,
        1 <= j <= frames.len(),
    ensures
        after(frames.take(j)) == (ControllerView {
            collected: delivered(frames.take(j)),
            known_total: Some(resource.len() as u32),
            remaining: (resource.len() - delivered(frames.take(j)).len()) as u32,
        }),
        after(frames.take(j - 1)).accepts(frames[j - 1]),
        after(frames.take(j)).wf(),
    decreases j,
{
    let now = frames.take(j);
    let before = frames.take(j - 1);
    assert(now.drop_last() =~= before);
    assert(now.last() == frames[j - 1]);
    lemma_delivered_prefix(frames, j - 1);
    lemma_delivered_prefix(frames, j);
    if j == 1 {
        assert(before =~= Seq::<FrameView>::empty());
        assert(delivered(before) =~= Seq::<u8>::empty());
    } else {
        lemma_resume_progress(resource, frames, j - 1);
    }
}

/// Resuming collects the resource. Let the first response declare the
/// size of the resource, and let the responses of one connection after the
/// other bring it piece after piece, no piece empty. Then each response is
/// one that the accounting takes in; the download is not done before the
/// last of them, and from the second on each request asks for the range
/// from the first byte not yet collected to the size; after the last, the
/// download is done and what was collected is the resource, byte for byte.
pub proof fn lemma_resume_accounting(resource: Seq<u8>, frames: Seq<FrameView>)
    requires
        resource.len() <= u32::MAX,
        frames.len() >= 1,
        frames[0].declared_length == resource.len(),
        delivered(frames) == resource,
        forall|i: int| 0 <= i < frames.len() ==> (#[trigger] frames[i]).body.len() > 0,
    ensures
        forall|j: int|
            0 <= j < frames.len() ==> {
                &&& (#[trigger] after(frames.take(j))).accepts(frames[j])
                &&& !after(frames.take(j)).done()
            },
        forall|j: int|
            1 <= j < frames.len() ==> (#[trigger] after(frames.take(j))).next_range() == Some(
                ByteRange {
                    begin_index: delivered(frames.take(j)).len() as u32,
                    end_index: resource.len() as u32,
                },
            ),
        after(frames).done(),
        after(frames).collected == resource,
{
    assert forall|j: int| 0 <= j < frames.len() implies {
        &&& (#[trigger] after(frames.take(j))).accepts(frames[j])
        &&& !after(frames.take(j)).done()
    } by {
        lemma_resume_progress(resource, frames, j + 1);
        lemma_delivered_prefix(frames, j);
        if j >= 1 {
            lemma_resume_progress(resource, frames, j);
        } else {
            assert(frames.take(0) =~= Seq::<FrameView>::empty());
        }
    }
    assert forall|j: int| 1 <= j < frames.len() implies (#[trigger] after(
        frames.take(j),
    )).next_range() == Some(
        ByteRange {
            begin_index: delivered(frames.take(j)).len() as u32,
            end_index: resource.len() as u32,
        },
    ) by {
        lemma_resume_progress(resource, frames, j);
        lemma_delivered_prefix(frames, j);
    }
    lemma_resume_progress(resource, frames, frames.len() as int);
    assert(frames.take(frames.len() as int) =~= frames);
}

} // verus!
