//! What holds of framing, whatever the reads: a stream made of a header, the
//! delimiter and a body is told apart at the delimiter however it was cut
//! into reads, as long as no cut falls inside the delimiter.

use vstd::prelude::*;
use crate::bytes::{contains, find, first_at, lemma_find, occurs_at};
use crate::framer::{truncate, FrameErrorView, FrameView};
use crate::header::{
    declared_length, delimiter, header_lines, lemma_lines_without_field, length_field, line_break,
};
use crate::stream::{frame_of, live_reads, lemma_split_point_bounds, split_point};

verus! {

/// How many bytes of the stream come before read number `k`.
pub open spec fn offset_of(reads: Seq<Seq<u8>>, k: int) -> int {
    reads.take(k).flatten().len() as int
}

/// The `len` bytes of the stream from offset `from` on all lie in read number `k`.
pub open spec fn lies_in_read(reads: Seq<Seq<u8>>, k: int, from: int, len: int) -> bool {
    &&& 0 <= k < reads.len()
    &&& offset_of(reads, k) <= from
    &&& from + len <= offset_of(reads, k) + reads[k].len()
}

/// The `len` bytes of the stream from offset `from` on were not cut apart:
/// they came in one read.
pub open spec fn within_one_read(reads: Seq<Seq<u8>>, from: int, len: int) -> bool {
    exists|k: int| lies_in_read(reads, k, from, len)
}

/// `text` ends in `suffix`.
pub open spec fn ends_with(text: Seq<u8>, suffix: Seq<u8>) -> bool {
    occurs_at(text, suffix, text.len() - suffix.len())
}

/// No read is empty.
pub open spec fn all_nonempty(reads: Seq<Seq<u8>>) -> bool {
    forall|i: int| 0 <= i < reads.len() ==> (#[trigger] reads[i]).len() > 0
}

/// Reads of which none is empty all count.
pub proof fn lemma_all_live(reads: Seq<Seq<u8>>)
    requires
        all_nonempty(reads),
    ensures
        live_reads(reads) == reads,
    decreases reads.len(),
{
    if reads.len() > 0 {
        let rest = reads.drop_first();
        assert forall|i: int| 0 <= i < rest.len() implies (#[trigger] rest[i]).len() > 0 by {
            assert(rest[i] == reads[i + 1]);
        }
        lemma_all_live(rest);
        assert(seq![reads[0]] + rest =~= reads);
    } else {
        assert(live_reads(reads) =~= reads);
    }
}

/// The stream is the first read, then the stream of the others.
pub proof fn lemma_stream_unfold(reads: Seq<Seq<u8>>)
    requires
        reads.len() > 0,
    ensures
        reads.flatten() == reads[0] + reads.drop_first().flatten(),
{
}

/// Past the first read, offsets are those among the other reads, moved on
/// by the first read's length.
pub proof fn lemma_offset_shift(reads: Seq<Seq<u8>>, k: int)
    requires
        1 <= k <= reads.len(),
    ensures
        offset_of(reads, k) == reads[0].len() + offset_of(reads.drop_first(), k - 1),
{
    let front = reads.take(k);
    assert(front.drop_first() =~= reads.drop_first().take(k - 1));
    assert(front[0] == reads[0]);
    lemma_stream_unfold(front);
}

/// The split point is a place where the delimiter stands in the stream.
pub proof fn lemma_split_point_occurs(reads: Seq<Seq<u8>>)
    ensures
        split_point(reads) matches Some(at) ==> occurs_at(reads.flatten(), delimiter(), at),
    decreases reads.len(),
{
    if reads.len() > 0 {
        let first = reads[0];
        let later = reads.drop_first().flatten();
        let stream = reads.flatten();
        lemma_find(first, delimiter());
        lemma_split_point_occurs(reads.drop_first());
        lemma_split_point_bounds(reads);
        assert(delimiter().len() == 4);
        match split_point(reads) {
            None => {},
            Some(at) => {
                if find(first, delimiter()) is Some {
                    assert(stream.subrange(at, at + 4) =~= first.subrange(at, at + 4));
                } else {
                    let inner = at - first.len();
                    assert(stream.subrange(at, at + 4) =~= later.subrange(inner, inner + 4));
                }
            },
        }
    }
}

/// Where the leftmost delimiter of the stream came in one read, it is the split point.
pub proof fn lemma_split_point_is(reads: Seq<Seq<u8>>, at: int, k: int)
    requires
        first_at(reads.flatten(), delimiter(), at),
        lies_in_read(reads, k, at, 4),
    ensures
        split_point(reads) == Some(at),
    decreases reads.len(),
{
    let first = reads[0];
    let rest = reads.drop_first();
    let later = rest.flatten();
    let stream = reads.flatten();
    assert(delimiter().len() == 4);
    assert(stream == first + later);
    lemma_find(first, delimiter());
    if k == 0 {
        assert(reads.take(0).flatten() =~= Seq::<u8>::empty());
        assert(first.subrange(at, at + 4) =~= stream.subrange(at, at + 4));
        assert(occurs_at(first, delimiter(), at));
        let found = find(first, delimiter())->0;
        assert(stream.subrange(found, found + 4) =~= first.subrange(found, found + 4));
        assert(occurs_at(stream, delimiter(), found));
    } else {
        lemma_offset_shift(reads, k);
        assert(offset_of(rest, k - 1) >= 0);
        let inner = at - first.len();
        if find(first, delimiter()) is Some {
            let found = find(first, delimiter())->0;
            assert(stream.subrange(found, found + 4) =~= first.subrange(found, found + 4));
            assert(occurs_at(stream, delimiter(), found));
        }
        assert(later.subrange(inner, inner + 4) =~= stream.subrange(at, at + 4));
        assert forall|j: int| 0 <= j < inner implies !occurs_at(later, delimiter(), j) by {
            if occurs_at(later, delimiter(), j) {
                assert(stream.subrange(first.len() + j, first.len() + j + 4) =~= later.subrange(
                    j,
                    j + 4,
                ));
                assert(occurs_at(stream, delimiter(), first.len() + j));
            }
        }
        assert(rest[k - 1] == reads[k]);
        lemma_split_point_is(rest, inner, k - 1);
    }
}

/// A header that holds no delimiter and does not end in a line break is
/// followed by the first delimiter of the stream.
pub proof fn lemma_delimiter_after_header(header: Seq<u8>)
    requires
        !contains(header, delimiter()),
        !ends_with(header, line_break()),
    ensures
        first_at(header + delimiter(), delimiter(), header.len() as int),
{
    let text = header + delimiter();
    let n = header.len() as int;
    assert(delimiter().len() == 4);
    assert(line_break().len() == 2);
    assert(text.subrange(n, n + 4) =~= delimiter());
    assert forall|j: int| 0 <= j < n implies !occurs_at(text, delimiter(), j) by {
        if occurs_at(text, delimiter(), j) {
            let seen = text.subrange(j, j + 4);
            assert(seen[0] == 13 && seen[1] == 10 && seen[2] == 13 && seen[3] == 10);
            if j + 4 <= n {
                assert(header.subrange(j, j + 4) =~= seen);
                assert(occurs_at(header, delimiter(), j));
            } else if j == n - 2 {
                assert(header.subrange(n - 2, n) =~= line_break());
            } else if j == n - 1 {
                assert(seen[1] == text[n]);
            } else {
                assert(seen[3] == text[n]);
            }
        }
    }
}

/// The general law of framing. Let the reads that count carry a header,
/// then the delimiter, then anything; let that delimiter be the first of
/// the stream and have come in one read. Then the header alone decides
/// between the format error and a frame, and the frame holds the declared
/// length and, of what followed the delimiter, at most that many bytes.
pub proof fn lemma_framed(reads: Seq<Seq<u8>>, header: Seq<u8>, rest: Seq<u8>)
    requires
        live_reads(reads).flatten() == header + delimiter() + rest,
        first_at(header + delimiter(), delimiter(), header.len() as int),
        within_one_read(live_reads(reads), header.len() as int, 4),
    ensures
        frame_of(reads) == match declared_length(header) {
            Err(value) => Err(FrameErrorView::Format { value }),
            Ok(n) => Ok(FrameView { declared_length: n, body: truncate(rest, n as int) }),
        },
{
    let live = live_reads(reads);
    let stream = live.flatten();
    let n = header.len() as int;
    let text = header + delimiter();
    assert(delimiter().len() == 4);
    assert(stream.subrange(n, n + 4) =~= text.subrange(n, n + 4));
    assert forall|j: int| 0 <= j < n implies !occurs_at(stream, delimiter(), j) by {
        if occurs_at(stream, delimiter(), j) {
            assert(stream.subrange(j, j + 4) =~= text.subrange(j, j + 4));
            assert(occurs_at(text, delimiter(), j));
        }
    }
    let k = choose|k: int| lies_in_read(live, k, n, 4);
    lemma_split_point_is(live, n, k);
    assert(stream.take(n) =~= header);
    assert(stream.skip(n + 4) =~= rest);
}

/// Header and body are told apart however the stream was cut into reads.
/// Take a header that holds no delimiter, does not end in a line break and
/// declares the length of `body`; lay header, delimiter and body end to end
/// and cut them into non-empty reads, with no cut inside the delimiter.
/// The reads come to the frame of that length and that body.
pub proof fn lemma_whole_body_framed(reads: Seq<Seq<u8>>, header: Seq<u8>, body: Seq<u8>)
    requires
        !contains(header, delimiter()),
        !ends_with(header, line_break()),
        declared_length(header) == Ok::<u32, Seq<u8>>(body.len() as u32),
        body.len() <= u32::MAX,
        all_nonempty(reads),
        reads.flatten() == header + delimiter() + body,
        within_one_read(reads, header.len() as int, 4),
    ensures
        frame_of(reads) == Ok::<FrameView, FrameErrorView>(
            FrameView { declared_length: body.len() as u32, body },
        ),
{
    lemma_all_live(reads);
    lemma_delimiter_after_header(header);
    lemma_framed(reads, header, body);
}

/// A body cut short is no error. Where the reads that count carry the
/// header, the delimiter and fewer body bytes than the header declares,
/// they come to the frame of the declared length with just those bytes.
pub proof fn lemma_partial_body_framed(
    reads: Seq<Seq<u8>>,
    header: Seq<u8>,
    arrived: Seq<u8>,
    declared: u32,
)
    requires
        !contains(header, delimiter()),
        !ends_with(header, line_break()),
        declared_length(header) == Ok::<u32, Seq<u8>>(declared),
        arrived.len() < declared,
        live_reads(reads).flatten() == header + delimiter() + arrived,
        within_one_read(live_reads(reads), header.len() as int, 4),
    ensures
        frame_of(reads) == Ok::<FrameView, FrameErrorView>(
            FrameView { declared_length: declared, body: arrived },
        ),
{
    lemma_delimiter_after_header(header);
    lemma_framed(reads, header, arrived);
}

/// A header without a length field declares an empty body. Where no line of
/// the header is a length field, the reads come to the frame of length 0
/// with no body, whatever follows the delimiter.
pub proof fn lemma_missing_length_frames_nothing(
    reads: Seq<Seq<u8>>,
    header: Seq<u8>,
    trailing: Seq<u8>,
)
    requires
        !contains(header, delimiter()),
        !ends_with(header, line_break()),
        forall|i: int|
            0 <= i < header_lines(header).len() ==> length_field(
                #[trigger] header_lines(header)[i],
            ) is None,
        live_reads(reads).flatten() == header + delimiter() + trailing,
        within_one_read(live_reads(reads), header.len() as int, 4),
    ensures
        frame_of(reads) == Ok::<FrameView, FrameErrorView>(
            FrameView { declared_length: 0, body: Seq::empty() },
        ),
{
    lemma_lines_without_field(header_lines(header), 0);
    lemma_delimiter_after_header(header);
    lemma_framed(reads, header, trailing);
    assert(truncate(trailing, 0) =~= Seq::<u8>::empty());
}

/// A stream that ends before a delimiter appears is a protocol error, and
/// the error carries all of the stream as header text.
pub proof fn lemma_no_delimiter_is_protocol_error(reads: Seq<Seq<u8>>)
    requires
        !contains(live_reads(reads).flatten(), delimiter()),
    ensures
        frame_of(reads) == Err::<FrameView, FrameErrorView>(
            FrameErrorView::Protocol { header: live_reads(reads).flatten() },
        ),
{
    lemma_split_point_occurs(live_reads(reads));
}

/// Reads of which none holds a whole delimiter have no split point.
pub proof fn lemma_no_whole_delimiter(reads: Seq<Seq<u8>>)
    requires
        forall|k: int| 0 <= k < reads.len() ==> !contains(#[trigger] reads[k], delimiter()),
    ensures
        split_point(reads) is None,
    decreases reads.len(),
{
    if reads.len() > 0 {
        let rest = reads.drop_first();
        assert(!contains(reads[0], delimiter()));
        assert forall|k: int| 0 <= k < rest.len() implies !contains(
            #[trigger] rest[k],
            delimiter(),
        ) by {
            assert(rest[k] == reads[k + 1]);
        }
        lemma_no_whole_delimiter(rest);
    }
}

/// A delimiter that was cut apart is not seen. Where none of the reads that
/// count holds a whole delimiter, the reads come to the protocol error,
/// whatever the stream that they carry holds.
pub proof fn lemma_cut_delimiter_is_missed(reads: Seq<Seq<u8>>)
    requires
        forall|k: int|
            0 <= k < live_reads(reads).len() ==> !contains(
                #[trigger] live_reads(reads)[k],
                delimiter(),
            ),
    ensures
        frame_of(reads) == Err::<FrameView, FrameErrorView>(
            FrameErrorView::Protocol { header: live_reads(reads).flatten() },
        ),
{
    lemma_no_whole_delimiter(live_reads(reads));
}

} // verus!
