//! Cutting a fully addressable byte region into record-aligned chunks.

use vstd::prelude::*;
use crate::separator::{find_byte, first_index, lemma_first_index_found, RECORD_SEPARATOR};

verus! {

/// A chunk of the region: the bytes from `start` up to, not including, `end`.
#[derive(Clone, Copy, Debug, PartialEq, Eq, Structural)]
pub struct Span {
    pub start: usize,
    pub end: usize,
}

/// Where the chunk that starts at `offset` ends: at the end of the input
/// when fewer than `stride` bytes are left, else just after the first record
/// separator at or after `offset + stride` (at the end of the input when no
/// separator follows).
pub open spec fn chunk_end_of(input: Seq<u8>, offset: int, stride: int) -> int {
    if offset + stride >= input.len() {
        input.len() as int
    } else {
        let at = offset + stride + first_index(input.skip(offset + stride), RECORD_SEPARATOR);
        if at < input.len() {
            at + 1
        } else {
            input.len() as int
        }
    }
}

/// The chunks of `input` from `offset` on, in input order.
pub open spec fn chunks_from(input: Seq<u8>, offset: int, stride: int) -> Seq<(int, int)>
    decreases input.len() - offset,
{
    if 0 <= offset < input.len() && stride >= 0 {
        let end = chunk_end_of(input, offset, stride);
        if offset < end <= input.len() {
            seq![(offset, end)] + chunks_from(input, end, stride)
        } else {
            seq![]
        }
    } else {
        seq![]
    }
}

/// The bytes that the spans `chunks` select from `input`, one after the other.
pub open spec fn concat_spans(input: Seq<u8>, chunks: Seq<(int, int)>) -> Seq<u8>
    decreases chunks.len(),
{
    if chunks.len() == 0 {
        seq![]
    } else {
        input.subrange(chunks[0].0, chunks[0].1) + concat_spans(input, chunks.skip(1))
    }
}

/// The view of a list of spans: pairs of mathematical integers.
pub open spec fn spans_view(chunks: Seq<Span>) -> Seq<(int, int)> {
    chunks.map_values(|c: Span| (c.start as int, c.end as int))
}

/// A chunk that starts inside the input is not empty, stays inside the
/// input, and ends at the end of the input or just after a record separator.
pub proof fn lemma_chunk_end(input: Seq<u8>, offset: int, stride: int)
    requires
        0 <= offset < input.len(),
        stride >= 0,
    ensures
        offset < chunk_end_of(input, offset, stride) <= input.len(),
        offset + stride <= chunk_end_of(input, offset, stride) || chunk_end_of(
            input,
            offset,
            stride,
        ) == input.len(),
        chunk_end_of(input, offset, stride) == input.len() || input[chunk_end_of(
            input,
            offset,
            stride,
        ) - 1] == RECORD_SEPARATOR,
{
    if offset + stride < input.len() {
        let tail = input.skip(offset + stride);
        lemma_first_index_found(tail, RECORD_SEPARATOR);
        let n = first_index(tail, RECORD_SEPARATOR);
        if n < tail.len() {
            assert(tail[n as int] == input[offset + stride + n]);
        }
    }
}

/// The chunks cover the input: each starts where the one before it ended,
/// the first at `offset`, and together they hold every byte from `offset`
/// to the end exactly once and in order.
pub proof fn lemma_chunks_cover(input: Seq<u8>, offset: int, stride: int)
    requires
        0 <= offset <= input.len(),
        stride >= 0,
    ensures
        concat_spans(input, chunks_from(input, offset, stride)) == input.skip(offset),
    decreases input.len() - offset,
{
    let chunks = chunks_from(input, offset, stride);
    if offset < input.len() {
        lemma_chunk_end(input, offset, stride);
        let end = chunk_end_of(input, offset, stride);
        lemma_chunks_cover(input, end, stride);
        assert(chunks.skip(1) =~= chunks_from(input, end, stride));
        assert(input.subrange(offset, end) + input.skip(end) =~= input.skip(offset));
    } else {
        assert(input.skip(offset) =~= seq![]);
    }
}

/// Every chunk but the last ends just after a record separator, none is
/// empty, and each starts where the one before it ended.
pub proof fn lemma_chunks_aligned(input: Seq<u8>, offset: int, stride: int, i: int)
    requires
        0 <= offset <= input.len(),
        stride >= 0,
        0 <= i < chunks_from(input, offset, stride).len(),
    ensures
        ({
            let chunks = chunks_from(input, offset, stride);
            &&& offset <= chunks[i].0 < chunks[i].1 <= input.len()
            &&& i == 0 ==> chunks[i].0 == offset
            &&& i > 0 ==> chunks[i].0 == chunks[i - 1].1
            &&& i + 1 < chunks.len() ==> input[chunks[i].1 - 1] == RECORD_SEPARATOR
            &&& i + 1 == chunks.len() ==> chunks[i].1 == input.len()
            &&& chunks[i].1 == chunk_end_of(input, chunks[i].0, stride)
        }),
    decreases i,
{
    let chunks = chunks_from(input, offset, stride);
    lemma_chunk_end(input, offset, stride);
    let end = chunk_end_of(input, offset, stride);
    let rest = chunks_from(input, end, stride);
    assert(chunks.skip(1) =~= rest);
    if i == 0 {
        if chunks.len() > 1 {
            assert(rest.len() > 0);
        }
    } else {
        lemma_chunks_aligned(input, end, stride, i - 1);
        assert(chunks[i] == rest[i - 1]);
        if i == 1 {
            assert(chunks[0].1 == end);
        } else {
            assert(chunks[i - 1] == rest[i - 2]);
        }
    }
}

/// The end of the chunk of `input` that starts at `offset`, for the nominal
/// chunk length `stride`.
pub fn chunk_end(input: &[u8], offset: usize, stride: usize) -> (end: usize)
    requires
        offset <= input.len(),
    ensures
        end == chunk_end_of(input@, offset as int, stride as int),
{
    if stride >= input.len() - offset {
        input.len()
    } else {
        let at = find_byte(input, offset + stride, RECORD_SEPARATOR);
        if at < input.len() {
            at + 1
        } else {
            input.len()
        }
    }
}

/// Cuts `input` into chunks of about `stride` bytes that hold only whole
/// records.
pub fn split_chunks(input: &[u8], stride: usize) -> (chunks: Vec<Span>)
    ensures
        spans_view(chunks@) == chunks_from(input@, 0, stride as int),
        concat_spans(input@, spans_view(chunks@)) == input@,
{
    let mut chunks: Vec<Span> = Vec::new();
    let mut offset: usize = 0;
    while offset < input.len()
        invariant
            offset <= input.len(),
            spans_view(chunks@) + chunks_from(input@, offset as int, stride as int)
                == chunks_from(input@, 0, stride as int),
        decreases input.len() - offset,
    {
        let end = chunk_end(input, offset, stride);
        proof {
            lemma_chunk_end(input@, offset as int, stride as int);
            let ghost before = spans_view(chunks@);
            let ghost here = chunks_from(input@, offset as int, stride as int);
            assert(here == seq![(offset as int, end as int)] + chunks_from(
                input@,
                end as int,
                stride as int,
            ));
            assert(spans_view(chunks@.push(Span { start: offset, end })) =~= before + seq![
                (offset as int, end as int),
            ]);
            assert(before + here =~= before + seq![(offset as int, end as int)] + chunks_from(
                input@,
                end as int,
                stride as int,
            ));
        }
        chunks.push(Span { start: offset, end });
        offset = end;
    }
    proof {
        assert(chunks_from(input@, offset as int, stride as int) =~= seq![]);
        assert(spans_view(chunks@) + seq![] =~= spans_view(chunks@));
        lemma_chunks_cover(input@, 0, stride as int);
        assert(input@.skip(0) =~= input@);
    }
    chunks
}

} // verus!
