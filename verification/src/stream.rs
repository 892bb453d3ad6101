//! Cutting a stream of fixed-size reads into record-aligned chunks.
//!
//! The scanner holds back what it has read until it knows where the last
//! record in it ends: a read is handed on only after the next read has
//! supplied the rest of its last record.

use vstd::prelude::*;
use vstd::slice::{slice_subrange, slice_to_vec};
use crate::separator::{find_byte, first_index, lemma_first_index_found, RECORD_SEPARATOR};

verus! {

/// Whether `s` ends with a record separator.
pub open spec fn ends_record(s: Seq<u8>) -> bool {
    s.len() > 0 && s.last() == RECORD_SEPARATOR
}

/// The chunk that is handed on when `read` arrives while `pending` is held
/// back: none while nothing is held back; what is held back, if it ends
/// with a separator; else what is held back together with the head of
/// `read` up to and including its first separator; none if `read` has no
/// separator.
pub open spec fn emitted_by(pending: Seq<u8>, read: Seq<u8>) -> Option<Seq<u8>> {
    let n = first_index(read, RECORD_SEPARATOR) as int;
    if pending.len() == 0 {
        None
    } else if ends_record(pending) {
        Some(pending)
    } else if n < read.len() {
        Some(pending + read.take(n + 1))
    } else {
        None
    }
}

/// What is held back after `read` arrived while `pending` was held back.
pub open spec fn pending_after(pending: Seq<u8>, read: Seq<u8>) -> Seq<u8> {
    let n = first_index(read, RECORD_SEPARATOR) as int;
    if pending.len() == 0 || ends_record(pending) {
        read
    } else if n < read.len() {
        read.skip(n + 1)
    } else {
        pending + read
    }
}

/// All the chunks that come out when the reads `reads` arrive in turn and
/// the stream then ends, `pending` being held back at the start.
pub open spec fn stream_chunks(pending: Seq<u8>, reads: Seq<Seq<u8>>) -> Seq<Seq<u8>>
    decreases reads.len(),
{
    if reads.len() == 0 {
        if pending.len() > 0 {
            seq![pending]
        } else {
            seq![]
        }
    } else {
        let head = match emitted_by(pending, reads[0]) {
            Some(chunk) => seq![chunk],
            None => seq![],
        };
        head + stream_chunks(pending_after(pending, reads[0]), reads.skip(1))
    }
}

/// The byte strings `parts` one after the other.
pub open spec fn concat(parts: Seq<Seq<u8>>) -> Seq<u8>
    decreases parts.len(),
{
    if parts.len() == 0 {
        seq![]
    } else {
        parts[0] + concat(parts.skip(1))
    }
}

/// The views of a list of byte vectors.
pub open spec fn views(parts: Seq<Vec<u8>>) -> Seq<Seq<u8>> {
    parts.map_values(|v: Vec<u8>| v@)
}

/// The view of an optional byte vector.
pub open spec fn option_view(chunk: Option<Vec<u8>>) -> Option<Seq<u8>> {
    match chunk {
        Some(v) => Some(v@),
        None => None,
    }
}

/// One step loses and repeats nothing: the chunk handed on, followed by
/// what is held back afterwards, is what was held back followed by the read.
pub proof fn lemma_step_covers(pending: Seq<u8>, read: Seq<u8>)
    ensures
        (match emitted_by(pending, read) {
            Some(chunk) => chunk + pending_after(pending, read),
            None => pending_after(pending, read),
        }) == pending + read,
        emitted_by(pending, read).is_some() ==> ends_record(emitted_by(pending, read).unwrap()),
{
    let n = first_index(read, RECORD_SEPARATOR) as int;
    lemma_first_index_found(read, RECORD_SEPARATOR);
    if pending.len() == 0 {
        assert(pending + read =~= read);
    } else if ends_record(pending) {
    } else if n < read.len() {
        assert((pending + read.take(n + 1)) + read.skip(n + 1) =~= pending + read);
        assert((pending + read.take(n + 1)).last() == read[n]);
    } else {
    }
}

/// The chunks of a stream, one after the other, are the stream: what was
/// held back at the start followed by all the reads in their order.
pub proof fn lemma_stream_covers(pending: Seq<u8>, reads: Seq<Seq<u8>>)
    ensures
        concat(stream_chunks(pending, reads)) == pending + concat(reads),
    decreases reads.len(),
{
    if reads.len() == 0 {
        if pending.len() > 0 {
            let one = seq![pending];
            assert(one.skip(1) =~= Seq::<Seq<u8>>::empty());
            assert(concat(one.skip(1)) =~= Seq::<u8>::empty());
            assert(concat(one) == one[0] + concat(one.skip(1)));
            assert(concat(one) =~= pending);
        } else {
            assert(pending + concat(reads) =~= Seq::<u8>::empty());
        }
    } else {
        let next = pending_after(pending, reads[0]);
        let tail = stream_chunks(next, reads.skip(1));
        lemma_stream_covers(next, reads.skip(1));
        lemma_step_covers(pending, reads[0]);
        match emitted_by(pending, reads[0]) {
            Some(chunk) => {
                assert((seq![chunk] + tail).skip(1) =~= tail);
                assert(chunk + (next + concat(reads.skip(1))) =~= (chunk + next) + concat(
                    reads.skip(1),
                ));
            },
            None => {
                assert(Seq::<Seq<u8>>::empty() + tail =~= tail);
            },
        }
        assert(pending + (reads[0] + concat(reads.skip(1))) =~= (pending + reads[0]) + concat(
            reads.skip(1),
        ));
    }
}

/// No chunk of a stream is empty, and every chunk but the last ends with a
/// record separator.
pub proof fn lemma_stream_aligned(pending: Seq<u8>, reads: Seq<Seq<u8>>, i: int)
    requires
        0 <= i < stream_chunks(pending, reads).len(),
    ensures
        stream_chunks(pending, reads)[i].len() > 0,
        i + 1 < stream_chunks(pending, reads).len() ==> ends_record(
            stream_chunks(pending, reads)[i],
        ),
    decreases reads.len(),
{
    if reads.len() > 0 {
        let next = pending_after(pending, reads[0]);
        let tail = stream_chunks(next, reads.skip(1));
        lemma_step_covers(pending, reads[0]);
        match emitted_by(pending, reads[0]) {
            Some(chunk) => {
                if i > 0 {
                    lemma_stream_aligned(next, reads.skip(1), i - 1);
                    assert((seq![chunk] + tail)[i] == tail[i - 1]);
                }
            },
            None => {
                assert(Seq::<Seq<u8>>::empty() + tail =~= tail);
                lemma_stream_aligned(next, reads.skip(1), i);
            },
        }
    }
}

/// The scanner's state between two reads: the bytes that were read and not
/// yet handed on.
pub struct StreamScanner {
    pending: Vec<u8>,
}

impl View for StreamScanner {
    type V = Seq<u8>;

    closed spec fn view(&self) -> Seq<u8> {
        self.pending@
    }
}

impl StreamScanner {
    /// The scanner before the first read: nothing is held back.
    pub fn new() -> (scanner: StreamScanner)
        ensures
            scanner@ == Seq::<u8>::empty(),
    {
        StreamScanner { pending: Vec::new() }
    }

    /// Takes the bytes of one read, and hands on a chunk if one is now
    /// complete. `read` holds exactly the bytes that the read delivered.
    pub fn push(&mut self, read: &[u8]) -> (chunk: Option<Vec<u8>>)
        ensures
            option_view(chunk) == emitted_by(old(self)@, read@),
            final(self)@ == pending_after(old(self)@, read@),
    {
        let held = self.pending.len();
        if held == 0 || self.pending[held - 1] == RECORD_SEPARATOR {
            let mut chunk = slice_to_vec(read);
            std::mem::swap(&mut self.pending, &mut chunk);
            if held == 0 {
                None
            } else {
                Some(chunk)
            }
        } else {
            let at = find_byte(read, 0, RECORD_SEPARATOR);
            assert(read@.skip(0) =~= read@);
            if at < read.len() {
                let mut chunk = slice_to_vec(slice_subrange(read, at + 1, read.len()));
                std::mem::swap(&mut self.pending, &mut chunk);
                let head = slice_subrange(read, 0, at + 1);
                chunk.extend_from_slice(head);
                assert(chunk@ =~= old(self)@ + read@.take(at + 1));
                assert(self@ =~= read@.skip(at + 1));
                Some(chunk)
            } else {
                self.pending.extend_from_slice(read);
                assert(self@ =~= old(self)@ + read@);
                None
            }
        }
    }

    /// Ends the stream: what is still held back is the last chunk, whether
    /// or not it ends with a separator; no chunk if nothing is held back.
    pub fn finish(self) -> (chunk: Option<Vec<u8>>)
        ensures
            option_view(chunk) == (if self@.len() > 0 {
                Some(self@)
            } else {
                None
            }),
    {
        if self.pending.len() > 0 {
            Some(self.pending)
        } else {
            None
        }
    }
}

/// Cuts the stream that delivered `reads`, in this order, into chunks.
pub fn chunk_reads(reads: &Vec<Vec<u8>>) -> (chunks: Vec<Vec<u8>>)
    ensures
        views(chunks@) == stream_chunks(Seq::empty(), views(reads@)),
        concat(views(chunks@)) == concat(views(reads@)),
{
    let mut scanner = StreamScanner::new();
    let mut chunks: Vec<Vec<u8>> = Vec::new();
    let mut i: usize = 0;
    assert(views(chunks@) =~= Seq::<Seq<u8>>::empty());
    assert(views(reads@).skip(0) =~= views(reads@));
    while i < reads.len()
        invariant
            i <= reads.len(),
            views(chunks@) + stream_chunks(scanner@, views(reads@).skip(i as int)) == stream_chunks(
                Seq::empty(),
                views(reads@),
            ),
        decreases reads.len() - i,
    {
        let ghost done = views(chunks@);
        let ghost held = scanner@;
        let ghost rest = views(reads@).skip(i as int);
        assert(rest[0] == reads[i as int]@);
        assert(rest.skip(1) =~= views(reads@).skip(i + 1));
        let chunk = scanner.push(reads[i].as_slice());
        match chunk {
            Some(chunk) => {
                chunks.push(chunk);
                assert(views(chunks@) =~= done + seq![chunk@]);
                assert(done + (seq![chunk@] + stream_chunks(scanner@, rest.skip(1))) =~= (done
                    + seq![chunk@]) + stream_chunks(scanner@, rest.skip(1)));
            },
            None => {
                assert(Seq::<Seq<u8>>::empty() + stream_chunks(scanner@, rest.skip(1))
                    =~= stream_chunks(scanner@, rest.skip(1)));
            },
        }
        i += 1;
    }
    let ghost done = views(chunks@);
    let ghost held = scanner@;
    assert(views(reads@).skip(i as int) =~= Seq::<Seq<u8>>::empty());
    match scanner.finish() {
        Some(chunk) => {
            chunks.push(chunk);
            assert(views(chunks@) =~= done + seq![held]);
        },
        None => {
            assert(done + Seq::<Seq<u8>>::empty() =~= done);
        },
    }
    proof {
        lemma_stream_covers(Seq::empty(), views(reads@));
        assert(Seq::<u8>::empty() + concat(views(reads@)) =~= concat(views(reads@)));
    }
    chunks
}

} // verus!
