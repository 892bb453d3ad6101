//! Folding the summaries of the chunks into one, and why the result does
//! not depend on where the input was cut.

use vstd::prelude::*;
use vstd::slice::slice_subrange;
use crate::separator::{first_index, lemma_first_index_found, lemma_first_index_unique, RECORD_SEPARATOR};
use crate::record::{after_first_line, aggregate, apply_line, fold_records, is_malformed, lemma_rejected_shift, parse_chunk, rejected_from, shifted, Parsed};
use crate::region::{chunk_end, chunks_from, concat_spans, lemma_chunk_end, lemma_chunks_aligned, lemma_chunks_cover, spans_view, Span};
use crate::stats::Summary;
use crate::stream::{chunk_reads, concat, ends_record, lemma_stream_aligned, lemma_stream_covers, stream_chunks, views};
use crate::table::{bounded, lemma_merge_all_any_order, lemma_merge_all_concat, lemma_merge_associates, lemma_merge_empty, merge_all, merge_tables, Table};

verus! {

/// `s` can stand before a cut: it is empty or ends with a record separator.
pub open spec fn closed(s: Seq<u8>) -> bool {
    s.len() == 0 || ends_record(s)
}

/// The fold of the summaries of `chunks`, each chunk summarised on its own.
pub open spec fn merged(chunks: Seq<Seq<u8>>) -> Map<Seq<u8>, Summary>
    decreases chunks.len(),
{
    if chunks.len() == 0 {
        Map::empty()
    } else {
        merge_tables(aggregate(chunks[0]), merged(chunks.skip(1)))
    }
}

/// Folding a line into a mapping is merging the mapping with the summary
/// of that line alone.
pub proof fn lemma_apply_line(acc: Map<Seq<u8>, Summary>, line: Seq<u8>)
    requires
        bounded(acc),
    ensures
        bounded(apply_line(acc, line)),
        apply_line(acc, line) == merge_tables(acc, apply_line(Map::empty(), line)),
{
    assert(apply_line(acc, line) =~= merge_tables(acc, apply_line(Map::empty(), line)));
}

/// Folding records into a mapping is merging the mapping with the summary
/// of those records alone.
pub proof fn lemma_fold_from(s: Seq<u8>, acc: Map<Seq<u8>, Summary>)
    requires
        bounded(acc),
    ensures
        bounded(fold_records(s, acc)),
        fold_records(s, acc) == merge_tables(acc, aggregate(s)),
    decreases s.len(),
{
    if s.len() == 0 {
        lemma_merge_empty(acc);
    } else {
        let line = s.take(first_index(s, RECORD_SEPARATOR) as int);
        let rest = after_first_line(s);
        let alone = apply_line(Map::empty(), line);
        lemma_apply_line(acc, line);
        lemma_apply_line(Map::empty(), line);
        lemma_fold_from(rest, apply_line(acc, line));
        lemma_fold_from(rest, alone);
        lemma_merge_associates(acc, alone, aggregate(rest));
    }
}

/// Where `a` ends with a record separator, the records of `a` followed by
/// `b` are the records of `a` and then the records of `b`.
pub proof fn lemma_fold_concat(a: Seq<u8>, b: Seq<u8>, acc: Map<Seq<u8>, Summary>)
    requires
        closed(a),
    ensures
        fold_records(a + b, acc) == fold_records(b, fold_records(a, acc)),
    decreases a.len(),
{
    if a.len() == 0 {
        assert(a + b =~= b);
    } else {
        let n = first_index(a, RECORD_SEPARATOR) as int;
        lemma_first_index_found(a, RECORD_SEPARATOR);
        assert(n < a.len()) by {
            if n == a.len() {
                assert(a[a.len() - 1] != RECORD_SEPARATOR);
            }
        }
        assert forall|i: int| 0 <= i < n implies (a + b)[i] != RECORD_SEPARATOR by {
            assert((a + b)[i] == a[i]);
        }
        assert((a + b)[n] == a[n]);
        lemma_first_index_unique(a + b, RECORD_SEPARATOR, n);
        assert((a + b).take(n) =~= a.take(n));
        let rest = a.skip(n + 1);
        assert(after_first_line(a + b) =~= rest + b);
        assert(after_first_line(a) == rest);
        if rest.len() > 0 {
            assert(rest.last() == a.last());
        }
        lemma_fold_concat(rest, b, apply_line(acc, a.take(n)));
    }
}

/// Where `a` ends with a record separator, the malformed lines of `a`
/// followed by `b` are those of `a` and then those of `b`.
pub proof fn lemma_rejected_concat(a: Seq<u8>, b: Seq<u8>, base: int)
    requires
        closed(a),
    ensures
        rejected_from(a + b, base) == rejected_from(a, base) + rejected_from(b, base + a.len()),
    decreases a.len(),
{
    if a.len() == 0 {
        assert(a + b =~= b);
        assert(rejected_from(a, base) + rejected_from(b, base) =~= rejected_from(b, base));
    } else {
        let n = first_index(a, RECORD_SEPARATOR) as int;
        lemma_first_index_found(a, RECORD_SEPARATOR);
        assert(n < a.len()) by {
            if n == a.len() {
                assert(a[a.len() - 1] != RECORD_SEPARATOR);
            }
        }
        assert forall|i: int| 0 <= i < n implies (a + b)[i] != RECORD_SEPARATOR by {
            assert((a + b)[i] == a[i]);
        }
        assert((a + b)[n] == a[n]);
        lemma_first_index_unique(a + b, RECORD_SEPARATOR, n);
        assert((a + b).take(n) =~= a.take(n));
        let rest = a.skip(n + 1);
        assert(after_first_line(a + b) =~= rest + b);
        assert(after_first_line(a) == rest);
        if rest.len() > 0 {
            assert(rest.last() == a.last());
        }
        lemma_rejected_concat(rest, b, base + n + 1);
        let here = if is_malformed(a.take(n)) {
            seq![(base, base + n)]
        } else {
            seq![]
        };
        assert(rejected_from(a + b, base) == here + rejected_from(rest + b, base + n + 1));
        assert(rejected_from(a, base) == here + rejected_from(rest, base + n + 1));
        assert(here + (rejected_from(rest, base + n + 1) + rejected_from(b, base + a.len())) =~= (
        here + rejected_from(rest, base + n + 1)) + rejected_from(b, base + a.len()));
    }
}

/// The malformed lines of `chunks`, each chunk read on its own, as
/// positions in the text that starts at `base` with the first chunk and
/// goes on with the others.
pub open spec fn rejected_in(chunks: Seq<Seq<u8>>, base: int) -> Seq<(int, int)>
    decreases chunks.len(),
{
    if chunks.len() == 0 {
        seq![]
    } else {
        rejected_from(chunks[0], base) + rejected_in(chunks.skip(1), base + chunks[0].len())
    }
}

/// Where every chunk but the last ends with a record separator, the
/// malformed lines of the chunks are those of the chunks put together.
pub proof fn lemma_rejected_in_is_rejected(chunks: Seq<Seq<u8>>, base: int)
    requires
        forall|i: int| 0 <= i < chunks.len() - 1 ==> closed(#[trigger] chunks[i]),
    ensures
        rejected_in(chunks, base) == rejected_from(concat(chunks), base),
    decreases chunks.len(),
{
    if chunks.len() > 0 {
        let rest = chunks.skip(1);
        assert forall|i: int| 0 <= i < rest.len() - 1 implies closed(#[trigger] rest[i]) by {
            assert(rest[i] == chunks[i + 1]);
        }
        lemma_rejected_in_is_rejected(rest, base + chunks[0].len());
        if rest.len() == 0 {
            assert(chunks[0] + concat(rest) =~= chunks[0]);
            assert(rejected_from(chunks[0], base) + rejected_in(rest, base + chunks[0].len())
                =~= rejected_from(chunks[0], base));
        } else {
            lemma_rejected_concat(chunks[0], concat(rest), base);
        }
    }
}

/// Appends to `out` the spans `spans`, each moved up by `by`.
pub fn append_shifted(out: &mut Vec<Span>, spans: &Vec<Span>, by: usize)
    requires
        forall|i: int|
            0 <= i < spans.len() ==> (#[trigger] spans[i]).start <= spans[i].end && spans[i].end
                + by <= usize::MAX,
    ensures
        spans_view(final(out)@) == spans_view(old(out)@) + shifted(spans_view(spans@), by as int),
{
    let mut i: usize = 0;
    assert(spans_view(out@) =~= spans_view(old(out)@) + shifted(spans_view(spans@), by as int).take(
        0,
    ));
    while i < spans.len()
        invariant
            i <= spans.len(),
            forall|j: int|
                0 <= j < spans.len() ==> (#[trigger] spans[j]).start <= spans[j].end
                    && spans[j].end + by <= usize::MAX,
            spans_view(out@) == spans_view(old(out)@) + shifted(
                spans_view(spans@),
                by as int,
            ).take(i as int),
        decreases spans.len() - i,
    {
        let ghost before = spans_view(out@);
        let moved = Span { start: spans[i].start + by, end: spans[i].end + by };
        out.push(moved);
        assert(spans_view(out@) =~= before + seq![(moved.start as int, moved.end as int)]);
        assert(spans_view(out@) =~= spans_view(old(out)@) + shifted(
            spans_view(spans@),
            by as int,
        ).take(i + 1));
        i += 1;
    }
    assert(shifted(spans_view(spans@), by as int).take(i as int) =~= shifted(
        spans_view(spans@),
        by as int,
    ));
}

/// Cutting the input after a record separator and summarising the two parts
/// each on its own, then merging, gives the summary of the whole input.
pub proof fn lemma_aggregate_split(a: Seq<u8>, b: Seq<u8>)
    requires
        closed(a),
    ensures
        aggregate(a + b) == merge_tables(aggregate(a), aggregate(b)),
{
    lemma_fold_concat(a, b, Map::empty());
    lemma_fold_from(a, Map::empty());
    lemma_fold_from(b, aggregate(a));
}

/// The summary of an input without bytes has no keys.
pub proof fn lemma_aggregate_empty()
    ensures
        aggregate(Seq::empty()) == Map::<Seq<u8>, Summary>::empty(),
{
}

/// A last line without a record separator after it counts like any other
/// line.
pub proof fn lemma_last_line_counts(s: Seq<u8>, line: Seq<u8>)
    requires
        closed(s),
        line.len() > 0,
        forall|i: int| 0 <= i < line.len() ==> line[i] != RECORD_SEPARATOR,
    ensures
        aggregate(s + line) == apply_line(aggregate(s), line),
{
    lemma_fold_concat(s, line, Map::empty());
    lemma_first_index_unique(line, RECORD_SEPARATOR, line.len() as int);
    assert(line.take(line.len() as int) =~= line);
    assert(after_first_line(line) =~= Seq::<u8>::empty());
    let done = apply_line(aggregate(s), line);
    assert(fold_records(Seq::<u8>::empty(), done) == done);
}

/// The merged summaries of any chunks have `i64` extremes.
pub proof fn lemma_merged_bounded(chunks: Seq<Seq<u8>>)
    ensures
        bounded(merged(chunks)),
    decreases chunks.len(),
{
    if chunks.len() > 0 {
        lemma_merged_bounded(chunks.skip(1));
        lemma_fold_from(chunks[0], Map::empty());
    }
}

/// The summaries of `chunks`, each chunk summarised on its own.
pub open spec fn summaries(chunks: Seq<Seq<u8>>) -> Seq<Map<Seq<u8>, Summary>> {
    chunks.map_values(|c: Seq<u8>| aggregate(c))
}

/// `merged` is the fold of the chunks' summaries in the order of the
/// chunks; by `lemma_merge_all_any_order` any other order gives the same.
pub proof fn lemma_merged_is_merge_all(chunks: Seq<Seq<u8>>)
    ensures
        merged(chunks) == merge_all(summaries(chunks)),
        forall|i: int| 0 <= i < chunks.len() ==> bounded(#[trigger] summaries(chunks)[i]),
    decreases chunks.len(),
{
    assert forall|i: int| 0 <= i < chunks.len() implies bounded(
        #[trigger] summaries(chunks)[i],
    ) by {
        lemma_fold_from(chunks[i], Map::empty());
    }
    if chunks.len() > 0 {
        let rest = chunks.skip(1);
        lemma_merged_is_merge_all(rest);
        let first = seq![aggregate(chunks[0])];
        lemma_fold_from(chunks[0], Map::empty());
        assert(bounded(first[0]));
        assert(summaries(chunks) =~= first + summaries(rest));
        lemma_merge_all_concat(first, summaries(rest));
        assert(first.drop_last() =~= Seq::<Map<Seq<u8>, Summary>>::empty());
        assert(merge_all(first) == merge_tables(merge_all(first.drop_last()), first.last()));
        lemma_merge_empty(aggregate(chunks[0]));
    }
}

/// Where every chunk but the last ends with a record separator, merging the
/// summaries of the chunks gives the summary of the chunks put together:
/// the number of chunks and the places of the cuts do not matter.
pub proof fn lemma_merged_is_aggregate(chunks: Seq<Seq<u8>>)
    requires
        forall|i: int| 0 <= i < chunks.len() - 1 ==> closed(#[trigger] chunks[i]),
    ensures
        merged(chunks) == aggregate(concat(chunks)),
        bounded(merged(chunks)),
    decreases chunks.len(),
{
    if chunks.len() == 0 {
    } else {
        let rest = chunks.skip(1);
        assert forall|i: int| 0 <= i < rest.len() - 1 implies closed(#[trigger] rest[i]) by {
            assert(rest[i] == chunks[i + 1]);
        }
        lemma_merged_is_aggregate(rest);
        lemma_fold_from(chunks[0], Map::empty());
        lemma_fold_from(concat(chunks), Map::empty());
        if rest.len() == 0 {
            assert(chunks[0] + concat(rest) =~= chunks[0]);
            lemma_merge_empty(aggregate(chunks[0]));
        } else {
            lemma_aggregate_split(chunks[0], concat(rest));
        }
    }
}

/// The chunks that the spans `spans` select from `input`.
pub open spec fn pieces(input: Seq<u8>, spans: Seq<(int, int)>) -> Seq<Seq<u8>> {
    spans.map_values(|c: (int, int)| input.subrange(c.0, c.1))
}

/// The chunks that spans select, put together, are the bytes that the
/// spans select one after the other.
pub proof fn lemma_pieces_concat(input: Seq<u8>, spans: Seq<(int, int)>)
    ensures
        concat(pieces(input, spans)) == concat_spans(input, spans),
    decreases spans.len(),
{
    if spans.len() > 0 {
        lemma_pieces_concat(input, spans.skip(1));
        assert(pieces(input, spans).skip(1) =~= pieces(input, spans.skip(1)));
    }
}

/// One worker or many, whatever the stride: when an addressable input is
/// cut into its chunks, each chunk is summarised on its own, and the
/// summaries are merged in whatever order they arrive, the result is the
/// summary of the whole input.
pub proof fn lemma_region_any_stride_any_order(
    input: Seq<u8>,
    stride: int,
    arrival: Seq<Map<Seq<u8>, Summary>>,
)
    requires
        stride >= 0,
        arrival.to_multiset() == summaries(
            pieces(input, chunks_from(input, 0, stride)),
        ).to_multiset(),
    ensures
        merge_all(arrival) == aggregate(input),
{
    let spans = chunks_from(input, 0, stride);
    let cut = pieces(input, spans);
    assert forall|i: int| 0 <= i < cut.len() - 1 implies closed(#[trigger] cut[i]) by {
        lemma_chunks_aligned(input, 0, stride, i);
        assert(cut[i] == input.subrange(spans[i].0, spans[i].1));
        assert(cut[i].last() == input[spans[i].1 - 1]);
    }
    lemma_merged_is_aggregate(cut);
    lemma_pieces_concat(input, spans);
    lemma_chunks_cover(input, 0, stride);
    assert(input.skip(0) =~= input);
    lemma_merged_is_merge_all(cut);
    lemma_merge_all_any_order(summaries(cut), arrival);
}

/// Whatever the sizes of the reads: when a stream is cut into its chunks,
/// each chunk is summarised on its own, and the summaries are merged in
/// whatever order they arrive, the result is the summary of the whole
/// stream.
pub proof fn lemma_stream_any_reads_any_order(
    reads: Seq<Seq<u8>>,
    arrival: Seq<Map<Seq<u8>, Summary>>,
)
    requires
        arrival.to_multiset() == summaries(stream_chunks(Seq::empty(), reads)).to_multiset(),
    ensures
        merge_all(arrival) == aggregate(concat(reads)),
{
    let cut = stream_chunks(Seq::empty(), reads);
    assert forall|i: int| 0 <= i < cut.len() - 1 implies closed(#[trigger] cut[i]) by {
        lemma_stream_aligned(Seq::empty(), reads, i);
    }
    lemma_merged_is_aggregate(cut);
    lemma_stream_covers(Seq::empty(), reads);
    assert(Seq::<u8>::empty() + concat(reads) =~= concat(reads));
    lemma_merged_is_merge_all(cut);
    lemma_merge_all_any_order(summaries(cut), arrival);
}

/// The owner of the global mapping: it takes the chunks' summaries one by
/// one, in the order in which they arrive.
pub struct Reducer {
    global: Table,
}

impl View for Reducer {
    type V = Map<Seq<u8>, Summary>;

    closed spec fn view(&self) -> Map<Seq<u8>, Summary> {
        self.global@
    }
}

impl Reducer {
    /// The global mapping is well formed.
    pub closed spec fn wf(&self) -> bool {
        self.global.wf()
    }

    /// The number of values taken so far, over all keys.
    pub closed spec fn total(&self) -> nat {
        self.global.total()
    }

    /// The summaries of a well-formed reducer have `i64` extremes.
    pub proof fn lemma_wf(&self)
        requires
            self.wf(),
        ensures
            bounded(self@),
    {
        self.global.lemma_wf();
    }

    /// The reducer before the first summary: its mapping has no keys.
    pub fn new() -> (reducer: Reducer)
        ensures
            reducer.wf(),
            reducer@ == Map::<Seq<u8>, Summary>::empty(),
            reducer.total() == 0,
    {
        Reducer { global: Table::new() }
    }

    /// Folds the summary of one chunk into the global mapping. Returns
    /// `false`, and changes nothing, where the two together hold more than
    /// `u64::MAX` values.
    pub fn absorb(&mut self, local: &Table) -> (taken: bool)
        requires
            old(self).wf(),
            local.wf(),
        ensures
            final(self).wf(),
            taken == (old(self).total() + local.total() <= u64::MAX),
            taken ==> final(self)@ == merge_tables(old(self)@, local@) && final(self).total() == old(
                self,
            ).total() + local.total(),
            !taken ==> final(self)@ == old(self)@ && final(self).total() == old(self).total(),
    {
        if local.values() > u64::MAX - self.global.values() {
            return false;
        }
        self.global.merge_from(local);
        true
    }

    /// The global mapping, once every summary has been taken.
    pub fn finish(self) -> (global: Table)
        requires
            self.wf(),
        ensures
            global.wf(),
            global@ == self@,
            global.total() == self.total(),
    {
        self.global
    }
}

/// Summarises a fully addressable input: cuts it into chunks of about
/// `stride` bytes, summarises each, and merges the summaries. The result is
/// the summary of the input's records, whatever the stride.
pub fn aggregate_region(input: &[u8], stride: usize) -> (global: Parsed)
    ensures
        global.table.wf(),
        global.table@ == aggregate(input@),
        spans_view(global.rejected@) == rejected_from(input@, 0),
{
    let mut reducer = Reducer::new();
    let mut rejected: Vec<Span> = Vec::new();
    let mut offset: usize = 0;
    assert(input@.take(0) =~= Seq::<u8>::empty());
    assert(spans_view(rejected@) =~= seq![]);
    while offset < input.len()
        invariant
            offset <= input.len(),
            reducer.wf(),
            reducer.total() <= offset,
            closed(input@.take(offset as int)) || offset == input.len(),
            reducer@ == aggregate(input@.take(offset as int)),
            spans_view(rejected@) == rejected_from(input@.take(offset as int), 0),
        decreases input.len() - offset,
    {
        let end = chunk_end(input, offset, stride);
        proof {
            lemma_chunk_end(input@, offset as int, stride as int);
        }
        let chunk = slice_subrange(input, offset, end);
        let parsed = parse_chunk(chunk);
        let taken = reducer.absorb(&parsed.table);
        append_shifted(&mut rejected, &parsed.rejected, offset);
        proof {
            assert(taken);
            assert(input@.take(offset as int) + chunk@ =~= input@.take(end as int));
            lemma_aggregate_split(input@.take(offset as int), chunk@);
            lemma_rejected_concat(input@.take(offset as int), chunk@, 0);
            lemma_rejected_shift(chunk@, offset as int);
            if end < input.len() {
                assert(input@.take(end as int).last() == input[end - 1]);
            }
        }
        offset = end;
    }
    assert(input@.take(offset as int) =~= input@);
    Parsed { table: reducer.finish(), rejected }
}

/// Summarises the given chunks one by one and merges the summaries, in the
/// order of the chunks. The malformed lines are reported by their places
/// in the chunks put together. Returns `None` where the chunks hold more
/// than `usize::MAX` bytes.
pub fn aggregate_chunks(chunks: &Vec<Vec<u8>>) -> (global: Option<Parsed>)
    ensures
        global.is_some() == (concat(views(chunks@)).len() <= usize::MAX),
        global.is_some() ==> {
            &&& global.unwrap().table.wf()
            &&& global.unwrap().table@ == merged(views(chunks@))
            &&& spans_view(global.unwrap().rejected@) == rejected_in(views(chunks@), 0)
        },
{
    let mut reducer = Reducer::new();
    let mut rejected: Vec<Span> = Vec::new();
    let mut room: usize = usize::MAX;
    let mut i: usize = 0;
    assert(spans_view(rejected@) =~= seq![]);
    let ghost all = views(chunks@);
    assert(all.skip(0) =~= all);
    proof {
        lemma_merged_bounded(all);
        lemma_merge_empty(merged(all));
    }
    while i < chunks.len()
        invariant
            i <= chunks.len(),
            all == views(chunks@),
            reducer.wf(),
            reducer.total() <= usize::MAX - room,
            usize::MAX - room + concat(all.skip(i as int)).len() == concat(all).len(),
            merge_tables(reducer@, merged(all.skip(i as int))) == merged(all),
            spans_view(rejected@) + rejected_in(all.skip(i as int), usize::MAX - room)
                == rejected_in(all, 0),
        decreases chunks.len() - i,
    {
        let ghost rest = all.skip(i as int);
        assert(rest[0] == chunks[i as int]@);
        assert(rest.skip(1) =~= all.skip(i + 1));
        let chunk = chunks[i].as_slice();
        if chunk.len() > room {
            return None;
        }
        let parsed = parse_chunk(chunk);
        let ghost before = reducer@;
        let ghost notes = spans_view(rejected@);
        let taken = reducer.absorb(&parsed.table);
        append_shifted(&mut rejected, &parsed.rejected, usize::MAX - room);
        proof {
            assert(taken);
            lemma_merge_associates(before, aggregate(rest[0]), merged(rest.skip(1)));
            lemma_rejected_shift(chunk@, usize::MAX - room);
            let here = rejected_from(chunk@, usize::MAX - room);
            let after = rejected_in(rest.skip(1), usize::MAX - room + chunk.len());
            assert(notes + (here + after) =~= (notes + here) + after);
        }
        room = room - chunk.len();
        i += 1;
    }
    proof {
        assert(all.skip(i as int) =~= Seq::<Seq<u8>>::empty());
        reducer.lemma_wf();
        lemma_merge_empty(reducer@);
        assert(spans_view(rejected@) + Seq::<(int, int)>::empty() =~= spans_view(rejected@));
    }
    Some(Parsed { table: reducer.finish(), rejected })
}

/// Summarises a stream from the reads that it delivered, in their order:
/// cuts it into chunks, summarises each, and merges the summaries. The
/// result is the summary of the stream's records, whatever the sizes of the
/// reads. The malformed lines are reported by their places in the stream.
/// Returns `None` where the reads hold more than `usize::MAX` bytes.
pub fn aggregate_reads(reads: &Vec<Vec<u8>>) -> (global: Option<Parsed>)
    ensures
        global.is_some() == (concat(views(reads@)).len() <= usize::MAX),
        global.is_some() ==> {
            &&& global.unwrap().table.wf()
            &&& global.unwrap().table@ == aggregate(concat(views(reads@)))
            &&& spans_view(global.unwrap().rejected@) == rejected_from(concat(views(reads@)), 0)
        },
{
    let chunks = chunk_reads(reads);
    proof {
        let cut = views(chunks@);
        assert forall|i: int| 0 <= i < cut.len() - 1 implies closed(#[trigger] cut[i]) by {
            lemma_stream_aligned(Seq::empty(), views(reads@), i);
        }
        lemma_merged_is_aggregate(cut);
        lemma_rejected_in_is_rejected(cut, 0);
    }
    aggregate_chunks(&chunks)
}

} // verus!
