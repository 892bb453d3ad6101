//! Summarising the records of one chunk.

use vstd::prelude::*;
use vstd::slice::slice_subrange;
use crate::separator::{find_byte, first_index, lemma_first_index_found, FIELD_SEPARATOR, RECORD_SEPARATOR};
use crate::decimal::{parse_value, value_of};
use crate::region::{spans_view, Span};
use crate::stats::Summary;
use crate::table::{record_into, Table};

verus! {

/// What one line of a chunk is.
#[derive(Clone, Copy, Debug, PartialEq, Eq, Structural)]
pub enum Line {
    /// Nothing but zero bytes, or nothing at all: fill, not data.
    Padding,
    /// No field separator, or value text that is no number.
    Malformed,
    /// A record: the key is the first `key_len` bytes of the line.
    Record { key_len: usize, value: i64 },
}

/// Whether every byte of `line` is zero.
pub open spec fn is_padding(line: Seq<u8>) -> bool {
    forall|i: int| 0 <= i < line.len() ==> #[trigger] line[i] == 0
}

/// The key of the line `line`: what stands before its first field
/// separator.
pub open spec fn key_of(line: Seq<u8>) -> Seq<u8> {
    line.take(first_index(line, FIELD_SEPARATOR) as int)
}

/// The value text of the line `line`: what stands after its first field
/// separator.
pub open spec fn value_text_of(line: Seq<u8>) -> Seq<u8> {
    line.skip(first_index(line, FIELD_SEPARATOR) as int + 1)
}

/// Whether `line` is a record: it is no padding, has a field separator, and
/// its value text is a number.
pub open spec fn is_record(line: Seq<u8>) -> bool {
    &&& !is_padding(line)
    &&& first_index(line, FIELD_SEPARATOR) < line.len()
    &&& value_of(value_text_of(line)).is_some()
}

/// Whether `line` is malformed: neither padding nor a record.
pub open spec fn is_malformed(line: Seq<u8>) -> bool {
    !is_padding(line) && !is_record(line)
}

/// What the line `line` is, with the length of its key and its value if it
/// is a record.
pub open spec fn line_kind(line: Seq<u8>) -> Line {
    if is_padding(line) {
        Line::Padding
    } else if is_record(line) {
        Line::Record {
            key_len: first_index(line, FIELD_SEPARATOR) as usize,
            value: value_of(value_text_of(line)).unwrap(),
        }
    } else {
        Line::Malformed
    }
}

/// The mapping `m` after the line `line`: a record is folded in, any other
/// line changes nothing.
pub open spec fn apply_line(m: Map<Seq<u8>, Summary>, line: Seq<u8>) -> Map<Seq<u8>, Summary> {
    if is_record(line) {
        record_into(m, key_of(line), value_of(value_text_of(line)).unwrap() as int)
    } else {
        m
    }
}

/// What is left of `s` after its first line and that line's separator.
pub open spec fn after_first_line(s: Seq<u8>) -> Seq<u8> {
    let n = first_index(s, RECORD_SEPARATOR) as int;
    if n < s.len() {
        s.skip(n + 1)
    } else {
        Seq::empty()
    }
}

/// The mapping `acc` after every line of `s`, first to last. The last line
/// needs no separator after it.
pub open spec fn fold_records(s: Seq<u8>, acc: Map<Seq<u8>, Summary>) -> Map<Seq<u8>, Summary>
    decreases s.len(),
{
    if s.len() == 0 {
        acc
    } else {
        fold_records(
            after_first_line(s),
            apply_line(acc, s.take(first_index(s, RECORD_SEPARATOR) as int)),
        )
    }
}

/// The summary per key of all the records in `s`.
pub open spec fn aggregate(s: Seq<u8>) -> Map<Seq<u8>, Summary> {
    fold_records(s, Map::empty())
}

/// The malformed lines of `s`, first to last, as positions in the text of
/// which `s` is the part that starts at `base`.
pub open spec fn rejected_from(s: Seq<u8>, base: int) -> Seq<(int, int)>
    decreases s.len(),
{
    if s.len() == 0 {
        seq![]
    } else {
        let n = first_index(s, RECORD_SEPARATOR) as int;
        let here = if is_malformed(s.take(n)) {
            seq![(base, base + n)]
        } else {
            seq![]
        };
        here + rejected_from(after_first_line(s), base + s.len() - after_first_line(s).len())
    }
}

/// The spans `spans`, each moved up by `by`.
pub open spec fn shifted(spans: Seq<(int, int)>, by: int) -> Seq<(int, int)> {
    spans.map_values(|p: (int, int)| (p.0 + by, p.1 + by))
}

/// The malformed lines of a text lie inside it, and moving the text moves
/// them with it.
pub proof fn lemma_rejected_shift(s: Seq<u8>, base: int)
    ensures
        rejected_from(s, base) == shifted(rejected_from(s, 0), base),
        forall|i: int|
            0 <= i < rejected_from(s, 0).len() ==> 0 <= (#[trigger] rejected_from(s, 0)[i]).0
                <= rejected_from(s, 0)[i].1 <= s.len(),
    decreases s.len(),
{
    if s.len() == 0 {
        assert(rejected_from(s, base) =~= shifted(rejected_from(s, 0), base));
    } else {
        let n = first_index(s, RECORD_SEPARATOR) as int;
        lemma_first_index_found(s, RECORD_SEPARATOR);
        let rest = after_first_line(s);
        let d = s.len() - rest.len();
        lemma_rejected_shift(rest, base + d);
        lemma_rejected_shift(rest, d);
        let inner = rejected_from(rest, 0);
        assert(shifted(shifted(inner, d), base) =~= shifted(inner, base + d));
        assert(rejected_from(s, base) =~= shifted(rejected_from(s, 0), base));
        let here = if is_malformed(s.take(n)) {
            seq![(0int, n)]
        } else {
            seq![]
        };
        assert(rejected_from(s, 0) == here + shifted(inner, d));
        assert forall|i: int| 0 <= i < rejected_from(s, 0).len() implies 0 <= (
        #[trigger] rejected_from(s, 0)[i]).0 <= rejected_from(s, 0)[i].1 <= s.len() by {
            if i >= here.len() {
                assert(rejected_from(s, 0)[i] == shifted(inner, d)[i - here.len()]);
                assert(0 <= inner[i - here.len()].0);
            }
        }
    }
}

/// The summary of one chunk, and the lines of it that were skipped as
/// malformed.
pub struct Parsed {
    pub table: Table,
    pub rejected: Vec<Span>,
}

/// Whether every byte of `line` is zero.
pub fn only_padding(line: &[u8]) -> (yes: bool)
    ensures
        yes == is_padding(line@),
{
    let mut i: usize = 0;
    while i < line.len()
        invariant
            i <= line.len(),
            forall|j: int| 0 <= j < i ==> #[trigger] line[j] == 0,
        decreases line.len() - i,
    {
        if line[i] != 0 {
            return false;
        }
        i += 1;
    }
    true
}

/// Tells what one line is, and reads its value if it is a record.
pub fn classify(line: &[u8]) -> (kind: Line)
    ensures
        kind == line_kind(line@),
{
    if only_padding(line) {
        return Line::Padding;
    }
    let sep = find_byte(line, 0, FIELD_SEPARATOR);
    assert(line@.skip(0) =~= line@);
    if sep >= line.len() {
        return Line::Malformed;
    }
    let text = slice_subrange(line, sep + 1, line.len());
    assert(text@ =~= line@.skip(sep + 1));
    match parse_value(text) {
        Some(value) => Line::Record { key_len: sep, value },
        None => Line::Malformed,
    }
}

/// Summarises every well-formed record of `chunk`. Padding is passed over,
/// a malformed line is skipped and reported.
pub fn parse_chunk(chunk: &[u8]) -> (parsed: Parsed)
    ensures
        parsed.table.wf(),
        parsed.table@ == aggregate(chunk@),
        parsed.table.total() <= chunk.len(),
        spans_view(parsed.rejected@) == rejected_from(chunk@, 0),
        forall|i: int|
            0 <= i < parsed.rejected.len() ==> (#[trigger] parsed.rejected[i]).start
                <= parsed.rejected[i].end <= chunk.len(),
{
    let mut table = Table::new();
    let mut rejected: Vec<Span> = Vec::new();
    let mut start: usize = 0;
    assert(chunk@.skip(0) =~= chunk@);
    assert(spans_view(rejected@) =~= seq![]);
    while start < chunk.len()
        invariant
            start <= chunk.len(),
            table.wf(),
            table.total() <= start,
            forall|i: int|
                0 <= i < rejected.len() ==> (#[trigger] rejected[i]).start <= rejected[i].end
                    <= chunk.len(),
            fold_records(chunk@.skip(start as int), table@) == aggregate(chunk@),
            spans_view(rejected@) + rejected_from(
                chunk@.skip(start as int),
                start as int,
            ) == rejected_from(chunk@, 0),
        decreases chunk.len() - start,
    {
        let ghost rest = chunk@.skip(start as int);
        let ghost before = table@;
        let ghost notes = spans_view(rejected@);
        let end = find_byte(chunk, start, RECORD_SEPARATOR);
        let line = slice_subrange(chunk, start, end);
        let next = if end < chunk.len() {
            end + 1
        } else {
            end
        };
        proof {
            assert(line@ =~= rest.take(end - start));
            assert(after_first_line(rest) =~= chunk@.skip(next as int));
        }
        match classify(line) {
            Line::Record { key_len, value } => {
                let key = slice_subrange(line, 0, key_len);
                proof {
                    assert(key@ =~= line@.take(key_len as int));
                }
                table.record(key, value);
            },
            Line::Malformed => {
                rejected.push(Span { start, end });
                assert(spans_view(rejected@) =~= notes + seq![
                    (start as int, end as int),
                ]);
            },
            Line::Padding => {},
        }
        proof {
            assert(table@ == apply_line(before, line@));
            let ghost here = if is_malformed(line@) {
                seq![(start as int, end as int)]
            } else {
                seq![]
            };
            assert(spans_view(rejected@) =~= notes + here);
            assert(rejected_from(rest, start as int) == here + rejected_from(
                chunk@.skip(next as int),
                next as int,
            ));
            assert(notes + (here + rejected_from(chunk@.skip(next as int), next as int)) =~= (notes
                + here) + rejected_from(chunk@.skip(next as int), next as int));
        }
        start = next;
    }
    Parsed { table, rejected }
}

} // verus!
