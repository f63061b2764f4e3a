//! From the bytes of a chunk to the statistics of its records. A chunk is
//! split into lines at the terminator; an empty line is passed over; any
//! other line must be a key, a separator and a decimal value.

use vstd::prelude::*;
use vstd::slice::slice_subrange;
use crate::aggregate::Aggregate;
use crate::aggregate::AggregateModel;
use crate::aggregate::observe_map;
use crate::chunk::Chunk;
use crate::decimal::parse_decimal;
use crate::decimal::parsed_value;
use crate::error::Error;
use crate::error::Fault;
use crate::text::SEPARATOR;
use crate::text::TERMINATOR;
use crate::text::find_first;
use crate::text::first_index;
use crate::text::lemma_first_index;

verus! {

/// The lines of `s`: what stands between two terminators, before the first
/// and after the last. A terminator at the very end opens no further line.
pub open spec fn lines(s: Seq<u8>) -> Seq<Seq<u8>>
    decreases s.len(),
{
    if s.len() == 0 {
        Seq::empty()
    } else {
        let end = first_index(s, TERMINATOR);
        proof {
            lemma_first_index(s, TERMINATOR);
        }
        if end < s.len() {
            seq![s.take(end)] + lines(s.skip(end + 1))
        } else {
            seq![s]
        }
    }
}

/// What a line is.
pub enum LineModel {
    /// The line is empty.
    Blank,
    /// The line gives `value`, in tenths, for `key`.
    Record { key: Seq<u8>, value: int },
    /// The line is neither.
    Malformed(Fault),
}

/// Reads one line: the key is what stands before the first separator, the
/// value is what the whole text after it writes.
pub open spec fn read_line(line: Seq<u8>) -> LineModel {
    let sep = first_index(line, SEPARATOR);
    if line.len() == 0 {
        LineModel::Blank
    } else if sep == line.len() {
        LineModel::Malformed(Fault::MissingSeparator)
    } else {
        match parsed_value(line.skip(sep + 1)) {
            Some(value) => LineModel::Record { key: line.take(sep), value: value as int },
            None => LineModel::Malformed(Fault::InvalidValue),
        }
    }
}

/// The statistics of the records among `ls`; lines that are no records add
/// nothing.
pub open spec fn fold_lines(ls: Seq<Seq<u8>>) -> AggregateModel
    decreases ls.len(),
{
    if ls.len() == 0 {
        Map::empty()
    } else {
        match read_line(ls.last()) {
            LineModel::Record { key, value } => observe_map(
                fold_lines(ls.drop_last()),
                key,
                value,
            ),
            _ => fold_lines(ls.drop_last()),
        }
    }
}

/// How many of `ls` are malformed.
pub open spec fn malformed_count(ls: Seq<Seq<u8>>) -> nat
    decreases ls.len(),
{
    if ls.len() == 0 {
        0
    } else {
        malformed_count(ls.drop_last()) + if read_line(ls.last()) is Malformed {
            1nat
        } else {
            0nat
        }
    }
}

/// Whether line `at` is the first malformed line of `ls`, with this fault.
pub open spec fn first_fault_at(ls: Seq<Seq<u8>>, at: int, fault: Fault) -> bool {
    &&& 0 <= at < ls.len()
    &&& read_line(ls[at]) == LineModel::Malformed(fault)
    &&& forall|j: int| 0 <= j < at ==> !(read_line(#[trigger] ls[j]) is Malformed)
}

/// Whether none of `ls` is malformed.
pub open spec fn all_sound(ls: Seq<Seq<u8>>) -> bool {
    forall|j: int| 0 <= j < ls.len() ==> !(read_line(#[trigger] ls[j]) is Malformed)
}

/// The statistics of the records of a chunk.
pub open spec fn chunk_stats(bytes: Seq<u8>) -> AggregateModel {
    fold_lines(lines(bytes))
}

/// A line as the parser hands it out.
#[derive(Debug)]
pub enum Line<'a> {
    Blank,
    Record { key: &'a [u8], value: i64 },
    Malformed(Fault),
}

impl<'a> View for Line<'a> {
    type V = LineModel;

    open spec fn view(&self) -> LineModel {
        match *self {
            Line::Blank => LineModel::Blank,
            Line::Record { key, value } => LineModel::Record { key: key@, value: value as int },
            Line::Malformed(fault) => LineModel::Malformed(fault),
        }
    }
}

/// Reads one line, given without its terminator.
pub fn parse_line<'a>(line: &'a [u8]) -> (read: Line<'a>)
    ensures
        read@ == read_line(line@),
{
    if line.len() == 0 {
        return Line::Blank;
    }
    let sep = find_first(line, 0, SEPARATOR);
    proof {
        assert(line@.skip(0) =~= line@);
    }
    if sep == line.len() {
        return Line::Malformed(Fault::MissingSeparator);
    }
    let key = slice_subrange(line, 0, sep);
    let text = slice_subrange(line, sep + 1, line.len());
    proof {
        assert(key@ =~= line@.take(sep as int));
        assert(text@ =~= line@.skip(sep + 1));
    }
    match parse_decimal(text) {
        Some(value) => Line::Record { key, value },
        None => Line::Malformed(Fault::InvalidValue),
    }
}

/// What is done with a malformed line.
#[derive(Clone, Copy, Debug, PartialEq, Eq, Structural)]
pub enum Mode {
    /// The first malformed line fails the chunk.
    Strict,
    /// Malformed lines are passed over and counted.
    Lenient,
}

/// The statistics of one chunk, and how many of its lines were passed over
/// as malformed.
pub struct Partial {
    pub aggregate: Aggregate,
    pub skipped: usize,
}

/// Whether `out` is the result of parsing a chunk with the given id and
/// bytes in the given mode.
pub open spec fn is_parse_of(id: usize, bytes: Seq<u8>, mode: Mode, out: Result<Partial, Error>) -> bool {
    let ls = lines(bytes);
    match out {
        Ok(partial) => {
            &&& mode == Mode::Strict ==> all_sound(ls)
            &&& partial.aggregate@ == fold_lines(ls)
            &&& partial.skipped == malformed_count(ls)
        },
        Err(Error::MalformedRecord { chunk, line, fault }) => {
            &&& mode == Mode::Strict
            &&& chunk == id
            &&& first_fault_at(ls, line as int, fault)
        },
        Err(_) => false,
    }
}

/// The first malformed line of `ls` and its fault.
pub open spec fn first_fault(ls: Seq<Seq<u8>>) -> (int, Fault) {
    choose|at: (int, Fault)| first_fault_at(ls, at.0, at.1)
}

/// The first malformed line is determined.
pub proof fn lemma_first_fault_unique(ls: Seq<Seq<u8>>, at: int, fault: Fault)
    requires
        first_fault_at(ls, at, fault),
    ensures
        first_fault(ls) == (at, fault),
{
    let found = first_fault(ls);
    assert(first_fault_at(ls, (at, fault).0, (at, fault).1));
    assert(first_fault_at(ls, found.0, found.1));
    if found.0 < at {
        assert(!(read_line(ls[found.0]) is Malformed));
    } else if at < found.0 {
        assert(!(read_line(ls[at]) is Malformed));
    }
}

/// A run of bytes has at most as many lines as bytes.
pub proof fn lemma_lines_len(s: Seq<u8>)
    ensures
        lines(s).len() <= s.len(),
    decreases s.len(),
{
    if s.len() > 0 {
        let end = first_index(s, TERMINATOR);
        lemma_first_index(s, TERMINATOR);
        if end < s.len() {
            lemma_lines_len(s.skip(end + 1));
        }
    }
}

/// Parsing is determined by the chunk and the mode: two results of parsing
/// the same chunk fail alike or hold the same statistics and the same count
/// of lines passed over.
pub proof fn lemma_parse_is_determined(
    id: usize,
    bytes: Seq<u8>,
    mode: Mode,
    a: Result<Partial, Error>,
    b: Result<Partial, Error>,
)
    requires
        is_parse_of(id, bytes, mode, a),
        is_parse_of(id, bytes, mode, b),
    ensures
        a is Ok <==> b is Ok,
        a is Ok ==> a->Ok_0.aggregate@ == b->Ok_0.aggregate@ && a->Ok_0.skipped == b->Ok_0.skipped,
        a is Err ==> a->Err_0 == b->Err_0,
{
    let ls = lines(bytes);
    match (a, b) {
        (Err(Error::MalformedRecord { chunk: c1, line: l1, fault: f1 }), Ok(_)) => {
            assert(read_line(ls[l1 as int]) is Malformed);
        },
        (Ok(_), Err(Error::MalformedRecord { chunk: c2, line: l2, fault: f2 })) => {
            assert(read_line(ls[l2 as int]) is Malformed);
        },
        (
            Err(Error::MalformedRecord { chunk: c1, line: l1, fault: f1 }),
            Err(Error::MalformedRecord { chunk: c2, line: l2, fault: f2 }),
        ) => {
            lemma_first_fault_unique(ls, l1 as int, f1);
            lemma_first_fault_unique(ls, l2 as int, f2);
        },
        _ => {},
    }
}

/// A terminator after the last line is optional: with it an input has the
/// same lines as without.
pub proof fn lemma_final_terminator_is_optional(s: Seq<u8>)
    requires
        s.len() > 0,
        s.last() != TERMINATOR,
    ensures
        lines(s.push(TERMINATOR)) == lines(s),
        chunk_stats(s.push(TERMINATOR)) == chunk_stats(s),
    decreases s.len(),
{
    let t = s.push(TERMINATOR);
    let end = first_index(s, TERMINATOR);
    lemma_first_index(s, TERMINATOR);
    assert forall|i: int| 0 <= i < end implies t[i] != TERMINATOR by {
        assert(t[i] == s[i]);
    }
    if end < s.len() {
        assert(t[end] == s[end]);
        crate::text::lemma_first_index_unique(t, TERMINATOR, end);
        let rest = s.skip(end + 1);
        assert(s[end] != s.last());
        assert(rest.len() > 0);
        assert(rest.last() == s.last());
        assert(t.take(end) =~= s.take(end));
        assert(t.skip(end + 1) =~= rest.push(TERMINATOR));
        lemma_final_terminator_is_optional(rest);
    } else {
        assert(t[end] == TERMINATOR);
        crate::text::lemma_first_index_unique(t, TERMINATOR, end);
        assert(t.take(end) =~= s);
        assert(t.skip(end + 1) =~= Seq::<u8>::empty());
        assert(lines(t.skip(end + 1)) =~= Seq::<Seq<u8>>::empty());
        assert(seq![s] + Seq::<Seq<u8>>::empty() =~= seq![s]);
    }
}

/// An input without bytes has no lines and no statistics.
pub proof fn lemma_empty_input()
    ensures
        lines(Seq::empty()) == Seq::<Seq<u8>>::empty(),
        chunk_stats(Seq::empty()) == AggregateModel::empty(),
        malformed_count(lines(Seq::empty())) == 0,
{
}

/// Every statistic in `m` counts at most `bound` values.
pub open spec fn counts_within(m: AggregateModel, bound: int) -> bool {
    forall|k: Seq<u8>| m.contains_key(k) ==> (#[trigger] m[k]).count <= bound
}

/// The statistics of `ls` count at most one value per line.
pub proof fn lemma_counts_within(ls: Seq<Seq<u8>>)
    ensures
        counts_within(fold_lines(ls), ls.len() as int),
        malformed_count(ls) <= ls.len(),
    decreases ls.len(),
{
    if ls.len() > 0 {
        lemma_counts_within(ls.drop_last());
        let rest = fold_lines(ls.drop_last());
        assert(counts_within(rest, ls.len() - 1));
        assert forall|k: Seq<u8>| fold_lines(ls).contains_key(k) implies (#[trigger] fold_lines(
            ls,
        )[k]).count <= ls.len() by {
            if rest.contains_key(k) {
                assert(rest[k].count <= ls.len() - 1);
            }
        }
    }
}

/// Without a malformed line the count of malformed lines is 0.
pub proof fn lemma_sound_lines_count(ls: Seq<Seq<u8>>)
    requires
        all_sound(ls),
    ensures
        malformed_count(ls) == 0,
    decreases ls.len(),
{
    if ls.len() > 0 {
        assert(!(read_line(ls[ls.len() - 1]) is Malformed));
        assert forall|j: int| 0 <= j < ls.drop_last().len() implies !(read_line(
            #[trigger] ls.drop_last()[j],
        ) is Malformed) by {
            assert(ls.drop_last()[j] == ls[j]);
        }
        lemma_sound_lines_count(ls.drop_last());
    }
}

/// Parses the lines of a chunk and folds its records into a fresh
/// aggregate. In strict mode the first malformed line is reported and
/// nothing else is returned; in lenient mode malformed lines are counted.
pub fn parse_chunk(chunk: &Chunk, mode: Mode) -> (out: Result<Partial, Error>)
    ensures
        is_parse_of(chunk.id, chunk.bytes@, mode, out),
        mode == Mode::Lenient ==> out is Ok,
        mode == Mode::Strict ==> (out is Ok <==> all_sound(lines(chunk.bytes@))),
{
    let s = chunk.bytes.as_slice();
    let mut aggregate = Aggregate::new();
    let mut skipped: usize = 0;
    let mut line_no: usize = 0;
    let mut pos: usize = 0;
    let ghost done: Seq<Seq<u8>> = Seq::empty();
    proof {
        assert(s@.skip(0) =~= s@);
        assert(done + lines(s@) =~= lines(s@));
    }
    while pos < s.len()
        invariant
            s@ == chunk.bytes@,
            pos <= s.len(),
            lines(s@) == done + lines(s@.skip(pos as int)),
            line_no == done.len(),
            done.len() <= pos,
            aggregate@ == fold_lines(done),
            skipped == malformed_count(done),
            mode == Mode::Strict ==> all_sound(done),
        decreases s.len() - pos,
    {
        let ghost rest = s@.skip(pos as int);
        let end = find_first(s, pos, TERMINATOR);
        let line = slice_subrange(s, pos, end);
        let read = parse_line(line);
        let ghost next = done.push(line@);
        proof {
            lemma_first_index(rest, TERMINATOR);
            assert(line@ =~= rest.take(end - pos));
            assert(next.drop_last() =~= done);
            assert(next.last() == line@);
            lemma_counts_within(done);
            if end < s.len() {
                assert(rest.skip(end - pos + 1) =~= s@.skip(end + 1));
                assert(done + (seq![line@] + lines(s@.skip(end + 1))) =~= next + lines(
                    s@.skip(end + 1),
                ));
            } else {
                assert(rest.take(end - pos) =~= rest);
                assert(s@.skip(end as int).len() == 0);
                assert(done + seq![line@] =~= next + lines(s@.skip(end as int)));
            }
        }
        match read {
            Line::Blank => {},
            Line::Record { key, value } => {
                match aggregate.observe(key, value) {
                    Ok(()) => {},
                    Err(e) => {
                        proof {
                            assert(fold_lines(done)[key@].count <= done.len());
                            assert(false);
                        }
                        return Err(e);
                    },
                }
            },
            Line::Malformed(fault) => {
                match mode {
                    Mode::Strict => {
                        proof {
                            let ls = lines(s@);
                            assert(ls[line_no as int] == line@);
                            assert forall|j: int| 0 <= j < line_no implies !(read_line(
                                #[trigger] ls[j],
                            ) is Malformed) by {
                                assert(ls[j] == done[j]);
                            }
                        }
                        return Err(Error::MalformedRecord { chunk: chunk.id, line: line_no, fault });
                    },
                    Mode::Lenient => {
                        skipped = skipped + 1;
                    },
                }
            },
        }
        proof {
            assert forall|j: int| 0 <= j < next.len() && mode == Mode::Strict implies !(read_line(
                #[trigger] next[j],
            ) is Malformed) by {
                if j < done.len() {
                    assert(next[j] == done[j]);
                }
            }
            done = next;
        }
        line_no = line_no + 1;
        pos = if end < s.len() {
            end + 1
        } else {
            end
        };
    }
    proof {
        assert(s@.skip(pos as int).len() == 0);
        assert(done + lines(s@.skip(pos as int)) =~= done);
        if mode == Mode::Strict {
            lemma_sound_lines_count(done);
        }
    }
    Ok(Partial { aggregate, skipped })
}

} // verus!
