//! The whole computation on an input that is held in memory: cut, parse,
//! merge, order.

use vstd::prelude::*;
use vstd::slice::slice_subrange;
use crate::aggregate::Aggregate;
use crate::aggregate::merge_maps;
use crate::chunk::Chunk;
use crate::chunk::ChunkReader;
use crate::chunk::ReadStep;
use crate::chunk::cut_len;
use crate::chunk::lemma_cuts_exist_iff_lines_fit;
use crate::chunk::lines_fit;
use crate::chunk::lemma_cut_len;
use crate::chunk::window_of;
use crate::error::Error;
use crate::laws::lemma_fold_lines_concat;
use crate::laws::lemma_lines_concat;
use crate::record::Mode;
use crate::record::all_sound;
use crate::record::chunk_stats;
use crate::record::first_fault;
use crate::record::lemma_first_fault_unique;
use crate::record::lemma_lines_len;
use crate::record::lemma_counts_within;
use crate::record::lines;
use crate::record::malformed_count;
use crate::record::parse_chunk;
use crate::report::FinalResult;
use crate::report::is_result_of;
use crate::text::TERMINATOR;
use crate::text::occurs;

verus! {

/// The final result of a run, and how many malformed lines were passed over.
#[derive(Debug)]
pub struct Summary {
    pub result: FinalResult,
    pub skipped: usize,
}

/// What ends a run on `data` whose chunks are numbered from `id`, if
/// anything does: going through the chunks in order, the first that ends
/// inside a line although more input follows, or, in strict mode, the first
/// that holds a malformed line.
#[verifier::opaque]
pub open spec fn first_failure(data: Seq<u8>, window: nat, mode: Mode, id: nat) -> Option<Error>
    decreases data.len(),
{
    if data.len() == 0 || window == 0 {
        None
    } else {
        let filled = window_of(data, window);
        let cut = cut_len(filled);
        let head = lines(data.take(cut));
        proof {
            lemma_cut_len(filled);
        }
        if !occurs(filled, TERMINATOR) && cut < data.len() {
            Some(Error::BoundaryOverflow { chunk: id as usize })
        } else if mode == Mode::Strict && !all_sound(head) {
            Some(
                Error::MalformedRecord {
                    chunk: id as usize,
                    line: first_fault(head).0 as usize,
                    fault: first_fault(head).1,
                },
            )
        } else {
            first_failure(data.skip(cut), window, mode, id + 1)
        }
    }
}

/// An empty input has no failure.
pub proof fn lemma_no_failure_at_end(data: Seq<u8>, window: nat, mode: Mode, id: nat)
    requires
        data.len() == 0,
    ensures
        first_failure(data, window, mode, id) is None,
{
    reveal(first_failure);
}

/// A window without terminator that is not the end of the input is the
/// failure of the run.
pub proof fn lemma_failure_on_overflow(data: Seq<u8>, window: nat, mode: Mode, id: nat)
    requires
        window > 0,
        !occurs(window_of(data, window), TERMINATOR),
        window_of(data, window).len() < data.len(),
    ensures
        first_failure(data, window, mode, id) == Some(Error::BoundaryOverflow { chunk: id as usize }),
{
    reveal(first_failure);
    lemma_cut_len(window_of(data, window));
}

/// What the failure of a run is when its first chunk is no overflow: that
/// chunk's first malformed line in strict mode, else the failure of the rest.
pub proof fn lemma_failure_after_chunk(data: Seq<u8>, window: nat, mode: Mode, id: nat)
    requires
        window > 0,
        data.len() > 0,
        occurs(window_of(data, window), TERMINATOR) || window_of(data, window).len() == data.len(),
    ensures
        first_failure(data, window, mode, id) == (if mode == Mode::Strict && !all_sound(
            lines(data.take(cut_len(window_of(data, window)))),
        ) {
            Some(
                Error::MalformedRecord {
                    chunk: id as usize,
                    line: first_fault(lines(data.take(cut_len(window_of(data, window))))).0 as usize,
                    fault: first_fault(lines(data.take(cut_len(window_of(data, window))))).1,
                },
            )
        } else {
            first_failure(data.skip(cut_len(window_of(data, window))), window, mode, id + 1)
        }),
{
    reveal(first_failure);
    lemma_cut_len(window_of(data, window));
}

/// When a run succeeds: exactly if every line fits the window and, in strict
/// mode, no line is malformed. A run that fails with a boundary overflow has
/// a line that does not fit; one that fails with a malformed record is
/// strict and has a malformed line.
pub proof fn lemma_run_succeeds_iff(data: Seq<u8>, window: nat, mode: Mode, id: nat)
    requires
        window > 0,
    ensures
        first_failure(data, window, mode, id) is None <==> lines_fit(data, window) && (mode
            == Mode::Strict ==> all_sound(lines(data))),
        first_failure(data, window, mode, id) matches Some(Error::BoundaryOverflow { .. })
            ==> !lines_fit(data, window),
        first_failure(data, window, mode, id) matches Some(Error::MalformedRecord { .. }) ==> mode
            == Mode::Strict && !all_sound(lines(data)),
        first_failure(data, window, mode, id) matches Some(e) ==> e is BoundaryOverflow || e
            is MalformedRecord,
    decreases data.len(),
{
    reveal(first_failure);
    if data.len() > 0 {
        let filled = window_of(data, window);
        let cut = cut_len(filled);
        lemma_cut_len(filled);
        lemma_cuts_exist_iff_lines_fit(data, window);
        if !occurs(filled, TERMINATOR) && cut < data.len() {
        } else {
            let head = data.take(cut);
            let rest = data.skip(cut);
            assert(data =~= head + rest);
            lemma_cuts_exist_iff_lines_fit(rest, window);
            if rest.len() > 0 {
                assert(head.last() == filled[cut - 1]);
                lemma_lines_concat(head, rest);
            } else {
                assert(head =~= data);
                assert(lines(head) + lines(rest) =~= lines(data));
            }
            lemma_fold_lines_concat(lines(head), lines(rest));
            lemma_run_succeeds_iff(rest, window, mode, id + 1);
        }
    }
}

/// What the failure of the rest of a run is once the chunk `head` has been
/// cut at `start`: the first malformed line of `head` in strict mode, else
/// the failure of what follows `head`.
pub open spec fn failure_from(
    data: Seq<u8>,
    start: int,
    head: Seq<u8>,
    window: nat,
    mode: Mode,
    id: nat,
) -> Option<Error> {
    if mode == Mode::Strict && !all_sound(lines(head)) {
        Some(
            Error::MalformedRecord {
                chunk: id as usize,
                line: first_fault(lines(head)).0 as usize,
                fault: first_fault(lines(head)).1,
            },
        )
    } else {
        first_failure(data.skip(start + head.len()), window, mode, id + 1)
    }
}

/// A chunk cut from a window with a terminator, seen from the whole input.
proof fn lemma_chunk_from_window(
    data: Seq<u8>,
    start: int,
    filled: Seq<u8>,
    head: Seq<u8>,
    window: nat,
    mode: Mode,
    id: nat,
)
    requires
        window > 0,
        0 <= start < data.len(),
        filled == window_of(data.skip(start), window),
        occurs(filled, TERMINATOR),
        head == filled.take(cut_len(filled)),
    ensures
        0 < head.len() <= data.len() - start,
        head.len() == cut_len(filled),
        head.len() <= filled.len(),
        data.take(start + head.len()) == data.take(start) + head,
        data[start + head.len() - 1] == TERMINATOR,
        first_failure(data.skip(start), window, mode, id) == failure_from(
            data,
            start,
            head,
            window,
            mode,
            id,
        ),
{
    let rest = data.skip(start);
    let cut = cut_len(filled);
    lemma_cut_len(filled);
    assert(rest.take(cut) =~= head);
    assert(data.take(start + cut) =~= data.take(start) + head);
    assert(rest.skip(cut) =~= data.skip(start + cut));
    assert(filled[cut - 1] == data[start + cut - 1]);
    lemma_failure_after_chunk(rest, window, mode, id);
}

/// A chunk that was held back and turned out to be the end of the input,
/// seen from the whole input.
proof fn lemma_chunk_at_end(
    data: Seq<u8>,
    start: int,
    head: Seq<u8>,
    window: nat,
    mode: Mode,
    id: nat,
)
    requires
        window > 0,
        0 <= start < data.len(),
        head == window_of(data.skip(start), window),
        head == data.subrange(start, data.len() as int),
        !occurs(head, TERMINATOR),
    ensures
        start + head.len() == data.len(),
        data.take(start + head.len()) == data.take(start) + head,
        first_failure(data.skip(start), window, mode, id) == failure_from(
            data,
            start,
            head,
            window,
            mode,
            id,
        ),
{
    let rest = data.skip(start);
    lemma_cut_len(head);
    assert(rest =~= head);
    assert(cut_len(head) == head.len());
    assert(rest.take(cut_len(head)) =~= head);
    assert(rest.skip(cut_len(head)) =~= data.skip(start + head.len()));
    assert(data.take(start + head.len()) =~= data.take(start) + head);
    lemma_failure_after_chunk(rest, window, mode, id);
}

/// The bytes that a reader at `pos` is given are the window at `pos`.
proof fn lemma_window_at(data: Seq<u8>, pos: int, end: int, window: nat)
    requires
        0 <= pos <= data.len(),
        end == (if data.len() - pos <= window {
            data.len() as int
        } else {
            pos + window
        }),
    ensures
        data.subrange(pos, end) == window_of(data.skip(pos), window),
{
    assert(data.subrange(pos, end) =~= window_of(data.skip(pos), window));
}

/// Parses one chunk and merges its statistics into `total`, which holds the
/// statistics of `before`, the input up to the chunk.
fn take_chunk(
    total: &mut Aggregate,
    skipped: &mut usize,
    chunk: &Chunk,
    mode: Mode,
    Ghost(before): Ghost<Seq<u8>>,
) -> (done: Result<(), Error>)
    requires
        old(total)@ == chunk_stats(before),
        *old(skipped) == malformed_count(lines(before)),
        before.len() == 0 || before.last() == TERMINATOR,
        before.len() + chunk.bytes@.len() <= usize::MAX,
    ensures
        done is Err <==> mode == Mode::Strict && !all_sound(lines(chunk.bytes@)),
        done matches Err(e) ==> e == (Error::MalformedRecord {
            chunk: chunk.id,
            line: first_fault(lines(chunk.bytes@)).0 as usize,
            fault: first_fault(lines(chunk.bytes@)).1,
        }),
        done is Ok ==> final(total)@ == chunk_stats(before + chunk.bytes@) && *final(skipped)
            == malformed_count(lines(before + chunk.bytes@)),
{
    let ghost head = chunk.bytes@;
    let ghost after = before + head;
    proof {
        lemma_lines_concat(before, head);
        lemma_fold_lines_concat(lines(before), lines(head));
        lemma_lines_len(after);
        lemma_counts_within(lines(after));
    }
    let partial = match parse_chunk(chunk, mode) {
        Ok(partial) => partial,
        Err(e) => {
            proof {
                match e {
                    Error::MalformedRecord { chunk: c, line, fault } => {
                        lemma_first_fault_unique(lines(head), line as int, fault);
                    },
                    _ => {},
                }
            }
            return Err(e);
        },
    };
    let ghost merged = merge_maps(total@, partial.aggregate@);
    proof {
        assert(merged == chunk_stats(after));
        assert forall|k: Seq<u8>|
            total@.contains_key(k) && partial.aggregate@.contains_key(k) implies (
        #[trigger] total@[k]).count + partial.aggregate@[k].count <= u64::MAX by {
            assert(merged.contains_key(k));
            assert(merged[k].count <= lines(after).len());
        }
    }
    match total.merge(partial.aggregate) {
        Ok(()) => {},
        Err(e) => {
            proof {
                assert(false);
            }
            return Err(e);
        },
    }
    *skipped = *skipped + partial.skipped;
    Ok(())
}

/// Computes the final result of `data`, read through a window of the given
/// size. Succeeds exactly if every line fits the window and, in strict mode,
/// no line is malformed; else fails with the first failure of the run.
pub fn summarize(data: &[u8], window: usize, mode: Mode) -> (out: Result<Summary, Error>)
    requires
        window > 0,
    ensures
        out is Ok <==> lines_fit(data@, window as nat) && (mode == Mode::Strict ==> all_sound(
            lines(data@),
        )),
        out matches Err(e) ==> first_failure(data@, window as nat, mode, 0) == Some(e),
        out matches Ok(summary) ==> {
            &&& is_result_of(summary.result@, chunk_stats(data@))
            &&& summary.skipped == malformed_count(lines(data@))
        },
{
    let (total, skipped) = match run_chunks(data, window, mode) {
        Ok(done) => done,
        Err(e) => {
            proof {
                lemma_run_succeeds_iff(data@, window as nat, mode, 0);
            }
            return Err(e);
        },
    };
    proof {
        lemma_run_succeeds_iff(data@, window as nat, mode, 0);
    }
    let result = FinalResult::from_aggregate(total);
    Ok(Summary { result, skipped })
}

/// Cuts `data`, parses each chunk and merges the statistics, chunk by chunk.
fn run_chunks(data: &[u8], window: usize, mode: Mode) -> (out: Result<(Aggregate, usize), Error>)
    requires
        window > 0,
    ensures
        out is Err <==> first_failure(data@, window as nat, mode, 0) is Some,
        out matches Err(e) ==> first_failure(data@, window as nat, mode, 0) == Some(e),
        out matches Ok(done) ==> {
            &&& done.0@ == chunk_stats(data@)
            &&& done.1 == malformed_count(lines(data@))
        },
{
    let mut reader = ChunkReader::new(window);
    let mut total = Aggregate::new();
    let mut skipped: usize = 0;
    let mut pos: usize = 0;
    let mut finished = false;
    let ghost start: int = 0;
    let ghost failure = first_failure(data@, window as nat, mode, 0);
    proof {
        assert(data@.skip(0) =~= data@);
        assert(data@.take(0) =~= Seq::<u8>::empty());
    }
    while !finished
        invariant
            window > 0,
            0 <= start <= pos <= data.len(),
            failure == first_failure(data@, window as nat, mode, 0),
            reader@.window == window,
            reader@.next_id <= start,
            failure == first_failure(data@.skip(start), window as nat, mode, reader@.next_id),
            total@ == chunk_stats(data@.take(start)),
            skipped == malformed_count(lines(data@.take(start))),
            start == 0 || data@[start - 1] == TERMINATOR || start == data.len(),
            reader@.held is None ==> start == pos,
            reader@.held is Some ==> start < pos && reader@.held->0 == data@.subrange(
                start,
                pos as int,
            ) && reader@.held->0 == window_of(data@.skip(start), window as nat) && !occurs(
                reader@.held->0,
                TERMINATOR,
            ),
            finished ==> start == data.len(),
        decreases
                (if finished {
                    0int
                } else {
                    1int
                }) + (if reader@.held is Some {
                    1int
                } else {
                    0int
                }) + 2 * (data.len() - pos),
    {
        let end = if data.len() - pos <= window {
            data.len()
        } else {
            pos + window
        };
        let filled = slice_subrange(data, pos, end);
        let ghost id = reader@.next_id;
        let ghost was_held = reader@.held;
        proof {
            lemma_window_at(data@, pos as int, end as int, window as nat);
        }
        match reader.on_read(filled) {
            Ok(ReadStep::Finished) => {
                finished = true;
            },
            Ok(ReadStep::ReadOn) => {
                pos = end;
            },
            Ok(ReadStep::Emit { chunk, rewind }) => {
                let ghost head = chunk.bytes@;
                let ghost before = data@.take(start);
                proof {
                    if was_held is Some {
                        lemma_chunk_at_end(data@, start, head, window as nat, mode, id);
                    } else {
                        lemma_chunk_from_window(
                            data@,
                            start,
                            filled@,
                            head,
                            window as nat,
                            mode,
                            id,
                        );
                    }
                    if start > 0 {
                        assert(before.last() == data@[start - 1]);
                    }
                }
                match take_chunk(&mut total, &mut skipped, &chunk, mode, Ghost(before)) {
                    Ok(()) => {},
                    Err(e) => {
                        return Err(e);
                    },
                }
                pos = end - rewind;
                proof {
                    start = start + head.len();
                }
            },
            Err(e) => {
                proof {
                    lemma_failure_on_overflow(data@.skip(start), window as nat, mode, id);
                }
                return Err(e);
            },
        }
    }
    proof {
        assert(data@.take(start) =~= data@);
        lemma_no_failure_at_end(data@.skip(start), window as nat, mode, reader@.next_id);
    }
    Ok((total, skipped))
}

} // verus!
