//! Cutting a byte stream into chunks that end at line terminators.

use vstd::prelude::*;
use vstd::slice::slice_subrange;
use vstd::slice::slice_to_vec;
use crate::error::Error;
use crate::text::TERMINATOR;
use crate::text::occurs;
use crate::text::last_end;
use crate::text::lemma_last_end;
use crate::text::first_index;
use crate::text::lemma_first_index;
use crate::text::lemma_first_index_unique;
use crate::text::find_last_end;

verus! {

/// A run of whole lines, numbered in the order in which it was cut.
#[derive(Debug)]
pub struct Chunk {
    pub id: usize,
    pub bytes: Vec<u8>,
}

impl Chunk {
    /// Copies `data` into a chunk, unless it is longer than the read window.
    pub fn new(id: usize, data: &[u8], window: usize) -> (made: Option<Chunk>)
        ensures
            made is Some <==> data@.len() <= window,
            made matches Some(c) ==> c.id == id && c.bytes@ == data@,
    {
        if data.len() <= window {
            Some(Chunk { id, bytes: slice_to_vec(data) })
        } else {
            None
        }
    }
}

/// How many leading bytes of a filled window form the next chunk: up to and
/// including the last terminator, or the whole window when it holds none.
pub open spec fn cut_len(filled: Seq<u8>) -> int {
    if occurs(filled, TERMINATOR) {
        last_end(filled, TERMINATOR)
    } else {
        filled.len() as int
    }
}

/// A cut is never empty unless the window is, never longer than the window,
/// ends on a terminator whenever the window holds one, and leaves no
/// terminator behind it.
pub proof fn lemma_cut_len(filled: Seq<u8>)
    ensures
        0 <= cut_len(filled) <= filled.len(),
        filled.len() > 0 ==> cut_len(filled) > 0,
        occurs(filled, TERMINATOR) ==> filled[cut_len(filled) - 1] == TERMINATOR,
        forall|i: int| cut_len(filled) <= i < filled.len() ==> filled[i] != TERMINATOR,
{
    lemma_last_end(filled, TERMINATOR);
}

/// A window whose last byte is a terminator is cut at its end: nothing is
/// left to be read again.
pub proof fn lemma_terminated_window_is_whole(filled: Seq<u8>)
    requires
        filled.len() > 0,
        filled.last() == TERMINATOR,
    ensures
        cut_len(filled) == filled.len(),
{
    assert(filled[filled.len() - 1] == TERMINATOR);
    assert(occurs(filled, TERMINATOR));
}

/// Computes where to cut a filled window. The caller emits the bytes before
/// the cut and moves its cursor back by `filled.len() - cut`.
pub fn split_window(filled: &[u8]) -> (cut: usize)
    ensures
        cut as int == cut_len(filled@),
        cut <= filled.len(),
        filled@.len() > 0 ==> cut > 0,
{
    let end = find_last_end(filled, TERMINATOR);
    proof {
        lemma_last_end(filled@, TERMINATOR);
    }
    if end == 0 {
        filled.len()
    } else {
        end
    }
}

/// The window that a reader at the start of `data` fills.
pub open spec fn window_of(data: Seq<u8>, window: nat) -> Seq<u8> {
    if data.len() <= window {
        data
    } else {
        data.take(window as int)
    }
}

/// The chunks that `data` is cut into with the given window, or the index of
/// the chunk that ends inside a line although more input follows.
pub open spec fn chunk_cuts(data: Seq<u8>, window: nat) -> Result<Seq<Seq<u8>>, nat>
    decreases data.len(),
{
    if data.len() == 0 {
        Ok(Seq::empty())
    } else if window == 0 {
        Err(0)
    } else {
        let filled = window_of(data, window);
        let cut = cut_len(filled);
        proof {
            lemma_cut_len(filled);
        }
        if !occurs(filled, TERMINATOR) && cut < data.len() {
            Err(0)
        } else {
            match chunk_cuts(data.skip(cut), window) {
                Ok(tail) => Ok(seq![data.take(cut)] + tail),
                Err(at) => Err(at + 1),
            }
        }
    }
}

/// The state of a reader between two reads.
pub struct ReaderState {
    /// The most bytes that one read may deliver.
    pub window: nat,
    /// The id that the next chunk gets.
    pub next_id: nat,
    /// The bytes of a window without terminator, held back until the next
    /// read shows whether the input ends with them.
    pub held: Option<Seq<u8>>,
}

/// What the caller of a reader does next.
#[derive(Debug)]
pub enum ReadStep {
    /// Hand `chunk` on and move the cursor back by `rewind` bytes.
    Emit { chunk: Chunk, rewind: usize },
    /// Nothing to hand on yet: read again.
    ReadOn,
    /// The input is exhausted.
    Finished,
}

/// The state in which a read of `filled` leaves a reader.
pub open spec fn after_read(state: ReaderState, filled: Seq<u8>) -> ReaderState {
    if filled.len() == 0 {
        ReaderState {
            window: state.window,
            next_id: if state.held is Some {
                state.next_id + 1
            } else {
                state.next_id
            },
            held: None,
        }
    } else if state.held is Some {
        state
    } else if occurs(filled, TERMINATOR) {
        ReaderState { window: state.window, next_id: state.next_id + 1, held: None }
    } else {
        ReaderState { window: state.window, next_id: state.next_id, held: Some(filled) }
    }
}

/// Whether `step` is the answer of a reader in `state` to a read of `filled`.
/// An empty read ends the input: what was held back is its last chunk.
/// Bytes that follow a window without terminator show that a line did not
/// fit the window. A window with a terminator is cut after its last one; a
/// window without is held back.
pub open spec fn is_step(state: ReaderState, filled: Seq<u8>, step: Result<ReadStep, Error>) -> bool {
    if filled.len() == 0 {
        match state.held {
            Some(bytes) => {
                &&& step matches Ok(ReadStep::Emit { chunk, rewind })
                &&& chunk.id == state.next_id
                &&& chunk.bytes@ == bytes
                &&& rewind == 0
            },
            None => step == Ok::<ReadStep, Error>(ReadStep::Finished),
        }
    } else if state.held is Some {
        step == Err::<ReadStep, Error>(Error::BoundaryOverflow { chunk: state.next_id as usize })
    } else if occurs(filled, TERMINATOR) {
        &&& step matches Ok(ReadStep::Emit { chunk, rewind })
        &&& chunk.id == state.next_id
        &&& chunk.bytes@ == filled.take(cut_len(filled))
        &&& rewind == filled.len() - cut_len(filled)
    } else {
        step == Ok::<ReadStep, Error>(ReadStep::ReadOn)
    }
}

/// Decides, read by read, what becomes a chunk. The caller owns the file: it
/// reads up to `window` bytes at its cursor, reports them, and does what the
/// returned step says.
#[derive(Debug)]
pub struct ChunkReader {
    window: usize,
    next_id: usize,
    held: Option<Vec<u8>>,
}

impl View for ChunkReader {
    type V = ReaderState;

    closed spec fn view(&self) -> ReaderState {
        ReaderState {
            window: self.window as nat,
            next_id: self.next_id as nat,
            held: match self.held {
                Some(bytes) => Some(bytes@),
                None => None,
            },
        }
    }
}

impl ChunkReader {
    /// A reader before its first read.
    pub fn new(window: usize) -> (reader: ChunkReader)
        requires
            window > 0,
        ensures
            reader@ == (ReaderState { window: window as nat, next_id: 0, held: None }),
    {
        ChunkReader { window, next_id: 0, held: None }
    }

    /// The most bytes that one read may deliver.
    pub fn window(&self) -> (w: usize)
        ensures
            w == self@.window,
    {
        self.window
    }

    /// The id that the next chunk gets, which is also the number of chunks
    /// emitted so far.
    pub fn next_id(&self) -> (id: usize)
        ensures
            id == self@.next_id,
    {
        self.next_id
    }

    /// Whether a window without terminator is held back.
    pub fn holds(&self) -> (held: bool)
        ensures
            held == self@.held is Some,
    {
        self.held.is_some()
    }

    /// Takes the bytes of one read and says what to do next.
    pub fn on_read(&mut self, filled: &[u8]) -> (step: Result<ReadStep, Error>)
        requires
            filled@.len() <= old(self)@.window,
            filled@.len() > 0 || old(self)@.held is Some ==> old(self)@.next_id < usize::MAX,
        ensures
            is_step(old(self)@, filled@, step),
            final(self)@ == after_read(old(self)@, filled@),
    {
        if filled.len() == 0 {
            let held = self.held.take();
            return match held {
                Some(bytes) => {
                    let chunk = Chunk { id: self.next_id, bytes };
                    self.next_id = self.next_id + 1;
                    Ok(ReadStep::Emit { chunk, rewind: 0 })
                },
                None => Ok(ReadStep::Finished),
            };
        }
        if self.held.is_some() {
            return Err(Error::BoundaryOverflow { chunk: self.next_id });
        }
        let cut = split_window(filled);
        proof {
            lemma_cut_len(filled@);
        }
        if filled[cut - 1] == TERMINATOR {
            proof {
                assert(occurs(filled@, TERMINATOR));
            }
            let made = Chunk::new(self.next_id, slice_subrange(filled, 0, cut), self.window);
            let chunk = made.unwrap();
            self.next_id = self.next_id + 1;
            Ok(ReadStep::Emit { chunk, rewind: filled.len() - cut })
        } else {
            self.held = Some(slice_to_vec(filled));
            Ok(ReadStep::ReadOn)
        }
    }
}

/// The byte contents of a run of chunks.
pub open spec fn chunk_bytes(chunks: Seq<Chunk>) -> Seq<Seq<u8>> {
    Seq::new(chunks.len(), |i: int| chunks[i].bytes@)
}

/// Whether each chunk's id is its position in the run.
pub open spec fn numbered(chunks: Seq<Chunk>) -> bool {
    forall|i: int| 0 <= i < chunks.len() ==> (#[trigger] chunks[i]).id == i
}

/// The parts of `parts`, one after the other.
pub open spec fn concat(parts: Seq<Seq<u8>>) -> Seq<u8>
    decreases parts.len(),
{
    if parts.len() == 0 {
        Seq::empty()
    } else {
        parts[0] + concat(parts.skip(1))
    }
}

/// The cuts of a whole input, given the chunks cut so far and the cuts of
/// what is left.
pub open spec fn prepend(done: Seq<Seq<u8>>, rest: Result<Seq<Seq<u8>>, nat>) -> Result<
    Seq<Seq<u8>>,
    nat,
> {
    match rest {
        Ok(tail) => Ok(done + tail),
        Err(at) => Err(done.len() + at),
    }
}

/// Cuts an input that is held in memory, as a reader with the given window
/// cuts a file.
pub fn split_chunks(data: &[u8], window: usize) -> (out: Result<Vec<Chunk>, Error>)
    requires
        window > 0,
    ensures
        out is Ok <==> lines_fit(data@, window as nat),
        out matches Ok(chunks) ==> {
            &&& numbered(chunks@)
            &&& chunk_cuts(data@, window as nat) is Ok
            &&& chunk_cuts(data@, window as nat)->Ok_0 == chunk_bytes(chunks@)
        },
        out matches Err(e) ==> {
            &&& chunk_cuts(data@, window as nat) is Err
            &&& e == (Error::BoundaryOverflow {
                chunk: chunk_cuts(data@, window as nat)->Err_0 as usize,
            })
        },
{
    let mut reader = ChunkReader::new(window);
    let mut chunks: Vec<Chunk> = Vec::new();
    let mut pos: usize = 0;
    let mut finished = false;
    let ghost all = chunk_cuts(data@, window as nat);
    proof {
        lemma_cuts_exist_iff_lines_fit(data@, window as nat);
        assert(data@.skip(0) =~= data@);
        match all {
            Ok(cuts) => {
                assert(chunk_bytes(chunks@) + cuts =~= cuts);
            },
            Err(at) => {},
        }
    }
    while !finished
        invariant
            window > 0,
            pos <= data.len(),
            all == chunk_cuts(data@, window as nat),
            all is Ok <==> lines_fit(data@, window as nat),
            reader@.window == window,
            reader@.next_id == chunks.len(),
            numbered(chunks@),
            reader@.held is None ==> chunks.len() <= pos && all == prepend(
                chunk_bytes(chunks@),
                chunk_cuts(data@.skip(pos as int), window as nat),
            ),
            reader@.held is Some ==> chunks.len() < pos,
            reader@.held is Some && pos < data.len() ==> all is Err && all->Err_0 == chunks.len(),
            reader@.held is Some && pos == data.len() ==> all is Ok && all->Ok_0 == chunk_bytes(
                chunks@,
            ) + seq![reader@.held->0],
            finished ==> all is Ok && all->Ok_0 == chunk_bytes(chunks@),
        decreases
                (if finished {
                    0int
                } else {
                    1int
                }) + (if reader@.held is Some {
                    1int
                } else {
                    0int
                }) + 2 * (data.len() - pos),
    {
        let end = if data.len() - pos <= window {
            data.len()
        } else {
            pos + window
        };
        let filled = slice_subrange(data, pos, end);
        let ghost rest = data@.skip(pos as int);
        let ghost done = chunk_bytes(chunks@);
        proof {
            assert(filled@ =~= window_of(rest, window as nat));
            lemma_cut_len(filled@);
            if rest.len() == 0 {
                assert(done + Seq::<Seq<u8>>::empty() =~= done);
            }
        }
        match reader.on_read(filled) {
            Ok(ReadStep::Finished) => {
                finished = true;
            },
            Ok(ReadStep::ReadOn) => {
                proof {
                    assert(rest.take(filled@.len() as int) =~= filled@);
                    assert(rest.skip(filled@.len() as int) =~= data@.skip(end as int));
                    match chunk_cuts(data@.skip(end as int), window as nat) {
                        Ok(tail) => {
                            if end == data.len() {
                                assert(tail =~= Seq::<Seq<u8>>::empty());
                                assert(done + (seq![filled@] + tail) =~= done + seq![filled@]);
                            }
                        },
                        Err(at) => {},
                    }
                }
                pos = end;
            },
            Ok(ReadStep::Emit { chunk, rewind }) => {
                let ghost cut = cut_len(filled@);
                let ghost head = chunk.bytes@;
                proof {
                    if filled@.len() > 0 {
                        assert(head =~= rest.take(cut));
                        assert(rest.skip(cut) =~= data@.skip(pos + cut));
                    }
                }
                pos = end - rewind;
                chunks.push(chunk);
                proof {
                    assert(chunk_bytes(chunks@) =~= done + seq![head]);
                    if filled@.len() > 0 {
                        match chunk_cuts(rest.skip(cut), window as nat) {
                            Ok(tail) => {
                                assert(done + (seq![head] + tail) =~= (done + seq![head]) + tail);
                            },
                            Err(at) => {},
                        }
                    } else {
                        assert(data@.skip(pos as int).len() == 0);
                        assert(chunk_bytes(chunks@) + Seq::<Seq<u8>>::empty() =~= chunk_bytes(
                            chunks@,
                        ));
                    }
                }
            },
            Err(e) => {
                return Err(e);
            },
        }
    }
    Ok(chunks)
}

/// Cutting loses nothing and splits no line: the chunks, one after the other,
/// are the input; none is empty or longer than the window; and each but the
/// last ends in a terminator.
pub proof fn lemma_cuts_rebuild_input(data: Seq<u8>, window: nat)
    requires
        chunk_cuts(data, window) is Ok,
    ensures
        concat(chunk_cuts(data, window)->Ok_0) == data,
        forall|i: int|
            0 <= i < chunk_cuts(data, window)->Ok_0.len() ==> 0 < (#[trigger] chunk_cuts(
                data,
                window,
            )->Ok_0[i]).len() <= window,
        forall|i: int|
            0 <= i < chunk_cuts(data, window)->Ok_0.len() - 1 ==> (#[trigger] chunk_cuts(
                data,
                window,
            )->Ok_0[i]).last() == TERMINATOR,
    decreases data.len(),
{
    let cuts = chunk_cuts(data, window)->Ok_0;
    if data.len() == 0 {
    } else {
        let filled = window_of(data, window);
        let cut = cut_len(filled);
        lemma_cut_len(filled);
        let head = data.take(cut);
        let rest = data.skip(cut);
        lemma_cuts_rebuild_input(rest, window);
        let tail = chunk_cuts(rest, window)->Ok_0;
        assert(cuts == seq![head] + tail);
        assert(cuts.skip(1) =~= tail);
        assert(head + rest =~= data);
        assert forall|i: int| 0 <= i < cuts.len() implies 0 < (#[trigger] cuts[i]).len()
            <= window by {
            if i > 0 {
                assert(cuts[i] == tail[i - 1]);
            }
        }
        assert forall|i: int| 0 <= i < cuts.len() - 1 implies (#[trigger] cuts[i]).last()
            == TERMINATOR by {
            if i > 0 {
                assert(cuts[i] == tail[i - 1]);
            } else {
                assert(tail.len() > 0);
                assert(rest.len() > 0);
                assert(head[cut - 1] == filled[cut - 1]);
            }
        }
    }
}

/// Whether every line of `s`, counted with its terminator if it has one, is
/// at most `window` bytes long.
pub open spec fn lines_fit(s: Seq<u8>, window: nat) -> bool
    decreases s.len(),
{
    if s.len() == 0 {
        true
    } else {
        let end = first_index(s, TERMINATOR);
        proof {
            lemma_first_index(s, TERMINATOR);
        }
        if end < s.len() {
            end + 1 <= window && lines_fit(s.skip(end + 1), window)
        } else {
            s.len() <= window
        }
    }
}

/// The lines of an input that is no longer than the window fit the window.
pub proof fn lemma_short_input_fits(s: Seq<u8>, window: nat)
    requires
        s.len() <= window,
    ensures
        lines_fit(s, window),
    decreases s.len(),
{
    if s.len() > 0 {
        let end = first_index(s, TERMINATOR);
        lemma_first_index(s, TERMINATOR);
        if end < s.len() {
            lemma_short_input_fits(s.skip(end + 1), window);
        }
    }
}

/// After a run of whole lines, the lines of what follows fit the window
/// exactly if the lines of both together do, provided the lines of the
/// first run fit.
pub proof fn lemma_lines_fit_concat(a: Seq<u8>, b: Seq<u8>, window: nat)
    requires
        a.len() == 0 || a.last() == TERMINATOR,
        lines_fit(a, window),
    ensures
        lines_fit(a + b, window) <==> lines_fit(b, window),
    decreases a.len(),
{
    if a.len() == 0 {
        assert(a + b =~= b);
    } else {
        let end = first_index(a, TERMINATOR);
        lemma_first_index(a, TERMINATOR);
        assert(a[a.len() - 1] == TERMINATOR);
        assert(occurs(a, TERMINATOR));
        assert forall|i: int| 0 <= i < end implies (a + b)[i] != TERMINATOR by {
            assert((a + b)[i] == a[i]);
        }
        assert((a + b)[end] == a[end]);
        lemma_first_index_unique(a + b, TERMINATOR, end);
        let rest = a.skip(end + 1);
        assert((a + b).skip(end + 1) =~= rest + b);
        if rest.len() > 0 {
            assert(rest.last() == a.last());
        }
        lemma_lines_fit_concat(rest, b, window);
    }
}

/// When cutting succeeds: an input can be cut with a window exactly if each
/// of its lines, counted with its terminator, fits the window.
pub proof fn lemma_cuts_exist_iff_lines_fit(data: Seq<u8>, window: nat)
    requires
        window > 0,
    ensures
        chunk_cuts(data, window) is Ok <==> lines_fit(data, window),
    decreases data.len(),
{
    if data.len() > 0 {
        let filled = window_of(data, window);
        let cut = cut_len(filled);
        lemma_cut_len(filled);
        lemma_first_index(data, TERMINATOR);
        let end = first_index(data, TERMINATOR);
        if !occurs(filled, TERMINATOR) && cut < data.len() {
            if end < window {
                assert(filled[end] == data[end]);
            }
        } else {
            let head = data.take(cut);
            let rest = data.skip(cut);
            assert(data =~= head + rest);
            lemma_cuts_exist_iff_lines_fit(rest, window);
            lemma_short_input_fits(head, window);
            if occurs(filled, TERMINATOR) {
                assert(head.last() == filled[cut - 1]);
                lemma_lines_fit_concat(head, rest, window);
            } else {
                assert(head =~= data);
            }
        }
    }
}

} // verus!
