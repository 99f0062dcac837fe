//! The reading side of the archive: bytes in as they arrive, batches out when
//! they are due.

use vstd::prelude::*;
use vstd::slice::slice_subrange;

use crate::batch::{is_stored, room_for, stored_row, stored_rows, Batch, Row};
use crate::flow::{decode_flow, scan_flow, FlowData};
use crate::flush::take_full;
use crate::frames::{
    encode_frames, extract_ready_frames, frames, joined, law_chunking_irrelevant,
    law_frames_apart, law_frames_in_bounds, law_frames_round_trip, law_messages_lie_in_ranges,
    messages_in, next_frame, parsed, ranges_view, read_chunks, FrameDesync,
};

verus! {

/// The flows that well-formed messages among these describe, in order.
pub open spec fn flows_in(messages: Seq<Seq<u8>>) -> Seq<FlowData>
    decreases messages.len(),
{
    if messages.len() == 0 {
        Seq::empty()
    } else {
        match decode_flow(messages.last()) {
            Some(f) => flows_in(messages.drop_last()).push(f),
            None => flows_in(messages.drop_last()),
        }
    }
}

/// The rows that messages are stored as: malformed ones and those between other
/// things than addresses are left out.
pub open spec fn rows_in(messages: Seq<Seq<u8>>) -> Seq<Row> {
    stored_rows(flows_in(messages))
}

/// Whether a batch that has the given rows can take the messages one after the
/// other.
pub open spec fn has_room_for(rows: Seq<Row>, messages: Seq<Seq<u8>>) -> bool
    decreases messages.len(),
{
    messages.len() == 0 || {
        &&& has_room_for(rows, messages.drop_last())
        &&& decode_flow(messages.last()) matches Some(f) ==> stored_row(f) is Some ==> room_for(
            rows + rows_in(messages.drop_last()),
            f,
        )
    }
}

/// What the consumer has: the rows of the batch it is filling, and the bytes that
/// do not make a whole frame yet.
#[verifier::ext_equal]
pub struct Intake {
    pub rows: Seq<Row>,
    pub pending: Seq<u8>,
}

/// The consumer's state after one more piece of the stream; nothing where the
/// stream turns out to be out of step.
pub open spec fn after_chunk(state: Intake, chunk: Seq<u8>) -> Option<Intake> {
    let buf = state.pending + chunk;
    if parsed(buf).desync {
        None
    } else {
        Some(
            Intake {
                rows: state.rows + rows_in(parsed(buf).messages),
                pending: buf.skip(parsed(buf).consumed),
            },
        )
    }
}

/// The state of a fresh consumer after the given pieces of the stream; nothing
/// where one of them brings it out of step.
pub open spec fn after_chunks(chunks: Seq<Seq<u8>>) -> Option<Intake>
    decreases chunks.len(),
{
    if chunks.len() == 0 {
        Some(Intake { rows: Seq::empty(), pending: Seq::empty() })
    } else {
        match after_chunks(chunks.drop_last()) {
            Some(state) => after_chunk(state, chunks.last()),
            None => None,
        }
    }
}

/// Why a piece of the stream could not be taken.
#[derive(Debug, Clone, Copy, PartialEq, Eq, Structural)]
pub enum IngestError {
    /// The stream is out of step.
    Desync(FrameDesync),
    /// The batch has no room for another flow.
    BatchFull,
}

/// What a piece of the stream brought.
#[derive(Debug, Clone, Copy, PartialEq, Eq, Structural)]
pub struct Ingested {
    /// Whole frames.
    pub frames: usize,
    /// Well-formed messages among them, whether or not they are stored.
    pub flows: usize,
    /// Malformed messages among them.
    pub skipped: usize,
}

/// What becomes of one more piece of the stream.
pub open spec fn outcome(state: Intake, chunk: Seq<u8>) -> Result<Ingested, IngestError> {
    let buf = state.pending + chunk;
    let messages = parsed(buf).messages;
    match frames(buf).desync {
        Some(at) => Err(
            IngestError::Desync(FrameDesync { at: at as usize, found: buf[at] }),
        ),
        None => if has_room_for(state.rows, messages) {
            Ok(
                Ingested {
                    frames: messages.len() as usize,
                    flows: flows_in(messages).len() as usize,
                    skipped: (messages.len() - flows_in(messages).len()) as usize,
                },
            )
        } else {
            Err(IngestError::BatchFull)
        },
    }
}

/// Whether this is what a consumer is left with where a piece of the stream could not
/// be taken: the piece stays with the bytes before it. Where the stream is out of step
/// no row was added; where the batch is full, those before the first flow without room.
pub open spec fn left_after(before: Intake, chunk: Seq<u8>, e: IngestError, after: Intake) -> bool {
    let buf = before.pending + chunk;
    let messages = parsed(buf).messages;
    &&& after.pending == buf
    &&& match e {
        IngestError::Desync(_) => after.rows == before.rows,
        IngestError::BatchFull => exists|k: int|
            0 <= k < messages.len() && has_room_for(before.rows, #[trigger] messages.take(k))
                && !has_room_for(before.rows, messages.take(k + 1)) && after.rows == before.rows
                + rows_in(messages.take(k)),
    }
}

/// What a consumer is told.
pub enum Event<'a> {
    /// A piece of the stream was read.
    Chunk(&'a [u8]),
    /// So many whole seconds have gone by since the batch was last handed over.
    Elapsed(u64),
    /// The writer has closed the stream.
    Closed,
    /// The program is to end.
    Shutdown,
}

/// What is to be done next. Where a batch is handed over, there may be none, as one
/// without rows is kept; the time of handing over counts either way.
pub enum Action {
    /// Read on.
    Read,
    /// Look how long ago the batch was last handed over.
    Measure,
    /// Hand the batch over and read on.
    Flush(Option<Batch>),
    /// Hand the batch over, and open the stream again.
    Reopen(Option<Batch>),
    /// Hand the batch over and end.
    Stop(Option<Batch>),
    /// End: the stream cannot be read on.
    Fail(IngestError),
}

/// Whether what was handed over is the batch as it was, unless it had no rows, and
/// what is left is an empty one, with the same bytes waiting for the rest of their
/// frame.
pub open spec fn hands_over(before: Intake, full: Option<Batch>, after: Intake) -> bool {
    &&& full is None <==> before.rows.len() == 0
    &&& full matches Some(batch) ==> batch.wf() && batch@ == before.rows
    &&& after == (Intake { rows: Seq::empty(), pending: before.pending })
}

/// Reads the stream and fills a batch.
pub struct Consumer {
    batch: Batch,
    pending: Vec<u8>,
    flush_interval_secs: u64,
    processed: u64,
    skipped: u64,
}

impl View for Consumer {
    type V = Intake;

    closed spec fn view(&self) -> Intake {
        Intake { rows: self.batch@, pending: self.pending@ }
    }
}

proof fn lemma_flows_push(messages: Seq<Seq<u8>>, m: Seq<u8>)
    ensures
        flows_in(messages.push(m)) == match decode_flow(m) {
            Some(f) => flows_in(messages).push(f),
            None => flows_in(messages),
        },
{
    assert(messages.push(m).drop_last() =~= messages);
}

proof fn lemma_rows_push(messages: Seq<Seq<u8>>, m: Seq<u8>)
    ensures
        rows_in(messages.push(m)) == match decode_flow(m) {
            Some(f) => match stored_row(f) {
                Some(row) => rows_in(messages).push(row),
                None => rows_in(messages),
            },
            None => rows_in(messages),
        },
{
    lemma_flows_push(messages, m);
    if let Some(f) = decode_flow(m) {
        assert(flows_in(messages).push(f).drop_last() =~= flows_in(messages));
    }
}

proof fn lemma_room_for_fewer(rows: Seq<Row>, messages: Seq<Seq<u8>>, k: int)
    requires
        0 <= k <= messages.len(),
        has_room_for(rows, messages),
    ensures
        has_room_for(rows, messages.take(k)),
    decreases messages.len(),
{
    if k == messages.len() {
        assert(messages.take(k) =~= messages);
    } else {
        lemma_room_for_fewer(rows, messages.drop_last(), k);
        assert(messages.drop_last().take(k) =~= messages.take(k));
    }
}

proof fn lemma_rows_join(a: Seq<Seq<u8>>, b: Seq<Seq<u8>>)
    ensures
        rows_in(a + b) == rows_in(a) + rows_in(b),
    decreases b.len(),
{
    if b.len() == 0 {
        assert(a + b =~= a);
        assert(rows_in(a) + rows_in(b) =~= rows_in(a));
    } else {
        let c = b.drop_last();
        lemma_rows_join(a, c);
        assert(a + b =~= (a + c).push(b.last()));
        assert(b =~= c.push(b.last()));
        lemma_rows_push(a + c, b.last());
        lemma_rows_push(c, b.last());
        assert(rows_in(a + b) =~= rows_in(a) + rows_in(b));
    }
}

impl Consumer {
    /// What every operation keeps: the batch is in order.
    pub closed spec fn wf(self) -> bool {
        self.batch.wf()
    }

    /// How many seconds a batch is filled before it is handed over.
    pub closed spec fn interval(self) -> u64 {
        self.flush_interval_secs
    }

    /// How many well-formed messages there were so far, as far as 64 bits count.
    pub closed spec fn processed_so_far(self) -> u64 {
        self.processed
    }

    /// How many malformed messages there were so far, as far as 64 bits count.
    pub closed spec fn skipped_so_far(self) -> u64 {
        self.skipped
    }

    /// A consumer that has read nothing.
    pub fn new(flush_interval_secs: u64) -> (consumer: Consumer)
        ensures
            consumer.wf(),
            Some(consumer@) == after_chunks(Seq::empty()),
            consumer.interval() == flush_interval_secs,
            consumer.processed_so_far() == 0,
            consumer.skipped_so_far() == 0,
    {
        Consumer {
            batch: Batch::new(),
            pending: Vec::new(),
            flush_interval_secs,
            processed: 0,
            skipped: 0,
        }
    }

    /// How many well-formed messages there were so far.
    pub fn processed(&self) -> (n: u64)
        ensures
            n == self.processed_so_far(),
    {
        self.processed
    }

    /// How many malformed messages there were so far.
    pub fn skipped(&self) -> (n: u64)
        ensures
            n == self.skipped_so_far(),
    {
        self.skipped
    }

    /// Takes one more piece of the stream: adds the flows of the frames that are
    /// whole now, and keeps the bytes behind them for the next piece. Where the
    /// stream is out of step, nothing is added.
    pub fn ingest(&mut self, chunk: &[u8]) -> (res: Result<Ingested, IngestError>)
        requires
            old(self).wf(),
        ensures
            final(self).wf(),
            res == outcome(old(self)@, chunk@),
            res matches Ok(n) ==> {
                &&& Some(final(self)@) == after_chunk(old(self)@, chunk@)
                &&& final(self).processed_so_far() == old(self).processed_so_far().wrapping_add(
                    n.flows as u64,
                )
                &&& final(self).skipped_so_far() == old(self).skipped_so_far().wrapping_add(
                    n.skipped as u64,
                )
            },
            res matches Err(e) ==> {
                &&& left_after(old(self)@, chunk@, e, final(self)@)
                &&& final(self).processed_so_far() == old(self).processed_so_far()
                &&& final(self).skipped_so_far() == old(self).skipped_so_far()
            },
            final(self).interval() == old(self).interval(),
    {
        let ghost rows = self.batch@;
        let ghost buf = self.pending@ + chunk@;
        self.pending.extend_from_slice(chunk);
        assert(self.pending@ =~= buf);
        proof {
            reveal(parsed);
            law_frames_in_bounds(buf);
        }
        let (ranges, consumed) = match extract_ready_frames(self.pending.as_slice()) {
            Ok(found) => found,
            Err(e) => return Err(IngestError::Desync(e)),
        };
        let ghost messages = messages_in(buf, ranges_view(ranges@));
        let mut flows: usize = 0;
        let mut skipped: usize = 0;
        let mut i: usize = 0;
        assert(messages.take(0) =~= Seq::empty());
        assert(rows + rows_in(Seq::empty()) =~= rows);
        while i < ranges.len()
            invariant
                i <= ranges@.len(),
                self.batch.wf(),
                self.pending@ == buf,
                buf == old(self)@.pending + chunk@,
                rows == old(self)@.rows,
                self.interval() == old(self).interval(),
                self.processed_so_far() == old(self).processed_so_far(),
                self.skipped_so_far() == old(self).skipped_so_far(),
                frames(buf).desync is None,
                messages == parsed(buf).messages,
                messages == messages_in(buf, ranges_view(ranges@)),
                messages.len() == ranges@.len(),
                ranges_view(ranges@) == frames(buf).ranges,
                self.batch@ == rows + rows_in(messages.take(i as int)),
                has_room_for(rows, messages.take(i as int)),
                flows == flows_in(messages.take(i as int)).len(),
                skipped + flows == i,
            decreases ranges.len() - i,
        {
            let (start, end) = ranges[i];
            let ghost before = messages.take(i as int);
            let ghost m = messages[i as int];
            proof {
                law_frames_in_bounds(buf);
                assert(ranges_view(ranges@)[i as int] == (start as int, end as int));
                assert(messages.take(i + 1) =~= before.push(m));
                assert(before.push(m).drop_last() =~= before);
                lemma_flows_push(before, m);
                lemma_rows_push(before, m);
            }
            match scan_flow(slice_subrange(self.pending.as_slice(), start, end)) {
                Some(flow) => {
                    if is_stored(&flow) && !self.batch.has_room(&flow) {
                        proof {
                            assert(has_room_for(rows, messages.take(i as int)));
                            if has_room_for(rows, messages) {
                                lemma_room_for_fewer(rows, messages, i + 1);
                            }
                        }
                        return Err(IngestError::BatchFull);
                    }
                    self.batch.append(&flow);
                    flows = flows + 1;
                },
                None => {
                    skipped = skipped + 1;
                },
            }
            i = i + 1;
            assert(self.batch@ =~= rows + rows_in(messages.take(i as int)));
        }
        proof {
            assert(messages.take(i as int) =~= messages);
        }
        self.pending = self.pending.split_off(consumed);
        self.processed = self.processed.wrapping_add(flows as u64);
        self.skipped = self.skipped.wrapping_add(skipped as u64);
        Ok(Ingested { frames: ranges.len(), flows, skipped })
    }

    /// Hands over the batch and starts a new one, if it has any rows. Bytes that
    /// wait for the rest of their frame stay.
    pub fn flush(&mut self) -> (res: Option<Batch>)
        requires
            old(self).wf(),
        ensures
            final(self).wf(),
            hands_over(old(self)@, res, final(self)@),
            final(self).interval() == old(self).interval(),
            final(self).processed_so_far() == old(self).processed_so_far(),
            final(self).skipped_so_far() == old(self).skipped_so_far(),
    {
        take_full(&mut self.batch)
    }

    /// What is to be done after an event: a piece of the stream is taken in, and if
    /// it brought a frame the clock is looked at; the batch is handed over when it
    /// has been filled for the interval, when the writer closes the stream, lest it
    /// be lost, and at the end.
    pub fn step(&mut self, event: Event) -> (action: Action)
        requires
            old(self).wf(),
        ensures
            final(self).wf(),
            final(self).interval() == old(self).interval(),
            !(event is Chunk) ==> final(self).processed_so_far() == old(self).processed_so_far()
                && final(self).skipped_so_far() == old(self).skipped_so_far(),
            match event {
                Event::Chunk(chunk) => match outcome(old(self)@, chunk@) {
                    Ok(n) => {
                        &&& Some(final(self)@) == after_chunk(old(self)@, chunk@)
                        &&& final(self).processed_so_far()
                            == old(self).processed_so_far().wrapping_add(n.flows as u64)
                        &&& final(self).skipped_so_far()
                            == old(self).skipped_so_far().wrapping_add(n.skipped as u64)
                        &&& if n.frames > 0 {
                            action is Measure
                        } else {
                            action is Read
                        }
                    },
                    Err(e) => {
                        &&& action == Action::Fail(e)
                        &&& left_after(old(self)@, chunk@, e, final(self)@)
                        &&& final(self).processed_so_far() == old(self).processed_so_far()
                        &&& final(self).skipped_so_far() == old(self).skipped_so_far()
                    },
                },
                Event::Elapsed(secs) => if secs >= old(self).interval() {
                    action matches Action::Flush(full) && hands_over(old(self)@, full, final(self)@)
                } else {
                    action is Read && final(self)@ == old(self)@
                },
                Event::Closed => action matches Action::Reopen(full) && hands_over(
                    old(self)@,
                    full,
                    final(self)@,
                ),
                Event::Shutdown => action matches Action::Stop(full) && hands_over(
                    old(self)@,
                    full,
                    final(self)@,
                ),
            },
    {
        match event {
            Event::Chunk(chunk) => match self.ingest(chunk) {
                Ok(n) => if n.frames > 0 {
                    Action::Measure
                } else {
                    Action::Read
                },
                Err(e) => Action::Fail(e),
            },
            Event::Elapsed(secs) => if secs >= self.flush_interval_secs {
                Action::Flush(self.flush())
            } else {
                Action::Read
            },
            Event::Closed => Action::Reopen(self.flush()),
            Event::Shutdown => Action::Stop(self.flush()),
        }
    }
}

/// How the stream is cut into pieces makes no difference to what is stored: the
/// rows are those of the messages of the whole stream, the bytes behind its last
/// whole frame are kept, and the consumer finds the stream out of step exactly if
/// the whole is.
pub proof fn law_chunks_stored(chunks: Seq<Seq<u8>>)
    ensures
        after_chunks(chunks) == if parsed(joined(chunks)).desync {
            None
        } else {
            Some(
                Intake {
                    rows: rows_in(parsed(joined(chunks)).messages),
                    pending: joined(chunks).skip(parsed(joined(chunks)).consumed),
                },
            )
        },
{
    law_chunking_irrelevant(chunks);
    lemma_follows_reader(chunks);
}

proof fn lemma_follows_reader(chunks: Seq<Seq<u8>>)
    ensures
        after_chunks(chunks) == if read_chunks(chunks).desync {
            None
        } else {
            Some(
                Intake {
                    rows: rows_in(read_chunks(chunks).messages),
                    pending: read_chunks(chunks).pending,
                },
            )
        },
    decreases chunks.len(),
{
    if chunks.len() == 0 {
        assert(rows_in(Seq::empty()) =~= Seq::empty());
    } else {
        lemma_follows_reader(chunks.drop_last());
        let before = read_chunks(chunks.drop_last());
        let buf = before.pending + chunks.last();
        lemma_rows_join(before.messages, parsed(buf).messages);
    }
}

/// Every message that was framed into the stream and is stored at all is stored,
/// once and in its place, however the stream is cut into pieces, and nothing else
/// is; what has arrived of a further frame is kept.
pub proof fn law_stream_stored(messages: Seq<Seq<u8>>, tail: Seq<u8>, chunks: Seq<Seq<u8>>)
    requires
        forall|i: int| 0 <= i < messages.len() ==> (#[trigger] messages[i]).len() <= u64::MAX,
        next_frame(tail) is Incomplete,
        joined(chunks) == encode_frames(messages) + tail,
    ensures
        after_chunks(chunks) == Some(Intake { rows: rows_in(messages), pending: tail }),
{
    law_chunks_stored(chunks);
    law_frames_round_trip(messages, tail);
    assert((encode_frames(messages) + tail).skip(encode_frames(messages).len() as int) =~= tail);
}

/// One thing that happens to a consumer.
pub enum Step {
    /// A piece of the stream arrives.
    Read(Seq<u8>),
    /// The batch is handed over.
    HandOver,
}

/// The pieces of the stream among the steps.
pub open spec fn chunks_of(steps: Seq<Step>) -> Seq<Seq<u8>>
    decreases steps.len(),
{
    if steps.len() == 0 {
        Seq::empty()
    } else {
        match steps.last() {
            Step::Read(chunk) => chunks_of(steps.drop_last()).push(chunk),
            Step::HandOver => chunks_of(steps.drop_last()),
        }
    }
}

/// The rows that a fresh consumer has handed over after the given steps, and its
/// state then; nothing where the stream turned out to be out of step.
pub open spec fn after_steps(steps: Seq<Step>) -> Option<(Seq<Row>, Intake)>
    decreases steps.len(),
{
    if steps.len() == 0 {
        Some((Seq::empty(), Intake { rows: Seq::empty(), pending: Seq::empty() }))
    } else {
        match after_steps(steps.drop_last()) {
            Some((handed, state)) => match steps.last() {
                Step::Read(chunk) => match after_chunk(state, chunk) {
                    Some(next) => Some((handed, next)),
                    None => None,
                },
                Step::HandOver => Some(
                    (handed + state.rows, Intake { rows: Seq::empty(), pending: state.pending }),
                ),
            },
            None => None,
        }
    }
}

/// Handing batches over loses nothing and repeats nothing, whenever it happens:
/// the rows handed over, and those of the batch being filled behind them, are the
/// rows of the whole stream.
pub proof fn law_no_row_lost(steps: Seq<Step>)
    ensures
        match after_chunks(chunks_of(steps)) {
            Some(whole) => {
                &&& after_steps(steps) matches Some((handed, state))
                &&& handed + state.rows == whole.rows
                &&& state.pending == whole.pending
            },
            None => after_steps(steps) is None,
        },
    decreases steps.len(),
{
    if steps.len() == 0 {
        assert(Seq::<Row>::empty() + Seq::<Row>::empty() =~= Seq::<Row>::empty());
    } else {
        law_no_row_lost(steps.drop_last());
        let chunks = chunks_of(steps.drop_last());
        match steps.last() {
            Step::Read(chunk) => {
                assert(chunks.push(chunk).drop_last() =~= chunks);
                if let Some((handed, state)) = after_steps(steps.drop_last()) {
                    let more = rows_in(parsed(state.pending + chunk).messages);
                    assert(handed + (state.rows + more) =~= (handed + state.rows) + more);
                }
            },
            Step::HandOver => {
                if let Some((handed, state)) = after_steps(steps.drop_last()) {
                    assert((handed + state.rows) + Seq::<Row>::empty() =~= handed + state.rows);
                }
            },
        }
    }
}

/// Messages are taken one by one, in order: a well-formed one adds its flow, and its row
/// if the flow is stored; a malformed one adds nothing.
pub proof fn law_messages_in_order(messages: Seq<Seq<u8>>, m: Seq<u8>)
    ensures
        flows_in(Seq::empty()).len() == 0,
        rows_in(Seq::empty()).len() == 0,
        decode_flow(m) is None ==> {
            &&& flows_in(messages.push(m)) == flows_in(messages)
            &&& rows_in(messages.push(m)) == rows_in(messages)
        },
        decode_flow(m) matches Some(f) ==> {
            &&& flows_in(messages.push(m)) == flows_in(messages).push(f)
            &&& stored_row(f) is None ==> rows_in(messages.push(m)) == rows_in(messages)
            &&& stored_row(f) matches Some(row) ==> rows_in(messages.push(m)) == rows_in(
                messages,
            ).push(row)
        },
{
    lemma_flows_push(messages, m);
    lemma_rows_push(messages, m);
}

/// A batch can take messages exactly if, when its turn comes, each of them that is stored
/// finds room behind the rows that are there then.
pub proof fn law_room_for_messages(rows: Seq<Row>, messages: Seq<Seq<u8>>, m: Seq<u8>)
    ensures
        has_room_for(rows, Seq::empty()),
        has_room_for(rows, messages.push(m)) <==> has_room_for(rows, messages) && (
        decode_flow(m) is None || stored_row(decode_flow(m)->0) is None || room_for(
            rows + rows_in(messages),
            decode_flow(m)->0,
        )),
{
    assert(messages.push(m).drop_last() == messages);
}

proof fn lemma_fewer_flows(messages: Seq<Seq<u8>>)
    ensures
        flows_in(messages).len() <= messages.len(),
    decreases messages.len(),
{
    if messages.len() > 0 {
        lemma_fewer_flows(messages.drop_last());
    }
}

/// What a piece of the stream brings: where the bytes are out of step, that is reported
/// with the place and the byte that stands there; otherwise, if there is room, every
/// message counts once, as a flow if it is well formed and as skipped if it is not.
pub proof fn law_outcome(state: Intake, chunk: Seq<u8>)
    requires
        state.pending.len() + chunk.len() <= usize::MAX,
    ensures
        ({
            let buf = state.pending + chunk;
            let messages = parsed(buf).messages;
            &&& frames(buf).desync matches Some(at) ==> outcome(state, chunk) == Err::<
                Ingested,
                IngestError,
            >(IngestError::Desync(FrameDesync { at: at as usize, found: buf[at] }))
            &&& frames(buf).desync is None && !has_room_for(state.rows, messages) ==> outcome(
                state,
                chunk,
            ) == Err::<Ingested, IngestError>(IngestError::BatchFull)
            &&& frames(buf).desync is None && has_room_for(state.rows, messages) ==> (outcome(
                state,
                chunk,
            ) matches Ok(n) && n.frames == messages.len() && n.flows == flows_in(messages).len()
                && n.flows + n.skipped == n.frames)
        }),
{
    let buf = state.pending + chunk;
    law_frames_in_bounds(buf);
    law_frames_apart(buf);
    law_messages_lie_in_ranges(buf);
    lemma_fewer_flows(parsed(buf).messages);
}

/// What is handed over and what is left are together what there was: no row is lost,
/// none is left behind, an empty batch is not handed over, and the bytes that wait stay.
pub proof fn law_hand_over(before: Intake, full: Option<Batch>, after: Intake)
    requires
        hands_over(before, full, after),
    ensures
        before.rows == match full {
            Some(batch) => batch@,
            None => Seq::empty(),
        },
        full matches Some(batch) ==> batch@.len() > 0,
        after.rows.len() == 0,
        after.pending == before.pending,
{
    if full is None {
        assert(before.rows =~= Seq::empty());
    }
}

/// What a further piece of the stream does to a consumer that is in step: the rows there
/// are stay in front, behind them come those of the messages that are whole now, and the
/// bytes behind those messages wait.
pub proof fn law_chunk_adds(state: Intake, chunk: Seq<u8>)
    ensures
        after_chunk(state, chunk) is None <==> frames(state.pending + chunk).desync is Some,
        after_chunk(state, chunk) matches Some(next) ==> {
            let buf = state.pending + chunk;
            &&& next.rows == state.rows + rows_in(parsed(buf).messages)
            &&& 0 <= frames(buf).consumed <= buf.len()
            &&& next.pending == buf.skip(frames(buf).consumed)
        },
{
    law_frames_in_bounds(state.pending + chunk);
    law_messages_lie_in_ranges(state.pending + chunk);
}

/// After a piece that could not be taken, its bytes wait behind those that waited before;
/// the rows that there were are still there, in front, and where the stream is out of step
/// there are no others.
pub proof fn law_left_after(before: Intake, chunk: Seq<u8>, e: IngestError, after: Intake)
    requires
        left_after(before, chunk, e, after),
    ensures
        after.pending == before.pending + chunk,
        after.rows.len() >= before.rows.len(),
        after.rows.take(before.rows.len() as int) == before.rows,
        e is Desync ==> after.rows == before.rows,
{
    let messages = parsed(before.pending + chunk).messages;
    match e {
        IngestError::Desync(_) => {
            assert(after.rows.take(before.rows.len() as int) =~= before.rows);
        },
        IngestError::BatchFull => {
            let k = choose|k: int|
                0 <= k < messages.len() && has_room_for(before.rows, #[trigger] messages.take(k))
                    && !has_room_for(before.rows, messages.take(k + 1)) && after.rows == before.rows
                    + rows_in(messages.take(k));
            assert((before.rows + rows_in(messages.take(k))).take(before.rows.len() as int)
                =~= before.rows);
        },
    }
}

} // verus!
