//! The per-lane encoder worker: its adaptive allocation state and the
//! decisions its loop takes on each event.

use vstd::prelude::*;
use crate::dialect::SerializeOptions;
use crate::encode::{EncodeError, chunk_bytes, chunk_error_of, encode_chunk};
use crate::frame::{Chunk, Morsel, Schema, chunk_fits};
use crate::linearizer::InsertResult;

verus! {

/// Fresh encode buffers start from this capacity: sixteen mebibytes.
pub const DEFAULT_ALLOCATION_SIZE: usize = 1 << 24;

/// The state one encoder worker keeps between morsels: the buffer size to
/// allocate next, grown to the largest encoding seen so far so that the
/// cost of buffer growth is amortized over the stream.
pub struct EncoderState {
    pub allocation_size: usize,
}

impl EncoderState {
    /// A fresh worker.
    pub fn new() -> (r: EncoderState)
        ensures
            r.allocation_size == DEFAULT_ALLOCATION_SIZE,
    {
        EncoderState { allocation_size: DEFAULT_ALLOCATION_SIZE }
    }

    /// Serializes one morsel's chunk with no header and no byte-order mark,
    /// then grows the allocation size to the buffer just produced. The
    /// allocation size never shrinks.
    pub fn encode_morsel(&mut self, chunk: &Chunk, schema: &Schema, opts: &SerializeOptions) -> (r:
        Result<Vec<u8>, EncodeError>)
        ensures
            r is Ok <==> chunk_fits(chunk@, schema@),
            r matches Ok(b) ==> b@ == chunk_bytes(chunk@, opts@),
            final(self).allocation_size >= old(self).allocation_size,
            r matches Ok(b) ==> final(self).allocation_size >= b@.len(),
            r matches Ok(b) ==> final(self).allocation_size == old(self).allocation_size
                || final(self).allocation_size == b@.len(),
            r is Err ==> final(self).allocation_size == old(self).allocation_size,
            r matches Err(e) ==> chunk_error_of(chunk@, schema@, e),
    {
        match encode_chunk(chunk, schema, opts) {
            Ok(buf) => {
                if buf.len() > self.allocation_size {
                    self.allocation_size = buf.len();
                }
                Ok(buf)
            },
            Err(e) => Err(e),
        }
    }
}

/// One input event of a worker's loop.
pub enum WorkerEvent {
    /// The lane's channel delivered a morsel.
    Received(Morsel),
    /// The lane's channel closed: end of input for this lane.
    InputClosed,
}

/// What the worker does next. For `Publish`, the consume token of the
/// morsel must be released *before* offering the slot to the linearizer:
/// holding it across that wait can deadlock the shared scheduler.
pub enum WorkerStep {
    /// Release the token, then offer `(seq, bytes)` to the lane.
    Publish(u64, Vec<u8>),
    /// Finish this worker successfully.
    FinishOk,
    /// Fail the sink with this serialization error.
    Fail(EncodeError),
}

impl EncoderState {
    /// One turn of the worker loop: encode what arrived, or finish when the
    /// channel closed.
    pub fn worker_step(&mut self, event: WorkerEvent, schema: &Schema, opts: &SerializeOptions) -> (r:
        WorkerStep)
        ensures
            final(self).allocation_size >= old(self).allocation_size,
            event is InputClosed ==> r is FinishOk,
            event matches WorkerEvent::Received(m) ==> if chunk_fits(m.chunk@, schema@) {
                r matches WorkerStep::Publish(s, b) && s == m.seq && b@ == chunk_bytes(
                    m.chunk@,
                    opts@,
                )
            } else {
                (r matches WorkerStep::Fail(e) && chunk_error_of(m.chunk@, schema@, e))
            },
    {
        match event {
            WorkerEvent::InputClosed => WorkerStep::FinishOk,
            WorkerEvent::Received(m) => match self.encode_morsel(&m.chunk, schema, opts) {
                Ok(b) => WorkerStep::Publish(m.seq, b),
                Err(e) => WorkerStep::Fail(e),
            },
        }
    }
}

/// How a worker answers the linearizer's verdict on an offered slot.
pub enum WorkerVerdict {
    /// The slot is buffered; receive the next morsel.
    Continue,
    /// The lane is at capacity; wait for the writer, then offer these bytes
    /// again.
    Retry(Vec<u8>),
    /// The consumer is gone — the writer already decided to stop. This is
    /// not an error: finish the worker successfully.
    FinishOk,
}

/// The worker's reading of an insert attempt: a closed linearizer ends the
/// worker cleanly, it never fails it.
pub fn after_insert(r: InsertResult) -> (v: WorkerVerdict)
    ensures
        r is Inserted ==> v is Continue,
        r matches InsertResult::Full(b) ==> v matches WorkerVerdict::Retry(b2) && b2@ == b@,
        r is Closed ==> v is FinishOk,
{
    match r {
        InsertResult::Inserted => WorkerVerdict::Continue,
        InsertResult::Full(b) => WorkerVerdict::Retry(b),
        InsertResult::Closed => WorkerVerdict::FinishOk,
    }
}

} // verus!
