//! A minimal append-only sink over an in-memory buffer, with the position
//! query the write path uses to compute value offsets.

use vstd::prelude::*;

verus! {

use vstd::slice::slice_to_vec;

/// An append-only byte sink.
pub struct LogWriter {
    pub out: Vec<u8>,
}

impl LogWriter {
    /// A writer over the given buffer, appending at its end.
    pub fn new(out: Vec<u8>) -> (r: LogWriter)
        ensures
            r.out@ == out@,
    {
        LogWriter { out }
    }

    /// Append `line` to the buffer.
    pub fn write(&mut self, line: &[u8])
        ensures
            final(self).out@ == old(self).out@ + line@,
    {
        let mut bytes = slice_to_vec(line);
        self.out.append(&mut bytes);
    }

    /// The current write position: the byte count written so far.
    pub fn stream_position(&mut self) -> (r: u64)
        ensures
            final(self).out@ == old(self).out@,
            r == old(self).out@.len(),
    {
        self.out.len() as u64
    }
}

} // verus!
