//! An abstract write target: the interface the write path needs from a log
//! sink, with an in-memory implementation.

use vstd::prelude::*;

verus! {

use vstd::slice::slice_to_vec;

/// What the write path asks of a sink: append, tell the position, and say
/// whether a line still fits under a size bound.
pub trait WriteTarget {
    /// The bytes written so far.
    spec fn buf(&self) -> Seq<u8>;

    /// Whether appending `line` would stay within `max_log_file_size`.
    fn will_fit(&mut self, line: &[u8], max_log_file_size: u64) -> (r: bool)
        ensures
            final(self).buf() == old(self).buf(),
            r == (old(self).buf().len() + line@.len() <= max_log_file_size),
    ;

    /// Append `line` and return the new position.
    fn write(&mut self, line: &[u8]) -> (r: u64)
        requires
            old(self).buf().len() + line@.len() <= u64::MAX,
        ensures
            final(self).buf() == old(self).buf() + line@,
            r == final(self).buf().len(),
    ;

    /// The current position.
    fn stream_position(&mut self) -> (r: u64)
        requires
            old(self).buf().len() <= u64::MAX,
        ensures
            final(self).buf() == old(self).buf(),
            r == old(self).buf().len(),
    ;
}

/// An in-memory write target.
pub struct WriteFile {
    pub out: Vec<u8>,
}

impl WriteFile {
    /// A target writing to the given buffer.
    pub fn new(out: Vec<u8>) -> (r: WriteFile)
        ensures
            r.buf() == out@,
    {
        WriteFile { out }
    }
}

impl WriteTarget for WriteFile {
    open spec fn buf(&self) -> Seq<u8> {
        self.out@
    }

    fn will_fit(&mut self, line: &[u8], max_log_file_size: u64) -> (r: bool) {
        (self.out.len() as u128) + (line.len() as u128) <= max_log_file_size as u128
    }

    fn write(&mut self, line: &[u8]) -> (r: u64) {
        let mut bytes = slice_to_vec(line);
        self.out.append(&mut bytes);
        self.out.len() as u64
    }

    fn stream_position(&mut self) -> (r: u64) {
        self.out.len() as u64
    }
}

} // verus!
