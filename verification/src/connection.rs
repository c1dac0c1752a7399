//! One client connection's receive side: a growable buffer of bytes read
//! from the peer, from which complete frames are extracted incrementally.
//! The socket itself stays outside the library; whatever reads it appends
//! the bytes here and asks for the next frame.

use vstd::prelude::*;

use crate::frame::parse_at;
use crate::frame::Frame;
use crate::frame::FrameError;
use crate::frame::ParseOutcome;
use crate::record::copy_range;

verus! {

/// The receive buffer of one connection.
pub struct Connection {
    pub buf: Vec<u8>,
}

impl Connection {
    /// A connection with an empty buffer.
    pub fn new() -> (r: Connection)
        ensures
            r.buf@ == Seq::<u8>::empty(),
    {
        Connection { buf: Vec::new() }
    }

    /// Append bytes read from the peer to the buffer.
    pub fn feed(&mut self, data: &Vec<u8>)
        ensures
            final(self).buf@ == old(self).buf@ + data@,
    {
        self.buf.extend_from_slice(data.as_slice());
    }

    /// Extract one frame from the front of the buffer, if the buffer holds
    /// a complete one, and advance past its bytes. An incomplete prefix
    /// asks the caller for more bytes; bytes no frame starts with are a
    /// hard error.
    pub fn parse_frame(&mut self) -> (r: Result<Option<Frame>, FrameError>)
        ensures
            match parse_at(old(self).buf@, 0) {
                ParseOutcome::Parsed(fv, next) => r is Ok && r->Ok_0 is Some && r->Ok_0->0@ == fv
                    && final(self).buf@ == old(self).buf@.subrange(next, old(self).buf@.len() as int),
                ParseOutcome::Incomplete => r == Result::<Option<Frame>, FrameError>::Err(
                    FrameError::Incomplete,
                ) && final(self).buf@ == old(self).buf@,
                ParseOutcome::Malformed => r == Result::<Option<Frame>, FrameError>::Err(
                    FrameError::Malformed,
                ) && final(self).buf@ == old(self).buf@,
            },
    {
        let mut check_pos: usize = 0;
        match Frame::check(&self.buf, &mut check_pos) {
            Ok(()) => {
                let mut parse_pos: usize = 0;
                match Frame::parse(&self.buf, &mut parse_pos) {
                    Ok(frame) => {
                        let rest = copy_range(&self.buf, parse_pos, self.buf.len());
                        self.buf = rest;
                        Ok(Some(frame))
                    },
                    Err(e) => {
                        proof {
                            assert(false);
                        }
                        Err(e)
                    },
                }
            },
            Err(e) => Err(e),
        }
    }
}

} // verus!
