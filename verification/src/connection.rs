//! The connection framing layer's buffer: raw bytes arrive from a stream
//! in arbitrary pieces, and complete frames leave.  The I/O loop that owns
//! the stream feeds bytes in with `feed` and calls `parse_frame` after
//! each read; `Ok(None)` asks it to read more.
use vstd::prelude::*;

verus! {

use crate::frame::{Frame, Error, Scan, Parsed, spec_check, spec_parse};

/// A growable receive buffer holding not-yet-framed bytes.
pub struct FrameBuffer {
    buffer: Vec<u8>,
}

impl View for FrameBuffer {
    type V = Seq<u8>;

    closed spec fn view(&self) -> Seq<u8> {
        self.buffer@
    }
}

impl FrameBuffer {
    /// An empty buffer.
    pub fn new() -> (b: FrameBuffer)
        ensures
            b@ == Seq::<u8>::empty(),
    {
        FrameBuffer { buffer: Vec::new() }
    }

    /// Appends bytes read from the stream.
    pub fn feed(&mut self, chunk: &[u8])
        ensures
            final(self)@ == old(self)@ + chunk@,
    {
        crate::frame::push_bytes(&mut self.buffer, chunk);
    }

    /// Whether the buffer holds no bytes.  At end of stream an empty
    /// buffer is a clean shutdown; a non-empty one is a peer that hung up
    /// mid-frame.
    pub fn is_empty(&self) -> (r: bool)
        ensures
            r == (self@.len() == 0),
    {
        self.buffer.is_empty()
    }

    /// Takes one complete frame off the front of the buffer, if one is
    /// there.  `Ok(None)` means too few bytes are buffered: read more and
    /// retry; an incomplete window is never reported as an error.  An
    /// error means the bytes cannot be a frame — the scan rejected them,
    /// or the scan passed a window that then failed to decode — and the
    /// connection must be closed.
    pub fn parse_frame(&mut self) -> (r: Result<Option<Frame>, Error>)
        ensures
            match r {
                Ok(None) => spec_check(old(self)@) is Incomplete && final(self)@ == old(self)@,
                Ok(Some(f)) => {
                    &&& spec_check(old(self)@) matches Scan::Complete { n } && final(self)@ == old(
                        self,
                    )@.skip(n)
                    &&& spec_parse(old(self)@) matches Parsed::Complete { v, n } && v == f@
                },
                Err(e) => {
                    &&& final(self)@ == old(self)@
                    &&& e matches Error::Other(_)
                    &&& spec_check(old(self)@) is Malformed || spec_parse(old(self)@) is Malformed
                },
            },
    {
        proof {
            assert(self.buffer@.skip(0) =~= self.buffer@);
            crate::frame_laws::lemma_check_then_parse(self.buffer@);
        }
        match Frame::check(self.buffer.as_slice(), 0) {
            Err(Error::Incomplete) => Ok(None),
            Err(e) => Err(e),
            Ok(end) => {
                match Frame::parse(self.buffer.as_slice(), 0) {
                    Ok((f, _consumed)) => {
                        let rest = vstd::slice::slice_to_vec(
                            vstd::slice::slice_subrange(
                                self.buffer.as_slice(),
                                end,
                                self.buffer.len(),
                            ),
                        );
                        proof {
                            assert(rest@ =~= old(self)@.skip(end as int));
                        }
                        self.buffer = rest;
                        Ok(Some(f))
                    },
                    Err(e) => Err(e),
                }
            },
        }
    }
}

} // verus!
