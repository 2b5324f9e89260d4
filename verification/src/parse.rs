//! A forward-only cursor over the elements of one decoded array frame,
//! used to pull a command's name and arguments out one at a time.
//!
//! Running past the last element is the recoverable `EndOfStream`
//! condition — "optional trailing argument absent" — while any other
//! error means the argument list cannot match any command.
use vstd::prelude::*;

verus! {

use crate::frame::{Frame, FrameView, frames_view, frame_view, lemma_frames_view};
use crate::db::{Data, DataView, datas_view, data_view};
use crate::text::{spec_atoi_u64, atoi_u64, utf8_check};
use vstd::utf8::valid_utf8;

/// Failure to pull the next typed value out of the array.
///
/// Only `EndOfStream` can be handled at runtime; every other variant
/// terminates the connection.
#[derive(Debug, PartialEq)]
pub enum ParseError {
    /// The array holds no further element.
    EndOfStream,
    /// The decoded frame the cursor was built over is not an array.
    NotArray,
    /// The element is not of the kind the command expects.
    WrongType,
    /// The element's text does not read as an unsigned decimal number.
    InvalidNumber,
    /// The element's bytes are not valid UTF-8 where text is expected.
    InvalidUtf8,
}

/// The cursor: the array's elements and how many have been consumed.
pub struct Parse {
    frames: Vec<Frame>,
    pos: usize,
}

/// What a pushed list element holds for each kind of frame that can carry
/// one; frames that cannot be list items map to nothing.
pub open spec fn data_of_frame(v: FrameView) -> Option<DataView> {
    match v {
        FrameView::Simple(t) => Some(DataView::String(t)),
        FrameView::Bulk(b) => Some(DataView::Bytes(b)),
        FrameView::Integer(n) => Some(DataView::Integer(n)),
        _ => None,
    }
}

impl Parse {
    /// The cursor never points past the end of the array.
    pub closed spec fn wf(&self) -> bool {
        self.pos <= self.frames@.len()
    }

    /// The elements not yet consumed, in order.
    pub closed spec fn remaining(&self) -> Seq<FrameView> {
        frames_view(self.frames@).skip(self.pos as int)
    }

    /// Builds a cursor over the elements of an array frame; any other
    /// frame is refused.
    pub fn new(frame: Frame) -> (r: Result<Parse, ParseError>)
        ensures
            match r {
                Ok(p) => {
                    &&& p.wf()
                    &&& frame@ matches FrameView::Array(vs) && p.remaining() == vs
                },
                Err(e) => e is NotArray && !(frame@ is Array),
            },
    {
        match frame {
            Frame::Array(items) => {
                let p = Parse { frames: items, pos: 0 };
                proof {
                    assert(p.remaining() =~= frames_view(p.frames@));
                }
                Ok(p)
            },
            _ => Err(ParseError::NotArray),
        }
    }

    /// The next element as raw bytes: a simple string or a bulk string,
    /// anything else is a type error.
    pub fn next_bytes(&mut self) -> (r: Result<Vec<u8>, ParseError>)
        requires
            old(self).wf(),
        ensures
            final(self).wf(),
            ({
                let rem = old(self).remaining();
                match r {
                    Ok(b) => {
                        &&& rem.len() > 0
                        &&& final(self).remaining() == rem.drop_first()
                        &&& match rem[0] {
                            FrameView::Simple(t) => b@ == t,
                            FrameView::Bulk(t) => b@ == t,
                            _ => false,
                        }
                    },
                    Err(e) => match e {
                        ParseError::EndOfStream => rem.len() == 0 && final(self).remaining()
                            == rem,
                        ParseError::WrongType => rem.len() > 0 && !(rem[0] is Simple) && !(
                        rem[0] is Bulk) && final(self).remaining() == rem.drop_first(),
                        _ => false,
                    },
                }
            }),
    {
        proof {
            lemma_frames_view(self.frames@);
        }
        if self.pos >= self.frames.len() {
            return Err(ParseError::EndOfStream);
        }
        proof {
            assert(old(self).remaining()[0] == frame_view(self.frames@[self.pos as int]));
            assert(frames_view(self.frames@).skip(self.pos + 1) =~= old(
                self,
            ).remaining().drop_first());
        }
        let out = match &self.frames[self.pos] {
            Frame::Simple(t) => Ok(vstd::slice::slice_to_vec(t.as_slice())),
            Frame::Bulk(t) => Ok(vstd::slice::slice_to_vec(t.as_slice())),
            _ => Err(ParseError::WrongType),
        };
        self.pos = self.pos + 1;
        out
    }

    /// The next element as text: a simple string or a bulk string whose
    /// bytes are valid UTF-8.
    pub fn next_string(&mut self) -> (r: Result<Vec<u8>, ParseError>)
        requires
            old(self).wf(),
        ensures
            final(self).wf(),
            ({
                let rem = old(self).remaining();
                match r {
                    Ok(b) => {
                        &&& rem.len() > 0
                        &&& final(self).remaining() == rem.drop_first()
                        &&& valid_utf8(b@)
                        &&& match rem[0] {
                            FrameView::Simple(t) => b@ == t,
                            FrameView::Bulk(t) => b@ == t,
                            _ => false,
                        }
                    },
                    Err(e) => match e {
                        ParseError::EndOfStream => rem.len() == 0 && final(self).remaining()
                            == rem,
                        ParseError::WrongType => rem.len() > 0 && !(rem[0] is Simple) && !(
                        rem[0] is Bulk) && final(self).remaining() == rem.drop_first(),
                        ParseError::InvalidUtf8 => {
                            &&& rem.len() > 0
                            &&& final(self).remaining() == rem.drop_first()
                            &&& match rem[0] {
                                FrameView::Simple(t) => !valid_utf8(t),
                                FrameView::Bulk(t) => !valid_utf8(t),
                                _ => false,
                            }
                        },
                        _ => false,
                    },
                }
            }),
    {
        let bytes = self.next_bytes()?;
        if utf8_check(bytes.as_slice()) {
            Ok(bytes)
        } else {
            Err(ParseError::InvalidUtf8)
        }
    }

    /// The next element as a number: an integer frame, or a simple or
    /// bulk string read as a decimal.
    pub fn next_int(&mut self) -> (r: Result<u64, ParseError>)
        requires
            old(self).wf(),
        ensures
            final(self).wf(),
            ({
                let rem = old(self).remaining();
                match r {
                    Ok(n) => {
                        &&& rem.len() > 0
                        &&& final(self).remaining() == rem.drop_first()
                        &&& match rem[0] {
                            FrameView::Simple(t) => spec_atoi_u64(t) == Some(n),
                            FrameView::Bulk(t) => spec_atoi_u64(t) == Some(n),
                            FrameView::Integer(m) => n == m,
                            _ => false,
                        }
                    },
                    Err(e) => match e {
                        ParseError::EndOfStream => rem.len() == 0 && final(self).remaining()
                            == rem,
                        ParseError::WrongType => rem.len() > 0 && !(rem[0] is Simple) && !(
                        rem[0] is Bulk) && !(rem[0] is Integer) && final(self).remaining()
                            == rem.drop_first(),
                        ParseError::InvalidNumber => {
                            &&& rem.len() > 0
                            &&& final(self).remaining() == rem.drop_first()
                            &&& match rem[0] {
                                FrameView::Simple(t) => spec_atoi_u64(t) is None,
                                FrameView::Bulk(t) => spec_atoi_u64(t) is None,
                                _ => false,
                            }
                        },
                        _ => false,
                    },
                }
            }),
    {
        proof {
            lemma_frames_view(self.frames@);
        }
        if self.pos >= self.frames.len() {
            return Err(ParseError::EndOfStream);
        }
        proof {
            assert(old(self).remaining()[0] == frame_view(self.frames@[self.pos as int]));
            assert(frames_view(self.frames@).skip(self.pos + 1) =~= old(
                self,
            ).remaining().drop_first());
        }
        let out = match &self.frames[self.pos] {
            Frame::Simple(t) => match atoi_u64(t.as_slice()) {
                Some(n) => Ok(n),
                None => Err(ParseError::InvalidNumber),
            },
            Frame::Bulk(t) => match atoi_u64(t.as_slice()) {
                Some(n) => Ok(n),
                None => Err(ParseError::InvalidNumber),
            },
            Frame::Integer(n) => Ok(*n),
            _ => Err(ParseError::WrongType),
        };
        self.pos = self.pos + 1;
        out
    }

    /// Consumes the whole remainder as a typed list: simple strings become
    /// text items, bulk strings byte items, integer frames numbers.  Any
    /// other element is a type error, reported at the first offender.
    pub fn next_array(&mut self) -> (r: Result<Vec<Data>, ParseError>)
        requires
            old(self).wf(),
        ensures
            final(self).wf(),
            ({
                let rem = old(self).remaining();
                match r {
                    Ok(ds) => {
                        &&& datas_view(ds@).len() == rem.len()
                        &&& forall|i: int|
                            0 <= i < rem.len() ==> data_of_frame(#[trigger] rem[i]) == Some(
                                datas_view(ds@)[i],
                            )
                        &&& final(self).remaining().len() == 0
                    },
                    Err(e) => {
                        &&& e is WrongType
                        &&& exists|i: int|
                            {
                                &&& 0 <= i < rem.len()
                                &&& data_of_frame(#[trigger] rem[i]) is None
                                &&& (forall|j: int|
                                    0 <= j < i ==> data_of_frame(#[trigger] rem[j]) is Some)
                                &&& final(self).remaining() == rem.skip(i + 1)
                            }
                    },
                }
            }),
    {
        let ghost rem = old(self).remaining();
        let mut out: Vec<Data> = Vec::new();
        let mut k: usize = 0;
        proof {
            lemma_frames_view(self.frames@);
            assert(datas_view(out@) =~= Seq::<DataView>::empty());
        }
        while self.pos < self.frames.len()
            invariant
                self.wf(),
                self.frames@ == old(self).frames@,
                self.pos == old(self).pos + k,
                rem == old(self).remaining(),
                k <= rem.len(),
                datas_view(out@).len() == k,
                forall|i: int|
                    0 <= i < k ==> data_of_frame(#[trigger] rem[i]) == Some(datas_view(out@)[i]),
            decreases self.frames@.len() - self.pos,
        {
            proof {
                lemma_frames_view(self.frames@);
                assert(rem[k as int] == frame_view(self.frames@[self.pos as int]));
            }
            let ghost before = out@;
            let d = match &self.frames[self.pos] {
                Frame::Simple(t) => Data::String(vstd::slice::slice_to_vec(t.as_slice())),
                Frame::Bulk(t) => Data::Bytes(vstd::slice::slice_to_vec(t.as_slice())),
                Frame::Integer(n) => Data::Integer(*n),
                _ => {
                    self.pos = self.pos + 1;
                    proof {
                        assert(frames_view(self.frames@).skip(self.pos as int) =~= rem.skip(
                            k + 1,
                        ));
                    }
                    return Err(ParseError::WrongType);
                },
            };
            out.push(d);
            proof {
                assert(out@.drop_last() =~= before);
                assert(datas_view(out@) == datas_view(before).push(data_view(out@.last())));
            }
            self.pos = self.pos + 1;
            k = k + 1;
        }
        proof {
            lemma_frames_view(self.frames@);
            assert(final(self).remaining().len() == 0);
        }
        Ok(out)
    }
}

} // verus!
