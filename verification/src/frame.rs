//! The wire frame type and its codec: checking that a byte window holds a
//! complete frame, parsing a complete frame, and encoding a frame.
//!
//! Every operation is specified against the byte-level grammar: one type
//! tag byte, then a type-specific payload with CRLF-terminated header
//! lines.  `spec_check` and `spec_parse` are the mathematical parsers that
//! the executable `check` and `parse` implement exactly.
use vstd::prelude::*;

verus! {

use vstd::utf8::valid_utf8;
use crate::text::{
    spec_atoi_u64,
    dec_digits,
    atoi_u64,
    format_u64,
    utf8_check,
};

/// Carriage return.
pub const CR: u8 = 13;

/// Line feed.
pub const LF: u8 = 10;

/// A frame of the wire protocol.
///
/// Text payloads are held as their wire bytes; `parse` admits a
/// `Simple` or `Error` payload only when it is valid UTF-8.
#[derive(Debug, PartialEq)]
pub enum Frame {
    Simple(Vec<u8>),
    Error(Vec<u8>),
    Integer(u64),
    Bulk(Vec<u8>),
    Null,
    Array(Vec<Frame>),
}

/// The mathematical value of a `Frame`: the same shape over `Seq<u8>`.
pub enum FrameView {
    Simple(Seq<u8>),
    Error(Seq<u8>),
    Integer(u64),
    Bulk(Seq<u8>),
    Null,
    Array(Seq<FrameView>),
}

/// The value of a frame.
pub open spec fn frame_view(f: Frame) -> FrameView
    decreases f,
{
    match f {
        Frame::Simple(s) => FrameView::Simple(s@),
        Frame::Error(s) => FrameView::Error(s@),
        Frame::Integer(n) => FrameView::Integer(n),
        Frame::Bulk(b) => FrameView::Bulk(b@),
        Frame::Null => FrameView::Null,
        Frame::Array(items) => FrameView::Array(frames_view(items@)),
    }
}

/// The values of a sequence of frames, in order.
pub open spec fn frames_view(s: Seq<Frame>) -> Seq<FrameView>
    decreases s,
{
    if s.len() == 0 {
        Seq::empty()
    } else {
        frames_view(s.drop_last()).push(frame_view(s.last()))
    }
}

impl View for Frame {
    type V = FrameView;

    open spec fn view(&self) -> FrameView {
        frame_view(*self)
    }
}

/// Failure of a codec operation.
///
/// `Incomplete` means the window ended before a full frame was seen: the
/// caller reads more bytes and retries.  `Other` means the bytes cannot be
/// a frame: the connection cannot be trusted any further.
#[derive(Debug, PartialEq)]
pub enum Error {
    Incomplete,
    Other(ProtocolError),
}

/// Why a byte window is not a well-formed frame.
#[derive(Debug, PartialEq)]
pub enum ProtocolError {
    /// The first byte is not one of the six type tags.
    InvalidTypeByte,
    /// A header line is not the expected number or marker.
    InvalidFormat,
    /// A declared length does not fit the platform's addressable size.
    LengthOverflow,
    /// A text frame's payload is not valid UTF-8.
    InvalidUtf8,
}

/// Outcome of scanning a byte window for one complete frame.
pub enum Scan {
    /// A full frame spans exactly the first `n` bytes.
    Complete { n: int },
    /// The window ended before a full frame was seen.
    Incomplete,
    /// The window cannot be a frame.
    Malformed,
}

/// Outcome of parsing one frame from the front of a byte window.
pub enum Parsed {
    /// The first `n` bytes decode to the value `v`.
    Complete { v: FrameView, n: int },
    Incomplete,
    Malformed,
}

/// Outcome of parsing `n` consecutive frames from a byte window.
pub enum ParsedItems {
    Complete { vs: Seq<FrameView>, n: int },
    Incomplete,
    Malformed,
}

/// The window after its first `k` bytes; empty when `k` is out of range.
/// The out-of-range case keeps the recursion of the scanning functions
/// well-founded; it is never reached on the indices they compute.
pub open spec fn tail_from(s: Seq<u8>, k: int) -> Seq<u8> {
    if 0 < k <= s.len() {
        s.skip(k)
    } else {
        Seq::empty()
    }
}

/// Index of the first CRLF pair of a byte window, if any.
pub open spec fn find_crlf(s: Seq<u8>) -> Option<int>
    decreases s.len(),
{
    if s.len() < 2 {
        None
    } else if s[0] == CR && s[1] == LF {
        Some(0)
    } else {
        match find_crlf(s.skip(1)) {
            Some(i) => Some(1 + i),
            None => None,
        }
    }
}

/// There is no CRLF pair anywhere in `s`.
pub open spec fn crlf_free(s: Seq<u8>) -> bool {
    forall|i: int| 0 <= i < s.len() - 1 ==> !(#[trigger] s[i] == CR && s[i + 1] == LF)
}

/// What `find_crlf` finds: the first CRLF pair.
pub proof fn lemma_find_crlf(s: Seq<u8>)
    ensures
        match find_crlf(s) {
            Some(i) => {
                &&& 0 <= i
                &&& i + 2 <= s.len()
                &&& s[i] == CR
                &&& s[i + 1] == LF
                &&& forall|j: int| 0 <= j < i ==> !(#[trigger] s[j] == CR && s[j + 1] == LF)
            },
            None => crlf_free(s),
        },
    decreases s.len(),
{
    if s.len() < 2 {
    } else if s[0] == CR && s[1] == LF {
    } else {
        lemma_find_crlf(s.skip(1));
        match find_crlf(s.skip(1)) {
            Some(i) => {
                assert(s[1 + i] == s.skip(1)[i]);
                assert(s[1 + i + 1] == s.skip(1)[i + 1]);
                assert forall|j: int| 0 <= j < 1 + i implies !(#[trigger] s[j] == CR && s[j + 1]
                    == LF) by {
                    if j >= 1 {
                        assert(s.skip(1)[j - 1] == s[j]);
                        assert(s.skip(1)[j] == s[j + 1]);
                    }
                }
            },
            None => {
                assert forall|j: int| 0 <= j < s.len() - 1 implies !(#[trigger] s[j] == CR && s[j
                    + 1] == LF) by {
                    if j >= 1 {
                        assert(s.skip(1)[j - 1] == s[j]);
                        assert(s.skip(1)[j] == s[j + 1]);
                    }
                }
            },
        }
    }
}

/// The converse: a CRLF pair at `i` with none before it is what
/// `find_crlf` returns.
pub proof fn lemma_find_crlf_at(s: Seq<u8>, i: int)
    requires
        0 <= i,
        i + 2 <= s.len(),
        s[i] == CR,
        s[i + 1] == LF,
        forall|j: int| 0 <= j < i ==> !(#[trigger] s[j] == CR && s[j + 1] == LF),
    ensures
        find_crlf(s) == Some(i),
    decreases i,
{
    if i == 0 {
    } else {
        assert forall|j: int| 0 <= j < i - 1 implies !(#[trigger] s.skip(1)[j] == CR && s.skip(1)[j
            + 1] == LF) by {
            assert(s.skip(1)[j] == s[j + 1]);
            assert(s.skip(1)[j + 1] == s[j + 2]);
        }
        assert(s.skip(1)[i - 1] == s[i]);
        assert(s.skip(1)[i] == s[i + 1]);
        lemma_find_crlf_at(s.skip(1), i - 1);
    }
}

/// A window with no CRLF pair makes `find_crlf` fail.
pub proof fn lemma_find_crlf_none(s: Seq<u8>)
    requires
        crlf_free(s),
    ensures
        find_crlf(s) == None::<int>,
{
    lemma_find_crlf(s);
    if find_crlf(s) is Some {
        let i = find_crlf(s)->Some_0;
        assert(!(s[i] == CR && s[i + 1] == LF));
    }
}

/// The scan that `check` performs: how many bytes the first frame of the
/// window spans, without decoding it.  Header lines are validated as the
/// executable scan validates them; only a `Simple` or `Error` line is
/// accepted without the UTF-8 check that decoding will still apply.
pub open spec fn spec_check(s: Seq<u8>) -> Scan
    decreases s.len(), 0int, 1int,
{
    if s.len() == 0 {
        Scan::Incomplete
    } else {
        let rest = s.skip(1);
        if s[0] == 43 || s[0] == 45 {  // '+' simple, '-' error
            match find_crlf(rest) {
                Some(i) => Scan::Complete { n: 1 + i + 2 },
                None => Scan::Incomplete,
            }
        } else if s[0] == 58 {  // ':' integer
            match find_crlf(rest) {
                Some(i) => match spec_atoi_u64(rest.take(i)) {
                    Some(_) => Scan::Complete { n: 1 + i + 2 },
                    None => Scan::Malformed,
                },
                None => Scan::Incomplete,
            }
        } else if s[0] == 36 || s[0] == 42 {  // '$' bulk, '*' array
            if s.len() < 2 {
                Scan::Incomplete
            } else if s[1] == 45 {  // the marker line must be exactly "-1"
                match find_crlf(rest) {
                    Some(i) => if rest.take(i) == seq![45u8, 49u8] {
                        Scan::Complete { n: 1 + i + 2 }
                    } else {
                        Scan::Malformed
                    },
                    None => Scan::Incomplete,
                }
            } else {
                match find_crlf(rest) {
                    Some(i) => match spec_atoi_u64(rest.take(i)) {
                        Some(len) => if len > usize::MAX as u64 {
                            Scan::Malformed
                        } else if s[0] == 36 {
                            if s.len() - (1 + i + 2) < len + 2 {
                                Scan::Incomplete
                            } else {
                                Scan::Complete { n: 1 + i + 2 + len + 2 }
                            }
                        } else {
                            match spec_check_items(tail_from(s, 1 + i + 2), len as nat) {
                                Scan::Complete { n } => Scan::Complete { n: 1 + i + 2 + n },
                                o => o,
                            }
                        },
                        None => Scan::Malformed,
                    },
                    None => Scan::Incomplete,
                }
            }
        } else {
            Scan::Malformed
        }
    }
}

/// Scanning `count` consecutive frames at the front of the window.
pub open spec fn spec_check_items(s: Seq<u8>, count: nat) -> Scan
    decreases s.len(), count, 0int,
{
    if count == 0 {
        Scan::Complete { n: 0 }
    } else {
        match spec_check(s) {
            Scan::Complete { n } => match spec_check_items(
                tail_from(s, n),
                (count - 1) as nat,
            ) {
                Scan::Complete { n: m } => Scan::Complete { n: n + m },
                o => o,
            },
            o => o,
        }
    }
}

/// The decoding that `parse` performs: the value of the first frame of
/// the window and how many bytes it spans.  It validates everything the
/// executable parser validates: a `Simple`/`Error` line must be UTF-8,
/// a `$`/`*` marker line must be exactly `-1`, and a declared length must
/// fit the platform's addressable size.
pub open spec fn spec_parse(s: Seq<u8>) -> Parsed
    decreases s.len(), 0int, 1int,
{
    if s.len() == 0 {
        Parsed::Incomplete
    } else {
        let rest = s.skip(1);
        if s[0] == 43 || s[0] == 45 {  // '+' simple, '-' error
            match find_crlf(rest) {
                Some(i) => {
                    let line = rest.take(i);
                    if valid_utf8(line) {
                        if s[0] == 43 {
                            Parsed::Complete { v: FrameView::Simple(line), n: 1 + i + 2 }
                        } else {
                            Parsed::Complete { v: FrameView::Error(line), n: 1 + i + 2 }
                        }
                    } else {
                        Parsed::Malformed
                    }
                },
                None => Parsed::Incomplete,
            }
        } else if s[0] == 58 {  // ':' integer
            match find_crlf(rest) {
                Some(i) => match spec_atoi_u64(rest.take(i)) {
                    Some(n) => Parsed::Complete { v: FrameView::Integer(n), n: 1 + i + 2 },
                    None => Parsed::Malformed,
                },
                None => Parsed::Incomplete,
            }
        } else if s[0] == 36 || s[0] == 42 {  // '$' bulk, '*' array
            if s.len() < 2 {
                Parsed::Incomplete
            } else if s[1] == 45 {  // the line must be exactly "-1"
                match find_crlf(rest) {
                    Some(i) => if rest.take(i) == seq![45u8, 49u8] {
                        Parsed::Complete { v: FrameView::Null, n: 1 + i + 2 }
                    } else {
                        Parsed::Malformed
                    },
                    None => Parsed::Incomplete,
                }
            } else {
                match find_crlf(rest) {
                    Some(i) => match spec_atoi_u64(rest.take(i)) {
                        Some(len) => if len > usize::MAX as u64 {
                            Parsed::Malformed
                        } else if s[0] == 36 {
                            if s.len() - (1 + i + 2) < len + 2 {
                                Parsed::Incomplete
                            } else {
                                Parsed::Complete {
                                    v: FrameView::Bulk(s.subrange(1 + i + 2, 1 + i + 2 + len)),
                                    n: 1 + i + 2 + len + 2,
                                }
                            }
                        } else {
                            match spec_parse_items(tail_from(s, 1 + i + 2), len as nat) {
                                ParsedItems::Complete { vs, n } => Parsed::Complete {
                                    v: FrameView::Array(vs),
                                    n: 1 + i + 2 + n,
                                },
                                ParsedItems::Incomplete => Parsed::Incomplete,
                                ParsedItems::Malformed => Parsed::Malformed,
                            }
                        },
                        None => Parsed::Malformed,
                    },
                    None => Parsed::Incomplete,
                }
            }
        } else {
            Parsed::Malformed
        }
    }
}

/// Decoding `count` consecutive frames at the front of the window.
pub open spec fn spec_parse_items(s: Seq<u8>, count: nat) -> ParsedItems
    decreases s.len(), count, 0int,
{
    if count == 0 {
        ParsedItems::Complete { vs: Seq::empty(), n: 0 }
    } else {
        match spec_parse(s) {
            Parsed::Complete { v, n } => match spec_parse_items(
                tail_from(s, n),
                (count - 1) as nat,
            ) {
                ParsedItems::Complete { vs, n: m } => ParsedItems::Complete {
                    vs: seq![v] + vs,
                    n: n + m,
                },
                o => o,
            },
            Parsed::Incomplete => ParsedItems::Incomplete,
            Parsed::Malformed => ParsedItems::Malformed,
        }
    }
}

/// The two bytes that end every header line.
pub open spec fn crlf() -> Seq<u8> {
    seq![CR, LF]
}

/// The wire encoding of a frame value: a type tag byte, then the
/// type-specific payload.
pub open spec fn spec_encode(v: FrameView) -> Seq<u8>
    decreases v,
{
    match v {
        FrameView::Simple(t) => seq![43u8] + t + crlf(),
        FrameView::Error(t) => seq![45u8] + t + crlf(),
        FrameView::Integer(n) => seq![58u8] + dec_digits(n as nat) + crlf(),
        FrameView::Null => seq![36u8, 45u8, 49u8] + crlf(),
        FrameView::Bulk(b) => seq![36u8] + dec_digits(b.len()) + crlf() + b + crlf(),
        FrameView::Array(items) => seq![42u8] + dec_digits(items.len()) + crlf()
            + spec_encode_items(items),
    }
}

/// The encodings of a sequence of frame values, in order.
pub open spec fn spec_encode_items(items: Seq<FrameView>) -> Seq<u8>
    decreases items,
{
    if items.len() == 0 {
        Seq::empty()
    } else {
        spec_encode_items(items.drop_last()) + spec_encode(items.last())
    }
}

/// The encoder writes a top-level array by writing each element's literal
/// encoding; an array inside an array is outside its domain.
pub open spec fn encodable(v: FrameView) -> bool {
    match v {
        FrameView::Array(items) => forall|i: int|
            0 <= i < items.len() ==> !((#[trigger] items[i]) is Array),
        _ => true,
    }
}

/// A frame value that the codec round-trips: its text lines hold no CRLF
/// pair and are valid UTF-8, lengths fit the platform's addressable size,
/// and arrays are not nested.
pub open spec fn wf_frame(v: FrameView) -> bool {
    match v {
        FrameView::Simple(t) => crlf_free(t) && valid_utf8(t),
        FrameView::Error(t) => crlf_free(t) && valid_utf8(t),
        FrameView::Integer(_) => true,
        FrameView::Null => true,
        FrameView::Bulk(b) => b.len() <= usize::MAX,
        FrameView::Array(items) => items.len() <= usize::MAX && forall|i: int|
            0 <= i < items.len() ==> wf_item(#[trigger] items[i]),
    }
}

/// A well-formed array element: well formed and itself no array.
pub open spec fn wf_item(v: FrameView) -> bool {
    match v {
        FrameView::Simple(t) => crlf_free(t) && valid_utf8(t),
        FrameView::Error(t) => crlf_free(t) && valid_utf8(t),
        FrameView::Integer(_) => true,
        FrameView::Null => true,
        FrameView::Bulk(b) => b.len() <= usize::MAX,
        FrameView::Array(_) => false,
    }
}

/// Byte at the cursor, without advancing it.
pub fn peek_u8(src: &[u8], pos: usize) -> (r: Result<u8, Error>)
    ensures
        match r {
            Ok(b) => pos < src@.len() && b == src@[pos as int],
            Err(e) => e is Incomplete && pos >= src@.len(),
        },
{
    if pos < src.len() {
        Ok(src[pos])
    } else {
        Err(Error::Incomplete)
    }
}

/// Byte at the cursor, advancing it by one.
pub fn get_u8(src: &[u8], pos: usize) -> (r: Result<(u8, usize), Error>)
    ensures
        match r {
            Ok((b, p)) => pos < src@.len() && b == src@[pos as int] && p == pos + 1,
            Err(e) => e is Incomplete && pos >= src@.len(),
        },
{
    if pos < src.len() {
        Ok((src[pos], pos + 1))
    } else {
        Err(Error::Incomplete)
    }
}

/// Advances the cursor by `n` bytes; fails when fewer than `n` bytes are
/// buffered beyond it.
pub fn skip(src: &[u8], pos: usize, n: usize) -> (r: Result<usize, Error>)
    requires
        pos <= src@.len(),
    ensures
        match r {
            Ok(p) => src@.len() - pos >= n && p == pos + n,
            Err(e) => e is Incomplete && src@.len() - pos < n,
        },
{
    if src.len() - pos >= n {
        Ok(pos + n)
    } else {
        Err(Error::Incomplete)
    }
}

/// Finds the line that starts at the cursor: returns the index of its
/// terminating CRLF and the cursor position right after it.
pub fn get_line(src: &[u8], pos: usize) -> (r: Result<(usize, usize), Error>)
    requires
        pos <= src@.len(),
    ensures
        match r {
            Ok((end, next)) => {
                &&& pos <= end
                &&& end + 2 <= src@.len()
                &&& next == end + 2
                &&& find_crlf(src@.skip(pos as int)) == Some(end - pos)
            },
            Err(e) => e is Incomplete && find_crlf(src@.skip(pos as int)) is None,
        },
{
    let ghost w = src@.skip(pos as int);
    let mut i: usize = pos;
    loop
        invariant
            pos <= i <= src@.len(),
            w == src@.skip(pos as int),
            forall|j: int| 0 <= j < i - pos ==> !(#[trigger] w[j] == CR && w[j + 1] == LF),
        decreases src@.len() - i,
    {
        if src.len() - i < 2 {
            proof {
                assert forall|j: int| 0 <= j < w.len() - 1 implies !(#[trigger] w[j] == CR && w[j
                    + 1] == LF) by {
                    assert(j < i - pos);
                }
                lemma_find_crlf_none(w);
            }
            return Err(Error::Incomplete);
        }
        if src[i] == CR && src[i + 1] == LF {
            proof {
                assert(w[i - pos] == src@[i as int]);
                assert(w[i - pos + 1] == src@[i + 1]);
                lemma_find_crlf_at(w, i - pos);
            }
            return Ok((i, i + 2));
        }
        proof {
            assert(w[i - pos] == src@[i as int]);
            assert(w[i - pos + 1] == src@[i + 1]);
        }
        i = i + 1;
    }
}

/// Reads a CRLF-terminated line and parses it as a decimal number.
pub fn get_decimal(src: &[u8], pos: usize) -> (r: Result<(u64, usize), Error>)
    requires
        pos <= src@.len(),
    ensures
        match find_crlf(src@.skip(pos as int)) {
            None => r matches Err(e) && e is Incomplete,
            Some(i) => match spec_atoi_u64(src@.skip(pos as int).take(i)) {
                Some(n) => r matches Ok(p) && p == (n, (pos + i + 2) as usize),
                None => r matches Err(e) && (e matches Error::Other(k) && k is InvalidFormat),
            },
        },
{
    let (end, next) = get_line(src, pos)?;
    let line = vstd::slice::slice_subrange(src, pos, end);
    proof {
        let w = src@.skip(pos as int);
        let i = end - pos;
        assert(line@ =~= w.take(i));
    }
    match atoi_u64(line) {
        Some(n) => Ok((n, next)),
        None => Err(Error::Other(ProtocolError::InvalidFormat)),
    }
}

impl Frame {
    /// Scans the window beyond `pos` for one complete frame, without
    /// decoding it, and returns the position right after the frame.
    /// `Incomplete` asks the caller to buffer more bytes and retry;
    /// any other error means the bytes cannot be a frame.
    pub fn check(src: &[u8], pos: usize) -> (r: Result<usize, Error>)
        requires
            pos <= src@.len(),
        ensures
            match r {
                Ok(end) => {
                    &&& spec_check(src@.skip(pos as int)) == (Scan::Complete { n: end - pos })
                    &&& pos < end <= src@.len()
                },
                Err(e) => match e {
                    Error::Incomplete => spec_check(src@.skip(pos as int)) is Incomplete,
                    Error::Other(_) => spec_check(src@.skip(pos as int)) is Malformed,
                },
            },
        decreases src@.len() - pos,
    {
        let ghost w = src@.skip(pos as int);
        let (tag, p) = get_u8(src, pos)?;
        proof {
            vstd::slice::axiom_spec_len(src);
            assert(w.len() == src@.len() - pos);
            assert(w[0] == src@[pos as int]);
            if p < src@.len() {
                assert(w[1] == src@[p as int]);
            }
            assert(w.skip(1) =~= src@.skip(p as int));
        }
        if tag == 43 || tag == 45 {
            let (_end, next) = get_line(src, p)?;
            Ok(next)
        } else if tag == 58 {
            let (_n, next) = get_decimal(src, p)?;
            proof {
                vstd::slice::axiom_spec_len(src);
                lemma_find_crlf(src@.skip(p as int));
            }
            Ok(next)
        } else if tag == 36 || tag == 42 {
            let b = peek_u8(src, p)?;
            if b == 45 {
                let (end, next) = get_line(src, p)?;
                let line = vstd::slice::slice_subrange(src, p, end);
                proof {
                    assert(line@ =~= w.skip(1).take(end - p));
                }
                if line.len() == 2 && line[0] == 45 && line[1] == 49 {
                    proof {
                        assert(line@ =~= seq![45u8, 49u8]);
                    }
                    Ok(next)
                } else {
                    proof {
                        assert(line@ != seq![45u8, 49u8]) by {
                            if line@ == seq![45u8, 49u8] {
                                assert(line@.len() == 2);
                                assert(line@[0] == 45u8);
                                assert(line@[1] == 49u8);
                            }
                        }
                    }
                    Err(Error::Other(ProtocolError::InvalidFormat))
                }
            } else if tag == 36 {
                let (n, p2) = get_decimal(src, p)?;
                proof {
                    vstd::slice::axiom_spec_len(src);
                    lemma_find_crlf(src@.skip(p as int));
                }
                if n > usize::MAX as u64 {
                    return Err(Error::Other(ProtocolError::LengthOverflow));
                }
                let len = n as usize;
                let after = skip(src, p2, len)?;
                let next = skip(src, after, 2)?;
                Ok(next)
            } else {
                let (n, p2) = get_decimal(src, p)?;
                proof {
                    vstd::slice::axiom_spec_len(src);
                    lemma_find_crlf(src@.skip(p as int));
                    assert(pos < p2 <= src@.len());
                    assert(tail_from(w, p2 - pos) =~= src@.skip(p2 as int));
                }
                if n > usize::MAX as u64 {
                    return Err(Error::Other(ProtocolError::LengthOverflow));
                }
                let count = n as usize;
                let mut j: usize = 0;
                let mut cur: usize = p2;
                while j < count
                    invariant
                        j <= count,
                        pos < p2 <= cur <= src@.len(),
                        w == src@.skip(pos as int),
                        match spec_check_items(src@.skip(cur as int), (count - j) as nat) {
                            Scan::Complete { n } => spec_check(w) == (Scan::Complete {
                                n: (cur - pos) + n,
                            }),
                            Scan::Incomplete => spec_check(w) is Incomplete,
                            Scan::Malformed => spec_check(w) is Malformed,
                        },
                    decreases count - j,
                {
                    match Frame::check(src, cur) {
                        Ok(e2) => {
                            proof {
                                assert(tail_from(src@.skip(cur as int), e2 - cur) =~= src@.skip(
                                    e2 as int,
                                ));
                            }
                            cur = e2;
                            j = j + 1;
                        },
                        Err(e) => {
                            return Err(e);
                        },
                    }
                }
                Ok(cur)
            }
        } else {
            Err(Error::Other(ProtocolError::InvalidTypeByte))
        }
    }
}

impl Frame {
    /// Decodes one complete frame from the window beyond `pos` and returns
    /// it with the position right after it.  It consumes the bytes that
    /// `spec_parse` ascribes to the frame; `check` is the allocation-free
    /// scan of the same window.
    pub fn parse(src: &[u8], pos: usize) -> (r: Result<(Frame, usize), Error>)
        requires
            pos <= src@.len(),
        ensures
            match r {
                Ok((f, end)) => {
                    &&& spec_parse(src@.skip(pos as int)) == (Parsed::Complete {
                        v: f@,
                        n: end - pos,
                    })
                    &&& pos < end <= src@.len()
                },
                Err(e) => match e {
                    Error::Incomplete => spec_parse(src@.skip(pos as int)) is Incomplete,
                    Error::Other(_) => spec_parse(src@.skip(pos as int)) is Malformed,
                },
            },
        decreases src@.len() - pos,
    {
        let ghost w = src@.skip(pos as int);
        let (tag, p) = get_u8(src, pos)?;
        proof {
            vstd::slice::axiom_spec_len(src);
            assert(w.len() == src@.len() - pos);
            assert(w[0] == src@[pos as int]);
            if p < src@.len() {
                assert(w[1] == src@[p as int]);
            }
            assert(w.skip(1) =~= src@.skip(p as int));
        }
        if tag == 43 || tag == 45 {
            let (end, next) = get_line(src, p)?;
            let line = vstd::slice::slice_subrange(src, p, end);
            proof {
                assert(line@ =~= w.skip(1).take(end - p));
            }
            if utf8_check(line) {
                let payload = vstd::slice::slice_to_vec(line);
                if tag == 43 {
                    Ok((Frame::Simple(payload), next))
                } else {
                    Ok((Frame::Error(payload), next))
                }
            } else {
                Err(Error::Other(ProtocolError::InvalidUtf8))
            }
        } else if tag == 58 {
            let (n, next) = get_decimal(src, p)?;
            proof {
                lemma_find_crlf(src@.skip(p as int));
            }
            Ok((Frame::Integer(n), next))
        } else if tag == 36 || tag == 42 {
            let b = peek_u8(src, p)?;
            if b == 45 {
                let (end, next) = get_line(src, p)?;
                let line = vstd::slice::slice_subrange(src, p, end);
                proof {
                    assert(line@ =~= w.skip(1).take(end - p));
                }
                if line.len() == 2 && line[0] == 45 && line[1] == 49 {
                    proof {
                        assert(line@ =~= seq![45u8, 49u8]);
                    }
                    Ok((Frame::Null, next))
                } else {
                    proof {
                        assert(line@ != seq![45u8, 49u8]) by {
                            if line@ == seq![45u8, 49u8] {
                                assert(line@.len() == 2);
                                assert(line@[0] == 45u8);
                                assert(line@[1] == 49u8);
                            }
                        }
                    }
                    Err(Error::Other(ProtocolError::InvalidFormat))
                }
            } else if tag == 36 {
                let (n, p2) = get_decimal(src, p)?;
                proof {
                    lemma_find_crlf(src@.skip(p as int));
                }
                if n > usize::MAX as u64 {
                    return Err(Error::Other(ProtocolError::LengthOverflow));
                }
                let len = n as usize;
                let after = skip(src, p2, len)?;
                let next = skip(src, after, 2)?;
                let data = vstd::slice::slice_to_vec(vstd::slice::slice_subrange(src, p2, after));
                proof {
                    assert(data@ =~= w.subrange(p2 - pos, p2 - pos + len));
                }
                Ok((Frame::Bulk(data), next))
            } else {
                let (n, p2) = get_decimal(src, p)?;
                proof {
                    lemma_find_crlf(src@.skip(p as int));
                    assert(pos < p2 <= src@.len());
                    assert(tail_from(w, p2 - pos) =~= src@.skip(p2 as int));
                }
                if n > usize::MAX as u64 {
                    return Err(Error::Other(ProtocolError::LengthOverflow));
                }
                let count = n as usize;
                let mut out: Vec<Frame> = Vec::new();
                let mut j: usize = 0;
                let mut cur: usize = p2;
                proof {
                    assert(frames_view(out@) =~= Seq::<FrameView>::empty());
                    match spec_parse_items(src@.skip(p2 as int), count as nat) {
                        ParsedItems::Complete { vs, n: m } => {
                            assert(frames_view(out@) + vs =~= vs);
                        },
                        _ => {},
                    }
                }
                while j < count
                    invariant
                        j <= count,
                        pos < p2 <= cur <= src@.len(),
                        w == src@.skip(pos as int),
                        match spec_parse_items(src@.skip(cur as int), (count - j) as nat) {
                            ParsedItems::Complete { vs, n } => spec_parse(w) == (Parsed::Complete {
                                v: FrameView::Array(frames_view(out@) + vs),
                                n: (cur - pos) + n,
                            }),
                            ParsedItems::Incomplete => spec_parse(w) is Incomplete,
                            ParsedItems::Malformed => spec_parse(w) is Malformed,
                        },
                    decreases count - j,
                {
                    match Frame::parse(src, cur) {
                        Ok((f, e2)) => {
                            proof {
                                assert(tail_from(src@.skip(cur as int), e2 - cur) =~= src@.skip(
                                    e2 as int,
                                ));
                            }
                            let ghost prev = out@;
                            out.push(f);
                            proof {
                                assert(out@.drop_last() =~= prev);
                                assert(frames_view(out@) == frames_view(prev).push(f@));
                                match spec_parse_items(
                                    src@.skip(e2 as int),
                                    ((count - j) - 1) as nat,
                                ) {
                                    ParsedItems::Complete { vs, n: m } => {
                                        assert(frames_view(prev).push(f@) + vs =~= frames_view(
                                            prev,
                                        ) + (seq![f@] + vs));
                                    },
                                    _ => {},
                                }
                            }
                            cur = e2;
                            j = j + 1;
                        },
                        Err(e) => {
                            return Err(e);
                        },
                    }
                }
                proof {
                    assert(frames_view(out@) + Seq::<FrameView>::empty() =~= frames_view(out@));
                }
                Ok((Frame::Array(out), cur))
            }
        } else {
            Err(Error::Other(ProtocolError::InvalidTypeByte))
        }
    }
}

/// Element-wise equality between a frame sequence and its values.
pub proof fn lemma_frames_view(s: Seq<Frame>)
    ensures
        frames_view(s).len() == s.len(),
        forall|i: int| 0 <= i < s.len() ==> frames_view(s)[i] == frame_view(#[trigger] s[i]),
        forall|i: int| 0 <= i < s.len() ==> (#[trigger] frames_view(s)[i]) == frame_view(s[i]),
    decreases s,
{
    if s.len() > 0 {
        lemma_frames_view(s.drop_last());
        assert forall|i: int| 0 <= i < s.len() implies frames_view(s)[i] == frame_view(
            #[trigger] s[i],
        ) by {
            if i < s.len() - 1 {
                assert(frames_view(s)[i] == frames_view(s.drop_last())[i]);
                assert(s.drop_last()[i] == s[i]);
            } else {
                assert(frames_view(s)[i] == frame_view(s.last()));
            }
        }
    }
}

/// Appends the bytes of `b` to `out`.
pub(crate) fn push_bytes(out: &mut Vec<u8>, b: &[u8])
    ensures
        final(out)@ == old(out)@ + b@,
{
    let mut i: usize = 0;
    while i < b.len()
        invariant
            i <= b@.len(),
            out@ == old(out)@ + b@.take(i as int),
        decreases b@.len() - i,
    {
        out.push(b[i]);
        proof {
            assert(old(out)@ + b@.take(i + 1) =~= (old(out)@ + b@.take(i as int)).push(
                b@[i as int],
            ));
        }
        i = i + 1;
    }
    proof {
        assert(b@.take(b@.len() as int) =~= b@);
    }
}

/// Appends the decimal digits of `n`, then CRLF.
fn write_decimal(out: &mut Vec<u8>, n: u64)
    ensures
        final(out)@ == old(out)@ + dec_digits(n as nat) + crlf(),
{
    let digits = format_u64(n);
    push_bytes(out, digits.as_slice());
    out.push(CR);
    out.push(LF);
    proof {
        assert((old(out)@ + dec_digits(n as nat)).push(CR).push(LF) =~= old(out)@ + dec_digits(
            n as nat,
        ) + crlf());
    }
}

impl Frame {
    /// Appends the encoding of one non-array frame to `out`.
    pub fn write_val(&self, out: &mut Vec<u8>)
        requires
            !(self@ is Array),
        ensures
            final(out)@ == old(out)@ + spec_encode(self@),
    {
        match self {
            Frame::Simple(t) => {
                out.push(43);
                push_bytes(out, t.as_slice());
                out.push(CR);
                out.push(LF);
                proof {
                    assert(old(out)@.push(43u8) + t@ =~= old(out)@ + (seq![43u8] + t@));
                    assert((old(out)@ + (seq![43u8] + t@)).push(CR).push(LF) =~= old(out)@ + (
                    seq![43u8] + t@ + crlf()));
                }
            },
            Frame::Error(t) => {
                out.push(45);
                push_bytes(out, t.as_slice());
                out.push(CR);
                out.push(LF);
                proof {
                    assert(old(out)@.push(45u8) + t@ =~= old(out)@ + (seq![45u8] + t@));
                    assert((old(out)@ + (seq![45u8] + t@)).push(CR).push(LF) =~= old(out)@ + (
                    seq![45u8] + t@ + crlf()));
                }
            },
            Frame::Integer(n) => {
                out.push(58);
                write_decimal(out, *n);
                proof {
                    assert(old(out)@.push(58u8) + dec_digits(*n as nat) + crlf() =~= old(out)@ + (
                    seq![58u8] + dec_digits(*n as nat) + crlf()));
                }
            },
            Frame::Null => {
                out.push(36);
                out.push(45);
                out.push(49);
                out.push(CR);
                out.push(LF);
                proof {
                    assert(old(out)@.push(36u8).push(45u8).push(49u8).push(CR).push(LF) =~= old(
                        out,
                    )@ + (seq![36u8, 45u8, 49u8] + crlf()));
                }
            },
            Frame::Bulk(b) => {
                out.push(36);
                write_decimal(out, b.len() as u64);
                push_bytes(out, b.as_slice());
                out.push(CR);
                out.push(LF);
                proof {
                    assert(((old(out)@.push(36u8) + dec_digits(b@.len()) + crlf()) + b@).push(
                        CR,
                    ).push(LF) =~= old(out)@ + (seq![36u8] + dec_digits(b@.len()) + crlf() + b@
                        + crlf()));
                }
            },
            Frame::Array(_) => {
                proof {
                    assert(false);
                }
                vstd::pervasive::unreached()
            },
        }
    }

    /// Encodes a frame to its wire bytes.  A top-level array is written as
    /// its header and each element's literal encoding; arrays inside an
    /// array are outside the encoder's domain.
    pub fn encode(&self) -> (out: Vec<u8>)
        requires
            encodable(self@),
        ensures
            out@ == spec_encode(self@),
    {
        match self {
            Frame::Array(items) => {
                let mut out: Vec<u8> = Vec::new();
                out.push(42);
                write_decimal(&mut out, items.len() as u64);
                let ghost header = out@;
                let ghost vs = frames_view(items@);
                proof {
                    lemma_frames_view(items@);
                    assert(header =~= seq![42u8] + dec_digits(vs.len()) + crlf());
                    assert(spec_encode_items(Seq::<FrameView>::empty()) =~= Seq::<u8>::empty());
                    assert(header + Seq::<u8>::empty() =~= header);
                }
                let mut i: usize = 0;
                while i < items.len()
                    invariant
                        i <= items@.len(),
                        vs == frames_view(items@),
                        vs.len() == items@.len(),
                        forall|k: int| 0 <= k < items@.len() ==> vs[k] == frame_view(
                            #[trigger] items@[k],
                        ),
                        forall|k: int| 0 <= k < vs.len() ==> !((#[trigger] vs[k]) is Array),
                        out@ == header + spec_encode_items(vs.take(i as int)),
                    decreases items@.len() - i,
                {
                    let ghost before = out@;
                    items[i].write_val(&mut out);
                    proof {
                        assert(vs.take(i + 1).drop_last() =~= vs.take(i as int));
                        assert(vs.take(i + 1).last() == vs[i as int]);
                        assert(out@ =~= header + spec_encode_items(vs.take(i + 1)));
                    }
                    i = i + 1;
                }
                proof {
                    assert(vs.take(vs.len() as int) =~= vs);
                }
                out
            },
            _ => {
                let mut out: Vec<u8> = Vec::new();
                self.write_val(&mut out);
                proof {
                    assert(Seq::<u8>::empty() + spec_encode(self@) =~= spec_encode(self@));
                }
                out
            },
        }
    }
}

} // verus!
