//! Laws of the frame codec: a well-formed frame's encoding scans and
//! parses back to exactly that frame, and every strict prefix of such an
//! encoding is reported as incomplete, never as malformed.
use vstd::prelude::*;

verus! {

use crate::frame::{
    Scan,
    Parsed,
    ParsedItems,
    FrameView,
    spec_check,
    spec_check_items,
    spec_parse,
    spec_parse_items,
    spec_encode,
    spec_encode_items,
    find_crlf,
    crlf_free,
    crlf,
    tail_from,
    wf_frame,
    wf_item,
    lemma_find_crlf_at,
    lemma_find_crlf_none,
    CR,
    LF,
};
use crate::text::{dec_digits, is_digit, lemma_dec_digits, lemma_atoi_dec_digits, spec_atoi_u64};

/// A line with no CRLF pair, terminated by CRLF and followed by anything:
/// the first CRLF is the terminator.
pub proof fn lemma_find_line(line: Seq<u8>, rest: Seq<u8>)
    requires
        crlf_free(line),
    ensures
        find_crlf(line + crlf() + rest) == Some(line.len() as int),
        (line + crlf() + rest).take(line.len() as int) == line,
{
    let s = line + crlf() + rest;
    assert forall|j: int| 0 <= j < line.len() implies !(#[trigger] s[j] == CR && s[j + 1] == LF)
        by {
        if j < line.len() - 1 {
            assert(s[j] == line[j]);
            assert(s[j + 1] == line[j + 1]);
        } else {
            assert(s[j + 1] == CR);
        }
    }
    assert(s[line.len() as int] == CR);
    assert(s[line.len() as int + 1] == LF);
    lemma_find_crlf_at(s, line.len() as int);
    assert(s.take(line.len() as int) =~= line);
}

/// A digit string holds no CRLF pair.
pub proof fn lemma_digits_crlf_free(d: Seq<u8>)
    requires
        forall|i: int| 0 <= i < d.len() ==> is_digit(#[trigger] d[i]),
    ensures
        crlf_free(d),
{
}

/// A strict prefix of a CRLF-terminated line still holds no CRLF pair.
pub proof fn lemma_line_prefix_crlf_free(line: Seq<u8>, j: int)
    requires
        crlf_free(line),
        0 <= j <= line.len() + 1,
    ensures
        crlf_free((line + crlf()).take(j)),
{
    let p = (line + crlf()).take(j);
    assert forall|i: int| 0 <= i < p.len() - 1 implies !(#[trigger] p[i] == CR && p[i + 1] == LF)
        by {
        if i < line.len() - 1 {
            assert(p[i] == line[i]);
            assert(p[i + 1] == line[i + 1]);
        } else {
            assert(p[i + 1] == (line + crlf())[i + 1]);
            assert(p[i + 1] == CR);
        }
    }
}

/// Every frame encoding is non-empty.
pub proof fn lemma_encode_len(v: FrameView)
    ensures
        spec_encode(v).len() >= 3,
{
    match v {
        FrameView::Integer(n) => {
            lemma_dec_digits(n as nat);
        },
        FrameView::Bulk(b) => {
            lemma_dec_digits(b.len());
        },
        FrameView::Array(items) => {
            lemma_dec_digits(items.len());
        },
        _ => {},
    }
}

/// The scan accepts a well-formed frame's encoding, whatever follows it,
/// and consumes exactly the encoding.
pub proof fn lemma_check_encode(v: FrameView, rest: Seq<u8>)
    requires
        wf_frame(v),
    ensures
        spec_check(spec_encode(v) + rest) == (Scan::Complete { n: spec_encode(v).len() as int }),
    decreases v, 0nat,
{
    let s = spec_encode(v) + rest;
    match v {
        FrameView::Simple(t) => {
            assert(s[0] == 43);
            assert(s.skip(1) =~= t + crlf() + rest);
            lemma_find_line(t, rest);
        },
        FrameView::Error(t) => {
            assert(s[0] == 45);
            assert(s.skip(1) =~= t + crlf() + rest);
            lemma_find_line(t, rest);
        },
        FrameView::Integer(n) => {
            let d = dec_digits(n as nat);
            lemma_dec_digits(n as nat);
            assert(s[0] == 58);
            assert(s.skip(1) =~= d + crlf() + rest);
            lemma_digits_crlf_free(d);
            lemma_find_line(d, rest);
            lemma_atoi_dec_digits(n, Seq::empty());
            assert(d + Seq::<u8>::empty() =~= d);
        },
        FrameView::Null => {
            let marker = seq![45u8, 49u8];
            assert(s[0] == 36);
            assert(s[1] == 45);
            assert(s.skip(1) =~= marker + crlf() + rest);
            assert(crlf_free(marker));
            lemma_find_line(marker, rest);
        },
        FrameView::Bulk(b) => {
            let d = dec_digits(b.len());
            lemma_dec_digits(b.len());
            assert(s[0] == 36);
            assert(s.skip(1) =~= d + crlf() + (b + crlf() + rest));
            assert(s[1] == d[0]);
            lemma_digits_crlf_free(d);
            lemma_find_line(d, b + crlf() + rest);
            lemma_atoi_dec_digits(b.len() as u64, Seq::empty());
            assert(d + Seq::<u8>::empty() =~= d);
            assert(s.len() - (1 + d.len() + 2) >= b.len() + 2);
        },
        FrameView::Array(items) => {
            let d = dec_digits(items.len());
            lemma_dec_digits(items.len());
            assert(s[0] == 42);
            assert(s.skip(1) =~= d + crlf() + (spec_encode_items(items) + rest));
            assert(s[1] == d[0]);
            lemma_digits_crlf_free(d);
            lemma_find_line(d, spec_encode_items(items) + rest);
            lemma_atoi_dec_digits(items.len() as u64, Seq::empty());
            assert(d + Seq::<u8>::empty() =~= d);
            let header = 1 + d.len() + 2;
            assert(tail_from(s, header as int) =~= spec_encode_items(items) + rest);
            lemma_check_encode_items(items, rest);
        },
    }
}

/// The scan accepts the concatenated encodings of well-formed elements.
pub proof fn lemma_check_encode_items(items: Seq<FrameView>, rest: Seq<u8>)
    requires
        forall|i: int| 0 <= i < items.len() ==> wf_item(#[trigger] items[i]),
    ensures
        spec_check_items(spec_encode_items(items) + rest, items.len()) == (Scan::Complete {
            n: spec_encode_items(items).len() as int,
        }),
    decreases items, 1nat,
{
    if items.len() == 0 {
        assert(spec_encode_items(items) =~= Seq::<u8>::empty());
    } else {
        let first = items[0];
        let tail = items.drop_first();
        lemma_encode_items_first(items);
        let s = spec_encode_items(items) + rest;
        assert(s =~= spec_encode(first) + (spec_encode_items(tail) + rest));
        assert(wf_frame(first));
        lemma_check_encode(first, spec_encode_items(tail) + rest);
        let n0 = spec_encode(first).len() as int;
        lemma_encode_len(first);
        assert(tail_from(s, n0) =~= spec_encode_items(tail) + rest);
        assert forall|i: int| 0 <= i < tail.len() implies wf_item(#[trigger] tail[i]) by {
            assert(tail[i] == items[i + 1]);
        }
        lemma_check_encode_items(tail, rest);
    }
}

/// The encodings of a non-empty sequence start with the first element's.
pub proof fn lemma_encode_items_first(items: Seq<FrameView>)
    requires
        items.len() > 0,
    ensures
        spec_encode_items(items) == spec_encode(items[0]) + spec_encode_items(items.drop_first()),
    decreases items.len(),
{
    if items.len() == 1 {
        assert(items.drop_last() =~= Seq::<FrameView>::empty());
        assert(items.drop_first() =~= Seq::<FrameView>::empty());
        assert(items.last() == items[0]);
        assert(spec_encode_items(items) == spec_encode_items(items.drop_last()) + spec_encode(
            items.last(),
        ));
        assert(spec_encode_items(Seq::<FrameView>::empty()) =~= Seq::<u8>::empty());
        assert(Seq::<u8>::empty() + spec_encode(items[0]) =~= spec_encode(items[0]));
        assert(spec_encode(items[0]) + spec_encode_items(items.drop_first()) =~= spec_encode(
            items[0],
        ));
    } else {
        let dl = items.drop_last();
        lemma_encode_items_first(dl);
        assert(dl[0] == items[0]);
        assert(items.drop_first().drop_last() =~= dl.drop_first());
        assert(items.drop_first().last() == items.last());
        assert(items.drop_first().len() > 0);
        assert(spec_encode_items(items.drop_first()) == spec_encode_items(dl.drop_first())
            + spec_encode(items.last()));
        assert(spec_encode_items(items) == (spec_encode(items[0]) + spec_encode_items(
            dl.drop_first(),
        )) + spec_encode(items.last()));
        assert((spec_encode(items[0]) + spec_encode_items(dl.drop_first())) + spec_encode(
            items.last(),
        ) =~= spec_encode(items[0]) + (spec_encode_items(dl.drop_first()) + spec_encode(
            items.last(),
        )));
    }
}

/// Parsing a well-formed frame value's encoding, whatever follows it,
/// yields exactly that value and consumes exactly the encoding.
pub proof fn lemma_parse_encode(v: FrameView, rest: Seq<u8>)
    requires
        wf_frame(v),
    ensures
        spec_parse(spec_encode(v) + rest) == (Parsed::Complete {
            v,
            n: spec_encode(v).len() as int,
        }),
    decreases v, 0nat,
{
    let s = spec_encode(v) + rest;
    match v {
        FrameView::Simple(t) => {
            assert(s[0] == 43);
            assert(s.skip(1) =~= t + crlf() + rest);
            lemma_find_line(t, rest);
        },
        FrameView::Error(t) => {
            assert(s[0] == 45);
            assert(s.skip(1) =~= t + crlf() + rest);
            lemma_find_line(t, rest);
        },
        FrameView::Integer(n) => {
            let d = dec_digits(n as nat);
            lemma_dec_digits(n as nat);
            assert(s[0] == 58);
            assert(s.skip(1) =~= d + crlf() + rest);
            lemma_digits_crlf_free(d);
            lemma_find_line(d, rest);
            lemma_atoi_dec_digits(n, Seq::empty());
            assert(d + Seq::<u8>::empty() =~= d);
        },
        FrameView::Null => {
            let marker = seq![45u8, 49u8];
            assert(s[0] == 36);
            assert(s[1] == 45);
            assert(s.skip(1) =~= marker + crlf() + rest);
            assert(crlf_free(marker));
            lemma_find_line(marker, rest);
        },
        FrameView::Bulk(b) => {
            let d = dec_digits(b.len());
            lemma_dec_digits(b.len());
            assert(s[0] == 36);
            assert(s.skip(1) =~= d + crlf() + (b + crlf() + rest));
            assert(s[1] == d[0]);
            lemma_digits_crlf_free(d);
            lemma_find_line(d, b + crlf() + rest);
            lemma_atoi_dec_digits(b.len() as u64, Seq::empty());
            assert(d + Seq::<u8>::empty() =~= d);
            let header = 1 + d.len() as int + 2;
            assert(s.len() - header >= b.len() + 2);
            assert(s.subrange(header, header + b.len() as int) =~= b);
        },
        FrameView::Array(items) => {
            let d = dec_digits(items.len());
            lemma_dec_digits(items.len());
            assert(s[0] == 42);
            assert(s.skip(1) =~= d + crlf() + (spec_encode_items(items) + rest));
            assert(s[1] == d[0]);
            lemma_digits_crlf_free(d);
            lemma_find_line(d, spec_encode_items(items) + rest);
            lemma_atoi_dec_digits(items.len() as u64, Seq::empty());
            assert(d + Seq::<u8>::empty() =~= d);
            let header = 1 + d.len() as int + 2;
            assert(tail_from(s, header) =~= spec_encode_items(items) + rest);
            lemma_parse_encode_items(items, rest);
        },
    }
}

/// Parsing the concatenated encodings of well-formed elements yields
/// exactly those elements.
pub proof fn lemma_parse_encode_items(items: Seq<FrameView>, rest: Seq<u8>)
    requires
        forall|i: int| 0 <= i < items.len() ==> wf_item(#[trigger] items[i]),
    ensures
        spec_parse_items(spec_encode_items(items) + rest, items.len()) == (ParsedItems::Complete {
            vs: items,
            n: spec_encode_items(items).len() as int,
        }),
    decreases items, 1nat,
{
    if items.len() == 0 {
        assert(spec_encode_items(items) =~= Seq::<u8>::empty());
        assert(items =~= Seq::<FrameView>::empty());
    } else {
        let first = items[0];
        let tail = items.drop_first();
        lemma_encode_items_first(items);
        let s = spec_encode_items(items) + rest;
        assert(s =~= spec_encode(first) + (spec_encode_items(tail) + rest));
        assert(wf_frame(first));
        lemma_parse_encode(first, spec_encode_items(tail) + rest);
        let n0 = spec_encode(first).len() as int;
        lemma_encode_len(first);
        assert(tail_from(s, n0) =~= spec_encode_items(tail) + rest);
        assert forall|i: int| 0 <= i < tail.len() implies wf_item(#[trigger] tail[i]) by {
            assert(tail[i] == items[i + 1]);
        }
        lemma_parse_encode_items(tail, rest);
        assert(seq![first] + tail =~= items);
    }
}

/// Round trip: the encoding of every well-formed frame value parses back
/// to exactly that value, consuming the whole encoding.
pub proof fn lemma_round_trip(v: FrameView)
    requires
        wf_frame(v),
    ensures
        spec_parse(spec_encode(v)) == (Parsed::Complete { v, n: spec_encode(v).len() as int }),
{
    lemma_parse_encode(v, Seq::empty());
    assert(spec_encode(v) + Seq::<u8>::empty() =~= spec_encode(v));
}

/// Truncating a well-formed frame value's encoding anywhere short of its
/// end leaves the scan incomplete, never malformed.
pub proof fn lemma_prefix_incomplete(v: FrameView, k: int)
    requires
        wf_frame(v),
        0 <= k < spec_encode(v).len(),
    ensures
        spec_check(spec_encode(v).take(k)) is Incomplete,
    decreases v, 0nat,
{
    let p = spec_encode(v).take(k);
    if k == 0 {
        assert(p.len() == 0);
    } else {
        match v {
            FrameView::Simple(t) => {
                assert(p[0] == 43);
                assert(p.skip(1) =~= (t + crlf()).take(k - 1));
                lemma_line_prefix_crlf_free(t, k - 1);
                lemma_find_crlf_none(p.skip(1));
            },
            FrameView::Error(t) => {
                assert(p[0] == 45);
                assert(p.skip(1) =~= (t + crlf()).take(k - 1));
                lemma_line_prefix_crlf_free(t, k - 1);
                lemma_find_crlf_none(p.skip(1));
            },
            FrameView::Integer(n) => {
                let d = dec_digits(n as nat);
                lemma_dec_digits(n as nat);
                assert(p[0] == 58);
                assert(p.skip(1) =~= (d + crlf()).take(k - 1));
                lemma_digits_crlf_free(d);
                lemma_line_prefix_crlf_free(d, k - 1);
                lemma_find_crlf_none(p.skip(1));
            },
            FrameView::Null => {
                assert(p[0] == 36);
                if k >= 2 {
                    let marker = seq![45u8, 49u8];
                    assert(p[1] == 45);
                    assert(p.skip(1) =~= (marker + crlf()).take(k - 1));
                    assert(crlf_free(marker));
                    lemma_line_prefix_crlf_free(marker, k - 1);
                    lemma_find_crlf_none(p.skip(1));
                }
            },
            FrameView::Bulk(b) => {
                let d = dec_digits(b.len());
                lemma_dec_digits(b.len());
                assert(p[0] == 36);
                let header = 1 + d.len() as int + 2;
                if k >= 2 {
                    assert(p[1] == d[0]);
                    assert(!(p[1] == 45));
                }
                if k - 1 <= d.len() + 1 {
                    if k >= 2 {
                        assert(p.skip(1) =~= (d + crlf()).take(k - 1));
                        lemma_digits_crlf_free(d);
                        lemma_line_prefix_crlf_free(d, k - 1);
                        lemma_find_crlf_none(p.skip(1));
                    }
                } else {
                    assert(p.skip(1) =~= d + crlf() + (b + crlf()).take(k - header));
                    lemma_digits_crlf_free(d);
                    lemma_find_line(d, (b + crlf()).take(k - header));
                    lemma_atoi_dec_digits(b.len() as u64, Seq::empty());
                    assert(d + Seq::<u8>::empty() =~= d);
                    assert(p.len() - header < b.len() + 2);
                }
            },
            FrameView::Array(items) => {
                let d = dec_digits(items.len());
                lemma_dec_digits(items.len());
                assert(p[0] == 42);
                let header = 1 + d.len() as int + 2;
                if k >= 2 {
                    assert(p[1] == d[0]);
                    assert(!(p[1] == 45));
                }
                if k - 1 <= d.len() + 1 {
                    if k >= 2 {
                        assert(p.skip(1) =~= (d + crlf()).take(k - 1));
                        lemma_digits_crlf_free(d);
                        lemma_line_prefix_crlf_free(d, k - 1);
                        lemma_find_crlf_none(p.skip(1));
                    }
                } else {
                    let tail = spec_encode_items(items).take(k - header);
                    assert(p.skip(1) =~= d + crlf() + tail);
                    lemma_digits_crlf_free(d);
                    lemma_find_line(d, tail);
                    lemma_atoi_dec_digits(items.len() as u64, Seq::empty());
                    assert(d + Seq::<u8>::empty() =~= d);
                    assert(tail_from(p, header) =~= tail);
                    lemma_check_items_prefix(items, k - header);
                }
            },
        }
    }
}

/// Truncating the concatenated encodings of well-formed elements short of
/// their end leaves the scan of that many frames incomplete.
pub proof fn lemma_check_items_prefix(items: Seq<FrameView>, j: int)
    requires
        forall|i: int| 0 <= i < items.len() ==> wf_item(#[trigger] items[i]),
        0 <= j < spec_encode_items(items).len(),
    ensures
        spec_check_items(spec_encode_items(items).take(j), items.len()) is Incomplete,
    decreases items, 1nat,
{
    if items.len() == 0 {
        assert(spec_encode_items(items) =~= Seq::<u8>::empty());
    } else {
        let first = items[0];
        let tail = items.drop_first();
        lemma_encode_items_first(items);
        let w = spec_encode_items(items).take(j);
        let n0 = spec_encode(first).len() as int;
        assert(wf_frame(first));
        lemma_encode_len(first);
        assert forall|i: int| 0 <= i < tail.len() implies wf_item(#[trigger] tail[i]) by {
            assert(tail[i] == items[i + 1]);
        }
        if j < n0 {
            assert(w =~= spec_encode(first).take(j));
            lemma_prefix_incomplete(first, j);
        } else {
            assert(w =~= spec_encode(first) + spec_encode_items(tail).take(j - n0));
            lemma_check_encode(first, spec_encode_items(tail).take(j - n0));
            assert(tail_from(w, n0) =~= spec_encode_items(tail).take(j - n0));
            lemma_check_items_prefix(tail, j - n0);
        }
    }
}

/// Decoding picks up exactly where the scan left off: once the scan
/// accepts a window, decoding the same window either yields a value
/// spanning exactly the scanned bytes or rejects the window as malformed;
/// it never finds the window incomplete.
pub proof fn lemma_check_then_parse(s: Seq<u8>)
    ensures
        spec_check(s) is Complete ==> (spec_parse(s) is Malformed || (spec_check(
            s,
        ) matches Scan::Complete { n } && spec_parse(s) matches Parsed::Complete { v, n: m } && m
            == n)),
    decreases s.len(), 0nat,
{
    if s.len() >= 2 && s[0] == 42 && s[1] != 45 {
        match find_crlf(s.skip(1)) {
            Some(i) => {
                match spec_atoi_u64(s.skip(1).take(i)) {
                    Some(len) => {
                        if len <= usize::MAX as u64 {
                            lemma_check_then_parse_items(tail_from(s, 1 + i + 2), len as nat);
                        }
                    },
                    None => {},
                }
            },
            None => {},
        }
    }
}

/// The scan and the decode of a run of frames leave off at the same
/// place whenever the scan accepts the run.
pub proof fn lemma_check_then_parse_items(s: Seq<u8>, count: nat)
    ensures
        spec_check_items(s, count) is Complete ==> (spec_parse_items(s, count) is Malformed || (
        spec_check_items(s, count) matches Scan::Complete { n } && spec_parse_items(
            s,
            count,
        ) matches ParsedItems::Complete { vs, n: m } && m == n)),
    decreases s.len(), count, 1nat,
{
    if count > 0 {
        lemma_check_then_parse(s);
        match spec_check(s) {
            Scan::Complete { n } => {
                match spec_parse(s) {
                    Parsed::Complete { v, n: m } => {
                        lemma_check_then_parse_items(tail_from(s, n), (count - 1) as nat);
                    },
                    _ => {},
                }
            },
            _ => {},
        }
    }
}

} // verus!
