//! The owned frame value, the parse-time byte-slice intermediate, and the
//! codec that turns accumulator bytes into frames and frames into bytes.

use vstd::prelude::*;

use bytes::Bytes;
use bytes::BytesMut;

use crate::bytebuf::buf_byte;
use crate::bytebuf::buf_bytes;
use crate::bytebuf::buf_len;
use crate::bytebuf::find_byte_from;
use crate::bytebuf::shared_bytes;
use crate::wire::all_digits;
use crate::wire::digits_val;
use crate::wire::int_of_word;
use crate::wire::is_digit;
use crate::wire::lemma_find_cr_none;
use crate::wire::lemma_find_cr_some;
use crate::wire::parse;
use crate::wire::parse_elems;
use crate::wire::spec_word;
use crate::wire::FrameModel;
use crate::wire::Parsed;
use crate::wire::ParsedElems;
use crate::wire::COLON;
use crate::wire::CR;
use crate::wire::DOLLAR;
use crate::wire::HYPHEN;
use crate::wire::LF;
use crate::wire::MAX_ELEMS;
use crate::wire::MAX_FRAME;
use crate::wire::PLUS;
use crate::wire::STAR;
use crate::bytebuf::buf_extend;
use crate::bytebuf::buf_freeze;
use crate::bytebuf::buf_reserve;
use crate::bytebuf::buf_split_to;
use crate::bytebuf::shared_as_slice;
use crate::bytebuf::shared_slice;
use crate::laws::lemma_enc_elems_push;
use crate::laws::lemma_parse_used;
use crate::numbers::fmt_int;
use crate::numbers::fmt_uint;
use crate::numbers::int_len;
use crate::numbers::lemma_digits_val_mono;
use crate::numbers::sat_add;
use crate::wire::crlf;
use crate::wire::enc;
use crate::wire::enc_elems;
use crate::wire::int_bytes;

verus! {

/// Error kinds raised while decoding or encoding a frame.
///
/// Every parse-time error is terminal for the connection: a malformed byte
/// sequence at a given offset never becomes valid by waiting for more bytes.
#[derive(Debug, Clone, Copy, PartialEq, Eq, Structural)]
pub enum FrameError {
    /// A length, count or integer field is not a valid base-10 integer.
    IntParseFailure,
    /// The first byte of a frame is not one of the five known markers.
    UnknownStartingByte,
    /// The peer closed the stream in the middle of a frame.
    UnexpectedEnd,
    /// The underlying transport failed; carried through by the adapter.
    IOError,
    /// A bulk string declared a negative non-sentinel length, or its payload
    /// is not followed by the line terminator.
    BadBulkStringSize(i64),
    /// An array declared a negative non-sentinel element count.
    BadBulkArraySize(i64),
    /// The declared or computed size of a frame exceeds the configured
    /// ceiling.
    FrameTooLarge,
}

/// An owned, decoded protocol value.  Payloads share the storage of the
/// buffer they were decoded from.
#[derive(Debug, PartialEq)]
pub enum FrameValue {
    SimpleString(Bytes),
    BulkString(Bytes),
    Error(Bytes),
    Integer(i64),
    Array(Vec<FrameValue>),
    NullBulkString,
    NullBulkArray,
}

/// The abstract value an owned frame denotes.
pub open spec fn frame_model(f: FrameValue) -> FrameModel
    decreases f,
    via frame_model_decreases
{
    match f {
        FrameValue::SimpleString(b) => FrameModel::SimpleString(shared_bytes(b)),
        FrameValue::BulkString(b) => FrameModel::BulkString(shared_bytes(b)),
        FrameValue::Error(b) => FrameModel::Error(shared_bytes(b)),
        FrameValue::Integer(i) => FrameModel::Integer(i as int),
        FrameValue::NullBulkString => FrameModel::NullBulkString,
        FrameValue::NullBulkArray => FrameModel::NullBulkArray,
        FrameValue::Array(els) => FrameModel::Array(frame_model_list(els@)),
    }
}

/// `frame_model` mapped over a sequence of owned frames.
pub open spec fn frame_model_list(els: Seq<FrameValue>) -> Seq<FrameModel>
    decreases els,
{
    if els.len() == 0 {
        Seq::empty()
    } else {
        seq![frame_model(els[0])] + frame_model_list(els.drop_first())
    }
}

#[via_fn]
proof fn frame_model_decreases(f: FrameValue) {
    match f {
        FrameValue::Array(els) => {
            assert(decreases_to!(f => els));
            assert(decreases_to!(els => els@));
        },
        _ => {},
    }
}

/// `frame_model_list` is the element-wise map of `frame_model`.
pub proof fn lemma_frame_model_list(els: Seq<FrameValue>)
    ensures
        frame_model_list(els) == Seq::new(els.len(), |i: int| frame_model(els[i])),
    decreases els.len(),
{
    if els.len() == 0 {
        assert(frame_model_list(els) =~= Seq::new(els.len(), |i: int| frame_model(els[i])));
    } else {
        lemma_frame_model_list(els.drop_first());
        assert(frame_model_list(els) =~= Seq::new(els.len(), |i: int| frame_model(els[i])));
    }
}

impl View for FrameValue {
    type V = FrameModel;

    open spec fn view(&self) -> FrameModel {
        frame_model(*self)
    }
}

/// A pair of offsets into the accumulator: the half-open byte range
/// `[start, end)` of one field.  It owns nothing; it is valid only while
/// the parse attempt that created it is running.
pub(crate) struct BufSlice(pub usize, pub usize);

/// The zero-copy parse-time form of a frame: only offset pairs into the
/// accumulator, converted to an owned `FrameValue` once the frame boundary
/// is confirmed.
pub(crate) enum FrameBufSlice {
    SimpleString(BufSlice),
    Error(BufSlice),
    BulkString(BufSlice),
    NullBulkString,
    Integer(i64),
    Array(Vec<FrameBufSlice>),
    NullBulkArray,
}

/// The abstract value a byte-slice intermediate denotes against the byte
/// sequence its offsets point into.
pub(crate) open spec fn resolve(fb: FrameBufSlice, v: Seq<u8>) -> FrameModel
    decreases fb,
    via resolve_decreases
{
    match fb {
        FrameBufSlice::SimpleString(bs) => FrameModel::SimpleString(
            v.subrange(bs.0 as int, bs.1 as int),
        ),
        FrameBufSlice::Error(bs) => FrameModel::Error(v.subrange(bs.0 as int, bs.1 as int)),
        FrameBufSlice::BulkString(bs) => FrameModel::BulkString(
            v.subrange(bs.0 as int, bs.1 as int),
        ),
        FrameBufSlice::Integer(i) => FrameModel::Integer(i as int),
        FrameBufSlice::NullBulkString => FrameModel::NullBulkString,
        FrameBufSlice::NullBulkArray => FrameModel::NullBulkArray,
        FrameBufSlice::Array(els) => FrameModel::Array(resolve_list(els@, v)),
    }
}

/// `resolve` mapped over a sequence of intermediates.
pub(crate) open spec fn resolve_list(fbs: Seq<FrameBufSlice>, v: Seq<u8>) -> Seq<FrameModel>
    decreases fbs,
{
    if fbs.len() == 0 {
        Seq::empty()
    } else {
        seq![resolve(fbs[0], v)] + resolve_list(fbs.drop_first(), v)
    }
}

#[via_fn]
proof fn resolve_decreases(fb: FrameBufSlice, v: Seq<u8>) {
    match fb {
        FrameBufSlice::Array(els) => {
            assert(decreases_to!(fb => els));
            assert(decreases_to!(els => els@));
        },
        _ => {},
    }
}

/// `resolve_list` is the element-wise map of `resolve`.
pub(crate) proof fn lemma_resolve_list(fbs: Seq<FrameBufSlice>, v: Seq<u8>)
    ensures
        resolve_list(fbs, v) == Seq::new(fbs.len(), |i: int| resolve(fbs[i], v)),
    decreases fbs.len(),
{
    if fbs.len() == 0 {
        assert(resolve_list(fbs, v) =~= Seq::new(fbs.len(), |i: int| resolve(fbs[i], v)));
    } else {
        lemma_resolve_list(fbs.drop_first(), v);
        assert(resolve_list(fbs, v) =~= Seq::new(fbs.len(), |i: int| resolve(fbs[i], v)));
    }
}

/// Every offset pair of the intermediate lies within `[lo, hi]`.
pub(crate) open spec fn slices_bounded(fb: FrameBufSlice, lo: int, hi: int) -> bool
    decreases fb,
{
    match fb {
        FrameBufSlice::SimpleString(bs) => lo <= bs.0 <= bs.1 <= hi,
        FrameBufSlice::Error(bs) => lo <= bs.0 <= bs.1 <= hi,
        FrameBufSlice::BulkString(bs) => lo <= bs.0 <= bs.1 <= hi,
        FrameBufSlice::Integer(_) => true,
        FrameBufSlice::NullBulkString => true,
        FrameBufSlice::NullBulkArray => true,
        FrameBufSlice::Array(els) => forall|i: int|
            0 <= i < els@.len() ==> slices_bounded(#[trigger] els@[i], lo, hi),
    }
}

/// Bounds on an intermediate's offsets may be widened freely.
pub(crate) proof fn lemma_bounded_widen(fb: FrameBufSlice, lo: int, hi: int, lo2: int, hi2: int)
    requires
        slices_bounded(fb, lo, hi),
        lo2 <= lo,
        hi <= hi2,
    ensures
        slices_bounded(fb, lo2, hi2),
    decreases fb,
{
    match fb {
        FrameBufSlice::Array(els) => {
            assert forall|i: int| 0 <= i < els@.len() implies slices_bounded(
                #[trigger] els@[i],
                lo2,
                hi2,
            ) by {
                lemma_bounded_widen(els@[i], lo, hi, lo2, hi2);
            }
        },
        _ => {},
    }
}

/// An intermediate bounded by `hi` resolves the same against the buffer
/// and against the buffer truncated at `hi`: its value depends only on the
/// bytes of the recognized frame.
pub(crate) proof fn lemma_resolve_take(fb: FrameBufSlice, v: Seq<u8>, hi: int)
    requires
        slices_bounded(fb, 0, hi),
        0 <= hi <= v.len(),
    ensures
        resolve(fb, v.take(hi)) == resolve(fb, v),
    decreases fb,
{
    match fb {
        FrameBufSlice::SimpleString(bs) => {
            assert(v.take(hi).subrange(bs.0 as int, bs.1 as int) =~= v.subrange(
                bs.0 as int,
                bs.1 as int,
            ));
        },
        FrameBufSlice::Error(bs) => {
            assert(v.take(hi).subrange(bs.0 as int, bs.1 as int) =~= v.subrange(
                bs.0 as int,
                bs.1 as int,
            ));
        },
        FrameBufSlice::BulkString(bs) => {
            assert(v.take(hi).subrange(bs.0 as int, bs.1 as int) =~= v.subrange(
                bs.0 as int,
                bs.1 as int,
            ));
        },
        FrameBufSlice::Array(els) => {
            assert forall|i: int| 0 <= i < els@.len() implies resolve(
                #[trigger] els@[i],
                v.take(hi),
            ) == resolve(els@[i], v) by {
                lemma_resolve_take(els@[i], v, hi);
            }
            lemma_resolve_list(els@, v.take(hi));
            lemma_resolve_list(els@, v);
            assert(Seq::new(els@.len(), |i: int| resolve(els@[i], v.take(hi))) =~= Seq::new(
                els@.len(),
                |i: int| resolve(els@[i], v),
            ));
        },
        _ => {},
    }
}

/// Reads one terminator-delimited word starting at `pos`: the range of the
/// bytes before the first carriage return, provided the line feed after it
/// has arrived.  `None` means the terminator is not in the buffer yet.
pub(crate) fn word(buf: &BytesMut, pos: usize) -> (r: Option<(usize, BufSlice)>)
    requires
        pos <= buf_bytes(*buf).len(),
    ensures
        ({
            let v = buf_bytes(*buf);
            let t = v.skip(pos as int);
            match r {
                None => spec_word(t) is None,
                Some((end, bs)) => {
                    &&& pos + 2 <= end <= v.len()
                    &&& bs.0 == pos
                    &&& bs.1 == end - 2
                    &&& spec_word(t) == Some(
                        (((end - pos) as nat, v.subrange(pos as int, end - 2))),
                    )
                },
            }
        }),
{
    let ghost v = buf_bytes(*buf);
    let ghost t = v.skip(pos as int);
    proof {
        assert(forall|k: int| 0 <= k < t.len() ==> t[k] == v[pos + k]);
    }
    let n = buf_len(buf);
    if n <= pos {
        proof {
            lemma_find_cr_none(t);
        }
        return None;
    }
    match find_byte_from(CR, buf, pos) {
        None => {
            proof {
                lemma_find_cr_none(t);
            }
            None
        },
        Some(i) => {
            proof {
                lemma_find_cr_some(t, i as int);
            }
            if pos + i + 1 < n && buf_byte(buf, pos + i + 1) == LF {
                proof {
                    assert(t.take(i as int) =~= v.subrange(pos as int, pos + i));
                }
                Some((pos + i + 2, BufSlice(pos, pos + i)))
            } else {
                None
            }
        },
    }
}

/// Parses the bytes of `[start, end)` as a base-10 signed 64-bit integer:
/// an optional leading hyphen, then one or more digits.  `None` when the
/// bytes are not of that shape or the value does not fit.
fn parse_decimal(buf: &BytesMut, start: usize, end: usize) -> (r: Option<i64>)
    requires
        start <= end <= buf_bytes(*buf).len(),
    ensures
        ({
            let w = buf_bytes(*buf).subrange(start as int, end as int);
            match r {
                Some(i) => int_of_word(w) == Some(i as int),
                None => int_of_word(w) is None,
            }
        }),
{
    let ghost v = buf_bytes(*buf);
    let ghost w = v.subrange(start as int, end as int);
    proof {
        assert(forall|k: int| 0 <= k < w.len() ==> w[k] == v[start + k]);
    }
    if start == end {
        return None;
    }
    let first = buf_byte(buf, start);
    let neg = first == HYPHEN;
    let ds = if neg {
        start + 1
    } else {
        start
    };
    if ds == end {
        // a lone hyphen has no digits
        return None;
    }
    let ghost dw = v.subrange(ds as int, end as int);
    proof {
        assert(forall|k: int| 0 <= k < dw.len() ==> dw[k] == v[ds + k]);
        if neg {
            assert(w.skip(1) =~= dw);
        } else {
            assert(w =~= dw);
        }
    }
    let mut i = ds;
    let mut acc: u64 = 0;
    proof {
        assert(v.subrange(ds as int, ds as int) =~= Seq::<u8>::empty());
    }
    while i < end
        invariant
            start <= ds <= i <= end <= v.len(),
            v == buf_bytes(*buf),
            w == v.subrange(start as int, end as int),
            dw == v.subrange(ds as int, end as int),
            neg ==> ds == start + 1 && v[start as int] == HYPHEN,
            !neg ==> ds == start && v[start as int] != HYPHEN,
            forall|j: int| ds <= j < i ==> is_digit(#[trigger] v[j]),
            acc == digits_val(v.subrange(ds as int, i as int)),
        decreases end - i,
    {
        let b = buf_byte(buf, i);
        if b < 48 || b > 57 {
            proof {
                lemma_decimal_shape_fails(v, w, dw, start as int, ds as int, end as int, i as int, neg);
            }
            return None;
        }
        let d = (b - 48) as u64;
        let acc10 = match acc.checked_mul(10) {
            Some(x) => x,
            None => {
                proof {
                    lemma_decimal_overflow(v, w, dw, start as int, ds as int, end as int, i as int, neg, acc as int, b as int);
                }
                return None;
            },
        };
        let acc2 = match acc10.checked_add(d) {
            Some(x) => x,
            None => {
                proof {
                    lemma_decimal_overflow(v, w, dw, start as int, ds as int, end as int, i as int, neg, acc as int, b as int);
                }
                return None;
            },
        };
        proof {
            assert(v.subrange(ds as int, i + 1).drop_last() =~= v.subrange(ds as int, i as int));
            assert(digits_val(v.subrange(ds as int, i + 1)) == acc * 10 + (b - 48));
        }
        acc = acc2;
        i = i + 1;
    }
    proof {
        assert(dw =~= v.subrange(ds as int, end as int));
        assert(all_digits(dw));
        assert(digits_val(dw) == acc);
        if neg {
            assert(w.len() >= 2);
            assert(w[0] == HYPHEN);
            assert(!is_digit(w[0]));
            assert(!all_digits(w));
        } else {
            assert(w == dw);
        }
    }
    if neg {
        if acc > 9_223_372_036_854_775_808u64 {
            None
        } else if acc == 9_223_372_036_854_775_808u64 {
            Some(i64::MIN)
        } else {
            Some(-(acc as i64))
        }
    } else {
        if acc > i64::MAX as u64 {
            None
        } else {
            Some(acc as i64)
        }
    }
}

/// A non-digit inside the digit region means the word is not an integer.
proof fn lemma_decimal_shape_fails(
    v: Seq<u8>,
    w: Seq<u8>,
    dw: Seq<u8>,
    start: int,
    ds: int,
    end: int,
    i: int,
    neg: bool,
)
    requires
        0 <= start <= ds <= i < end <= v.len(),
        w == v.subrange(start, end),
        dw == v.subrange(ds, end),
        neg ==> ds == start + 1 && v[start] == HYPHEN,
        !neg ==> ds == start && v[start] != HYPHEN,
        !is_digit(v[i]),
    ensures
        int_of_word(w) is None,
{
    assert(w[i - start] == v[i]);
    assert(!all_digits(w));
    if neg {
        assert(w.skip(1) =~= dw);
        assert(w.skip(1)[i - ds] == v[i]);
        assert(!all_digits(w.skip(1)));
    }
}

/// When the running value no longer fits 64 unsigned bits, the word either
/// has a later non-digit or denotes a value outside the signed 64-bit
/// range; in both cases it is not an integer of the wire format.
proof fn lemma_decimal_overflow(
    v: Seq<u8>,
    w: Seq<u8>,
    dw: Seq<u8>,
    start: int,
    ds: int,
    end: int,
    i: int,
    neg: bool,
    acc: int,
    b: int,
)
    requires
        0 <= start <= ds <= i < end <= v.len(),
        w == v.subrange(start, end),
        dw == v.subrange(ds, end),
        neg ==> ds == start + 1 && v[start] == HYPHEN,
        !neg ==> ds == start && v[start] != HYPHEN,
        forall|j: int| ds <= j < i ==> is_digit(#[trigger] v[j]),
        is_digit(v[i]),
        acc == digits_val(v.subrange(ds, i)),
        b == v[i],
        acc * 10 + (b - 48) > u64::MAX,
    ensures
        int_of_word(w) is None,
{
    if all_digits(dw) {
        assert(v.subrange(ds, i + 1).drop_last() =~= v.subrange(ds, i));
        assert(digits_val(v.subrange(ds, i + 1)) == acc * 10 + (b - 48));
        assert(v.subrange(ds, i + 1) =~= dw.take(i + 1 - ds));
        lemma_digits_val_mono(dw, i + 1 - ds);
        assert(digits_val(dw) > u64::MAX);
        if neg {
            assert(w.skip(1) =~= dw);
            assert(!is_digit(w[0]));
            assert(!all_digits(w));
        } else {
            assert(w =~= dw);
        }
    } else {
        let j = choose|j: int| 0 <= j < dw.len() && !is_digit(dw[j]);
        assert(dw[j] == v[ds + j]);
        assert(w[ds + j - start] == v[ds + j]);
        assert(!all_digits(w));
        if neg {
            assert(w.skip(1) =~= dw);
            assert(!all_digits(w.skip(1)));
        }
    }
}

/// Pushing an intermediate onto a list appends its resolved value.
pub(crate) proof fn lemma_resolve_list_push(fbs: Seq<FrameBufSlice>, x: FrameBufSlice, v: Seq<u8>)
    ensures
        resolve_list(fbs.push(x), v) == resolve_list(fbs, v) + seq![resolve(x, v)],
{
    lemma_resolve_list(fbs.push(x), v);
    lemma_resolve_list(fbs, v);
    assert(Seq::new(fbs.push(x).len(), |i: int| resolve(fbs.push(x)[i], v)) =~= Seq::new(
        fbs.len(),
        |i: int| resolve(fbs[i], v),
    ) + seq![resolve(x, v)]);
}

/// What the result of one parse step at `pos` must look like: exactly the
/// outcome of the abstract parse of the bytes from `pos`, with a complete
/// frame handed back as an in-bounds intermediate resolving to the
/// abstract value.
pub(crate) open spec fn step_matches(
    v: Seq<u8>,
    pos: int,
    r: Result<Option<(usize, FrameBufSlice)>, FrameError>,
) -> bool {
    match parse(v.skip(pos)) {
        Parsed::Incomplete => r == Result::<Option<(usize, FrameBufSlice)>, FrameError>::Ok(
            None,
        ),
        Parsed::Malformed(err) => r == Result::<Option<(usize, FrameBufSlice)>, FrameError>::Err(
            err,
        ),
        Parsed::Complete(u, m) => match r {
            Ok(Some((end, fb))) => end == pos + u && end <= v.len() && slices_bounded(
                fb,
                pos,
                end as int,
            ) && resolve(fb, v) == m,
            _ => false,
        },
    }
}

/// Reads one integer field starting at `pos`: a word, then its decimal
/// value.  A word that is present but not a valid integer is malformed,
/// not incomplete.
fn get_int(buf: &BytesMut, pos: usize) -> (r: Result<Option<(usize, i64)>, FrameError>)
    requires
        pos <= buf_bytes(*buf).len(),
    ensures
        ({
            let v = buf_bytes(*buf);
            let t = v.skip(pos as int);
            match r {
                Ok(None) => spec_word(t) is None,
                Ok(Some((end, i))) => spec_word(t) matches Some((e, w)) && end == pos + e && end
                    <= v.len() && int_of_word(w) == Some(i as int),
                Err(err) => err == FrameError::IntParseFailure && (spec_word(t) matches Some(
                    (e, w),
                ) && int_of_word(w) is None),
            }
        }),
{
    match word(buf, pos) {
        None => Ok(None),
        Some((end, bs)) => match parse_decimal(buf, bs.0, bs.1) {
            Some(i) => Ok(Some((end, i))),
            None => Err(FrameError::IntParseFailure),
        },
    }
}

impl FrameBufSlice {
    /// Recognizes one simple string whose marker stood at `pos - 1`.
    fn get_simple_string(buf: &BytesMut, pos: usize) -> (r: Result<
        Option<(usize, Self)>,
        FrameError,
    >)
        requires
            1 <= pos <= buf_bytes(*buf).len(),
            buf_bytes(*buf)[pos - 1] == PLUS,
        ensures
            step_matches(buf_bytes(*buf), pos - 1, r),
    {
        let ghost v = buf_bytes(*buf);
        let ghost s = v.skip(pos - 1);
        proof {
            assert(s[0] == PLUS);
            assert(s.skip(1) =~= v.skip(pos as int));
        }
        match word(buf, pos) {
            None => Ok(None),
            Some((end, bs)) => Ok(Some((end, FrameBufSlice::SimpleString(bs)))),
        }
    }

    /// Recognizes one error reply whose marker stood at `pos - 1`.
    fn get_error(buf: &BytesMut, pos: usize) -> (r: Result<Option<(usize, Self)>, FrameError>)
        requires
            1 <= pos <= buf_bytes(*buf).len(),
            buf_bytes(*buf)[pos - 1] == HYPHEN,
        ensures
            step_matches(buf_bytes(*buf), pos - 1, r),
    {
        let ghost v = buf_bytes(*buf);
        let ghost s = v.skip(pos - 1);
        proof {
            assert(s[0] == HYPHEN);
            assert(s.skip(1) =~= v.skip(pos as int));
        }
        match word(buf, pos) {
            None => Ok(None),
            Some((end, bs)) => Ok(Some((end, FrameBufSlice::Error(bs)))),
        }
    }

    /// Recognizes one integer frame whose marker stood at `pos - 1`.
    fn get_int(buf: &BytesMut, pos: usize) -> (r: Result<Option<(usize, Self)>, FrameError>)
        requires
            1 <= pos <= buf_bytes(*buf).len(),
            buf_bytes(*buf)[pos - 1] == COLON,
        ensures
            step_matches(buf_bytes(*buf), pos - 1, r),
    {
        let ghost v = buf_bytes(*buf);
        let ghost s = v.skip(pos - 1);
        proof {
            assert(s[0] == COLON);
            assert(s.skip(1) =~= v.skip(pos as int));
        }
        match get_int(buf, pos) {
            Err(e) => Err(e),
            Ok(None) => Ok(None),
            Ok(Some((end, i))) => Ok(Some((end, FrameBufSlice::Integer(i)))),
        }
    }

    /// Recognizes one bulk string whose marker stood at `pos - 1`: its
    /// declared length, then that many payload bytes, then the terminator.
    fn get_bulk_string(buf: &BytesMut, pos: usize) -> (r: Result<
        Option<(usize, Self)>,
        FrameError,
    >)
        requires
            1 <= pos <= buf_bytes(*buf).len(),
            buf_bytes(*buf)[pos - 1] == DOLLAR,
        ensures
            step_matches(buf_bytes(*buf), pos - 1, r),
    {
        let ghost v = buf_bytes(*buf);
        let ghost s = v.skip(pos - 1);
        proof {
            assert(s[0] == DOLLAR);
            assert(s.skip(1) =~= v.skip(pos as int));
        }
        match get_int(buf, pos) {
            Err(e) => Err(e),
            Ok(None) => Ok(None),
            Ok(Some((end, size))) => {
                proof {
                    assert(s.skip((end - (pos - 1)) as int) =~= v.skip(end as int));
                }
                if size == -1 {
                    Ok(Some((end, FrameBufSlice::NullBulkString)))
                } else if size < -1 {
                    Err(FrameError::BadBulkStringSize(size))
                } else if size > MAX_FRAME as i64 {
                    Err(FrameError::FrameTooLarge)
                } else {
                    let nn = size as usize;
                    let blen = buf_len(buf);
                    let remaining = blen - end;
                    if remaining < 2 || nn > remaining - 2 {
                        Ok(None)
                    } else {
                        let end_string = end + nn;
                        let c1 = buf_byte(buf, end_string);
                        let c2 = buf_byte(buf, end_string + 1);
                        if c1 == CR && c2 == LF {
                            proof {
                                assert(v.skip(end as int).take(size as int) =~= v.subrange(
                                    end as int,
                                    end_string as int,
                                ));
                            }
                            Ok(
                                Some(
                                    (
                                        end_string + 2,
                                        FrameBufSlice::BulkString(BufSlice(end, end_string)),
                                    ),
                                ),
                            )
                        } else {
                            Err(FrameError::BadBulkStringSize(size))
                        }
                    }
                }
            },
        }
    }

    /// Recognizes one array whose marker stood at `pos - 1`: its declared
    /// element count, then exactly that many frames in sequence.  The
    /// array is atomic: nothing is consumed until every element is
    /// present.
    #[verifier::loop_isolation(false)]
    fn get_array(buf: &BytesMut, pos: usize) -> (r: Result<Option<(usize, Self)>, FrameError>)
        requires
            1 <= pos <= buf_bytes(*buf).len(),
            buf_bytes(*buf)[pos - 1] == STAR,
        ensures
            step_matches(buf_bytes(*buf), pos - 1, r),
        decreases buf_bytes(*buf).len() - pos + 1, 0nat,
    {
        let ghost v = buf_bytes(*buf);
        let ghost s = v.skip(pos - 1);
        proof {
            assert(s[0] == STAR);
            assert(s.skip(1) =~= v.skip(pos as int));
        }
        match get_int(buf, pos) {
            Err(e) => Err(e),
            Ok(None) => Ok(None),
            Ok(Some((end, size))) => {
                let ghost s0 = v.skip(end as int);
                proof {
                    assert(s.skip((end - (pos - 1)) as int) =~= s0);
                }
                if size == -1 {
                    Ok(Some((end, FrameBufSlice::NullBulkArray)))
                } else if size < -1 {
                    Err(FrameError::BadBulkArraySize(size))
                } else if size > MAX_ELEMS as i64 {
                    Err(FrameError::FrameTooLarge)
                } else {
                    let count = size as usize;
                    let mut cur = end;
                    let mut vals: Vec<FrameBufSlice> = Vec::with_capacity(count);
                    let mut k: usize = 0;
                    proof {
                        assert(resolve_list(vals@, v) =~= Seq::<FrameModel>::empty());
                    }
                    while k < count
                        invariant
                            v == buf_bytes(*buf),
                            1 <= pos <= v.len(),
                            pos <= end <= cur <= v.len(),
                            k <= count,
                            vals@.len() == k,
                            s0 == v.skip(end as int),
                            forall|j: int|
                                0 <= j < k ==> slices_bounded(
                                    #[trigger] vals@[j],
                                    pos - 1,
                                    cur as int,
                                ),
                            match parse_elems(v.skip(cur as int), (count - k) as nat) {
                                ParsedElems::Incomplete => parse_elems(
                                    s0,
                                    count as nat,
                                ) is Incomplete,
                                ParsedElems::Malformed(er) => parse_elems(s0, count as nat)
                                    == ParsedElems::Malformed(er),
                                ParsedElems::Complete(u2, els2) => parse_elems(s0, count as nat)
                                    == ParsedElems::Complete(
                                    ((cur - end) + u2) as nat,
                                    resolve_list(vals@, v) + els2,
                                ),
                            },
                        decreases count - k,
                    {
                        let ghost tcur = v.skip(cur as int);
                        match Self::parse(buf, cur) {
                            Err(er) => {
                                return Err(er);
                            },
                            Ok(None) => {
                                return Ok(None);
                            },
                            Ok(Some((np, fb))) => {
                                proof {
                                    lemma_parse_used(tcur);
                                    assert(tcur.skip((np - cur) as int) =~= v.skip(np as int));
                                    lemma_resolve_list_push(vals@, fb, v);
                                    assert(resolve_list(vals@, v) + (seq![resolve(fb, v)]
                                        + resolve_list(Seq::<FrameBufSlice>::empty(), v)) =~= resolve_list(
                                        vals@.push(fb),
                                        v,
                                    ));
                                    assert forall|j: int| 0 <= j < k + 1 implies slices_bounded(
                                        #[trigger] vals@.push(fb)[j],
                                        pos - 1,
                                        np as int,
                                    ) by {
                                        if j < k {
                                            lemma_bounded_widen(
                                                vals@[j],
                                                pos - 1,
                                                cur as int,
                                                pos - 1,
                                                np as int,
                                            );
                                        } else {
                                            lemma_bounded_widen(
                                                fb,
                                                cur as int,
                                                np as int,
                                                pos - 1,
                                                np as int,
                                            );
                                        }
                                    }
                                    match parse_elems(v.skip(np as int), (count - k - 1) as nat) {
                                        ParsedElems::Complete(u3, els3) => {
                                            assert(resolve_list(vals@, v) + (seq![resolve(fb, v)]
                                                + els3) =~= resolve_list(vals@.push(fb), v) + els3);
                                        },
                                        _ => {},
                                    }
                                }
                                vals.push(fb);
                                cur = np;
                                k = k + 1;
                            },
                        }
                    }
                    proof {
                        assert(parse_elems(v.skip(cur as int), 0nat) == ParsedElems::Complete(
                            0nat,
                            Seq::<FrameModel>::empty(),
                        ));
                        assert(resolve_list(vals@, v) + Seq::<FrameModel>::empty() =~= resolve_list(
                            vals@,
                            v,
                        ));
                    }
                    Ok(Some((cur, FrameBufSlice::Array(vals))))
                }
            },
        }
    }

    /// Attempts to recognize one complete frame starting at `pos`,
    /// dispatching on the single leading marker byte.  Never mutates the
    /// buffer: an incomplete attempt consumes nothing.
    pub(crate) fn parse(buf: &BytesMut, pos: usize) -> (r: Result<
        Option<(usize, Self)>,
        FrameError,
    >)
        requires
            pos <= buf_bytes(*buf).len(),
        ensures
            step_matches(buf_bytes(*buf), pos as int, r),
        decreases buf_bytes(*buf).len() - pos, 1nat,
    {
        let ghost v = buf_bytes(*buf);
        let ghost s = v.skip(pos as int);
        let n = buf_len(buf);
        if n <= pos {
            proof {
                assert(s.len() == 0);
            }
            return Ok(None);
        }
        let b = buf_byte(buf, pos);
        proof {
            assert(s[0] == v[pos as int]);
        }
        if b == PLUS {
            Self::get_simple_string(buf, pos + 1)
        } else if b == HYPHEN {
            Self::get_error(buf, pos + 1)
        } else if b == COLON {
            Self::get_int(buf, pos + 1)
        } else if b == DOLLAR {
            Self::get_bulk_string(buf, pos + 1)
        } else if b == STAR {
            Self::get_array(buf, pos + 1)
        } else {
            Err(FrameError::UnknownStartingByte)
        }
    }

    /// Converts a recognized intermediate into an owned frame against the
    /// frozen bytes of the consumed prefix.  This is the single point at
    /// which payload bytes are committed to longer-lived, shared storage.
    #[verifier::loop_isolation(false)]
    fn value(&self, buf: &Bytes) -> (r: FrameValue)
        requires
            slices_bounded(*self, 0, shared_bytes(*buf).len() as int),
        ensures
            frame_model(r) == resolve(*self, shared_bytes(*buf)),
        decreases *self,
    {
        let ghost sb = shared_bytes(*buf);
        match self {
            FrameBufSlice::SimpleString(bs) => FrameValue::SimpleString(
                shared_slice(buf, bs.0, bs.1),
            ),
            FrameBufSlice::Error(bs) => FrameValue::Error(shared_slice(buf, bs.0, bs.1)),
            FrameBufSlice::BulkString(bs) => FrameValue::BulkString(shared_slice(buf, bs.0, bs.1)),
            FrameBufSlice::Integer(i) => FrameValue::Integer(*i),
            FrameBufSlice::NullBulkString => FrameValue::NullBulkString,
            FrameBufSlice::NullBulkArray => FrameValue::NullBulkArray,
            FrameBufSlice::Array(els) => {
                let n = els.len();
                let mut out: Vec<FrameValue> = Vec::with_capacity(n);
                let mut i: usize = 0;
                while i < n
                    invariant
                        0 <= i <= n,
                        out@.len() == i,
                        forall|j: int|
                            0 <= j < i ==> frame_model(#[trigger] out@[j]) == resolve(
                                els@[j],
                                sb,
                            ),
                    decreases n - i,
                {
                    proof {
                        assert(decreases_to!(*self => *els));
                        assert(decreases_to!(*els => els@));
                        assert(decreases_to!(els@ => els@[i as int]));
                    }
                    let child = &els[i];
                    let fv = child.value(buf);
                    out.push(fv);
                    i = i + 1;
                }
                proof {
                    lemma_frame_model_list(out@);
                    lemma_resolve_list(els@, sb);
                    assert(Seq::new(out@.len(), |j: int| frame_model(out@[j])) =~= Seq::new(
                        els@.len(),
                        |j: int| resolve(els@[j], sb),
                    ));
                }
                FrameValue::Array(out)
            },
        }
    }
}

/// Appends one byte to the output buffer.
fn put_byte(dst: &mut BytesMut, b: u8)
    ensures
        buf_bytes(*final(dst)) == buf_bytes(*old(dst)) + seq![b],
{
    let one: Vec<u8> = vec![b];
    buf_extend(dst, one.as_slice());
}

/// Appends the two-byte line terminator to the output buffer.
fn put_crlf(dst: &mut BytesMut)
    ensures
        buf_bytes(*final(dst)) == buf_bytes(*old(dst)) + crlf(),
{
    let two: Vec<u8> = vec![CR, LF];
    buf_extend(dst, two.as_slice());
    proof {
        assert(crlf() =~= seq![CR, LF]);
    }
}

impl FrameValue {
    /// Appends this frame's exact byte encoding to the output buffer.
    #[verifier::loop_isolation(false)]
    pub fn value(&self, dst: &mut BytesMut)
        ensures
            buf_bytes(*final(dst)) == buf_bytes(*old(dst)) + enc(frame_model(*self)),
        decreases *self,
    {
        let ghost base = buf_bytes(*dst);
        match self {
            FrameValue::SimpleString(b) => {
                put_byte(dst, PLUS);
                buf_extend(dst, shared_as_slice(b));
                put_crlf(dst);
                proof {
                    assert(buf_bytes(*dst) =~= base + enc(frame_model(*self)));
                }
            },
            FrameValue::Error(b) => {
                put_byte(dst, HYPHEN);
                buf_extend(dst, shared_as_slice(b));
                put_crlf(dst);
                proof {
                    assert(buf_bytes(*dst) =~= base + enc(frame_model(*self)));
                }
            },
            FrameValue::Integer(num) => {
                put_byte(dst, COLON);
                let digits = fmt_int(*num);
                buf_extend(dst, digits.as_slice());
                put_crlf(dst);
                proof {
                    assert(buf_bytes(*dst) =~= base + enc(frame_model(*self)));
                }
            },
            FrameValue::BulkString(b) => {
                put_byte(dst, DOLLAR);
                let payload = shared_as_slice(b);
                let digits = fmt_uint(payload.len() as u64);
                buf_extend(dst, digits.as_slice());
                put_crlf(dst);
                buf_extend(dst, payload);
                put_crlf(dst);
                proof {
                    assert(buf_bytes(*dst) =~= base + enc(frame_model(*self)));
                }
            },
            FrameValue::NullBulkString => {
                let lit: Vec<u8> = vec![DOLLAR, HYPHEN, 49u8, CR, LF];
                buf_extend(dst, lit.as_slice());
                proof {
                    assert(buf_bytes(*dst) =~= base + enc(frame_model(*self)));
                }
            },
            FrameValue::NullBulkArray => {
                let lit: Vec<u8> = vec![STAR, HYPHEN, 49u8, CR, LF];
                buf_extend(dst, lit.as_slice());
                proof {
                    assert(buf_bytes(*dst) =~= base + enc(frame_model(*self)));
                }
            },
            FrameValue::Array(els) => {
                let ghost mels = frame_model_list(els@);
                proof {
                    lemma_frame_model_list(els@);
                }
                put_byte(dst, STAR);
                let digits = fmt_uint(els.len() as u64);
                buf_extend(dst, digits.as_slice());
                put_crlf(dst);
                let ghost hdr_done = buf_bytes(*dst);
                proof {
                    assert(enc_elems(mels.take(0)) =~= Seq::<u8>::empty());
                    assert(buf_bytes(*dst) =~= hdr_done + enc_elems(mels.take(0)));
                }
                let n = els.len();
                let mut i: usize = 0;
                while i < n
                    invariant
                        0 <= i <= n,
                        buf_bytes(*dst) == hdr_done + enc_elems(mels.take(i as int)),
                    decreases n - i,
                {
                    proof {
                        assert(decreases_to!(*self => *els));
                        assert(decreases_to!(*els => els@));
                        assert(decreases_to!(els@ => els@[i as int]));
                    }
                    let child = &els[i];
                    child.value(dst);
                    proof {
                        assert(mels.take(i + 1) =~= mels.take(i as int).push(mels[i as int]));
                        lemma_enc_elems_push(mels.take(i as int), mels[i as int]);
                        assert(frame_model(els@[i as int]) == mels[i as int]);
                    }
                    i = i + 1;
                }
                proof {
                    assert(mels.take(n as int) =~= mels);
                    assert(buf_bytes(*dst) =~= base + enc(frame_model(*self)));
                }
            },
        }
    }

    /// The exact number of bytes this frame's encoding occupies, computed
    /// without allocating the encoding; saturates at the machine's limit,
    /// far beyond the largest frame the codec accepts.
    #[verifier::loop_isolation(false)]
    pub fn len(&self) -> (r: usize)
        ensures
            ({
                let n = enc(frame_model(*self)).len() as int;
                if n <= usize::MAX as int {
                    r == n
                } else {
                    r == usize::MAX as int
                }
            }),
        decreases *self,
    {
        match self {
            FrameValue::SimpleString(b) => {
                let pl = shared_as_slice(b).len();
                sat_add(sat_add(1, pl), 2)
            },
            FrameValue::Error(b) => {
                let pl = shared_as_slice(b).len();
                sat_add(sat_add(1, pl), 2)
            },
            FrameValue::Integer(num) => {
                let dl = int_len(*num);
                sat_add(sat_add(1, dl), 2)
            },
            FrameValue::BulkString(b) => {
                let pl = shared_as_slice(b).len();
                let dl = fmt_uint(pl as u64).len();
                sat_add(sat_add(sat_add(sat_add(1, dl), 2), pl), 2)
            },
            FrameValue::NullBulkString => 5,
            FrameValue::NullBulkArray => 5,
            FrameValue::Array(els) => {
                let ghost mels = frame_model_list(els@);
                proof {
                    lemma_frame_model_list(els@);
                    assert(enc_elems(mels.take(0)) =~= Seq::<u8>::empty());
                }
                let dl = fmt_uint(els.len() as u64).len();
                let header = sat_add(sat_add(1, dl), 2);
                let mut total = header;
                let n = els.len();
                let mut i: usize = 0;
                while i < n
                    invariant
                        0 <= i <= n,
                        ({
                            let sofar = (1 + int_bytes(mels.len() as int).len() + 2
                                + enc_elems(mels.take(i as int)).len()) as int;
                            if sofar <= usize::MAX as int {
                                total == sofar
                            } else {
                                total == usize::MAX as int
                            }
                        }),
                    decreases n - i,
                {
                    proof {
                        assert(decreases_to!(*self => *els));
                        assert(decreases_to!(*els => els@));
                        assert(decreases_to!(els@ => els@[i as int]));
                    }
                    let child = &els[i];
                    let cl = child.len();
                    proof {
                        assert(mels.take(i + 1) =~= mels.take(i as int).push(mels[i as int]));
                        lemma_enc_elems_push(mels.take(i as int), mels[i as int]);
                        assert(frame_model(els@[i as int]) == mels[i as int]);
                    }
                    total = sat_add(total, cl);
                    i = i + 1;
                }
                proof {
                    assert(mels.take(n as int) =~= mels);
                }
                total
            },
        }
    }
}

/// The incremental codec: stateless in itself, it recognizes one frame per
/// call against a growable accumulator and serializes one frame per call
/// into an output buffer.
pub struct Frame;

impl Frame {
    /// Attempts to decode one complete frame from the front of the
    /// accumulator.
    ///
    /// Returns `Ok(None)` and consumes nothing while the buffer holds only
    /// a proper prefix of a frame; removes exactly the frame's bytes and
    /// returns the owned value once a full frame is present; returns the
    /// error and consumes nothing when the bytes can never form a frame.
    pub fn decode(&mut self, src: &mut BytesMut) -> (r: Result<Option<FrameValue>, FrameError>)
        ensures
            ({
                let v0 = buf_bytes(*old(src));
                match r {
                    Ok(None) => parse(v0) is Incomplete && buf_bytes(*final(src)) == v0,
                    Ok(Some(f)) => match parse(v0) {
                        Parsed::Complete(u, m) => frame_model(f) == m && buf_bytes(*final(src))
                            == v0.skip(u as int),
                        _ => false,
                    },
                    Err(e) => parse(v0) == Parsed::Malformed(e) && buf_bytes(*final(src)) == v0,
                }
            }),
    {
        let ghost v0 = buf_bytes(*src);
        proof {
            assert(v0.skip(0) =~= v0);
        }
        if buf_len(src) == 0 {
            return Ok(None);
        }
        match FrameBufSlice::parse(src, 0) {
            Err(e) => Err(e),
            Ok(None) => Ok(None),
            Ok(Some((end, fb))) => {
                proof {
                    lemma_resolve_take(fb, v0, end as int);
                }
                let data = buf_split_to(src, end);
                let frozen = buf_freeze(data);
                let val = fb.value(&frozen);
                Ok(Some(val))
            },
        }
    }

    /// The inbound adapter's decision when a read returns zero bytes (the
    /// peer closed): with an empty accumulator the shutdown is clean; with
    /// bytes of a partial frame still held, the stream was truncated.
    pub fn on_peer_closed(&self, accumulator_len: usize) -> (r: Option<FrameError>)
        ensures
            r == if accumulator_len == 0 {
                None::<FrameError>
            } else {
                Some(FrameError::UnexpectedEnd)
            },
    {
        if accumulator_len == 0 {
            None
        } else {
            Some(FrameError::UnexpectedEnd)
        }
    }

    /// Serializes one frame into the output buffer, rejecting it up front
    /// — before any byte is written — when its encoded size exceeds the
    /// configured ceiling.
    pub fn encode(&mut self, item: FrameValue, dst: &mut BytesMut) -> (r: Result<(), FrameError>)
        ensures
            ({
                let m = frame_model(item);
                match r {
                    Ok(_) => enc(m).len() <= MAX_FRAME && buf_bytes(*final(dst)) == buf_bytes(
                        *old(dst),
                    ) + enc(m),
                    Err(e) => e == FrameError::FrameTooLarge && enc(m).len() > MAX_FRAME
                        && buf_bytes(*final(dst)) == buf_bytes(*old(dst)),
                }
            }),
    {
        let len = item.len();
        if len > MAX_FRAME {
            return Err(FrameError::FrameTooLarge);
        }
        buf_reserve(dst, len);
        item.value(dst);
        Ok(())
    }
}

} // verus!
