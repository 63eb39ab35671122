//! The mathematical model of the wire format: what a frame is, what its
//! exact byte encoding is, and what one parse attempt over a byte sequence
//! yields — a complete frame, "not enough bytes yet", or "can never become a
//! frame".

use vstd::prelude::*;

use crate::frame::FrameError;

verus! {

/// Carriage return, the first byte of the line terminator.
pub const CR: u8 = 13;

/// Line feed, the second byte of the line terminator.
pub const LF: u8 = 10;

/// Marker byte of a simple string, `+`.
pub const PLUS: u8 = 43;

/// Marker byte of an error reply, `-`, also the sign of a negative integer.
pub const HYPHEN: u8 = 45;

/// Marker byte of an integer, `:`.
pub const COLON: u8 = 58;

/// Marker byte of a bulk string, `$`.
pub const DOLLAR: u8 = 36;

/// Marker byte of an array, `*`.
pub const STAR: u8 = 42;

/// The configured ceiling on the encoded size of a frame: 8 MiB.
pub const MAX_FRAME: usize = 8 * 1024 * 1024;

/// The largest element count an array may declare.  Every frame occupies at
/// least three encoded bytes, so an array declaring more elements than this
/// could never fit under `MAX_FRAME` and is rejected before any space is
/// reserved for it.
pub const MAX_ELEMS: usize = MAX_FRAME / 3;

/// The abstract value of a frame: payloads are byte sequences, counts and
/// integers are unbounded.
#[verifier::ext_equal]
pub enum FrameModel {
    SimpleString(Seq<u8>),
    BulkString(Seq<u8>),
    Error(Seq<u8>),
    Integer(int),
    Array(Seq<FrameModel>),
    NullBulkString,
    NullBulkArray,
}

/// The outcome of one parse attempt at the start of a byte sequence.
#[verifier::ext_equal]
pub enum Parsed {
    /// The bytes are a proper prefix of some frame; nothing is consumed.
    Incomplete,
    /// The bytes can never begin a valid frame.
    Malformed(FrameError),
    /// A full frame was recognized in the first `n` bytes.
    Complete(nat, FrameModel),
}

/// The outcome of parsing a fixed number of consecutive frames.
#[verifier::ext_equal]
pub enum ParsedElems {
    Incomplete,
    Malformed(FrameError),
    Complete(nat, Seq<FrameModel>),
}

/// The two-byte line terminator.
pub open spec fn crlf() -> Seq<u8> {
    seq![CR, LF]
}

/// Index of the first carriage return in `t`, if any.
pub open spec fn find_cr(t: Seq<u8>) -> Option<nat>
    decreases t.len(),
{
    if t.len() == 0 {
        None
    } else if t[0] == CR {
        Some(0)
    } else {
        match find_cr(t.drop_first()) {
            None => None,
            Some(i) => Some((i + 1) as nat),
        }
    }
}

/// `find_cr` returns the first carriage return: if the bytes before `i`
/// are free of it and `t[i]` holds it, `i` is the index found.
pub proof fn lemma_find_cr_some(t: Seq<u8>, i: int)
    requires
        0 <= i < t.len(),
        t[i] == CR,
        forall|j: int| 0 <= j < i ==> t[j] != CR,
    ensures
        find_cr(t) == Some(i as nat),
    decreases i,
{
    if i > 0 {
        assert(forall|j: int| 0 <= j < i - 1 ==> t.drop_first()[j] == t[j + 1]);
        lemma_find_cr_some(t.drop_first(), i - 1);
    }
}

/// A sequence without a carriage return has no first one.
pub proof fn lemma_find_cr_none(t: Seq<u8>)
    requires
        forall|j: int| 0 <= j < t.len() ==> t[j] != CR,
    ensures
        find_cr(t) is None,
    decreases t.len(),
{
    if t.len() > 0 {
        assert(forall|j: int| 0 <= j < t.len() - 1 ==> t.drop_first()[j] == t[j + 1]);
        lemma_find_cr_none(t.drop_first());
    }
}

/// One line of the protocol, read from the start of `t`: the bytes before
/// the first carriage return, provided the byte after it is a line feed.
/// The returned offset is the first index past the terminator.  `None`
/// means the terminator has not fully arrived yet.
pub open spec fn spec_word(t: Seq<u8>) -> Option<(nat, Seq<u8>)> {
    match find_cr(t) {
        None => None,
        Some(i) => if i + 1 < t.len() && t[i as int + 1] == LF {
            Some(((i + 2) as nat, t.take(i as int)))
        } else {
            None
        },
    }
}

/// A found word ends at least two bytes in and within the sequence, and
/// holds exactly the bytes before its terminator.
pub proof fn lemma_spec_word_some(t: Seq<u8>)
    ensures
        spec_word(t) matches Some((e, w)) ==> 2 <= e <= t.len() && w == t.take(e as int - 2)
            && w.len() == e - 2,
{
}

/// ASCII decimal digit.
pub open spec fn is_digit(b: u8) -> bool {
    48 <= b <= 57
}

/// Every byte of `w` is a decimal digit.
pub open spec fn all_digits(w: Seq<u8>) -> bool {
    forall|i: int| 0 <= i < w.len() ==> is_digit(#[trigger] w[i])
}

/// Numeric value of a digit string, most significant digit first.
pub open spec fn digits_val(w: Seq<u8>) -> int
    decreases w.len(),
{
    if w.len() == 0 {
        0
    } else {
        digits_val(w.drop_last()) * 10 + (w.last() - 48)
    }
}

/// The signed integer a protocol line denotes: one or more digits with an
/// optional leading hyphen, rejected when the value does not fit a 64-bit
/// signed integer.
pub open spec fn int_of_word(w: Seq<u8>) -> Option<int> {
    if w.len() > 0 && all_digits(w) {
        if digits_val(w) <= i64::MAX as int {
            Some(digits_val(w))
        } else {
            None
        }
    } else if w.len() >= 2 && w[0] == HYPHEN && all_digits(w.skip(1)) {
        if -digits_val(w.skip(1)) >= i64::MIN as int {
            Some(-digits_val(w.skip(1)))
        } else {
            None
        }
    } else {
        None
    }
}

/// Decimal representation of a non-negative integer, without sign.
pub open spec fn dec_rep(n: int) -> Seq<u8>
    decreases n,
{
    if n < 10 {
        seq![(n + 48) as u8]
    } else {
        dec_rep(n / 10).push((n % 10 + 48) as u8)
    }
}

/// Decimal representation of an integer, with a leading hyphen if negative.
pub open spec fn int_bytes(n: int) -> Seq<u8> {
    if n < 0 {
        seq![HYPHEN] + dec_rep(-n)
    } else {
        dec_rep(n)
    }
}

/// The exact byte encoding of a frame.
pub open spec fn enc(m: FrameModel) -> Seq<u8>
    decreases m,
{
    match m {
        FrameModel::SimpleString(s) => seq![PLUS] + s + crlf(),
        FrameModel::Error(s) => seq![HYPHEN] + s + crlf(),
        FrameModel::Integer(i) => seq![COLON] + int_bytes(i) + crlf(),
        FrameModel::BulkString(p) => seq![DOLLAR] + int_bytes(p.len() as int) + crlf() + p + crlf(),
        FrameModel::NullBulkString => seq![DOLLAR, HYPHEN, 49u8, CR, LF],
        FrameModel::NullBulkArray => seq![STAR, HYPHEN, 49u8, CR, LF],
        FrameModel::Array(els) => seq![STAR] + int_bytes(els.len() as int) + crlf() + enc_elems(els),
    }
}

/// The concatenated encodings of a sequence of frames, in order, with no
/// separators.
pub open spec fn enc_elems(els: Seq<FrameModel>) -> Seq<u8>
    decreases els,
{
    if els.len() == 0 {
        Seq::empty()
    } else {
        enc(els[0]) + enc_elems(els.drop_first())
    }
}

/// One parse attempt at the start of `s`.  Dispatch is by the single
/// leading marker byte; an empty sequence is incomplete, an unknown marker
/// is malformed.
pub open spec fn parse(s: Seq<u8>) -> Parsed
    decreases s.len(), 0nat, 0nat,
{
    if s.len() == 0 {
        Parsed::Incomplete
    } else if s[0] == PLUS {
        match spec_word(s.skip(1)) {
            None => Parsed::Incomplete,
            Some((e, w)) => Parsed::Complete((1 + e) as nat, FrameModel::SimpleString(w)),
        }
    } else if s[0] == HYPHEN {
        match spec_word(s.skip(1)) {
            None => Parsed::Incomplete,
            Some((e, w)) => Parsed::Complete((1 + e) as nat, FrameModel::Error(w)),
        }
    } else if s[0] == COLON {
        match spec_word(s.skip(1)) {
            None => Parsed::Incomplete,
            Some((e, w)) => match int_of_word(w) {
                None => Parsed::Malformed(FrameError::IntParseFailure),
                Some(i) => Parsed::Complete((1 + e) as nat, FrameModel::Integer(i)),
            },
        }
    } else if s[0] == DOLLAR {
        match spec_word(s.skip(1)) {
            None => Parsed::Incomplete,
            Some((e, w)) => match int_of_word(w) {
                None => Parsed::Malformed(FrameError::IntParseFailure),
                Some(n) => if n == -1 {
                    Parsed::Complete((1 + e) as nat, FrameModel::NullBulkString)
                } else if n < -1 {
                    Parsed::Malformed(FrameError::BadBulkStringSize(n as i64))
                } else if n > MAX_FRAME as int {
                    Parsed::Malformed(FrameError::FrameTooLarge)
                } else {
                    let rest = s.skip(1 + e as int);
                    if n + 2 > rest.len() {
                        Parsed::Incomplete
                    } else if rest[n] == CR && rest[n + 1] == LF {
                        Parsed::Complete((1 + e + n + 2) as nat, FrameModel::BulkString(rest.take(n)))
                    } else {
                        Parsed::Malformed(FrameError::BadBulkStringSize(n as i64))
                    }
                },
            },
        }
    } else if s[0] == STAR {
        match spec_word(s.skip(1)) {
            None => Parsed::Incomplete,
            Some((e, w)) => match int_of_word(w) {
                None => Parsed::Malformed(FrameError::IntParseFailure),
                Some(n) => if n == -1 {
                    Parsed::Complete((1 + e) as nat, FrameModel::NullBulkArray)
                } else if n < -1 {
                    Parsed::Malformed(FrameError::BadBulkArraySize(n as i64))
                } else if n > MAX_ELEMS as int {
                    Parsed::Malformed(FrameError::FrameTooLarge)
                } else {
                    match parse_elems(s.skip(1 + e as int), n as nat) {
                        ParsedElems::Incomplete => Parsed::Incomplete,
                        ParsedElems::Malformed(err) => Parsed::Malformed(err),
                        ParsedElems::Complete(u, els) => Parsed::Complete(
                            (1 + e + u) as nat,
                            FrameModel::Array(els),
                        ),
                    }
                },
            },
        }
    } else {
        Parsed::Malformed(FrameError::UnknownStartingByte)
    }
}

/// Parse exactly `n` consecutive frames from the start of `s`.  An array is
/// atomic: if any element is incomplete the whole sequence is incomplete,
/// and a malformed element fails the whole sequence.
pub open spec fn parse_elems(s: Seq<u8>, n: nat) -> ParsedElems
    decreases s.len(), 1nat, n,
{
    if n == 0 {
        ParsedElems::Complete(0, Seq::empty())
    } else {
        match parse(s) {
            Parsed::Incomplete => ParsedElems::Incomplete,
            Parsed::Malformed(err) => ParsedElems::Malformed(err),
            Parsed::Complete(u, f) => {
                let u2 = if u <= s.len() { u } else { s.len() };
                match parse_elems(s.skip(u2 as int), (n - 1) as nat) {
                    ParsedElems::Incomplete => ParsedElems::Incomplete,
                    ParsedElems::Malformed(err) => ParsedElems::Malformed(err),
                    ParsedElems::Complete(u3, els) => ParsedElems::Complete(
                        (u2 + u3) as nat,
                        seq![f] + els,
                    ),
                }
            },
        }
    }
}

/// A frame value the protocol can carry faithfully: simple-string and error
/// payloads hold no carriage return (their encodings are terminator
/// delimited), and integers fit the wire's 64-bit signed range.
pub open spec fn wf_frame(m: FrameModel) -> bool
    decreases m,
{
    match m {
        FrameModel::SimpleString(s) => forall|i: int| 0 <= i < s.len() ==> #[trigger] s[i] != CR,
        FrameModel::Error(s) => forall|i: int| 0 <= i < s.len() ==> #[trigger] s[i] != CR,
        FrameModel::Integer(i) => i64::MIN as int <= i <= i64::MAX as int,
        FrameModel::BulkString(_) => true,
        FrameModel::NullBulkString => true,
        FrameModel::NullBulkArray => true,
        FrameModel::Array(els) => forall|i: int| 0 <= i < els.len() ==> wf_frame(#[trigger] els[i]),
    }
}

} // verus!
