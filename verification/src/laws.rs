//! The laws of the codec: how much a successful parse consumes, that
//! encoding and parsing are inverses, and that any strict prefix of a
//! valid encoding is incomplete rather than wrong.

use vstd::prelude::*;

use crate::frame::FrameError;
use crate::numbers::lemma_dec_rep_digits;
use crate::numbers::lemma_dec_rep_val;
use crate::numbers::lemma_digits_val_nonneg;
use crate::wire::all_digits;
use crate::wire::dec_rep;
use crate::wire::is_digit;
use crate::wire::enc;
use crate::wire::enc_elems;
use crate::wire::int_bytes;
use crate::wire::int_of_word;
use crate::wire::lemma_find_cr_none;
use crate::wire::lemma_find_cr_some;
use crate::wire::lemma_spec_word_some;
use crate::wire::parse;
use crate::wire::parse_elems;
use crate::wire::spec_word;
use crate::wire::wf_frame;
use crate::wire::crlf;
use crate::wire::FrameModel;
use crate::wire::Parsed;
use crate::wire::ParsedElems;
use crate::wire::COLON;
use crate::wire::CR;
use crate::wire::DOLLAR;
use crate::wire::HYPHEN;
use crate::wire::LF;
use crate::wire::MAX_ELEMS;
use crate::wire::MAX_FRAME;
use crate::wire::PLUS;
use crate::wire::STAR;

verus! {

/// A complete parse consumes at least one byte and never more than the
/// buffer holds.
pub proof fn lemma_parse_used(s: Seq<u8>)
    ensures
        parse(s) matches Parsed::Complete(u, m) ==> 1 <= u <= s.len(),
    decreases s.len(), 0nat, 0nat,
{
    if s.len() == 0 {
    } else if s[0] == PLUS || s[0] == HYPHEN || s[0] == COLON {
        lemma_spec_word_some(s.skip(1));
    } else if s[0] == DOLLAR {
        lemma_spec_word_some(s.skip(1));
    } else if s[0] == STAR {
        lemma_spec_word_some(s.skip(1));
        match spec_word(s.skip(1)) {
            Some((e, w)) => match int_of_word(w) {
                Some(n) => if 0 <= n <= MAX_ELEMS as int {
                    lemma_parse_elems_used(s.skip(1 + e as int), n as nat);
                },
                None => {},
            },
            None => {},
        }
    }
}

/// Parsing `n` frames consumes at most the buffer, and yields exactly `n`
/// values.
pub proof fn lemma_parse_elems_used(s: Seq<u8>, n: nat)
    ensures
        parse_elems(s, n) matches ParsedElems::Complete(u, els) ==> u <= s.len() && els.len()
            == n,
    decreases s.len(), 1nat, n,
{
    if n == 0 {
    } else {
        lemma_parse_used(s);
        match parse(s) {
            Parsed::Complete(u, f) => {
                let u2: nat = if u <= s.len() {
                    u
                } else {
                    s.len()
                };
                lemma_parse_elems_used(s.skip(u2 as int), (n - 1) as nat);
            },
            _ => {},
        }
    }
}

/// Appending one frame to a sequence appends its encoding.
pub proof fn lemma_enc_elems_push(els: Seq<FrameModel>, x: FrameModel)
    ensures
        enc_elems(els.push(x)) == enc_elems(els) + enc(x),
    decreases els.len(),
{
    reveal_with_fuel(enc_elems, 3);
    if els.len() == 0 {
        assert(els.push(x)[0] == x);
        assert(els.push(x).drop_first() =~= Seq::<FrameModel>::empty());
        assert(enc_elems(els.push(x)) =~= enc_elems(els) + enc(x));
    } else {
        assert(els.push(x).drop_first() =~= els.drop_first().push(x));
        lemma_enc_elems_push(els.drop_first(), x);
        assert(enc_elems(els.push(x)) =~= enc_elems(els) + enc(x));
    }
}

/// No byte of an integer's decimal encoding is a carriage return.
pub proof fn lemma_int_bytes_no_cr(n: int)
    ensures
        forall|i: int| 0 <= i < int_bytes(n).len() ==> #[trigger] int_bytes(n)[i] != CR,
{
    if n < 0 {
        lemma_dec_rep_digits(-n);
        assert(forall|i: int|
            1 <= i < int_bytes(n).len() ==> #[trigger] int_bytes(n)[i] == dec_rep(-n)[i - 1]);
    } else {
        lemma_dec_rep_digits(n);
    }
}

/// Parsing an integer's decimal encoding gives back the integer: the
/// integer fields of the wire format are written and read losslessly.
pub proof fn lemma_int_of_int_bytes(n: int)
    requires
        i64::MIN as int <= n <= i64::MAX as int,
    ensures
        int_of_word(int_bytes(n)) == Some(n),
{
    if n >= 0 {
        lemma_dec_rep_digits(n);
        lemma_dec_rep_val(n);
    } else {
        let w = int_bytes(n);
        lemma_dec_rep_digits(-n);
        lemma_dec_rep_val(-n);
        assert(w[0] == HYPHEN);
        assert(!is_digit(HYPHEN));
        assert(!all_digits(w));
        assert(w.skip(1) =~= dec_rep(-n));
        assert(w.len() >= 2);
    }
}

/// Any CR-free field followed by the terminator and arbitrary further
/// bytes reads back as exactly that field.
pub proof fn lemma_word_at_encoding(s: Seq<u8>, t: Seq<u8>)
    requires
        forall|i: int| 0 <= i < s.len() ==> #[trigger] s[i] != CR,
    ensures
        spec_word(s + crlf() + t) == Some(((s.len() + 2) as nat, s)),
{
    let u = s + crlf() + t;
    assert(u[s.len() as int] == CR);
    assert(forall|j: int| 0 <= j < s.len() ==> u[j] == #[trigger] s[j]);
    lemma_find_cr_some(u, s.len() as int);
    assert(u[s.len() as int + 1] == LF);
    assert(u.take(s.len() as int) =~= s);
}

/// Any strict prefix of a CR-free field with its terminator holds no full
/// terminator yet: the word scan reports "not yet", never an error.
pub proof fn lemma_word_prefix_incomplete(s: Seq<u8>, k: int)
    requires
        forall|i: int| 0 <= i < s.len() ==> #[trigger] s[i] != CR,
        0 <= k < s.len() + 2,
    ensures
        spec_word((s + crlf()).take(k)) is None,
{
    let p = (s + crlf()).take(k);
    if k <= s.len() {
        assert(forall|j: int| 0 <= j < p.len() ==> p[j] == #[trigger] s[j]);
        lemma_find_cr_none(p);
    } else {
        assert(k == s.len() + 1);
        assert(p[s.len() as int] == CR);
        assert(forall|j: int| 0 <= j < s.len() ==> p[j] == #[trigger] s[j]);
        lemma_find_cr_some(p, s.len() as int);
    }
}

/// Every frame's encoding occupies at least three bytes.
pub proof fn lemma_enc_min_len(m: FrameModel)
    ensures
        enc(m).len() >= 3,
        int_bytes(0).len() >= 1,
{
    assert(int_bytes(0).len() >= 1);
    match m {
        FrameModel::Integer(i) => {
            if i >= 0 {
                lemma_dec_rep_digits(i);
            } else {
                lemma_dec_rep_digits(-i);
            }
        },
        FrameModel::BulkString(p) => {
            lemma_dec_rep_digits(p.len() as int);
        },
        FrameModel::Array(els) => {
            lemma_dec_rep_digits(els.len() as int);
        },
        _ => {},
    }
}

/// The elements of an array occupy at least three encoded bytes each.
pub proof fn lemma_enc_elems_len_ge(els: Seq<FrameModel>)
    ensures
        enc_elems(els).len() >= 3 * els.len(),
    decreases els.len(),
{
    if els.len() > 0 {
        lemma_enc_min_len(els[0]);
        lemma_enc_elems_len_ge(els.drop_first());
    }
}

/// Each element's encoding is no longer than the concatenation it is part
/// of.
pub proof fn lemma_enc_elems_child_le(els: Seq<FrameModel>, i: int)
    requires
        0 <= i < els.len(),
    ensures
        enc(els[i]).len() <= enc_elems(els).len(),
    decreases els.len(),
{
    if i > 0 {
        lemma_enc_elems_child_le(els.drop_first(), i - 1);
    } else {
        assert(enc_elems(els).len() >= enc(els[0]).len());
    }
}

/// Round trip: decoding the encoding of any well-formed frame that fits
/// under the ceiling — with arbitrary further bytes behind it — yields
/// that same frame and consumes exactly its encoded length.
#[verifier::rlimit(60)]
pub proof fn lemma_round_trip(m: FrameModel, tail: Seq<u8>)
    requires
        wf_frame(m),
        enc(m).len() <= MAX_FRAME as int,
    ensures
        parse(enc(m) + tail) == Parsed::Complete(enc(m).len() as nat, m),
    decreases m,
{
    let u = enc(m) + tail;
    match m {
        FrameModel::SimpleString(s) => {
            assert(u.skip(1) =~= s + crlf() + tail);
            lemma_word_at_encoding(s, tail);
            assert(u[0] == PLUS);
        },
        FrameModel::Error(s) => {
            assert(u.skip(1) =~= s + crlf() + tail);
            lemma_word_at_encoding(s, tail);
            assert(u[0] == HYPHEN);
        },
        FrameModel::Integer(i) => {
            let ib = int_bytes(i);
            assert(u.skip(1) =~= ib + crlf() + tail);
            lemma_int_bytes_no_cr(i);
            lemma_word_at_encoding(ib, tail);
            lemma_int_of_int_bytes(i);
            assert(u[0] == COLON);
        },
        FrameModel::NullBulkString => {
            let ib = int_bytes(-1);
            assert(ib =~= seq![HYPHEN, 49u8]);
            assert(u.skip(1) =~= ib + crlf() + tail);
            lemma_int_bytes_no_cr(-1);
            lemma_word_at_encoding(ib, tail);
            lemma_int_of_int_bytes(-1);
            assert(u[0] == DOLLAR);
            assert(enc(m).len() == 5);
        },
        FrameModel::NullBulkArray => {
            let ib = int_bytes(-1);
            assert(ib =~= seq![HYPHEN, 49u8]);
            assert(u.skip(1) =~= ib + crlf() + tail);
            lemma_int_bytes_no_cr(-1);
            lemma_word_at_encoding(ib, tail);
            lemma_int_of_int_bytes(-1);
            assert(u[0] == STAR);
            assert(enc(m).len() == 5);
        },
        FrameModel::BulkString(p) => {
            let pl = p.len() as int;
            let ib = int_bytes(pl);
            assert(u.skip(1) =~= ib + crlf() + (p + crlf() + tail));
            lemma_int_bytes_no_cr(pl);
            lemma_dec_rep_digits(pl);
            lemma_word_at_encoding(ib, p + crlf() + tail);
            lemma_int_of_int_bytes(pl);
            assert(pl <= MAX_FRAME as int);
            let e = (ib.len() + 2) as nat;
            assert(u.skip(1 + e as int) =~= p + crlf() + tail);
            let rest = u.skip(1 + e as int);
            assert(rest[pl] == CR);
            assert(rest[pl + 1] == LF);
            assert(rest.take(pl) =~= p);
            assert(u[0] == DOLLAR);
        },
        FrameModel::Array(els) => {
            let c = els.len() as int;
            let ib = int_bytes(c);
            assert(u.skip(1) =~= ib + crlf() + (enc_elems(els) + tail));
            lemma_int_bytes_no_cr(c);
            lemma_dec_rep_digits(c);
            lemma_word_at_encoding(ib, enc_elems(els) + tail);
            lemma_enc_elems_len_ge(els);
            assert(3 * c <= enc_elems(els).len());
            assert(c <= MAX_ELEMS as int);
            lemma_int_of_int_bytes(c);
            let e = (ib.len() + 2) as nat;
            assert(u.skip(1 + e as int) =~= enc_elems(els) + tail);
            assert forall|i: int| 0 <= i < els.len() implies wf_frame(#[trigger] els[i])
                && enc(els[i]).len() <= MAX_FRAME as int by {
                lemma_enc_elems_child_le(els, i);
            }
            assert(decreases_to!(m => els));
            lemma_round_trip_elems(els, tail);
            assert(u[0] == STAR);
        },
    }
}

/// Round trip for a run of consecutive frames: the concatenation of the
/// elements' encodings parses back to exactly those elements.
pub proof fn lemma_round_trip_elems(els: Seq<FrameModel>, tail: Seq<u8>)
    requires
        forall|i: int| 0 <= i < els.len() ==> wf_frame(#[trigger] els[i]),
        forall|i: int| 0 <= i < els.len() ==> enc(#[trigger] els[i]).len() <= MAX_FRAME as int,
    ensures
        parse_elems(enc_elems(els) + tail, els.len()) == ParsedElems::Complete(
            enc_elems(els).len() as nat,
            els,
        ),
    decreases els,
{
    if els.len() == 0 {
        assert(enc_elems(els) + tail =~= tail);
        assert(enc_elems(els).len() == 0);
    } else {
        let rest = els.drop_first();
        let s = enc_elems(els) + tail;
        assert(s =~= enc(els[0]) + (enc_elems(rest) + tail));
        lemma_round_trip(els[0], enc_elems(rest) + tail);
        let e0 = enc(els[0]).len() as nat;
        assert(parse(s) == Parsed::Complete(e0, els[0]));
        assert(e0 <= s.len());
        assert(s.skip(e0 as int) =~= enc_elems(rest) + tail);
        assert(forall|i: int| 0 <= i < rest.len() ==> rest[i] == els[i + 1]);
        lemma_round_trip_elems(rest, tail);
        assert(seq![els[0]] + rest =~= els);
        assert(e0 + enc_elems(rest).len() == enc_elems(els).len());
    }
}

/// Incompleteness of strict prefixes: cutting the encoding of any
/// well-formed frame at any point strictly before its end yields
/// "incomplete", never a value and never an error.  Together with the
/// round-trip law this gives split-independence: a decoder fed the pieces
/// consumes nothing until the frame is whole, then yields the same frame
/// and length as on the whole buffer.
#[verifier::rlimit(60)]
pub proof fn lemma_prefix_incomplete(m: FrameModel, k: int)
    requires
        wf_frame(m),
        enc(m).len() <= MAX_FRAME as int,
        0 <= k < enc(m).len(),
    ensures
        parse(enc(m).take(k)) == Parsed::Incomplete,
    decreases m,
{
    let p = enc(m).take(k);
    if k == 0 {
        assert(p.len() == 0);
    } else {
        match m {
            FrameModel::SimpleString(s) => {
                assert(p[0] == PLUS);
                assert(p.skip(1) =~= (s + crlf()).take(k - 1));
                lemma_word_prefix_incomplete(s, k - 1);
            },
            FrameModel::Error(s) => {
                assert(p[0] == HYPHEN);
                assert(p.skip(1) =~= (s + crlf()).take(k - 1));
                lemma_word_prefix_incomplete(s, k - 1);
            },
            FrameModel::Integer(i) => {
                assert(p[0] == COLON);
                lemma_int_bytes_no_cr(i);
                assert(p.skip(1) =~= (int_bytes(i) + crlf()).take(k - 1));
                lemma_word_prefix_incomplete(int_bytes(i), k - 1);
            },
            FrameModel::NullBulkString => {
                assert(p[0] == DOLLAR);
                lemma_int_bytes_no_cr(-1);
                assert(int_bytes(-1) =~= seq![HYPHEN, 49u8]);
                assert(p.skip(1) =~= (int_bytes(-1) + crlf()).take(k - 1));
                lemma_word_prefix_incomplete(int_bytes(-1), k - 1);
            },
            FrameModel::NullBulkArray => {
                assert(p[0] == STAR);
                lemma_int_bytes_no_cr(-1);
                assert(int_bytes(-1) =~= seq![HYPHEN, 49u8]);
                assert(p.skip(1) =~= (int_bytes(-1) + crlf()).take(k - 1));
                lemma_word_prefix_incomplete(int_bytes(-1), k - 1);
            },
            FrameModel::BulkString(pay) => {
                assert(p[0] == DOLLAR);
                let pl = pay.len() as int;
                let ib = int_bytes(pl);
                lemma_int_bytes_no_cr(pl);
                lemma_dec_rep_digits(pl);
                let d = ib.len() as int;
                if k - 1 < d + 2 {
                    assert(p.skip(1) =~= (ib + crlf()).take(k - 1));
                    lemma_word_prefix_incomplete(ib, k - 1);
                } else {
                    let rr = (pay + crlf()).take(k - 1 - (d + 2));
                    assert(p.skip(1) =~= ib + crlf() + rr);
                    lemma_word_at_encoding(ib, rr);
                    lemma_int_of_int_bytes(pl);
                    assert(pl <= MAX_FRAME as int);
                    assert(p.skip(1 + (d + 2)) =~= rr);
                    assert(rr.len() < pl + 2);
                }
            },
            FrameModel::Array(els) => {
                assert(p[0] == STAR);
                let c = els.len() as int;
                let ib = int_bytes(c);
                lemma_int_bytes_no_cr(c);
                lemma_dec_rep_digits(c);
                let d = ib.len() as int;
                if k - 1 < d + 2 {
                    assert(p.skip(1) =~= (ib + crlf()).take(k - 1));
                    lemma_word_prefix_incomplete(ib, k - 1);
                } else {
                    let kk = k - 1 - (d + 2);
                    let rr = enc_elems(els).take(kk);
                    assert(p.skip(1) =~= ib + crlf() + rr);
                    lemma_word_at_encoding(ib, rr);
                    lemma_enc_elems_len_ge(els);
                    assert(3 * c <= enc_elems(els).len());
                    assert(c <= MAX_ELEMS as int);
                    lemma_int_of_int_bytes(c);
                    assert(p.skip(1 + (d + 2)) =~= rr);
                    assert forall|i: int| 0 <= i < els.len() implies wf_frame(#[trigger] els[i])
                        && enc(els[i]).len() <= MAX_FRAME as int by {
                        lemma_enc_elems_child_le(els, i);
                    }
                    assert(decreases_to!(m => els));
                    lemma_prefix_incomplete_elems(els, kk);
                }
            },
        }
    }
}

/// Incompleteness of strict prefixes of a run of consecutive frames: the
/// run is atomic, so a cut anywhere inside it parses to "incomplete".
pub proof fn lemma_prefix_incomplete_elems(els: Seq<FrameModel>, k: int)
    requires
        forall|i: int| 0 <= i < els.len() ==> wf_frame(#[trigger] els[i]),
        forall|i: int| 0 <= i < els.len() ==> enc(#[trigger] els[i]).len() <= MAX_FRAME as int,
        0 <= k < enc_elems(els).len(),
    ensures
        parse_elems(enc_elems(els).take(k), els.len()) == ParsedElems::Incomplete,
    decreases els,
{
    if els.len() == 0 {
        assert(enc_elems(els).len() == 0);
    } else {
        let rest = els.drop_first();
        let e0 = enc(els[0]).len() as int;
        let p = enc_elems(els).take(k);
        lemma_enc_min_len(els[0]);
        if k < e0 {
            assert(p =~= enc(els[0]).take(k));
            lemma_prefix_incomplete(els[0], k);
        } else {
            let rr = enc_elems(rest).take(k - e0);
            assert(p =~= enc(els[0]) + rr);
            lemma_round_trip(els[0], rr);
            assert(parse(p) == Parsed::Complete(e0 as nat, els[0]));
            assert(e0 <= p.len());
            assert(p.skip(e0) =~= rr);
            assert(forall|i: int| 0 <= i < rest.len() ==> rest[i] == els[i + 1]);
            lemma_prefix_incomplete_elems(rest, k - e0);
        }
    }
}

/// Split-independence: however a valid encoding is cut, the decoder
/// consumes nothing while only the first piece is present, and once the
/// rest has arrived it yields the same frame with the same total consumed
/// length as decoding the whole buffer at once.
pub proof fn lemma_split_independence(m: FrameModel, k: int, tail: Seq<u8>)
    requires
        wf_frame(m),
        enc(m).len() <= MAX_FRAME as int,
        0 <= k < enc(m).len(),
    ensures
        parse(enc(m).take(k)) == Parsed::Incomplete,
        parse(enc(m) + tail) == Parsed::Complete(enc(m).len() as nat, m),
{
    lemma_prefix_incomplete(m, k);
    lemma_round_trip(m, tail);
}

/// A declared bulk-string or array length below the null sentinel is a
/// protocol violation the moment the length line is complete, whatever
/// does or does not follow it.
pub proof fn lemma_negative_size_rejected(w: Seq<u8>, n: int, t: Seq<u8>)
    requires
        int_of_word(w) == Some(n),
        n < -1,
    ensures
        parse(seq![DOLLAR] + w + crlf() + t) == Parsed::Malformed(
            FrameError::BadBulkStringSize(n as i64),
        ),
        parse(seq![STAR] + w + crlf() + t) == Parsed::Malformed(
            FrameError::BadBulkArraySize(n as i64),
        ),
{
    if w.len() > 0 && all_digits(w) {
        lemma_digits_val_nonneg(w);
        assert(false);
    }
    assert(w[0] == HYPHEN);
    assert(forall|i: int| 1 <= i < w.len() ==> is_digit(#[trigger] w.skip(1)[i - 1]));
    assert forall|i: int| 0 <= i < w.len() implies #[trigger] w[i] != CR by {
        if i >= 1 {
            assert(w[i] == w.skip(1)[i - 1]);
        }
    }
    let ub = seq![DOLLAR] + w + crlf() + t;
    assert(ub[0] == DOLLAR);
    assert(ub.skip(1) =~= w + crlf() + t);
    let ua = seq![STAR] + w + crlf() + t;
    assert(ua[0] == STAR);
    assert(ua.skip(1) =~= w + crlf() + t);
    lemma_word_at_encoding(w, t);
}

/// A buffer opening with any byte other than the five frame markers can
/// never become a frame, even before any further byte arrives.
pub proof fn lemma_unknown_marker(s: Seq<u8>)
    requires
        s.len() > 0,
        s[0] != PLUS,
        s[0] != HYPHEN,
        s[0] != COLON,
        s[0] != DOLLAR,
        s[0] != STAR,
    ensures
        parse(s) == Parsed::Malformed(FrameError::UnknownStartingByte),
{
}

/// A bulk string whose payload alone exceeds the ceiling encodes past the
/// ceiling, so the encoder refuses it before writing anything.
pub proof fn lemma_oversize_bulk(p: Seq<u8>)
    requires
        p.len() > MAX_FRAME as int,
    ensures
        enc(FrameModel::BulkString(p)).len() > MAX_FRAME as int,
{
}

} // verus!

