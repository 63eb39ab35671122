//! Formatting of the decimal integer fields of the wire format, and the
//! facts about digit strings that the parser's overflow handling needs.

use vstd::prelude::*;

use crate::wire::all_digits;
use crate::wire::dec_rep;
use crate::wire::digits_val;
use crate::wire::int_bytes;
use crate::wire::HYPHEN;

verus! {

/// Every byte of a decimal representation is a digit, and there is at
/// least one.
pub proof fn lemma_dec_rep_digits(n: int)
    requires
        n >= 0,
    ensures
        all_digits(dec_rep(n)),
        dec_rep(n).len() >= 1,
    decreases n,
{
    if n >= 10 {
        lemma_dec_rep_digits(n / 10);
        let w = dec_rep(n);
        let p = dec_rep(n / 10);
        assert(forall|i: int| 0 <= i < p.len() ==> w[i] == p[i]);
        assert(0 <= n % 10 < 10);
    }
}

/// The decimal representation denotes the number it was built from.
pub proof fn lemma_dec_rep_val(n: int)
    requires
        n >= 0,
    ensures
        digits_val(dec_rep(n)) == n,
    decreases n,
{
    let w = dec_rep(n);
    if n < 10 {
        assert(w.drop_last() =~= Seq::<u8>::empty());
        assert(digits_val(w) == digits_val(w.drop_last()) * 10 + (w.last() - 48));
    } else {
        lemma_dec_rep_val(n / 10);
        assert(w.drop_last() =~= dec_rep(n / 10));
        assert(digits_val(w) == digits_val(w.drop_last()) * 10 + (w.last() - 48));
        assert(n / 10 * 10 + n % 10 == n) by (nonlinear_arith);
    }
}

/// A digit string denotes a non-negative number.
pub proof fn lemma_digits_val_nonneg(w: Seq<u8>)
    requires
        all_digits(w),
    ensures
        digits_val(w) >= 0,
    decreases w.len(),
{
    if w.len() > 0 {
        assert(all_digits(w.drop_last())) by {
            assert(forall|i: int| 0 <= i < w.len() - 1 ==> w.drop_last()[i] == w[i]);
        }
        lemma_digits_val_nonneg(w.drop_last());
    }
}

/// Extending a digit string to the right never shrinks its value: the
/// value of any prefix is a lower bound for the value of the whole.
pub proof fn lemma_digits_val_mono(w: Seq<u8>, k: int)
    requires
        all_digits(w),
        0 <= k <= w.len(),
    ensures
        digits_val(w.take(k)) <= digits_val(w),
    decreases w.len() - k,
{
    if k < w.len() {
        let a = w.take(k);
        let b = w.take(k + 1);
        assert(b.drop_last() =~= a);
        assert(all_digits(a)) by {
            assert(forall|i: int| 0 <= i < k ==> a[i] == w[i]);
        }
        lemma_digits_val_nonneg(a);
        assert(digits_val(b) == digits_val(a) * 10 + (b.last() - 48));
        assert(digits_val(a) * 10 >= digits_val(a)) by (nonlinear_arith)
            requires digits_val(a) >= 0;
        lemma_digits_val_mono(w, k + 1);
    } else {
        assert(w.take(k) =~= w);
    }
}

/// Saturating addition of two byte counts.
pub(crate) fn sat_add(a: usize, b: usize) -> (r: usize)
    ensures
        r == if a + b <= usize::MAX as int { a + b } else { usize::MAX as int },
{
    match a.checked_add(b) {
        Some(c) => c,
        None => usize::MAX,
    }
}

/// The decimal digits of an unsigned value, most significant first.
pub fn fmt_uint(v: u64) -> (r: Vec<u8>)
    ensures
        r@ == dec_rep(v as int),
{
    let mut rev: Vec<u8> = Vec::new();
    let mut m: u64 = v;
    proof {
        assert(dec_rep(v as int) =~= dec_rep(m as int) + rev@.reverse());
    }
    while m >= 10
        invariant
            dec_rep(v as int) == dec_rep(m as int) + rev@.reverse(),
        decreases m,
    {
        let d: u8 = (m % 10) as u8 + 48;
        let ghost old_rev = rev@;
        rev.push(d);
        m = m / 10;
        proof {
            assert(rev@.reverse() =~= seq![d] + old_rev.reverse());
            assert(dec_rep(v as int) =~= dec_rep(m as int) + rev@.reverse());
        }
    }
    let d0: u8 = m as u8 + 48;
    let ghost old_rev = rev@;
    rev.push(d0);
    proof {
        assert(rev@.reverse() =~= seq![d0] + old_rev.reverse());
        assert(dec_rep(v as int) =~= rev@.reverse());
    }
    let n = rev.len();
    let mut out: Vec<u8> = Vec::new();
    let mut i: usize = n;
    proof {
        assert(out@ =~= rev@.subrange(i as int, n as int).reverse());
    }
    while i > 0
        invariant
            n == rev@.len(),
            0 <= i <= n,
            out@ == rev@.subrange(i as int, n as int).reverse(),
        decreases i,
    {
        i = i - 1;
        out.push(rev[i]);
        proof {
            assert(out@ =~= rev@.subrange(i as int, n as int).reverse());
        }
    }
    proof {
        assert(rev@.subrange(0, n as int) =~= rev@);
        assert(out@ =~= dec_rep(v as int));
    }
    out
}

/// The magnitude of a negative signed value, as an unsigned value.
fn neg_mag(num: i64) -> (r: u64)
    requires
        num < 0,
    ensures
        r as int == -(num as int),
{
    let wide: i128 = -(num as i128);
    wide as u64
}

/// The decimal bytes of a signed value, with a leading hyphen if negative.
pub fn fmt_int(num: i64) -> (r: Vec<u8>)
    ensures
        r@ == int_bytes(num as int),
{
    if num >= 0 {
        fmt_uint(num as u64)
    } else {
        let mag = neg_mag(num);
        let digits = fmt_uint(mag);
        let mut out: Vec<u8> = Vec::new();
        out.push(HYPHEN);
        let n = digits.len();
        let mut i: usize = 0;
        while i < n
            invariant
                n == digits@.len(),
                0 <= i <= n,
                out@ == seq![HYPHEN] + digits@.subrange(0, i as int),
            decreases n - i,
        {
            out.push(digits[i]);
            i = i + 1;
            proof {
                assert(out@ =~= seq![HYPHEN] + digits@.subrange(0, i as int));
            }
        }
        proof {
            assert(digits@.subrange(0, n as int) =~= digits@);
            assert(out@ =~= int_bytes(num as int));
        }
        out
    }
}

/// The number of bytes in the decimal encoding of a signed value,
/// including the sign.
pub fn int_len(num: i64) -> (r: usize)
    ensures
        r == int_bytes(num as int).len(),
{
    fmt_int(num).len()
}

} // verus!
