//! An incremental decoder and encoder for a RESP-style, text-prefixed wire
//! protocol: simple strings, errors, integers, bulk strings, arrays and the
//! two null sentinels, layered over a byte stream whose reads arrive in
//! arbitrary chunks.

use vstd::prelude::*;

pub mod bytebuf;
pub mod frame;
pub mod laws;
pub mod numbers;
pub mod wire;

verus! {

/// Spec-level ASCII lower-casing of a single byte.
pub open spec fn ascii_lower(b: u8) -> u8 {
    if 65 <= b <= 90 {
        (b + 32) as u8
    } else {
        b
    }
}

/// Two byte strings are equal up to ASCII case.
pub open spec fn eq_ignore_ascii_case(a: Seq<u8>, b: Seq<u8>) -> bool {
    a.len() == b.len() && forall|i: int| 0 <= i < a.len() ==> ascii_lower(#[trigger] a[i]) == ascii_lower(#[trigger] b[i])
}

/// Compares two byte strings for equality ignoring ASCII case, as command
/// names are compared.
pub fn are_equal(first: &[u8], second: &[u8]) -> (r: bool)
    ensures
        r == eq_ignore_ascii_case(first@, second@),
{
    if first.len() != second.len() {
        return false;
    }
    let n = first.len();
    let mut i: usize = 0;
    while i < n
        invariant
            n == first@.len() == second@.len(),
            0 <= i <= n,
            forall|j: int| 0 <= j < i ==> ascii_lower(#[trigger] first@[j]) == ascii_lower(#[trigger] second@[j]),
        decreases n - i,
    {
        let a = first[i];
        let b = second[i];
        let la = if 65 <= a && a <= 90 { a + 32 } else { a };
        let lb = if 65 <= b && b <= 90 { b + 32 } else { b };
        if la != lb {
            return false;
        }
        i = i + 1;
    }
    true
}

} // verus!
