//! Comparison and selection without a branch on the values.

use subtle::{Choice, ConditionallySelectable, ConstantTimeEq};
use vstd::prelude::*;

verus! {

/// Calls `subtle::ConstantTimeEq::ct_eq` on two words.
///
/// Claims that the result is one if the words are equal and zero if they are
/// not. That the time taken does not depend on the words is what the call is
/// made for, and is not expressed here.
#[verifier::external_body]
pub(crate) fn equal_words(a: u64, b: u64) -> (r: u8)
    ensures
        r == if a == b {
            1u8
        } else {
            0u8
        },
{
    a.ct_eq(&b).unwrap_u8()
}

/// Calls `subtle::ConditionallySelectable::conditional_select` on two bytes.
///
/// Claims that the result is `a` where the choice is zero and `b` where it is
/// one. That the time taken does not depend on the choice is what the call is
/// made for, and is not expressed here.
#[verifier::external_body]
pub(crate) fn select_byte(a: u8, b: u8, choice: u8) -> (r: u8)
    requires
        choice <= 1,
    ensures
        r == if choice == 1 {
            b
        } else {
            a
        },
{
    u8::conditional_select(&a, &b, Choice::from(choice))
}

proof fn lemma_fold(acc: u64, x: u64, y: u64)
    by (bit_vector)
    ensures
        acc | (x ^ y) == 0 <==> acc == 0 && x == y,
{
}

/// Compares two lists of whole words of eight bytes: one if they are equal, and
/// zero if they are not.
///
/// Folds the differences of the words into one word, so that every byte is
/// read whatever the lists hold, and compares that word with zero.
pub fn equal_bytes(a: &[u8], b: &[u8]) -> (r: u8)
    requires
        a@.len() == b@.len(),
        a@.len() % 8 == 0,
    ensures
        r == if a@ == b@ {
            1u8
        } else {
            0u8
        },
{
    let length: usize = a.len();
    let mut acc: u64 = 0;
    let mut i: usize = 0;
    proof {
        vstd::bytes::lemma_auto_spec_u64_to_from_le_bytes();
        assert(a@.take(0) =~= b@.take(0));
    }
    while i < length
        invariant
            i <= length,
            i % 8 == 0,
            length % 8 == 0,
            length == a@.len() == b@.len(),
            acc == 0 <==> a@.take(i as int) == b@.take(i as int),
            forall|s: Seq<u8>|
                s.len() == 8 ==> #[trigger] vstd::bytes::spec_u64_to_le_bytes(
                    vstd::bytes::spec_u64_from_le_bytes(s),
                ) == s,
        decreases length - i,
    {
        let x: u64 = vstd::bytes::u64_from_le_bytes(vstd::slice::slice_subrange(a, i, i + 8));
        let y: u64 = vstd::bytes::u64_from_le_bytes(vstd::slice::slice_subrange(b, i, i + 8));
        proof {
            let (s, t) = (a@.subrange(i as int, i + 8), b@.subrange(i as int, i + 8));
            assert(vstd::bytes::spec_u64_to_le_bytes(x) == s);
            assert(vstd::bytes::spec_u64_to_le_bytes(y) == t);
            lemma_fold(acc, x, y);
            assert(a@.take(i + 8) =~= a@.take(i as int) + s);
            assert(b@.take(i + 8) =~= b@.take(i as int) + t);
            if a@.take(i + 8) == b@.take(i + 8) {
                assert(a@.take(i as int) =~= a@.take(i + 8).take(i as int));
                assert(b@.take(i as int) =~= b@.take(i + 8).take(i as int));
                assert(s =~= a@.take(i + 8).skip(i as int));
                assert(t =~= b@.take(i + 8).skip(i as int));
            }
        }
        acc = acc | (x ^ y);
        i = i + 8;
    }
    proof {
        assert(a@.take(length as int) =~= a@);
        assert(b@.take(length as int) =~= b@);
    }
    equal_words(acc, 0)
}

} // verus!
