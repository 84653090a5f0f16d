//! Non-negative integers written as big-endian bytes, and field elements.
use vstd::prelude::*;

verus! {

/// The value of big-endian bytes.
pub open spec fn be_value(bytes: Seq<u8>) -> nat
    decreases bytes.len(),
{
    if bytes.len() == 0 {
        0
    } else {
        be_value(bytes.drop_last()) * 256 + bytes.last() as nat
    }
}

/// The prime of the field of Cairo: 2^251 + 17 * 2^192 + 1.
pub open spec fn felt_prime() -> nat {
    0x800000000000011000000000000000000000000000000000000000000000001nat
}

/// An element of the field, as the 32 big-endian bytes of its value in `[0, prime)`.
pub struct FeltValue {
    pub bytes: Vec<u8>,
}

impl FeltValue {
    /// The value of the element.
    pub open spec fn value(&self) -> nat {
        be_value(self.bytes@)
    }
}

/// `Felt252::from_bytes_be` of `cairo_felt`, its 32 bytes taken with
/// `to_be_bytes`: the element congruent to the value of `bytes`.
#[verifier::external_body]
pub(crate) fn felt_from_be_bytes(bytes: &Vec<u8>) -> (r: FeltValue)
    ensures
        r.bytes@.len() == 32,
        r.value() == be_value(bytes@) % felt_prime(),
{
    FeltValue { bytes: cairo_felt::Felt252::from_bytes_be(bytes).to_be_bytes().to_vec() }
}

proof fn lemma_be_value_prefix(bytes: Seq<u8>, j: int)
    requires
        0 <= j <= bytes.len(),
    ensures
        be_value(bytes.take(j)) <= be_value(bytes),
    decreases bytes.len(),
{
    if j < bytes.len() {
        lemma_be_value_prefix(bytes.drop_last(), j);
        assert(bytes.drop_last().take(j) =~= bytes.take(j));
    } else {
        assert(bytes.take(j) =~= bytes);
    }
}

/// The value of `bytes` as a `usize`, if it is at most `usize::MAX`
/// (`ToPrimitive::to_usize` on the integer they stand for).
pub fn be_bytes_to_usize(bytes: &Vec<u8>) -> (r: Option<usize>)
    ensures
        r == (if be_value(bytes@) <= usize::MAX {
            Some(be_value(bytes@) as usize)
        } else {
            None
        }),
{
    let mut acc: usize = 0;
    let mut i: usize = 0;
    while i < bytes.len()
        invariant
            i <= bytes.len(),
            acc == be_value(bytes@.take(i as int)),
        decreases bytes.len() - i,
    {
        let b = bytes[i];
        assert(bytes@.take(i + 1).drop_last() =~= bytes@.take(i as int));
        if acc > (usize::MAX - b as usize) / 256 {
            proof {
                assert(acc * 256 + b > usize::MAX) by (nonlinear_arith)
                    requires
                        acc > (usize::MAX - b) / 256,
                        b < 256,
                ;
                lemma_be_value_prefix(bytes@, i + 1);
            }
            return None;
        }
        assert(acc * 256 + b <= usize::MAX) by (nonlinear_arith)
            requires
                acc <= (usize::MAX - b) / 256,
                b < 256,
        ;
        acc = acc * 256 + b as usize;
        i = i + 1;
    }
    assert(bytes@.take(bytes.len() as int) =~= bytes@);
    Some(acc)
}

} // verus!
