//! Rows of the index are `bv::BitVec`s. Their contents are modelled as a
//! sequence of booleans, and each operation the index uses is a small
//! trusted wrapper around the corresponding `bv` call.

use vstd::prelude::*;
use bv::BitsExt;
use bv::Bits;
use bv::BitVec;

verus! {

/// One row of the index: a `bv::BitVec` with one bit per accession, or no
/// bits at all for a row that no accession has touched.
#[verifier::external_body]
pub struct Row {
    pub bits: BitVec,
}

/// The bits held by a row, position 0 first.
pub uninterp spec fn bits_of(r: Row) -> Seq<bool>;

impl Row {
    /// The number of bits in the row.
    pub fn len(&self) -> (r: u64)
        ensures
            r == bits_of(*self).len(),
    {
        width(self)
    }

    /// The bit at `position`.
    pub fn get(&self, position: u64) -> (r: bool)
        requires
            position < bits_of(*self).len(),
        ensures
            r == bits_of(*self)[position as int],
    {
        bit(self, position)
    }
}

/// A sequence of `len` copies of `value`.
pub open spec fn fill(value: bool, len: nat) -> Seq<bool> {
    Seq::new(len, |_i: int| value)
}

/// Relies on `BitVec::new_fill`: a vector of `len` bits, each equal to `value`.
#[verifier::external_body]
pub(crate) fn filled(value: bool, len: u64) -> (r: Row)
    ensures
        bits_of(r) == fill(value, len as nat),
{
    Row { bits: BitVec::new_fill(value, len) }
}

/// Relies on `BitVec::new`: a vector of no bits.
#[verifier::external_body]
pub(crate) fn no_bits() -> (r: Row)
    ensures
        bits_of(r) == Seq::<bool>::empty(),
{
    Row { bits: BitVec::new() }
}

/// Relies on `BitVec::len`: the number of bits held.
#[verifier::external_body]
pub(crate) fn width(b: &Row) -> (r: u64)
    ensures
        r as nat == bits_of(*b).len(),
{
    b.bits.len()
}

/// Relies on `BitVec::get`: the bit at `position`, which must be in bounds.
#[verifier::external_body]
pub(crate) fn bit(b: &Row, position: u64) -> (r: bool)
    requires
        position < bits_of(*b).len(),
    ensures
        r == bits_of(*b)[position as int],
{
    b.bits.get(position)
}

/// Relies on `BitVec::set`: writes `value` at `position`, which must be in bounds.
#[verifier::external_body]
pub(crate) fn set_bit(b: &mut Row, position: u64, value: bool)
    requires
        position < bits_of(*old(b)).len(),
    ensures
        bits_of(*final(b)) == bits_of(*old(b)).update(position as int, value),
{
    b.bits.set(position, value)
}

/// Relies on `BitsExt::bit_and` and `Bits::to_bit_vec`: the bitwise
/// conjunction of two vectors of one length.
#[verifier::external_body]
pub(crate) fn and_bits(a: &Row, b: &Row) -> (r: Row)
    requires
        bits_of(*a).len() == bits_of(*b).len(),
    ensures
        bits_of(r) == Seq::new(bits_of(*a).len(), |i: int| bits_of(*a)[i] && bits_of(*b)[i]),
{
    Row { bits: a.bits.bit_and(&b.bits).to_bit_vec() }
}

/// Relies on `BitsExt::bit_concat` and `Bits::to_bit_vec`: the bits of `a`
/// followed by the bits of `b`.
#[verifier::external_body]
pub(crate) fn concat_bits(a: &Row, b: &Row) -> (r: Row)
    requires
        bits_of(*a).len() + bits_of(*b).len() <= u64::MAX,
    ensures
        bits_of(r) == bits_of(*a) + bits_of(*b),
{
    Row { bits: a.bits.bit_concat(&b.bits).to_bit_vec() }
}

/// Relies on `PartialEq` for `BitVec`: equal lengths and equal bits.
#[verifier::external_body]
pub(crate) fn same_bits(a: &Row, b: &Row) -> (r: bool)
    ensures
        r == (bits_of(*a) == bits_of(*b)),
{
    a.bits == b.bits
}

/// Relies on `Clone` for `BitVec`: a copy with the same bits.
#[verifier::external_body]
pub(crate) fn copy_bits(b: &Row) -> (r: Row)
    ensures
        bits_of(r) == bits_of(*b),
{
    Row { bits: b.bits.clone() }
}

} // verus!
