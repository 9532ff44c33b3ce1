//! Native-endian byte representations of the integers stored in blocks.
//!
//! The byte order is the one of the machine, `vstd::endian::endianness()`: the
//! representation of `x` in `len` bytes is the base-256 digits of `x` in that
//! order, and reading bytes back gives the number those digits stand for.
use vstd::prelude::*;
use vstd::endian::{EndianNat, endianness};
use vstd::arithmetic::power::pow;

verus! {

broadcast use vstd::endian::group_endian_nat_axioms;

/// The `len` bytes that represent `x` in native byte order.
pub open spec fn ne_bytes_of(x: nat, len: nat) -> Seq<u8> {
    EndianNat::<u8>::from_nat(x, len).digits.map_values(|d: int| d as u8)
}

/// The number that the bytes `b` represent in native byte order.
pub open spec fn nat_of_ne_bytes(b: Seq<u8>) -> nat {
    EndianNat::<u8>::new(endianness(), b.map_values(|x: u8| x as int)).to_nat()
}

/// Writing a number that fits in `len` bytes and reading it back gives it.
pub proof fn lemma_ne_bytes_of(x: nat, len: nat)
    requires
        x < pow(256, len),
    ensures
        ne_bytes_of(x, len).len() == len,
        nat_of_ne_bytes(ne_bytes_of(x, len)) == x,
{
    let e = EndianNat::<u8>::from_nat(x, len);
    assert(e.wf());
    let b = ne_bytes_of(x, len);
    let back = EndianNat::<u8>::new(endianness(), b.map_values(|v: u8| v as int));
    assert(back.digits =~= e.digits);
    assert(back == e);
}

/// Reading bytes and writing the number back gives the same bytes.
pub proof fn lemma_nat_of_ne_bytes(b: Seq<u8>)
    ensures
        nat_of_ne_bytes(b) < pow(256, b.len()),
        ne_bytes_of(nat_of_ne_bytes(b), b.len()) == b,
{
    let e = EndianNat::<u8>::new(endianness(), b.map_values(|v: u8| v as int));
    assert(e.wf());
    assert(e.len() == b.len());
    assert(EndianNat::<u8>::from_nat(e.to_nat(), e.len()) == e);
    assert(ne_bytes_of(nat_of_ne_bytes(b), b.len()) =~= b);
}

/// The number of values that 2, 4 and 8 bytes can represent.
proof fn lemma_pow_256()
    ensures
        pow(256, 2) == 0x1_0000,
        pow(256, 4) == 0x1_0000_0000,
        pow(256, 8) == 0x1_0000_0000_0000_0000,
{
    reveal_with_fuel(pow, 9);
}

/// The memory representation of a `u16` in native byte order.
pub open spec fn u16_ne_bytes(x: u16) -> Seq<u8> {
    ne_bytes_of(x as nat, 2)
}

/// The memory representation of a `u32` in native byte order.
pub open spec fn u32_ne_bytes(x: u32) -> Seq<u8> {
    ne_bytes_of(x as nat, 4)
}

/// The memory representation of a `u64` in native byte order.
pub open spec fn u64_ne_bytes(x: u64) -> Seq<u8> {
    ne_bytes_of(x as nat, 8)
}

/// The `u16` that two bytes represent in native byte order.
pub open spec fn u16_of_ne(b: Seq<u8>) -> u16 {
    nat_of_ne_bytes(b) as u16
}

/// The `u32` that four bytes represent in native byte order.
pub open spec fn u32_of_ne(b: Seq<u8>) -> u32 {
    nat_of_ne_bytes(b) as u32
}

/// The `u64` that eight bytes represent in native byte order.
pub open spec fn u64_of_ne(b: Seq<u8>) -> u64 {
    nat_of_ne_bytes(b) as u64
}

/// A `u16` is two bytes long and reads back as itself.
pub broadcast proof fn lemma_u16_ne(x: u16)
    ensures
        #[trigger] u16_ne_bytes(x).len() == 2,
        u16_of_ne(u16_ne_bytes(x)) == x,
{
    lemma_pow_256();
    lemma_ne_bytes_of(x as nat, 2);
}

/// A `u32` is four bytes long and reads back as itself.
pub broadcast proof fn lemma_u32_ne(x: u32)
    ensures
        #[trigger] u32_ne_bytes(x).len() == 4,
        u32_of_ne(u32_ne_bytes(x)) == x,
{
    lemma_pow_256();
    lemma_ne_bytes_of(x as nat, 4);
}

/// A `u64` is eight bytes long and reads back as itself.
pub broadcast proof fn lemma_u64_ne(x: u64)
    ensures
        #[trigger] u64_ne_bytes(x).len() == 8,
        u64_of_ne(u64_ne_bytes(x)) == x,
{
    lemma_pow_256();
    lemma_ne_bytes_of(x as nat, 8);
}

/// Two bytes read as a `u16` write back as the same bytes.
pub broadcast proof fn lemma_u16_of_ne(b: Seq<u8>)
    requires
        b.len() == 2,
    ensures
        u16_ne_bytes(#[trigger] u16_of_ne(b)) == b,
{
    lemma_pow_256();
    lemma_nat_of_ne_bytes(b);
}

/// Four bytes read as a `u32` write back as the same bytes.
pub broadcast proof fn lemma_u32_of_ne(b: Seq<u8>)
    requires
        b.len() == 4,
    ensures
        u32_ne_bytes(#[trigger] u32_of_ne(b)) == b,
{
    lemma_pow_256();
    lemma_nat_of_ne_bytes(b);
}

/// Eight bytes read as a `u64` write back as the same bytes.
pub broadcast proof fn lemma_u64_of_ne(b: Seq<u8>)
    requires
        b.len() == 8,
    ensures
        u64_ne_bytes(#[trigger] u64_of_ne(b)) == b,
{
    lemma_pow_256();
    lemma_nat_of_ne_bytes(b);
}

/// Digits that are all 255 stand for the largest number of their length.
proof fn lemma_all_max_digits(e: EndianNat<u8>)
    requires
        forall|i: int| 0 <= i < e.digits.len() ==> e.digits[i] == 255,
    ensures
        e.to_nat() == pow(256, e.len()) - 1,
    decreases e.len(),
{
    reveal(EndianNat::to_nat);
    reveal(pow);
    if e.len() > 0 {
        let r = e.drop_least();
        assert forall|i: int| 0 <= i < r.digits.len() implies r.digits[i] == 255 by {
            match e.endian {
                vstd::endian::Endian::Little => assert(r.digits[i] == e.digits[i + 1]),
                vstd::endian::Endian::Big => assert(r.digits[i] == e.digits[i]),
            }
        }
        lemma_all_max_digits(r);
        assert(e.least() == 255) by {
            match e.endian {
                vstd::endian::Endian::Little => assert(e.least() == e.digits[0]),
                vstd::endian::Endian::Big => assert(e.least() == e.digits[e.digits.len() - 1]),
            }
        }
        assert(pow(256, e.len()) == 256 * pow(256, r.len()));
        assert(e.to_nat() == r.to_nat() * 256 + 255);
        assert(e.to_nat() == pow(256, e.len()) - 1) by (nonlinear_arith)
            requires
                e.to_nat() == r.to_nat() * 256 + 255,
                r.to_nat() == pow(256, r.len()) - 1,
                pow(256, e.len()) == 256 * pow(256, r.len()),
        ;
    }
}

/// Four bytes of 255 read as the largest `u32`, in either byte order.
pub proof fn lemma_u32_all_ones()
    ensures
        u32_of_ne(seq![255u8, 255u8, 255u8, 255u8]) == u32::MAX,
{
    let b = seq![255u8, 255u8, 255u8, 255u8];
    let e = EndianNat::<u8>::new(endianness(), b.map_values(|x: u8| x as int));
    lemma_all_max_digits(e);
    lemma_pow_256();
    assert(e.len() == 4);
}

pub broadcast group group_ne_bytes {
    lemma_u16_ne,
    lemma_u32_ne,
    lemma_u64_ne,
    lemma_u16_of_ne,
    lemma_u32_of_ne,
    lemma_u64_of_ne,
}

/// Calls `u16::to_ne_bytes`: the memory representation of `x` in native byte
/// order.
#[verifier::external_body]
pub(crate) fn u16_to_ne(x: u16) -> (r: [u8; 2])
    ensures
        r@ == u16_ne_bytes(x),
{
    x.to_ne_bytes()
}

/// Calls `u32::to_ne_bytes`: the memory representation of `x` in native byte
/// order.
#[verifier::external_body]
pub(crate) fn u32_to_ne(x: u32) -> (r: [u8; 4])
    ensures
        r@ == u32_ne_bytes(x),
{
    x.to_ne_bytes()
}

/// Calls `u64::to_ne_bytes`: the memory representation of `x` in native byte
/// order.
#[verifier::external_body]
pub(crate) fn u64_to_ne(x: u64) -> (r: [u8; 8])
    ensures
        r@ == u64_ne_bytes(x),
{
    x.to_ne_bytes()
}

/// Calls `u16::from_ne_bytes`: the integer that the bytes represent in native
/// byte order.
#[verifier::external_body]
pub(crate) fn u16_from_ne(b: [u8; 2]) -> (r: u16)
    ensures
        r == u16_of_ne(b@),
{
    u16::from_ne_bytes(b)
}

/// Calls `u32::from_ne_bytes`: the integer that the bytes represent in native
/// byte order.
#[verifier::external_body]
pub(crate) fn u32_from_ne(b: [u8; 4]) -> (r: u32)
    ensures
        r == u32_of_ne(b@),
{
    u32::from_ne_bytes(b)
}

/// Calls `u64::from_ne_bytes`: the integer that the bytes represent in native
/// byte order.
#[verifier::external_body]
pub(crate) fn u64_from_ne(b: [u8; 8]) -> (r: u64)
    ensures
        r == u64_of_ne(b@),
{
    u64::from_ne_bytes(b)
}

} // verus!
