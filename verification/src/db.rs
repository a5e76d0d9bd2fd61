//! The rows of the index and how they are written.

pub mod cashaccounts;
pub mod encoding;
pub mod inputs;
pub mod outputs;

use vstd::prelude::*;

verus! {

/// The unsigned varint of `value`: seven bits in each byte, the lowest first, with the high
/// bit set on every byte but the last.
pub open spec fn varint(value: nat) -> Seq<u8>
    decreases value,
{
    if value < 128 {
        seq![value as u8]
    } else {
        seq![(value % 128 + 128) as u8] + varint(value / 128)
    }
}

/// How many bytes the varint at the front of `bytes` takes: none if no byte ends it.
pub open spec fn varint_len(bytes: Seq<u8>) -> Option<nat>
    decreases bytes.len(),
{
    if bytes.len() == 0 {
        None
    } else if bytes[0] < 128 {
        Some(1)
    } else {
        match varint_len(bytes.drop_first()) {
            Some(len) => Some(len + 1),
            None => None,
        }
    }
}

/// The number that the varint at the front of `bytes` stands for.
pub open spec fn varint_value(bytes: Seq<u8>) -> nat
    decreases bytes.len(),
{
    if bytes.len() == 0 {
        0
    } else if bytes[0] < 128 {
        bytes[0] as nat
    } else {
        (bytes[0] - 128) as nat + 128 * varint_value(bytes.drop_first())
    }
}

/// Whether a varint of at most five bytes stands at the front of `bytes`.
pub open spec fn holds_u32(bytes: Seq<u8>) -> bool {
    varint_len(bytes) is Some && varint_len(bytes).unwrap() <= 5
}

/// Whether a varint of at most ten bytes stands at the front of `bytes`.
pub open spec fn holds_u64(bytes: Seq<u8>) -> bool {
    varint_len(bytes) is Some && varint_len(bytes).unwrap() <= 10
}

/// The 32-bit number at the front of `bytes`; bits beyond the 32nd are dropped.
pub open spec fn u32_of(bytes: Seq<u8>) -> u32 {
    (varint_value(bytes) % 0x1_0000_0000) as u32
}

/// The 64-bit number at the front of `bytes`; bits beyond the 64th are dropped.
pub open spec fn u64_of(bytes: Seq<u8>) -> u64 {
    (varint_value(bytes) % 0x1_0000_0000_0000_0000) as u64
}

/// Reading a varint gives back the number that was written, whatever follows it, and finds
/// where it ends.
pub proof fn law_varint_read_back(value: nat, rest: Seq<u8>)
    ensures
        varint_len(varint(value) + rest) == Some(varint(value).len()),
        varint_value(varint(value) + rest) == value,
        varint(value).len() > 0,
    decreases value,
{
    if value >= 128 {
        law_varint_read_back(value / 128, rest);
        assert((varint(value) + rest).drop_first() =~= varint(value / 128) + rest);
    }
}

/// A number of seven bits more takes one byte more.
proof fn lemma_varint_len(value: nat, len: nat)
    requires
        len > 0,
        value < vstd::arithmetic::power::pow(128, len),
    ensures
        varint(value).len() <= len,
    decreases len,
{
    reveal(vstd::arithmetic::power::pow);
    if value >= 128 {
        assert(len > 1) by {
            assert(vstd::arithmetic::power::pow(128, 0) == 1);
            assert(len == 1 ==> vstd::arithmetic::power::pow(128, len) == 128 * vstd::arithmetic::power::pow(128, 0));
        }
        assert(vstd::arithmetic::power::pow(128, len) == 128 * vstd::arithmetic::power::pow(128, (len - 1) as nat));
        lemma_varint_len(value / 128, (len - 1) as nat);
    }
}

/// Reading a 32-bit number gives back what was written.
pub proof fn law_u32_read_back(value: u32)
    ensures
        holds_u32(varint(value as nat)),
        u32_of(varint(value as nat)) == value,
{
    law_varint_read_back(value as nat, Seq::empty());
    assert(varint(value as nat) + Seq::<u8>::empty() =~= varint(value as nat));
    reveal_with_fuel(vstd::arithmetic::power::pow, 6);
    lemma_varint_len(value as nat, 5);
}

/// Reading a 64-bit number gives back what was written.
pub proof fn law_u64_read_back(value: u64)
    ensures
        holds_u64(varint(value as nat)),
        u64_of(varint(value as nat)) == value,
{
    law_varint_read_back(value as nat, Seq::empty());
    assert(varint(value as nat) + Seq::<u8>::empty() =~= varint(value as nat));
    reveal_with_fuel(vstd::arithmetic::power::pow, 11);
    lemma_varint_len(value as nat, 10);
}

/// Varints of 32-bit and 64-bit numbers are short.
pub(crate) proof fn lemma_varint_lens(a: u32, b: u32, c: u64)
    ensures
        varint(a as nat).len() <= 5,
        varint(b as nat).len() <= 5,
        varint(c as nat).len() <= 10,
{
    reveal_with_fuel(vstd::arithmetic::power::pow, 11);
    lemma_varint_len(a as nat, 5);
    lemma_varint_len(b as nat, 5);
    lemma_varint_len(c as nat, 10);
}

/// `unsigned_varint::encode::u32`, which writes the varint of the number.
#[verifier::external_body]
fn unsigned_varint_encode_u32(value: u32) -> (bytes: Vec<u8>)
    ensures
        bytes@ == varint(value as nat),
{
    let mut buff = unsigned_varint::encode::u32_buffer();
    unsigned_varint::encode::u32(value, &mut buff).to_vec()
}

/// `unsigned_varint::encode::u64`, which writes the varint of the number.
#[verifier::external_body]
fn unsigned_varint_encode_u64(value: u64) -> (bytes: Vec<u8>)
    ensures
        bytes@ == varint(value as nat),
{
    let mut buff = unsigned_varint::encode::u64_buffer();
    unsigned_varint::encode::u64(value, &mut buff).to_vec()
}

/// `unsigned_varint::decode::u32`: it reads the varint at the front if that ends within five
/// bytes, and drops the bits that do not fit in the number.
#[verifier::external_body]
fn unsigned_varint_decode_u32(bytes: &[u8]) -> (value: Option<u32>)
    ensures
        value is Some <==> holds_u32(bytes@),
        value is Some ==> value.unwrap() == u32_of(bytes@),
{
    unsigned_varint::decode::u32(bytes).ok().map(|read| read.0)
}

/// `unsigned_varint::decode::u64`: it reads the varint at the front if that ends within ten
/// bytes, and drops the bits that do not fit in the number.
#[verifier::external_body]
fn unsigned_varint_decode_u64(bytes: &[u8]) -> (value: Option<u64>)
    ensures
        value is Some <==> holds_u64(bytes@),
        value is Some ==> value.unwrap() == u64_of(bytes@),
{
    unsigned_varint::decode::u64(bytes).ok().map(|read| read.0)
}

/// The varint of a 32-bit number.
pub fn encode_varint_u32(value: u32) -> (bytes: Vec<u8>)
    ensures
        bytes@ == varint(value as nat),
{
    unsigned_varint_encode_u32(value)
}

/// The varint of a 64-bit number.
pub fn encode_varint_u64(value: u64) -> (bytes: Vec<u8>)
    ensures
        bytes@ == varint(value as nat),
{
    unsigned_varint_encode_u64(value)
}

/// The 64-bit number whose varint stands at the front of `index`.
pub fn decode_varint_u64(index: &[u8]) -> (value: u64)
    requires
        holds_u64(index@),
    ensures
        value == u64_of(index@),
{
    unsigned_varint_decode_u64(index).unwrap()
}

/// The 32-bit number whose varint stands at the front of `index`.
pub fn decode_varint_u32(index: &[u8]) -> (value: u32)
    requires
        holds_u32(index@),
    ensures
        value == u32_of(index@),
{
    unsigned_varint_decode_u32(index).unwrap()
}

/// Whether a varint of at most five bytes stands at the front of `bytes`.
pub(crate) fn is_u32(bytes: &[u8]) -> (holds: bool)
    ensures
        holds == holds_u32(bytes@),
{
    unsigned_varint_decode_u32(bytes).is_some()
}

/// Whether a varint of at most ten bytes stands at the front of `bytes`.
pub(crate) fn is_u64(bytes: &[u8]) -> (holds: bool)
    ensures
        holds == holds_u64(bytes@),
{
    unsigned_varint_decode_u64(bytes).is_some()
}

} // verus!
