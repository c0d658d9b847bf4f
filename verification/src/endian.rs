//! Big-endian numbers in byte strings.

use crate::radix::{
    digits_in_base, lemma_radix_digits_of_value, lemma_radix_digits_shape, lemma_radix_order,
    lemma_radix_value_of_digits, lex_less, radix_digits, radix_value,
};
use byteorder::{BigEndian, ByteOrder};
use vstd::arithmetic::div_mod::*;
use vstd::arithmetic::power::*;
use vstd::prelude::*;

verus! {

/// The bytes as digits in base 256.
pub open spec fn byte_digits(bytes: Seq<u8>) -> Seq<int> {
    Seq::new(bytes.len(), |i: int| bytes[i] as int)
}

/// The unsigned number that the bytes hold, most significant byte first.
pub open spec fn be_value(bytes: Seq<u8>) -> int {
    radix_value(byte_digits(bytes), 256)
}

/// The number that four bytes hold, the first being the most significant.
pub open spec fn u32_from_be(b0: u8, b1: u8, b2: u8, b3: u8) -> int {
    b0 * 0x100_0000 + b1 * 0x1_0000 + b2 * 0x100 + b3
}

/// The `width` low bytes of `value`, most significant byte first.
pub open spec fn be_bytes(value: int, width: nat) -> Seq<u8> {
    Seq::new(width, |i: int| radix_digits(value, 256, width)[i] as u8)
}

/// The byte string of `n` times the byte `b`.
pub open spec fn repeated(b: u8, n: nat) -> Seq<u8> {
    Seq::new(n, |i: int| b)
}

/// The value of the first `k + 1` bytes as digits in `base`, from the value of
/// the first `k`.
pub proof fn lemma_byte_digits_step(bytes: Seq<u8>, k: int, base: int)
    requires
        0 <= k < bytes.len(),
    ensures
        radix_value(byte_digits(bytes.take(k + 1)), base) == radix_value(
            byte_digits(bytes.take(k)),
            base,
        ) * base + bytes[k],
{
    assert(byte_digits(bytes.take(k + 1)).drop_last() =~= byte_digits(bytes.take(k)));
}

/// The bytes of the number that a byte string holds are that byte string.
pub proof fn lemma_be_bytes_of_value(bytes: Seq<u8>)
    ensures
        be_bytes(be_value(bytes), bytes.len()) == bytes,
{
    assert(digits_in_base(byte_digits(bytes), 256));
    lemma_radix_digits_of_value(byte_digits(bytes), 256);
    assert(be_bytes(be_value(bytes), bytes.len()) =~= bytes);
}

/// The number that the `width` low bytes of `value` hold is `value`, where it
/// fits in them.
pub proof fn lemma_be_value_of_bytes(value: int, width: nat)
    requires
        0 <= value < pow(256, width),
    ensures
        be_bytes(value, width).len() == width,
        be_value(be_bytes(value, width)) == value,
{
    lemma_radix_digits_shape(value, 256, width);
    assert(byte_digits(be_bytes(value, width)) =~= radix_digits(value, 256, width));
    lemma_radix_value_of_digits(value, 256, width);
}

/// Zero bytes hold zero.
pub proof fn lemma_be_value_zero(n: nat)
    ensures
        be_value(repeated(0, n)) == 0,
    decreases n,
{
    if n > 0 {
        lemma_be_value_zero((n - 1) as nat);
        assert(byte_digits(repeated(0, n)).drop_last() =~= byte_digits(
            repeated(0, (n - 1) as nat),
        ));
    }
}

/// Bytes of all ones hold the largest number of their width.
pub proof fn lemma_be_value_max(n: nat)
    ensures
        be_value(repeated(0xff, n)) == pow(256, n) - 1,
    decreases n,
{
    reveal(pow);
    if n > 0 {
        lemma_be_value_max((n - 1) as nat);
        assert(byte_digits(repeated(0xff, n)).drop_last() =~= byte_digits(
            repeated(0xff, (n - 1) as nat),
        ));
        let p = pow(256, (n - 1) as nat);
        assert((p - 1) * 256 + 255 == 256 * p - 1) by (nonlinear_arith);
    }
}

/// Among byte strings of one length, the order of the numbers is the
/// lexicographic order of the bytes.
pub proof fn lemma_be_value_order(a: Seq<u8>, b: Seq<u8>)
    requires
        a.len() == b.len(),
    ensures
        be_value(a) < be_value(b) <==> lex_less(byte_digits(a), byte_digits(b)),
{
    assert(digits_in_base(byte_digits(a), 256));
    assert(digits_in_base(byte_digits(b), 256));
    lemma_radix_order(byte_digits(a), byte_digits(b), 256);
}

/// Four more bytes shift the number by 32 bits and add the number that the
/// four hold.
pub proof fn lemma_be_value_word(bytes: Seq<u8>, k: int)
    requires
        0 <= k,
        k + 4 <= bytes.len(),
    ensures
        be_value(bytes.take(k + 4)) == be_value(bytes.take(k)) * 0x1_0000_0000 + u32_from_be(
            bytes[k],
            bytes[k + 1],
            bytes[k + 2],
            bytes[k + 3],
        ),
{
    lemma_byte_digits_step(bytes, k, 256);
    lemma_byte_digits_step(bytes, k + 1, 256);
    lemma_byte_digits_step(bytes, k + 2, 256);
    lemma_byte_digits_step(bytes, k + 3, 256);
}

/// The number that the first four bytes hold.
pub proof fn lemma_be_value_of_four(bytes: Seq<u8>)
    requires
        bytes.len() >= 4,
    ensures
        be_value(bytes.take(4)) == u32_from_be(bytes[0], bytes[1], bytes[2], bytes[3]),
        0 <= be_value(bytes.take(4)) < 0x1_0000_0000,
{
    lemma_be_value_word(bytes, 0);
    assert(byte_digits(bytes.take(0)) =~= Seq::<int>::empty());
}

/// Four bytes that hold `value` are the four low bytes of `value`.
pub proof fn lemma_be_bytes_of_four(bytes: Seq<u8>, value: int)
    requires
        bytes.len() >= 4,
        u32_from_be(bytes[0], bytes[1], bytes[2], bytes[3]) == value,
    ensures
        bytes.take(4) == be_bytes(value, 4),
{
    lemma_be_value_of_four(bytes);
    lemma_be_bytes_of_value(bytes.take(4));
}

/// Dividing a number by 256 four times peels off the four bytes of its low
/// 32-bit word, and leaves the number divided by 2^32.
proof fn lemma_word_bytes(value: int)
    ensures
        ({
            let word = value % 0x1_0000_0000;
            &&& value / 256 / 256 / 256 / 256 == value / 0x1_0000_0000
            &&& (value / 256 / 256 / 256) % 256 == word / 0x100_0000
            &&& (value / 256 / 256) % 256 == (word / 0x1_0000) % 256
            &&& (value / 256) % 256 == (word / 0x100) % 256
            &&& value % 256 == word % 256
        }),
{
    let high = value / 0x1_0000_0000;
    let word = value % 0x1_0000_0000;
    let b3 = word / 0x100_0000;
    let low3 = word % 0x100_0000;
    let b2 = low3 / 0x1_0000;
    let low2 = low3 % 0x1_0000;
    let b1 = low2 / 0x100;
    let b0 = low2 % 0x100;
    let v1 = high * 0x100_0000 + b3 * 0x1_0000 + b2 * 0x100 + b1;
    let v2 = high * 0x1_0000 + b3 * 0x100 + b2;
    let v3 = high * 0x100 + b3;
    lemma_fundamental_div_mod_converse(value, 256, v1, b0);
    lemma_fundamental_div_mod_converse(v1, 256, v2, b1);
    lemma_fundamental_div_mod_converse(v2, 256, v3, b2);
    lemma_fundamental_div_mod_converse(v3, 256, high, b3);
    lemma_fundamental_div_mod_converse(word, 256, b3 * 0x1_0000 + b2 * 0x100 + b1, b0);
    lemma_fundamental_div_mod_converse(word / 0x100, 256, b3 * 0x100 + b2, b1);
    lemma_fundamental_div_mod_converse(word, 0x1_0000, b3 * 0x100 + b2, b1 * 0x100 + b0);
    lemma_fundamental_div_mod_converse(word / 0x1_0000, 256, b3, b2);
}

/// The last four of the low `width` bytes of `value` are the bytes of its low
/// 32-bit word, and the bytes before them are those of the words above it.
pub proof fn lemma_radix_digits_word(value: int, width: nat)
    requires
        width >= 4,
    ensures
        ({
            let digits = radix_digits(value, 256, width);
            let word = value % 0x1_0000_0000;
            &&& digits.len() == width
            &&& digits.take(width - 4) == radix_digits(
                value / 0x1_0000_0000,
                256,
                (width - 4) as nat,
            )
            &&& digits[width - 4] == word / 0x100_0000
            &&& digits[width - 3] == (word / 0x1_0000) % 256
            &&& digits[width - 2] == (word / 0x100) % 256
            &&& digits[width - 1] == word % 256
        }),
{
    let v1 = value / 256;
    let v2 = v1 / 256;
    let v3 = v2 / 256;
    let v4 = v3 / 256;
    let d4 = radix_digits(v4, 256, (width - 4) as nat);
    let d3 = radix_digits(v3, 256, (width - 3) as nat);
    let d2 = radix_digits(v2, 256, (width - 2) as nat);
    let d1 = radix_digits(v1, 256, (width - 1) as nat);
    let d0 = radix_digits(value, 256, width);
    lemma_radix_digits_shape(v4, 256, (width - 4) as nat);
    lemma_word_bytes(value);
    assert(d3 == d4.push(v3 % 256));
    assert(d2 == d3.push(v2 % 256));
    assert(d1 == d2.push(v1 % 256));
    assert(d0 == d1.push(value % 256));
    assert(d0.take(width - 4) =~= d4);
}

/// `byteorder::BigEndian::read_u32`: the number that the first four bytes of
/// `buf` hold, the first byte being the most significant. The call panics on a
/// shorter buffer, which `requires` leaves out.
#[verifier::external_body]
pub(crate) fn read_u32(buf: &[u8]) -> (value: u32)
    requires
        buf@.len() >= 4,
    ensures
        value == u32_from_be(buf@[0], buf@[1], buf@[2], buf@[3]),
{
    BigEndian::read_u32(buf)
}

/// `byteorder::BigEndian::write_u32`: makes the first four bytes of `buf` hold
/// `value`, the first byte being the most significant, and leaves the others
/// as they are. The call panics on a shorter buffer, which `requires` leaves
/// out.
#[verifier::external_body]
pub(crate) fn write_u32(buf: &mut [u8], value: u32)
    requires
        old(buf)@.len() >= 4,
    ensures
        final(buf)@.len() == old(buf)@.len(),
        u32_from_be(final(buf)@[0], final(buf)@[1], final(buf)@[2], final(buf)@[3]) == value,
        forall|i: int| 4 <= i < old(buf)@.len() ==> final(buf)@[i] == old(buf)@[i],
{
    BigEndian::write_u32(buf, value)
}

} // verus!
