//! The base-62 codec: 20 bytes, read as one unsigned big-endian number, to 27
//! characters of the alphabet `0-9A-Za-z` and back.
//!
//! The alphabet is in ASCII order, so the order of the texts is the order of
//! the numbers.

use crate::ascii::{
    ascii_chars, code_points, is_ascii_bytes, lemma_ascii_utf8, string_from_utf8,
};
use crate::endian::{
    be_bytes, be_value, byte_digits, lemma_be_bytes_of_value, lemma_be_value_max,
    lemma_be_value_word, lemma_be_value_zero, lemma_byte_digits_step, lemma_radix_digits_word,
    read_u32, repeated,
};
use crate::errors::KSUIDError;
use crate::radix::{
    digits_in_base, lemma_lex_less_relabel, lemma_radix_digits_of_value,
    lemma_radix_digits_shape, lemma_radix_digits_zero, lemma_radix_order,
    lemma_radix_value_bounds, lemma_radix_value_of_digits, lemma_radix_value_positive, lex_less,
    radix_digits, radix_value,
};
use vstd::arithmetic::div_mod::*;
use vstd::arithmetic::power::*;
use vstd::prelude::*;
use vstd::string::*;
use vstd::utf8::*;

verus! {

/// The base of the text.
pub const BASE: u64 = 62;

/// The base of the 32-bit words that the conversion works on.
pub const WORD_BASE: u64 = 4294967296;

/// The number of characters of an encoded value.
pub const ENCODED_LENGTH: usize = 27;

/// The number of bytes of a decoded value.
pub const DECODED_LENGTH: usize = 20;

/// The text of the largest value, 20 bytes of all ones.
pub const MAX_STRING_ENCODED: &'static str = "aWgEPTl1tmebfsQzFP4bxwgy80V";

/// The digit value of `A`.
pub const UPPERCASE_OFFSET: u8 = 10;

/// The digit value of `a`.
pub const LOWERCASE_OFFSET: u8 = 36;

/// ASCII `0`.
pub const DIGIT_0: u8 = 0x30;

/// ASCII `9`.
pub const DIGIT_9: u8 = 0x39;

/// ASCII `A`.
pub const UPPER_A: u8 = 0x41;

/// ASCII `Z`.
pub const UPPER_Z: u8 = 0x5a;

/// ASCII `a`.
pub const LOWER_A: u8 = 0x61;

/// ASCII `z`.
pub const LOWER_Z: u8 = 0x7a;

/// The alphabet, in the order of the digits.
pub const BASE62_CHARS: [u8; 62] = [
    0x30, 0x31, 0x32, 0x33, 0x34, 0x35, 0x36, 0x37, 0x38, 0x39,
    0x41, 0x42, 0x43, 0x44, 0x45, 0x46, 0x47, 0x48, 0x49, 0x4a, 0x4b, 0x4c, 0x4d,
    0x4e, 0x4f, 0x50, 0x51, 0x52, 0x53, 0x54, 0x55, 0x56, 0x57, 0x58, 0x59, 0x5a,
    0x61, 0x62, 0x63, 0x64, 0x65, 0x66, 0x67, 0x68, 0x69, 0x6a, 0x6b, 0x6c, 0x6d,
    0x6e, 0x6f, 0x70, 0x71, 0x72, 0x73, 0x74, 0x75, 0x76, 0x77, 0x78, 0x79, 0x7a,
];

/// `b` is one of `0-9`, `A-Z`, `a-z`.
pub open spec fn is_base62_byte(b: u8) -> bool {
    (DIGIT_0 <= b <= DIGIT_9) || (UPPER_A <= b <= UPPER_Z) || (LOWER_A <= b <= LOWER_Z)
}

/// The digit that the alphabet byte `b` stands for: `0-9` are 0 to 9, `A-Z`
/// are 10 to 35, `a-z` are 36 to 61.
pub open spec fn base62_digit(b: u8) -> int {
    if DIGIT_0 <= b <= DIGIT_9 {
        b - DIGIT_0
    } else if UPPER_A <= b <= UPPER_Z {
        UPPERCASE_OFFSET + (b - UPPER_A)
    } else {
        LOWERCASE_OFFSET + (b - LOWER_A)
    }
}

/// The alphabet byte that stands for the digit `d`.
pub open spec fn base62_symbol(d: int) -> u8 {
    if d < UPPERCASE_OFFSET {
        (DIGIT_0 + d) as u8
    } else if d < LOWERCASE_OFFSET {
        (UPPER_A + (d - UPPERCASE_OFFSET)) as u8
    } else {
        (LOWER_A + (d - LOWERCASE_OFFSET)) as u8
    }
}

/// The 27 alphabet bytes of the number that `bytes` hold, most significant
/// byte first: its digits in base 62 at that width, zeros in front.
pub open spec fn spec_encode(bytes: Seq<u8>) -> Seq<u8> {
    Seq::new(27, |i: int| base62_symbol(radix_digits(be_value(bytes), 62, 27)[i]))
}

/// The digits that a text of alphabet bytes stands for.
pub open spec fn text_digits(text: Seq<u8>) -> Seq<int> {
    Seq::new(text.len(), |i: int| base62_digit(text[i]))
}

/// The first 27 bytes of `text` are there and belong to the alphabet.
pub open spec fn is_base62_text(text: Seq<u8>) -> bool {
    &&& text.len() >= 27
    &&& forall|i: int| 0 <= i < 27 ==> is_base62_byte(#[trigger] text[i])
}

/// The number that the first 27 bytes of `text` denote in base 62.
pub open spec fn text_value(text: Seq<u8>) -> int {
    radix_value(text_digits(text.take(27)), 62)
}

/// What `decode` makes of the bytes of a text: the 20 bytes of the number that
/// its first 27 bytes denote, where these belong to the alphabet and the number
/// is below 2^160.
pub open spec fn spec_decode(text: Seq<u8>) -> Option<Seq<u8>> {
    if is_base62_text(text) && text_value(text) < pow(256, 20) {
        Some(be_bytes(text_value(text), 20))
    } else {
        None
    }
}

/// The error that `decode` gives for a text that it rejects, `text` being the
/// bytes and `chars` the characters of that text: a length error where the
/// text has fewer than 27 bytes, a character error where one of its first 27
/// bytes is outside the alphabet, and a length error where the number that
/// they denote is 2^160 or more. The error holds the text.
pub open spec fn decode_rejects(text: Seq<u8>, chars: Seq<char>, error: KSUIDError) -> bool {
    match error {
        KSUIDError::InvalidBase62Length { value } => {
            &&& value@ == chars
            &&& (text.len() < 27 || (is_base62_text(text) && text_value(text) >= pow(256, 20)))
        },
        KSUIDError::InvalidBase62Character { value } => {
            &&& value@ == chars
            &&& text.len() >= 27
            &&& !is_base62_text(text)
        },
        KSUIDError::SliceTooSmall { .. } => false,
    }
}

/// Tells whether `b` belongs to the alphabet.
pub fn is_base62(b: u8) -> (yes: bool)
    ensures
        yes == is_base62_byte(b),
{
    (b >= DIGIT_0 && b <= DIGIT_9) || (b >= UPPER_A && b <= UPPER_Z) || (b >= LOWER_A && b <= LOWER_Z)
}

/// Calculate the actual numerical value of a base62 character.
pub fn base62_value(digit: &u8) -> (value: u8)
    requires
        is_base62_byte(*digit),
    ensures
        value == base62_digit(*digit),
        value < 62,
{
    if *digit >= DIGIT_0 && *digit <= DIGIT_9 {
        *digit - DIGIT_0
    } else if *digit >= UPPER_A && *digit <= UPPER_Z {
        UPPERCASE_OFFSET + (*digit - UPPER_A)
    } else {
        LOWERCASE_OFFSET + (*digit - LOWER_A)
    }
}

/// The number that the first `len` of `digits` denote in base 62.
spec fn digits_value(digits: Seq<u8>, len: int) -> int {
    radix_value(byte_digits(digits.take(len)), 62)
}

/// One pass of long division by 2^32 over the first `len` base-62 digits: the
/// quotient replaces them, without leading zeros, and its length comes back
/// with the remainder.
fn divide_digits(digits: &mut [u8; 27], len: usize) -> (out: (usize, u32))
    requires
        len <= 27,
        forall|i: int| 0 <= i < len ==> old(digits)[i] < 62,
    ensures
        out.0 <= len,
        forall|i: int| 0 <= i < out.0 ==> final(digits)[i] < 62,
        out.0 > 0 ==> final(digits)[0] > 0,
        digits_value(final(digits)@, out.0 as int) == digits_value(old(digits)@, len as int)
            / 0x1_0000_0000,
        out.1 == digits_value(old(digits)@, len as int) % 0x1_0000_0000,
{
    let ghost orig = digits@;
    let mut quot_len: usize = 0;
    let mut remainder: u64 = 0;
    let mut p: usize = 0;
    while p < len
        invariant
            quot_len <= p <= len <= 27,
            orig.len() == 27,
            remainder < 0x1_0000_0000,
            forall|i: int| p <= i < len ==> digits[i] == orig[i],
            forall|i: int| 0 <= i < len ==> orig[i] < 62,
            forall|i: int| 0 <= i < quot_len ==> digits[i] < 62,
            quot_len > 0 ==> digits[0] > 0,
            digits_value(orig, p as int) == digits_value(digits@, quot_len as int)
                * 0x1_0000_0000 + remainder,
        decreases len - p,
    {
        let value: u64 = digits[p] as u64 + remainder * BASE;
        let digit: u64 = value / WORD_BASE;
        proof {
            lemma_byte_digits_step(orig, p as int, 62);
        }
        remainder = value % WORD_BASE;
        if quot_len > 0 || digit != 0 {
            let ghost before = digits@;
            digits[quot_len] = digit as u8;
            proof {
                assert(digits@.take(quot_len as int) =~= before.take(quot_len as int));
                lemma_byte_digits_step(digits@, quot_len as int, 62);
            }
            quot_len += 1;
        }
        p += 1;
    }
    proof {
        lemma_fundamental_div_mod_converse(
            digits_value(orig, len as int),
            0x1_0000_0000,
            digits_value(digits@, quot_len as int),
            remainder as int,
        );
    }
    (quot_len, remainder as u32)
}

/// The 32-bit words as digits in base 2^32.
spec fn word_digits(words: Seq<u32>) -> Seq<int> {
    Seq::new(words.len(), |i: int| words[i] as int)
}

/// The number that the first `len` of `words` denote in base 2^32.
spec fn words_value(words: Seq<u32>, len: int) -> int {
    radix_value(word_digits(words.take(len)), 0x1_0000_0000)
}

/// The value of the first `k + 1` words, from the value of the first `k`.
proof fn lemma_words_value_step(words: Seq<u32>, k: int)
    requires
        0 <= k < words.len(),
    ensures
        words_value(words, k + 1) == words_value(words, k) * 0x1_0000_0000 + words[k],
{
    assert(word_digits(words.take(k + 1)).drop_last() =~= word_digits(words.take(k)));
}

/// One pass of long division by 62 over the first `len` words: the quotient
/// replaces them, without leading zeros, and its length comes back with the
/// remainder.
fn divide_words(words: &mut [u32; 5], len: usize) -> (out: (usize, u8))
    requires
        len <= 5,
    ensures
        out.0 <= len,
        out.0 > 0 ==> final(words)[0] > 0,
        words_value(final(words)@, out.0 as int) == words_value(old(words)@, len as int) / 62,
        out.1 == words_value(old(words)@, len as int) % 62,
{
    let ghost orig = words@;
    let mut quot_len: usize = 0;
    let mut remainder: u64 = 0;
    let mut p: usize = 0;
    while p < len
        invariant
            quot_len <= p <= len <= 5,
            orig.len() == 5,
            remainder < 62,
            forall|i: int| p <= i < len ==> words[i] == orig[i],
            quot_len > 0 ==> words[0] > 0,
            words_value(orig, p as int) == words_value(words@, quot_len as int) * 62 + remainder,
        decreases len - p,
    {
        let value: u64 = words[p] as u64 + remainder * WORD_BASE;
        let digit: u64 = value / BASE;
        proof {
            lemma_words_value_step(orig, p as int);
        }
        remainder = value % BASE;
        if quot_len > 0 || digit != 0 {
            let ghost before = words@;
            words[quot_len] = digit as u32;
            proof {
                assert(words@.take(quot_len as int) =~= before.take(quot_len as int));
                lemma_words_value_step(words@, quot_len as int);
            }
            quot_len += 1;
        }
        p += 1;
    }
    proof {
        lemma_fundamental_div_mod_converse(
            words_value(orig, len as int),
            62,
            words_value(words@, quot_len as int),
            remainder as int,
        );
    }
    (quot_len, remainder as u8)
}

/// 256^4 is 2^32, and 256^20 is 2^160, which is below 62^27.
pub proof fn lemma_powers()
    ensures
        pow(256, 4) == 0x1_0000_0000,
        pow(256, 20) == 0x1_0000_0000_0000_0000_0000_0000_0000_0000_0000_0000,
        pow(256, 20) < pow(62, 27),
{
    reveal_with_fuel(pow, 28);
}

/// The table holds each digit's alphabet byte.
proof fn lemma_alphabet_table(d: int)
    requires
        0 <= d < 62,
    ensures
        BASE62_CHARS[d] == base62_symbol(d),
        is_base62_byte(base62_symbol(d)),
        base62_digit(base62_symbol(d)) == d,
{
}

/// Encode the given 20 byte array into a base62 string.
///
/// The bytes are read as one unsigned number, most significant byte first; the
/// text is its 27 digits in base 62, zeros in front, over `0-9A-Za-z`.
pub fn encode(src: &[u8; 20]) -> (text: String)
    ensures
        text@ == ascii_chars(spec_encode(src@)),
        text@.len() == 27,
{
    let mut dst: Vec<u8> = vec![DIGIT_0; 27];
    let mut parts: [u32; 5] = [
        read_u32(&src[0..4]),
        read_u32(&src[4..8]),
        read_u32(&src[8..12]),
        read_u32(&src[12..16]),
        read_u32(&src[16..20]),
    ];
    let ghost v = be_value(src@);
    let ghost digits = radix_digits(v, 62, 27);
    proof {
        lemma_be_value_word(src@, 0);
        lemma_be_value_word(src@, 4);
        lemma_be_value_word(src@, 8);
        lemma_be_value_word(src@, 12);
        lemma_be_value_word(src@, 16);
        assert(byte_digits(src@.take(0)) =~= Seq::<int>::empty());
        assert(src@.take(20) =~= src@);
        lemma_words_value_step(parts@, 0);
        lemma_words_value_step(parts@, 1);
        lemma_words_value_step(parts@, 2);
        lemma_words_value_step(parts@, 3);
        lemma_words_value_step(parts@, 4);
        assert(word_digits(parts@.take(0)) =~= Seq::<int>::empty());
        assert(words_value(parts@, 5) == v);
        lemma_radix_value_bounds(byte_digits(src@), 256);
        lemma_powers();
        lemma_radix_digits_shape(v, 62, 27);
        assert(digits.take(27) =~= digits);
    }
    let mut parts_len: usize = 5;
    let mut n: usize = ENCODED_LENGTH;
    while parts_len > 0
        invariant
            parts_len <= 5,
            n <= 27,
            dst@.len() == 27,
            (n < 27 && parts_len > 0) ==> parts[0] > 0,
            digits == radix_digits(be_value(src@), 62, 27),
            digits.len() == 27,
            0 <= words_value(parts@, parts_len as int) < pow(62, n as nat),
            digits.take(n as int) == radix_digits(
                words_value(parts@, parts_len as int),
                62,
                n as nat,
            ),
            forall|j: int| n <= j < 27 ==> dst@[j] == base62_symbol(#[trigger] digits[j]),
            forall|j: int| 0 <= j < n ==> dst@[j] == DIGIT_0,
        decreases n,
    {
        let ghost q = words_value(parts@, parts_len as int);
        proof {
            if n < 27 {
                assert(digits_in_base(word_digits(parts@.take(parts_len as int)), 0x1_0000_0000));
                lemma_radix_value_positive(
                    word_digits(parts@.take(parts_len as int)),
                    0x1_0000_0000,
                );
            }
            lemma_pow0(62);
            reveal(pow);
        }
        let (len, remainder) = divide_words(&mut parts, parts_len);
        n -= 1;
        dst[n] = BASE62_CHARS[remainder as usize];
        proof {
            let p = pow(62, n as nat);
            assert(q / 62 < p) by (nonlinear_arith)
                requires
                    0 <= q < 62 * p,
            ;
            assert(0 <= q / 62) by (nonlinear_arith)
                requires
                    0 <= q,
            ;
            lemma_radix_digits_shape(q / 62, 62, n as nat);
            assert(radix_digits(q, 62, (n + 1) as nat) == radix_digits(q / 62, 62, n as nat).push(
                q % 62,
            ));
            assert(digits.take(n as int) =~= digits.take(n + 1).take(n as int));
            assert(digits[n as int] == digits.take(n + 1)[n as int]);
            lemma_alphabet_table(remainder as int);
        }
        parts_len = len;
    }
    proof {
        assert(word_digits(parts@.take(0)) =~= Seq::<int>::empty());
        lemma_radix_digits_zero(62, n as nat);
        assert forall|j: int| 0 <= j < 27 implies dst@[j] == spec_encode(src@)[j] by {
            if j < n {
                assert(digits[j] == digits.take(n as int)[j]);
            }
        }
        assert(dst@ =~= spec_encode(src@));
        lemma_encoded_is_ascii(src@);
        lemma_ascii_utf8(dst@);
    }
    string_from_utf8(dst).unwrap()
}

/// An encoded text is 27 bytes of the alphabet, which are ASCII.
pub proof fn lemma_encoded_is_ascii(bytes: Seq<u8>)
    ensures
        spec_encode(bytes).len() == 27,
        is_base62_text(spec_encode(bytes)),
        is_ascii_bytes(spec_encode(bytes)),
{
    let digits = radix_digits(be_value(bytes), 62, 27);
    lemma_radix_digits_shape(be_value(bytes), 62, 27);
    assert forall|i: int| 0 <= i < 27 implies is_base62_byte(#[trigger] spec_encode(bytes)[i])
        && spec_encode(bytes)[i] < 128 by {
        lemma_alphabet_table(digits[i]);
    }
}

/// Decode a base62 encoded string into a vector of bytes.
///
/// The text is read as bytes, and only its first 27 bytes are read. It is
/// rejected with `InvalidBase62Length` where it has fewer, with
/// `InvalidBase62Character` where one of the 27 is outside `0-9A-Za-z`, and
/// with `InvalidBase62Length` again where the number is 2^160 or more.
pub fn decode(src: &str) -> (r: Result<Vec<u8>, KSUIDError>)
    ensures
        match r {
            Ok(bytes) => bytes@.len() == 20 && spec_decode(src.spec_bytes()) == Some(bytes@),
            Err(error) => decode_rejects(src.spec_bytes(), src@, error),
        },
        src.spec_bytes().len() < 27 ==> r matches Err(KSUIDError::InvalidBase62Length { .. }),
{
    let text = src.as_bytes();
    if text.len() < ENCODED_LENGTH {
        return Err(KSUIDError::InvalidBase62Length { value: src.to_owned() });
    }
    let mut parts: [u8; 27] = [0;27];
    let mut i: usize = 0;
    while i < ENCODED_LENGTH
        invariant
            i <= 27,
            text@.len() >= 27,
            text@ == src.spec_bytes(),
            forall|j: int| 0 <= j < i ==> is_base62_byte(#[trigger] text@[j]),
            forall|j: int|
                0 <= j < i ==> #[trigger] parts[j] == base62_digit(text@[j]) && parts[j] < 62,
        decreases 27 - i,
    {
        if !is_base62(text[i]) {
            return Err(KSUIDError::InvalidBase62Character { value: src.to_owned() });
        }
        parts[i] = base62_value(&text[i]);
        i += 1;
    }
    let ghost v = text_value(text@);
    let ghost bytes = radix_digits(v, 256, 20);
    proof {
        assert(byte_digits(parts@.take(27)) =~= text_digits(text@.take(27)));
        lemma_radix_value_bounds(text_digits(text@.take(27)), 62);
        lemma_radix_digits_shape(v, 256, 20);
        lemma_pow0(256);
        assert(bytes.take(20) =~= bytes);
    }
    let mut result: Vec<u8> = vec![0u8; 20];
    let mut parts_len: usize = 27;
    let mut n: usize = DECODED_LENGTH;
    while parts_len > 0
        invariant
            parts_len <= 27,
            n <= 20,
            n % 4 == 0,
            result@.len() == 20,
            forall|j: int| 0 <= j < parts_len ==> parts[j] < 62,
            (n < 20 && parts_len > 0) ==> parts[0] > 0,
            0 <= v,
            is_base62_text(src.spec_bytes()),
            v == text_value(src.spec_bytes()),
            bytes == radix_digits(v, 256, 20),
            bytes.len() == 20,
            digits_value(parts@, parts_len as int) == v / pow(256, (20 - n) as nat),
            bytes.take(n as int) == radix_digits(
                digits_value(parts@, parts_len as int),
                256,
                n as nat,
            ),
            forall|j: int| n <= j < 20 ==> result@[j] == #[trigger] bytes[j] as u8,
            forall|j: int| 0 <= j < n ==> result@[j] == 0,
        decreases n,
    {
        let ghost q = digits_value(parts@, parts_len as int);
        proof {
            assert(digits_in_base(byte_digits(parts@.take(parts_len as int)), 62));
            if n < 20 {
                lemma_radix_value_positive(byte_digits(parts@.take(parts_len as int)), 62);
            }
        }
        let (len, remainder) = divide_digits(&mut parts, parts_len);
        if n < 4 {
            proof {
                let p = pow(256, 20);
                lemma_pow_positive(256, 20);
                lemma_fundamental_div_mod(v, p);
                lemma_mod_bound(v, p);
                assert(p * q >= p) by (nonlinear_arith)
                    requires
                        q >= 1,
                        p > 0,
                ;
            }
            return Err(KSUIDError::InvalidBase62Length { value: src.to_owned() });
        }
        result[n - 4] = #[verifier::truncate] ((remainder >> 24) as u8);
        result[n - 3] = #[verifier::truncate] ((remainder >> 16) as u8);
        result[n - 2] = #[verifier::truncate] ((remainder >> 8) as u8);
        result[n - 1] = #[verifier::truncate] (remainder as u8);
        proof {
            let p = pow(256, (20 - n) as nat);
            lemma_pow_positive(256, (20 - n) as nat);
            lemma_div_denominator(v, p, 0x1_0000_0000);
            lemma_pow_adds(256, (20 - n) as nat, 4);
            lemma_powers();
            lemma_radix_digits_word(q, n as nat);
            assert(bytes.take(n - 4) =~= bytes.take(n as int).take(n - 4));
            assert(bytes[n - 4] == bytes.take(n as int)[n - 4]);
            assert(bytes[n - 3] == bytes.take(n as int)[n - 3]);
            assert(bytes[n - 2] == bytes.take(n as int)[n - 2]);
            assert(bytes[n - 1] == bytes.take(n as int)[n - 1]);
            let r = remainder;
            assert((r >> 24) as u8 == r / 0x100_0000) by (bit_vector);
            assert((r >> 16) as u8 == (r / 0x1_0000) % 256) by (bit_vector);
            assert((r >> 8) as u8 == (r / 0x100) % 256) by (bit_vector);
            assert(r as u8 == r % 256) by (bit_vector);
        }
        n -= 4;
        parts_len = len;
    }
    proof {
        let p = pow(256, (20 - n) as nat);
        assert(byte_digits(parts@.take(0)) =~= Seq::<int>::empty());
        lemma_pow_positive(256, (20 - n) as nat);
        lemma_fundamental_div_mod(v, p);
        lemma_mod_bound(v, p);
        lemma_pow_increases(256, (20 - n) as nat, 20);
        lemma_radix_digits_zero(256, n as nat);
        assert forall|j: int| 0 <= j < 20 implies result@[j] == be_bytes(v, 20)[j] by {
            if j < n {
                assert(bytes[j] == bytes.take(n as int)[j]);
            }
        }
        assert(result@ =~= be_bytes(v, 20));
    }
    Ok(result)
}

/// The text of a 20-byte value denotes the number that the bytes hold.
pub proof fn lemma_encoded_value(bytes: Seq<u8>)
    requires
        bytes.len() == 20,
    ensures
        text_digits(spec_encode(bytes).take(27)) == radix_digits(be_value(bytes), 62, 27),
        text_value(spec_encode(bytes)) == be_value(bytes),
        0 <= be_value(bytes) < pow(256, 20),
{
    let v = be_value(bytes);
    let digits = radix_digits(v, 62, 27);
    lemma_radix_digits_shape(v, 62, 27);
    assert forall|i: int| 0 <= i < 27 implies text_digits(spec_encode(bytes).take(27))[i]
        == digits[i] by {
        lemma_alphabet_table(digits[i]);
    }
    assert(text_digits(spec_encode(bytes).take(27)) =~= digits);
    assert(digits_in_base(byte_digits(bytes), 256));
    lemma_radix_value_bounds(byte_digits(bytes), 256);
    lemma_powers();
    lemma_radix_value_of_digits(v, 62, 27);
}

/// The zero case: 20 zero bytes have the text of 27 times `0`.
pub proof fn lemma_encode_zero()
    ensures
        spec_encode(repeated(0, 20)) == repeated(DIGIT_0, 27),
{
    lemma_be_value_zero(20);
    lemma_radix_digits_zero(62, 27);
    assert(spec_encode(repeated(0, 20)) =~= repeated(DIGIT_0, 27));
}

/// The maximum case: 20 bytes of all ones have the text `MAX_STRING_ENCODED`.
pub proof fn lemma_encode_max()
    ensures
        ascii_chars(spec_encode(repeated(0xff, 20))) == MAX_STRING_ENCODED@,
{
    let max = 0xffff_ffff_ffff_ffff_ffff_ffff_ffff_ffff_ffff_ffffint;
    lemma_be_value_max(20);
    lemma_powers();
    reveal_with_fuel(radix_digits, 28);
    lemma_radix_digits_shape(max, 62, 27);
    assert(radix_digits(max, 62, 27) =~= seq![
        36int,
        32,
        42,
        14,
        25,
        29,
        47,
        1,
        55,
        48,
        40,
        37,
        41,
        54,
        26,
        61,
        15,
        25,
        4,
        37,
        59,
        58,
        42,
        60,
        8,
        0,
        31,
    ]);
    reveal_strlit("aWgEPTl1tmebfsQzFP4bxwgy80V");
    assert(ascii_chars(spec_encode(repeated(0xff, 20))) =~= MAX_STRING_ENCODED@);
}

/// Round trip: decoding the text of a 20-byte value gives the value back,
/// whether the text is taken as bytes or as the characters of a string.
pub proof fn lemma_decode_encode(bytes: Seq<u8>)
    requires
        bytes.len() == 20,
    ensures
        spec_decode(spec_encode(bytes)) == Some(bytes),
        spec_decode(encode_utf8(ascii_chars(spec_encode(bytes)))) == Some(bytes),
{
    lemma_encoded_is_ascii(bytes);
    lemma_encoded_value(bytes);
    lemma_be_bytes_of_value(bytes);
    lemma_ascii_utf8(spec_encode(bytes));
}

/// Round trip, the other way: where a text decodes, encoding the bytes gives
/// its first 27 bytes back.
pub proof fn lemma_encode_decode(text: Seq<u8>)
    requires
        spec_decode(text) is Some,
    ensures
        spec_decode(text)->Some_0.len() == 20,
        spec_encode(spec_decode(text)->Some_0) == text.take(27),
{
    let v = text_value(text);
    let digits = text_digits(text.take(27));
    let bytes = be_bytes(v, 20);
    assert(digits_in_base(digits, 62));
    lemma_radix_value_bounds(digits, 62);
    lemma_radix_digits_shape(v, 256, 20);
    assert(byte_digits(bytes) =~= radix_digits(v, 256, 20));
    lemma_radix_value_of_digits(v, 256, 20);
    lemma_radix_digits_of_value(digits, 62);
    assert(spec_encode(bytes) =~= text.take(27));
}

/// Order: of two 20-byte values, the one that holds the smaller number has the
/// text that comes first, byte by byte and character by character, and the
/// other way round.
pub proof fn lemma_encode_preserves_order(a: Seq<u8>, b: Seq<u8>)
    requires
        a.len() == 20,
        b.len() == 20,
    ensures
        be_value(a) < be_value(b) <==> lex_less(
            byte_digits(spec_encode(a)),
            byte_digits(spec_encode(b)),
        ),
        be_value(a) < be_value(b) <==> lex_less(
            code_points(ascii_chars(spec_encode(a))),
            code_points(ascii_chars(spec_encode(b))),
        ),
{
    let da = radix_digits(be_value(a), 62, 27);
    let db = radix_digits(be_value(b), 62, 27);
    lemma_radix_digits_shape(be_value(a), 62, 27);
    lemma_radix_digits_shape(be_value(b), 62, 27);
    lemma_encoded_value(a);
    lemma_encoded_value(b);
    lemma_powers();
    lemma_radix_value_of_digits(be_value(a), 62, 27);
    lemma_radix_value_of_digits(be_value(b), 62, 27);
    lemma_radix_order(da, db, 62);
    let ta = byte_digits(spec_encode(a));
    let tb = byte_digits(spec_encode(b));
    lemma_lex_less_relabel(da, db, ta, tb);
    assert(code_points(ascii_chars(spec_encode(a))) =~= ta);
    assert(code_points(ascii_chars(spec_encode(b))) =~= tb);
}

} // verus!
