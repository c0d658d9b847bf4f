//! The identifier: four bytes of time, seconds since the identifier epoch with
//! the most significant byte first, and sixteen bytes of payload.

use crate::ascii::{ascii_chars, code_points};
use crate::base62::{
    decode, decode_rejects, encode, lemma_encode_preserves_order, lemma_powers, spec_decode,
    spec_encode,
};
use crate::endian::{
    be_bytes, be_value, byte_digits, lemma_be_bytes_of_four, lemma_be_bytes_of_value,
    lemma_be_value_of_bytes, lemma_be_value_of_four, lemma_be_value_order, read_u32, repeated,
    write_u32,
};
use crate::errors::KSUIDError;
use crate::radix::lex_less;
use crate::time::{
    from_ksuid_time, in_ksuid_range, ksuid_time, lemma_ksuid_time_in_range, now, to_ksuid_time,
    unix_time, Timestamp,
};
use rand::RngCore;
use vstd::prelude::*;
use vstd::std_specs::cmp::PartialEqSpecImpl;
use vstd::string::*;

verus! {

/// The number of bytes of the time.
pub const TIMESTAMP_LENGTH: usize = 4;

/// The number of bytes of the payload.
pub const PAYLOAD_LENGTH: usize = 16;

/// The number of bytes of an identifier.
pub const BYTE_LENGTH: usize = 20;

/// A K-sortable unique identifier: its 20 bytes.
#[derive(Debug)]
pub struct KSUID(pub [u8; 20]);

impl View for KSUID {
    type V = Seq<u8>;

    /// The 20 bytes.
    open spec fn view(&self) -> Seq<u8> {
        self.0@
    }
}

/// The bytes of the identifier made of a point in time and the first 16 bytes
/// of a payload.
pub open spec fn ksuid_bytes(ts: Timestamp, payload: Seq<u8>) -> Seq<u8> {
    be_bytes(ksuid_time(ts.secs as int), 4) + payload.take(16)
}

/// The point in time that the first four of the bytes stand for.
pub open spec fn timestamp_of(bytes: Seq<u8>) -> Timestamp {
    Timestamp { secs: unix_time(be_value(bytes.take(4))) as i64, nanos: 0 }
}

/// The bytes of the identifier that a byte string gives: its first 20, where
/// it has as many.
pub open spec fn spec_from_bytes(bytes: Seq<u8>) -> Option<Seq<u8>> {
    if bytes.len() >= 20 {
        Some(bytes.take(20))
    } else {
        None
    }
}

impl PartialEq for KSUID {
    /// Identifiers are equal where their 20 bytes are, byte for byte.
    fn eq(&self, other: &KSUID) -> (equal: bool) {
        let mut i: usize = 0;
        while i < BYTE_LENGTH
            invariant
                i <= 20,
                forall|j: int| 0 <= j < i ==> self.0[j] == other.0[j],
            decreases 20 - i,
        {
            if self.0[i] != other.0[i] {
                return false;
            }
            i += 1;
        }
        proof {
            assert(self@ =~= other@);
        }
        true
    }
}

impl PartialEqSpecImpl for KSUID {
    open spec fn obeys_eq_spec() -> bool {
        true
    }

    open spec fn eq_spec(&self, other: &KSUID) -> bool {
        self@ == other@
    }
}

impl Eq for KSUID {

}

impl Default for KSUID {
    /// The identifier of 20 zero bytes.
    fn default() -> (id: Self)
        ensures
            id@ == repeated(0, 20),
    {
        let id = KSUID([0u8;20]);
        proof {
            assert(id@ =~= repeated(0, 20));
        }
        id
    }
}

/// `rand::RngCore::fill_bytes` on `rand::thread_rng`: overwrites `dest` with
/// bytes of the thread's random generator. Nothing is stated of them. The call
/// panics where the system gives the generator no seed, at its first use in a
/// thread or at a later reseeding.
#[verifier::external_body]
fn fill_random(dest: &mut [u8; 20]) {
    rand::thread_rng().fill_bytes(dest)
}

impl KSUID {
    /// Create a new random `KSUID` based on the current time and some random
    /// data.
    ///
    /// The identifier is the one that `with_entropy` makes of the time that
    /// the clock shows and of 20 bytes of the random generator. Nothing is
    /// known of either, so every identifier is a possible outcome.
    pub fn new() -> (id: Self)
        ensures
            exists|ts: Timestamp, entropy: Seq<u8>|
                entropy.len() == 20 && id@ == #[trigger] ksuid_bytes(ts, entropy.skip(4)),
    {
        let time = now();
        let mut bytes = [0u8;20];
        fill_random(&mut bytes);
        let id = Self::with_entropy(time, bytes);
        proof {
            assert(bytes@.len() == 20 && id@ == ksuid_bytes(time, bytes@.skip(4)));
        }
        id
    }

    /// The identifier of a point in time whose payload is the last 16 of 20
    /// random bytes.
    pub fn with_entropy(ts: Timestamp, entropy: [u8; 20]) -> (id: Self)
        ensures
            id@ == ksuid_bytes(ts, entropy@.skip(4)),
    {
        let mut bytes = entropy;
        write_u32(&mut bytes, to_ksuid_time(ts));
        proof {
            lemma_be_bytes_of_four(bytes@, ksuid_time(ts.secs as int));
            assert(bytes@ =~= ksuid_bytes(ts, entropy@.skip(4)));
        }
        KSUID(bytes)
    }

    /// Create a new `KSUID` from its raw components: the time, and a payload
    /// of which the first 16 bytes are used. A shorter payload is rejected.
    pub fn from_parts(ts: Timestamp, payload: &[u8]) -> (r: Result<Self, KSUIDError>)
        ensures
            match r {
                Ok(id) => payload@.len() >= 16 && id@ == ksuid_bytes(ts, payload@),
                Err(KSUIDError::SliceTooSmall { length }) => payload@.len() < 16 && length
                    == payload@.len(),
                Err(_) => false,
            },
    {
        if payload.len() < PAYLOAD_LENGTH {
            return Err(KSUIDError::SliceTooSmall { length: payload.len() });
        }
        let mut bytes = [0u8;20];
        write_u32(&mut bytes, to_ksuid_time(ts));
        let ghost time = be_bytes(ksuid_time(ts.secs as int), 4);
        proof {
            lemma_be_bytes_of_four(bytes@, ksuid_time(ts.secs as int));
        }
        let mut i: usize = 0;
        while i < PAYLOAD_LENGTH
            invariant
                i <= 16,
                payload@.len() >= 16,
                time.len() == 4,
                bytes@.take(4) == time,
                forall|j: int| 0 <= j < i ==> bytes[4 + j] == payload[j],
            decreases 16 - i,
        {
            let ghost before = bytes@;
            bytes[TIMESTAMP_LENGTH + i] = payload[i];
            proof {
                assert(bytes@.take(4) =~= before.take(4));
            }
            i += 1;
        }
        proof {
            assert(bytes@ =~= ksuid_bytes(ts, payload@));
        }
        Ok(KSUID(bytes))
    }

    /// Return a ksuid built from a byte slice. The slice could be of arbitrary
    /// size. The first 20 bytes will be the only ones used. If the slice is
    /// too small an error is returned.
    pub fn from_bytes(bytes: &[u8]) -> (r: Result<Self, KSUIDError>)
        ensures
            match r {
                Ok(id) => spec_from_bytes(bytes@) == Some(id@),
                Err(KSUIDError::SliceTooSmall { length }) => spec_from_bytes(bytes@) is None
                    && length == bytes@.len(),
                Err(_) => false,
            },
    {
        if bytes.len() < BYTE_LENGTH {
            return Err(KSUIDError::SliceTooSmall { length: bytes.len() });
        }
        let mut arr = [0u8;20];
        let mut i: usize = 0;
        while i < BYTE_LENGTH
            invariant
                i <= 20,
                bytes@.len() >= 20,
                forall|j: int| 0 <= j < i ==> arr[j] == bytes[j],
            decreases 20 - i,
        {
            arr[i] = bytes[i];
            i += 1;
        }
        proof {
            assert(arr@ =~= bytes@.take(20));
        }
        Ok(KSUID(arr))
    }

    /// The identifier that a base62 text denotes. The text is rejected as
    /// `decode` rejects it.
    pub fn from_base62(string: &str) -> (r: Result<Self, KSUIDError>)
        ensures
            match r {
                Ok(id) => spec_decode(string.spec_bytes()) == Some(id@),
                Err(error) => decode_rejects(string.spec_bytes(), string@, error),
            },
            string.spec_bytes().len() < 27 ==> r matches Err(
                KSUIDError::InvalidBase62Length { .. },
            ),
    {
        match decode(string) {
            Ok(bytes) => {
                proof {
                    assert(bytes@.take(20) =~= bytes@);
                }
                Self::from_bytes(bytes.as_slice())
            },
            Err(error) => Err(error),
        }
    }

    /// Return the timestamp portion of a ksuid: the start of the second that
    /// its first four bytes stand for.
    pub fn timestamp(&self) -> (ts: Timestamp)
        ensures
            ts == timestamp_of(self@),
    {
        proof {
            lemma_be_value_of_four(self@);
        }
        from_ksuid_time(read_u32(&self.0))
    }

    /// Return the random payload portion of the ksuid as a reference to the
    /// underlying array.
    pub fn payload(&self) -> (payload: &[u8])
        ensures
            payload@ == self@.skip(4),
    {
        let payload = &self.0[4..20];
        proof {
            assert(self@.subrange(4, 20) =~= self@.skip(4));
        }
        payload
    }

    /// Encode the underlying bytes as a base62 `String`.
    pub fn to_base62(&self) -> (text: String)
        ensures
            text@ == ascii_chars(spec_encode(self@)),
            text@.len() == 27,
    {
        encode(&self.0)
    }

    /// Return a reference to the bytes that make up a ksuid.
    pub fn as_bytes(&self) -> (bytes: &[u8])
        ensures
            bytes@ == self@,
    {
        &self.0
    }
}

/// Identifiers with the same bytes are the same identifier.
pub proof fn lemma_same_bytes(a: KSUID, b: KSUID)
    requires
        a@ == b@,
    ensures
        a == b,
{
    assert(a.0 =~= b.0);
}

/// Round trip through bytes: an identifier has 20 bytes, and these give the
/// identifier back.
pub proof fn lemma_from_bytes_as_bytes(id: KSUID)
    ensures
        id@.len() == 20,
        spec_from_bytes(id@) == Some(id@),
{
    assert(id@.take(20) =~= id@);
}

/// The time of an identifier made of parts, whatever the point in time: the
/// second that its 32-bit time stands for.
pub proof fn lemma_timestamp_wraps(ts: Timestamp, payload: Seq<u8>)
    ensures
        timestamp_of(ksuid_bytes(ts, payload)).secs == unix_time(ksuid_time(ts.secs as int)),
        timestamp_of(ksuid_bytes(ts, payload)).nanos == 0,
{
    let time = ksuid_time(ts.secs as int);
    lemma_powers();
    lemma_be_value_of_bytes(time, 4);
    assert(ksuid_bytes(ts, payload).take(4) =~= be_bytes(time, 4));
}

/// Round trip of the time: an identifier made of a point in time within the
/// 2^32 seconds from the identifier epoch stands for the start of that second.
pub proof fn lemma_timestamp_of_parts(ts: Timestamp, payload: Seq<u8>)
    requires
        in_ksuid_range(ts.secs as int),
    ensures
        timestamp_of(ksuid_bytes(ts, payload)) == ts.whole_seconds(),
{
    let time = ksuid_time(ts.secs as int);
    lemma_ksuid_time_in_range(ts.secs as int);
    lemma_powers();
    lemma_be_value_of_bytes(time, 4);
    assert(ksuid_bytes(ts, payload).take(4) =~= be_bytes(time, 4));
}

/// The payload of an identifier made of parts is the first 16 bytes of the
/// payload it was made of.
pub proof fn lemma_payload_of_parts(ts: Timestamp, payload: Seq<u8>)
    requires
        payload.len() >= 16,
    ensures
        ksuid_bytes(ts, payload).len() == 20,
        ksuid_bytes(ts, payload).skip(4) == payload.take(16),
{
    assert(ksuid_bytes(ts, payload).skip(4) =~= payload.take(16));
}

/// An identifier is the one made of its own time and payload.
pub proof fn lemma_parts_rebuild(id: KSUID)
    ensures
        ksuid_bytes(timestamp_of(id@), id@.skip(4)) == id@,
{
    lemma_be_value_of_four(id@);
    lemma_be_bytes_of_value(id@.take(4));
    assert(ksuid_bytes(timestamp_of(id@), id@.skip(4)) =~= id@);
}

/// Identifiers sort by time: of two identifiers made of points in time within
/// the 2^32 seconds from the identifier epoch, the one of the earlier second
/// holds the smaller number and has the text that comes first, whatever the
/// payloads.
pub proof fn lemma_sorts_by_time(
    earlier: Timestamp,
    payload: Seq<u8>,
    later: Timestamp,
    other_payload: Seq<u8>,
)
    requires
        in_ksuid_range(earlier.secs as int),
        in_ksuid_range(later.secs as int),
        earlier.secs < later.secs,
        payload.len() >= 16,
        other_payload.len() >= 16,
    ensures
        be_value(ksuid_bytes(earlier, payload)) < be_value(ksuid_bytes(later, other_payload)),
        lex_less(
            code_points(ascii_chars(spec_encode(ksuid_bytes(earlier, payload)))),
            code_points(ascii_chars(spec_encode(ksuid_bytes(later, other_payload)))),
        ),
{
    let a = ksuid_bytes(earlier, payload);
    let b = ksuid_bytes(later, other_payload);
    let ta = be_bytes(ksuid_time(earlier.secs as int), 4);
    let tb = be_bytes(ksuid_time(later.secs as int), 4);
    lemma_powers();
    lemma_ksuid_time_in_range(earlier.secs as int);
    lemma_ksuid_time_in_range(later.secs as int);
    lemma_be_value_of_bytes(ksuid_time(earlier.secs as int), 4);
    lemma_be_value_of_bytes(ksuid_time(later.secs as int), 4);
    lemma_be_value_order(ta, tb);
    let k = choose|k: int|
        0 <= k <= byte_digits(ta).len() && k < byte_digits(tb).len() && #[trigger] byte_digits(
            ta,
        ).take(k) == byte_digits(tb).take(k) && (k < byte_digits(ta).len() ==> byte_digits(ta)[k]
            < byte_digits(tb)[k]);
    assert forall|i: int| 0 <= i < k implies byte_digits(a)[i] == byte_digits(b)[i] by {
        assert(byte_digits(ta).take(k)[i] == byte_digits(tb).take(k)[i]);
    }
    assert(byte_digits(a).take(k) =~= byte_digits(b).take(k));
    assert(byte_digits(a)[k] == byte_digits(ta)[k]);
    assert(byte_digits(b)[k] == byte_digits(tb)[k]);
    assert(lex_less(byte_digits(a), byte_digits(b)));
    lemma_be_value_order(a, b);
    lemma_encode_preserves_order(a, b);
}

} // verus!
