//! The digest type produced by the hash primitive: four field elements.
use vstd::prelude::*;
use vstd::string::{StrSliceExecFns, StringExecFns};

use crate::field::{Felt, MODULUS};

verus! {

/// Number of field elements in a digest.
pub const DIGEST_SIZE: usize = 4;

/// Number of bytes in the canonical byte encoding of a digest.
pub const DIGEST_BYTES: usize = 32;

/// A 32-byte-equivalent digest: four base field elements.
#[derive(Debug, Clone, Copy, Eq, Hash)]
pub struct RpoDigest(pub [Felt; 4]);

impl PartialEq for RpoDigest {
    fn eq(&self, other: &RpoDigest) -> (r: bool) {
        let r = self.0[0] == other.0[0] && self.0[1] == other.0[1] && self.0[2] == other.0[2]
            && self.0[3] == other.0[3];
        proof {
            if r {
                assert(self.0 =~= other.0);
            }
        }
        r
    }
}

impl vstd::std_specs::cmp::PartialEqSpecImpl for RpoDigest {
    open spec fn obeys_eq_spec() -> bool {
        true
    }

    open spec fn eq_spec(&self, other: &RpoDigest) -> bool {
        self.0 == other.0
    }
}

impl RpoDigest {
    /// Wraps four field elements as a digest.
    pub fn new(value: [Felt; 4]) -> (r: RpoDigest)
        ensures
            r == (RpoDigest { 0: value }),
    {
        RpoDigest(value)
    }

    /// The four field elements of this digest.
    pub fn as_elements(&self) -> (r: &[Felt; 4])
        ensures
            r == &self.0,
    {
        &self.0
    }

    /// All stored elements are in canonical form.
    pub open spec fn is_canonical(self) -> bool {
        forall|i: int| 0 <= i < 4 ==> self.0[i].value < MODULUS
    }
}

impl Default for RpoDigest {
    /// The all-zero digest, used to pad peak commitments.
    fn default() -> (r: RpoDigest)
        ensures
            r == (RpoDigest {
                0: [
                    Felt { value: 0 },
                    Felt { value: 0 },
                    Felt { value: 0 },
                    Felt { value: 0 },
                ],
            }),
    {
        RpoDigest([Felt::zero(), Felt::zero(), Felt::zero(), Felt::zero()])
    }
}

/// The field elements of a sequence of digests, flattened in order.
pub open spec fn elements_of(digests: Seq<RpoDigest>) -> Seq<Felt>
    decreases digests.len(),
{
    if digests.len() == 0 {
        Seq::empty()
    } else {
        elements_of(digests.drop_last()) + digests.last().0@
    }
}

impl RpoDigest {
    /// Flattens a sequence of digests into the sequence of their field
    /// elements, four per digest, digest order preserved.
    pub fn digests_as_elements(digests: &[RpoDigest]) -> (r: Vec<Felt>)
        ensures
            r@ == elements_of(digests@),
    {
        let mut out: Vec<Felt> = Vec::new();
        let mut i: usize = 0;
        while i < digests.len()
            invariant
                0 <= i <= digests@.len(),
                out@ == elements_of(digests@.take(i as int)),
            decreases digests@.len() - i,
        {
            let d = &digests[i];
            out.push(d.0[0]);
            out.push(d.0[1]);
            out.push(d.0[2]);
            out.push(d.0[3]);
            proof {
                lemma_elements_of_push(digests@.take(i as int), digests@[i as int]);
                assert(digests@.take(i + 1 as int).drop_last() =~= digests@.take(i as int));
                assert(digests@.take(i + 1 as int).last() == digests@[i as int]);
                assert(digests@.take(i + 1 as int) =~= digests@.take(i as int).push(
                    digests@[i as int],
                ));
                assert(out@ =~= elements_of(digests@.take(i as int)) + digests@[i as int].0@);
            }
            i = i + 1;
        }
        proof {
            assert(digests@.take(digests@.len() as int) =~= digests@);
        }
        out
    }
}

/// The eight little-endian bytes of a word.
pub open spec fn u64_le_bytes(v: u64) -> Seq<u8> {
    seq![
        (v & 0xff) as u8,
        ((v >> 8) & 0xff) as u8,
        ((v >> 16) & 0xff) as u8,
        ((v >> 24) & 0xff) as u8,
        ((v >> 32) & 0xff) as u8,
        ((v >> 40) & 0xff) as u8,
        ((v >> 48) & 0xff) as u8,
        ((v >> 56) & 0xff) as u8,
    ]
}

/// The word encoded by eight little-endian bytes.
pub open spec fn u64_from_le_bytes(b: Seq<u8>) -> u64 {
    (b[0] as u64) | ((b[1] as u64) << 8) | ((b[2] as u64) << 16) | ((b[3] as u64) << 24) | (
    (b[4] as u64) << 32) | ((b[5] as u64) << 40) | ((b[6] as u64) << 48) | ((b[7] as u64) << 56)
}

/// The canonical 32-byte encoding of a digest: the four elements' canonical
/// values, each in eight little-endian bytes, in element order.
pub open spec fn digest_bytes(d: RpoDigest) -> Seq<u8> {
    u64_le_bytes(d.0[0].value) + u64_le_bytes(d.0[1].value) + u64_le_bytes(d.0[2].value)
        + u64_le_bytes(d.0[3].value)
}

/// Little-endian byte decomposition loses nothing.
pub proof fn lemma_le_bytes_round_trip(v: u64)
    ensures
        u64_from_le_bytes(u64_le_bytes(v)) == v,
{
    let b = u64_le_bytes(v);
    let b0 = (v & 0xff) as u8;
    let b1 = ((v >> 8) & 0xff) as u8;
    let b2 = ((v >> 16) & 0xff) as u8;
    let b3 = ((v >> 24) & 0xff) as u8;
    let b4 = ((v >> 32) & 0xff) as u8;
    let b5 = ((v >> 40) & 0xff) as u8;
    let b6 = ((v >> 48) & 0xff) as u8;
    let b7 = ((v >> 56) & 0xff) as u8;
    assert((b0 as u64) | ((b1 as u64) << 8) | ((b2 as u64) << 16) | ((b3 as u64) << 24) | (
    (b4 as u64) << 32) | ((b5 as u64) << 40) | ((b6 as u64) << 48) | ((b7 as u64) << 56) == v)
        by (bit_vector)
        requires
            b0 == (v & 0xff) as u8,
            b1 == ((v >> 8) & 0xff) as u8,
            b2 == ((v >> 16) & 0xff) as u8,
            b3 == ((v >> 24) & 0xff) as u8,
            b4 == ((v >> 32) & 0xff) as u8,
            b5 == ((v >> 40) & 0xff) as u8,
            b6 == ((v >> 48) & 0xff) as u8,
            b7 == ((v >> 56) & 0xff) as u8,
    ;
    assert(b[0] == b0 && b[1] == b1 && b[2] == b2 && b[3] == b3 && b[4] == b4 && b[5] == b5 && b[6]
        == b6 && b[7] == b7);
}

/// Encoding a digest of canonical elements and decoding the bytes again
/// gives back the digest: the byte codec loses nothing.
pub proof fn lemma_digest_bytes_round_trip(d: RpoDigest)
    requires
        d.is_canonical(),
    ensures
        ({
            let b = digest_bytes(d);
            &&& b.len() == 32
            &&& u64_from_le_bytes(b.subrange(0, 8)) == d.0[0].value
            &&& u64_from_le_bytes(b.subrange(8, 16)) == d.0[1].value
            &&& u64_from_le_bytes(b.subrange(16, 24)) == d.0[2].value
            &&& u64_from_le_bytes(b.subrange(24, 32)) == d.0[3].value
        }),
{
    let b = digest_bytes(d);
    assert(b.subrange(0, 8) =~= u64_le_bytes(d.0[0].value));
    assert(b.subrange(8, 16) =~= u64_le_bytes(d.0[1].value));
    assert(b.subrange(16, 24) =~= u64_le_bytes(d.0[2].value));
    assert(b.subrange(24, 32) =~= u64_le_bytes(d.0[3].value));
    lemma_le_bytes_round_trip(d.0[0].value);
    lemma_le_bytes_round_trip(d.0[1].value);
    lemma_le_bytes_round_trip(d.0[2].value);
    lemma_le_bytes_round_trip(d.0[3].value);
}

/// An error while decoding a digest from bytes.
#[derive(Debug, PartialEq, Eq, Structural, Copy, Clone)]
pub enum DeserializationError {
    /// Fewer bytes than a digest needs.
    UnexpectedEnd,
    /// An encoded element at or above the field modulus.
    InvalidValue,
}

/// An error while decoding a digest from a hexadecimal or numeric encoding.
#[derive(Debug, PartialEq, Eq, Structural, Copy, Clone)]
pub enum HexParseError {
    /// A string of the wrong length; a digest takes 66 characters.
    InvalidLength(usize),
    /// A character that is no hexadecimal digit, or a missing `0x` prefix.
    InvalidChar,
    /// An encoded element at or above the field modulus.
    OutOfRange,
}

impl RpoDigest {
    /// Returns the canonical 32-byte encoding: each element's canonical
    /// value in eight little-endian bytes, element order preserved.
    pub fn as_bytes(&self) -> (r: [u8; 32])
        ensures
            r@ == digest_bytes(*self),
    {
        let a = self.0[0].value;
        let b = self.0[1].value;
        let c = self.0[2].value;
        let d = self.0[3].value;
        let r = [
            (a & 0xff) as u8,
            ((a >> 8) & 0xff) as u8,
            ((a >> 16) & 0xff) as u8,
            ((a >> 24) & 0xff) as u8,
            ((a >> 32) & 0xff) as u8,
            ((a >> 40) & 0xff) as u8,
            ((a >> 48) & 0xff) as u8,
            ((a >> 56) & 0xff) as u8,
            (b & 0xff) as u8,
            ((b >> 8) & 0xff) as u8,
            ((b >> 16) & 0xff) as u8,
            ((b >> 24) & 0xff) as u8,
            ((b >> 32) & 0xff) as u8,
            ((b >> 40) & 0xff) as u8,
            ((b >> 48) & 0xff) as u8,
            ((b >> 56) & 0xff) as u8,
            (c & 0xff) as u8,
            ((c >> 8) & 0xff) as u8,
            ((c >> 16) & 0xff) as u8,
            ((c >> 24) & 0xff) as u8,
            ((c >> 32) & 0xff) as u8,
            ((c >> 40) & 0xff) as u8,
            ((c >> 48) & 0xff) as u8,
            ((c >> 56) & 0xff) as u8,
            (d & 0xff) as u8,
            ((d >> 8) & 0xff) as u8,
            ((d >> 16) & 0xff) as u8,
            ((d >> 24) & 0xff) as u8,
            ((d >> 32) & 0xff) as u8,
            ((d >> 40) & 0xff) as u8,
            ((d >> 48) & 0xff) as u8,
            ((d >> 56) & 0xff) as u8,
        ];
        proof {
            assert(r@ =~= digest_bytes(*self));
        }
        r
    }

    /// Appends the canonical 32-byte encoding of this digest to `target`.
    pub fn write_into(&self, target: &mut Vec<u8>)
        ensures
            final(target)@ == old(target)@ + digest_bytes(*self),
    {
        let bytes = self.as_bytes();
        let ghost start = target@;
        let mut i: usize = 0;
        while i < 32
            invariant
                0 <= i <= 32,
                bytes@ == digest_bytes(*self),
                bytes@.len() == 32,
                target@ == start + bytes@.take(i as int),
            decreases 32 - i,
        {
            target.push(bytes[i]);
            proof {
                assert(start + bytes@.take(i + 1) =~= (start + bytes@.take(i as int)).push(
                    bytes@[i as int],
                ));
            }
            i = i + 1;
        }
        proof {
            assert(bytes@.take(32) =~= bytes@);
        }
    }

    /// Decodes a digest from the first 32 bytes of `source`: four words in
    /// little-endian byte order, each of which must be a canonical field
    /// element.
    pub fn read_from(source: &[u8]) -> (r: Result<RpoDigest, DeserializationError>)
        ensures
            source@.len() < 32 ==> r == Err::<RpoDigest, DeserializationError>(
                DeserializationError::UnexpectedEnd,
            ),
            source@.len() >= 32 ==> ({
                let v0 = u64_from_le_bytes(source@.subrange(0, 8));
                let v1 = u64_from_le_bytes(source@.subrange(8, 16));
                let v2 = u64_from_le_bytes(source@.subrange(16, 24));
                let v3 = u64_from_le_bytes(source@.subrange(24, 32));
                if v0 < MODULUS && v1 < MODULUS && v2 < MODULUS && v3 < MODULUS {
                    r == Ok::<RpoDigest, DeserializationError>(
                        RpoDigest(
                            [
                                Felt { value: v0 },
                                Felt { value: v1 },
                                Felt { value: v2 },
                                Felt { value: v3 },
                            ],
                        ),
                    )
                } else {
                    r == Err::<RpoDigest, DeserializationError>(DeserializationError::InvalidValue)
                }
            }),
    {
        if source.len() < 32 {
            return Err(DeserializationError::UnexpectedEnd);
        }
        let v0 = read_u64_le(source, 0);
        let v1 = read_u64_le(source, 8);
        let v2 = read_u64_le(source, 16);
        let v3 = read_u64_le(source, 24);
        if v0 >= MODULUS || v1 >= MODULUS || v2 >= MODULUS || v3 >= MODULUS {
            return Err(DeserializationError::InvalidValue);
        }
        Ok(
            RpoDigest(
                [Felt { value: v0 }, Felt { value: v1 }, Felt { value: v2 }, Felt { value: v3 }],
            ),
        )
    }

    /// Decodes a digest from exactly 32 bytes, rejecting any element at or
    /// above the field modulus.
    pub fn try_from_bytes(value: &[u8; 32]) -> (r: Result<RpoDigest, HexParseError>)
        ensures
            ({
                let v0 = u64_from_le_bytes(value@.subrange(0, 8));
                let v1 = u64_from_le_bytes(value@.subrange(8, 16));
                let v2 = u64_from_le_bytes(value@.subrange(16, 24));
                let v3 = u64_from_le_bytes(value@.subrange(24, 32));
                if v0 < MODULUS && v1 < MODULUS && v2 < MODULUS && v3 < MODULUS {
                    r == Ok::<RpoDigest, HexParseError>(
                        RpoDigest(
                            [
                                Felt { value: v0 },
                                Felt { value: v1 },
                                Felt { value: v2 },
                                Felt { value: v3 },
                            ],
                        ),
                    )
                } else {
                    r == Err::<RpoDigest, HexParseError>(HexParseError::OutOfRange)
                }
            }),
    {
        let s = value.as_slice();
        proof {
            assert(s@ =~= value@);
        }
        let v0 = read_u64_le(s, 0);
        let v1 = read_u64_le(s, 8);
        let v2 = read_u64_le(s, 16);
        let v3 = read_u64_le(s, 24);
        if v0 >= MODULUS || v1 >= MODULUS || v2 >= MODULUS || v3 >= MODULUS {
            return Err(HexParseError::OutOfRange);
        }
        Ok(
            RpoDigest(
                [Felt { value: v0 }, Felt { value: v1 }, Felt { value: v2 }, Felt { value: v3 }],
            ),
        )
    }
}

impl RpoDigest {
    /// Returns the hexadecimal string encoding of this digest, starting with
    /// `0x`.
    pub fn to_hex(&self) -> (r: String)
        ensures
            r@ == digest_hex(*self),
    {
        let bytes = self.as_bytes();
        let mut s = String::new();
        s.append("0x");
        proof {
            reveal_strlit("0x");
            assert("0x"@ =~= seq!['0', 'x']);
            assert(bytes@.take(0) =~= Seq::<u8>::empty());
            assert(s@ =~= seq!['0', 'x'] + hex_chars(bytes@.take(0)));
        }
        let mut i: usize = 0;
        while i < 32
            invariant
                0 <= i <= 32,
                bytes@ == digest_bytes(*self),
                bytes@.len() == 32,
                s@ == seq!['0', 'x'] + hex_chars(bytes@.take(i as int)),
            decreases 32 - i,
        {
            let b = bytes[i];
            proof {
                vstd::arithmetic::div_mod::lemma_mod_bound(b as int, 16);
                crate::model::lemma_div_lt(b as nat, 16, 16);
            }
            s.append(hex_digit_str(b / 16));
            s.append(hex_digit_str(b % 16));
            proof {
                lemma_hex_chars_push(bytes@.take(i as int), bytes@[i as int]);
                assert(bytes@.take(i + 1) =~= bytes@.take(i as int).push(bytes@[i as int]));
                assert(s@ =~= seq!['0', 'x'] + hex_chars(bytes@.take(i + 1)));
            }
            i = i + 1;
        }
        proof {
            assert(bytes@.take(32) =~= bytes@);
        }
        s
    }

    /// Decodes a digest from its hexadecimal string encoding: `0x`, then 64
    /// digits giving the canonical 32 bytes.
    pub fn from_hex(value: &str) -> (r: Result<RpoDigest, HexParseError>)
        ensures
            ({
                let s = value@;
                if s.len() != 66 {
                    r == Err::<RpoDigest, HexParseError>(
                        HexParseError::InvalidLength(s.len() as usize),
                    )
                } else if !(s[0] == '0' && s[1] == 'x') || exists|i: int|
                    2 <= i < 66 && !is_hex_digit(s[i]) {
                    r == Err::<RpoDigest, HexParseError>(HexParseError::InvalidChar)
                } else {
                    let b = Seq::new(32, |k: int| hex_byte(s, k));
                    let v0 = u64_from_le_bytes(b.subrange(0, 8));
                    let v1 = u64_from_le_bytes(b.subrange(8, 16));
                    let v2 = u64_from_le_bytes(b.subrange(16, 24));
                    let v3 = u64_from_le_bytes(b.subrange(24, 32));
                    if v0 < MODULUS && v1 < MODULUS && v2 < MODULUS && v3 < MODULUS {
                        r == Ok::<RpoDigest, HexParseError>(
                            RpoDigest(
                                [
                                    Felt { value: v0 },
                                    Felt { value: v1 },
                                    Felt { value: v2 },
                                    Felt { value: v3 },
                                ],
                            ),
                        )
                    } else {
                        r == Err::<RpoDigest, HexParseError>(HexParseError::OutOfRange)
                    }
                }
            }),
    {
        let n = value.unicode_len();
        if n != 66 {
            return Err(HexParseError::InvalidLength(n));
        }
        if value.get_char(0) != '0' || value.get_char(1) != 'x' {
            return Err(HexParseError::InvalidChar);
        }
        let mut bytes: Vec<u8> = Vec::new();
        let mut k: usize = 0;
        while k < 32
            invariant
                0 <= k <= 32,
                value@.len() == 66,
                bytes@.len() == k,
                forall|m: int| 0 <= m < k ==> bytes@[m] == #[trigger] hex_byte(value@, m),
                forall|i: int| 2 <= i < 2 + 2 * k ==> #[trigger] is_hex_digit(value@[i]),
            decreases 32 - k,
        {
            let hi = match hex_char_val(value.get_char(2 + 2 * k)) {
                Some(v) => v,
                None => {
                    return Err(HexParseError::InvalidChar);
                },
            };
            let lo = match hex_char_val(value.get_char(3 + 2 * k)) {
                Some(v) => v,
                None => {
                    return Err(HexParseError::InvalidChar);
                },
            };
            bytes.push(hi * 16 + lo);
            k = k + 1;
        }
        match RpoDigest::read_from(bytes.as_slice()) {
            Ok(d) => {
                proof {
                    assert(bytes@ =~= Seq::new(32, |m: int| hex_byte(value@, m)));
                }
                Ok(d)
            },
            Err(_) => {
                proof {
                    assert(bytes@ =~= Seq::new(32, |m: int| hex_byte(value@, m)));
                }
                Err(HexParseError::OutOfRange)
            },
        }
    }
}

impl RpoDigest {
    /// Builds a digest from 32 random bytes, or `None` when the slice has
    /// the wrong length or holds a non-canonical element.
    pub fn from_random_bytes(bytes: &[u8]) -> (r: Option<RpoDigest>)
        ensures
            bytes@.len() != 32 ==> r is None,
            bytes@.len() == 32 ==> ({
                let v0 = u64_from_le_bytes(bytes@.subrange(0, 8));
                let v1 = u64_from_le_bytes(bytes@.subrange(8, 16));
                let v2 = u64_from_le_bytes(bytes@.subrange(16, 24));
                let v3 = u64_from_le_bytes(bytes@.subrange(24, 32));
                if v0 < MODULUS && v1 < MODULUS && v2 < MODULUS && v3 < MODULUS {
                    r == Some(
                        RpoDigest(
                            [
                                Felt { value: v0 },
                                Felt { value: v1 },
                                Felt { value: v2 },
                                Felt { value: v3 },
                            ],
                        ),
                    )
                } else {
                    r is None
                }
            }),
    {
        if bytes.len() != 32 {
            return None;
        }
        match RpoDigest::read_from(bytes) {
            Ok(d) => Some(d),
            Err(_) => None,
        }
    }
}

/// The byte encoded by the digit pair `2 * k + 2` of a digest string.
pub open spec fn hex_byte(s: Seq<char>, k: int) -> u8 {
    (hex_val(s[2 + 2 * k]) * 16 + hex_val(s[3 + 2 * k])) as u8
}

/// The lowercase digit character of a value below sixteen, as a string.
fn hex_digit_str(n: u8) -> (r: &'static str)
    requires
        n < 16,
    ensures
        r@ == seq![hex_digit(n)],
{
    proof {
        reveal_strlit("0");
        reveal_strlit("1");
        reveal_strlit("2");
        reveal_strlit("3");
        reveal_strlit("4");
        reveal_strlit("5");
        reveal_strlit("6");
        reveal_strlit("7");
        reveal_strlit("8");
        reveal_strlit("9");
        reveal_strlit("a");
        reveal_strlit("b");
        reveal_strlit("c");
        reveal_strlit("d");
        reveal_strlit("e");
        reveal_strlit("f");
    }
    match n {
        0 => "0",
        1 => "1",
        2 => "2",
        3 => "3",
        4 => "4",
        5 => "5",
        6 => "6",
        7 => "7",
        8 => "8",
        9 => "9",
        10 => "a",
        11 => "b",
        12 => "c",
        13 => "d",
        14 => "e",
        _ => "f",
    }
}

/// The value of a hexadecimal digit character, or `None` for any other
/// character.
fn hex_char_val(c: char) -> (r: Option<u8>)
    ensures
        (r is Some) == is_hex_digit(c),
        r is Some ==> r->0 == hex_val(c) && r->0 < 16,
{
    if '0' <= c && c <= '9' {
        Some(c as u8 - 48)
    } else if 'a' <= c && c <= 'f' {
        Some(c as u8 - 97 + 10)
    } else if 'A' <= c && c <= 'F' {
        Some(c as u8 - 65 + 10)
    } else {
        None
    }
}

/// Reads one word from eight little-endian bytes at `off`.
fn read_u64_le(bytes: &[u8], off: usize) -> (r: u64)
    requires
        off + 8 <= bytes@.len(),
    ensures
        r == u64_from_le_bytes(bytes@.subrange(off as int, off as int + 8)),
{
    let ghost sub = bytes@.subrange(off as int, off as int + 8);
    let r = (bytes[off] as u64) | ((bytes[off + 1] as u64) << 8) | ((bytes[off + 2] as u64) << 16)
        | ((bytes[off + 3] as u64) << 24) | ((bytes[off + 4] as u64) << 32) | ((bytes[off
        + 5] as u64) << 40) | ((bytes[off + 6] as u64) << 48) | ((bytes[off + 7] as u64) << 56);
    proof {
        assert(sub[0] == bytes@[off as int]);
        assert(sub[1] == bytes@[off as int + 1]);
        assert(sub[2] == bytes@[off as int + 2]);
        assert(sub[3] == bytes@[off as int + 3]);
        assert(sub[4] == bytes@[off as int + 4]);
        assert(sub[5] == bytes@[off as int + 5]);
        assert(sub[6] == bytes@[off as int + 6]);
        assert(sub[7] == bytes@[off as int + 7]);
    }
    r
}

/// The lowercase hexadecimal digit for a value below sixteen.
pub open spec fn hex_digit(n: u8) -> char {
    if n == 0 {
        '0'
    } else if n == 1 {
        '1'
    } else if n == 2 {
        '2'
    } else if n == 3 {
        '3'
    } else if n == 4 {
        '4'
    } else if n == 5 {
        '5'
    } else if n == 6 {
        '6'
    } else if n == 7 {
        '7'
    } else if n == 8 {
        '8'
    } else if n == 9 {
        '9'
    } else if n == 10 {
        'a'
    } else if n == 11 {
        'b'
    } else if n == 12 {
        'c'
    } else if n == 13 {
        'd'
    } else if n == 14 {
        'e'
    } else {
        'f'
    }
}

/// Whether a character is a hexadecimal digit, either case.
pub open spec fn is_hex_digit(c: char) -> bool {
    ('0' <= c && c <= '9') || ('a' <= c && c <= 'f') || ('A' <= c && c <= 'F')
}

/// The value of a hexadecimal digit character.
pub open spec fn hex_val(c: char) -> u8 {
    if '0' <= c && c <= '9' {
        (c as u8 - '0' as u8) as u8
    } else if 'a' <= c && c <= 'f' {
        (c as u8 - 'a' as u8 + 10) as u8
    } else {
        (c as u8 - 'A' as u8 + 10) as u8
    }
}

/// The hexadecimal characters of a byte sequence: two digits per byte, high
/// digit first, byte order preserved.
pub open spec fn hex_chars(b: Seq<u8>) -> Seq<char>
    decreases b.len(),
{
    if b.len() == 0 {
        Seq::empty()
    } else {
        hex_chars(b.drop_last()) + seq![hex_digit(b.last() / 16), hex_digit(b.last() % 16)]
    }
}

/// The hexadecimal string encoding of a digest: `0x`, then the canonical
/// bytes as lowercase digit pairs.
pub open spec fn digest_hex(d: RpoDigest) -> Seq<char> {
    seq!['0', 'x'] + hex_chars(digest_bytes(d))
}

/// Appending a byte appends its two digits.
pub proof fn lemma_hex_chars_push(b: Seq<u8>, x: u8)
    ensures
        hex_chars(b.push(x)) == hex_chars(b) + seq![hex_digit(x / 16), hex_digit(x % 16)],
{
    assert(b.push(x).drop_last() =~= b);
    assert(b.push(x).last() == x);
}

/// Flattening distributes over appending one digest at the end.
pub proof fn lemma_elements_of_push(s: Seq<RpoDigest>, d: RpoDigest)
    ensures
        elements_of(s.push(d)) == elements_of(s) + d.0@,
{
    assert(s.push(d).drop_last() =~= s);
    assert(s.push(d).last() == d);
}

} // verus!
