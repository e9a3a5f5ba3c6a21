//! The content address of a chunk: the SHA-256 digest of its bytes.
use vstd::prelude::*;

verus! {

/// The SHA-256 digest of `data`, as computed by the `sha2` crate.
pub uninterp spec fn sha256_of(data: Seq<u8>) -> Seq<u8>;

/// Relies on `sha2::Sha256::digest`: the 32-byte digest of the input, which
/// depends on the input bytes alone.
#[verifier::external_body]
fn sha256(data: &[u8]) -> (r: [u8; 32])
    ensures
        r@ == sha256_of(data@),
{
    <sha2::Sha256 as sha2::Digest>::digest(data).into()
}

#[verifier::external_type_specification]
#[verifier::external_body]
pub struct ExFromHexError(hex::FromHexError);

/// The lowercase hexadecimal digit for `n` (`n < 16`).
pub open spec fn hex_digit(n: int) -> char {
    if n < 10 {
        ('0' as int + n) as char
    } else {
        ('a' as int + n - 10) as char
    }
}

/// Whether `c` is a hexadecimal digit of either case.
pub open spec fn is_hex_char(c: char) -> bool {
    ('0' <= c && c <= '9') || ('a' <= c && c <= 'f') || ('A' <= c && c <= 'F')
}

/// The value of the hexadecimal digit `c`.
pub open spec fn hex_value(c: char) -> int {
    if '0' <= c && c <= '9' {
        c as int - '0' as int
    } else if 'a' <= c && c <= 'f' {
        c as int - 'a' as int + 10
    } else {
        c as int - 'A' as int + 10
    }
}

/// Two lowercase digits per byte, high nibble first.
pub open spec fn hex_encoding(b: Seq<u8>) -> Seq<char> {
    Seq::new(
        2 * b.len(),
        |i: int|
            if i % 2 == 0 {
                hex_digit(b[i / 2] as int / 16)
            } else {
                hex_digit(b[i / 2] as int % 16)
            },
    )
}

/// Whether `s` is an even number of hexadecimal digits.
pub open spec fn is_hex_text(s: Seq<char>) -> bool {
    s.len() % 2 == 0 && forall|i: int| 0 <= i < s.len() ==> is_hex_char(#[trigger] s[i])
}

/// The bytes that the digit pairs of `s` stand for.
pub open spec fn hex_decoding(s: Seq<char>) -> Seq<u8> {
    Seq::new(s.len() / 2, |i: int| (hex_value(s[2 * i]) * 16 + hex_value(s[2 * i + 1])) as u8)
}

/// Relies on `hex::encode`: two lowercase digits for each byte, high nibble first.
#[verifier::external_body]
fn encode_hex(b: &[u8]) -> (r: String)
    ensures
        r@ == hex_encoding(b@),
{
    hex::encode(b)
}

/// Relies on `hex::decode`: it succeeds exactly on an even number of hex
/// digits of either case, and then gives the byte of each digit pair.
#[verifier::external_body]
fn decode_hex(s: &str) -> (r: Result<Vec<u8>, hex::FromHexError>)
    ensures
        r is Ok <==> is_hex_text(s@),
        r is Ok ==> r->Ok_0@ == hex_decoding(s@),
{
    hex::decode(s)
}

/// Why a text is not the hexadecimal form of a hash.
#[derive(Clone, Copy, Debug, PartialEq, Eq, Structural)]
pub enum HashParseError {
    /// Not an even number of hexadecimal digits.
    NotHex,
    /// Hexadecimal, but not of 32 bytes.
    WrongLength,
}

/// A 32-byte content hash.
#[derive(Clone, Copy, Debug, Eq, Hash)]
pub struct ContentHash(pub [u8; 32]);

impl View for ContentHash {
    type V = Seq<u8>;

    open spec fn view(&self) -> Seq<u8> {
        self.0@
    }
}

impl PartialEq for ContentHash {
    fn eq(&self, other: &ContentHash) -> (r: bool) {
        let mut i: usize = 0;
        while i < 32
            invariant
                0 <= i <= 32,
                forall|j: int| 0 <= j < i ==> self@[j] == other@[j],
            decreases 32 - i,
        {
            if self.0[i] != other.0[i] {
                return false;
            }
            i = i + 1;
        }
        assert(self@ =~= other@);
        true
    }
}

impl vstd::std_specs::cmp::PartialEqSpecImpl for ContentHash {
    open spec fn obeys_eq_spec() -> bool {
        true
    }

    open spec fn eq_spec(&self, other: &ContentHash) -> bool {
        self@ == other@
    }
}

impl ContentHash {
    /// Create a hash from its raw bytes.
    pub fn from_bytes(bytes: [u8; 32]) -> (r: Self)
        ensures
            r@ == bytes@,
    {
        ContentHash(bytes)
    }

    /// The hash of the given content.
    pub fn from_content(content: &[u8]) -> (r: Self)
        ensures
            r@ == sha256_of(content@),
    {
        ContentHash(sha256(content))
    }

    /// The hash as 64 lowercase hexadecimal digits.
    pub fn to_hex(&self) -> (r: String)
        ensures
            r@ == hex_encoding(self@),
    {
        encode_hex(&self.0)
    }

    /// Parse a hash from 64 hexadecimal digits of either case.
    pub fn from_hex(s: &str) -> (r: Result<Self, HashParseError>)
        ensures
            r == Err::<Self, _>(HashParseError::NotHex) <==> !is_hex_text(s@),
            r == Err::<Self, _>(HashParseError::WrongLength) <==> (is_hex_text(s@) && s@.len()
                != 64),
            r is Ok ==> r->Ok_0@ == hex_decoding(s@),
    {
        let bytes = match decode_hex(s) {
            Ok(b) => b,
            Err(_) => return Err(HashParseError::NotHex),
        };
        if bytes.len() != 32 {
            return Err(HashParseError::WrongLength);
        }
        let mut arr = [0u8; 32];
        let mut i: usize = 0;
        while i < 32
            invariant
                0 <= i <= 32,
                bytes@.len() == 32,
                forall|j: int| 0 <= j < i ==> arr@[j] == bytes@[j],
            decreases 32 - i,
        {
            arr[i] = bytes[i];
            i = i + 1;
        }
        assert(arr@ =~= bytes@);
        Ok(ContentHash(arr))
    }

    /// The raw bytes of the hash.
    pub fn as_bytes(&self) -> (r: &[u8; 32])
        ensures
            r@ == self@,
    {
        &self.0
    }
}

/// Decoding the hexadecimal form of any byte string gives the bytes back.
pub proof fn lemma_hex_round_trip(b: Seq<u8>)
    ensures
        is_hex_text(hex_encoding(b)),
        hex_decoding(hex_encoding(b)) == b,
{
    let e = hex_encoding(b);
    assert forall|n: int| 0 <= n < 16 implies is_hex_char(#[trigger] hex_digit(n)) && hex_value(
        hex_digit(n),
    ) == n by {}
    assert forall|i: int| 0 <= i < e.len() implies is_hex_char(#[trigger] e[i]) by {
        assert(0 <= b[i / 2] as int / 16 < 16);
        assert(0 <= b[i / 2] as int % 16 < 16);
    }
    assert forall|i: int| 0 <= i < b.len() implies #[trigger] hex_decoding(e)[i] == b[i] by {
        let x = b[i] as int;
        assert(2 * i / 2 == i);
        assert((2 * i + 1) / 2 == i);
        assert((2 * i) % 2 == 0);
        assert((2 * i + 1) % 2 == 1);
        assert(hex_value(hex_digit(x / 16)) == x / 16);
        assert(hex_value(hex_digit(x % 16)) == x % 16);
        assert(x / 16 * 16 + x % 16 == x);
    }
    assert(hex_decoding(e) =~= b);
}

/// Parsing the hexadecimal form of a hash gives the same hash back.
pub proof fn lemma_content_hash_hex_round_trip(h: ContentHash)
    ensures
        is_hex_text(hex_encoding(h@)),
        hex_encoding(h@).len() == 64,
        hex_decoding(hex_encoding(h@)) == h@,
{
    lemma_hex_round_trip(h@);
}

} // verus!
