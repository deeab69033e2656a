//! Player identifiers: the 36-character textual UUID of a player, and the
//! integer key by which the player is found again in the stats maps.
use vstd::prelude::*;
use vstd::utf8::{is_ascii_chars, valid_utf8};
use vstd::string::StringSliceAdditionalSpecFns;

verus! {

/// The key under which a player's stats are stored: the 36 bytes of the
/// player's UUID string, packed big-endian into four 64-bit words and one
/// 32-bit word.  The order of keys is the lexicographic order of the bytes.
pub type PlayerKey = (u64, u64, u64, u64, u32);

/// Errors of [`PlayerUuidString::from_string`].
#[derive(Debug, Clone, PartialEq, Eq)]
pub enum UuidStringError {
    /// The string holds a character outside ASCII.
    NotAscii { got: String },
    /// The string is ASCII but does not have exactly 36 characters.
    WrongLength { got: String },
}

/// `std::str::Utf8Error`, the error of a failed UTF-8 decoding.
#[verifier::external_type_specification]
#[verifier::external_body]
pub struct ExUtf8Error(std::str::Utf8Error);

/// A player's UUID in its textual form: exactly 36 bytes.
#[derive(Debug, Clone, PartialEq, Eq, Hash)]
pub struct PlayerUuidString([u8; 36]);

impl View for PlayerUuidString {
    type V = Seq<u8>;

    closed spec fn view(&self) -> Seq<u8> {
        self.0@
    }
}

/// A UUID string always holds 36 bytes.
pub broadcast proof fn lemma_uuid_len(uuid: PlayerUuidString)
    ensures
        #[trigger] uuid@.len() == 36,
{
}

/// The bytes of an ASCII character sequence.
pub open spec fn ascii_bytes(chars: Seq<char>) -> Seq<u8> {
    Seq::new(chars.len(), |i: int| chars[i] as u8)
}

/// Packs eight bytes big-endian into a word.
pub open spec fn word8(b0: u8, b1: u8, b2: u8, b3: u8, b4: u8, b5: u8, b6: u8, b7: u8) -> u64 {
    ((b0 as u64) << 56u64) | ((b1 as u64) << 48u64) | ((b2 as u64) << 40u64) | ((b3 as u64)
        << 32u64) | ((b4 as u64) << 24u64) | ((b5 as u64) << 16u64) | ((b6 as u64) << 8u64) | (
    b7 as u64)
}

/// Packs four bytes big-endian into a word.
pub open spec fn word4(b0: u8, b1: u8, b2: u8, b3: u8) -> u32 {
    ((b0 as u32) << 24u32) | ((b1 as u32) << 16u32) | ((b2 as u32) << 8u32) | (b3 as u32)
}

/// The eight bytes of `b` from `off`, packed.
pub open spec fn word_at(b: Seq<u8>, off: int) -> u64 {
    word8(b[off], b[off + 1], b[off + 2], b[off + 3], b[off + 4], b[off + 5], b[off + 6], b[off + 7])
}

/// The key of a 36-byte UUID string.
pub open spec fn key_of_bytes(b: Seq<u8>) -> PlayerKey {
    (word_at(b, 0), word_at(b, 8), word_at(b, 16), word_at(b, 24), word4(b[32], b[33], b[34], b[35]))
}

/// The `j`-th byte (big-endian) of a 64-bit word.
pub open spec fn byte_of_word(w: u64, j: int) -> u8 {
    if j == 0 {
        ((w >> 56u64) & 0xffu64) as u8
    } else if j == 1 {
        ((w >> 48u64) & 0xffu64) as u8
    } else if j == 2 {
        ((w >> 40u64) & 0xffu64) as u8
    } else if j == 3 {
        ((w >> 32u64) & 0xffu64) as u8
    } else if j == 4 {
        ((w >> 24u64) & 0xffu64) as u8
    } else if j == 5 {
        ((w >> 16u64) & 0xffu64) as u8
    } else if j == 6 {
        ((w >> 8u64) & 0xffu64) as u8
    } else {
        (w & 0xffu64) as u8
    }
}

/// The `j`-th byte (big-endian) of a 32-bit word.
pub open spec fn byte_of_word4(w: u32, j: int) -> u8 {
    if j == 0 {
        ((w >> 24u32) & 0xffu32) as u8
    } else if j == 1 {
        ((w >> 16u32) & 0xffu32) as u8
    } else if j == 2 {
        ((w >> 8u32) & 0xffu32) as u8
    } else {
        (w & 0xffu32) as u8
    }
}

/// The `i`-th byte of the UUID string that a key stands for.
pub open spec fn byte_of_key(k: PlayerKey, i: int) -> u8 {
    if i < 8 {
        byte_of_word(k.0, i)
    } else if i < 16 {
        byte_of_word(k.1, i - 8)
    } else if i < 24 {
        byte_of_word(k.2, i - 16)
    } else if i < 32 {
        byte_of_word(k.3, i - 24)
    } else {
        byte_of_word4(k.4, i - 32)
    }
}

/// The 36 bytes of the UUID string that a key stands for.
pub open spec fn bytes_of_key(k: PlayerKey) -> Seq<u8> {
    Seq::new(36, |i: int| byte_of_key(k, i))
}

proof fn lemma_word8_bytes(b0: u8, b1: u8, b2: u8, b3: u8, b4: u8, b5: u8, b6: u8, b7: u8)
    ensures
        byte_of_word(word8(b0, b1, b2, b3, b4, b5, b6, b7), 0) == b0,
        byte_of_word(word8(b0, b1, b2, b3, b4, b5, b6, b7), 1) == b1,
        byte_of_word(word8(b0, b1, b2, b3, b4, b5, b6, b7), 2) == b2,
        byte_of_word(word8(b0, b1, b2, b3, b4, b5, b6, b7), 3) == b3,
        byte_of_word(word8(b0, b1, b2, b3, b4, b5, b6, b7), 4) == b4,
        byte_of_word(word8(b0, b1, b2, b3, b4, b5, b6, b7), 5) == b5,
        byte_of_word(word8(b0, b1, b2, b3, b4, b5, b6, b7), 6) == b6,
        byte_of_word(word8(b0, b1, b2, b3, b4, b5, b6, b7), 7) == b7,
{
    let w = word8(b0, b1, b2, b3, b4, b5, b6, b7);
    assert(((w >> 56u64) & 0xffu64) as u8 == b0 && ((w >> 48u64) & 0xffu64) as u8 == b1 && ((w
        >> 40u64) & 0xffu64) as u8 == b2 && ((w >> 32u64) & 0xffu64) as u8 == b3 && ((w >> 24u64)
        & 0xffu64) as u8 == b4 && ((w >> 16u64) & 0xffu64) as u8 == b5 && ((w >> 8u64) & 0xffu64)
        as u8 == b6 && (w & 0xffu64) as u8 == b7) by (bit_vector)
        requires
            w == ((b0 as u64) << 56u64) | ((b1 as u64) << 48u64) | ((b2 as u64) << 40u64) | ((
            b3 as u64) << 32u64) | ((b4 as u64) << 24u64) | ((b5 as u64) << 16u64) | ((b6 as u64)
                << 8u64) | (b7 as u64),
    ;
}

proof fn lemma_word4_bytes(b0: u8, b1: u8, b2: u8, b3: u8)
    ensures
        byte_of_word4(word4(b0, b1, b2, b3), 0) == b0,
        byte_of_word4(word4(b0, b1, b2, b3), 1) == b1,
        byte_of_word4(word4(b0, b1, b2, b3), 2) == b2,
        byte_of_word4(word4(b0, b1, b2, b3), 3) == b3,
{
    let w = word4(b0, b1, b2, b3);
    assert(((w >> 24u32) & 0xffu32) as u8 == b0 && ((w >> 16u32) & 0xffu32) as u8 == b1 && ((w
        >> 8u32) & 0xffu32) as u8 == b2 && (w & 0xffu32) as u8 == b3) by (bit_vector)
        requires
            w == ((b0 as u32) << 24u32) | ((b1 as u32) << 16u32) | ((b2 as u32) << 8u32) | (
            b3 as u32),
    ;
}

proof fn lemma_word8_of_bytes(w: u64)
    ensures
        word8(
            byte_of_word(w, 0),
            byte_of_word(w, 1),
            byte_of_word(w, 2),
            byte_of_word(w, 3),
            byte_of_word(w, 4),
            byte_of_word(w, 5),
            byte_of_word(w, 6),
            byte_of_word(w, 7),
        ) == w,
{
    assert(((((w >> 56u64) & 0xffu64) as u8 as u64) << 56u64) | ((((w >> 48u64) & 0xffu64) as u8
        as u64) << 48u64) | ((((w >> 40u64) & 0xffu64) as u8 as u64) << 40u64) | ((((w >> 32u64)
        & 0xffu64) as u8 as u64) << 32u64) | ((((w >> 24u64) & 0xffu64) as u8 as u64) << 24u64) | (
    (((w >> 16u64) & 0xffu64) as u8 as u64) << 16u64) | ((((w >> 8u64) & 0xffu64) as u8 as u64)
        << 8u64) | ((w & 0xffu64) as u8 as u64) == w) by (bit_vector);
}

proof fn lemma_word4_of_bytes(w: u32)
    ensures
        word4(byte_of_word4(w, 0), byte_of_word4(w, 1), byte_of_word4(w, 2), byte_of_word4(w, 3))
            == w,
{
    assert(((((w >> 24u32) & 0xffu32) as u8 as u32) << 24u32) | ((((w >> 16u32) & 0xffu32) as u8
        as u32) << 16u32) | ((((w >> 8u32) & 0xffu32) as u8 as u32) << 8u32) | ((w & 0xffu32) as u8
        as u32) == w) by (bit_vector);
}

/// Unpacking the key of a 36-byte string gives the string back.
pub proof fn lemma_bytes_of_key_of_bytes(b: Seq<u8>)
    requires
        b.len() == 36,
    ensures
        bytes_of_key(key_of_bytes(b)) == b,
{
    lemma_word8_bytes(b[0], b[1], b[2], b[3], b[4], b[5], b[6], b[7]);
    lemma_word8_bytes(b[8], b[9], b[10], b[11], b[12], b[13], b[14], b[15]);
    lemma_word8_bytes(b[16], b[17], b[18], b[19], b[20], b[21], b[22], b[23]);
    lemma_word8_bytes(b[24], b[25], b[26], b[27], b[28], b[29], b[30], b[31]);
    lemma_word4_bytes(b[32], b[33], b[34], b[35]);
    assert(bytes_of_key(key_of_bytes(b)) =~= b);
}

/// Packing the bytes that a key stands for gives the key back.
pub proof fn lemma_key_of_bytes_of_key(k: PlayerKey)
    ensures
        key_of_bytes(bytes_of_key(k)) == k,
{
    lemma_word8_of_bytes(k.0);
    lemma_word8_of_bytes(k.1);
    lemma_word8_of_bytes(k.2);
    lemma_word8_of_bytes(k.3);
    lemma_word4_of_bytes(k.4);
}

/// Two UUID strings have the same key exactly when they hold the same bytes.
pub proof fn lemma_key_injective(a: Seq<u8>, b: Seq<u8>)
    requires
        a.len() == 36,
        b.len() == 36,
    ensures
        (key_of_bytes(a) == key_of_bytes(b)) <==> (a == b),
{
    lemma_bytes_of_key_of_bytes(a);
    lemma_bytes_of_key_of_bytes(b);
}

fn pack8(b: &[u8; 36], off: usize) -> (w: u64)
    requires
        off + 8 <= 36,
    ensures
        w == word_at(b@, off as int),
{
    ((b[off] as u64) << 56u64) | ((b[off + 1] as u64) << 48u64) | ((b[off + 2] as u64) << 40u64)
        | ((b[off + 3] as u64) << 32u64) | ((b[off + 4] as u64) << 24u64) | ((b[off + 5] as u64)
        << 16u64) | ((b[off + 6] as u64) << 8u64) | (b[off + 7] as u64)
}

fn unpack8(w: u64, out: &mut [u8; 36], off: usize)
    requires
        off + 8 <= 36,
    ensures
        forall|i: int| 0 <= i < 36 && !(off <= i < off + 8) ==> final(out)@[i] == old(out)@[i],
        forall|j: int| 0 <= j < 8 ==> #[trigger] final(out)@[off + j] == byte_of_word(w, j),
{
    out[off] = ((w >> 56u64) & 0xffu64) as u8;
    out[off + 1] = ((w >> 48u64) & 0xffu64) as u8;
    out[off + 2] = ((w >> 40u64) & 0xffu64) as u8;
    out[off + 3] = ((w >> 32u64) & 0xffu64) as u8;
    out[off + 4] = ((w >> 24u64) & 0xffu64) as u8;
    out[off + 5] = ((w >> 16u64) & 0xffu64) as u8;
    out[off + 6] = ((w >> 8u64) & 0xffu64) as u8;
    out[off + 7] = (w & 0xffu64) as u8;
}

/// `std::str::from_utf8`: it succeeds exactly when the bytes are valid UTF-8,
/// and then returns the string slice made of those same bytes.
#[verifier::external_body]
fn str_from_utf8(bytes: &[u8]) -> (r: Result<&str, std::str::Utf8Error>)
    ensures
        r is Ok <==> valid_utf8(bytes@),
        r matches Ok(s) ==> s.spec_bytes() == bytes@,
{
    std::str::from_utf8(bytes)
}

impl PlayerUuidString {
    /// The UUID as a string slice; fails when its bytes are not valid UTF-8.
    pub fn as_str(&self) -> (r: Result<&str, std::str::Utf8Error>)
        ensures
            r is Ok <==> valid_utf8(self@),
            r matches Ok(s) ==> s.spec_bytes() == self@,
    {
        str_from_utf8(self.0.as_slice())
    }

    /// Takes a string of exactly 36 ASCII characters as a UUID string.
    pub fn from_string(str: &String) -> (r: Result<Self, UuidStringError>)
        ensures
            !is_ascii_chars(str@) ==> r == (Err::<Self, UuidStringError>(
                UuidStringError::NotAscii { got: *str },
            )),
            is_ascii_chars(str@) && str@.len() != 36 ==> r == (Err::<Self, UuidStringError>(
                UuidStringError::WrongLength { got: *str },
            )),
            is_ascii_chars(str@) && str@.len() == 36 ==> (r matches Ok(uuid) && uuid@ == ascii_bytes(
                str@,
            )),
    {
        if !str.is_ascii() {
            Err(UuidStringError::NotAscii { got: str.clone() })
        } else {
            let s = str.as_str();
            let bytes = s.as_bytes();
            proof {
                vstd::string::is_ascii_spec_bytes(s);
            }
            if bytes.len() != 36 {
                Err(UuidStringError::WrongLength { got: str.clone() })
            } else {
                let mut result: [u8; 36] = [0u8; 36];
                let mut i: usize = 0;
                while i < 36
                    invariant
                        0 <= i <= 36,
                        bytes@.len() == 36,
                        bytes@ == ascii_bytes(str@),
                        forall|j: int| 0 <= j < i ==> result@[j] == bytes@[j],
                    decreases 36 - i,
                {
                    result[i] = bytes[i];
                    i += 1;
                }
                assert(result@ =~= ascii_bytes(str@));
                Ok(PlayerUuidString(result))
            }
        }
    }

    /// The key under which this player's stats are stored.
    pub fn key(&self) -> (k: PlayerKey)
        ensures
            k == key_of_bytes(self@),
    {
        (
            pack8(&self.0, 0),
            pack8(&self.0, 8),
            pack8(&self.0, 16),
            pack8(&self.0, 24),
            ((self.0[32] as u32) << 24u32) | ((self.0[33] as u32) << 16u32) | ((self.0[34] as u32)
                << 8u32) | (self.0[35] as u32),
        )
    }

    /// The UUID string that a key stands for.
    pub fn from_key(k: PlayerKey) -> (uuid: Self)
        ensures
            uuid@ == bytes_of_key(k),
            key_of_bytes(uuid@) == k,
    {
        let mut b: [u8; 36] = [0u8; 36];
        unpack8(k.0, &mut b, 0);
        unpack8(k.1, &mut b, 8);
        unpack8(k.2, &mut b, 16);
        unpack8(k.3, &mut b, 24);
        let w = k.4;
        b[32] = ((w >> 24u32) & 0xffu32) as u8;
        b[33] = ((w >> 16u32) & 0xffu32) as u8;
        b[34] = ((w >> 8u32) & 0xffu32) as u8;
        b[35] = (w & 0xffu32) as u8;
        proof {
            assert forall|i: int| 0 <= i < 36 implies b@[i] == byte_of_key(k, i) by {
                if i < 8 {
                    assert(b@[0 + i] == byte_of_word(k.0, i));
                } else if i < 16 {
                    assert(b@[8 + (i - 8)] == byte_of_word(k.1, i - 8));
                } else if i < 24 {
                    assert(b@[16 + (i - 16)] == byte_of_word(k.2, i - 16));
                } else if i < 32 {
                    assert(b@[24 + (i - 24)] == byte_of_word(k.3, i - 24));
                }
            }
            assert(b@ =~= bytes_of_key(k));
            lemma_key_of_bytes_of_key(k);
        }
        PlayerUuidString(b)
    }
}

/// An ASCII string of 36 characters, taken as a UUID string and read back,
/// is the same string: its bytes are valid UTF-8 and they are the string's
/// own bytes.
pub proof fn lemma_uuid_string_round_trip(s: &str, uuid: PlayerUuidString)
    requires
        is_ascii_chars(s@),
        uuid@ == ascii_bytes(s@),
    ensures
        valid_utf8(uuid@),
        s.spec_bytes() == uuid@,
{
    vstd::string::is_ascii_spec_bytes(s);
    vstd::utf8::encode_utf8_valid_utf8(s@);
    assert(s.spec_bytes() =~= uuid@);
}

/// A player of the server.
#[derive(Debug, Clone, PartialEq, Eq, Hash)]
pub struct Player {
    pub uuid: PlayerUuidString,
}

impl Player {
    /// The key under which this player's stats are stored.
    pub fn key(&self) -> (k: PlayerKey)
        ensures
            k == key_of_bytes(self.uuid@),
    {
        self.uuid.key()
    }
}

/// A player's break count.
#[derive(Debug, Clone)]
pub struct PlayerBreakCount {
    pub player: Player,
    pub break_count: u64,
}

/// A player's build count.
#[derive(Debug, Clone)]
pub struct PlayerBuildCount {
    pub player: Player,
    pub build_count: u64,
}

/// A player's play ticks.
#[derive(Debug, Clone)]
pub struct PlayerPlayTicks {
    pub player: Player,
    pub play_ticks: u64,
}

/// A player's vote count.
#[derive(Debug, Clone)]
pub struct PlayerVoteCount {
    pub player: Player,
    pub vote_count: u64,
}

} // verus!
