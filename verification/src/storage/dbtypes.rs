//! Types stored in the tables that are not specific to one of them.

use crate::storage::bytes::{
    be_u128, be_value, be_value16, lemma_be_u128_order, lemma_be_u128_value,
    lemma_u128_round_trip, two_64, u128_from_be, u128_to_be,
};
use crate::storage::table::TableKey;
use vstd::prelude::*;
use vstd::slice::slice_to_vec;
use vstd::string::{StringExecFns, StringExecFnsIsAscii, StringSliceAdditionalSpecFns};

verus! {

/// 64-bit UTC unix timestamp.
pub type UtcTimestamp = u64;

/// Virtual address in the address space of an object file, or a line number
/// for an interpreted frame.
pub type VirtAddr = u64;

/// Globally unique identifier of an executable: 128 bits.
///
/// The value zero is kept for frames that belong to no executable.
#[derive(Debug, PartialEq, Eq, Hash, Clone, Copy, Structural)]
pub struct FileId(pub u128);

/// The value of a hexadecimal digit, of either case.
pub open spec fn hex_digit(b: u8) -> Option<nat> {
    if 0x30 <= b <= 0x39 {
        Some((b - 0x30) as nat)
    } else if 0x61 <= b <= 0x66 {
        Some((b - 0x61 + 10) as nat)
    } else if 0x41 <= b <= 0x46 {
        Some((b - 0x41 + 10) as nat)
    } else {
        None
    }
}

/// Whether a text holds hexadecimal digits and nothing else.
pub open spec fn is_hex(text: Seq<u8>) -> bool {
    forall|i: int| 0 <= i < text.len() ==> (#[trigger] hex_digit(text[i])).is_some()
}

/// The number that a text of hexadecimal digits spells.
pub open spec fn hex_value(text: Seq<u8>) -> nat
    decreases text.len(),
{
    if text.len() == 0 {
        0
    } else {
        16 * hex_value(text.drop_last()) + match hex_digit(text.last()) {
            Some(d) => d,
            None => 0,
        }
    }
}

/// What URL-safe base64 without padding decodes a text to; `None` where the
/// text is no such encoding.
pub uninterp spec fn base64url_decoded(text: Seq<u8>) -> Option<Seq<u8>>;

/// The URL-safe base64 encoding, without padding, of sixteen bytes.
pub uninterp spec fn base64url_encoded(bytes: Seq<u8>) -> Seq<char>;

/// Decodes URL-safe base64 without padding: `Engine::decode` of the `base64`
/// crate on its `URL_SAFE_NO_PAD` engine. The decoder's verdict and bytes are
/// taken as they come; nothing is claimed of them but that they depend on
/// the text alone.
#[verifier::external_body]
fn base64url_decode(text: &[u8]) -> (bytes: Option<Vec<u8>>)
    ensures
        bytes.is_some() == base64url_decoded(text@).is_some(),
        bytes.is_some() ==> bytes.unwrap()@ == base64url_decoded(text@).unwrap(),
{
    base64::Engine::decode(&base64::engine::general_purpose::URL_SAFE_NO_PAD, text).ok()
}

/// Encodes sixteen bytes as URL-safe base64 without padding: `Engine::encode`
/// of the `base64` crate on its `URL_SAFE_NO_PAD` engine. Sixteen bytes
/// give 22 characters, all of them letters, digits, `-` or `_`.
#[verifier::external_body]
fn base64url_encode(bytes: &[u8; 16]) -> (text: String)
    ensures
        text@ == base64url_encoded(bytes@),
        text@.len() == 22,
        text.is_ascii(),
{
    base64::Engine::encode(&base64::engine::general_purpose::URL_SAFE_NO_PAD, bytes)
}

proof fn lemma_hex_prefix(text: Seq<u8>, j: int)
    requires
        0 <= j <= text.len(),
    ensures
        hex_value(text.take(j)) <= hex_value(text),
    decreases text.len() - j,
{
    if j == text.len() {
        assert(text.take(j) =~= text);
    } else {
        lemma_hex_prefix(text, j + 1);
        assert(text.take(j + 1).drop_last() =~= text.take(j));
    }
}

/// The lower-case hexadecimal digit of a number below sixteen.
pub open spec fn hex_char(nibble: int) -> char {
    if nibble == 0 {
        '0'
    } else if nibble == 1 {
        '1'
    } else if nibble == 2 {
        '2'
    } else if nibble == 3 {
        '3'
    } else if nibble == 4 {
        '4'
    } else if nibble == 5 {
        '5'
    } else if nibble == 6 {
        '6'
    } else if nibble == 7 {
        '7'
    } else if nibble == 8 {
        '8'
    } else if nibble == 9 {
        '9'
    } else if nibble == 10 {
        'a'
    } else if nibble == 11 {
        'b'
    } else if nibble == 12 {
        'c'
    } else if nibble == 13 {
        'd'
    } else if nibble == 14 {
        'e'
    } else {
        'f'
    }
}

/// The bytes of a string written as lower-case hexadecimal digits, two to
/// the byte.
pub open spec fn hex_text(bytes: Seq<u8>) -> Seq<char> {
    Seq::new(
        2 * bytes.len(),
        |i: int|
            if i % 2 == 0 {
                hex_char(bytes[i / 2] as int / 16)
            } else {
                hex_char(bytes[i / 2] as int % 16)
            },
    )
}

fn hex_str(nibble: u8) -> (text: &'static str)
    requires
        nibble < 16,
    ensures
        text@ == seq![hex_char(nibble as int)],
{
    proof {
        reveal_strlit("0");
        reveal_strlit("1");
        reveal_strlit("2");
        reveal_strlit("3");
        reveal_strlit("4");
        reveal_strlit("5");
        reveal_strlit("6");
        reveal_strlit("7");
        reveal_strlit("8");
        reveal_strlit("9");
        reveal_strlit("a");
        reveal_strlit("b");
        reveal_strlit("c");
        reveal_strlit("d");
        reveal_strlit("e");
        reveal_strlit("f");
    }
    let text = match nibble {
        0 => "0",
        1 => "1",
        2 => "2",
        3 => "3",
        4 => "4",
        5 => "5",
        6 => "6",
        7 => "7",
        8 => "8",
        9 => "9",
        10 => "a",
        11 => "b",
        12 => "c",
        13 => "d",
        14 => "e",
        _ => "f",
    };
    assert(text@ =~= seq![hex_char(nibble as int)]);
    text
}

/// Writes bytes as lower-case hexadecimal digits.
pub fn format_hex_bytes(bytes: &[u8]) -> (text: String)
    ensures
        text@ == hex_text(bytes@),
{
    let mut text = String::new();
    let mut i: usize = 0;
    while i < bytes.len()
        invariant
            i <= bytes.len(),
            text@ == hex_text(bytes@.take(i as int)),
        decreases bytes.len() - i,
    {
        let b = bytes[i];
        let before = Ghost(text@);
        text.append(hex_str(b / 16));
        text.append(hex_str(b % 16));
        assert(text@ =~= hex_text(bytes@.take(i + 1))) by {
            let t = bytes@.take(i + 1);
            assert(bytes@.take(i as int) =~= t.take(i as int));
            assert(text@ == before@ + seq![hex_char(b as int / 16)] + seq![hex_char(b as int % 16)]);
            assert forall|k: int| 0 <= k < 2 * (i + 1) implies text@[k] == hex_text(t)[k] by {
                if k < 2 * i {
                    assert(text@[k] == hex_text(bytes@.take(i as int))[k]);
                    assert(bytes@.take(i as int)[k / 2] == t[k / 2]);
                }
            }
        }
        i += 1;
    }
    assert(bytes@.take(bytes.len() as int) =~= bytes@);
    text
}

/// The bytes of a text of hexadecimal digits, as it lies in memory.
pub open spec fn hex_bytes(bytes: Seq<u8>) -> Seq<u8> {
    Seq::new(hex_text(bytes).len(), |i: int| hex_text(bytes)[i] as u8)
}

proof fn lemma_hex_char(n: int)
    requires
        0 <= n < 16,
    ensures
        hex_digit(hex_char(n) as u8) == Some(n as nat),
        '\0' <= hex_char(n) <= '\u{7f}',
{
}

proof fn lemma_hex_bytes_value(bytes: Seq<u8>)
    ensures
        is_hex(hex_bytes(bytes)),
        hex_value(hex_bytes(bytes)) == be_value(bytes),
        hex_bytes(bytes).len() == 2 * bytes.len(),
    decreases bytes.len(),
{
    let text = hex_bytes(bytes);
    assert forall|i: int| 0 <= i < text.len() implies (#[trigger] hex_digit(text[i])).is_some() by {
        lemma_hex_char(bytes[i / 2] as int / 16);
        lemma_hex_char(bytes[i / 2] as int % 16);
    }
    if bytes.len() > 0 {
        let rest = bytes.drop_last();
        let b = bytes.last();
        lemma_hex_bytes_value(rest);
        lemma_hex_char(b as int / 16);
        lemma_hex_char(b as int % 16);
        let n = text.len() as int;
        assert(text.drop_last().drop_last() =~= hex_bytes(rest)) by {
            assert forall|i: int| 0 <= i < n - 2 implies text[i] == hex_bytes(rest)[i] by {
                assert(bytes[i / 2] == rest[i / 2]);
            }
        }
        assert(text.last() == hex_char(b as int % 16) as u8);
        assert(text.drop_last().last() == hex_char(b as int / 16) as u8);
        assert(hex_value(text) == 16 * hex_value(text.drop_last()) + b as int % 16);
        assert(hex_value(text.drop_last()) == 16 * hex_value(text.drop_last().drop_last()) + b as int
            / 16);
    }
}

/// A file id that is written in hexadecimal digits is read back from them.
pub proof fn lemma_hex_form_round_trip(id: FileId)
    ensures
        vstd::utf8::encode_utf8(hex_text(be_u128(id.0))) == hex_bytes(be_u128(id.0)),
        FileId::parse_hex_spec(vstd::utf8::encode_utf8(hex_text(be_u128(id.0)))) == Some(id),
{
    let bytes = be_u128(id.0);
    let chars = hex_text(bytes);
    lemma_u128_round_trip(id.0);
    assert(vstd::utf8::is_ascii_chars(chars)) by {
        assert forall|i: int| 0 <= i < chars.len() implies '\0' <= #[trigger] chars[i]
            <= '\u{7f}' by {
            lemma_hex_char(bytes[i / 2] as int / 16);
            lemma_hex_char(bytes[i / 2] as int % 16);
        }
    }
    vstd::utf8::is_ascii_chars_encode_utf8(chars);
    assert(vstd::utf8::encode_utf8(chars) =~= hex_bytes(bytes));
    lemma_hex_bytes_value(bytes);
    lemma_be_u128_value(id.0);
}

impl FileId {
    /// Constructs the identifier from its upper and lower half.
    pub fn from_parts(hi: u64, lo: u64) -> (id: FileId)
        ensures
            id.0 == hi as int * two_64() + lo as int,
    {
        FileId((hi as u128) * 0x1_0000_0000_0000_0000 + (lo as u128))
    }

    /// The identifier that a hexadecimal text names: the text holds at least
    /// one digit, nothing but digits, and spells a number of 128 bits.
    pub open spec fn parse_hex_spec(text: Seq<u8>) -> Option<FileId> {
        if text.len() >= 1 && is_hex(text) && hex_value(text) <= u128::MAX {
            Some(FileId(hex_value(text) as u128))
        } else {
            None
        }
    }

    /// The identifier that a text in the hyphen-and-underscore base64 form
    /// names: the text decodes to exactly sixteen bytes, most significant
    /// first.
    pub open spec fn parse_es_spec(text: Seq<u8>) -> Option<FileId> {
        match base64url_decoded(text) {
            Some(bytes) => if bytes.len() == 16 {
                Some(FileId(be_value16(bytes) as u128))
            } else {
                None
            },
            None => None,
        }
    }

    /// The identifier that a build id names: read in the base64 form, and in
    /// the hexadecimal form where that fails.
    pub open spec fn parse_spec(text: Seq<u8>) -> Option<FileId> {
        match FileId::parse_es_spec(text) {
            Some(id) => Some(id),
            None => FileId::parse_hex_spec(text),
        }
    }

    /// Reads the hexadecimal form from the bytes of a text.
    pub fn try_parse_hex_bytes(text: &[u8]) -> (id: Option<FileId>)
        ensures
            id == FileId::parse_hex_spec(text@),
    {
        if text.len() == 0 {
            return None;
        }
        let mut value: u128 = 0;
        let mut i: usize = 0;
        while i < text.len()
            invariant
                i <= text.len(),
                value == hex_value(text@.take(i as int)),
                is_hex(text@.take(i as int)),
            decreases text.len() - i,
        {
            let b = text[i];
            let digit: u128 = if 0x30 <= b && b <= 0x39 {
                (b - 0x30) as u128
            } else if 0x61 <= b && b <= 0x66 {
                (b - 0x61 + 10) as u128
            } else if 0x41 <= b && b <= 0x46 {
                (b - 0x41 + 10) as u128
            } else {
                assert(!is_hex(text@)) by {
                    assert(hex_digit(text@[i as int]).is_none());
                }
                return None;
            };
            proof {
                assert(text@.take(i + 1).drop_last() =~= text@.take(i as int));
                assert(is_hex(text@.take(i + 1))) by {
                    assert forall|k: int| 0 <= k < i + 1 implies (#[trigger] hex_digit(
                        text@.take(i + 1)[k],
                    )).is_some() by {
                        if k < i {
                            assert(text@.take(i as int)[k] == text@.take(i + 1)[k]);
                        }
                    }
                }
                lemma_hex_prefix(text@, i + 1);
            }
            if value > (u128::MAX - digit) / 16 {
                return None;
            }
            value = value * 16 + digit;
            i += 1;
        }
        assert(text@.take(text.len() as int) =~= text@);
        Some(FileId(value))
    }

    /// Reads the hexadecimal form.
    pub fn try_parse_hex(text: &str) -> (id: Option<FileId>)
        ensures
            id == FileId::parse_hex_spec(text.spec_bytes()),
    {
        FileId::try_parse_hex_bytes(text.as_bytes())
    }

    /// Reads the base64 form from the bytes of a text.
    pub fn try_parse_es_bytes(text: &[u8]) -> (id: Option<FileId>)
        ensures
            id == FileId::parse_es_spec(text@),
    {
        match base64url_decode(text) {
            Some(bytes) => {
                if bytes.len() != 16 {
                    return None;
                }
                let raw: [u8; 16] = [
                    bytes[0], bytes[1], bytes[2], bytes[3], bytes[4], bytes[5], bytes[6], bytes[7],
                    bytes[8], bytes[9], bytes[10], bytes[11], bytes[12], bytes[13], bytes[14],
                    bytes[15],
                ];
                assert(raw@ =~= bytes@);
                Some(FileId(u128_from_be(&raw)))
            },
            None => None,
        }
    }

    /// Reads the base64 form.
    pub fn try_parse_es(text: &str) -> (id: Option<FileId>)
        ensures
            id == FileId::parse_es_spec(text.spec_bytes()),
    {
        FileId::try_parse_es_bytes(text.as_bytes())
    }

    /// Reads a build id: in the base64 form, and in the hexadecimal form
    /// where that fails.
    pub fn parse_bytes(text: &[u8]) -> (id: Option<FileId>)
        ensures
            id == FileId::parse_spec(text@),
    {
        match FileId::try_parse_es_bytes(text) {
            Some(id) => Some(id),
            None => FileId::try_parse_hex_bytes(text),
        }
    }

    /// The hexadecimal form: 32 lower-case digits, most significant first.
    pub fn format_hex(self) -> (text: String)
        ensures
            text@ == hex_text(be_u128(self.0)),
    {
        let raw = u128_to_be(self.0);
        format_hex_bytes(raw.as_slice())
    }

    /// The base64 form of the sixteen bytes, most significant first.
    pub fn format_es(self) -> (text: String)
        ensures
            text@ == base64url_encoded(be_u128(self.0)),
            text@.len() == 22,
            text.is_ascii(),
    {
        let raw = u128_to_be(self.0);
        base64url_encode(&raw)
    }
}

impl TableKey for FileId {
    type B = [u8; 16];

    open spec fn width() -> nat {
        16
    }

    open spec fn raw_view(raw: [u8; 16]) -> Seq<u8> {
        raw@
    }

    open spec fn encoding(self) -> Seq<u8> {
        be_u128(self.0)
    }

    open spec fn decoding(bytes: Seq<u8>) -> FileId {
        FileId(be_value16(bytes) as u128)
    }

    open spec fn storable(self) -> bool {
        true
    }

    open spec fn key_le(self, other: FileId) -> bool {
        self.0 <= other.0
    }

    fn from_raw(data: [u8; 16]) -> (key: FileId) {
        FileId(u128_from_be(&data))
    }

    fn into_raw(self) -> (raw: [u8; 16]) {
        proof {
            lemma_u128_round_trip(self.0);
        }
        u128_to_be(self.0)
    }

    fn to_bytes(self) -> (bytes: Vec<u8>) {
        let raw = self.into_raw();
        slice_to_vec(raw.as_slice())
    }

    fn precedes(self, other: FileId) -> (r: bool) {
        self.0 <= other.0
    }

    proof fn lemma_round_trip(self) {
        lemma_u128_round_trip(self.0);
    }

    proof fn lemma_key_order(self, other: FileId) {
        lemma_be_u128_order(self.0, other.0);
    }
}

/// The form in which a [`FileId`] lies inside a stored value: its 128 bits
/// as one integer.
#[derive(Debug, PartialEq, Eq, Hash, Clone, Copy, Structural)]
pub struct RkyvFileId(u128);

impl RkyvFileId {
    /// The bits of the identifier.
    pub closed spec fn bits(self) -> u128 {
        self.0
    }

    /// The stored form of `id`.
    pub fn store(id: FileId) -> (stored: RkyvFileId)
        ensures
            stored.bits() == id.0,
    {
        RkyvFileId(id.0)
    }

    /// The identifier that was stored.
    pub fn load(self) -> (id: FileId)
        ensures
            id.0 == self.bits(),
    {
        FileId(self.0)
    }
}

impl Default for RkyvFileId {
    fn default() -> (stored: RkyvFileId)
        ensures
            stored.bits() == 0,
    {
        RkyvFileId(0)
    }
}

} // verus!
