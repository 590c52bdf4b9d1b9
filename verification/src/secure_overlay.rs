//! The content key and the content validator of the secure overlay network.

use vstd::prelude::*;
use crate::hex_text;
use crate::hex_text::hex_digits;

verus! {

/// The error of the SSZ decoder.
#[verifier::external_type_specification]
#[verifier::external_body]
pub struct ExDecodeError(ssz::DecodeError);

/// The SSZ form of a 32-byte array, from `ssz::Encode::as_ssz_bytes`: the bytes themselves.
#[verifier::external_body]
fn ssz_encode_array(array: &[u8; 32]) -> (bytes: Vec<u8>)
    ensures
        bytes@ == array@,
{
    ssz::Encode::as_ssz_bytes(array)
}

/// A 32-byte array from its SSZ form, from `ssz::Decode::from_ssz_bytes`: any 32 bytes are the
/// array of those bytes, and any other length is an error.
#[verifier::external_body]
fn ssz_decode_array(bytes: &[u8]) -> (array: Result<[u8; 32], ssz::DecodeError>)
    ensures
        array is Ok <==> bytes@.len() == 32,
        array matches Ok(a) ==> a@ == bytes@,
{
    ssz::Decode::from_ssz_bytes(bytes)
}

/// The selector and the body of an SSZ union, from `ssz::split_union_bytes`: the first byte and
/// the bytes after it. Empty input, and a selector above 127, are errors.
#[verifier::external_body]
fn ssz_split_union(bytes: &[u8]) -> (parts: Result<(u8, Vec<u8>), ssz::DecodeError>)
    ensures
        parts is Ok == (0 < bytes@.len() && bytes@[0] <= 127),
        parts is Ok ==> (parts->Ok_0).0 == bytes@[0] && (parts->Ok_0).1@ == bytes@.skip(1),
{
    match ssz::split_union_bytes(bytes) {
        Ok((selector, body)) => Ok((selector.into(), body.to_vec())),
        Err(error) => Err(error),
    }
}

/// A content key in the secure overlay network.
#[derive(Clone, Debug, PartialEq)]
pub enum SecureDASContentKey {
    Sample([u8; 32]),
}

impl SecureDASContentKey {
    /// The encoded form: the selector of the variant, then its bytes.
    pub open spec fn encoded(self) -> Seq<u8> {
        match self {
            SecureDASContentKey::Sample(b) => seq![0u8] + b@,
        }
    }

    /// The identifier of the content in the keyspace.
    pub open spec fn id(self) -> [u8; 32] {
        match self {
            SecureDASContentKey::Sample(b) => b,
        }
    }

    /// Whether `bytes` are the encoded form of some content key.
    pub open spec fn is_encoding(bytes: Seq<u8>) -> bool {
        bytes.len() == 33 && bytes[0] == 0
    }

    /// Encodes the key as an SSZ union.
    pub fn into(self) -> (bytes: Vec<u8>)
        ensures
            bytes@ == self.encoded(),
    {
        match self {
            SecureDASContentKey::Sample(b) => {
                let mut bytes: Vec<u8> = Vec::new();
                bytes.push(0);
                let mut body: Vec<u8> = ssz_encode_array(&b);
                bytes.append(&mut body);
                bytes
            },
        }
    }

    /// Decodes a key from an SSZ union.
    pub fn try_from(value: Vec<u8>) -> (key: Result<Self, &'static str>)
        ensures
            key is Ok <==> Self::is_encoding(value@),
            key matches Ok(k) ==> k.encoded() == value@,
            key matches Err(e) ==> e@ == "Unable to decode SSZ"@,
    {
        match ssz_split_union(value.as_slice()) {
            Ok((selector, body)) => {
                if selector != 0 {
                    return Err("Unable to decode SSZ");
                }
                match ssz_decode_array(body.as_slice()) {
                    Ok(b) => {
                        let key = SecureDASContentKey::Sample(b);
                        assert(key.encoded() =~= value@);
                        Ok(key)
                    },
                    Err(_) => Err("Unable to decode SSZ"),
                }
            },
            Err(_) => Err("Unable to decode SSZ"),
        }
    }

    /// The key in words.
    pub fn to_string(&self) -> (text: String)
        ensures
            text@ == "sample: "@ + hex_digits(self.id()@, 'a'),
    {
        match self {
            SecureDASContentKey::Sample(b) => {
                let mut text: String = String::from_str("sample: ");
                let digits: String = hex_text::encode(b);
                text.append(digits.as_str());
                text
            },
        }
    }

    /// The identifier of the content that the key names.
    pub fn content_id(&self) -> (id: [u8; 32])
        ensures
            id == self.id(),
    {
        match self {
            SecureDASContentKey::Sample(b) => *b,
        }
    }

    /// A key is read back from its encoded form, and from nothing else: the encoded forms of two
    /// keys are the same only if the keys are.
    pub proof fn lemma_encoding_round_trip(self, other: Self)
        ensures
            Self::is_encoding(self.encoded()),
            self.encoded() == other.encoded() ==> self == other,
            self.encoded().skip(1) == self.id()@,
    {
        let a = self.id();
        let b = other.id();
        assert(self.encoded().skip(1) =~= a@);
        if self.encoded() == other.encoded() {
            assert(other.encoded().skip(1) =~= b@);
            assert(a =~= b);
        }
    }
}

/// The validator of the secure overlay network.
pub struct SecureDASValidator;

impl SecureDASValidator {
    /// Accepts any content under a sample key.
    pub fn validate_content(&self, content_key: &SecureDASContentKey, content: &[u8]) -> (verdict:
        Result<(), String>)
        ensures
            verdict is Ok,
    {
        match content_key {
            SecureDASContentKey::Sample(_) => Ok(()),
        }
    }
}

/// The encoded form of a content key is a zero byte and the 32 bytes of its identifier, and all such
/// bytes are the encoded form of some key.
pub proof fn lemma_content_key_layout(key: SecureDASContentKey, bytes: Seq<u8>)
    ensures
        key.encoded().len() == 33,
        key.encoded()[0] == 0,
        forall|i: int| 0 <= i < 32 ==> key.encoded()[i + 1] == #[trigger] key.id()@[i],
        key matches SecureDASContentKey::Sample(id) ==> key.id() == id,
        SecureDASContentKey::is_encoding(bytes) <==> bytes.len() == 33 && bytes[0] == 0,
{
}

} // verus!
