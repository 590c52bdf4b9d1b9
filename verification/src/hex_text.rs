//! Hexadecimal text for byte strings.

use vstd::prelude::*;

verus! {

/// The hexadecimal digit for a value below sixteen, with letters counted up from `ten`.
pub open spec fn hex_digit(value: int, ten: char) -> char {
    if value < 10 {
        ('0' as int + value) as char
    } else {
        (ten as int + value - 10) as char
    }
}

/// Two digits for each byte, the high half first; `ten` is the digit for ten.
pub open spec fn hex_digits(bytes: Seq<u8>, ten: char) -> Seq<char> {
    Seq::new(
        2 * bytes.len(),
        |i: int|
            if i % 2 == 0 {
                hex_digit(bytes[i / 2] as int / 16, ten)
            } else {
                hex_digit(bytes[i / 2] as int % 16, ten)
            },
    )
}

/// Lowercase hexadecimal text, from `hex::encode`: two digits for each byte, in order.
#[verifier::external_body]
pub(crate) fn encode(bytes: &[u8]) -> (text: String)
    ensures
        text@ == hex_digits(bytes@, 'a'),
{
    hex::encode(bytes)
}

/// Uppercase hexadecimal text, from `hex::encode_upper`: two digits for each byte, in order.
#[verifier::external_body]
pub(crate) fn encode_upper(bytes: &[u8]) -> (text: String)
    ensures
        text@ == hex_digits(bytes@, 'A'),
{
    hex::encode_upper(bytes)
}

/// What a text of hexadecimal digits is: two digits for each byte, which of the sixteen the halves of
/// the byte pick, the high half first.
pub proof fn lemma_hex_digits(bytes: Seq<u8>)
    ensures
        hex_digits(bytes, 'a').len() == 2 * bytes.len(),
        hex_digits(bytes, 'A').len() == 2 * bytes.len(),
        forall|i: int|
            #![trigger bytes[i]]
            0 <= i < bytes.len() ==> {
                let high = bytes[i] as int / 16;
                let low = bytes[i] as int % 16;
                &&& hex_digits(bytes, 'a')[2 * i] == "0123456789abcdef"@[high]
                &&& hex_digits(bytes, 'a')[2 * i + 1] == "0123456789abcdef"@[low]
                &&& hex_digits(bytes, 'A')[2 * i] == "0123456789ABCDEF"@[high]
                &&& hex_digits(bytes, 'A')[2 * i + 1] == "0123456789ABCDEF"@[low]
            },
{
    reveal_strlit("0123456789abcdef");
    reveal_strlit("0123456789ABCDEF");
    assert forall|i: int| #![trigger bytes[i]] 0 <= i < bytes.len() implies {
        let high = bytes[i] as int / 16;
        let low = bytes[i] as int % 16;
        &&& hex_digits(bytes, 'a')[2 * i] == "0123456789abcdef"@[high]
        &&& hex_digits(bytes, 'a')[2 * i + 1] == "0123456789abcdef"@[low]
        &&& hex_digits(bytes, 'A')[2 * i] == "0123456789ABCDEF"@[high]
        &&& hex_digits(bytes, 'A')[2 * i + 1] == "0123456789ABCDEF"@[low]
    } by {
        assert(0 <= bytes[i] as int / 16 < 16);
        assert(0 <= bytes[i] as int % 16 < 16);
    }
}

} // verus!
