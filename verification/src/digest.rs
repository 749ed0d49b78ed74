//! SHA-256 digests and their lowercase hexadecimal text.

use vstd::prelude::*;
use vstd::string::*;
use sha2::Digest;

verus! {

/// Lowercase hexadecimal digit for a value below sixteen.
pub open spec fn hex_digit(value: int) -> char {
    if value < 10 {
        ((value + 48) as u8) as char
    } else {
        ((value + 87) as u8) as char
    }
}

/// Lowercase hexadecimal text of bytes, two digits per byte, high nibble first.
pub open spec fn lower_hex(data: Seq<u8>) -> Seq<char>
    decreases data.len(),
{
    if data.len() == 0 {
        Seq::empty()
    } else {
        lower_hex(data.drop_last()) + seq![hex_digit(data.last() as int / 16), hex_digit(data.last() as int % 16)]
    }
}

/// SHA-256 digest of a byte sequence.
pub uninterp spec fn sha256_digest(data: Seq<u8>) -> Seq<u8>;

/// Calls `sha2::Sha256::digest`; the claim is that the 32 bytes returned are
/// the SHA-256 digest of `data`, a function of `data` alone.
#[verifier::external_body]
pub(crate) fn sha256(data: &[u8]) -> (digest: [u8; 32])
    ensures
        digest@ == sha256_digest(data@),
{
    sha2::Sha256::digest(data).into()
}

/// Calls `hex::encode`; the claim is that the text returned is the lowercase
/// hexadecimal encoding of `data`, two digits per byte, high nibble first
/// (the crate's table is `0123456789abcdef`).
#[verifier::external_body]
pub(crate) fn hex_encode(data: &[u8]) -> (text: String)
    ensures
        text@ == lower_hex(data@),
{
    hex::encode(data)
}

/// Lowercase hexadecimal text of `data`, built digit by digit.
pub fn hex_lower(data: &[u8]) -> (text: String)
    ensures
        text@ == lower_hex(data@),
{
    let digits = "0123456789abcdef";
    proof {
        reveal_strlit("0123456789abcdef");
    }
    let mut text = String::new();
    let mut i: usize = 0;
    while i < data.len()
        invariant
            i <= data@.len(),
            digits@ == "0123456789abcdef"@,
            digits@.len() == 16,
            digits.is_ascii(),
            forall|v: int| 0 <= v < 16 ==> #[trigger] digits@[v] == hex_digit(v),
            text@ == lower_hex(data@.take(i as int)),
        decreases data@.len() - i,
    {
        let byte = data[i];
        let high = (byte / 16) as usize;
        let low = (byte % 16) as usize;
        let high_text = digits.substring_ascii(high, high + 1);
        let low_text = digits.substring_ascii(low, low + 1);
        text.append(high_text);
        text.append(low_text);
        proof {
            assert(data@.take(i + 1).drop_last() =~= data@.take(i as int));
            assert(high_text@ =~= seq![hex_digit(high as int)]);
            assert(low_text@ =~= seq![hex_digit(low as int)]);
        }
        i += 1;
    }
    proof {
        assert(data@.take(data@.len() as int) =~= data@);
    }
    text
}

} // verus!
