use crate::hex::{hex_digit, ToHex};
use crate::text::chars_to_string;
use sha2::Digest;
use vstd::prelude::*;

verus! {

/// The SHA-256 digest of a byte sequence; it depends on the bytes alone.
pub uninterp spec fn sha256_of(data: Seq<u8>) -> Seq<u8>;

/// The two-digit lowercase hex rendering of a byte sequence.
pub open spec fn hex_chars(data: Seq<u8>) -> Seq<char> {
    Seq::new(
        (2 * data.len()) as nat,
        |i: int|
            if i % 2 == 0 {
                hex_digit(data[i / 2] / 16)
            } else {
                hex_digit(data[i / 2] % 16)
            },
    )
}

/// Relies on sha2::Sha256 through the Digest trait: the digest is a pure
/// function of the input bytes and always holds exactly 32 bytes.
#[verifier::external_body]
fn sha256(data: &Vec<u8>) -> (r: Vec<u8>)
    ensures
        r@ == sha256_of(data@),
        r@.len() == 32,
{
    let mut hasher = sha2::Sha256::new();
    hasher.update(data.as_slice());
    let out = hasher.finalize();
    out.to_vec()
}

/// The lowercase hex rendering of the SHA-256 digest of the data.
pub fn hash_to_string(data: Vec<u8>) -> (r: String)
    ensures
        r@ == hex_chars(sha256_of(data@)),
        r@.len() == 64,
{
    let digest = sha256(&data);
    let chars = char::encode(&digest);
    let ghost ds = digest@;
    proof {
        assert(chars@ =~= hex_chars(ds)) by {
            assert forall|j: int| 0 <= j < chars@.len() implies chars@[j] == hex_chars(ds)[j] by {
                let i = j / 2;
                assert(0 <= i < ds.len());
                assert(chars@[2 * i] == hex_digit(#[trigger] ds[i] / 16) && chars@[2 * i + 1]
                    == hex_digit(ds[i] % 16));
                if j % 2 == 0 {
                    assert(j == 2 * i);
                } else {
                    assert(j == 2 * i + 1);
                }
            }
        }
    }
    chars_to_string(&chars)
}

} // verus!
