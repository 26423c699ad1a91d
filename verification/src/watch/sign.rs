//! Signing a report, so the receiver can tell it came from here.
//!
//! HMAC-SHA256 over the exact bytes of the body, in the shape
//! `sha256=<hex>`.
use vstd::prelude::*;
use vstd::string::*;
use vstd::utf8::encode_utf8;

use crate::number::{hex_digit, small_hex};
use crate::secret::Secret;

verus! {

/// The header the signature travels in.
pub const HEADER: &'static str = "X-Snob-Signature";

/// What HMAC-SHA256 gives for a key and a message.
pub uninterp spec fn hmac_sha256(key: Seq<u8>, message: Seq<u8>) -> Seq<u8>;

/// `hmac::Hmac` over `sha2::Sha256`: the thirty-two bytes of the code for a key
/// of any length and a message.
#[verifier::external_body]
fn mac(key: &[u8], message: &[u8]) -> (digest: Vec<u8>)
    ensures
        digest@ == hmac_sha256(key@, message@),
        digest@.len() == 32,
{
    let mut mac = <hmac::Hmac<sha2::Sha256> as hmac::Mac>::new_from_slice(key).expect(
        "HMAC accepts a key of any length",
    );
    hmac::Mac::update(&mut mac, message);
    hmac::Mac::finalize(mac).into_bytes().to_vec()
}

/// Bytes as small hexadecimal digits, two to a byte.
pub open spec fn hex(bytes: Seq<u8>) -> Seq<char>
    decreases bytes.len(),
{
    if bytes.len() == 0 {
        Seq::empty()
    } else {
        hex(bytes.drop_last()) + seq![
            small_hex(bytes.last() as int / 16),
            small_hex(bytes.last() as int % 16),
        ]
    }
}

/// The header value for a digest.
pub fn header_value(digest: &[u8]) -> (r: String)
    ensures
        r@ == "sha256="@ + hex(digest@),
{
    let mut out = String::new();
    out.append("sha256=");
    assert(out@ == "sha256="@ + hex(digest@.take(0)));
    let mut i: usize = 0;
    while i < digest.len()
        invariant
            i <= digest@.len(),
            out@ == "sha256="@ + hex(digest@.take(i as int)),
        decreases digest@.len() - i,
    {
        let byte: u8 = digest[i];
        out.push(hex_digit(byte / 16));
        out.push(hex_digit(byte % 16));
        proof {
            assert(digest@.take(i + 1).drop_last() == digest@.take(i as int));
            assert(out@ == "sha256="@ + hex(digest@.take(i + 1)));
        }
        i = i + 1;
    }
    assert(digest@.take(digest@.len() as int) == digest@);
    out
}

/// Signs raw bytes with a key of raw bytes.
pub fn sign_bytes(body: &[u8], key: &[u8]) -> (r: String)
    ensures
        r@ == "sha256="@ + hex(hmac_sha256(key@, body@)),
        r@.len() == 71,
{
    let digest = mac(key, body);
    proof {
        lemma_hex_len(digest@);
        reveal_strlit("sha256=");
    }
    header_value(digest.as_slice())
}

/// Signs `body` and returns the header value. The bytes are taken as they will
/// be sent.
pub fn sign(body: &str, key: &Secret) -> (r: String)
    ensures
        r@ == "sha256="@ + hex(hmac_sha256(encode_utf8(key@), encode_utf8(body@))),
        r@.len() == 71,
{
    sign_bytes(body.as_bytes(), key.expose().as_bytes())
}

proof fn lemma_hex_len(bytes: Seq<u8>)
    ensures
        hex(bytes).len() == 2 * bytes.len(),
    decreases bytes.len(),
{
    if bytes.len() > 0 {
        lemma_hex_len(bytes.drop_last());
    }
}

/// A written digest is made of small hexadecimal digits, two to a byte.
pub proof fn a_digest_is_written_in_small_hex(bytes: Seq<u8>)
    ensures
        hex(bytes).len() == 2 * bytes.len(),
        forall|i: int|
            0 <= i < hex(bytes).len() ==> '0' <= #[trigger] hex(bytes)[i] <= '9' || 'a'
                <= hex(bytes)[i] <= 'f',
    decreases bytes.len(),
{
    if bytes.len() > 0 {
        let rest = hex(bytes.drop_last());
        a_digest_is_written_in_small_hex(bytes.drop_last());
        assert forall|i: int| 0 <= i < hex(bytes).len() implies '0' <= #[trigger] hex(bytes)[i]
            <= '9' || 'a' <= hex(bytes)[i] <= 'f' by {
            if i < rest.len() {
                assert(hex(bytes)[i] == rest[i]);
            }
        }
    }
}

/// Two signatures are the same only when the digests are: no byte of one is
/// lost in writing it.
pub proof fn a_signature_has_one_digest(a: Seq<u8>, b: Seq<u8>)
    requires
        hex(a) == hex(b),
    ensures
        a == b,
    decreases a.len(),
{
    lemma_hex_len(a);
    lemma_hex_len(b);
    if a.len() > 0 {
        let s = hex(a);
        let (x, y) = (a.last(), b.last());
        lemma_hex_len(a.drop_last());
        lemma_hex_len(b.drop_last());
        assert(s[s.len() - 1] == small_hex(x as int % 16));
        assert(s[s.len() - 1] == small_hex(y as int % 16));
        assert(s[s.len() - 2] == small_hex(x as int / 16));
        assert(s[s.len() - 2] == small_hex(y as int / 16));
        assert(x == y);
        assert(hex(a.drop_last()) == s.take(s.len() - 2));
        assert(hex(b.drop_last()) == s.take(s.len() - 2));
        a_signature_has_one_digest(a.drop_last(), b.drop_last());
        assert(a == a.drop_last().push(x));
        assert(b == b.drop_last().push(y));
    } else {
        assert(a == b);
    }
}

/// The digits of a byte stand where the byte does, the larger one first.
pub proof fn a_byte_is_two_digits_in_its_place(bytes: Seq<u8>, i: int)
    requires
        0 <= i < bytes.len(),
    ensures
        hex(bytes).len() == 2 * bytes.len(),
        hex(bytes)[2 * i] == "0123456789abcdef"@[bytes[i] as int / 16],
        hex(bytes)[2 * i + 1] == "0123456789abcdef"@[bytes[i] as int % 16],
    decreases bytes.len(),
{
    lemma_hex_len(bytes);
    let rest = bytes.drop_last();
    lemma_hex_len(rest);
    if i < rest.len() {
        assert(rest[i] == bytes[i]);
        a_byte_is_two_digits_in_its_place(rest, i);
        assert(hex(bytes)[2 * i] == hex(rest)[2 * i]);
        assert(hex(bytes)[2 * i + 1] == hex(rest)[2 * i + 1]);
    } else {
        lemma_hex_digits();
    }
}

proof fn lemma_hex_digits()
    ensures
        forall|n: int| 0 <= n < 16 ==> #[trigger] small_hex(n) == "0123456789abcdef"@[n],
{
    reveal_strlit("0123456789abcdef");
    assert forall|n: int| 0 <= n < 16 implies #[trigger] small_hex(n) == "0123456789abcdef"@[n] by {
        assert(n == 0 || n == 1 || n == 2 || n == 3 || n == 4 || n == 5 || n == 6 || n == 7 || n
            == 8 || n == 9 || n == 10 || n == 11 || n == 12 || n == 13 || n == 14 || n == 15);
    }
}

} // verus!
