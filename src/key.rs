use crate::error::CookieError;
use pbkdf2::password_hash::{Ident, PasswordHasher, SaltString};
use pbkdf2::Pbkdf2;
use vstd::prelude::*;

verus! {

/// PBKDF2 iteration count of the browser's storage scheme on macOS.
pub const ITERATIONS: u32 = 1003;

/// Length in bytes of the derived storage key.
pub const KEY_LEN: usize = 16;

/// The ASCII bytes of `saltysalt`, the browser's fixed salt.
pub open spec fn salt_bytes() -> Seq<u8> {
    seq![0x73u8, 0x61u8, 0x6cu8, 0x74u8, 0x79u8, 0x73u8, 0x61u8, 0x6cu8, 0x74u8]
}

/// The standard (padded) base64 text of `b`.
pub uninterp spec fn base64_text(b: Seq<u8>) -> Seq<char>;

/// The output of PBKDF2 with HMAC-SHA-1 over `password`, with the salt
/// written as the base64 text `salt`, `rounds` iterations and `length` output
/// bytes; `None` where the salt text or the length is rejected.
pub uninterp spec fn pbkdf2_sha1_output(password: Seq<u8>, salt: Seq<char>, rounds: nat, length: nat) -> Option<Seq<u8>>;

/// A character of the standard base64 alphabet (`=` padding excluded).
pub open spec fn is_b64_char(c: char) -> bool {
    ('A' <= c && c <= 'Z') || ('a' <= c && c <= 'z') || ('0' <= c && c <= '9') || c == '+' || c == '/'
}

/// Relies on base64::encode (0.13): the standard, padded base64 text of the
/// input bytes. Where the input length is a multiple of three, no padding is
/// written: four alphabet characters stand for each three bytes.
#[verifier::external_body]
fn base64_encode(b: &[u8]) -> (r: String)
    ensures
        r@ == base64_text(b@),
        b@.len() % 3 == 0 ==> r@.len() == b@.len() / 3 * 4
            && forall|i: int| 0 <= i < r@.len() ==> is_b64_char(#[trigger] r@[i]),
{
    base64::encode(b)
}

/// Relies on pbkdf2's `Pbkdf2::hash_password_customized` with the `pbkdf2`
/// identifier (HMAC-SHA-1), the salt given as a password_hash `SaltString`:
/// the hash output, which is exactly `output_length` bytes long, or `None`
/// where the salt text, the parameters or the output length are rejected.
/// It succeeds where the output length lies in `10..=64` (password_hash's
/// `Output` bounds) and the salt text is accepted: 4 to 63 characters of the
/// standard base64 alphabet (`SaltString::new` and `Value::new`), a multiple
/// of four of them, which unpadded base64 always decodes.
#[verifier::external_body]
fn pbkdf2_sha1(password: &[u8], salt: &str, rounds: u32, output_length: usize) -> (r: Option<Vec<u8>>)
    ensures
        r matches Some(k) ==> pbkdf2_sha1_output(password@, salt@, rounds as nat, output_length as nat) == Some(k@)
            && k@.len() == output_length,
        r is None ==> pbkdf2_sha1_output(password@, salt@, rounds as nat, output_length as nat) is None,
        10 <= output_length <= 64 && 4 <= salt@.len() < 64 && salt@.len() % 4 == 0
            && (forall|i: int| 0 <= i < salt@.len() ==> is_b64_char(#[trigger] salt@[i])) ==> r is Some,
{
    let salt = SaltString::new(salt).ok()?;
    let params = pbkdf2::Params { rounds, output_length };
    let hash = Pbkdf2.hash_password_customized(password, Some(Ident::new("pbkdf2")), None, params, &salt).ok()?;
    hash.hash.map(|out| out.as_bytes().to_vec())
}

/// The storage key that the browser derives from its master secret, or
/// `None` where the derivation rejects its fixed parameters.
pub open spec fn derived_key(secret: Seq<u8>) -> Option<Seq<u8>> {
    pbkdf2_sha1_output(secret, base64_text(salt_bytes()), ITERATIONS as nat, KEY_LEN as nat)
}

/// Derives the 16-byte storage key from the master secret: PBKDF2 with
/// HMAC-SHA-1, the base64 text of `saltysalt` as salt, 1003 iterations. It
/// never fails, whatever the secret.
pub fn derive_key(secret: &[u8]) -> (r: Result<Vec<u8>, CookieError>)
    ensures
        r is Ok,
        r matches Ok(k) ==> derived_key(secret@) == Some(k@) && k@.len() == KEY_LEN,
{
    let salt: Vec<u8> = vec![0x73u8, 0x61u8, 0x6cu8, 0x74u8, 0x79u8, 0x73u8, 0x61u8, 0x6cu8, 0x74u8];
    assert(salt@ =~= salt_bytes());
    let salt_text = base64_encode(salt.as_slice());
    assert(salt_text@.len() == 12);
    match pbkdf2_sha1(secret, salt_text.as_str(), ITERATIONS, KEY_LEN) {
        Some(k) => Ok(k),
        None => Err(CookieError::KeyDerivationError),
    }
}

/// Key derivation is deterministic: equal master secrets give equal keys.
pub proof fn lemma_derivation_deterministic(a: Seq<u8>, b: Seq<u8>)
    requires
        a == b,
    ensures
        derived_key(a) == derived_key(b),
{
}

} // verus!
