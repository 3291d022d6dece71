use crate::error::CookieError;
use crypto::aes;
use crypto::blockmodes::NoPadding;
use crypto::buffer::{ReadBuffer, RefReadBuffer, RefWriteBuffer, WriteBuffer};
use vstd::prelude::*;
use vstd::slice::{slice_subrange, slice_to_vec};

verus! {

/// Length in bytes of an AES-128 key, and of the CBC initialization vector.
pub const BLOCK_LEN: usize = 16;

/// The byte that fills the fixed initialization vector.
pub const IV_BYTE: u8 = 0x20;

/// The bytes that AES-128 in CBC mode, with no padding removed, decrypts
/// from `data` under `key` and `iv`.
pub uninterp spec fn aes128_cbc_raw(key: Seq<u8>, iv: Seq<u8>, data: Seq<u8>) -> Seq<u8>;

/// Relies on crypto::aes::cbc_decryptor (AES-128, `NoPadding`) and its
/// `Decryptor::decrypt`, run once over the whole input with end-of-input set.
/// Without padding, CBC decryption writes one block per input block: the
/// output buffer, as long as the input, always suffices, so one call consumes
/// all input. An input whose length is not a multiple of the block length is
/// `InvalidLength` (here `None`); an empty input gives no bytes. The cipher
/// constructors assert 16-byte keys and initialization vectors.
#[verifier::external_body]
fn aes128_cbc_decrypt(data: &[u8], key: &[u8], iv: &[u8]) -> (r: Option<Vec<u8>>)
    requires
        key@.len() == BLOCK_LEN,
        iv@.len() == BLOCK_LEN,
    ensures
        r is Some <==> data@.len() % (BLOCK_LEN as nat) == 0,
        r matches Some(p) ==> p@ == aes128_cbc_raw(key@, iv@, data@) && p@.len() == data@.len(),
{
    let mut decryptor = aes::cbc_decryptor(aes::KeySize::KeySize128, key, iv, NoPadding);
    let mut out = vec![0u8; data.len()];
    let mut read_buffer = RefReadBuffer::new(data);
    let mut write_buffer = RefWriteBuffer::new(&mut out);
    let outcome = decryptor.decrypt(&mut read_buffer, &mut write_buffer, true);
    let plain = write_buffer.take_read_buffer().take_remaining().to_vec();
    outcome.ok().map(|_| plain)
}

/// `p` ends in valid PKCS#7 padding: its last byte `n` lies in `1..=16`, and
/// its last `n` bytes all equal `n`.
pub open spec fn pkcs7_valid(p: Seq<u8>) -> bool {
    &&& p.len() > 0
    &&& 1 <= p.last() <= BLOCK_LEN
    &&& p.last() <= p.len()
    &&& forall|j: int| p.len() - p.last() <= j < p.len() ==> p[j] == p.last()
}

/// `p` with its PKCS#7 padding removed.
pub open spec fn pkcs7_unpadded(p: Seq<u8>) -> Seq<u8> {
    p.take(p.len() - p.last())
}

/// The fixed initialization vector: sixteen bytes of `0x20`.
pub open spec fn fixed_iv() -> Seq<u8> {
    Seq::new(BLOCK_LEN as nat, |i: int| IV_BYTE)
}

/// What `decrypt` gives for `data` under `key` and `iv`: the raw CBC
/// plaintext without its PKCS#7 padding, or `PaddingError` where the length
/// is not a whole number of blocks or the padding is invalid.
pub open spec fn decrypt_outcome(data: Seq<u8>, key: Seq<u8>, iv: Seq<u8>) -> Result<Seq<u8>, CookieError> {
    if data.len() % (BLOCK_LEN as nat) != 0 {
        Err(CookieError::PaddingError)
    } else if pkcs7_valid(aes128_cbc_raw(key, iv, data)) {
        Ok(pkcs7_unpadded(aes128_cbc_raw(key, iv, data)))
    } else {
        Err(CookieError::PaddingError)
    }
}

/// Builds the fixed initialization vector.
pub fn fixed_iv_bytes() -> (r: Vec<u8>)
    ensures
        r@ == fixed_iv(),
{
    let mut r: Vec<u8> = Vec::new();
    while r.len() < BLOCK_LEN
        invariant
            r@.len() <= BLOCK_LEN,
            forall|k: int| 0 <= k < r@.len() ==> r@[k] == IV_BYTE,
        decreases BLOCK_LEN - r@.len(),
    {
        r.push(IV_BYTE);
    }
    assert(r@ =~= fixed_iv());
    r
}

/// Decrypts one ciphertext, already stripped of its version tag, with
/// AES-128 in CBC mode and PKCS#7 padding. A bad length or bad padding is a
/// `PaddingError`.
pub fn decrypt(encrypted_data: &[u8], key: &[u8], iv: &[u8]) -> (r: Result<Vec<u8>, CookieError>)
    requires
        key@.len() == BLOCK_LEN,
        iv@.len() == BLOCK_LEN,
    ensures
        r matches Ok(p) ==> decrypt_outcome(encrypted_data@, key@, iv@) == Ok::<Seq<u8>, CookieError>(p@),
        r matches Err(e) ==> decrypt_outcome(encrypted_data@, key@, iv@) == Err::<Seq<u8>, CookieError>(e),
{
    match aes128_cbc_decrypt(encrypted_data, key, iv) {
        None => Err(CookieError::PaddingError),
        Some(raw) => strip_pkcs7(&raw),
    }
}

/// Removes PKCS#7 padding, or fails with `PaddingError` where it is invalid.
pub fn strip_pkcs7(p: &Vec<u8>) -> (r: Result<Vec<u8>, CookieError>)
    ensures
        r matches Ok(q) ==> pkcs7_valid(p@) && q@ == pkcs7_unpadded(p@),
        r is Err ==> !pkcs7_valid(p@) && r == Err::<Vec<u8>, CookieError>(CookieError::PaddingError),
{
    let len = p.len();
    if len == 0 {
        return Err(CookieError::PaddingError);
    }
    let n = p[len - 1];
    if n == 0 || n as usize > BLOCK_LEN || n as usize > len {
        return Err(CookieError::PaddingError);
    }
    let start = len - n as usize;
    let mut j: usize = start;
    while j < len
        invariant
            len == p@.len(),
            start <= j <= len,
            n == p@.last(),
            start == p@.len() - p@.last(),
            forall|k: int| start <= k < j ==> p@[k] == n,
        decreases len - j,
    {
        if p[j] != n {
            return Err(CookieError::PaddingError);
        }
        j = j + 1;
    }
    let q = slice_to_vec(slice_subrange(p.as_slice(), 0, start));
    assert(q@ =~= pkcs7_unpadded(p@));
    Ok(q)
}

/// The version tag is load-bearing: a whole-block ciphertext that still
/// carries its 3-byte tag is never a whole number of blocks, so decrypting it
/// without stripping the tag fails with `PaddingError`.
pub proof fn lemma_unstripped_tag_fails(tag: Seq<u8>, data: Seq<u8>, key: Seq<u8>, iv: Seq<u8>)
    requires
        tag.len() == 3,
        data.len() % (BLOCK_LEN as nat) == 0,
    ensures
        decrypt_outcome(tag + data, key, iv) == Err::<Seq<u8>, CookieError>(CookieError::PaddingError),
{
    assert((tag + data).len() == data.len() + 3);
}

} // verus!
