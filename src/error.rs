use vstd::prelude::*;

verus! {

/// What can stop the recovery of a host's cookies.
#[derive(Debug, Clone, Copy, PartialEq, Eq, Structural)]
pub enum CookieError {
    /// The platform credential store held no master secret, or refused access.
    SecretUnavailable,
    /// The key derivation function rejected its parameters.
    KeyDerivationError,
    /// The browser's cookie database could not be opened.
    StoreUnavailable,
    /// A ciphertext had a bad length or bad final-block padding.
    PaddingError,
    /// A decrypted value was not valid UTF-8.
    EncodingError,
    /// The target URL could not be parsed, or has no host.
    HostParseError,
}

} // verus!
