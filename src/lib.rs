//! Recovery of a browser's encrypted session cookies for one host, ready to be
//! injected into a remotely controlled browser tab.
//!
//! - `key`: the storage key, derived from the browser's master secret.
//! - `cipher`: AES-128-CBC decryption of one stored ciphertext.
//! - `cookies`: host selection, decryption of each record, and the cookie
//!   collection with its diagnostic rendering.
//! - `plaintext`: cookies given as plaintext `name=value` pairs instead.
//! - `screenshot`: what a capture is configured with, and the decisions made
//!   before the browser is driven.
pub mod cipher;
pub mod cookies;
pub mod error;
pub mod key;
pub mod plaintext;
pub mod screenshot;
