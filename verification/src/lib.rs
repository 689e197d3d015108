//! An encrypted, append-only journal record store.
//!
//! Entries are serialized to a pipe-delimited plaintext line, sealed with an
//! AEAD cipher under a password-derived key, and kept one base64 line per
//! record in a backing file owned by the caller.  The store itself is pure:
//! callers hand it the file's lines and receive new lines to append, so every
//! rule of the format lives here and is verified.  The store assumes a single
//! logical writer; nothing here coordinates concurrent access to the backing
//! file.

pub mod bridge;
pub mod codec;
pub mod crypto;
pub mod entry;
pub mod exchange;
pub mod store;
pub mod text;
