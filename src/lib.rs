//! Least-significant-bit steganography over a byte carrier.
//!
//! A payload is framed with a header ([`header`]), turned into a bit stream and
//! written into the low bits of carrier bytes ([`placement`]), block after
//! block in an order derived from a secret key ([`block`], [`key`]). Reading
//! walks the same order ([`reader`]) and checks the payload against the
//! header's checksum ([`codec`]).

pub mod bits;
pub mod block;
pub mod codec;
pub mod embed;
pub mod error;
pub mod header;
pub mod key;
pub mod layout;
pub mod placement;
pub mod reader;
pub mod source;
