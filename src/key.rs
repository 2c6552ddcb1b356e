use vstd::prelude::*;
use vstd::string::*;

use crate::error::CodecError;

verus! {

#[verifier::external_type_specification]
#[verifier::external_body]
pub struct ExArgon2Error(argon2::Error);

/// The 32 bytes that Argon2, with its default parameters, derives from a
/// password and a salt.
pub uninterp spec fn argon2_key(password: Seq<u8>, salt: Seq<u8>) -> Seq<u8>;

/// Relies on `argon2::Argon2::default().hash_password_into` with a 32-byte
/// output: the default algorithm, version and parameters are fixed, so the
/// bytes depend on the password and the salt alone. Only the lengths are
/// checked: a password of at most `0xFFFF_FFFF` bytes with a salt of 8 to
/// `0xFFFF_FFFF` bytes is accepted, a longer password refused.
#[verifier::external_body]
fn argon2_hash(password: &[u8], salt: &[u8]) -> (r: Result<[u8; 32], argon2::Error>)
    ensures
        r matches Ok(k) ==> k@ == argon2_key(password@, salt@),
        password@.len() > 0xFFFF_FFFF ==> r is Err,
        password@.len() <= 0xFFFF_FFFF && 8 <= salt@.len() <= 0xFFFF_FFFF ==> r is Ok,
{
    let mut out = [0u8; 32];
    match argon2::Argon2::default().hash_password_into(password, salt, &mut out) {
        Ok(()) => Ok(out),
        Err(e) => Err(e),
    }
}

/// The fixed salt of the key derivation, distinct from any user input.
pub open spec fn seed_salt() -> Seq<u8> {
    "png_data embed".spec_bytes()
}

/// Derives the 256-bit key that orders the blocks from a seed string.
///
/// # Errors
///
/// Fails exactly when the seed is longer than `0xFFFF_FFFF` bytes.
pub fn derive_seed(seed: &str) -> (r: Result<[u8; 32], CodecError>)
    ensures
        r matches Ok(k) ==> k@ == argon2_key(seed.spec_bytes(), seed_salt()),
        r is Err ==> r == Err::<[u8; 32], CodecError>(CodecError::KeyDerivation),
        r is Ok <==> seed.spec_bytes().len() <= 0xFFFF_FFFF,
{
    let salt = "png_data embed".as_bytes();
    proof {
        reveal_strlit("png_data embed");
        assert(is_ascii("png_data embed"));
        is_ascii_spec_bytes("png_data embed");
        assert(salt@.len() == 14);
    }
    match argon2_hash(seed.as_bytes(), salt) {
        Ok(k) => Ok(k),
        Err(_) => Err(CodecError::KeyDerivation),
    }
}

} // verus!
