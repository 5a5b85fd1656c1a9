//! Password digests and authentication keys.

use vstd::prelude::*;

verus! {

/// The BLAKE3 digest of the UTF-8 encoding of `s`, in lowercase hexadecimal.
pub uninterp spec fn blake3_hex(s: Seq<char>) -> Seq<char>;

/// Relies on `blake3::hash` over the bytes of `s`, written out by
/// `Hash::to_hex`: 64 lowercase hexadecimal digits.
#[verifier::external_body]
fn blake3_hex_digest(s: &str) -> (r: String)
    ensures
        r@ == blake3_hex(s@),
        r@.len() == 64,
{
    blake3::hash(s.as_bytes()).to_hex().to_string()
}

/// The secret mixed into every authentication key.
pub const AUTH_SECRET: &'static str = "CHANGE_ME!";

/// The digest under which a password is stored.
pub fn password_digest(password: &str) -> (r: String)
    ensures
        r@ == blake3_hex(password@),
{
    blake3_hex_digest(password)
}

/// The authentication key of a user whose stored password digest is
/// `pass_hash`: the digest of the secret followed by `pass_hash`.
pub fn get_auth_key(pass_hash: &str) -> (r: String)
    ensures
        r@ == blake3_hex(AUTH_SECRET@ + pass_hash@),
{
    let mut keyed = String::from_str(AUTH_SECRET);
    keyed.append(pass_hash);
    blake3_hex_digest(keyed.as_str())
}

} // verus!
