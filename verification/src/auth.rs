//! API keys and roles: keys are stored as `sha256:<hex>` of the plaintext,
//! and a role decides what a key may do.
use vstd::prelude::*;
use vstd::utf8::encode_utf8;
use sha2::Digest;
use hmac::Mac;
use crate::text::{chars_of, owned, seq_starts_with, slice_to_vec_range, starts_with_chars, str_eq, string_from_chars};

verus! {

/// SHA-256 digest of a byte string.
pub uninterp spec fn sha256_digest(data: Seq<u8>) -> Seq<u8>;

/// HMAC-SHA256 tag of `msg` under `key`.
pub uninterp spec fn hmac_sha256_tag(key: Seq<u8>, msg: Seq<u8>) -> Seq<u8>;

/// Lower-case hexadecimal digit of a value below 16.
pub open spec fn hex_digit(n: u8) -> char {
    if n < 10 {
        (48 + n) as char
    } else {
        (87 + n) as char
    }
}

/// Lower-case hexadecimal text of bytes, two digits per byte, high digit
/// first.
pub open spec fn hex_text(data: Seq<u8>) -> Seq<char>
    decreases data.len(),
{
    if data.len() == 0 {
        Seq::empty()
    } else {
        hex_text(data.drop_last()) + seq![hex_digit(data.last() / 16), hex_digit(data.last() % 16)]
    }
}

/// Computes a SHA-256 digest (`sha2::Sha256::digest`).
#[verifier::external_body]
fn sha256(data: &[u8]) -> (r: Vec<u8>)
    ensures
        r@ == sha256_digest(data@),
        r@.len() == 32,
{
    sha2::Sha256::digest(data).to_vec()
}

/// Computes an HMAC-SHA256 tag (`hmac::Hmac<Sha256>`); HMAC accepts keys of
/// any length.
#[verifier::external_body]
fn hmac_sha256(key: &[u8], msg: &[u8]) -> (r: Vec<u8>)
    ensures
        r@ == hmac_sha256_tag(key@, msg@),
        r@.len() == 32,
{
    let mut mac = hmac::Hmac::<sha2::Sha256>::new_from_slice(key).unwrap();
    mac.update(msg);
    mac.finalize().into_bytes().to_vec()
}

/// Lower-case hexadecimal encoding (`hex::encode`): two digits per byte,
/// high digit first.
#[verifier::external_body]
fn hex_encode(data: &[u8]) -> (r: String)
    ensures
        r@ == hex_text(data@),
{
    hex::encode(data)
}

/// Hashes a plaintext API key to `hex(SHA-256(key))`.
pub fn hash_key(key: &str) -> (r: String)
    ensures
        r@ == hex_text(sha256_digest(encode_utf8(key@))),
{
    let d = sha256(key.as_bytes());
    hex_encode(d.as_slice())
}

/// The HMAC-SHA256 signature of a webhook body under a secret, in hex.
pub fn hmac_sign(secret: &str, body: &str) -> (r: String)
    ensures
        r@ == hex_text(hmac_sha256_tag(encode_utf8(secret@), encode_utf8(body@))),
{
    let t = hmac_sha256(secret.as_bytes(), body.as_bytes());
    hex_encode(t.as_slice())
}

/// The prefix of a stored key hash.
pub open spec fn hash_prefix() -> Seq<char> {
    "sha256:"@
}

/// `plaintext` is the key whose hash is stored as `"sha256:<hex>"`.
pub open spec fn key_matches(plaintext: Seq<char>, stored: Seq<char>) -> bool {
    seq_starts_with(stored, hash_prefix()) && hex_text(sha256_digest(encode_utf8(plaintext)))
        == stored.skip(hash_prefix().len() as int)
}

/// Verifies a plaintext key against a stored `"sha256:<hex>"` hash; a
/// stored value without that prefix matches no key.
pub fn verify_key(plaintext: &str, stored_hash: &str) -> (r: bool)
    ensures
        r == key_matches(plaintext@, stored_hash@),
{
    proof {
        reveal_strlit("sha256:");
    }
    let prefix = chars_of("sha256:");
    let cs = chars_of(stored_hash);
    if !starts_with_chars(cs.as_slice(), prefix.as_slice()) {
        return false;
    }
    let rest = string_from_chars(slice_to_vec_range(cs.as_slice(), 7, cs.len()).as_slice());
    assert(rest@ =~= stored_hash@.skip(7));
    let h = hash_key(plaintext);
    str_eq(h.as_str(), rest.as_str())
}

/// Access roles.
#[derive(Debug, Clone, Copy, PartialEq, Eq, Structural)]
pub enum Role {
    Admin,
    Editor,
    Viewer,
}

/// The role a name stands for.
pub open spec fn role_named(s: Seq<char>) -> Option<Role> {
    if s == "admin"@ {
        Some(Role::Admin)
    } else if s == "editor"@ {
        Some(Role::Editor)
    } else if s == "viewer"@ {
        Some(Role::Viewer)
    } else {
        None
    }
}

/// The name of a role.
pub open spec fn role_name(r: Role) -> Seq<char> {
    match r {
        Role::Admin => "admin"@,
        Role::Editor => "editor"@,
        Role::Viewer => "viewer"@,
    }
}

impl Role {
    /// The role named `s` (`admin`, `editor` or `viewer`), if any.
    pub fn from_str(s: &str) -> (r: Option<Role>)
        ensures
            r == role_named(s@),
    {
        if str_eq(s, "admin") {
            Some(Role::Admin)
        } else if str_eq(s, "editor") {
            Some(Role::Editor)
        } else if str_eq(s, "viewer") {
            Some(Role::Viewer)
        } else {
            None
        }
    }

    /// The role's name.
    pub fn as_str(&self) -> (r: &'static str)
        ensures
            r@ == role_name(*self),
    {
        match self {
            Role::Admin => "admin",
            Role::Editor => "editor",
            Role::Viewer => "viewer",
        }
    }

    /// Admins and editors may change rules.
    pub fn can_write(&self) -> (r: bool)
        ensures
            r == (*self == Role::Admin || *self == Role::Editor),
    {
        match self {
            Role::Admin | Role::Editor => true,
            Role::Viewer => false,
        }
    }

    /// Only admins may manage keys.
    pub fn can_admin(&self) -> (r: bool)
        ensures
            r == (*self == Role::Admin),
    {
        match self {
            Role::Admin => true,
            _ => false,
        }
    }
}

/// The identity a request was authenticated as.
#[derive(Debug, Clone)]
pub struct Identity {
    pub key_id: String,
    pub role: Role,
}

/// The HTTP status of a request refused for its role.
pub const FORBIDDEN: u16 = 403;

/// Requires write access (editor or admin); otherwise the status 403.
pub fn require_write(identity: &Identity) -> (r: Result<(), u16>)
    ensures
        match r {
            Ok(()) => identity.role == Role::Admin || identity.role == Role::Editor,
            Err(s) => s == FORBIDDEN && identity.role == Role::Viewer,
        },
{
    if identity.role.can_write() {
        Ok(())
    } else {
        Err(FORBIDDEN)
    }
}

/// Requires admin access; otherwise the status 403.
pub fn require_admin(identity: &Identity) -> (r: Result<(), u16>)
    ensures
        match r {
            Ok(()) => identity.role == Role::Admin,
            Err(s) => s == FORBIDDEN && identity.role != Role::Admin,
        },
{
    if identity.role.can_admin() {
        Ok(())
    } else {
        Err(FORBIDDEN)
    }
}

} // verus!
