use crate::errors::AegError;
use vstd::prelude::*;

verus! {

/// The standard base64 encoding (with padding) of a byte sequence;
/// a function of the bytes alone.
pub uninterp spec fn b64_of(bytes: Seq<u8>) -> Seq<char>;

/// The BLAKE3 digest of a byte sequence; a function of the bytes alone.
pub uninterp spec fn blake3_of(bytes: Seq<u8>) -> Seq<u8>;

pub struct AegCrypto;

impl AegCrypto {
    /// A fresh buffer of `n` bytes from the operating system's randomness
    /// source.
    ///
    /// Relies on rand_core's `OsRng::try_fill_bytes`; of a random draw
    /// nothing is promised beyond the byte count, and the draw may fail.
    #[verifier::external_body]
    pub fn generate_random_bytes(n: usize) -> (r: Result<Vec<u8>, AegError>)
        ensures
            r is Ok ==> r->Ok_0@.len() == n,
            r is Err ==> r->Err_0 == AegError::Encryption,
    {
        let mut buf = vec![0u8; n];
        match rand_core::TryRngCore::try_fill_bytes(&mut rand_core::OsRng, &mut buf) {
            Ok(()) => Ok(buf),
            Err(_) => Err(AegError::Encryption),
        }
    }

    /// Standard base64 encoding with padding.
    ///
    /// Relies on base64's `general_purpose::STANDARD` engine: the output
    /// is four characters for every three input bytes, rounded up, and a
    /// function of the input alone.
    #[verifier::external_body]
    pub fn encode_base64(input: &[u8]) -> (r: String)
        requires
            input@.len() <= 0x1000_0000_0000_0000,
        ensures
            r@ == b64_of(input@),
            r@.len() == 4 * ((input@.len() + 2) / 3),
    {
        base64::Engine::encode(&base64::engine::general_purpose::STANDARD, input)
    }

    /// Decode standard base64.
    ///
    /// Relies on base64's `general_purpose::STANDARD` engine: it inverts
    /// the encoding, so any text `encode_base64` produces decodes to the
    /// bytes that were encoded; other text may be rejected.
    #[verifier::external_body]
    pub(crate) fn decode_base64(input: &str) -> (r: Option<Vec<u8>>)
        ensures
            forall|b: Seq<u8>| input@ == #[trigger] b64_of(b) ==> r is Some && r->0@ == b,
    {
        base64::Engine::decode(&base64::engine::general_purpose::STANDARD, input).ok()
    }

    /// The BLAKE3 digest of `input`.
    ///
    /// Relies on blake3's `hash`: a 32-byte digest, a function of the
    /// input alone.
    #[verifier::external_body]
    pub(crate) fn blake3_hash(input: &[u8]) -> (r: Vec<u8>)
        ensures
            r@ == blake3_of(input@),
            r@.len() == 32,
    {
        blake3::hash(input).as_bytes().to_vec()
    }

    /// Overwrite a byte buffer with zeroes and empty it.
    ///
    /// Relies on zeroize's `Zeroize` for `Vec<u8>`, which zeroes the
    /// buffer (including spare capacity) and clears it.
    #[verifier::external_body]
    pub(crate) fn wipe_bytes(buf: &mut Vec<u8>)
        ensures
            final(buf)@.len() == 0,
    {
        zeroize::Zeroize::zeroize(buf);
    }

    /// The text of a fresh authorization key file: 32 random bytes are
    /// drawn, hashed, the draw is wiped from memory, and the digest is
    /// base64-encoded (44 characters).
    pub fn create_authorization_key() -> (r: Result<String, AegError>)
        ensures
            r is Ok ==> exists|seed: Seq<u8>|
                seed.len() == 32 && r->Ok_0@ == b64_of(#[trigger] blake3_of(seed)),
            r is Ok ==> r->Ok_0@.len() == 44,
    {
        let mut bytes = Self::generate_random_bytes(32)?;
        let ghost seed = bytes@;
        let digest = Self::blake3_hash(bytes.as_slice());
        Self::wipe_bytes(&mut bytes);
        let text = Self::encode_base64(digest.as_slice());
        proof {
            assert(seed.len() == 32 && text@ == b64_of(blake3_of(seed)));
        }
        Ok(text)
    }
}

/// The symmetric key all persisted state is encrypted under: exactly 32
/// bytes, stored on disk as base64 text and never rotated once created.
pub struct AuthorizationKey {
    pub bytes: Vec<u8>,
}

impl AuthorizationKey {
    pub open spec fn wf(&self) -> bool {
        self.bytes@.len() == 32
    }
}

/// Parse the authorization key file's text: it must be base64 of exactly
/// 32 bytes. Any text that encodes a 32-byte value — in particular any
/// text `create_authorization_key` produced — is accepted and yields
/// those bytes; everything else is a `KeyDecode` failure.
pub fn decode_authorization_key(text: &str) -> (r: Result<AuthorizationKey, AegError>)
    ensures
        r is Ok ==> r->Ok_0.wf(),
        forall|b: Seq<u8>|
            b.len() == 32 && text@ == #[trigger] b64_of(b) ==> r is Ok && r->Ok_0.bytes@ == b,
        r is Err ==> r->Err_0 == AegError::KeyDecode,
{
    match AegCrypto::decode_base64(text) {
        Some(bytes) => {
            if bytes.len() == 32 {
                Ok(AuthorizationKey { bytes })
            } else {
                Err(AegError::KeyDecode)
            }
        },
        None => Err(AegError::KeyDecode),
    }
}

/// The key-management decision of startup: keep an existing key file's
/// text verbatim — regenerating it would make all previously encrypted
/// data unreadable — or, when no key file exists, create a fresh one.
/// The flag reports whether the caller must write the text to disk.
pub fn ensure_key_text(existing: Option<String>) -> (r: Result<(String, bool), AegError>)
    ensures
        existing is Some ==> r is Ok && (r->Ok_0).0@ == existing->0@ && (r->Ok_0).1 == false,
        existing is None && r is Ok ==> (r->Ok_0).1 == true && (r->Ok_0).0@.len() == 44
            && exists|seed: Seq<u8>|
            seed.len() == 32 && (r->Ok_0).0@ == b64_of(#[trigger] blake3_of(seed)),
{
    match existing {
        Some(text) => Ok((text, false)),
        None => {
            let text = AegCrypto::create_authorization_key()?;
            Ok((text, true))
        },
    }
}

} // verus!
