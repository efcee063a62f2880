use crate::crypto::{b64_of, AegCrypto, AuthorizationKey};
use crate::errors::AegError;
use vstd::prelude::*;

verus! {

/// The AES-256-GCM sealing of a plaintext under a 32-byte key and a
/// 12-byte nonce, with empty associated data: the ciphertext with its
/// 16-byte tag appended, a function of the three arguments alone.
pub uninterp spec fn sealed_of(key: Seq<u8>, nonce: Seq<u8>, plaintext: Seq<u8>) -> Seq<u8>;

/// The longest message AES-GCM encrypts: 2^36 - 32 bytes.
pub const MAX_PLAINTEXT_LEN: u64 = 68719476704;

/// Relies on aes_gcm's `Aes256Gcm` through `Aead::encrypt`: authenticated
/// encryption with the 16-byte tag appended, deterministic in key, nonce
/// and message, succeeding for every message of up to `MAX_PLAINTEXT_LEN`
/// bytes.
#[verifier::external_body]
fn seal(key: &[u8], nonce: &[u8], plaintext: &[u8]) -> (r: Vec<u8>)
    requires
        key@.len() == 32,
        nonce@.len() == 12,
        plaintext@.len() <= MAX_PLAINTEXT_LEN,
    ensures
        r@ == sealed_of(key@, nonce@, plaintext@),
        r@.len() == plaintext@.len() + 16,
{
    let cipher = <aes_gcm::Aes256Gcm as aes_gcm::KeyInit>::new_from_slice(key)
        .expect("key is 32 bytes");
    let nonce_bytes: [u8; 12] = nonce.try_into().expect("nonce is 12 bytes");
    let nonce_arr = aes_gcm::Nonce::from(nonce_bytes);
    aes_gcm::aead::Aead::encrypt(&cipher, &nonce_arr, plaintext)
        .expect("message length was checked")
}

/// Relies on aes_gcm's `Aes256Gcm` through `Aead::decrypt`: it returns
/// the sealed message for any ciphertext produced under the same key and
/// nonce, and fails (tag verification) on a wrong key, a wrong nonce or
/// a modified ciphertext.
#[verifier::external_body]
fn open_sealed(key: &[u8], nonce: &[u8], ciphertext: &[u8]) -> (r: Option<Vec<u8>>)
    requires
        key@.len() == 32,
        nonce@.len() == 12,
    ensures
        forall|pt: Seq<u8>|
            ciphertext@ == #[trigger] sealed_of(key@, nonce@, pt) ==> r is Some && r->0@ == pt,
{
    let cipher = <aes_gcm::Aes256Gcm as aes_gcm::KeyInit>::new_from_slice(key)
        .expect("key is 32 bytes");
    let nonce_bytes: [u8; 12] = nonce.try_into().expect("nonce is 12 bytes");
    let nonce_arr = aes_gcm::Nonce::from(nonce_bytes);
    aes_gcm::aead::Aead::decrypt(&cipher, &nonce_arr, ciphertext).ok()
}

/// A blob is a valid encryption of `payload` under `key`: base64 of a
/// 12-byte nonce followed by the AES-GCM sealing of the payload under
/// that nonce. Every encryption of a payload has this shape, whichever
/// nonce was drawn for it.
pub open spec fn blob_for(blob: Seq<char>, key: Seq<u8>, payload: Seq<u8>) -> bool {
    exists|nonce: Seq<u8>|
        nonce.len() == 12 && blob == b64_of(nonce + #[trigger] sealed_of(key, nonce, payload))
}

/// The persistence format: every payload written to disk is base64 of a
/// fresh random 12-byte nonce followed by the AES-256-GCM ciphertext of
/// the payload under the authorization key and that nonce.
pub struct EncryptedBlobCodec;

impl EncryptedBlobCodec {
    /// Encrypt `plaintext` under `key` with the given nonce. Succeeds
    /// exactly when the nonce has 12 bytes and the plaintext is within
    /// the cipher's length bound, and then produces the unique blob for
    /// this key, nonce and plaintext.
    pub fn encode_with_nonce(plaintext: &Vec<u8>, key: &AuthorizationKey, nonce: &Vec<u8>) -> (r:
        Result<String, AegError>)
        requires
            key.wf(),
        ensures
            r is Ok <==> nonce@.len() == 12 && plaintext@.len() <= MAX_PLAINTEXT_LEN,
            r is Ok ==> r->Ok_0@ == b64_of(nonce@ + sealed_of(key.bytes@, nonce@, plaintext@)),
            r is Ok ==> blob_for(r->Ok_0@, key.bytes@, plaintext@),
            r is Err ==> r->Err_0 == AegError::Encryption,
    {
        if nonce.len() != 12 {
            return Err(AegError::Encryption);
        }
        if plaintext.len() as u64 > MAX_PLAINTEXT_LEN {
            return Err(AegError::Encryption);
        }
        let sealed = seal(key.bytes.as_slice(), nonce.as_slice(), plaintext.as_slice());
        let mut framed: Vec<u8> = Vec::new();
        framed.extend_from_slice(nonce.as_slice());
        framed.extend_from_slice(sealed.as_slice());
        proof {
            assert(framed@ == nonce@ + sealed@);
        }
        let blob = AegCrypto::encode_base64(framed.as_slice());
        Ok(blob)
    }

    /// Encrypt `plaintext` under `key` with a fresh random nonce. Any
    /// blob this returns satisfies `blob_for` the given payload, and so
    /// is decoded back to it by `decode`. It fails only when the
    /// randomness source fails or the plaintext exceeds the cipher's
    /// length bound.
    pub fn encode(plaintext: &Vec<u8>, key: &AuthorizationKey) -> (r: Result<String, AegError>)
        requires
            key.wf(),
        ensures
            r is Ok ==> blob_for(r->Ok_0@, key.bytes@, plaintext@),
            plaintext@.len() > MAX_PLAINTEXT_LEN ==> r is Err,
            r is Err ==> r->Err_0 == AegError::Encryption,
    {
        let nonce = AegCrypto::generate_random_bytes(12)?;
        Self::encode_with_nonce(plaintext, key, &nonce)
    }

    /// Decrypt a blob. Every blob that is a valid encryption of some
    /// payload under `key` — in particular everything `encode` produced
    /// under it — is decoded to exactly that payload; a blob that is not
    /// valid base64, is too short to hold a nonce, or fails the cipher's
    /// authentication is a `Decryption` failure.
    pub fn decode(blob: &str, key: &AuthorizationKey) -> (r: Result<Vec<u8>, AegError>)
        requires
            key.wf(),
        ensures
            forall|payload: Seq<u8>|
                blob_for(blob@, key.bytes@, payload) ==> r is Ok && r->Ok_0@ == payload,
            r is Err ==> r->Err_0 == AegError::Decryption,
    {
        let mut framed = match AegCrypto::decode_base64(blob) {
            Some(b) => b,
            None => {
                proof {
                    assert forall|payload: Seq<u8>| !blob_for(blob@, key.bytes@, payload) by {
                        if blob_for(blob@, key.bytes@, payload) {
                            let nonce = choose|nonce: Seq<u8>|
                                nonce.len() == 12 && blob@ == b64_of(
                                    nonce + sealed_of(key.bytes@, nonce, payload),
                                );
                            assert(blob@ == b64_of(nonce + sealed_of(key.bytes@, nonce, payload)));
                        }
                    }
                }
                return Err(AegError::Decryption);
            },
        };
        if framed.len() < 12 {
            proof {
                assert forall|payload: Seq<u8>| !blob_for(blob@, key.bytes@, payload) by {
                    if blob_for(blob@, key.bytes@, payload) {
                        let nonce = choose|nonce: Seq<u8>|
                            nonce.len() == 12 && blob@ == b64_of(
                                nonce + sealed_of(key.bytes@, nonce, payload),
                            );
                        assert(framed@ == nonce + sealed_of(key.bytes@, nonce, payload));
                        assert(framed@.len() >= 12);
                    }
                }
            }
            return Err(AegError::Decryption);
        }
        let ghost framed_view = framed@;
        let sealed = framed.split_off(12);
        let nonce = framed;
        proof {
            assert(nonce@ == framed_view.subrange(0, 12));
            assert(sealed@ == framed_view.subrange(12, framed_view.len() as int));
        }
        match open_sealed(key.bytes.as_slice(), nonce.as_slice(), sealed.as_slice()) {
            Some(pt) => {
                proof {
                    assert forall|payload: Seq<u8>|
                        blob_for(blob@, key.bytes@, payload) implies pt@ == payload by {
                        let n = choose|n: Seq<u8>|
                            n.len() == 12 && blob@ == b64_of(
                                n + sealed_of(key.bytes@, n, payload),
                            );
                        assert(framed_view == n + sealed_of(key.bytes@, n, payload));
                        assert(nonce@ =~= n);
                        assert(sealed@ =~= sealed_of(key.bytes@, n, payload));
                    }
                }
                Ok(pt)
            },
            None => {
                proof {
                    assert forall|payload: Seq<u8>| !blob_for(blob@, key.bytes@, payload) by {
                        if blob_for(blob@, key.bytes@, payload) {
                            let n = choose|n: Seq<u8>|
                                n.len() == 12 && blob@ == b64_of(
                                    n + sealed_of(key.bytes@, n, payload),
                                );
                            assert(framed_view == n + sealed_of(key.bytes@, n, payload));
                            assert(nonce@ =~= n);
                            assert(sealed@ =~= sealed_of(key.bytes@, n, payload));
                        }
                    }
                }
                Err(AegError::Decryption)
            },
        }
    }
}

} // verus!
