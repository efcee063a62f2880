use vstd::prelude::*;

verus! {

/// Failure taxonomy of the store.
///
/// `CollectionNotFound`, `CollectionAlreadyExists` and `CannotDeleteLastCollection`
/// are recoverable, typed outcomes of registry operations. `KeyDecode`,
/// `Decryption` and `Serialization` report a corrupted authorization key,
/// a failed ciphertext authentication and a malformed persisted payload,
/// respectively. `ConfigIo` stands for an unreadable or unwritable
/// configuration file (raised only by the unverified I/O layer).
/// `Encryption` reports that a payload could not be encrypted, either
/// because the system's randomness source failed or because the payload
/// exceeds the cipher's maximum message length.
#[derive(Debug, Clone, Copy, PartialEq, Eq, Structural)]
pub enum AegError {
    ConfigIo,
    KeyDecode,
    Decryption,
    Serialization,
    Encryption,
    CollectionNotFound,
    CollectionAlreadyExists,
    CannotDeleteLastCollection,
}

impl AegError {
    /// A short human-readable description, for callers that print failures.
    pub fn describe(&self) -> (r: &'static str)
        ensures
            r@ == self.describe_spec(),
    {
        match self {
            AegError::ConfigIo => "cannot read or write a configuration file",
            AegError::KeyDecode => "authorization key is not valid base64 of 32 bytes",
            AegError::Decryption => "ciphertext authentication failed",
            AegError::Serialization => "persisted payload is malformed",
            AegError::Encryption => "payload could not be encrypted",
            AegError::CollectionNotFound => "collection does not exist",
            AegError::CollectionAlreadyExists => "collection already exists",
            AegError::CannotDeleteLastCollection => "cannot delete the last collection",
        }
    }

    pub open spec fn describe_spec(&self) -> Seq<char> {
        match self {
            AegError::ConfigIo => "cannot read or write a configuration file"@,
            AegError::KeyDecode => "authorization key is not valid base64 of 32 bytes"@,
            AegError::Decryption => "ciphertext authentication failed"@,
            AegError::Serialization => "persisted payload is malformed"@,
            AegError::Encryption => "payload could not be encrypted"@,
            AegError::CollectionNotFound => "collection does not exist"@,
            AegError::CollectionAlreadyExists => "collection already exists"@,
            AegError::CannotDeleteLastCollection => "cannot delete the last collection"@,
        }
    }
}

} // verus!
