use vstd::prelude::*;

verus! {

#[verifier::external_type_specification]
#[verifier::external_body]
pub struct ExIoError(std::io::Error);

/// Everything that can go wrong while splitting or merging a stream.
#[derive(Debug)]
pub enum LockBlockError {
    /// The byte source failed.
    IOError(std::io::Error),
    /// The source of an encryption could not be used.
    EncryptionSourceError,
    /// A block could not be encrypted.
    EncryptionError,
    /// A pair did not decrypt under the key its context derives.
    DecryptionError,
    /// A construction parameter was invalid (a block size of zero).
    ConfigurationError,
}

} // verus!
