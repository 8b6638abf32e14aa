use vstd::prelude::*;

verus! {

/// `std::io::Error`, carried through unopened.
#[verifier::external_type_specification]
#[verifier::external_body]
pub struct ExIoError(std::io::Error);

/// `serde_json::Error`, carried through unopened.
#[verifier::external_type_specification]
#[verifier::external_body]
pub struct ExJsonError(serde_json::Error);

/// Why a record failed to encode or decode, as the contracts speak of it.
#[derive(Debug)]
pub enum Fault {
    /// A record that was read is not the command that was expected there.
    Frame,
    /// The bytes are not the JSON text of a command, or a command that was
    /// about to be written does not read back from its text.
    Json,
    /// The record would be longer than a length can say.
    Size,
}

/// What can go wrong in the store.
#[derive(Debug)]
pub enum KvError {
    /// Reading or writing a segment file failed. The store itself never
    /// returns this; it is here for the code that performs the actions.
    Io(std::io::Error),
    /// The key to be removed has no live value.
    KeyNotFound(String),
    /// A command could not be written as JSON, or bytes of a segment are
    /// not the JSON text of a command.
    SerdeError(serde_json::Error),
    /// A directory names a segment twice, or the record at an entry of the
    /// key directory is not a `Put` record.
    Corrupt,
    /// A segment identifier, an offset or a length would pass what its
    /// integer type can hold.
    TooLarge,
}

impl KvError {
    /// Whether this error is the one that reports `fault`.
    pub open spec fn reports(self, fault: Fault) -> bool {
        match fault {
            Fault::Frame => self is Corrupt,
            Fault::Json => self is SerdeError,
            Fault::Size => self is TooLarge,
        }
    }
}

} // verus!
