use vstd::prelude::*;
use vstd::string::*;

verus! {

/// The name of the lock file that registers a timer under `id`.
pub open spec fn lock_file_text(id: Seq<char>) -> Seq<char> {
    id + ".lock"@
}

/// The name of the lock file, inside the runtime directory, that registers a timer under `id`.
pub fn lock_file_name(id: &str) -> (r: String)
    ensures
        r@ == lock_file_text(id@),
{
    let mut r = String::from_str(id);
    r.append(".lock");
    r
}

/// Why a timer could not be registered.
#[derive(Clone, Copy, Debug, PartialEq, Eq, Structural)]
pub enum RegistrationError {
    /// Another running timer holds the lock of the same identifier.
    AlreadyRegistered,
    /// The runtime directory or the lock file could not be used.
    IoError,
}

/// The outcome of an attempt to lock the file of an identifier without waiting: `Some(true)`
/// when the lock was taken, `Some(false)` when another holder has it, `None` when the file
/// system failed.
pub fn registration_outcome(attempt: Option<bool>) -> (r: Result<(), RegistrationError>)
    ensures
        r == match attempt {
            Some(true) => Ok(()),
            Some(false) => Err(RegistrationError::AlreadyRegistered),
            None => Err(RegistrationError::IoError),
        },
{
    match attempt {
        Some(true) => Ok(()),
        Some(false) => Err(RegistrationError::AlreadyRegistered),
        None => Err(RegistrationError::IoError),
    }
}

} // verus!
