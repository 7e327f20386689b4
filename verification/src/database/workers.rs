//! Persistent interpreters: how their faults are reported.

use crate::storage;
use crate::text;
use crate::text::to_decimal;
use crate::vm;
use vstd::prelude::*;

verus! {

pub const POISONED: &'static str = "worker pool requires recovery";

pub const DISCONNECTED: &'static str = "transaction worker disconnected";

pub const PANICKED: &'static str = "transaction worker panicked";

/// The text of an I/O failure, where an error is one.
pub open spec fn failure_text(error: vm::Error) -> Option<Seq<char>> {
    match error {
        vm::Error::Storage(storage::Error::Io(message)) => Some(message@),
        _ => None,
    }
}

/// A system failure with this text.
pub fn failure(message: &str) -> (error: vm::Error)
    ensures
        failure_text(error) == Some(message@),
{
    vm::Error::Storage(storage::Error::Io(message.to_owned()))
}

/// The text that is kept of the first fault of a worker: the record that it
/// interpreted, and the text of its error.
pub fn fault_text(sequence: u64, error: &str) -> (message: String)
    ensures
        message@ == "record "@ + text::decimal(sequence as nat) + ": "@ + error@,
{
    let mut message = "record ".to_owned();
    message.append(to_decimal(sequence).as_str());
    message.append(": ");
    message.append(error);
    message
}

/// Whether a job may be sent to a worker: not once a worker has failed.
pub fn check_pool(poisoned: bool) -> (checked: Result<(), vm::Error>)
    ensures
        match checked {
            Ok(()) => !poisoned,
            Err(e) => poisoned && failure_text(e) == Some(POISONED@),
        },
{
    if poisoned {
        return Err(failure(POISONED));
    }
    Ok(())
}

} // verus!
