use vstd::prelude::*;

verus! {

/// The single error value that every fallible operation of this
/// library reports to its caller.
#[derive(Debug)]
pub struct ListError {
    pub message: String,
}

/// Outcome of a filesystem operation, as the callers of this library
/// hand it in: either it worked, the target was absent, or it failed
/// with some other message.
#[derive(Debug)]
pub enum IoErr {
    NotFound,
    Other(String),
}

impl ListError {
    /// Build an error around a fixed description.
    pub fn new(message: String) -> (r: ListError)
        ensures
            r.message@ == message@,
    {
        ListError { message }
    }
}

/// A deletion that finds its target already gone has still reached the
/// state it wanted: absence is success, every other failure is passed on.
pub fn not_found_is_fine(r: Result<(), IoErr>) -> (out: Result<(), ListError>)
    ensures
        match r {
            Ok(()) => out is Ok,
            Err(IoErr::NotFound) => out is Ok,
            Err(IoErr::Other(_)) => out is Err,
        },
{
    match r {
        Ok(()) => Ok(()),
        Err(IoErr::NotFound) => Ok(()),
        Err(IoErr::Other(m)) => Err(ListError { message: m }),
    }
}

} // verus!
