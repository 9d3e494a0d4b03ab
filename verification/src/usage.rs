//! The command line: a program name, a reference genome, the number of
//! individuals, and at least that many genome files.

use vstd::prelude::*;

verus! {

/// Why a command line was refused, before any file is touched.
#[derive(Debug, Clone, Copy, PartialEq, Eq, Structural)]
pub enum UsageError {
    /// Fewer than four arguments, the program's name included.
    TooFewArguments,
    /// The number of individuals is no number, is zero, or is larger than
    /// the number of genome files that follow it.
    InvalidIndividuals,
}

/// The number of individuals of a run, from the number of arguments (the
/// program's name included) and the third argument as a number, if it is one.
///
/// The genome files of the individuals are the arguments from the fourth on,
/// as many as the number returned; further arguments are ignored.
pub fn individuals_requested(argument_count: usize, requested: Option<usize>) -> (result: Result<
    usize,
    UsageError,
>)
    ensures
        argument_count < 4 ==> result == Err::<usize, UsageError>(UsageError::TooFewArguments),
        argument_count >= 4 ==> match requested {
            Some(count) if 1 <= count <= argument_count - 3 => result == Ok::<usize, UsageError>(
                count,
            ),
            _ => result == Err::<usize, UsageError>(UsageError::InvalidIndividuals),
        },
{
    if argument_count < 4 {
        return Err(UsageError::TooFewArguments);
    }
    match requested {
        Some(count) => {
            if count < 1 || argument_count - 3 < count {
                Err(UsageError::InvalidIndividuals)
            } else {
                Ok(count)
            }
        },
        None => Err(UsageError::InvalidIndividuals),
    }
}

} // verus!
