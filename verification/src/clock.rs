use vstd::prelude::*;
use solana_program::clock::Clock;
use solana_program::program_error::ProgramError;
use solana_program::sysvar::Sysvar;

verus! {

/// The host's error type, carried through without looking inside.
#[verifier::external_type_specification]
#[verifier::external_body]
pub struct ExProgramError(ProgramError);

/// Asks the host for the clock with `Clock::get` and hands back the Unix
/// time it shows, or the host's error. Nothing is claimed of the reading:
/// it is whatever the host says at the moment of the call.
#[verifier::external_body]
pub(crate) fn host_unix_timestamp() -> (reading: Result<i64, ProgramError>) {
    match Clock::get() {
        Ok(clock) => Ok(clock.unix_timestamp),
        Err(e) => Err(e),
    }
}

} // verus!
