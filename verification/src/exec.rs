//! Execution of the programs that the system installs for `detc`.
//!
//! Probes and providers are both executables that the administrator, the
//! distribution or the first boot dropped in the system, and both are run the
//! same way: with their own directory as the working directory, with the root
//! in the environment, and speaking a document through the standard streams.

use vstd::prelude::*;

use crate::provider::said;
use crate::text;

verus! {

/// Environment variable that tells the program which root to work on.
pub const DETC_ROOT_ENV: &'static str = "DETC_ROOT";

/// Environment variable that tells the program where the lock of the run is.
pub const RUN_LOCK_ENV: &'static str = "DETC_RUN_LOCK";

/// How many times a program that is still open for writing is retried.
pub const SPAWN_ATTEMPTS: u32 = 5;

/// How long to wait before the first retry, in milliseconds.  The delay grows
/// with every attempt.
pub const SPAWN_RETRY_DELAY: u64 = 5;

/// Whether a file with these permissions can be run.
pub open spec fn can_run(mode: u32) -> bool {
    mode & 0o111 != 0
}

/// A file can be run when its owner, its group or anybody can run it.
pub proof fn law_a_program_is_what_somebody_can_run(mode: u32)
    ensures
        can_run(mode) <==> mode & 1 != 0 || mode & 8 != 0 || mode & 64 != 0,
        can_run(0o755),
        can_run(0o100),
        !can_run(0o644),
        !can_run(0o666),
{
    assert(mode & 0o111 != 0 <==> mode & 1 != 0 || mode & 8 != 0 || mode & 64 != 0) by (bit_vector);
    assert(0o755u32 & 0o111 != 0 && 0o100u32 & 0o111 != 0 && 0o644u32 & 0o111 == 0 && 0o666u32 & 0o111
        == 0) by (bit_vector);
}

/// How long to wait, in milliseconds, after an attempt to start a program.
pub open spec fn delay_after(attempt: u32) -> Option<u64> {
    if attempt < SPAWN_ATTEMPTS {
        Some((SPAWN_RETRY_DELAY * (attempt + 1)) as u64)
    } else {
        None
    }
}

/// A program that is busy is started again five times, each time after five
/// milliseconds more than the time before.
pub proof fn law_a_busy_program_is_started_again(attempt: u32)
    ensures
        delay_after(0) == Some(5u64),
        attempt < 5 ==> delay_after(attempt) is Some,
        attempt >= 5 ==> delay_after(attempt) is None,
        attempt < 4 ==> delay_after((attempt + 1) as u32)->0 == delay_after(attempt)->0 + 5,
{
}

/// Whether a file with these permissions can be run.  Only the exec bits are
/// looked at, so a file without them is documentation, not a program.
pub fn is_executable(mode: u32) -> (r: bool)
    ensures
        r == can_run(mode),
        r == (mode & 0o111 != 0),
{
    mode & 0o111 != 0
}

/// How long to wait, in milliseconds, before a program that is still busy is
/// started again, or nothing after the last attempt.
pub fn retry(attempt: u32) -> (r: Option<u64>)
    ensures
        r == delay_after(attempt),
        r == (if attempt < SPAWN_ATTEMPTS {
            Some((SPAWN_RETRY_DELAY * (attempt + 1)) as u64)
        } else {
            None
        }),
{
    if attempt < SPAWN_ATTEMPTS {
        Some(SPAWN_RETRY_DELAY * (attempt as u64 + 1))
    } else {
        None
    }
}

/// What a program finds in its environment: the root that it works on, and the
/// lock of the run for as long as the run holds it.
pub fn environment(root: &str, held: Option<&str>) -> (r: Vec<(&'static str, String)>)
    ensures
        r@.len() == (if held is Some {
            2int
        } else {
            1
        }),
        r@[0].0@ == DETC_ROOT_ENV@ && r@[0].1@ == root@,
        held matches Some(lock) ==> r@[1].0@ == RUN_LOCK_ENV@ && r@[1].1@ == lock@,
{
    let mut r: Vec<(&'static str, String)> = Vec::new();
    r.push((DETC_ROOT_ENV, root.to_owned()));
    if let Some(lock) = held {
        r.push((RUN_LOCK_ENV, lock.to_owned()));
    }
    r
}

/// What a program that ended said, or why it failed.
pub open spec fn ended(
    path: Seq<char>,
    success: bool,
    status: Seq<char>,
    stdout: Seq<u8>,
) -> Result<Seq<char>, Seq<char>> {
    if !success {
        Err(path + " failed with status "@ + status)
    } else {
        match text::decoded(stdout) {
            Some(t) => Ok(t),
            None => Err(
                path + " wrote output that is not valid UTF-8: "@ + text::utf8_complaint(stdout),
            ),
        }
    }
}

/// What a program that ended said, or why it failed.
///
/// A program that exits with a failure, or that writes something that is not
/// UTF-8, is an error: the caller cannot tell a truncated document from a
/// complete one.
pub fn output(path: &str, success: bool, status: &str, stdout: Vec<u8>) -> (r: Result<
    String,
    String,
>)
    ensures
        said(r) == ended(path@, success, status@, stdout@),
{
    if !success {
        let mut e = path.to_owned();
        e.append(" failed with status ");
        e.append(status);
        return Err(e);
    }
    match text::from_utf8(stdout) {
        Ok(t) => Ok(t),
        Err(why) => {
            let mut e = path.to_owned();
            e.append(" wrote output that is not valid UTF-8: ");
            e.append(why.as_str());
            Err(e)
        },
    }
}

/// A program that ends well says what it wrote, when that is text; one that
/// does not is an error, whatever it wrote.
pub proof fn law_a_program_says_what_it_wrote(
    path: Seq<char>,
    status: Seq<char>,
    stdout: Seq<u8>,
)
    ensures
        ended(path, false, status, stdout) is Err,
        text::decoded(stdout) is None ==> ended(path, true, status, stdout) is Err,
        text::decoded(stdout) matches Some(t) ==> ended(path, true, status, stdout) == Ok::<
            Seq<char>,
            Seq<char>,
        >(t),
{
}

} // verus!
