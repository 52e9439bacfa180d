//! What can be told of a process from its number and from the line in which the
//! kernel reports on it.
use crate::fstab::{fields_of, split_fields, views_of};
use vstd::prelude::*;
use vstd::string::*;

verus! {

/// Why the state of a process is not known.
#[derive(Clone, Copy, Debug, PartialEq, Eq, Structural)]
pub enum ProcessStateError {
    /// The report of the kernel on the process could not be read.
    Unreadable,
    /// The report has fewer fields than a report has.
    InvalidFormat,
}

/// Whether `pid` can be the number of a process.
pub fn valid_pid(pid: i32) -> (valid: bool)
    ensures
        valid == (pid > 0),
{
    if pid <= 0 {
        return false;
    }
    true
}

/// Whether the state of the process `pid` is known without a look at the report of the
/// kernel: the process that asks, whose own number is `own_pid` and which is also
/// meant by the number 0, is running.
pub open spec fn state_is_plain(pid: i32, own_pid: i32) -> bool {
    pid == 0 || pid == own_pid
}

/// The letter in the fourth field of the report `line`, if the report has four
/// fields.
pub open spec fn stat_state(line: Seq<char>) -> Result<char, ProcessStateError> {
    let stat = fields_of(line);
    if stat.len() < 4 || stat[3].len() == 0 {
        Err(ProcessStateError::InvalidFormat)
    } else {
        Ok(stat[3][0])
    }
}

/// The state of the process `pid` as the process `own_pid` sees it, `stat_line` being
/// the first line of the report of the kernel on `pid`, if it could be read.
pub open spec fn process_state_spec(pid: i32, own_pid: i32, stat_line: Option<&str>) -> Result<
    char,
    ProcessStateError,
> {
    if state_is_plain(pid, own_pid) {
        Ok('R')
    } else {
        match stat_line {
            None => Err(ProcessStateError::Unreadable),
            Some(line) => stat_state(line@),
        }
    }
}

/// The number of the process that asks.
///
/// Calls `nix::unistd::getpid` and takes the number out of what comes back. Nothing is
/// claimed of the number: it is the kernel's to give.
#[verifier::external_body]
fn own_pid() -> (own: i32) {
    nix::unistd::getpid().as_raw()
}

/// Whether the report of the kernel has to be read to tell the state of `pid`, for a
/// process whose own number is `own_pid`.
pub fn stat_needed_of(pid: i32, own_pid: i32) -> (needed: bool)
    ensures
        needed == !state_is_plain(pid, own_pid),
{
    !(pid == 0 || pid == own_pid)
}

/// Whether the process that asks has to read the report of the kernel to tell the
/// state of `pid`.
pub fn stat_needed(pid: i32) -> (needed: bool)
    ensures
        exists|own: i32| needed == !state_is_plain(pid, own),
        pid == 0 ==> !needed,
{
    let own = own_pid();
    let needed = stat_needed_of(pid, own);
    proof {
        assert(needed == !state_is_plain(pid, own));
    }
    needed
}

/// The state of the process `pid` as the process that asks sees it, `stat_line` being
/// the first line of the report of the kernel on `pid`, if it could be read.
pub fn process_state(pid: i32, stat_line: Option<&str>) -> (state: Result<char, ProcessStateError>)
    ensures
        exists|own: i32| state == process_state_spec(pid, own, stat_line),
        pid == 0 ==> state == Ok::<char, ProcessStateError>('R'),
{
    let own = own_pid();
    let state = process_state_of(pid, own, stat_line);
    proof {
        assert(state == process_state_spec(pid, own, stat_line));
    }
    state
}

/// The state of the process `pid` as the process `own_pid` sees it.
pub fn process_state_of(pid: i32, own_pid: i32, stat_line: Option<&str>) -> (state: Result<
    char,
    ProcessStateError,
>)
    ensures
        state == process_state_spec(pid, own_pid, stat_line),
{
    if pid == 0 || pid == own_pid {
        return Ok('R');
    }
    let first_line = match stat_line {
        None => {
            return Err(ProcessStateError::Unreadable);
        },
        Some(line) => line,
    };
    let stat = split_fields(first_line);
    if stat.len() < 4 {
        return Err(ProcessStateError::InvalidFormat);
    }
    proof {
        assert(views_of(stat@)[3] == stat@[3]@);
    }
    let p_stat = stat[3];
    if p_stat.unicode_len() == 0 {
        return Err(ProcessStateError::InvalidFormat);
    }
    Ok(p_stat.get_char(0))
}

/// Whether the process `pid` is alive: a negative number is no process; the first
/// process and the process that asks are alive; any other process is alive if its
/// state is known and is not that of a process that has ended and waits to be reaped.
pub open spec fn alive_spec(pid: i32, own_pid: i32, stat_line: Option<&str>) -> bool {
    if pid < 0 {
        false
    } else if pid <= 1 || pid == own_pid {
        true
    } else {
        match process_state_spec(pid, own_pid, stat_line) {
            Ok(state) => state != 'Z',
            Err(_) => false,
        }
    }
}

/// Whether the process `pid` is alive, as the process that asks sees it.
pub fn alive(pid: i32, stat_line: Option<&str>) -> (yes: bool)
    ensures
        exists|own: i32| yes == alive_spec(pid, own, stat_line),
        pid < 0 ==> !yes,
        0 <= pid <= 1 ==> yes,
{
    let own = own_pid();
    let yes = alive_of(pid, own, stat_line);
    proof {
        assert(yes == alive_spec(pid, own, stat_line));
    }
    yes
}

/// Whether the process `pid` is alive, as the process `own_pid` sees it.
pub fn alive_of(pid: i32, own_pid: i32, stat_line: Option<&str>) -> (yes: bool)
    ensures
        yes == alive_spec(pid, own_pid, stat_line),
{
    if pid < 0 {
        return false;
    }
    if pid <= 1 {
        return true;
    }
    if pid == own_pid {
        return true;
    }
    let ret = process_state_of(pid, own_pid, stat_line);
    match ret {
        Err(_) => false,
        Ok(state) => state != 'Z',
    }
}

} // verus!
