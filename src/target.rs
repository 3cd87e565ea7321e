//! One instrumented process: its attachment, the descriptor that the poller
//! watches, and its frametime state.
use crate::frametime::{drained_frametime, last_after, stamps_of, FrametimeTracker};
use vstd::prelude::*;

verus! {

/// Process identifier of a target application.
pub type Pid = i32;

/// The poller token under which a process's descriptor is registered: the
/// pid's 32 bits read as an unsigned number. Tokens of distinct pids differ.
pub open spec fn token_spec(pid: Pid) -> u64 {
    if pid >= 0 {
        pid as u64
    } else {
        (pid + 0x1_0000_0000) as u64
    }
}

/// The pid that a token stands for; tokens above 32 bits stand for none.
pub open spec fn token_pid_spec(token: u64) -> Option<Pid> {
    if token < 0x8000_0000 {
        Some(token as Pid)
    } else if token < 0x1_0000_0000 {
        Some((token - 0x1_0000_0000) as Pid)
    } else {
        None
    }
}

pub fn pid_to_token(pid: Pid) -> (r: u64)
    ensures
        r == token_spec(pid),
{
    if pid >= 0 {
        pid as u64
    } else {
        (pid as i64 + 0x1_0000_0000i64) as u64
    }
}

pub fn token_to_pid(token: u64) -> (r: Option<Pid>)
    ensures
        r == token_pid_spec(token),
{
    if token < 0x8000_0000 {
        Some(token as Pid)
    } else if token < 0x1_0000_0000 {
        Some((token as i64 - 0x1_0000_0000i64) as Pid)
    } else {
        None
    }
}

/// A token names the pid it was made from, and no other.
pub proof fn lemma_token_round_trip(pid: Pid, other: Pid)
    ensures
        token_pid_spec(token_spec(pid)) == Some(pid),
        token_spec(pid) == token_spec(other) <==> pid == other,
{
}

/// An attached process.
pub struct AnalyzeTarget<H> {
    pub pid: Pid,
    /// The sensor attachment; dropping it detaches the sensor.
    pub uprobe: H,
    /// The pollable descriptor of the attachment's ring buffer.
    pub fd: i32,
    pub tracker: FrametimeTracker,
}

impl<H> AnalyzeTarget<H> {
    pub fn new(pid: Pid, uprobe: H, fd: i32) -> (r: Self)
        ensures
            r.pid == pid,
            r.uprobe == uprobe,
            r.fd == fd,
            r.tracker.last_timestamp_ns == 0,
    {
        AnalyzeTarget { pid, uprobe, fd, tracker: FrametimeTracker::new() }
    }

    /// Feeds the records drained from this target's ring buffer to its
    /// tracker and returns the frametime of the last one.
    pub fn update(&mut self, records: &Vec<Vec<u8>>) -> (r: u64)
        ensures
            r == drained_frametime(old(self).tracker.last_timestamp_ns, stamps_of(records.deep_view())),
            final(self).tracker.last_timestamp_ns == last_after(
                old(self).tracker.last_timestamp_ns,
                stamps_of(records.deep_view()),
            ),
            final(self).pid == old(self).pid,
            final(self).uprobe == old(self).uprobe,
            final(self).fd == old(self).fd,
    {
        self.tracker.drain(records)
    }
}

} // verus!
