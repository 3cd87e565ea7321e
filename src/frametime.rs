//! Frametimes from successive sensor timestamps of one process.
use crate::signal::{decode_spec, FrameSignal};
use vstd::prelude::*;

verus! {

/// Time from `last_ns` to `now_ns`; zero when the clock readings are out of
/// order, never a wrapped-around value.
pub open spec fn frametime_spec(now_ns: u64, last_ns: u64) -> u64 {
    if now_ns >= last_ns {
        (now_ns - last_ns) as u64
    } else {
        0
    }
}

/// The timestamps carried by `records`, in order; a record too short to
/// decode carries none.
pub open spec fn stamps_of(records: Seq<Seq<u8>>) -> Seq<u64>
    decreases records.len(),
{
    if records.len() == 0 {
        Seq::empty()
    } else {
        let front = stamps_of(records.drop_last());
        match decode_spec(records.last()) {
            Ok(signal) => front.push(signal.ktime_ns),
            Err(_) => front,
        }
    }
}

/// The timestamp that a tracker holds after it has seen `stamps`, starting
/// from `last_ns`.
pub open spec fn last_after(last_ns: u64, stamps: Seq<u64>) -> u64 {
    if stamps.len() == 0 {
        last_ns
    } else {
        stamps.last()
    }
}

/// The frametime reported for one drain of `stamps`, starting from
/// `last_ns`: the last timestamp minus the one before it (or minus `last_ns`
/// when the drain saw a single one), zero when the drain saw none.
pub open spec fn drained_frametime(last_ns: u64, stamps: Seq<u64>) -> u64 {
    if stamps.len() == 0 {
        0
    } else {
        frametime_spec(stamps.last(), last_after(last_ns, stamps.drop_last()))
    }
}

/// Saturating difference of two clock readings, in nanoseconds.
pub fn frametime_ns(now_ns: u64, last_ns: u64) -> (r: u64)
    ensures
        r == frametime_spec(now_ns, last_ns),
        last_ns <= now_ns ==> r == now_ns - last_ns,
        last_ns > now_ns ==> r == 0,
{
    now_ns.saturating_sub(last_ns)
}

/// The per-process frametime state: the last timestamp seen, 0 before the
/// first one.
#[derive(Clone, Copy, Debug, PartialEq, Eq, Structural)]
pub struct FrametimeTracker {
    pub last_timestamp_ns: u64,
}

impl FrametimeTracker {
    pub fn new() -> (r: Self)
        ensures
            r.last_timestamp_ns == 0,
    {
        FrametimeTracker { last_timestamp_ns: 0 }
    }

    /// Takes one timestamp: returns its distance to the previous one and
    /// keeps it as the new previous one.
    pub fn observe(&mut self, ktime_ns: u64) -> (r: u64)
        ensures
            r == frametime_spec(ktime_ns, old(self).last_timestamp_ns),
            final(self).last_timestamp_ns == ktime_ns,
    {
        let frametime = frametime_ns(ktime_ns, self.last_timestamp_ns);
        self.last_timestamp_ns = ktime_ns;
        frametime
    }

    /// Takes every record drained from the ring buffer in one go. Each
    /// decoded timestamp advances the tracker; the frametime of the last one
    /// is returned, or zero when no record decoded.
    pub fn drain(&mut self, records: &Vec<Vec<u8>>) -> (r: u64)
        ensures
            r == drained_frametime(old(self).last_timestamp_ns, stamps_of(records.deep_view())),
            final(self).last_timestamp_ns == last_after(
                old(self).last_timestamp_ns,
                stamps_of(records.deep_view()),
            ),
    {
        let ghost start = self.last_timestamp_ns;
        let mut frametime: u64 = 0;
        let mut i: usize = 0;
        while i < records.len()
            invariant
                0 <= i <= records.len(),
                frametime == drained_frametime(start, stamps_of(records.deep_view().take(i as int))),
                self.last_timestamp_ns == last_after(start, stamps_of(records.deep_view().take(i as int))),
            decreases records.len() - i,
        {
            let ghost done = records.deep_view().take(i as int);
            assert(records.deep_view().take(i + 1 as int).drop_last() =~= done);
            assert(records.deep_view().take(i + 1 as int).last() == records[i as int]@);
            match FrameSignal::decode(records[i].as_slice()) {
                Ok(signal) => {
                    let ghost stamps = stamps_of(done);
                    assert(stamps.push(signal.ktime_ns).drop_last() =~= stamps);
                    frametime = self.observe(signal.ktime_ns);
                },
                Err(_) => {},
            }
            i = i + 1;
        }
        assert(records.deep_view().take(records.len() as int) =~= records.deep_view());
        frametime
    }
}

} // verus!
