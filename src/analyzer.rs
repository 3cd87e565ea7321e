//! The analyzer: which processes are attached, what the poller watches, and
//! which ready processes still wait to be drained.
//!
//! Everything that touches the kernel (loading and attaching the sensor,
//! waiting on the poller, reading a ring buffer) is done by the caller and
//! handed in as a closure; the analyzer decides when each of them runs and
//! what becomes of its result.
use crate::error::AnalyzerError;
use crate::frametime::{drained_frametime, last_after, stamps_of, FrametimeTracker};
use crate::target::{
    lemma_token_round_trip, pid_to_token, token_pid_spec, token_spec, token_to_pid, AnalyzeTarget,
    Pid,
};
use std::collections::VecDeque;
use std::time::Duration;
use vstd::prelude::*;

verus! {

/// No pid occurs twice among `targets`.
pub open spec fn unique_pids<H>(targets: Seq<AnalyzeTarget<H>>) -> bool {
    forall|i: int, j: int|
        0 <= i < targets.len() && 0 <= j < targets.len() && i != j ==> targets[i].pid
            != targets[j].pid
}

/// Some target among `targets` is `pid`'s.
pub open spec fn holds_pid<H>(targets: Seq<AnalyzeTarget<H>>, pid: Pid) -> bool {
    exists|i: int| 0 <= i < targets.len() && targets[i].pid == pid
}

/// The position of `pid`'s target among `targets`.
pub open spec fn slot_of<H>(targets: Seq<AnalyzeTarget<H>>, pid: Pid) -> int {
    choose|i: int| 0 <= i < targets.len() && targets[i].pid == pid
}

/// The targets keyed by pid.
pub open spec fn table_of<H>(targets: Seq<AnalyzeTarget<H>>) -> Map<Pid, AnalyzeTarget<H>> {
    Map::new(|p: Pid| holds_pid(targets, p), |p: Pid| targets[slot_of(targets, p)])
}

/// `regs` registers each attached process once, under its token, with the
/// descriptor of its ring buffer, and nothing else.
pub open spec fn registrations_match<H>(
    regs: Seq<(u64, i32)>,
    table: Map<Pid, AnalyzeTarget<H>>,
) -> bool {
    &&& forall|i: int|
        0 <= i < regs.len() ==> match token_pid_spec(#[trigger] regs[i].0) {
            Some(p) => table.contains_key(p) && regs[i].1 == table[p].fd,
            None => false,
        }
    &&& forall|p: Pid|
        #![trigger table[p]]
        table.contains_key(p) ==> exists|i: int| 0 <= i < regs.len() && regs[i].0 == token_spec(p)
    &&& forall|i: int, j: int| 0 <= i < regs.len() && 0 <= j < regs.len() && i != j ==> regs[i].0 != regs[j].0
}

proof fn lemma_slot<H>(targets: Seq<AnalyzeTarget<H>>, i: int)
    requires
        unique_pids(targets),
        0 <= i < targets.len(),
    ensures
        table_of(targets).contains_key(targets[i].pid),
        table_of(targets)[targets[i].pid] == targets[i],
{
    assert(holds_pid(targets, targets[i].pid));
}

proof fn lemma_table_push<H>(targets: Seq<AnalyzeTarget<H>>, t: AnalyzeTarget<H>)
    requires
        unique_pids(targets),
        !holds_pid(targets, t.pid),
    ensures
        unique_pids(targets.push(t)),
        table_of(targets.push(t)) == table_of(targets).insert(t.pid, t),
{
    let s = targets.push(t);
    assert forall|i: int| 0 <= i < targets.len() implies s[i] == targets[i] by {}
    assert(unique_pids(s));
    assert forall|p: Pid| #[trigger] holds_pid(s, p) == (holds_pid(targets, p) || p == t.pid) by {
        if holds_pid(targets, p) {
            let i = choose|i: int| 0 <= i < targets.len() && targets[i].pid == p;
            assert(s[i].pid == p);
        }
        if p == t.pid {
            assert(s[targets.len() as int].pid == p);
        }
    }
    assert forall|p: Pid| #[trigger] table_of(s).contains_key(p) implies table_of(s)[p] == table_of(
        targets,
    ).insert(t.pid, t)[p] by {
        lemma_slot(s, slot_of(s, p));
        if p != t.pid {
            lemma_slot(targets, slot_of(s, p));
        }
    }
    assert(table_of(s) =~= table_of(targets).insert(t.pid, t));
}

proof fn lemma_table_remove<H>(targets: Seq<AnalyzeTarget<H>>, i: int)
    requires
        unique_pids(targets),
        0 <= i < targets.len(),
    ensures
        unique_pids(targets.remove(i)),
        table_of(targets.remove(i)) == table_of(targets).remove(targets[i].pid),
{
    let s = targets.remove(i);
    let gone = targets[i].pid;
    assert forall|k: int| 0 <= k < s.len() implies s[k] == targets[if k < i { k } else { k + 1 }] by {}
    assert(unique_pids(s));
    assert forall|p: Pid| #[trigger] holds_pid(s, p) == (holds_pid(targets, p) && p != gone) by {
        if holds_pid(targets, p) && p != gone {
            let k = choose|k: int| 0 <= k < targets.len() && targets[k].pid == p;
            assert(s[if k < i { k } else { k - 1 }].pid == p);
        }
        if holds_pid(s, p) {
            let k = choose|k: int| 0 <= k < s.len() && s[k].pid == p;
            assert(targets[if k < i { k } else { k + 1 }].pid == p);
        }
    }
    assert forall|p: Pid| #[trigger] table_of(s).contains_key(p) implies table_of(s)[p] == table_of(
        targets,
    ).remove(gone)[p] by {
        let k = slot_of(s, p);
        lemma_slot(s, k);
        lemma_slot(targets, if k < i { k } else { k + 1 });
    }
    assert(table_of(s) =~= table_of(targets).remove(gone));
}

/// A fresh target for `pid`: nothing seen from it yet.
pub open spec fn fresh_target<H>(pid: Pid, uprobe: H, fd: i32) -> AnalyzeTarget<H> {
    AnalyzeTarget { pid, uprobe, fd, tracker: FrametimeTracker { last_timestamp_ns: 0 } }
}

/// What attaching `pid` does to the table, given what opening the sensor
/// gave: nothing when `pid` is attached already (the sensor is then not
/// opened at all), else a fresh entry on success and the sensor's error on
/// failure.
pub open spec fn attach_step<H>(
    table: Map<Pid, AnalyzeTarget<H>>,
    pid: Pid,
    opened: Result<(H, i32), AnalyzerError>,
) -> (Result<(), AnalyzerError>, Map<Pid, AnalyzeTarget<H>>) {
    if table.contains_key(pid) {
        (Ok(()), table)
    } else {
        match opened {
            Ok((uprobe, fd)) => (Ok(()), table.insert(pid, fresh_target(pid, uprobe, fd))),
            Err(e) => (Err(e), table),
        }
    }
}

/// Keeps every pid but `pid`.
pub open spec fn other_than(pid: Pid) -> spec_fn(Pid) -> bool {
    |p: Pid| p != pid
}

/// The attached pids that the ready `tokens` name, in the poller's order. A
/// token of a pid that is not attached (left from an earlier registration)
/// names none.
pub open spec fn ready_pids<H>(table: Map<Pid, AnalyzeTarget<H>>, tokens: Seq<u64>) -> Seq<Pid>
    decreases tokens.len(),
{
    if tokens.len() == 0 {
        Seq::empty()
    } else {
        let front = ready_pids(table, tokens.drop_last());
        match token_pid_spec(tokens.last()) {
            Some(p) => if table.contains_key(p) {
                front.push(p)
            } else {
                front
            },
            None => front,
        }
    }
}

/// The queue that a receive takes its pid from: the pending pids, or, when
/// none is pending, those the poller reported ready.
pub open spec fn receive_queue<H>(
    table: Map<Pid, AnalyzeTarget<H>>,
    pending: Seq<Pid>,
    tokens: Seq<u64>,
) -> Seq<Pid> {
    if pending.len() > 0 {
        pending
    } else {
        ready_pids(table, tokens)
    }
}

/// Target `t` after its ring buffer gave `records`, with its attachment
/// handed back as `uprobe`.
pub open spec fn drained_target<H>(
    t: AnalyzeTarget<H>,
    uprobe: H,
    records: Seq<Seq<u8>>,
) -> AnalyzeTarget<H> {
    AnalyzeTarget {
        pid: t.pid,
        uprobe,
        fd: t.fd,
        tracker: FrametimeTracker {
            last_timestamp_ns: last_after(t.tracker.last_timestamp_ns, stamps_of(records)),
        },
    }
}

/// One receive: the result, the table after it and the pending pids after
/// it, when the poller (if it was asked) reported `tokens` and the chosen
/// process's ring buffer gave `records`. The first pid of the queue is
/// drained and reported with its frametime; with an empty queue nothing
/// happens.
pub open spec fn receive_step<H>(
    table: Map<Pid, AnalyzeTarget<H>>,
    pending: Seq<Pid>,
    tokens: Seq<u64>,
    uprobe: H,
    records: Seq<Seq<u8>>,
) -> (Option<(Pid, u64)>, Map<Pid, AnalyzeTarget<H>>, Seq<Pid>) {
    let queue = receive_queue(table, pending, tokens);
    if queue.len() == 0 {
        (None, table, queue)
    } else {
        let pid = queue[0];
        let t = table[pid];
        (
            Some((pid, drained_frametime(t.tracker.last_timestamp_ns, stamps_of(records)))),
            table.insert(pid, drained_target(t, uprobe, records)),
            queue.drop_first(),
        )
    }
}

/// `wait`, handed `timeout` and the registrations of `table`, may report
/// `tokens` ready.
pub open spec fn waited<H, W: FnOnce(Option<Duration>, Vec<(u64, i32)>) -> Vec<u64>>(
    wait: W,
    timeout: Option<Duration>,
    table: Map<Pid, AnalyzeTarget<H>>,
    tokens: Seq<u64>,
) -> bool {
    exists|regs: Vec<(u64, i32)>, got: Vec<u64>|
        registrations_match(regs@, table) && got@ == tokens && #[trigger] wait.ensures(
            (timeout, regs),
            got,
        )
}

/// `drain`, handed the attachment `before`, may give it back as `after`
/// together with `records`.
pub open spec fn drained<H, D: FnOnce(H) -> (H, Vec<Vec<u8>>)>(
    drain: D,
    before: H,
    after: H,
    records: Seq<Seq<u8>>,
) -> bool {
    exists|got: Vec<Vec<u8>>| got.deep_view() == records && #[trigger] drain.ensures((before,), (after, got))
}

/// A receive that started from `table` and `pending` ended with `r`,
/// `table2` and `pending2`, as `receive_step` says for a report that `wait`
/// may give (it is asked only when nothing was pending, with `timeout` and
/// the registrations of `table`) and for records that `drain` may give for
/// the chosen process.
pub open spec fn received<H, W, D>(
    wait: W,
    timeout: Option<Duration>,
    drain: D,
    table: Map<Pid, AnalyzeTarget<H>>,
    pending: Seq<Pid>,
    r: Option<(Pid, u64)>,
    table2: Map<Pid, AnalyzeTarget<H>>,
    pending2: Seq<Pid>,
) -> bool
    where
        W: FnOnce(Option<Duration>, Vec<(u64, i32)>) -> Vec<u64>,
        D: FnOnce(H) -> (H, Vec<Vec<u8>>),
{
    exists|tokens: Seq<u64>, uprobe: H, records: Seq<Seq<u8>>|
        {
            &&& pending.len() == 0 ==> waited(wait, timeout, table, tokens)
            &&& receive_queue(table, pending, tokens).len() > 0 ==> drained(
                drain,
                table[receive_queue(table, pending, tokens)[0]].uprobe,
                uprobe,
                records,
            )
            &&& #[trigger] receive_step(table, pending, tokens, uprobe, records) == (
                r,
                table2,
                pending2,
            )
        }
}

/// The analyzer's bookkeeping. `H` is the sensor attachment of one process;
/// dropping it detaches the sensor, so removing an entry tears the
/// attachment down.
pub struct Analyzer<H> {
    map: Vec<AnalyzeTarget<H>>,
    buffer: VecDeque<Pid>,
}

impl<H> Analyzer<H> {
    /// The attached processes, keyed by pid.
    pub closed spec fn table(&self) -> Map<Pid, AnalyzeTarget<H>> {
        table_of(self.map@)
    }

    /// Processes reported ready and not drained yet, oldest first.
    pub closed spec fn pending(&self) -> Seq<Pid> {
        self.buffer@
    }

    /// Each pid is attached once, and every pending pid is attached.
    pub closed spec fn wf(&self) -> bool {
        &&& unique_pids(self.map@)
        &&& forall|i: int| 0 <= i < self.buffer@.len() ==> holds_pid(self.map@, #[trigger] self.buffer@[i])
    }

    pub fn new() -> (r: Self)
        ensures
            r.wf(),
            r.table() == Map::<Pid, AnalyzeTarget<H>>::empty(),
            r.pending() == Seq::<Pid>::empty(),
    {
        let r = Analyzer { map: Vec::new(), buffer: VecDeque::new() };
        assert(r.table() =~= Map::<Pid, AnalyzeTarget<H>>::empty());
        r
    }

    fn slot(&self, pid: Pid) -> (r: Option<usize>)
        ensures
            match r {
                Some(i) => i < self.map@.len() && self.map@[i as int].pid == pid,
                None => !holds_pid(self.map@, pid),
            },
    {
        let mut i: usize = 0;
        while i < self.map.len()
            invariant
                i <= self.map@.len(),
                forall|k: int| 0 <= k < i ==> self.map@[k].pid != pid,
            decreases self.map@.len() - i,
        {
            if self.map[i].pid == pid {
                return Some(i);
            }
            i = i + 1;
        }
        None
    }

    /// Whether `pid` is attached.
    pub fn contains(&self, pid: Pid) -> (r: bool)
        requires
            self.wf(),
        ensures
            r == self.table().contains_key(pid),
    {
        self.slot(pid).is_some()
    }

    /// The attached pids, each once, in no particular order.
    pub fn pids(&self) -> (r: Vec<Pid>)
        requires
            self.wf(),
        ensures
            r@.no_duplicates(),
            r@.to_set() == self.table().dom(),
    {
        let mut r: Vec<Pid> = Vec::new();
        let mut i: usize = 0;
        while i < self.map.len()
            invariant
                i <= self.map@.len(),
                unique_pids(self.map@),
                r@.len() == i,
                forall|k: int| 0 <= k < i ==> r@[k] == self.map@[k].pid,
            decreases self.map@.len() - i,
        {
            r.push(self.map[i].pid);
            i = i + 1;
        }
        assert forall|p: Pid| #[trigger] r@.to_set().contains(p) == self.table().dom().contains(p) by {
            if holds_pid(self.map@, p) {
                let k = choose|k: int| 0 <= k < self.map@.len() && self.map@[k].pid == p;
                assert(r@[k] == p);
            }
        }
        assert(r@.to_set() =~= self.table().dom());
        r
    }

    /// The last timestamp seen from `pid`, if it is attached.
    pub fn last_timestamp(&self, pid: Pid) -> (r: Option<u64>)
        requires
            self.wf(),
        ensures
            r == (if self.table().contains_key(pid) {
                Some(self.table()[pid].tracker.last_timestamp_ns)
            } else {
                None::<u64>
            }),
    {
        match self.slot(pid) {
            Some(i) => {
                proof {
                    lemma_slot(self.map@, i as int);
                }
                Some(self.map[i].tracker.last_timestamp_ns)
            },
            None => None,
        }
    }

    /// What the poller must watch: one (token, descriptor) pair per attached
    /// process.
    pub fn registrations(&self) -> (r: Vec<(u64, i32)>)
        requires
            self.wf(),
        ensures
            registrations_match(r@, self.table()),
    {
        let mut r: Vec<(u64, i32)> = Vec::new();
        let mut i: usize = 0;
        while i < self.map.len()
            invariant
                i <= self.map@.len(),
                unique_pids(self.map@),
                r@.len() == i,
                forall|k: int| 0 <= k < i ==> r@[k] == (token_spec(self.map@[k].pid), self.map@[k].fd),
            decreases self.map@.len() - i,
        {
            r.push((pid_to_token(self.map[i].pid), self.map[i].fd));
            i = i + 1;
        }
        let ghost table = self.table();
        assert forall|k: int| 0 <= k < r@.len() implies match token_pid_spec(#[trigger] r@[k].0) {
            Some(p) => table.contains_key(p) && r@[k].1 == table[p].fd,
            None => false,
        } by {
            lemma_slot(self.map@, k);
            lemma_token_round_trip(self.map@[k].pid, self.map@[k].pid);
        }
        assert forall|p: Pid| #[trigger] table.contains_key(p) implies exists|k: int|
            0 <= k < r@.len() && r@[k].0 == token_spec(p) by {
            let k = slot_of(self.map@, p);
            assert(r@[k].0 == token_spec(p));
        }
        assert forall|a: int, b: int|
            0 <= a < r@.len() && 0 <= b < r@.len() && a != b implies r@[a].0 != r@[b].0 by {
            lemma_token_round_trip(self.map@[a].pid, self.map@[b].pid);
        }
        r
    }

    /// Attaches the sensor to `pid` unless it is attached already. `attach`
    /// opens the sensor for a pid and gives back the attachment with the
    /// descriptor of its ring buffer; it runs only for a pid not attached
    /// yet, and on its failure nothing changes.
    pub fn attach_app<F: FnOnce(Pid) -> Result<(H, i32), AnalyzerError>>(
        &mut self,
        pid: Pid,
        attach: F,
    ) -> (r: Result<(), AnalyzerError>)
        requires
            old(self).wf(),
            attach.requires((pid,)),
        ensures
            final(self).wf(),
            final(self).pending() == old(self).pending(),
            old(self).table().contains_key(pid) ==> r == Ok::<(), AnalyzerError>(())
                && final(self).table() == old(self).table(),
            !old(self).table().contains_key(pid) ==> exists|
                opened: Result<(H, i32), AnalyzerError>,
            |
                #[trigger] attach.ensures((pid,), opened) && (r, final(self).table()) == attach_step(
                    old(self).table(),
                    pid,
                    opened,
                ),
    {
        if self.contains(pid) {
            return Ok(());
        }
        let opened = attach(pid);
        let ghost before = self.map@;
        match opened {
            Ok((uprobe, fd)) => {
                let target = AnalyzeTarget::new(pid, uprobe, fd);
                proof {
                    lemma_table_push(before, target);
                }
                self.map.push(target);
                assert forall|i: int| 0 <= i < self.buffer@.len() implies holds_pid(
                    self.map@,
                    #[trigger] self.buffer@[i],
                ) by {
                    assert(table_of(before).contains_key(self.buffer@[i]));
                    assert(table_of(self.map@).contains_key(self.buffer@[i]));
                }
                assert(attach_step(table_of(before), pid, opened).1 == self.table());
                Ok(())
            },
            Err(e) => Err(e),
        }
    }

    /// Detaches `pid`: its entry, and with it the attachment, is dropped, and
    /// it leaves the queue of ready processes. A pid that is not attached is
    /// an error, and nothing changes.
    pub fn detach_app(&mut self, pid: Pid) -> (r: Result<(), AnalyzerError>)
        requires
            old(self).wf(),
        ensures
            final(self).wf(),
            !old(self).table().contains_key(pid) ==> r == Err::<(), AnalyzerError>(
                AnalyzerError::NotAttached,
            ) && *final(self) == *old(self),
            old(self).table().contains_key(pid) ==> r == Ok::<(), AnalyzerError>(())
                && final(self).table() == old(self).table().remove(pid) && final(self).pending()
                == old(self).pending().filter(other_than(pid)),
    {
        let i = match self.slot(pid) {
            Some(i) => i,
            None => return Err(AnalyzerError::NotAttached),
        };
        let ghost before = self.map@;
        proof {
            lemma_table_remove(before, i as int);
        }
        // The entry is dropped here, and its attachment with it.
        let _ = self.map.remove(i);
        let ghost queue = self.buffer@;
        let mut kept: VecDeque<Pid> = VecDeque::new();
        let mut k: usize = 0;
        while k < self.buffer.len()
            invariant
                k <= queue.len(),
                self.buffer@ == queue,
                unique_pids(self.map@),
                table_of(self.map@) == table_of(before).remove(pid),
                forall|j: int| 0 <= j < queue.len() ==> holds_pid(before, #[trigger] queue[j]),
                kept@ == queue.take(k as int).filter(other_than(pid)),
                forall|j: int| 0 <= j < kept@.len() ==> holds_pid(self.map@, #[trigger] kept@[j]),
            decreases queue.len() - k,
        {
            let p = self.buffer[k];
            proof {
                reveal(Seq::filter);
                assert(queue.take(k + 1 as int).drop_last() =~= queue.take(k as int));
                assert(table_of(before).contains_key(p));
                if p != pid {
                    assert(table_of(self.map@).contains_key(p));
                }
            }
            if p != pid {
                kept.push_back(p);
            }
            k = k + 1;
        }
        assert(queue.take(queue.len() as int) =~= queue);
        self.buffer = kept;
        Ok(())
    }

    /// Detaches every process.
    pub fn detach_apps(&mut self)
        requires
            old(self).wf(),
        ensures
            final(self).wf(),
            final(self).table() == Map::<Pid, AnalyzeTarget<H>>::empty(),
            final(self).pending() == Seq::<Pid>::empty(),
    {
        self.map.clear();
        self.buffer.clear();
        assert(self.table() =~= Map::<Pid, AnalyzeTarget<H>>::empty());
    }

    fn enqueue_ready(&mut self, tokens: &Vec<u64>)
        requires
            old(self).wf(),
        ensures
            final(self).wf(),
            final(self).map@ == old(self).map@,
            final(self).pending() == old(self).pending() + ready_pids(old(self).table(), tokens@),
    {
        let ghost start = self.buffer@;
        let ghost table = self.table();
        let mut k: usize = 0;
        while k < tokens.len()
            invariant
                k <= tokens@.len(),
                self.wf(),
                self.map@ == old(self).map@,
                self.table() == table,
                self.buffer@ == start + ready_pids(table, tokens@.take(k as int)),
            decreases tokens@.len() - k,
        {
            proof {
                assert(tokens@.take(k + 1 as int).drop_last() =~= tokens@.take(k as int));
            }
            match token_to_pid(tokens[k]) {
                Some(p) => {
                    if self.contains(p) {
                        self.buffer.push_back(p);
                        assert(self.buffer@ =~= start + ready_pids(table, tokens@.take(k + 1 as int)));
                    }
                },
                None => {},
            }
            k = k + 1;
        }
        assert(tokens@.take(tokens@.len() as int) =~= tokens@);
    }

    fn receive<W, D>(&mut self, timeout: Option<Duration>, wait: W, drain: D) -> (r: Option<(Pid, u64)>)
        where
            W: FnOnce(Option<Duration>, Vec<(u64, i32)>) -> Vec<u64>,
            D: FnOnce(H) -> (H, Vec<Vec<u8>>),
        requires
            old(self).wf(),
            forall|regs: Vec<(u64, i32)>| #[trigger] wait.requires((timeout, regs)),
            forall|uprobe: H| #[trigger] drain.requires((uprobe,)),
        ensures
            final(self).wf(),
            received(
                wait,
                timeout,
                drain,
                old(self).table(),
                old(self).pending(),
                r,
                final(self).table(),
                final(self).pending(),
            ),
    {
        let ghost table = self.table();
        let ghost pending = self.buffer@;
        let ghost mut tokens: Seq<u64> = Seq::empty();
        if self.buffer.len() == 0 {
            let regs = self.registrations();
            let ghost handed = regs;
            let ready = wait(timeout, regs);
            proof {
                tokens = ready@;
                assert(wait.ensures((timeout, handed), ready));
                assert(waited(wait, timeout, table, tokens));
            }
            self.enqueue_ready(&ready);
        }
        let ghost queue = receive_queue(table, pending, tokens);
        assert(self.buffer@ =~= queue);
        let pid = match self.buffer.pop_front() {
            Some(p) => p,
            None => {
                let ghost u: H = arbitrary();
                assert(receive_step(table, pending, tokens, u, Seq::empty()) == (
                    None::<(Pid, u64)>,
                    self.table(),
                    self.pending(),
                ));
                return None;
            },
        };
        assert(holds_pid(self.map@, queue[0]));
        let i = match self.slot(pid) {
            Some(i) => i,
            None => return None,
        };
        let ghost before = self.map@;
        proof {
            lemma_slot(before, i as int);
            lemma_table_remove(before, i as int);
        }
        let AnalyzeTarget { pid: own, uprobe, fd, tracker } = self.map.remove(i);
        let ghost held = uprobe;
        let (uprobe, records) = drain(uprobe);
        let mut target = AnalyzeTarget { pid: own, uprobe, fd, tracker };
        let frametime = target.update(&records);
        let ghost after = target.uprobe;
        proof {
            assert(!table_of(self.map@).contains_key(pid));
            lemma_table_push(self.map@, target);
        }
        self.map.push(target);
        assert(self.table() =~= table.insert(pid, drained_target(table[pid], after, records.deep_view())));
        assert forall|j: int| 0 <= j < self.buffer@.len() implies holds_pid(
            self.map@,
            #[trigger] self.buffer@[j],
        ) by {
            assert(self.table().contains_key(self.buffer@[j]));
        }
        assert(drained(drain, table[queue[0]].uprobe, after, records.deep_view()));
        assert(receive_step(table, pending, tokens, after, records.deep_view()) == (
            Some((pid, frametime)),
            self.table(),
            self.pending(),
        ));
        Some((pid, frametime))
    }

    /// Waits for the next frametime: takes the oldest pending process, or,
    /// when none is pending, asks `wait` (with no time bound and the
    /// registrations the poller must hold afterwards) which descriptors are
    /// ready and queues the attached pids among them. The chosen process's
    /// ring buffer is then drained through `drain`, and its pid and frametime
    /// returned. `None` when nothing was pending and nothing attached became
    /// ready.
    pub fn recv<W, D>(&mut self, wait: W, drain: D) -> (r: Option<(Pid, u64)>)
        where
            W: FnOnce(Option<Duration>, Vec<(u64, i32)>) -> Vec<u64>,
            D: FnOnce(H) -> (H, Vec<Vec<u8>>),
        requires
            old(self).wf(),
            forall|regs: Vec<(u64, i32)>| #[trigger] wait.requires((None::<Duration>, regs)),
            forall|uprobe: H| #[trigger] drain.requires((uprobe,)),
        ensures
            final(self).wf(),
            received(
                wait,
                None::<Duration>,
                drain,
                old(self).table(),
                old(self).pending(),
                r,
                final(self).table(),
                final(self).pending(),
            ),
    {
        self.receive(None, wait, drain)
    }

    /// As `recv`, but `wait` is handed `time` as the bound of its wait.
    pub fn recv_timeout<W, D>(&mut self, time: Duration, wait: W, drain: D) -> (r: Option<(Pid, u64)>)
        where
            W: FnOnce(Option<Duration>, Vec<(u64, i32)>) -> Vec<u64>,
            D: FnOnce(H) -> (H, Vec<Vec<u8>>),
        requires
            old(self).wf(),
            forall|regs: Vec<(u64, i32)>| #[trigger] wait.requires((Some(time), regs)),
            forall|uprobe: H| #[trigger] drain.requires((uprobe,)),
        ensures
            final(self).wf(),
            received(
                wait,
                Some(time),
                drain,
                old(self).table(),
                old(self).pending(),
                r,
                final(self).table(),
                final(self).pending(),
            ),
    {
        self.receive(Some(time), wait, drain)
    }
}

/// Every pid that a readiness report yields is attached, and its own token
/// was among the tokens reported.
pub proof fn lemma_ready_pids_attached<H>(table: Map<Pid, AnalyzeTarget<H>>, tokens: Seq<u64>)
    ensures
        forall|k: int|
            0 <= k < ready_pids(table, tokens).len() ==> table.contains_key(
                #[trigger] ready_pids(table, tokens)[k],
            ) && tokens.contains(token_spec(ready_pids(table, tokens)[k])),
    decreases tokens.len(),
{
    if tokens.len() > 0 {
        let front = tokens.drop_last();
        lemma_ready_pids_attached(table, front);
        assert forall|k: int|
            0 <= k < ready_pids(table, tokens).len() implies table.contains_key(
            #[trigger] ready_pids(table, tokens)[k],
        ) && tokens.contains(token_spec(ready_pids(table, tokens)[k])) by {
            let p = ready_pids(table, tokens)[k];
            if k < ready_pids(table, front).len() {
                assert(ready_pids(table, front)[k] == p);
                let j = choose|j: int| 0 <= j < front.len() && front[j] == token_spec(p);
                assert(tokens[j] == token_spec(p));
            } else {
                lemma_token_round_trip(p, p);
                assert(token_pid_spec(tokens.last()) == Some(p));
                assert(tokens.last() == token_spec(p));
                assert(tokens[tokens.len() - 1] == token_spec(p));
            }
        }
    }
}

/// Attaching a pid twice in a row: once the first attach succeeded, the
/// second one succeeds as well, opens nothing and changes nothing, and the
/// pid has its single entry.
pub proof fn lemma_attach_twice<H>(
    table: Map<Pid, AnalyzeTarget<H>>,
    pid: Pid,
    first: Result<(H, i32), AnalyzerError>,
    second: Result<(H, i32), AnalyzerError>,
)
    requires
        attach_step(table, pid, first).0 is Ok,
    ensures
        attach_step(table, pid, first).1.dom() == table.dom().insert(pid),
        attach_step(attach_step(table, pid, first).1, pid, second) == (
            Ok::<(), AnalyzerError>(()),
            attach_step(table, pid, first).1,
        ),
{
    if !table.contains_key(pid) {
        match first {
            Ok((uprobe, fd)) => {},
            Err(_) => {},
        }
    }
    assert(attach_step(table, pid, first).1.dom() =~= table.dom().insert(pid));
}

/// Events of one process never reach another. When `a` is the only pid
/// pending and the poller reports only `a`'s token, a receive reports `a`
/// or nothing, and every other process keeps its entry, last timestamp
/// included.
pub proof fn lemma_isolation<H>(
    table: Map<Pid, AnalyzeTarget<H>>,
    pending: Seq<Pid>,
    tokens: Seq<u64>,
    uprobe: H,
    records: Seq<Seq<u8>>,
    a: Pid,
    b: Pid,
)
    requires
        a != b,
        forall|i: int| 0 <= i < pending.len() ==> pending[i] == a,
        forall|i: int| 0 <= i < tokens.len() ==> tokens[i] == token_spec(a),
    ensures
        receive_step(table, pending, tokens, uprobe, records).0 matches Some(
            (p, _),
        ) ==> p == a,
        receive_step(table, pending, tokens, uprobe, records).1.contains_key(b)
            == table.contains_key(b),
        table.contains_key(b) ==> receive_step(table, pending, tokens, uprobe, records).1[b]
            == table[b],
{
    lemma_ready_pids_attached(table, tokens);
    let queue = receive_queue(table, pending, tokens);
    if queue.len() > 0 && pending.len() == 0 {
        let p = queue[0];
        let j = choose|j: int| 0 <= j < tokens.len() && tokens[j] == token_spec(p);
        lemma_token_round_trip(p, a);
    }
}

/// Once `pid` is detached, the registrations the poller is given hold
/// nothing of it, and a late readiness report under its old token is
/// attributed to no process: a receive with nothing pending then reports
/// nothing and changes nothing.
pub proof fn lemma_detached_token<H>(
    table: Map<Pid, AnalyzeTarget<H>>,
    pid: Pid,
    regs: Seq<(u64, i32)>,
    uprobe: H,
    records: Seq<Seq<u8>>,
)
    requires
        registrations_match(regs, table.remove(pid)),
    ensures
        forall|i: int| 0 <= i < regs.len() ==> regs[i].0 != token_spec(pid),
        ready_pids(table.remove(pid), seq![token_spec(pid)]) == Seq::<Pid>::empty(),
        receive_step(table.remove(pid), Seq::empty(), seq![token_spec(pid)], uprobe, records) == (
            None::<(Pid, u64)>,
            table.remove(pid),
            Seq::<Pid>::empty(),
        ),
{
    let rest = table.remove(pid);
    assert forall|i: int| 0 <= i < regs.len() implies regs[i].0 != token_spec(pid) by {
        lemma_token_round_trip(pid, pid);
        if regs[i].0 == token_spec(pid) {
            assert(token_pid_spec(regs[i].0) == Some(pid));
        }
    }
    let stale = seq![token_spec(pid)];
    lemma_token_round_trip(pid, pid);
    assert(stale.drop_last() =~= Seq::<u64>::empty());
    assert(ready_pids(rest, stale.drop_last()) == Seq::<Pid>::empty());
}

} // verus!
