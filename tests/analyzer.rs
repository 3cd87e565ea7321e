use std::cell::Cell;
use std::collections::HashMap;
use std::rc::Rc;
use std::time::Duration;

use frame_analyzer::target::pid_to_token;
use frame_analyzer::{Analyzer, AnalyzerError, FrameSignal, Pid};

/// Stands in for a sensor attachment: counts how often it was torn down.
struct Sensor {
    pid: Pid,
    drops: Rc<Cell<u32>>,
}

impl Drop for Sensor {
    fn drop(&mut self) {
        self.drops.set(self.drops.get() + 1);
    }
}

fn opener(drops: &Rc<Cell<u32>>, fd: i32) -> impl FnOnce(Pid) -> Result<(Sensor, i32), AnalyzerError> {
    let drops = drops.clone();
    move |pid| Ok((Sensor { pid, drops }, fd))
}

fn attach(a: &mut Analyzer<Sensor>, drops: &Rc<Cell<u32>>, pid: Pid, fd: i32) {
    assert_eq!(a.attach_app(pid, opener(drops, fd)), Ok(()));
}

/// The poller reports `pids` ready.
fn ready(pids: &[Pid]) -> impl FnOnce(Option<Duration>, Vec<(u64, i32)>) -> Vec<u64> {
    let tokens: Vec<u64> = pids.iter().map(|p| pid_to_token(*p)).collect();
    move |_, _| tokens
}

fn never_waits() -> impl FnOnce(Option<Duration>, Vec<(u64, i32)>) -> Vec<u64> {
    |_, _| panic!("the poller was asked although a pid was pending")
}

/// The ring buffers hold `events` (timestamps by pid).
fn ring(events: &HashMap<Pid, Vec<u64>>) -> impl FnOnce(Sensor) -> (Sensor, Vec<Vec<u8>>) + '_ {
    move |sensor| {
        let records = events
            .get(&sensor.pid)
            .map(|stamps| stamps.iter().map(|t| FrameSignal::new(*t).to_bytes()).collect())
            .unwrap_or_default();
        (sensor, records)
    }
}

fn no_events() -> HashMap<Pid, Vec<u64>> {
    HashMap::new()
}

#[test]
fn new_analyzer_is_empty() {
    let a: Analyzer<Sensor> = Analyzer::new();
    assert!(a.pids().is_empty());
    assert!(a.registrations().is_empty());
    assert!(!a.contains(1));
}

#[test]
fn attach_twice_keeps_one_entry() {
    let drops = Rc::new(Cell::new(0));
    let mut a = Analyzer::new();
    attach(&mut a, &drops, 42, 7);
    let again = a.attach_app(42, |_| -> Result<(Sensor, i32), AnalyzerError> {
        panic!("an attached pid was opened again")
    });
    assert_eq!(again, Ok(()));
    assert_eq!(a.pids(), vec![42]);
    assert!(a.contains(42));
    assert_eq!(drops.get(), 0);
}

#[test]
fn failed_attach_changes_nothing() {
    let drops = Rc::new(Cell::new(0));
    let mut a = Analyzer::new();
    attach(&mut a, &drops, 1, 10);
    let r = a.attach_app(2, |_| Err(AnalyzerError::SymbolNotFound));
    assert_eq!(r, Err(AnalyzerError::SymbolNotFound));
    assert_eq!(a.pids(), vec![1]);
    assert_eq!(a.registrations(), vec![(pid_to_token(1), 10)]);
}

#[test]
fn detach_unknown_pid_fails() {
    let drops = Rc::new(Cell::new(0));
    let mut a: Analyzer<Sensor> = Analyzer::new();
    assert_eq!(a.detach_app(5), Err(AnalyzerError::NotAttached));
    assert!(a.pids().is_empty());
    attach(&mut a, &drops, 1, 10);
    assert_eq!(a.detach_app(5), Err(AnalyzerError::NotAttached));
    assert_eq!(a.pids(), vec![1]);
    assert_eq!(a.last_timestamp(1), Some(0));
    assert_eq!(drops.get(), 0);
}

#[test]
fn burst_reports_last_pair_then_times_out() {
    let drops = Rc::new(Cell::new(0));
    let mut a = Analyzer::new();
    attach(&mut a, &drops, 100, 3);
    let mut events = HashMap::new();
    events.insert(100, vec![1000, 1016, 1033]);
    assert_eq!(a.recv(ready(&[100]), ring(&events)), Some((100, 17)));
    assert_eq!(a.last_timestamp(100), Some(1033));
    let bound = Duration::from_millis(5);
    let got = a.recv_timeout(
        bound,
        move |timeout, _| {
            assert_eq!(timeout, Some(bound));
            Vec::new()
        },
        ring(&no_events()),
    );
    assert_eq!(got, None);
    assert_eq!(a.last_timestamp(100), Some(1033));
}

#[test]
fn recv_waits_without_bound() {
    let drops = Rc::new(Cell::new(0));
    let mut a = Analyzer::new();
    attach(&mut a, &drops, 9, 4);
    let got = a.recv(
        |timeout, regs| {
            assert_eq!(timeout, None);
            assert_eq!(regs, vec![(pid_to_token(9), 4)]);
            vec![pid_to_token(9)]
        },
        ring(&no_events()),
    );
    assert_eq!(got, Some((9, 0)));
}

#[test]
fn events_of_one_process_leave_the_other_alone() {
    let drops = Rc::new(Cell::new(0));
    let mut a = Analyzer::new();
    attach(&mut a, &drops, 1, 10);
    attach(&mut a, &drops, 2, 20);
    let mut events = HashMap::new();
    events.insert(1, vec![500, 520]);
    assert_eq!(a.recv(ready(&[1]), ring(&events)), Some((1, 20)));
    events.insert(1, vec![540]);
    assert_eq!(a.recv(ready(&[1]), ring(&events)), Some((1, 20)));
    assert_eq!(a.last_timestamp(1), Some(540));
    assert_eq!(a.last_timestamp(2), Some(0));
}

#[test]
fn pids_ready_together_are_served_in_order_without_polling() {
    let drops = Rc::new(Cell::new(0));
    let mut a = Analyzer::new();
    attach(&mut a, &drops, 1, 10);
    attach(&mut a, &drops, 2, 20);
    let mut events = HashMap::new();
    events.insert(1, vec![100]);
    events.insert(2, vec![300]);
    assert_eq!(a.recv(ready(&[2, 1]), ring(&events)), Some((2, 300)));
    assert_eq!(a.recv(never_waits(), ring(&events)), Some((1, 100)));
}

#[test]
fn detach_tears_down_and_unregisters() {
    let drops = Rc::new(Cell::new(0));
    let mut a = Analyzer::new();
    attach(&mut a, &drops, 1, 10);
    attach(&mut a, &drops, 2, 20);
    assert_eq!(a.detach_app(1), Ok(()));
    assert_eq!(drops.get(), 1);
    assert!(!a.contains(1));
    assert_eq!(a.registrations(), vec![(pid_to_token(2), 20)]);
    let mut events = HashMap::new();
    events.insert(1, vec![700]);
    events.insert(2, vec![900]);
    assert_eq!(a.recv(ready(&[1]), ring(&events)), None);
    assert_eq!(a.last_timestamp(2), Some(0));
    assert_eq!(a.last_timestamp(1), None);
}

#[test]
fn detach_drops_pending_entries() {
    let drops = Rc::new(Cell::new(0));
    let mut a = Analyzer::new();
    attach(&mut a, &drops, 1, 10);
    attach(&mut a, &drops, 2, 20);
    let events = no_events();
    assert_eq!(a.recv(ready(&[1, 2]), ring(&events)), Some((1, 0)));
    assert_eq!(a.detach_app(2), Ok(()));
    assert_eq!(a.recv(ready(&[]), ring(&events)), None);
}

#[test]
fn detach_apps_clears_everything() {
    let drops = Rc::new(Cell::new(0));
    let mut a = Analyzer::new();
    attach(&mut a, &drops, 1, 10);
    attach(&mut a, &drops, 2, 20);
    attach(&mut a, &drops, 3, 30);
    a.detach_apps();
    assert_eq!(drops.get(), 3);
    assert!(a.pids().is_empty());
    assert!(a.registrations().is_empty());
}

#[test]
fn registrations_follow_attachments() {
    let drops = Rc::new(Cell::new(0));
    let mut a = Analyzer::new();
    attach(&mut a, &drops, 5, 50);
    attach(&mut a, &drops, -3, 60);
    let mut regs = a.registrations();
    regs.sort();
    assert_eq!(regs, vec![(5, 50), (0xffff_fffd, 60)]);
    let mut pids = a.pids();
    pids.sort();
    assert_eq!(pids, vec![-3, 5]);
}

#[test]
fn recv_with_nothing_attached_is_none() {
    let mut a: Analyzer<Sensor> = Analyzer::new();
    assert_eq!(a.recv(ready(&[]), ring(&no_events())), None);
    assert_eq!(a.recv(ready(&[77]), ring(&no_events())), None);
}
