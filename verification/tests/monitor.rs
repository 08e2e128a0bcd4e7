use boat_link::data::{BoatData, BoatDataFeature, LatLng, Layer, ReceivedDataPayload, Timestamp};
use boat_link::event::{Action, Event, LinkEvent, ReadOutcome};
use boat_link::frame::encode;
use boat_link::monitor::{Monitor, FAILURE_LIMIT};
use boat_link::packet::PacketType;
use boat_link::port::BoatPort;
use boat_link::registry::ConnectedBoats;

fn table(names: &[&str]) -> ConnectedBoats {
    let mut boats = ConnectedBoats::new();
    for name in names {
        assert!(boats.install(BoatPort::new(name.to_string())));
    }
    boats
}

fn greeting() -> Vec<u8> {
    encode(PacketType::Connect, "0.1.0", &[0x0a, 5, b'0', b'.', b'1', b'.', b'0'])
}

fn timeout() -> Event {
    Event::Read(ReadOutcome::Data(vec![]))
}

/// Lets the monitor poll `count` times, each read timing out.
fn fail_polls(monitor: &mut Monitor, boats: &mut ConnectedBoats, count: usize, first: Event) {
    let mut event = first;
    for _ in 0..count {
        assert_eq!(monitor.step(boats, event), Action::Read);
        assert_eq!(monitor.step(boats, timeout()), Action::Wait(200));
        event = Event::Waited;
    }
}

#[test]
fn monitor_polls_and_sleeps_in_turn() {
    let mut boats = table(&["A"]);
    let mut monitor = Monitor::new("A".to_string());
    assert_eq!(monitor.name(), "A");
    assert_eq!(monitor.failures(), 0);
    assert!(!monitor.stopped());
    assert_eq!(monitor.step(&mut boats, Event::Start), Action::Read);
    assert_eq!(
        monitor.step(&mut boats, Event::Read(ReadOutcome::Data(greeting()))),
        Action::Wait(200)
    );
    assert_eq!(monitor.failures(), 0);
    assert_eq!(monitor.step(&mut boats, Event::Waited), Action::Read);
    assert_eq!(monitor.step(&mut boats, timeout()), Action::Wait(200));
    assert_eq!(monitor.failures(), 1);
    assert_eq!(monitor.step(&mut boats, Event::Waited), Action::Read);
}

#[test]
fn success_does_not_clear_the_count() {
    let mut boats = table(&["A"]);
    let mut monitor = Monitor::new("A".to_string());
    fail_polls(&mut monitor, &mut boats, 3, Event::Start);
    assert_eq!(monitor.failures(), 3);
    assert_eq!(monitor.step(&mut boats, Event::Waited), Action::Read);
    assert_eq!(
        monitor.step(&mut boats, Event::Read(ReadOutcome::Data(greeting()))),
        Action::Wait(200)
    );
    assert_eq!(monitor.failures(), 3);
}

#[test]
fn every_kind_of_failure_is_counted() {
    let mut boats = table(&["A"]);
    let mut monitor = Monitor::new("A".to_string());
    assert_eq!(monitor.step(&mut boats, Event::Start), Action::Read);
    // a malformed frame
    assert_eq!(
        monitor.step(&mut boats, Event::Read(ReadOutcome::Data(vec![2, 0x10, 99]))),
        Action::Wait(200)
    );
    assert_eq!(monitor.failures(), 1);
    assert_eq!(monitor.step(&mut boats, Event::Waited), Action::Read);
    // a path, which only this side sends
    let path = encode(PacketType::PathData, "0.1.0", &[]);
    assert_eq!(monitor.step(&mut boats, Event::Read(ReadOutcome::Data(path))), Action::Wait(200));
    assert_eq!(monitor.failures(), 2);
}

#[test]
fn dead_link_leaves_the_table_and_is_reported_lost() {
    let mut boats = table(&["A", "B"]);
    let mut monitor = Monitor::new("A".to_string());
    fail_polls(&mut monitor, &mut boats, 10, Event::Start);
    assert_eq!(monitor.failures(), 10);
    assert_eq!(FAILURE_LIMIT, 10);
    // the eleventh failure brings the probe
    assert_eq!(monitor.step(&mut boats, Event::Waited), Action::Read);
    assert_eq!(monitor.step(&mut boats, timeout()), Action::Write(greeting()));
    assert_eq!(monitor.failures(), 11);
    // the probe: ten attempts without an answer
    for attempt in 1..=10 {
        assert_eq!(monitor.step(&mut boats, Event::Written), Action::Wait(200));
        assert_eq!(monitor.step(&mut boats, Event::Waited), Action::Read);
        assert!(boats.contains_key("A"));
        assert!(boats.take_events().is_empty());
        let next = monitor.step(&mut boats, timeout());
        if attempt < 10 {
            assert_eq!(next, Action::Write(greeting()));
        } else {
            assert_eq!(next, Action::Finished(()));
        }
    }
    assert!(monitor.stopped());
    assert!(!boats.contains_key("A"));
    assert_eq!(boats.keys(), vec!["B".to_string()]);
    assert_eq!(boats.take_events(), vec![LinkEvent::LinkLost("A".to_string())]);
    // the monitor stays ended
    assert_eq!(monitor.step(&mut boats, Event::Waited), Action::Finished(()));
    assert_eq!(boats.keys(), vec!["B".to_string()]);
}

#[test]
fn probe_that_is_answered_clears_the_count() {
    let mut boats = table(&["A"]);
    let mut monitor = Monitor::new("A".to_string());
    fail_polls(&mut monitor, &mut boats, 10, Event::Start);
    assert_eq!(monitor.step(&mut boats, Event::Waited), Action::Read);
    assert_eq!(monitor.step(&mut boats, timeout()), Action::Write(greeting()));
    assert_eq!(monitor.step(&mut boats, Event::Written), Action::Wait(200));
    assert_eq!(monitor.step(&mut boats, Event::Waited), Action::Read);
    assert_eq!(
        monitor.step(&mut boats, Event::Read(ReadOutcome::Data(greeting()))),
        Action::Wait(200)
    );
    assert_eq!(monitor.failures(), 0);
    assert!(!monitor.stopped());
    assert_eq!(boats.connected("A"), Some(true));
    assert_eq!(monitor.step(&mut boats, Event::Waited), Action::Read);
    assert!(boats.take_events().is_empty());
}

#[test]
fn probe_ends_at_once_when_its_write_fails() {
    let mut boats = table(&["A"]);
    let mut monitor = Monitor::new("A".to_string());
    fail_polls(&mut monitor, &mut boats, 10, Event::Start);
    assert_eq!(monitor.step(&mut boats, Event::Waited), Action::Read);
    assert_eq!(monitor.step(&mut boats, timeout()), Action::Write(greeting()));
    assert_eq!(
        monitor.step(&mut boats, Event::WriteFailed("gone".to_string())),
        Action::Finished(())
    );
    assert!(monitor.stopped());
    assert!(!boats.contains_key("A"));
    assert_eq!(boats.take_events(), vec![LinkEvent::LinkLost("A".to_string())]);
}

#[test]
fn failed_read_ends_the_monitor() {
    let mut boats = table(&["A"]);
    let mut monitor = Monitor::new("A".to_string());
    assert_eq!(monitor.step(&mut boats, Event::Start), Action::Read);
    assert_eq!(
        monitor.step(&mut boats, Event::Read(ReadOutcome::Failed("unplugged".to_string()))),
        Action::Finished(())
    );
    assert!(monitor.stopped());
    assert!(!boats.contains_key("A"));
    assert_eq!(boats.take_events(), vec![LinkEvent::LinkLost("A".to_string())]);
}

#[test]
fn monitor_ends_when_its_link_is_gone() {
    let mut boats = table(&["A"]);
    let mut monitor = Monitor::new("A".to_string());
    assert_eq!(monitor.step(&mut boats, Event::Start), Action::Read);
    boats.clear();
    assert_eq!(monitor.step(&mut boats, timeout()), Action::Finished(()));
    assert!(monitor.stopped());
    let mut other = Monitor::new("B".to_string());
    assert_eq!(other.step(&mut boats, Event::Start), Action::Finished(()));
    assert!(boats.take_events().is_empty());
}

#[test]
fn monitor_does_not_read_a_link_that_is_down() {
    let mut boats = table(&["A", "B"]);
    // a transfer over A finds the transport broken
    let mut transfer = boat_link::path::PathTransfer::new(&boat_link::path::PathData::default());
    let _ = boat_link::registry::send_path(&mut boats, "A", &mut transfer, Event::Start);
    let _ = boat_link::registry::send_path(&mut boats, "A", &mut transfer, Event::Written);
    let _ = boat_link::registry::send_path(&mut boats, "A", &mut transfer, Event::Waited);
    let _ = boat_link::registry::send_path(
        &mut boats,
        "A",
        &mut transfer,
        Event::Read(ReadOutcome::Failed("x".to_string())),
    );
    assert_eq!(boats.take_events(), vec![LinkEvent::LinkLost("A".to_string())]);
    let mut monitor = Monitor::new("A".to_string());
    assert_eq!(monitor.step(&mut boats, Event::Start), Action::Finished(()));
    assert!(!boats.contains_key("A"));
    assert_eq!(boats.keys(), vec!["B".to_string()]);
}

#[test]
fn reports_that_the_monitor_reads_reach_the_table() {
    let mut boats = table(&["A"]);
    let mut monitor = Monitor::new("A".to_string());
    let report = BoatData::new(
        "0.1.0".to_string(),
        vec![BoatDataFeature::new(
            1.0f64.to_bits(),
            2.0f64.to_bits(),
            Layer::SeaBed,
            Timestamp { seconds: 10, nanos: 0 },
            LatLng { latitude: 3.0f64.to_bits(), longitude: 4.0f64.to_bits() },
        )],
    );
    let frame = encode(PacketType::BoatData, "0.1.0", &report.encode_to_vec());
    assert_eq!(monitor.step(&mut boats, Event::Start), Action::Read);
    assert_eq!(monitor.step(&mut boats, Event::Read(ReadOutcome::Data(frame))), Action::Wait(200));
    assert_eq!(monitor.failures(), 0);
    assert_eq!(
        boats.take_events(),
        vec![LinkEvent::DataReceived(ReceivedDataPayload::new(report, "A".to_string()))]
    );
}

#[test]
fn monitor_asks_again_after_a_report_that_answers_nothing() {
    let mut boats = table(&["A"]);
    let mut monitor = Monitor::new("A".to_string());
    assert_eq!(monitor.step(&mut boats, Event::Start), Action::Read);
    assert_eq!(monitor.step(&mut boats, Event::Written), Action::Read);
    assert_eq!(monitor.step(&mut boats, timeout()), Action::Wait(200));
    assert_eq!(monitor.step(&mut boats, Event::Written), Action::Wait(200));
    assert_eq!(monitor.failures(), 1);
}
