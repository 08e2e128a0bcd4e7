use boat_link::data::LatLng;
use boat_link::error::CommError;
use boat_link::event::{Action, Event, LinkEvent, ReadOutcome};
use boat_link::frame::encode;
use boat_link::packet::PacketType;
use boat_link::path::{PathData, PathTransfer};
use boat_link::port::BoatPort;

#[derive(Clone)]
enum Remote {
    Refuses,
    Sends(Vec<u8>),
    Breaks,
}

struct Run {
    result: Result<(), CommError>,
    writes: Vec<Vec<u8>>,
    waits: usize,
    reads: usize,
}

fn run(link: &mut BoatPort, transfer: &mut PathTransfer, script: Vec<Remote>) -> Run {
    let mut script = script.into_iter();
    let mut current: Option<Remote> = None;
    let mut run = Run { result: Ok(()), writes: vec![], waits: 0, reads: 0 };
    let mut event = Event::Start;
    for _ in 0..1000 {
        match link.send_path(transfer, event) {
            Action::Write(bytes) => {
                run.writes.push(bytes);
                current = Some(script.next().expect("more attempts than scripted"));
                event = match current {
                    Some(Remote::Refuses) => Event::WriteFailed("device busy".to_string()),
                    _ => Event::Written,
                };
            }
            Action::Wait(millis) => {
                assert_eq!(millis, 200);
                run.waits += 1;
                event = Event::Waited;
            }
            Action::Read => {
                run.reads += 1;
                event = match current.clone() {
                    Some(Remote::Sends(bytes)) => Event::Read(ReadOutcome::Data(bytes)),
                    Some(Remote::Breaks) => Event::Read(ReadOutcome::Failed("unplugged".to_string())),
                    _ => panic!("read without a write"),
                };
            }
            Action::Finished(result) => {
                run.result = result;
                return run;
            }
        }
    }
    panic!("the transfer does not end");
}

fn path() -> PathData {
    PathData {
        version: "0.1.0".to_string(),
        points: vec![
            LatLng { latitude: 50.5f64.to_bits(), longitude: (-1.25f64).to_bits() },
            LatLng { latitude: 0, longitude: 2.0f64.to_bits() },
            LatLng { latitude: 0, longitude: 0 },
        ],
    }
}

/// The message of a path as the generated code of the message compiler
/// writes it, built from the encoders of the outside crate.
fn reference_path(version: &str, points: &[(f64, f64)]) -> Vec<u8> {
    let mut out: Vec<u8> = Vec::new();
    if !version.is_empty() {
        prost::encoding::string::encode(1, &version.to_string(), &mut out);
    }
    for (latitude, longitude) in points {
        let mut body: Vec<u8> = Vec::new();
        if *latitude != 0.0 {
            prost::encoding::double::encode(1, latitude, &mut body);
        }
        if *longitude != 0.0 {
            prost::encoding::double::encode(2, longitude, &mut body);
        }
        prost::encoding::bytes::encode(2, &body, &mut out);
    }
    out
}

fn acknowledgement() -> Vec<u8> {
    encode(PacketType::Received, "0.1.0", &[])
}

fn greeting() -> Vec<u8> {
    encode(PacketType::Connect, "0.1.0", &[0x0a, 5, b'0', b'.', b'1', b'.', b'0'])
}

#[test]
fn path_message_has_the_expected_bytes() {
    let small = PathData {
        version: "0.1.0".to_string(),
        points: vec![LatLng { latitude: 1.0f64.to_bits(), longitude: 0 }],
    };
    assert_eq!(
        small.encode_to_vec(),
        vec![0x0a, 5, b'0', b'.', b'1', b'.', b'0', 0x12, 9, 0x09, 0, 0, 0, 0, 0, 0, 0xf0, 0x3f]
    );
    assert_eq!(
        path().encode_to_vec(),
        reference_path("0.1.0", &[(50.5, -1.25), (0.0, 2.0), (0.0, 0.0)])
    );
    assert_eq!(PathData { version: String::new(), points: vec![] }.encode_to_vec(), Vec::<u8>::new());
}

#[test]
fn default_path_has_the_local_version_and_no_places() {
    let path = PathData::default();
    assert_eq!(path.version, "0.1.0");
    assert!(path.points.is_empty());
}

#[test]
fn transfer_sends_the_frame_of_the_path() {
    let mut link = BoatPort::new("A".to_string());
    let mut transfer = PathTransfer::new(&path());
    let run = run(&mut link, &mut transfer, vec![Remote::Sends(acknowledgement())]);
    assert_eq!(run.result, Ok(()));
    assert_eq!(run.writes, vec![encode(PacketType::PathData, "0.1.0", &path().encode_to_vec())]);
    assert_eq!(transfer.attempts(), 1);
}

#[test]
fn transfer_succeeds_with_the_third_attempt() {
    let mut link = BoatPort::new("A".to_string());
    let mut transfer = PathTransfer::new(&path());
    let script =
        vec![Remote::Sends(vec![]), Remote::Sends(greeting()), Remote::Sends(acknowledgement())];
    let run = run(&mut link, &mut transfer, script);
    assert_eq!(run.result, Ok(()));
    assert_eq!(transfer.attempts(), 3);
    assert_eq!(run.writes.len(), 3);
    assert_eq!(run.waits, 3);
    assert_eq!(run.reads, 3);
    assert!(link.connected());
}

#[test]
fn transfer_without_acknowledgement_fails_after_ten_attempts() {
    let mut link = BoatPort::new("A".to_string());
    let mut transfer = PathTransfer::new(&path());
    let mut script = vec![Remote::Sends(vec![]); 5];
    script.extend(vec![Remote::Sends(greeting()); 5]);
    let run = run(&mut link, &mut transfer, script);
    assert_eq!(run.result, Err(CommError::NoAcknowledgement));
    assert_eq!(transfer.attempts(), 10);
    assert_eq!(run.writes.len(), 10);
    assert_eq!(run.waits, 10);
    assert_eq!(run.reads, 10);
    // the link stays up
    assert!(link.connected());
    assert!(link.take_events().is_empty());
}

#[test]
fn transfer_ends_with_the_failure_of_a_write_and_leaves_the_link_up() {
    let mut link = BoatPort::new("A".to_string());
    let mut transfer = PathTransfer::new(&path());
    let run = run(&mut link, &mut transfer, vec![Remote::Sends(vec![]), Remote::Refuses]);
    assert_eq!(run.result, Err(CommError::Transport("device busy".to_string())));
    assert_eq!(transfer.attempts(), 2);
    assert!(link.connected());
    assert!(link.take_events().is_empty());
}

#[test]
fn transfer_ends_when_the_link_goes_down() {
    let mut link = BoatPort::new("A".to_string());
    let mut transfer = PathTransfer::new(&path());
    let run = run(&mut link, &mut transfer, vec![Remote::Breaks]);
    assert_eq!(run.result, Err(CommError::Transport("unplugged".to_string())));
    assert!(!link.connected());
    assert_eq!(link.take_events(), vec![LinkEvent::LinkLost("A".to_string())]);
}

#[test]
fn transfer_over_a_link_that_is_down_fails_without_a_read() {
    let mut link = BoatPort::new("A".to_string());
    link.disconnect();
    let _ = link.take_events();
    let mut transfer = PathTransfer::new(&path());
    let run = run(&mut link, &mut transfer, vec![Remote::Sends(acknowledgement())]);
    assert_eq!(run.result, Err(CommError::NotConnected));
    assert_eq!(run.reads, 0);
    assert_eq!(run.writes.len(), 1);
    assert!(link.take_events().is_empty());
}

#[test]
fn malformed_reply_counts_as_one_more_attempt() {
    let mut link = BoatPort::new("A".to_string());
    let mut transfer = PathTransfer::new(&path());
    let script = vec![Remote::Sends(vec![2, 0x10, 99]), Remote::Sends(acknowledgement())];
    let run = run(&mut link, &mut transfer, script);
    assert_eq!(run.result, Ok(()));
    assert_eq!(transfer.attempts(), 2);
}

#[test]
fn path_reads_back_from_its_message() {
    assert_eq!(PathData::decode(&path().encode_to_vec()), Some(path()));
    let many = PathData {
        version: "2.0.0-\u{3b2}".to_string(),
        points: (0..50)
            .map(|i| LatLng {
                latitude: (i as f64 * 0.25 - 3.0).to_bits(),
                longitude: (i as f64 * -1.5).to_bits(),
            })
            .collect(),
    };
    assert_eq!(PathData::decode(&many.encode_to_vec()), Some(many));
    assert_eq!(PathData::decode(&[]), Some(PathData { version: String::new(), points: vec![] }));
    assert_eq!(PathData::decode(&[0x12, 1, 0x09]), None);
    assert_eq!(PathData::decode(&[0x10, 1]), None);
    assert_eq!(
        PathData::decode(&reference_path("0.1.0", &[(1.0, 2.0)])),
        Some(PathData {
            version: "0.1.0".to_string(),
            points: vec![LatLng { latitude: 1.0f64.to_bits(), longitude: 2.0f64.to_bits() }],
        })
    );
}
