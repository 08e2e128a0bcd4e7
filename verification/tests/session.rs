use boat_link::data::{BoatData, BoatDataFeature, LatLng, Layer, ReceivedDataPayload, Timestamp};
use boat_link::error::{CommError, Fault};
use boat_link::event::{LinkEvent, ReadError, ReadOutcome};
use boat_link::frame::encode;
use boat_link::packet::PacketType;
use boat_link::port::{BoatPort, PortInfo};

fn port(name: &str) -> BoatPort {
    BoatPort::new(name.to_string())
}

fn data(bytes: &[u8]) -> ReadOutcome {
    ReadOutcome::Data(bytes.to_vec())
}

fn greeting() -> Vec<u8> {
    encode(PacketType::Connect, "0.1.0", &[0x0a, 5, b'0', b'.', b'1', b'.', b'0'])
}

fn report() -> BoatData {
    BoatData::new(
        "0.1.0".to_string(),
        vec![BoatDataFeature::new(
            21.5f64.to_bits(),
            3.25f64.to_bits(),
            Layer::Middle,
            Timestamp { seconds: 1_700_000_000, nanos: 5 },
            LatLng { latitude: 50.9f64.to_bits(), longitude: (-1.4f64).to_bits() },
        )],
    )
}

/// A frame whose envelope names the kind by the given number.
fn frame_of_kind(kind: u8, message: &[u8]) -> Vec<u8> {
    let mut body: Vec<u8> = vec![0x0a, 5, b'0', b'.', b'1', b'.', b'0', 0x10, kind];
    if !message.is_empty() {
        body.push(0x1a);
        body.push(message.len() as u8);
        body.extend_from_slice(message);
    }
    let mut frame = vec![body.len() as u8];
    frame.extend_from_slice(&body);
    frame
}

#[test]
fn new_link_is_up_and_empty() {
    let mut link = port("/dev/ttyUSB0");
    assert_eq!(link.name(), "/dev/ttyUSB0");
    assert!(link.connected());
    assert!(link.pending().is_empty());
    assert!(link.take_events().is_empty());
    assert!(link.has_name(&"/dev/ttyUSB0".to_string()));
    assert!(!link.has_name(&"/dev/ttyUSB1".to_string()));
}

#[test]
fn link_from_port_info_is_named_as_the_port() {
    let link = BoatPort::from_port_info(PortInfo { port_name: "/dev/ttyACM3".to_string() });
    assert_eq!(link.name(), "/dev/ttyACM3");
    assert!(link.connected());
    assert!(link.pending().is_empty());
}

#[test]
fn receive_on_a_link_that_is_down_fails_and_changes_nothing() {
    let mut link = port("A");
    assert_eq!(link.receive_packet(data(&[9, 0x10, 1])), Err(CommError::NothingReceived));
    link.disconnect();
    let _ = link.take_events();
    assert_eq!(link.receive_packet(data(&greeting())), Err(CommError::NotConnected));
    assert_eq!(link.pending(), &[9, 0x10, 1]);
    assert!(!link.connected());
    assert!(link.take_events().is_empty());
    assert_eq!(
        link.receive_packet(ReadOutcome::Failed("gone".to_string())),
        Err(CommError::NotConnected)
    );
    assert!(link.take_events().is_empty());
}

#[test]
fn failed_read_takes_the_link_down() {
    let mut link = port("A");
    assert_eq!(
        link.receive_packet(ReadOutcome::Failed("Input/output error".to_string())),
        Err(CommError::Transport("Input/output error".to_string()))
    );
    assert!(!link.connected());
    assert_eq!(link.take_events(), vec![LinkEvent::LinkLost("A".to_string())]);
}

#[test]
fn read_without_data_is_nothing_received() {
    let mut link = port("A");
    assert_eq!(link.receive_packet(data(&[])), Err(CommError::NothingReceived));
    assert!(link.connected());
    assert!(link.pending().is_empty());
    assert!(link.take_events().is_empty());
}

#[test]
fn partial_frame_stays_in_the_buffer() {
    let frame = greeting();
    let mut link = port("A");
    assert_eq!(link.receive_packet(data(&frame[..5])), Err(CommError::NothingReceived));
    assert_eq!(link.pending(), &frame[..5]);
    assert_eq!(link.receive_packet(data(&[])), Err(CommError::NothingReceived));
    assert_eq!(link.pending(), &frame[..5]);
    assert_eq!(link.receive_packet(data(&frame[5..frame.len() - 1])), Err(CommError::NothingReceived));
    assert_eq!(link.pending(), &frame[..frame.len() - 1]);
    assert_eq!(link.receive_packet(data(&frame[frame.len() - 1..])), Ok(PacketType::Connect));
    assert!(link.pending().is_empty());
    assert!(link.connected());
}

#[test]
fn frames_arrive_byte_by_byte() {
    let mut stream = greeting();
    stream.extend_from_slice(&encode(PacketType::Received, "0.1.0", &[]));
    stream.extend_from_slice(&encode(PacketType::BoatData, "0.1.0", &report().encode_to_vec()));
    let mut link = port("A");
    let mut got: Vec<PacketType> = Vec::new();
    for byte in stream {
        match link.receive_packet(data(&[byte])) {
            Ok(kind) => got.push(kind),
            Err(e) => assert_eq!(e, CommError::NothingReceived),
        }
    }
    assert_eq!(got, vec![PacketType::Connect, PacketType::Received, PacketType::BoatData]);
    assert!(link.pending().is_empty());
}

#[test]
fn one_frame_is_read_per_receive() {
    let mut both = greeting();
    let second = encode(PacketType::Received, "0.1.0", &[]);
    both.extend_from_slice(&second);
    let mut link = port("A");
    assert_eq!(link.receive_packet(data(&both)), Ok(PacketType::Connect));
    assert_eq!(link.pending(), &second[..]);
    assert_eq!(link.receive_packet(data(&[])), Ok(PacketType::Received));
    assert!(link.pending().is_empty());
}

#[test]
fn malformed_frame_clears_the_buffer_and_keeps_the_link_up() {
    let mut link = port("A");
    let mut bytes = frame_of_kind(99, &[1, 2]);
    bytes.extend_from_slice(&[7, 7, 7]);
    assert_eq!(link.receive_packet(data(&bytes)), Err(CommError::Protocol(Fault::Malformed)));
    assert!(link.pending().is_empty());
    assert!(link.connected());
    assert!(link.take_events().is_empty());
    // the link goes on with the next frame
    assert_eq!(link.receive_packet(data(&greeting())), Ok(PacketType::Connect));
}

#[test]
fn report_is_announced_under_the_name_of_the_link() {
    let mut link = port("/dev/ttyUSB7");
    let frame = encode(PacketType::BoatData, "0.1.0", &report().encode_to_vec());
    assert_eq!(link.receive_packet(data(&frame)), Ok(PacketType::BoatData));
    assert!(link.pending().is_empty());
    assert_eq!(
        link.take_events(),
        vec![LinkEvent::DataReceived(ReceivedDataPayload::new(report(), "/dev/ttyUSB7".to_string()))]
    );
    assert!(link.take_events().is_empty());
}

#[test]
fn report_that_cannot_be_read_is_a_protocol_error() {
    let mut link = port("A");
    // a reading without time and place
    let frame = encode(PacketType::BoatData, "0.1.0", &[0x12, 0x00]);
    let mut bytes = frame.clone();
    bytes.extend_from_slice(&[1, 2, 3]);
    assert_eq!(link.receive_packet(data(&bytes)), Err(CommError::Protocol(Fault::Payload)));
    assert!(link.pending().is_empty());
    assert!(link.connected());
    assert!(link.take_events().is_empty());
}

#[test]
fn greeting_with_a_broken_message_is_a_protocol_error() {
    let mut link = port("A");
    let frame = encode(PacketType::Connect, "0.1.0", &[0x0a, 0x05, b'a']);
    assert_eq!(link.receive_packet(data(&frame)), Err(CommError::Protocol(Fault::Payload)));
    assert!(link.pending().is_empty());
    let text = encode(PacketType::Connect, "0.1.0", &[0x0a, 0x02, 0xc3, 0x28]);
    assert_eq!(link.receive_packet(data(&text)), Err(CommError::Protocol(Fault::Payload)));
}

#[test]
fn acknowledgement_may_carry_fields_that_are_passed_over() {
    let mut link = port("A");
    let frame = encode(PacketType::Received, "0.1.0", &[0x08, 0x01]);
    assert_eq!(link.receive_packet(data(&frame)), Ok(PacketType::Received));
    let broken = encode(PacketType::Received, "0.1.0", &[0x08]);
    assert_eq!(link.receive_packet(data(&broken)), Err(CommError::Protocol(Fault::Payload)));
}

#[test]
fn path_that_arrives_is_misuse() {
    let mut link = port("A");
    let mut bytes = encode(PacketType::PathData, "0.1.0", &[]);
    bytes.extend_from_slice(&greeting());
    assert_eq!(link.receive_packet(data(&bytes)), Err(CommError::Protocol(Fault::Misuse)));
    assert!(link.pending().is_empty());
    assert!(link.connected());
}

#[test]
fn send_packet_frames_with_the_local_version() {
    let link = port("A");
    assert_eq!(
        link.send_packet(PacketType::PathData, &[1, 2, 3]),
        encode(PacketType::PathData, "0.1.0", &[1, 2, 3])
    );
    assert_eq!(link.send_packet(PacketType::Connect, &[0x0a, 5, b'0', b'.', b'1', b'.', b'0']), greeting());
    assert_eq!(boat_link::packet::PROTOCOL_VERSION, "0.1.0");
}

#[test]
fn disconnect_marks_the_link_and_says_so_each_time() {
    let mut link = port("A");
    link.disconnect();
    assert!(!link.connected());
    link.disconnect();
    assert!(!link.connected());
    assert_eq!(
        link.take_events(),
        vec![LinkEvent::LinkLost("A".to_string()), LinkEvent::LinkLost("A".to_string())]
    );
}

#[test]
fn errors_have_their_messages() {
    assert_eq!(CommError::NotConnected.message(), "Port not Connected");
    assert_eq!(CommError::NothingReceived.message(), "Nothing is Received");
    assert_eq!(CommError::Transport("broken pipe".to_string()).message(), "broken pipe");
    assert_eq!(CommError::Protocol(Fault::Malformed).message(), "Invalid Packet");
    assert_eq!(CommError::Protocol(Fault::Payload).message(), "Invalid Packet");
    assert_eq!(CommError::Protocol(Fault::Misuse).message(), "Invalid Packet");
    assert_eq!(CommError::NoAcknowledgement.message(), "No Response from the Port");
    assert_eq!(CommError::NotFound("COM3".to_string()).message(), "Unable to find port: COM3");
    let first = CommError::Transport("x".to_string());
    assert_eq!(first.duplicate(), first);
    assert_eq!(CommError::NotFound("y".to_string()).duplicate(), CommError::NotFound("y".to_string()));
}

#[test]
fn timeout_is_no_failure_of_a_read() {
    assert_eq!(ReadOutcome::of_read(vec![1, 2], None), ReadOutcome::Data(vec![1, 2]));
    let timeout = ReadError { timed_out: true, reason: "Operation timed out".to_string() };
    assert_eq!(ReadOutcome::of_read(vec![], Some(timeout.clone())), ReadOutcome::Data(vec![]));
    assert_eq!(ReadOutcome::of_read(vec![7], Some(timeout)), ReadOutcome::Data(vec![7]));
    let broken = ReadError { timed_out: false, reason: "Broken pipe".to_string() };
    assert_eq!(
        ReadOutcome::of_read(vec![7], Some(broken)),
        ReadOutcome::Failed("Broken pipe".to_string())
    );
    assert_eq!(boat_link::event::BAUD_RATE, 9600);
    assert_eq!(boat_link::event::READ_TIMEOUT_MS, 100);
}
