use obiwan::simple_fs::MapFilesystem;
use obiwan::simple_proto::{ConnectionStatus, Event, Response, SimpleUdpProtocol};
use obiwan::tftp::{Packet, RequestMode, RequestOption};
use obiwan::tftp_proto::{Connection, DEFAULT_TFTP_TIMEOUT_MS};

fn waiting() -> ConnectionStatus {
    ConnectionStatus::WaitingForPacket(DEFAULT_TFTP_TIMEOUT_MS)
}

fn single_file_connection(contents: Vec<u8>) -> Connection<MapFilesystem> {
    let mut fs = MapFilesystem::new();
    fs.insert(b"/foo".to_vec(), contents);
    Connection::new_with_filesystem(fs, b"/".to_vec())
}

fn rrq(filename: &[u8], options: Vec<RequestOption>) -> Event<Packet> {
    Event::PacketReceived(Packet::Rrq {
        filename: filename.to_vec(),
        mode: RequestMode::Octet,
        options,
    })
}

fn ack(block: u16) -> Event<Packet> {
    Event::PacketReceived(Packet::Ack { block })
}

fn blksize(value: &[u8]) -> RequestOption {
    RequestOption { name: b"blksize".to_vec(), value: value.to_vec() }
}

fn interesting_contents() -> Vec<u8> {
    let mut contents = vec![0xab_u8; 513];
    contents[2] = 0x12;
    contents[512] = 0x23;
    contents
}

#[test]
fn simple_read() {
    let file_contents = interesting_contents();
    let mut con = single_file_connection(file_contents.clone());

    assert_eq!(
        con.handle_event(rrq(b"/foo", vec![])).unwrap(),
        Response {
            packet: Some(Packet::Data {
                block: 1,
                data: file_contents[0..512].to_vec()
            }),
            next_status: waiting()
        }
    );

    assert_eq!(
        con.handle_event(ack(1)).unwrap(),
        Response {
            packet: Some(Packet::Data {
                block: 2,
                data: file_contents[512..].to_vec()
            }),
            next_status: waiting()
        }
    );
}

#[test]
fn read_with_custom_block_size() {
    let file_contents = interesting_contents();
    let mut con = single_file_connection(file_contents.clone());

    assert_eq!(
        con.handle_event(rrq(b"/foo", vec![blksize(b"10")])).unwrap(),
        Response {
            packet: Some(Packet::OAck { options: vec![blksize(b"10")] }),
            next_status: waiting()
        }
    );

    assert_eq!(
        con.handle_event(ack(0)).unwrap(),
        Response {
            packet: Some(Packet::Data {
                block: 1,
                data: file_contents[0..10].to_vec()
            }),
            next_status: waiting()
        }
    );
}

#[test]
fn minimal_read_of_three_byte_file() {
    let mut con = single_file_connection(vec![0x01, 0x02, 0x03]);

    assert_eq!(
        con.handle_event(rrq(b"/foo", vec![])).unwrap(),
        Response {
            packet: Some(Packet::Data {
                block: 1,
                data: vec![0x01, 0x02, 0x03]
            }),
            next_status: waiting()
        }
    );

    // 3 < 512, so that block was final; its ACK closes silently.
    assert_eq!(
        con.handle_event(ack(1)).unwrap(),
        Response { packet: None, next_status: ConnectionStatus::Terminated }
    );
}

#[test]
fn two_block_read_completes() {
    let file_contents = interesting_contents();
    let mut con = single_file_connection(file_contents.clone());

    con.handle_event(rrq(b"/foo", vec![])).unwrap();
    con.handle_event(ack(1)).unwrap();
    assert_eq!(
        con.handle_event(ack(2)).unwrap(),
        Response { packet: None, next_status: ConnectionStatus::Terminated }
    );
}

#[test]
fn write_rejected() {
    let mut con = single_file_connection(vec![1, 2, 3]);

    assert_eq!(
        con.handle_event(Event::PacketReceived(Packet::Wrq {
            filename: b"/foo".to_vec(),
            mode: RequestMode::Octet,
            options: vec![]
        }))
        .unwrap(),
        Response {
            packet: Some(Packet::Error {
                error_code: 2,
                error_msg: b"This server only supports reading files".to_vec()
            }),
            next_status: ConnectionStatus::Terminated
        }
    );
}

#[test]
fn path_traversal_rejected() {
    let mut con = single_file_connection(vec![1, 2, 3]);

    let response = con.handle_event(rrq(b"../etc/passwd", vec![])).unwrap();
    assert_eq!(response.next_status, ConnectionStatus::Terminated);
    match response.packet {
        Some(Packet::Error { error_code, .. }) => assert_eq!(error_code, 0),
        other => panic!("expected an error packet, got {:?}", other),
    }
}

#[test]
fn missing_file_yields_error() {
    let mut con = single_file_connection(vec![1, 2, 3]);

    let response = con.handle_event(rrq(b"/bar", vec![])).unwrap();
    assert_eq!(response.next_status, ConnectionStatus::Terminated);
    match response.packet {
        Some(Packet::Error { error_code, .. }) => assert_eq!(error_code, 0),
        other => panic!("expected an error packet, got {:?}", other),
    }
}

#[test]
fn unexpected_initial_packet_yields_error() {
    let mut con = single_file_connection(vec![1, 2, 3]);

    let response = con.handle_event(ack(0)).unwrap();
    assert_eq!(response.next_status, ConnectionStatus::Terminated);
    match response.packet {
        Some(Packet::Error { error_code, .. }) => assert_eq!(error_code, 4),
        other => panic!("expected an error packet, got {:?}", other),
    }
}

#[test]
fn timeouts_retransmit_identical_data_then_close() {
    let file_contents = interesting_contents();
    let mut con = single_file_connection(file_contents.clone());

    let first = con.handle_event(rrq(b"/foo", vec![])).unwrap();

    // Five timeouts resend the very same DATA packet each time.
    for _ in 0..5 {
        let resent = con.handle_event(Event::Timeout).unwrap();
        assert_eq!(resent, first);
    }

    // The sixth timeout exhausts the retransmission budget.
    assert_eq!(
        con.handle_event(Event::Timeout).unwrap(),
        Response { packet: None, next_status: ConnectionStatus::Terminated }
    );
}

#[test]
fn oack_timeouts_retransmit_then_close() {
    let file_contents = interesting_contents();
    let mut con = single_file_connection(file_contents.clone());

    let first = con.handle_event(rrq(b"/foo", vec![blksize(b"16")])).unwrap();
    assert_eq!(
        first.packet,
        Some(Packet::OAck { options: vec![blksize(b"16")] })
    );

    for _ in 0..5 {
        let resent = con.handle_event(Event::Timeout).unwrap();
        assert_eq!(resent, first);
    }

    assert_eq!(
        con.handle_event(Event::Timeout).unwrap(),
        Response { packet: None, next_status: ConnectionStatus::Terminated }
    );
}

#[test]
fn stale_ack_is_ignored() {
    let file_contents = interesting_contents();
    let mut con = single_file_connection(file_contents.clone());

    con.handle_event(rrq(b"/foo", vec![])).unwrap();

    // A duplicate or stale ACK produces nothing and keeps waiting.
    assert_eq!(
        con.handle_event(ack(0)).unwrap(),
        Response { packet: None, next_status: waiting() }
    );

    // The expected ACK still advances the transfer afterwards.
    assert_eq!(
        con.handle_event(ack(1)).unwrap(),
        Response {
            packet: Some(Packet::Data {
                block: 2,
                data: file_contents[512..].to_vec()
            }),
            next_status: waiting()
        }
    );
}

#[test]
fn client_error_closes_silently() {
    let mut con = single_file_connection(interesting_contents());

    con.handle_event(rrq(b"/foo", vec![])).unwrap();
    assert_eq!(
        con.handle_event(Event::PacketReceived(Packet::Error {
            error_code: 3,
            error_msg: b"full".to_vec()
        }))
        .unwrap(),
        Response { packet: None, next_status: ConnectionStatus::Terminated }
    );
}

#[test]
fn unexpected_packet_mid_transfer_yields_error() {
    let mut con = single_file_connection(interesting_contents());

    con.handle_event(rrq(b"/foo", vec![])).unwrap();
    let response = con
        .handle_event(Event::PacketReceived(Packet::Data { block: 1, data: vec![] }))
        .unwrap();
    assert_eq!(response.next_status, ConnectionStatus::Terminated);
    match response.packet {
        Some(Packet::Error { error_code, .. }) => assert_eq!(error_code, 4),
        other => panic!("expected an error packet, got {:?}", other),
    }
}

#[test]
fn ack_other_than_zero_after_oack_yields_error() {
    let mut con = single_file_connection(interesting_contents());

    con.handle_event(rrq(b"/foo", vec![blksize(b"10")])).unwrap();
    let response = con.handle_event(ack(1)).unwrap();
    assert_eq!(response.next_status, ConnectionStatus::Terminated);
    match response.packet {
        Some(Packet::Error { error_code, .. }) => assert_eq!(error_code, 4),
        other => panic!("expected an error packet, got {:?}", other),
    }
}

#[test]
fn blksize_bounds_are_enforced() {
    // 7 is below the negotiable range: ignored, default transfer.
    let mut con = single_file_connection(interesting_contents());
    let response = con.handle_event(rrq(b"/foo", vec![blksize(b"7")])).unwrap();
    assert!(matches!(response.packet, Some(Packet::Data { block: 1, .. })));

    // 8 is the smallest accepted value.
    let mut con = single_file_connection(interesting_contents());
    let response = con.handle_event(rrq(b"/foo", vec![blksize(b"8")])).unwrap();
    assert_eq!(
        response.packet,
        Some(Packet::OAck { options: vec![blksize(b"8")] })
    );

    // 65464 is the largest accepted value.
    let mut con = single_file_connection(interesting_contents());
    let response = con.handle_event(rrq(b"/foo", vec![blksize(b"65464")])).unwrap();
    assert_eq!(
        response.packet,
        Some(Packet::OAck { options: vec![blksize(b"65464")] })
    );

    // 65465 is out of range: ignored.
    let mut con = single_file_connection(interesting_contents());
    let response = con.handle_event(rrq(b"/foo", vec![blksize(b"65465")])).unwrap();
    assert!(matches!(response.packet, Some(Packet::Data { block: 1, .. })));

    // A malformed value is ignored.
    let mut con = single_file_connection(interesting_contents());
    let response = con.handle_event(rrq(b"/foo", vec![blksize(b"12a")])).unwrap();
    assert!(matches!(response.packet, Some(Packet::Data { block: 1, .. })));
}

#[test]
fn blksize_value_is_rendered_back_in_canonical_decimal() {
    let mut con = single_file_connection(interesting_contents());
    let response = con.handle_event(rrq(b"/foo", vec![blksize(b"0010")])).unwrap();
    assert_eq!(
        response.packet,
        Some(Packet::OAck { options: vec![blksize(b"10")] })
    );
}

#[test]
fn blksize_name_is_case_insensitive() {
    let mut con = single_file_connection(interesting_contents());
    let response = con
        .handle_event(rrq(
            b"/foo",
            vec![RequestOption { name: b"BlkSizE".to_vec(), value: b"10".to_vec() }],
        ))
        .unwrap();
    assert_eq!(
        response.packet,
        Some(Packet::OAck { options: vec![blksize(b"10")] })
    );
}

#[test]
fn unknown_options_are_ignored() {
    let mut con = single_file_connection(interesting_contents());
    let response = con
        .handle_event(rrq(
            b"/foo",
            vec![RequestOption { name: b"tsize".to_vec(), value: b"0".to_vec() }],
        ))
        .unwrap();
    assert!(matches!(response.packet, Some(Packet::Data { block: 1, .. })));
}

#[test]
fn first_accepted_blksize_wins() {
    let mut con = single_file_connection(interesting_contents());
    let response = con
        .handle_event(rrq(b"/foo", vec![blksize(b"70000"), blksize(b"16"), blksize(b"32")]))
        .unwrap();
    assert_eq!(
        response.packet,
        Some(Packet::OAck { options: vec![blksize(b"16")] })
    );
}

#[test]
fn empty_file_transfers_one_empty_block() {
    let mut con = single_file_connection(vec![]);

    assert_eq!(
        con.handle_event(rrq(b"/foo", vec![])).unwrap(),
        Response {
            packet: Some(Packet::Data { block: 1, data: vec![] }),
            next_status: waiting()
        }
    );
    assert_eq!(
        con.handle_event(ack(1)).unwrap(),
        Response { packet: None, next_status: ConnectionStatus::Terminated }
    );
}

#[test]
fn exact_multiple_of_block_size_ends_with_empty_block() {
    // 16 bytes at block size 8: two full blocks, then an empty final one.
    let contents: Vec<u8> = (0..16u8).collect();
    let mut con = single_file_connection(contents.clone());

    con.handle_event(rrq(b"/foo", vec![blksize(b"8")])).unwrap();
    assert_eq!(
        con.handle_event(ack(0)).unwrap().packet,
        Some(Packet::Data { block: 1, data: contents[0..8].to_vec() })
    );
    assert_eq!(
        con.handle_event(ack(1)).unwrap().packet,
        Some(Packet::Data { block: 2, data: contents[8..16].to_vec() })
    );
    assert_eq!(
        con.handle_event(ack(2)).unwrap().packet,
        Some(Packet::Data { block: 3, data: vec![] })
    );
    assert_eq!(
        con.handle_event(ack(3)).unwrap(),
        Response { packet: None, next_status: ConnectionStatus::Terminated }
    );
}

#[test]
fn block_numbers_wrap_around_after_65535() {
    // 8 * 65536 + 3 bytes at block size 8: 65537 blocks, so the wire
    // counter wraps while the 64-bit counter keeps the transfer exact.
    let total: usize = 8 * 65536 + 3;
    let mut contents = Vec::with_capacity(total);
    for i in 0..total {
        contents.push((i % 251) as u8);
    }
    let mut con = single_file_connection(contents.clone());

    con.handle_event(rrq(b"/foo", vec![blksize(b"8")])).unwrap();
    let first = con.handle_event(ack(0)).unwrap();
    assert_eq!(
        first.packet,
        Some(Packet::Data { block: 1, data: contents[0..8].to_vec() })
    );

    for block in 1..65537usize {
        let wire = (block % 65536) as u16;
        let next_wire = ((block + 1) % 65536) as u16;
        let lo = block * 8;
        let hi = if lo + 8 < total { lo + 8 } else { total };
        let response = con.handle_event(ack(wire)).unwrap();
        assert_eq!(
            response.packet,
            Some(Packet::Data { block: next_wire, data: contents[lo..hi].to_vec() }),
            "at block {}",
            block
        );
    }

    // The final short block (3 bytes) was just sent; its ACK finishes.
    assert_eq!(
        con.handle_event(ack((65537 % 65536) as u16)).unwrap(),
        Response { packet: None, next_status: ConnectionStatus::Terminated }
    );
}

#[test]
fn handle_event_via_protocol_trait() {
    let mut con = single_file_connection(vec![0x01, 0x02, 0x03]);
    let response = SimpleUdpProtocol::handle_event(&mut con, rrq(b"/foo", vec![])).unwrap();
    assert_eq!(
        response,
        Response {
            packet: Some(Packet::Data { block: 1, data: vec![0x01, 0x02, 0x03] }),
            next_status: waiting()
        }
    );
}
