use ublox::frame::ubx_checksum;
use ublox::{FixedLinearBuffer, PacketRef, Parser, ParserError, MAX_PAYLOAD_LEN};

const ACK_CLASS: u8 = 0x05;
const ACK_ACK_ID: u8 = 0x01;
const CFG_CLASS: u8 = 0x06;
const CFG_NAV5_ID: u8 = 0x24;

const MIN_FRAME: [u8; 10] = [0xb5, 0x62, 0x5, 0x1, 0x2, 0x0, 0x4, 0x5, 0x11, 0x38];

/// Navigation engine settings, laid out as the 36-byte CFG-NAV5 payload.
#[derive(Default)]
struct CfgNav5Builder {
    mask: u16,
    dyn_model: u8,
    fix_mode: u8,
    fixed_alt: f64,
    fixed_alt_var: f64,
    min_elev_degrees: i8,
    pdop: f32,
    tdop: f32,
    pacc: u16,
    tacc: u16,
    static_hold_thresh: f32,
    dgps_time_out: u8,
    cno_thresh_num_svs: u8,
    cno_thresh: u8,
    static_hold_max_dist: u16,
    utc_standard: u8,
}

const NAV5_MASK_DYN: u16 = 1;
const DYN_AIRBORNE_LESS_1G: u8 = 6;
const FIX_ONLY_3D: u8 = 2;
const UTC_CHINA: u8 = 7;

fn frame(class: u8, id: u8, payload: &[u8]) -> Vec<u8> {
    let mut body = vec![class, id, payload.len() as u8, (payload.len() >> 8) as u8];
    body.extend_from_slice(payload);
    let (a, b) = ubx_checksum(&body);
    let mut out = vec![0xb5, 0x62];
    out.extend_from_slice(&body);
    out.push(a);
    out.push(b);
    out
}

impl CfgNav5Builder {
    fn into_packet_bytes(self) -> Vec<u8> {
        let mut p: Vec<u8> = Vec::new();
        p.extend_from_slice(&self.mask.to_le_bytes());
        p.push(self.dyn_model);
        p.push(self.fix_mode);
        p.extend_from_slice(&((self.fixed_alt * 100.0).round() as i32).to_le_bytes());
        p.extend_from_slice(&((self.fixed_alt_var * 10000.0).round() as u32).to_le_bytes());
        p.push(self.min_elev_degrees as u8);
        p.push(0);
        p.extend_from_slice(&((self.pdop * 10.0).round() as u16).to_le_bytes());
        p.extend_from_slice(&((self.tdop * 10.0).round() as u16).to_le_bytes());
        p.extend_from_slice(&self.pacc.to_le_bytes());
        p.extend_from_slice(&self.tacc.to_le_bytes());
        p.push((self.static_hold_thresh * 100.0).round() as u8);
        p.push(self.dgps_time_out);
        p.push(self.cno_thresh_num_svs);
        p.push(self.cno_thresh);
        p.extend_from_slice(&[0, 0]);
        p.extend_from_slice(&self.static_hold_max_dist.to_le_bytes());
        p.push(self.utc_standard);
        p.extend_from_slice(&[0, 0, 0, 0, 0]);
        frame(CFG_CLASS, CFG_NAV5_ID, &p)
    }
}

fn nav5_bytes() -> Vec<u8> {
    CfgNav5Builder {
        mask: NAV5_MASK_DYN,
        dyn_model: DYN_AIRBORNE_LESS_1G,
        fix_mode: FIX_ONLY_3D,
        fixed_alt: 100.17,
        fixed_alt_var: 0.0017,
        min_elev_degrees: 17,
        pdop: 1.7,
        tdop: 1.7,
        pacc: 17,
        tacc: 17,
        static_hold_thresh: 2.17,
        dgps_time_out: 17,
        cno_thresh_num_svs: 17,
        cno_thresh: 17,
        static_hold_max_dist: 0x1717,
        utc_standard: UTC_CHINA,
        ..CfgNav5Builder::default()
    }
    .into_packet_bytes()
}

fn is_ack_ack(p: &PacketRef) -> bool {
    p.class_id == ACK_CLASS && p.msg_id == ACK_ACK_ID && p.payload == &[4, 5]
}

fn is_cfg_nav5(p: &PacketRef) -> bool {
    p.class_id == CFG_CLASS && p.msg_id == CFG_NAV5_ID && p.payload.len() == 36
}

fn nav5_pacc(p: &PacketRef) -> u16 {
    u16::from_le_bytes([p.payload[18], p.payload[19]])
}

/// A result with the payload copied out, so that results can be collected.
#[derive(Debug, PartialEq)]
enum Owned {
    Packet(u8, u8, Vec<u8>),
    Error(ParserError),
}

fn drain_all<T: ublox::UnderlyingBuffer>(parser: &mut Parser<T>, input: &[u8]) -> Vec<Owned> {
    let mut out = Vec::new();
    let mut it = parser.consume(input);
    while let Some(r) = it.next() {
        out.push(match r {
            Ok(p) => Owned::Packet(p.class_id, p.msg_id, p.payload.to_vec()),
            Err(e) => Owned::Error(e),
        });
    }
    out
}

#[test]
fn parser_oom_processes_multiple_small_packets() {
    let packet = MIN_FRAME;

    let mut bytes = vec![];
    bytes.extend_from_slice(&packet);
    bytes.extend_from_slice(&packet);
    bytes.extend_from_slice(&packet);
    bytes.extend_from_slice(&packet);
    bytes.extend_from_slice(&packet);

    let mut buffer = [0; 10];
    let buffer = FixedLinearBuffer::new(&mut buffer);
    let mut parser = Parser::new(buffer);

    let mut it = parser.consume(&bytes);
    for i in 0..5 {
        match it.next() {
            Some(Ok(packet)) if is_ack_ack(&packet) => {
                println!("Got packet {}...", i);
            }
            _ => assert!(false),
        }
        // only the first copy fits in the buffer; the rest is fed again
        if i < 4 {
            assert!(it.next().is_none());
            it = parser.consume(&bytes[10 * (i + 1)..10 * (i + 2)]);
        }
    }
    assert!(it.next().is_none());
}

#[test]
fn parser_oom_clears_buffer() {
    let bytes = nav5_bytes();

    let mut buffer = [0; 12];
    let buffer = FixedLinearBuffer::new(&mut buffer);
    let mut parser = Parser::new(buffer);

    {
        let mut it = parser.consume(&bytes[0..12]);
        match it.next() {
            Some(Err(ParserError::OutOfMemory { required_size })) => {
                assert_eq!(required_size, bytes.len());
            }
            _ => {
                assert!(false);
            }
        }
        assert!(it.next().is_none());
    }

    // Should now be empty, and we can parse a small packet
    let bytes = MIN_FRAME;

    {
        let mut it = parser.consume(&bytes);
        match it.next() {
            Some(Ok(packet)) if is_ack_ack(&packet) => {}
            Some(Err(e)) => {
                println!("{:#?}", e);
                println!("{}", bytes.len());
                assert!(false);
            }
            _ => assert!(false),
        }
        assert!(it.next().is_none());
    }
}

#[test]
fn parser_accepts_packet_array_underlying() {
    let bytes = nav5_bytes();

    let mut buffer = [0; 1024];
    let buffer = FixedLinearBuffer::new(&mut buffer);
    let mut parser = Parser::new(buffer);
    let mut it = parser.consume(&bytes);
    match it.next() {
        Some(Ok(packet)) if is_cfg_nav5(&packet) => {}
        _ => {
            assert!(false);
        }
    }
    assert!(it.next().is_none());
}

#[test]
fn parser_accepts_packet_vec_underlying() {
    let bytes = nav5_bytes();

    let mut parser = Parser::default();
    let mut it = parser.consume(&bytes);
    match it.next() {
        Some(Ok(packet)) if is_cfg_nav5(&packet) => {}
        _ => {
            assert!(false);
        }
    }
    assert!(it.next().is_none());
}

#[test]
fn parser_accepts_multiple_packets() {
    let mut data = vec![];
    data.extend_from_slice(
        &CfgNav5Builder {
            pacc: 21,
            ..CfgNav5Builder::default()
        }
        .into_packet_bytes(),
    );
    data.extend_from_slice(
        &CfgNav5Builder {
            pacc: 18,
            ..CfgNav5Builder::default()
        }
        .into_packet_bytes(),
    );

    let mut parser = Parser::default();
    let mut it = parser.consume(&data);
    match it.next() {
        Some(Ok(packet)) if is_cfg_nav5(&packet) => {
            assert_eq!(nav5_pacc(&packet), 21);
        }
        _ => {
            assert!(false);
        }
    }
    match it.next() {
        Some(Ok(packet)) if is_cfg_nav5(&packet) => {
            assert_eq!(nav5_pacc(&packet), 18);
        }
        _ => {
            assert!(false);
        }
    }
    assert!(it.next().is_none());
}

#[test]
fn test_max_payload_len() {
    assert!(MAX_PAYLOAD_LEN >= 1240);
}

#[test]
fn checksum_of_minimal_frame_body() {
    assert_eq!(ubx_checksum(&[0x5, 0x1, 0x2, 0x0, 0x4, 0x5]), (0x11, 0x38));
    assert_eq!(ubx_checksum(&[]), (0, 0));
    assert_eq!(ubx_checksum(&[0xff, 0xff]), (0xfe, 0xfd));
}

#[test]
fn five_minimal_frames_in_one_call() {
    let mut bytes = Vec::new();
    for _ in 0..5 {
        bytes.extend_from_slice(&MIN_FRAME);
    }
    let mut parser = Parser::default();
    let got = drain_all(&mut parser, &bytes);
    assert_eq!(got.len(), 5);
    for r in &got {
        assert_eq!(r, &Owned::Packet(ACK_CLASS, ACK_ACK_ID, vec![4, 5]));
    }
    assert!(parser.is_buffer_empty());
    assert!(drain_all(&mut parser, &[]).is_empty());
}

#[test]
fn byte_by_byte_matches_one_call() {
    let mut stream = vec![0x00, 0xb5, 0x13];
    stream.extend_from_slice(&nav5_bytes());
    stream.extend_from_slice(&[0xb5, 0x62, 0x01]);
    stream.extend_from_slice(&MIN_FRAME);
    let mut bad = MIN_FRAME;
    bad[7] ^= 0x40;
    stream.extend_from_slice(&bad);
    stream.extend_from_slice(&MIN_FRAME);

    let mut whole = Parser::default();
    let all = drain_all(&mut whole, &stream);

    let mut chunked = Parser::default();
    let mut pieces = Vec::new();
    for b in &stream {
        pieces.extend(drain_all(&mut chunked, &[*b]));
    }
    assert_eq!(all, pieces);
    assert_eq!(all.len(), 4);
}

#[test]
fn garbage_without_sync_is_cleared() {
    let mut parser = Parser::default();
    assert!(drain_all(&mut parser, &[1, 2, 3, 0x62, 9]).is_empty());
    assert_eq!(parser.buffer_len(), 0);
    assert!(drain_all(&mut parser, &[7, 7, 0xb5]).is_empty());
    assert_eq!(parser.buffer_len(), 1);
    assert!(drain_all(&mut parser, &[0x10]).is_empty());
    assert!(drain_all(&mut parser, &[0x11, 0x12]).is_empty());
    assert_eq!(parser.buffer_len(), 0);
    assert!(parser.is_buffer_empty());
}

#[test]
fn partial_frame_is_kept_across_calls() {
    let mut parser = Parser::default();
    assert!(drain_all(&mut parser, &[0x44, 0x45]).is_empty());
    assert!(drain_all(&mut parser, &MIN_FRAME[0..4]).is_empty());
    assert_eq!(parser.buffer_len(), 4);
    assert!(drain_all(&mut parser, &MIN_FRAME[4..7]).is_empty());
    assert_eq!(parser.buffer_len(), 7);
    let got = drain_all(&mut parser, &MIN_FRAME[7..10]);
    assert_eq!(got, vec![Owned::Packet(ACK_CLASS, ACK_ACK_ID, vec![4, 5])]);
    assert!(parser.is_buffer_empty());
}

#[test]
fn corrupted_checksum_reported_once_then_next_frame_parses() {
    let mut bad = MIN_FRAME;
    bad[9] = 0x39;
    let mut bytes = bad.to_vec();
    bytes.extend_from_slice(&MIN_FRAME);
    let mut parser = Parser::default();
    let got = drain_all(&mut parser, &bytes);
    assert_eq!(
        got,
        vec![
            Owned::Error(ParserError::InvalidChecksum { expect: 0x3911, got: 0x3811 }),
            Owned::Packet(ACK_CLASS, ACK_ACK_ID, vec![4, 5]),
        ]
    );
}

#[test]
fn corrupted_payload_then_frame_in_later_call() {
    let mut bad = MIN_FRAME;
    bad[6] = 0x07;
    let mut parser = Parser::default();
    let got = drain_all(&mut parser, &bad);
    assert_eq!(got, vec![Owned::Error(ParserError::InvalidChecksum { expect: 0x3811, got: 0x3e14 })]);
    let got = drain_all(&mut parser, &MIN_FRAME);
    assert_eq!(got, vec![Owned::Packet(ACK_CLASS, ACK_ACK_ID, vec![4, 5])]);
}

#[test]
fn oversized_frame_yields_one_out_of_memory() {
    let big = nav5_bytes();
    let mut region = [0; 20];
    let mut parser = Parser::new(FixedLinearBuffer::new(&mut region));
    let got = drain_all(&mut parser, &big[0..20]);
    assert_eq!(got, vec![Owned::Error(ParserError::OutOfMemory { required_size: 44 })]);
    let got = drain_all(&mut parser, &big[20..]);
    assert!(got.is_empty());
    let got = drain_all(&mut parser, &MIN_FRAME);
    assert_eq!(got, vec![Owned::Packet(ACK_CLASS, ACK_ACK_ID, vec![4, 5])]);
}

#[test]
fn length_above_protocol_maximum_is_skipped_silently() {
    let mut bytes = vec![0xb5, 0x62, 0x01, 0x02, 0xd9, 0x04];
    bytes.extend_from_slice(&MIN_FRAME);
    let mut parser = Parser::default();
    let got = drain_all(&mut parser, &bytes);
    assert_eq!(got, vec![Owned::Packet(ACK_CLASS, ACK_ACK_ID, vec![4, 5])]);
}

#[test]
fn false_second_sync_byte_is_skipped() {
    let mut bytes = vec![0xb5, 0x00];
    bytes.extend_from_slice(&MIN_FRAME);
    let mut parser = Parser::default();
    let got = drain_all(&mut parser, &bytes);
    assert_eq!(got, vec![Owned::Packet(ACK_CLASS, ACK_ACK_ID, vec![4, 5])]);
}

#[test]
fn empty_payload_frame() {
    let bytes = frame(0x0a, 0x04, &[]);
    assert_eq!(bytes.len(), 8);
    let mut region = [0; 8];
    let mut parser = Parser::new(FixedLinearBuffer::new(&mut region));
    let got = drain_all(&mut parser, &bytes);
    assert_eq!(got, vec![Owned::Packet(0x0a, 0x04, vec![])]);
}

#[test]
fn abandoned_iterator_still_discards_consumed_frames() {
    let mut bytes = MIN_FRAME.to_vec();
    bytes.extend_from_slice(&MIN_FRAME);
    let mut parser = Parser::default();
    {
        let mut it = parser.consume(&bytes);
        assert!(matches!(it.next(), Some(Ok(_))));
    }
    assert_eq!(parser.buffer_len(), 10);
    let got = drain_all(&mut parser, &[]);
    assert_eq!(got, vec![Owned::Packet(ACK_CLASS, ACK_ACK_ID, vec![4, 5])]);
    assert!(parser.is_buffer_empty());
}

#[test]
fn corrupted_class_byte_then_frame_in_same_call() {
    let mut bad = MIN_FRAME;
    bad[2] = 0x07;
    let mut bytes = bad.to_vec();
    bytes.extend_from_slice(&MIN_FRAME);
    let mut parser = Parser::default();
    let got = drain_all(&mut parser, &bytes);
    assert_eq!(
        got,
        vec![
            Owned::Error(ParserError::InvalidChecksum { expect: 0x3811, got: 0x4413 }),
            Owned::Packet(ACK_CLASS, ACK_ACK_ID, vec![4, 5]),
        ]
    );
    assert_eq!(parser.buffer_len(), 0);
}
