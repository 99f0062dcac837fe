use netflow::flow::{scan_flow, Flow};
use netflow::frames::{extract_ready_frames, FrameDesync};
use netflow::varint::read_varint;

fn varint(mut n: u64) -> Vec<u8> {
    let mut out = Vec::new();
    while n >= 0x80 {
        out.push((n as u8 & 0x7f) | 0x80);
        n >>= 7;
    }
    out.push(n as u8);
    out
}

fn field_varint(number: u64, value: u64) -> Vec<u8> {
    let mut out = varint(number << 3);
    out.extend(varint(value));
    out
}

fn field_bytes(number: u64, value: &[u8]) -> Vec<u8> {
    let mut out = varint(number << 3 | 2);
    out.extend(varint(value.len() as u64));
    out.extend_from_slice(value);
    out
}

fn frame(message: &[u8]) -> Vec<u8> {
    let mut out = varint(message.len() as u64);
    out.extend_from_slice(message);
    out.push(0x0a);
    out
}

fn whole_message() -> Vec<u8> {
    let mut m = Vec::new();
    m.extend(field_varint(110, 1_700_000_000_000_000_003));
    m.extend(field_varint(111, 1_700_000_000_000_000_001));
    m.extend(field_varint(112, 1_700_000_000_000_000_002));
    m.extend(field_bytes(11, &[192, 0, 2, 1]));
    m.extend(field_bytes(6, &[10, 2, 19, 230]));
    m.extend(field_bytes(7, &[157, 240, 14, 53]));
    m.extend(field_varint(9, 10862));
    m.extend(field_varint(10, 202));
    m.extend(field_varint(20, 6));
    m.extend(field_varint(21, 40000));
    m.extend(field_varint(22, 5222));
    m.extend(field_varint(18, 4));
    m.extend(field_varint(19, 35));
    m.extend(field_varint(26, 0x1b));
    m.extend(field_bytes(2225, &[170, 246, 160, 195]));
    m.extend(field_bytes(2226, &[157, 240, 14, 54]));
    m.extend(field_varint(2227, 59618));
    m.extend(field_varint(2228, 5223));
    m
}

#[test]
fn varint_values() {
    assert_eq!(read_varint(&[0x00], 0), Some((0, 1)));
    assert_eq!(read_varint(&[0x7f], 0), Some((127, 1)));
    assert_eq!(read_varint(&[0x96, 0x01], 0), Some((150, 2)));
    assert_eq!(read_varint(&[0xff, 0x96, 0x01, 0x05], 1), Some((150, 2)));
    assert_eq!(read_varint(&varint(u64::MAX), 0), Some((u64::MAX, 10)));
    assert_eq!(read_varint(&varint(1 << 63), 0), Some((1 << 63, 10)));
}

#[test]
fn varint_refused() {
    assert_eq!(read_varint(&[], 0), None);
    assert_eq!(read_varint(&[0x01], 1), None);
    assert_eq!(read_varint(&[0x01], 7), None);
    assert_eq!(read_varint(&[0x80, 0x80], 0), None);
    // Ten bytes are the most there can be.
    assert_eq!(read_varint(&[0x80; 11], 0), None);
    let mut eleven = vec![0x80u8; 10];
    eleven.push(0x01);
    assert_eq!(read_varint(&eleven, 0), None);
}

#[test]
fn varint_bits_beyond_the_top_are_lost() {
    let mut long = vec![0xffu8; 9];
    long.push(0x7f);
    assert_eq!(read_varint(&long, 0), Some((u64::MAX, 10)));
    let mut even = vec![0x80u8; 9];
    even.push(0x02);
    assert_eq!(read_varint(&even, 0), Some((0, 10)));
}

#[test]
fn varint_does_not_depend_on_what_follows() {
    let mut bytes = varint(300);
    let alone = read_varint(&bytes, 0);
    bytes.extend_from_slice(&[0xff; 20]);
    assert_eq!(read_varint(&bytes, 0), alone);
}

#[test]
fn flow_fields() {
    let m = whole_message();
    let f = scan_flow(&m).unwrap();
    assert_eq!(f.time_received_ns, 1_700_000_000_000_000_003);
    assert_eq!(f.time_flow_start_ns, 1_700_000_000_000_000_001);
    assert_eq!(f.time_flow_end_ns, 1_700_000_000_000_000_002);
    assert_eq!(f.sampler_address, &[192, 0, 2, 1]);
    assert_eq!(f.src_addr, &[10, 2, 19, 230]);
    assert_eq!(f.dst_addr, &[157, 240, 14, 53]);
    assert_eq!((f.bytes, f.packets, f.proto), (10862, 202, 6));
    assert_eq!((f.src_port, f.dst_port), (40000, 5222));
    assert_eq!((f.in_if, f.out_if, f.tcp_flags), (4, 35, 0x1b));
    assert_eq!(f.post_nat_src_ipv4_address, &[170, 246, 160, 195]);
    assert_eq!(f.post_nat_dst_ipv4_address, &[157, 240, 14, 54]);
    assert_eq!(f.post_napt_src_transport_port, 59618);
    assert_eq!(f.post_napt_dst_transport_port, 5223);
}

#[test]
fn flow_defaults() {
    let f = scan_flow(&[]).unwrap();
    assert_eq!(f.time_flow_start_ns, 0);
    assert!(f.src_addr.is_empty());
    let d = Flow::default();
    assert_eq!(d.packets, 0);
    assert!(d.post_nat_dst_ipv4_address.is_empty());
}

#[test]
fn flow_last_value_wins() {
    let mut m = field_varint(9, 1);
    m.extend(field_varint(10, 7));
    m.extend(field_varint(9, 2));
    m.extend(field_bytes(6, &[1, 1, 1, 1]));
    m.extend(field_bytes(6, &[2, 2, 2, 2]));
    let f = scan_flow(&m).unwrap();
    assert_eq!((f.bytes, f.packets), (2, 7));
    assert_eq!(f.src_addr, &[2, 2, 2, 2]);
}

#[test]
fn flow_values_are_cut_to_width() {
    let mut m = field_varint(20, 0x106);
    m.extend(field_varint(21, 0x1_0000_0001));
    m.extend(field_varint(111, u64::MAX));
    let f = scan_flow(&m).unwrap();
    assert_eq!(f.proto, 6);
    assert_eq!(f.src_port, 1);
    assert_eq!(f.time_flow_start_ns, -1);
}

#[test]
fn flow_other_fields_ignored() {
    let mut m = field_varint(1, 4);
    m.extend(field_bytes(12, &[9, 9, 9, 9]));
    // A kept number with another wire type is another field.
    m.extend(field_bytes(9, &[1, 2, 3]));
    m.extend(field_varint(6, 77));
    m.extend(varint(30 << 3 | 1));
    m.extend_from_slice(&[0; 8]);
    m.extend(varint(31 << 3 | 5));
    m.extend_from_slice(&[0; 4]);
    m.extend(whole_message());
    let f = scan_flow(&m).unwrap();
    assert_eq!(f.bytes, 10862);
    assert_eq!(f.src_addr, &[10, 2, 19, 230]);
}

#[test]
fn flow_refused() {
    // Wire types that do not occur.
    for kind in [3u64, 4, 6, 7] {
        assert!(scan_flow(&varint(9 << 3 | kind)).is_none());
    }
    // A tag or a value that does not end, and bytes that are not all there.
    assert!(scan_flow(&[0x80]).is_none());
    assert!(scan_flow(&[0x48]).is_none());
    assert!(scan_flow(&[0x48, 0x80]).is_none());
    assert!(scan_flow(&[0x32, 0x05, 1, 2, 3, 4]).is_none());
    let mut huge = varint(6 << 3 | 2);
    huge.extend(varint(u64::MAX));
    assert!(scan_flow(&huge).is_none());
}

#[test]
fn flow_fixed_value_may_be_cut_short() {
    let mut m = field_varint(9, 5);
    m.extend(varint(30 << 3 | 1));
    m.extend_from_slice(&[0; 3]);
    assert_eq!(scan_flow(&m).unwrap().bytes, 5);
    let mut n = field_varint(9, 6);
    n.extend(varint(30 << 3 | 5));
    assert_eq!(scan_flow(&n).unwrap().bytes, 6);
}

#[test]
fn messages_side_by_side_are_one_message() {
    let mut m = field_varint(9, 1);
    m.extend(field_varint(10, 2));
    let n = field_varint(9, 3);
    let mut both = m.clone();
    both.extend(&n);
    let f = scan_flow(&both).unwrap();
    assert_eq!((f.bytes, f.packets), (3, 2));
}

#[test]
fn frames_found() {
    let mut buf = frame(b"abc");
    buf.extend(frame(b""));
    buf.extend(frame(&[7; 200]));
    let (ranges, consumed) = extract_ready_frames(&buf).unwrap();
    assert_eq!(ranges, vec![(1, 4), (6, 6), (9, 209)]);
    assert_eq!(consumed, buf.len());
    assert_eq!(&buf[1..4], b"abc");
}

#[test]
fn frames_incomplete() {
    assert_eq!(extract_ready_frames(&[]).unwrap(), (vec![], 0));
    assert_eq!(extract_ready_frames(&[0x80]).unwrap(), (vec![], 0));
    assert_eq!(extract_ready_frames(&[0x03, 1, 2]).unwrap(), (vec![], 0));
    // The separator has to be there too.
    assert_eq!(extract_ready_frames(&[0x03, 1, 2, 3]).unwrap(), (vec![], 0));
    let mut buf = frame(b"abc");
    buf.extend_from_slice(&[0x05, 1]);
    assert_eq!(extract_ready_frames(&buf).unwrap(), (vec![(1, 4)], 5));
    // However much is announced.
    let mut huge = varint(u64::MAX);
    huge.push(0x0a);
    assert_eq!(extract_ready_frames(&huge).unwrap(), (vec![], 0));
}

#[test]
fn frames_out_of_step() {
    let mut buf = frame(b"abc");
    buf.extend_from_slice(&[0x02, 1, 2, 0x0b]);
    let e = extract_ready_frames(&buf).unwrap_err();
    assert_eq!(e, FrameDesync { at: 8, found: 0x0b });
    assert_eq!(
        e.message(),
        "frame desync at byte 8: expected separator 0x0A, found 0x0b"
    );
    let high = FrameDesync { at: 1234, found: 0xf0 };
    assert_eq!(
        high.message(),
        "frame desync at byte 1234: expected separator 0x0A, found 0xf0"
    );
}

#[test]
fn frames_in_two_pieces() {
    let mut buf = frame(b"first");
    buf.extend(frame(b"second"));
    buf.extend(frame(b"third"));
    for cut in 0..=buf.len() {
        let (ranges, consumed) = extract_ready_frames(&buf[..cut]).unwrap();
        let (more, rest) = extract_ready_frames(&buf[consumed..]).unwrap();
        assert_eq!(ranges.len() + more.len(), 3);
        assert_eq!(consumed + rest, buf.len());
    }
}
