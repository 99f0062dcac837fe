use netflow::addr::IpAddr;
use netflow::archive::{
    dispose, dispose_at, file_name, Archive, Disposition, QueuedRecord, Taken,
};
use netflow::moment::Moment;

fn record(received: &str, src: &str, sequence_num: i64) -> QueuedRecord {
    QueuedRecord {
        flow_type: "IPFIX".to_string(),
        time_received_ns: received.to_string(),
        sequence_num,
        sampling_rate: 1,
        sampler_address: "10.255.255.254".to_string(),
        time_flow_start_ns: 1_742_058_651_000_000_000,
        time_flow_end_ns: 1_742_058_652_000_000_000,
        bytes: 52,
        packets: 3,
        src_addr: src.to_string(),
        src_net: "0.0.0.0/0".to_string(),
        dst_addr: "1.1.1.1".to_string(),
        dst_net: "1.0.0.0/8".to_string(),
        etype: "IPv4".to_string(),
        proto: "UDP".to_string(),
        src_port: 41015,
        dst_port: 53,
        in_if: 4,
        out_if: 35,
        src_mac: "2c:c8:1b:ac:cf:81".to_string(),
        dst_mac: "dc:2c:6e:8c:c6:f3".to_string(),
        icmp_name: "unknown".to_string(),
        post_nat_src_ipv4_address: Some("6799ef23".to_string()),
        post_nat_dst_ipv4_address: None,
        post_napt_src_transport_port: Some(41016),
        post_napt_dst_transport_port: None,
    }
}

#[test]
fn record_filed() {
    let r = record("2025-03-15T17:10:51.064235982Z", "10.8.31.235", 2_259_237_964);
    match dispose(r) {
        Disposition::File { date, record } => {
            assert_eq!(date, "2025-03-15");
            assert_eq!(record.flow_type, "IPFIX");
            assert_eq!(record.time_received_ns, "2025-03-15T17:10:51.064235982Z");
            assert_eq!(record.sequence_num, 2_259_237_964);
            assert_eq!(record.sampling_rate, 1);
            assert_eq!(record.sampler_address, "10.255.255.254");
            assert_eq!(record.time_flow_start_ns, 1_742_058_651_000_000_000);
            assert_eq!(record.time_flow_end_ns, 1_742_058_652_000_000_000);
            assert_eq!((record.bytes, record.packets), (52, 3));
            assert_eq!(record.src_addr, IpAddr::V4(0x0a08_1feb));
            assert_eq!(record.dst_addr, IpAddr::V4(0x0101_0101));
            assert_eq!(record.src_net, "0.0.0.0/0");
            assert_eq!(record.dst_net, "1.0.0.0/8");
            assert_eq!((record.etype.as_str(), record.proto.as_str()), ("IPv4", "UDP"));
            assert_eq!((record.src_port, record.dst_port), (41015, 53));
            assert_eq!((record.in_if, record.out_if), (4, 35));
            assert_eq!(record.src_mac, "2c:c8:1b:ac:cf:81");
            assert_eq!(record.dst_mac, "dc:2c:6e:8c:c6:f3");
            assert_eq!(record.icmp_name, "unknown");
            assert_eq!(format!("{:?}", record.clone()), format!("{:?}", record));
            assert_eq!(record.post_nat_src_ipv4_address, Some("6799ef23".to_string()));
            assert_eq!(record.post_nat_dst_ipv4_address, None);
            assert_eq!(record.post_napt_src_transport_port, Some(41016));
            assert_eq!(record.post_napt_dst_transport_port, None);
        }
        _ => panic!("not filed"),
    }
}

#[test]
fn record_left() {
    assert!(matches!(dispose(record("yesterday", "10.8.31.235", 1)), Disposition::Skip));
    // The time is looked at first.
    assert!(matches!(dispose(record("yesterday", "nowhere", 1)), Disposition::Skip));
    let bad = dispose(record("2025-03-15T17:10:51Z", "nowhere", 1));
    assert!(matches!(bad, Disposition::BadAddress));
}

#[test]
fn record_filed_by_the_given_time() {
    let at = Moment::new(86_399, 0);
    match dispose_at(at, record("whenever", "::1", 1)) {
        Disposition::File { date, record } => {
            assert_eq!(date, "1970-01-01");
            assert_eq!(record.src_addr, IpAddr::V6(1));
        }
        _ => panic!("not filed"),
    }
    assert!(matches!(dispose_at(None, record("whenever", "::1", 1)), Disposition::Skip));
}

#[test]
fn records_by_date() {
    let mut archive = Archive::new();
    let days = ["15", "16", "15", "17", "16", "15"];
    for (i, day) in days.iter().enumerate() {
        let received = format!("2025-03-{}T00:00:00Z", day);
        assert_eq!(archive.take_in(record(&received, "1.2.3.4", i as i64)), Taken::Filed);
    }
    assert_eq!(archive.take_in(record("", "1.2.3.4", 7)), Taken::Skipped);
    assert_eq!(archive.take_in(record("2025-03-18T00:00:00Z", "1.2.3", 8)), Taken::BadAddress);
    let mut filed: Vec<(String, Vec<i64>)> = archive
        .into_days()
        .into_iter()
        .map(|d| (d.date, d.records.iter().map(|r| r.sequence_num).collect()))
        .collect();
    filed.sort();
    assert_eq!(
        filed,
        vec![
            ("2025-03-15".to_string(), vec![0, 2, 5]),
            ("2025-03-16".to_string(), vec![1, 4]),
            ("2025-03-17".to_string(), vec![3]),
        ]
    );
}

#[test]
fn nothing_filed() {
    assert!(Archive::new().into_days().is_empty());
}

#[test]
fn file_names() {
    assert_eq!(file_name("2025-03-15"), "output/2025-03-15.json");
}
