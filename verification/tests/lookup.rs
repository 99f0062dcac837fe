use std::sync::Arc;

use arrow::array::{
    ArrayRef, BinaryArray, BinaryViewArray, Int64Array, StringArray, UInt16Array, UInt8Array,
};
use arrow::datatypes::{DataType, Field, Schema};
use arrow::record_batch::RecordBatch;
use netflow::addr::IpAddr;
use netflow::columns::Table;
use netflow::lookup::{
    answer, answer_with, batch_to_nat_matches, columns_to_nat_matches, default_tolerance,
    nat_query, plan_lookup, search_window, NatColumns, NatLookupParams,
};
use netflow::moment::Moment;

fn params(at: &str, tolerance_secs: i64) -> NatLookupParams {
    NatLookupParams {
        ip: IpAddr::V4(0xaaf6_a0c3),
        port: 59618,
        at: Moment::parse(at).unwrap(),
        tolerance_secs,
    }
}

fn columns() -> NatColumns {
    NatColumns {
        rows: 2,
        direction: Some(vec!["outbound".to_string(), "inbound".to_string()]),
        src_addr: Some(vec![Some(vec![10, 2, 19, 230]), None]),
        dst_addr: Some(vec![Some(vec![157, 240, 14, 53]), Some(vec![0xab])]),
        dst_port: Some(vec![Some(5222), None]),
        proto: Some(vec![6, 17]),
        time_flow_start_ns: Some(vec![1, 2]),
        time_flow_end_ns: Some(vec![3, 4]),
        bytes: Some(vec![10862, 5]),
        packets: Some(vec![202, 6]),
    }
}

fn missing(rows: usize) -> NatColumns {
    NatColumns {
        rows,
        direction: None,
        src_addr: None,
        dst_addr: None,
        dst_port: None,
        proto: None,
        time_flow_start_ns: None,
        time_flow_end_ns: None,
        bytes: None,
        packets: None,
    }
}

#[test]
fn query_in_full() {
    let sql = plan_lookup(&params("2026-09-06T12:57:03Z", 120)).unwrap();
    let expected = "SELECT 'outbound' AS direction, \
                src_addr, dst_addr, dst_port, proto, \
                time_flow_start_ns, time_flow_end_ns, bytes, packets \
         FROM flows \
         WHERE post_nat_src_ipv4_address = X'aaf6a0c3' \
           AND post_napt_src_transport_port = 59618 \
           AND time_flow_start_ns <= 1788699543000000000 \
           AND time_flow_end_ns >= 1788699303000000000 \
         UNION ALL \
         SELECT 'inbound' AS direction, \
                dst_addr AS src_addr, src_addr AS dst_addr, src_port AS dst_port, proto, \
                time_flow_start_ns, time_flow_end_ns, bytes, packets \
         FROM flows \
         WHERE post_nat_dst_ipv4_address = X'aaf6a0c3' \
           AND post_napt_dst_transport_port = 59618 \
           AND time_flow_start_ns <= 1788699543000000000 \
           AND time_flow_end_ns >= 1788699303000000000 \
         LIMIT 50";
    assert_eq!(sql, expected);
}

#[test]
fn query_parts() {
    let sql = nat_query("00ff", 7, -5, 6);
    assert!(sql.contains("post_nat_src_ipv4_address = X'00ff'"));
    assert!(sql.contains("post_napt_dst_transport_port = 7 "));
    assert!(sql.contains("time_flow_start_ns <= 6 AND time_flow_end_ns >= -5 "));
}

#[test]
fn tolerance() {
    assert_eq!(default_tolerance(), 60);
    assert_eq!(search_window(100, 0), Some((100, 100)));
    assert_eq!(search_window(0, 60), Some((-60_000_000_000, 60_000_000_000)));
    assert_eq!(search_window(0, -1), Some((1_000_000_000, -1_000_000_000)));
    assert_eq!(search_window(0, 9_223_372_036), Some((-9_223_372_036_000_000_000, 9_223_372_036_000_000_000)));
    assert_eq!(search_window(0, 9_223_372_037), None);
    assert_eq!(search_window(0, i64::MIN), None);
    assert_eq!(search_window(i64::MAX, 1), None);
    assert_eq!(search_window(i64::MIN, 1), None);
}

#[test]
fn time_beyond_the_count_of_nanoseconds_is_taken_for_the_epoch() {
    for at in ["9999-12-31T23:59:59Z", "1000-01-01T00:00:00Z", "2262-04-11T23:47:17Z"] {
        let sql = plan_lookup(&params(at, 1)).unwrap();
        assert!(sql.contains("time_flow_start_ns <= 1000000000 "));
        assert!(sql.contains("time_flow_end_ns >= -1000000000 "));
    }
}

#[test]
fn spans_that_cannot_be_searched() {
    assert!(plan_lookup(&params("2026-09-06T12:57:03Z", i64::MAX)).is_none());
    assert!(plan_lookup(&params("2262-04-11T23:47:16Z", 1)).is_none());
    assert!(plan_lookup(&params("2262-04-11T23:47:16Z", 0)).is_some());
}

#[test]
fn matches_made() {
    let found = columns_to_nat_matches(&columns());
    assert_eq!(found.len(), 2);
    let m = &found[0];
    assert_eq!(m.direction, "outbound");
    assert_eq!(m.internal_ip, "10.2.19.230");
    assert_eq!(m.remote_ip, "157.240.14.53");
    assert_eq!(m.remote_port, Some(5222));
    assert_eq!((m.proto, m.bytes, m.packets), (6, 10862, 202));
    assert_eq!((m.time_flow_start_ns, m.time_flow_end_ns), (1, 3));
    let n = &found[1];
    assert_eq!(n.direction, "inbound");
    assert_eq!(n.internal_ip, "");
    assert_eq!(n.remote_ip, "ab");
    assert_eq!(n.remote_port, None);
    assert_eq!(n.proto, 17);
}

#[test]
fn matches_of_missing_columns() {
    assert!(columns_to_nat_matches(&missing(3)).is_empty());
    let mut some = missing(1);
    some.direction = Some(vec!["sideways".to_string()]);
    let found = columns_to_nat_matches(&some);
    assert_eq!(found.len(), 1);
    let m = &found[0];
    assert_eq!(m.direction, "inbound");
    assert_eq!((m.internal_ip.as_str(), m.remote_ip.as_str()), ("", ""));
    assert_eq!(m.remote_port, None);
    assert_eq!((m.proto, m.bytes, m.packets), (0, 0, 0));
    assert_eq!((m.time_flow_start_ns, m.time_flow_end_ns), (0, 0));
}

fn table(columns: Vec<(&str, DataType, ArrayRef)>) -> Table {
    let fields: Vec<Field> =
        columns.iter().map(|(name, kind, _)| Field::new(*name, kind.clone(), true)).collect();
    let arrays: Vec<ArrayRef> = columns.into_iter().map(|(_, _, array)| array).collect();
    Table { batch: RecordBatch::try_new(Arc::new(Schema::new(fields)), arrays).unwrap() }
}

fn found() -> Table {
    let inner: Vec<Option<&[u8]>> = vec![Some(&[10, 2, 19, 230]), None];
    let outer: Vec<Option<&[u8]>> = vec![Some(&[157, 240, 14, 53]), Some(&[0xab])];
    table(vec![
        ("direction", DataType::Utf8, Arc::new(StringArray::from(vec!["outbound", "inbound"]))),
        ("src_addr", DataType::BinaryView, Arc::new(BinaryViewArray::from_iter(inner))),
        ("dst_addr", DataType::BinaryView, Arc::new(BinaryViewArray::from_iter(outer))),
        ("dst_port", DataType::UInt16, Arc::new(UInt16Array::from(vec![Some(5222), None]))),
        ("proto", DataType::UInt8, Arc::new(UInt8Array::from(vec![6, 17]))),
        ("time_flow_start_ns", DataType::Int64, Arc::new(Int64Array::from(vec![1, 2]))),
        ("time_flow_end_ns", DataType::Int64, Arc::new(Int64Array::from(vec![3, 4]))),
        ("bytes", DataType::Int64, Arc::new(Int64Array::from(vec![10862, 5]))),
        ("packets", DataType::Int64, Arc::new(Int64Array::from(vec![202, 6]))),
    ])
}

#[test]
fn matches_of_a_table() {
    let got = batch_to_nat_matches(&found());
    let want = columns_to_nat_matches(&columns());
    assert_eq!(format!("{:?}", got), format!("{:?}", want));
    assert_eq!(got.len(), 2);
}

#[test]
fn columns_of_another_type_are_as_good_as_missing() {
    // Stored byte strings that are not views.
    let inner: Vec<Option<&[u8]>> = vec![Some(&[10, 2, 19, 230])];
    let t = table(vec![
        ("direction", DataType::Utf8, Arc::new(StringArray::from(vec!["outbound"]))),
        ("src_addr", DataType::Binary, Arc::new(BinaryArray::from(inner))),
        ("dst_port", DataType::Int64, Arc::new(Int64Array::from(vec![53]))),
        ("proto", DataType::UInt16, Arc::new(UInt16Array::from(vec![6]))),
        ("bytes", DataType::UInt8, Arc::new(UInt8Array::from(vec![7]))),
        ("packets", DataType::Int64, Arc::new(Int64Array::from(vec![8]))),
    ]);
    let got = batch_to_nat_matches(&t);
    assert_eq!(got.len(), 1);
    assert_eq!(got[0].direction, "outbound");
    assert_eq!((got[0].internal_ip.as_str(), got[0].remote_ip.as_str()), ("", ""));
    assert_eq!(got[0].remote_port, None);
    assert_eq!((got[0].proto, got[0].bytes, got[0].packets), (0, 0, 8));
    // Without a direction there is nothing.
    let none = table(vec![("direction", DataType::Int64, Arc::new(Int64Array::from(vec![1])))]);
    assert!(batch_to_nat_matches(&none).is_empty());
}

#[test]
fn first_of_two_columns_counts() {
    let t = table(vec![
        ("direction", DataType::Utf8, Arc::new(StringArray::from(vec!["outbound"]))),
        ("bytes", DataType::Int64, Arc::new(Int64Array::from(vec![1]))),
        ("bytes", DataType::Int64, Arc::new(Int64Array::from(vec![2]))),
    ]);
    assert_eq!(batch_to_nat_matches(&t)[0].bytes, 1);
}

#[test]
fn answers() {
    let p = params("2026-09-06T14:57:03.5+02:00", 120);
    let none = table(vec![("bytes", DataType::Int64, Arc::new(Int64Array::from(vec![1])))]);
    let res = answer(&p, &vec![found(), none, found()]);
    assert_eq!(res.query.ip, "170.246.160.195");
    assert_eq!(res.query.port, 59618);
    assert_eq!(res.query.at, "2026-09-06T12:57:03.500+00:00");
    assert_eq!(res.query.tolerance_secs, 120);
    assert_eq!(res.matches.len(), 4);
    assert_eq!(res.matches[2].internal_ip, "10.2.19.230");
    assert_eq!(res.matches[3].remote_ip, "ab");
}

#[test]
fn answers_with_a_given_time() {
    let p = params("2026-09-06T14:57:03.5+02:00", 120);
    let given = answer_with(&p, "then".to_string(), &vec![columns(), missing(4), columns()]);
    assert_eq!(given.query.at, "then");
    assert_eq!(given.matches.len(), 4);
    assert!(answer_with(&p, String::new(), &vec![]).matches.is_empty());
}
