use arrow::array::{Array, BinaryArray, Int64Array, UInt16Array, UInt32Array, UInt8Array};
use arrow::datatypes::DataType;
use netflow::batch::{is_stored, Batch, WriteError};
use netflow::clock::{nanos_since_epoch, now_ns, time_of_reading};
use netflow::columns::Table;
use netflow::consumer::{Action, Consumer, Event, IngestError, Ingested};
use netflow::flow::Flow;
use netflow::flush::{take_full, write_batch, write_batch_at};
use netflow::frames::FrameDesync;
use netflow::partition::partition_path;

fn flow<'a>(start: i64, src: &'a [u8], dst: &'a [u8]) -> Flow<'a> {
    let mut f = Flow::default();
    f.time_flow_start_ns = start;
    f.src_addr = src;
    f.dst_addr = dst;
    f
}

fn message(start: u8, bytes: u8) -> Vec<u8> {
    // Addresses, start time and bytes.
    let mut m = vec![0x32, 4, 10, 0, 0, start, 0x3a, 4, 10, 0, 0, 2];
    m.extend_from_slice(&[0xf8, 0x06, start, 0x48, bytes]);
    m
}

fn frame(message: &[u8]) -> Vec<u8> {
    let mut out = vec![message.len() as u8];
    out.extend_from_slice(message);
    out.push(0x0a);
    out
}

fn int64s(t: &Table, name: &str) -> Vec<i64> {
    let c = t.batch.column_by_name(name).unwrap();
    c.as_any().downcast_ref::<Int64Array>().unwrap().values().to_vec()
}

fn uint16s(t: &Table, name: &str) -> Vec<Option<u16>> {
    let c = t.batch.column_by_name(name).unwrap();
    c.as_any().downcast_ref::<UInt16Array>().unwrap().iter().collect()
}

fn binaries(t: &Table, name: &str) -> Vec<Option<Vec<u8>>> {
    let c = t.batch.column_by_name(name).unwrap();
    let a = c.as_any().downcast_ref::<BinaryArray>().unwrap();
    a.iter().map(|v| v.map(|b| b.to_vec())).collect()
}

#[test]
fn batch_layout() {
    let schema = Batch::schema();
    let fields: Vec<(String, DataType, bool)> = schema
        .fields()
        .iter()
        .map(|f| (f.name().clone(), f.data_type().clone(), f.is_nullable()))
        .collect();
    let expected = vec![
        ("time_received_ns", DataType::Int64, false),
        ("time_flow_start_ns", DataType::Int64, false),
        ("time_flow_end_ns", DataType::Int64, false),
        ("sampler_address", DataType::Binary, false),
        ("src_addr", DataType::Binary, false),
        ("dst_addr", DataType::Binary, false),
        ("bytes", DataType::Int64, false),
        ("packets", DataType::Int64, false),
        ("proto", DataType::UInt8, false),
        ("src_port", DataType::UInt16, true),
        ("dst_port", DataType::UInt16, true),
        ("in_if", DataType::UInt32, false),
        ("out_if", DataType::UInt32, false),
        ("tcp_flags", DataType::UInt8, true),
        ("post_nat_src_ipv4_address", DataType::Binary, true),
        ("post_nat_dst_ipv4_address", DataType::Binary, true),
        ("post_napt_src_transport_port", DataType::UInt16, true),
        ("post_napt_dst_transport_port", DataType::UInt16, true),
    ];
    let expected: Vec<(String, DataType, bool)> =
        expected.into_iter().map(|(n, t, b)| (n.to_string(), t, b)).collect();
    assert_eq!(fields, expected);
}

#[test]
fn batch_row_values() {
    let mut batch = Batch::new();
    let mut f = flow(11, &[10, 2, 19, 230], &[157, 240, 14, 53]);
    f.time_received_ns = 13;
    f.time_flow_end_ns = 12;
    f.sampler_address = &[1, 2, 3];
    f.bytes = 10862;
    f.packets = 202;
    f.proto = 6;
    f.src_port = 0x1_0000 + 443;
    f.dst_port = 0;
    f.in_if = 4;
    f.out_if = 35;
    f.tcp_flags = 0x11b;
    f.post_nat_src_ipv4_address = &[170, 246, 160, 195];
    f.post_napt_src_transport_port = 59618;
    assert!(batch.has_room(&f));
    batch.append(&f);
    let mut g = flow(14, &[1; 16], &[2; 16]);
    g.proto = 17;
    g.tcp_flags = 0x1b;
    g.dst_port = 53;
    g.post_nat_dst_ipv4_address = &[1, 1, 1, 1];
    g.post_napt_dst_transport_port = 53;
    batch.append(&g);
    assert_eq!(batch.rows(), 2);

    let t = batch.sorted().ok().unwrap().unwrap();
    assert_eq!(t.batch.num_rows(), 2);
    assert_eq!(t.batch.num_columns(), 18);
    assert_eq!(int64s(&t, "time_received_ns"), vec![13, 0]);
    assert_eq!(int64s(&t, "time_flow_start_ns"), vec![11, 14]);
    assert_eq!(int64s(&t, "time_flow_end_ns"), vec![12, 0]);
    assert_eq!(binaries(&t, "sampler_address"), vec![Some(vec![1, 2, 3]), Some(vec![])]);
    assert_eq!(binaries(&t, "src_addr"), vec![Some(vec![10, 2, 19, 230]), Some(vec![1; 16])]);
    assert_eq!(binaries(&t, "dst_addr"), vec![Some(vec![157, 240, 14, 53]), Some(vec![2; 16])]);
    assert_eq!(int64s(&t, "bytes"), vec![10862, 0]);
    assert_eq!(int64s(&t, "packets"), vec![202, 0]);
    assert_eq!(uint16s(&t, "src_port"), vec![Some(443), None]);
    assert_eq!(uint16s(&t, "dst_port"), vec![None, Some(53)]);
    let proto = t.batch.column_by_name("proto").unwrap();
    let proto = proto.as_any().downcast_ref::<UInt8Array>().unwrap();
    assert_eq!(proto.values().to_vec(), vec![6, 17]);
    let flags = t.batch.column_by_name("tcp_flags").unwrap();
    let flags = flags.as_any().downcast_ref::<UInt8Array>().unwrap();
    assert_eq!(flags.iter().collect::<Vec<_>>(), vec![Some(0x1b), None]);
    let in_if = t.batch.column_by_name("in_if").unwrap();
    let in_if = in_if.as_any().downcast_ref::<UInt32Array>().unwrap();
    assert_eq!(in_if.values().to_vec(), vec![4, 0]);
    let out_if = t.batch.column_by_name("out_if").unwrap();
    let out_if = out_if.as_any().downcast_ref::<UInt32Array>().unwrap();
    assert_eq!(out_if.values().to_vec(), vec![35, 0]);
    assert_eq!(
        binaries(&t, "post_nat_src_ipv4_address"),
        vec![Some(vec![170, 246, 160, 195]), None]
    );
    assert_eq!(binaries(&t, "post_nat_dst_ipv4_address"), vec![None, Some(vec![1, 1, 1, 1])]);
    assert_eq!(uint16s(&t, "post_napt_src_transport_port"), vec![Some(59618), None]);
    assert_eq!(uint16s(&t, "post_napt_dst_transport_port"), vec![None, Some(53)]);
    assert_eq!(*t.batch.schema(), Batch::schema());
}

#[test]
fn batch_drops_what_is_not_between_addresses() {
    let mut batch = Batch::new();
    for (src, dst) in [(0usize, 4usize), (4, 0), (3, 4), (4, 5), (15, 16), (16, 17)] {
        let (a, b) = (vec![1; src], vec![1; dst]);
        let f = flow(1, &a, &b);
        assert!(!is_stored(&f));
        batch.append(&f);
    }
    assert_eq!(batch.rows(), 0);
    for (src, dst) in [(4usize, 4usize), (4, 16), (16, 4), (16, 16)] {
        let (a, b) = (vec![1; src], vec![1; dst]);
        let f = flow(1, &a, &b);
        assert!(is_stored(&f));
        batch.append(&f);
    }
    assert_eq!(batch.rows(), 4);
}

#[test]
fn batch_window() {
    let mut batch = Batch::new();
    assert_eq!((batch.window_start_ns(), batch.window_end_ns()), (i64::MAX, i64::MIN));
    for start in [5, -3, 9, 9, 0] {
        batch.append(&flow(start, &[0; 4], &[0; 4]));
    }
    assert_eq!((batch.window_start_ns(), batch.window_end_ns()), (-3, 9));
}

#[test]
fn batch_room() {
    let batch = Batch::new();
    let big = vec![0u8; 1 << 31];
    let mut f = flow(1, &[0; 4], &[0; 4]);
    f.sampler_address = &big[..(1 << 31) - 1];
    assert!(batch.has_room(&f));
    f.sampler_address = &big;
    assert!(!batch.has_room(&f));
    f.sampler_address = &[];
    f.post_nat_dst_ipv4_address = &big;
    assert!(!batch.has_room(&f));
}

#[test]
fn batch_sorted_by_start() {
    let mut batch = Batch::new();
    for (start, last) in [(5i64, 1u8), (-3, 2), (9, 3), (5, 4), (0, 5)] {
        let mut f = flow(start, &[0; 4], &[0; 4]);
        let sampler = [last];
        f.sampler_address = &sampler;
        f.bytes = start * 10;
        batch.append(&f);
    }
    let t = batch.sorted().ok().unwrap().unwrap();
    assert_eq!(int64s(&t, "time_flow_start_ns"), vec![-3, 0, 5, 5, 9]);
    // The other columns follow.
    assert_eq!(int64s(&t, "bytes"), vec![-30, 0, 50, 50, 90]);
    let samplers = binaries(&t, "sampler_address");
    assert_eq!(samplers[0], Some(vec![2]));
    assert_eq!(samplers[1], Some(vec![5]));
    assert_eq!(samplers[4], Some(vec![3]));
    let mut ties = vec![samplers[2].clone(), samplers[3].clone()];
    ties.sort();
    assert_eq!(ties, vec![Some(vec![1]), Some(vec![4])]);
}

#[test]
fn empty_batch_makes_no_table() {
    assert!(Batch::new().sorted().ok().unwrap().is_none());
}

#[test]
fn batch_handed_over_only_with_rows() {
    let mut batch = Batch::new();
    assert!(take_full(&mut batch).is_none());
    batch.append(&flow(1, &[0; 4], &[0; 4]));
    let full = take_full(&mut batch).unwrap();
    assert_eq!((full.rows(), batch.rows()), (1, 0));
    assert_eq!(batch.window_start_ns(), i64::MAX);
}

#[test]
fn batch_is_named_after_its_window() {
    let mut batch = Batch::new();
    batch.append(&flow(1_757_163_423_000_000_999, &[0; 4], &[0; 4]));
    batch.append(&flow(1_757_163_400_000_001_000, &[0; 4], &[0; 4]));
    let flush = write_batch(batch, 3).ok().unwrap();
    assert_eq!(
        flush.path,
        "year=2025/month=09/day=06/goflow2_1757163400000001_1757163423000000.parquet"
    );
    let table = flush.table.unwrap();
    assert_eq!(
        int64s(&table, "time_flow_start_ns"),
        vec![1_757_163_400_000_001_000, 1_757_163_423_000_000_999]
    );
}

#[test]
fn clock_matters_only_without_rows() {
    let mut batch = Batch::new();
    batch.append(&flow(0, &[0; 4], &[0; 4]));
    let flush = write_batch_at(batch, 3, None).ok().unwrap();
    assert_eq!(flush.path, "year=1970/month=01/day=01/goflow2_0_0.parquet");
    assert!(matches!(write_batch_at(Batch::new(), 3, None), Err(WriteError::Clock)));
    let empty = write_batch_at(Batch::new(), 3, Some(5_000)).ok().unwrap();
    assert_eq!(
        empty.path,
        "year=2262/month=04/day=11/goflow2_9223372036854775_5.parquet"
    );
    assert!(empty.table.is_none());
    assert!(write_batch(Batch::new(), 3).ok().unwrap().table.is_none());
}

#[test]
fn level_matters_only_with_rows() {
    for (level, there) in [(i32::MIN, false), (0, false), (1, true), (22, true), (23, false)] {
        let mut batch = Batch::new();
        batch.append(&flow(0, &[0; 4], &[0; 4]));
        match write_batch(batch, level) {
            Ok(flush) => {
                assert!(there);
                assert_eq!(flush.zstd_level, level);
                assert!(flush.table.is_some());
            }
            Err(WriteError::Level(e)) => {
                assert!(!there);
                assert!(e.to_string().contains("valid compression range 1..=22 exceeded."));
            }
            Err(_) => panic!("the level decides"),
        }
        assert!(write_batch_at(Batch::new(), level, Some(0)).is_ok());
    }
}

#[test]
fn paths() {
    assert_eq!(
        partition_path(951_782_400_000_000_000, 951_782_401_000_000_000),
        "year=2000/month=02/day=29/goflow2_951782400000000_951782401000000.parquet"
    );
    // Times before 1970 round toward it.
    assert_eq!(
        partition_path(-1_999, -999),
        "year=1970/month=01/day=01/goflow2_-1_0.parquet"
    );
    assert_eq!(
        partition_path(-86_400_000_000_000, 0),
        "year=1969/month=12/day=31/goflow2_-86400000000_0.parquet"
    );
    assert_eq!(
        partition_path(i64::MIN, i64::MAX),
        "year=1677/month=09/day=22/goflow2_-9223372036854775_9223372036854775.parquet"
    );
}

#[test]
fn clock() {
    assert_eq!(nanos_since_epoch(1, 5), 1_000_000_005);
    assert_eq!(nanos_since_epoch(9_223_372_036, 854_775_807), i64::MAX);
    assert_eq!(nanos_since_epoch(9_223_372_036, 854_775_808), i64::MIN);
    assert_eq!(time_of_reading(Some((1, 5))), Some(1_000_000_005));
    assert_eq!(time_of_reading(None), None);
    assert!(now_ns().unwrap() > 1_700_000_000_000_000_000);
}

fn stored(consumer: &mut Consumer) -> Vec<(i64, i64)> {
    match consumer.step(Event::Shutdown) {
        Action::Stop(Some(batch)) => {
            let t = batch.sorted().ok().unwrap().unwrap();
            let starts = int64s(&t, "time_flow_start_ns");
            starts.into_iter().zip(int64s(&t, "bytes")).collect()
        }
        Action::Stop(None) => vec![],
        _ => panic!("not at an end"),
    }
}

#[test]
fn consumer_counts() {
    let mut c = Consumer::new(300);
    let mut buf = frame(&message(1, 7));
    buf.extend(frame(&[0x4f]));
    buf.extend(frame(&[0x48, 5]));
    buf.extend_from_slice(&[9, 1]);
    let got = c.ingest(&buf);
    assert_eq!(got, Ok(Ingested { frames: 3, flows: 2, skipped: 1 }));
    assert_eq!((c.processed(), c.skipped()), (2, 1));
    // The flow without addresses counts, but is not stored.
    assert_eq!(stored(&mut c), vec![(1, 7)]);
}

#[test]
fn consumer_does_not_care_how_the_stream_is_cut() {
    let mut all = Vec::new();
    for i in 1..6u8 {
        all.extend(frame(&message(i, i * 2)));
    }
    let want: Vec<(i64, i64)> = (1..6).map(|i| (i, i * 2)).collect();
    for size in 1..all.len() + 1 {
        let mut c = Consumer::new(300);
        for chunk in all.chunks(size) {
            assert!(c.ingest(chunk).is_ok());
        }
        assert_eq!(c.processed(), 5);
        assert_eq!(stored(&mut c), want);
    }
}

#[test]
fn consumer_loses_nothing_in_handing_over() {
    let mut all = Vec::new();
    for i in 1..6u8 {
        all.extend(frame(&message(i, i)));
    }
    let mut c = Consumer::new(0);
    let mut rows = 0;
    for chunk in all.chunks(7) {
        match c.step(Event::Chunk(chunk)) {
            Action::Read => {}
            Action::Measure => match c.step(Event::Elapsed(0)) {
                Action::Flush(full) => rows += full.map_or(0, |b| b.rows()),
                _ => panic!("the batch was due"),
            },
            _ => panic!("the stream is in step"),
        }
    }
    assert_eq!(rows, 5);
    assert!(stored(&mut c).is_empty());
}

#[test]
fn consumer_steps() {
    let mut c = Consumer::new(300);
    let f = frame(&message(1, 1));
    assert!(matches!(c.step(Event::Chunk(&f[..5])), Action::Read));
    assert!(matches!(c.step(Event::Chunk(&f[5..])), Action::Measure));
    assert!(matches!(c.step(Event::Elapsed(299)), Action::Read));
    match c.step(Event::Elapsed(300)) {
        Action::Flush(Some(batch)) => assert_eq!(batch.rows(), 1),
        _ => panic!("the batch was due"),
    }
    assert!(matches!(c.step(Event::Elapsed(300)), Action::Flush(None)));
    assert!(matches!(c.step(Event::Closed), Action::Reopen(None)));
    assert!(matches!(c.step(Event::Chunk(&f)), Action::Measure));
    match c.step(Event::Closed) {
        Action::Reopen(Some(batch)) => assert_eq!(batch.rows(), 1),
        _ => panic!("there was a batch"),
    }
    assert!(matches!(c.step(Event::Shutdown), Action::Stop(None)));
}

#[test]
fn consumer_out_of_step() {
    let mut c = Consumer::new(300);
    let mut buf = frame(&message(1, 1));
    let n = buf.len();
    buf.extend_from_slice(&[1, 2, 3]);
    let want = IngestError::Desync(FrameDesync { at: n + 2, found: 3 });
    match c.step(Event::Chunk(&buf)) {
        Action::Fail(e) => assert_eq!(e, want),
        _ => panic!("the stream is out of step"),
    }
    assert_eq!((c.processed(), c.skipped()), (0, 0));
    assert!(stored(&mut c).is_empty());
}
