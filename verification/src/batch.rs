//! A batch of flows, gathered column by column and handed over sorted by time.

use arrow::datatypes::Schema;
use arrow::error::ArrowError;
use parquet::errors::ParquetError;

use vstd::prelude::*;

use crate::columns::{
    arrow_schema, binary_contents, column_data, columns_data, fields_view, fits_layout,
    int64_contents, is_permutation, law_reordered_same_rows, named, order_rows, record_batch,
    reordered, schema_fields, sort_to_indices, sorts, table_columns, table_fields, take_rows,
    total_bytes, uint16_contents, uint32_contents, uint8_contents, BinaryColumn, Column,
    ColumnData, ColumnField, ColumnKind, FieldData, Int64Column, RowOrder, Table, UInt16Column,
    UInt32Column, UInt8Column,
};
use crate::flow::{Flow, FlowData};

verus! {

/// A flow as the archive stores it.
pub struct Row {
    pub time_received_ns: i64,
    pub time_flow_start_ns: i64,
    pub time_flow_end_ns: i64,
    pub sampler_address: Seq<u8>,
    pub src_addr: Seq<u8>,
    pub dst_addr: Seq<u8>,
    pub bytes: i64,
    pub packets: i64,
    pub proto: u8,
    pub src_port: Option<u16>,
    pub dst_port: Option<u16>,
    pub in_if: u32,
    pub out_if: u32,
    pub tcp_flags: Option<u8>,
    pub post_nat_src_ipv4_address: Option<Seq<u8>>,
    pub post_nat_dst_ipv4_address: Option<Seq<u8>>,
    pub post_napt_src_transport_port: Option<u16>,
    pub post_napt_dst_transport_port: Option<u16>,
}

/// The two lengths an address can have.
pub open spec fn is_address_length(n: nat) -> bool {
    n == 4 || n == 16
}

/// A port as it is stored: null for zero, and its low sixteen bits otherwise.
pub open spec fn stored_port(port: u32) -> Option<u16> {
    if port == 0 {
        None
    } else {
        Some(port as u16)
    }
}

/// A translated address as it is stored: null where the flow was not translated.
pub open spec fn stored_address(bytes: Seq<u8>) -> Option<Seq<u8>> {
    if bytes.len() == 0 {
        None
    } else {
        Some(bytes)
    }
}

/// The row a flow is stored as. A flow whose source or destination is not an
/// address is not stored. The TCP flags are those of TCP flows, and null for
/// other protocols, where a zero would mislead.
pub open spec fn stored_row(f: FlowData) -> Option<Row> {
    if !is_address_length(f.src_addr.len()) || !is_address_length(f.dst_addr.len()) {
        None
    } else {
        Some(
            Row {
                time_received_ns: f.time_received_ns,
                time_flow_start_ns: f.time_flow_start_ns,
                time_flow_end_ns: f.time_flow_end_ns,
                sampler_address: f.sampler_address,
                src_addr: f.src_addr,
                dst_addr: f.dst_addr,
                bytes: f.bytes,
                packets: f.packets,
                proto: f.proto,
                src_port: stored_port(f.src_port),
                dst_port: stored_port(f.dst_port),
                in_if: f.in_if,
                out_if: f.out_if,
                tcp_flags: if f.proto == 6 {
                    Some(f.tcp_flags as u8)
                } else {
                    None
                },
                post_nat_src_ipv4_address: stored_address(f.post_nat_src_ipv4_address),
                post_nat_dst_ipv4_address: stored_address(f.post_nat_dst_ipv4_address),
                post_napt_src_transport_port: stored_port(f.post_napt_src_transport_port),
                post_napt_dst_transport_port: stored_port(f.post_napt_dst_transport_port),
            },
        )
    }
}

/// The rows that the given flows are stored as, in order.
pub open spec fn stored_rows(flows: Seq<FlowData>) -> Seq<Row>
    decreases flows.len(),
{
    if flows.len() == 0 {
        Seq::empty()
    } else {
        match stored_row(flows.last()) {
            Some(row) => stored_rows(flows.drop_last()).push(row),
            None => stored_rows(flows.drop_last()),
        }
    }
}

/// Whether both ends of every row are addresses of four or sixteen bytes.
pub open spec fn between_addresses(rows: Seq<Row>) -> bool {
    forall|i: int|
        0 <= i < rows.len() ==> is_address_length((#[trigger] rows[i]).src_addr.len())
            && is_address_length(rows[i].dst_addr.len())
}

/// What is stored lies between addresses of four or sixteen bytes.
pub proof fn law_stored_between_addresses(flows: Seq<FlowData>)
    ensures
        between_addresses(stored_rows(flows)),
    decreases flows.len(),
{
    if flows.len() > 0 {
        law_stored_between_addresses(flows.drop_last());
    }
}

/// The columns of a set of rows.
#[verifier::ext_equal]
pub struct RowColumns {
    pub time_received_ns: Seq<Option<i64>>,
    pub time_flow_start_ns: Seq<Option<i64>>,
    pub time_flow_end_ns: Seq<Option<i64>>,
    pub sampler_address: Seq<Option<Seq<u8>>>,
    pub src_addr: Seq<Option<Seq<u8>>>,
    pub dst_addr: Seq<Option<Seq<u8>>>,
    pub bytes: Seq<Option<i64>>,
    pub packets: Seq<Option<i64>>,
    pub proto: Seq<Option<u8>>,
    pub src_port: Seq<Option<u16>>,
    pub dst_port: Seq<Option<u16>>,
    pub in_if: Seq<Option<u32>>,
    pub out_if: Seq<Option<u32>>,
    pub tcp_flags: Seq<Option<u8>>,
    pub post_nat_src_ipv4_address: Seq<Option<Seq<u8>>>,
    pub post_nat_dst_ipv4_address: Seq<Option<Seq<u8>>>,
    pub post_napt_src_transport_port: Seq<Option<u16>>,
    pub post_napt_dst_transport_port: Seq<Option<u16>>,
}

/// The columns that hold the given rows.
pub open spec fn row_columns(rows: Seq<Row>) -> RowColumns {
    RowColumns {
        time_received_ns: Seq::new(rows.len(), |i: int| Some(rows[i].time_received_ns)),
        time_flow_start_ns: Seq::new(rows.len(), |i: int| Some(rows[i].time_flow_start_ns)),
        time_flow_end_ns: Seq::new(rows.len(), |i: int| Some(rows[i].time_flow_end_ns)),
        sampler_address: Seq::new(rows.len(), |i: int| Some(rows[i].sampler_address)),
        src_addr: Seq::new(rows.len(), |i: int| Some(rows[i].src_addr)),
        dst_addr: Seq::new(rows.len(), |i: int| Some(rows[i].dst_addr)),
        bytes: Seq::new(rows.len(), |i: int| Some(rows[i].bytes)),
        packets: Seq::new(rows.len(), |i: int| Some(rows[i].packets)),
        proto: Seq::new(rows.len(), |i: int| Some(rows[i].proto)),
        src_port: Seq::new(rows.len(), |i: int| rows[i].src_port),
        dst_port: Seq::new(rows.len(), |i: int| rows[i].dst_port),
        in_if: Seq::new(rows.len(), |i: int| Some(rows[i].in_if)),
        out_if: Seq::new(rows.len(), |i: int| Some(rows[i].out_if)),
        tcp_flags: Seq::new(rows.len(), |i: int| rows[i].tcp_flags),
        post_nat_src_ipv4_address: Seq::new(rows.len(), |i: int| rows[i].post_nat_src_ipv4_address),
        post_nat_dst_ipv4_address: Seq::new(rows.len(), |i: int| rows[i].post_nat_dst_ipv4_address),
        post_napt_src_transport_port: Seq::new(rows.len(), |i: int| rows[i].post_napt_src_transport_port),
        post_napt_dst_transport_port: Seq::new(rows.len(), |i: int| rows[i].post_napt_dst_transport_port),
    }
}

impl RowColumns {
    /// The columns with one more row.
    spec fn with(self, row: Row) -> RowColumns {
        RowColumns {
            time_received_ns: self.time_received_ns.push(Some(row.time_received_ns)),
            time_flow_start_ns: self.time_flow_start_ns.push(Some(row.time_flow_start_ns)),
            time_flow_end_ns: self.time_flow_end_ns.push(Some(row.time_flow_end_ns)),
            sampler_address: self.sampler_address.push(Some(row.sampler_address)),
            src_addr: self.src_addr.push(Some(row.src_addr)),
            dst_addr: self.dst_addr.push(Some(row.dst_addr)),
            bytes: self.bytes.push(Some(row.bytes)),
            packets: self.packets.push(Some(row.packets)),
            proto: self.proto.push(Some(row.proto)),
            src_port: self.src_port.push(row.src_port),
            dst_port: self.dst_port.push(row.dst_port),
            in_if: self.in_if.push(Some(row.in_if)),
            out_if: self.out_if.push(Some(row.out_if)),
            tcp_flags: self.tcp_flags.push(row.tcp_flags),
            post_nat_src_ipv4_address: self.post_nat_src_ipv4_address.push(row.post_nat_src_ipv4_address),
            post_nat_dst_ipv4_address: self.post_nat_dst_ipv4_address.push(row.post_nat_dst_ipv4_address),
            post_napt_src_transport_port: self.post_napt_src_transport_port.push(row.post_napt_src_transport_port),
            post_napt_dst_transport_port: self.post_napt_dst_transport_port.push(row.post_napt_dst_transport_port),
        }
    }

    /// The columns in the order of the layout.
    pub open spec fn data(self) -> Seq<ColumnData> {
        seq![
            ColumnData::Int64(self.time_received_ns),
            ColumnData::Int64(self.time_flow_start_ns),
            ColumnData::Int64(self.time_flow_end_ns),
            ColumnData::Binary(self.sampler_address),
            ColumnData::Binary(self.src_addr),
            ColumnData::Binary(self.dst_addr),
            ColumnData::Int64(self.bytes),
            ColumnData::Int64(self.packets),
            ColumnData::UInt8(self.proto),
            ColumnData::UInt16(self.src_port),
            ColumnData::UInt16(self.dst_port),
            ColumnData::UInt32(self.in_if),
            ColumnData::UInt32(self.out_if),
            ColumnData::UInt8(self.tcp_flags),
            ColumnData::Binary(self.post_nat_src_ipv4_address),
            ColumnData::Binary(self.post_nat_dst_ipv4_address),
            ColumnData::UInt16(self.post_napt_src_transport_port),
            ColumnData::UInt16(self.post_napt_dst_transport_port),
        ]
    }
}

/// The layout of the archive's tables.
pub open spec fn layout() -> Seq<FieldData> {
    seq![
        FieldData { name: "time_received_ns"@, kind: Some(ColumnKind::Int64), nullable: false },
        FieldData { name: "time_flow_start_ns"@, kind: Some(ColumnKind::Int64), nullable: false },
        FieldData { name: "time_flow_end_ns"@, kind: Some(ColumnKind::Int64), nullable: false },
        FieldData { name: "sampler_address"@, kind: Some(ColumnKind::Binary), nullable: false },
        FieldData { name: "src_addr"@, kind: Some(ColumnKind::Binary), nullable: false },
        FieldData { name: "dst_addr"@, kind: Some(ColumnKind::Binary), nullable: false },
        FieldData { name: "bytes"@, kind: Some(ColumnKind::Int64), nullable: false },
        FieldData { name: "packets"@, kind: Some(ColumnKind::Int64), nullable: false },
        FieldData { name: "proto"@, kind: Some(ColumnKind::UInt8), nullable: false },
        FieldData { name: "src_port"@, kind: Some(ColumnKind::UInt16), nullable: true },
        FieldData { name: "dst_port"@, kind: Some(ColumnKind::UInt16), nullable: true },
        FieldData { name: "in_if"@, kind: Some(ColumnKind::UInt32), nullable: false },
        FieldData { name: "out_if"@, kind: Some(ColumnKind::UInt32), nullable: false },
        FieldData { name: "tcp_flags"@, kind: Some(ColumnKind::UInt8), nullable: true },
        FieldData { name: "post_nat_src_ipv4_address"@, kind: Some(ColumnKind::Binary), nullable: true },
        FieldData { name: "post_nat_dst_ipv4_address"@, kind: Some(ColumnKind::Binary), nullable: true },
        FieldData { name: "post_napt_src_transport_port"@, kind: Some(ColumnKind::UInt16), nullable: true },
        FieldData { name: "post_napt_dst_transport_port"@, kind: Some(ColumnKind::UInt16), nullable: true },
    ]
}

/// The earliest start among the rows; the largest number there is for none.
pub open spec fn first_start(rows: Seq<Row>) -> i64
    decreases rows.len(),
{
    if rows.len() == 0 {
        i64::MAX
    } else {
        let before = first_start(rows.drop_last());
        if rows.last().time_flow_start_ns < before {
            rows.last().time_flow_start_ns
        } else {
            before
        }
    }
}

/// The latest start among the rows; the smallest number there is for none.
pub open spec fn last_start(rows: Seq<Row>) -> i64
    decreases rows.len(),
{
    if rows.len() == 0 {
        i64::MIN
    } else {
        let before = last_start(rows.drop_last());
        if rows.last().time_flow_start_ns > before {
            rows.last().time_flow_start_ns
        } else {
            before
        }
    }
}

/// A growing column of byte strings that knows how many bytes it holds.
pub struct ByteColumn {
    column: BinaryColumn,
    bytes: usize,
}

impl ByteColumn {
    spec fn contents(self) -> Seq<Option<Seq<u8>>> {
        binary_contents(self.column)
    }

    spec fn wf(self) -> bool {
        self.bytes == total_bytes(self.contents()) && self.bytes <= i32::MAX
    }

    fn new() -> (c: ByteColumn)
        ensures
            c.wf(),
            c.contents() == Seq::<Option<Seq<u8>>>::empty(),
    {
        ByteColumn { column: BinaryColumn::new(), bytes: 0 }
    }

    /// Whether `n` more bytes can be addressed.
    fn has_room(&self, n: usize) -> (res: bool)
        requires
            self.wf(),
        ensures
            res == (total_bytes(self.contents()) + n <= i32::MAX),
    {
        n <= 0x7fff_ffff && self.bytes + n <= 0x7fff_ffff
    }

    fn append_value(&mut self, v: &[u8])
        requires
            old(self).wf(),
            total_bytes(old(self).contents()) + v@.len() <= i32::MAX,
        ensures
            final(self).wf(),
            final(self).contents() == old(self).contents().push(Some(v@)),
    {
        proof {
            lemma_total_push(self.contents(), Some(v@));
        }
        self.column.append_value(v);
        self.bytes = self.bytes + v.len();
    }

    /// Appends the bytes, or a null if there are none.
    fn append_non_empty(&mut self, v: &[u8])
        requires
            old(self).wf(),
            total_bytes(old(self).contents()) + v@.len() <= i32::MAX,
        ensures
            final(self).wf(),
            final(self).contents() == old(self).contents().push(stored_address(v@)),
    {
        if v.len() == 0 {
            proof {
                lemma_total_push(self.contents(), None);
            }
            self.column.append_null();
        } else {
            self.append_value(v);
        }
    }
}

proof fn lemma_total_push(s: Seq<Option<Seq<u8>>>, v: Option<Seq<u8>>)
    ensures
        total_bytes(s.push(v)) == total_bytes(s) + match v {
            Some(bytes) => bytes.len(),
            None => 0,
        },
{
    assert(s.push(v).drop_last() =~= s);
}

/// A batch of flows on its way to a file.
pub struct Batch {
    time_received_ns: Int64Column,
    time_flow_start_ns: Int64Column,
    time_flow_end_ns: Int64Column,
    sampler_address: ByteColumn,
    src_addr: ByteColumn,
    dst_addr: ByteColumn,
    bytes: Int64Column,
    packets: Int64Column,
    proto: UInt8Column,
    src_port: UInt16Column,
    dst_port: UInt16Column,
    in_if: UInt32Column,
    out_if: UInt32Column,
    tcp_flags: UInt8Column,
    post_nat_src_ipv4_address: ByteColumn,
    post_nat_dst_ipv4_address: ByteColumn,
    post_napt_src_transport_port: UInt16Column,
    post_napt_dst_transport_port: UInt16Column,
    rows: usize,
    window_start_ns: i64,
    window_end_ns: i64,
    log: Ghost<Seq<Row>>,
}

impl View for Batch {
    type V = Seq<Row>;

    /// The rows of the batch, in the order in which they came.
    closed spec fn view(&self) -> Seq<Row> {
        self.log@
    }
}

/// Whether the byte strings of one more flow can still be addressed: those of
/// each column, all rows together, by a 32-bit signed offset.
pub open spec fn room_for(rows: Seq<Row>, f: FlowData) -> bool {
    let columns = row_columns(rows);
    &&& total_bytes(columns.sampler_address) + f.sampler_address.len() <= i32::MAX
    &&& total_bytes(columns.src_addr) + f.src_addr.len() <= i32::MAX
    &&& total_bytes(columns.dst_addr) + f.dst_addr.len() <= i32::MAX
    &&& total_bytes(columns.post_nat_src_ipv4_address) + f.post_nat_src_ipv4_address.len()
        <= i32::MAX
    &&& total_bytes(columns.post_nat_dst_ipv4_address) + f.post_nat_dst_ipv4_address.len()
        <= i32::MAX
}

/// Whether `order` names each of the rows once, the earlier starts first.
pub open spec fn is_time_order(order: Seq<u32>, rows: Seq<Row>) -> bool {
    &&& is_permutation(order, rows.len())
    &&& forall|i: int, j: int|
        0 <= i <= j < order.len() ==> (#[trigger] rows[order[i] as int]).time_flow_start_ns <= (
        #[trigger] rows[order[j] as int]).time_flow_start_ns
}

/// Whether the table has the archive's layout and holds the rows, each once and
/// no others, the earlier starts first.
pub open spec fn holds_in_time_order(t: Table, rows: Seq<Row>) -> bool {
    &&& table_fields(t) == layout()
    &&& exists|order: Seq<u32>| #[trigger]
        is_time_order(order, rows) && table_columns(t) == row_columns(
            reordered(rows, order),
        ).data()
}

proof fn lemma_columns_push(rows: Seq<Row>, row: Row)
    ensures
        row_columns(rows.push(row)) == row_columns(rows).with(row),
{
    assert(row_columns(rows.push(row)) =~= row_columns(rows).with(row));
}

/// Reordering the rows reorders each column.
proof fn lemma_columns_reorder(rows: Seq<Row>, order: Seq<u32>)
    requires
        is_permutation(order, rows.len()),
    ensures
        forall|k: int|
            0 <= k < 18 ==> #[trigger] row_columns(reordered(rows, order)).data()[k]
                == row_columns(rows).data()[k].reordered(order),
{
    let a = row_columns(reordered(rows, order));
    let b = row_columns(rows);
    assert(a.time_received_ns =~= reordered(b.time_received_ns, order));
    assert(a.time_flow_start_ns =~= reordered(b.time_flow_start_ns, order));
    assert(a.time_flow_end_ns =~= reordered(b.time_flow_end_ns, order));
    assert(a.sampler_address =~= reordered(b.sampler_address, order));
    assert(a.src_addr =~= reordered(b.src_addr, order));
    assert(a.dst_addr =~= reordered(b.dst_addr, order));
    assert(a.bytes =~= reordered(b.bytes, order));
    assert(a.packets =~= reordered(b.packets, order));
    assert(a.proto =~= reordered(b.proto, order));
    assert(a.src_port =~= reordered(b.src_port, order));
    assert(a.dst_port =~= reordered(b.dst_port, order));
    assert(a.in_if =~= reordered(b.in_if, order));
    assert(a.out_if =~= reordered(b.out_if, order));
    assert(a.tcp_flags =~= reordered(b.tcp_flags, order));
    assert(a.post_nat_src_ipv4_address =~= reordered(b.post_nat_src_ipv4_address, order));
    assert(a.post_nat_dst_ipv4_address =~= reordered(b.post_nat_dst_ipv4_address, order));
    assert(a.post_napt_src_transport_port =~= reordered(b.post_napt_src_transport_port, order));
    assert(a.post_napt_dst_transport_port =~= reordered(b.post_napt_dst_transport_port, order));
}

/// The columns of any rows fit the layout.
proof fn lemma_columns_fit(rows: Seq<Row>)
    ensures
        fits_layout(layout(), row_columns(rows).data()),
        row_columns(rows).data()[0].len() == rows.len(),
{
    let fields = layout();
    let columns = row_columns(rows).data();
    assert(fields.len() == 18 && columns.len() == 18);
    assert forall|i: int| 0 <= i < columns.len() implies {
        &&& (#[trigger] columns[i]).kind() is Some
        &&& columns[i].kind() == fields[i].kind
        &&& columns[i].len() == columns[0].len()
        &&& fields[i].nullable || columns[i].is_full()
    } by {}
}

impl Batch {
    spec fn contents(self) -> RowColumns {
        RowColumns {
            time_received_ns: int64_contents(self.time_received_ns),
            time_flow_start_ns: int64_contents(self.time_flow_start_ns),
            time_flow_end_ns: int64_contents(self.time_flow_end_ns),
            sampler_address: self.sampler_address.contents(),
            src_addr: self.src_addr.contents(),
            dst_addr: self.dst_addr.contents(),
            bytes: int64_contents(self.bytes),
            packets: int64_contents(self.packets),
            proto: uint8_contents(self.proto),
            src_port: uint16_contents(self.src_port),
            dst_port: uint16_contents(self.dst_port),
            in_if: uint32_contents(self.in_if),
            out_if: uint32_contents(self.out_if),
            tcp_flags: uint8_contents(self.tcp_flags),
            post_nat_src_ipv4_address: self.post_nat_src_ipv4_address.contents(),
            post_nat_dst_ipv4_address: self.post_nat_dst_ipv4_address.contents(),
            post_napt_src_transport_port: uint16_contents(self.post_napt_src_transport_port),
            post_napt_dst_transport_port: uint16_contents(self.post_napt_dst_transport_port),
        }
    }

    /// What every operation keeps: the columns hold the rows and nothing else,
    /// both ends of every row are addresses, the window spans their starts, and the
    /// byte strings can be addressed.
    pub closed spec fn wf(self) -> bool {
        &&& self.contents() == row_columns(self@)
        &&& between_addresses(self@)
        &&& self.sampler_address.wf()
        &&& self.src_addr.wf()
        &&& self.dst_addr.wf()
        &&& self.post_nat_src_ipv4_address.wf()
        &&& self.post_nat_dst_ipv4_address.wf()
        &&& self.rows == self@.len()
        &&& 4 * self.rows <= total_bytes(self.src_addr.contents())
        &&& self.window_start_ns == first_start(self@)
        &&& self.window_end_ns == last_start(self@)
    }

    /// An empty batch.
    pub fn new() -> (batch: Batch)
        ensures
            batch.wf(),
            batch@ == Seq::<Row>::empty(),
    {
        let batch = Batch {
            time_received_ns: Int64Column::new(),
            time_flow_start_ns: Int64Column::new(),
            time_flow_end_ns: Int64Column::new(),
            sampler_address: ByteColumn::new(),
            src_addr: ByteColumn::new(),
            dst_addr: ByteColumn::new(),
            bytes: Int64Column::new(),
            packets: Int64Column::new(),
            proto: UInt8Column::new(),
            src_port: UInt16Column::new(),
            dst_port: UInt16Column::new(),
            in_if: UInt32Column::new(),
            out_if: UInt32Column::new(),
            tcp_flags: UInt8Column::new(),
            post_nat_src_ipv4_address: ByteColumn::new(),
            post_nat_dst_ipv4_address: ByteColumn::new(),
            post_napt_src_transport_port: UInt16Column::new(),
            post_napt_dst_transport_port: UInt16Column::new(),
            rows: 0,
            window_start_ns: i64::MAX,
            window_end_ns: i64::MIN,
            log: Ghost(Seq::empty()),
        };
        assert(batch.contents() =~= row_columns(Seq::empty()));
        batch
    }

    /// How many rows the batch has.
    pub fn rows(&self) -> (n: usize)
        requires
            self.wf(),
        ensures
            n == self@.len(),
    {
        self.rows
    }

    /// The earliest start among the rows; the largest number there is for none.
    pub fn window_start_ns(&self) -> (ns: i64)
        requires
            self.wf(),
        ensures
            ns == first_start(self@),
    {
        self.window_start_ns
    }

    /// The latest start among the rows; the smallest number there is for none.
    pub fn window_end_ns(&self) -> (ns: i64)
        requires
            self.wf(),
        ensures
            ns == last_start(self@),
    {
        self.window_end_ns
    }

    /// Whether the batch can take the flow.
    pub fn has_room(&self, f: &Flow) -> (res: bool)
        requires
            self.wf(),
        ensures
            res == room_for(self@, f@),
    {
        self.sampler_address.has_room(f.sampler_address.len()) && self.src_addr.has_room(
            f.src_addr.len(),
        ) && self.dst_addr.has_room(f.dst_addr.len()) && self.post_nat_src_ipv4_address.has_room(
            f.post_nat_src_ipv4_address.len(),
        ) && self.post_nat_dst_ipv4_address.has_room(f.post_nat_dst_ipv4_address.len())
    }

    /// Adds the flow, if both its ends are addresses; drops it otherwise.
    pub fn append(&mut self, f: &Flow)
        requires
            old(self).wf(),
            stored_row(f@) is Some ==> room_for(old(self)@, f@),
        ensures
            final(self).wf(),
            final(self)@ == match stored_row(f@) {
                Some(row) => old(self)@.push(row),
                None => old(self)@,
            },
    {
        if !is_stored(f) {
            return;
        }
        let ghost row = stored_row(f@)->0;
        let ghost before = self@;
        proof {
            lemma_columns_push(before, row);
            lemma_total_push(self.src_addr.contents(), Some(f.src_addr@));
            assert(before.push(row).drop_last() =~= before);
        }
        self.time_received_ns.append_value(f.time_received_ns);
        self.time_flow_start_ns.append_value(f.time_flow_start_ns);
        self.time_flow_end_ns.append_value(f.time_flow_end_ns);
        self.sampler_address.append_value(f.sampler_address);
        self.src_addr.append_value(f.src_addr);
        self.dst_addr.append_value(f.dst_addr);
        self.bytes.append_value(f.bytes);
        self.packets.append_value(f.packets);
        self.proto.append_value(f.proto);
        self.src_port.append_option(non_zero_port(f.src_port));
        self.dst_port.append_option(non_zero_port(f.dst_port));
        self.in_if.append_value(f.in_if);
        self.out_if.append_value(f.out_if);
        self.tcp_flags.append_option(if f.proto == 6 {
            Some(f.tcp_flags as u8)
        } else {
            None
        });
        self.post_nat_src_ipv4_address.append_non_empty(f.post_nat_src_ipv4_address);
        self.post_nat_dst_ipv4_address.append_non_empty(f.post_nat_dst_ipv4_address);
        self.post_napt_src_transport_port.append_option(non_zero_port(f.post_napt_src_transport_port));
        self.post_napt_dst_transport_port.append_option(non_zero_port(f.post_napt_dst_transport_port));
        self.rows = self.rows + 1;
        if f.time_flow_start_ns < self.window_start_ns {
            self.window_start_ns = f.time_flow_start_ns;
        }
        if f.time_flow_start_ns > self.window_end_ns {
            self.window_end_ns = f.time_flow_start_ns;
        }
        self.log = Ghost(before.push(row));
        assert(self.contents() =~= row_columns(before).with(row));
    }
}

/// Whether the flow is stored: whether both its ends are addresses.
pub fn is_stored(f: &Flow) -> (res: bool)
    ensures
        res == (stored_row(f@) is Some),
{
    is_address(f.src_addr) && is_address(f.dst_addr)
}

fn is_address(bytes: &[u8]) -> (res: bool)
    ensures
        res == is_address_length(bytes@.len()),
{
    bytes.len() == 4 || bytes.len() == 16
}

fn non_zero_port(port: u32) -> (res: Option<u16>)
    ensures
        res == stored_port(port),
{
    if port != 0 {
        Some(port as u16)
    } else {
        None
    }
}

fn field(name: &str, kind: ColumnKind, nullable: bool) -> (f: ColumnField)
    ensures
        f@ == (FieldData { name: name@, kind: Some(kind), nullable }),
{
    ColumnField { name: name.to_owned(), kind, nullable }
}

/// The error of the parquet crate.
#[verifier::external_type_specification]
#[verifier::external_body]
pub struct ExParquetError(ParquetError);

/// A batch that could not be made ready to be written.
pub enum WriteError {
    /// The columns were refused.
    Table(ArrowError),
    /// There is no such level of compression.
    Level(ParquetError),
    /// The clock stands before 1970.
    Clock,
}

/// The start times decide the order.
proof fn lemma_time_order(order: Seq<u32>, rows: Seq<Row>)
    requires
        sorts(order, row_columns(rows).time_flow_start_ns),
    ensures
        is_time_order(order, rows),
{
    let starts = row_columns(rows).time_flow_start_ns;
    assert(forall|k: int| 0 <= k < rows.len() ==> starts[k] == Some(rows[k].time_flow_start_ns));
    assert forall|i: int, j: int| 0 <= i <= j < order.len() implies (
    #[trigger] rows[order[i] as int]).time_flow_start_ns <= (
    #[trigger] rows[order[j] as int]).time_flow_start_ns by {
        assert(starts[order[i] as int]->0 <= starts[order[j] as int]->0);
    }
}

impl Batch {
    fn fields() -> (fields: Vec<ColumnField>)
        ensures
            fields_view(fields@) == layout(),
    {
        let fields = vec![
            field("time_received_ns", ColumnKind::Int64, false),
            field("time_flow_start_ns", ColumnKind::Int64, false),
            field("time_flow_end_ns", ColumnKind::Int64, false),
            field("sampler_address", ColumnKind::Binary, false),
            field("src_addr", ColumnKind::Binary, false),
            field("dst_addr", ColumnKind::Binary, false),
            field("bytes", ColumnKind::Int64, false),
            field("packets", ColumnKind::Int64, false),
            field("proto", ColumnKind::UInt8, false),
            field("src_port", ColumnKind::UInt16, true),
            field("dst_port", ColumnKind::UInt16, true),
            field("in_if", ColumnKind::UInt32, false),
            field("out_if", ColumnKind::UInt32, false),
            field("tcp_flags", ColumnKind::UInt8, true),
            field("post_nat_src_ipv4_address", ColumnKind::Binary, true),
            field("post_nat_dst_ipv4_address", ColumnKind::Binary, true),
            field("post_napt_src_transport_port", ColumnKind::UInt16, true),
            field("post_napt_dst_transport_port", ColumnKind::UInt16, true),
        ];
        assert(fields_view(fields@) =~= layout());
        fields
    }

    /// The layout of the archive's tables.
    pub fn schema() -> (schema: Schema)
        ensures
            schema_fields(schema) == layout(),
    {
        arrow_schema(&Self::fields())
    }

    fn finish(self) -> (columns: Vec<Column>)
        requires
            self.wf(),
        ensures
            columns_data(columns@) == row_columns(self@).data(),
    {
        let mut batch = self;
        let columns = vec![
            batch.time_received_ns.finish(),
            batch.time_flow_start_ns.finish(),
            batch.time_flow_end_ns.finish(),
            batch.sampler_address.column.finish(),
            batch.src_addr.column.finish(),
            batch.dst_addr.column.finish(),
            batch.bytes.finish(),
            batch.packets.finish(),
            batch.proto.finish(),
            batch.src_port.finish(),
            batch.dst_port.finish(),
            batch.in_if.finish(),
            batch.out_if.finish(),
            batch.tcp_flags.finish(),
            batch.post_nat_src_ipv4_address.column.finish(),
            batch.post_nat_dst_ipv4_address.column.finish(),
            batch.post_napt_src_transport_port.finish(),
            batch.post_napt_dst_transport_port.finish(),
        ];
        assert(columns_data(columns@) =~= self.contents().data());
        columns
    }

    /// The batch as a table, sorted by the start of the flows, so that the
    /// statistics of a stretch of the file are of use to a query bounded in
    /// time; nothing for an empty batch. Flows that start together come in any
    /// order.
    pub fn sorted(self) -> (res: Result<Option<Table>, WriteError>)
        requires
            self.wf(),
        ensures
            res matches Ok(table) && (table is None <==> self@.len() == 0),
            res matches Ok(Some(t)) ==> holds_in_time_order(t, self@),
    {
        let ghost rows = self@;
        proof {
            lemma_columns_fit(rows);
        }
        let table = match record_batch(Self::schema(), self.finish()) {
            Ok(table) => table,
            Err(e) => return Err(WriteError::Table(e)),
        };
        if table.num_rows() == 0 {
            return Ok(None);
        }
        proof {
            lemma_start_column(table_columns(table));
        }
        let starts = match table.column_by_name("time_flow_start_ns") {
            Some(column) => column,
            None => return Ok(None),
        };
        let order = match sort_to_indices(&starts) {
            Ok(order) => order,
            Err(e) => return Err(WriteError::Table(e)),
        };
        proof {
            lemma_time_order(order_rows(order), rows);
            lemma_columns_reorder(rows, order_rows(order));
            lemma_columns_fit(reordered(rows, order_rows(order)));
        }
        let taken = match take_all(&table.columns(), &order) {
            Ok(taken) => taken,
            Err(e) => return Err(WriteError::Table(e)),
        };
        assert(columns_data(taken@) =~= row_columns(reordered(rows, order_rows(order))).data());
        match record_batch(Self::schema(), taken) {
            Ok(sorted) => Ok(Some(sorted)),
            Err(e) => Err(WriteError::Table(e)),
        }
    }
}

/// The start times are the second column.
proof fn lemma_start_column(columns: Seq<ColumnData>)
    requires
        columns.len() == 18,
    ensures
        named(layout(), columns, "time_flow_start_ns"@) == Some(columns[1]),
{
    reveal_strlit("time_received_ns");
    reveal_strlit("time_flow_start_ns");
    assert(layout()[0].name.len() != layout()[1].name.len());
    reveal_with_fuel(named, 2);
}

/// Takes the rows of each column in the given order.
fn take_all(columns: &Vec<Column>, order: &RowOrder) -> (res: Result<Vec<Column>, ArrowError>)
    requires
        forall|k: int|
            0 <= k < columns@.len() ==> is_permutation(
                order_rows(*order),
                (#[trigger] column_data(columns@[k])).len(),
            ) && !(column_data(columns@[k]) is Other),
    ensures
        res matches Ok(taken) && taken@.len() == columns@.len(),
        res matches Ok(taken) ==> forall|k: int|
            0 <= k < columns@.len() ==> #[trigger] column_data(taken@[k]) == column_data(
                columns@[k],
            ).reordered(order_rows(*order)),
{
    let mut taken: Vec<Column> = Vec::new();
    let mut i: usize = 0;
    while i < columns.len()
        invariant
            i == taken@.len() <= columns@.len(),
            forall|k: int|
                0 <= k < columns@.len() ==> is_permutation(
                    order_rows(*order),
                    (#[trigger] column_data(columns@[k])).len(),
                ) && !(column_data(columns@[k]) is Other),
            forall|k: int|
                0 <= k < i ==> #[trigger] column_data(taken@[k]) == column_data(
                    columns@[k],
                ).reordered(order_rows(*order)),
        decreases columns.len() - i,
    {
        match take_rows(&columns[i], order) {
            Ok(column) => taken.push(column),
            Err(e) => return Err(e),
        }
        i = i + 1;
    }
    Ok(taken)
}

/// A table that holds rows in the order of time holds exactly those rows, each as
/// often as it came, and no row starts before the one above it.
pub proof fn law_time_order(rows: Seq<Row>, order: Seq<u32>)
    requires
        is_time_order(order, rows),
    ensures
        reordered(rows, order).to_multiset() == rows.to_multiset(),
        forall|i: int, j: int|
            0 <= i <= j < rows.len() ==> (#[trigger] reordered(rows, order)[i]).time_flow_start_ns
                <= (#[trigger] reordered(rows, order)[j]).time_flow_start_ns,
{
    law_reordered_same_rows(rows, order);
}

/// The rows of a batch lie between addresses of four or sixteen bytes, however it was
/// filled, and so do the rows of a table that it becomes, whatever their order.
pub proof fn law_batch_between_addresses(batch: Batch, order: Seq<u32>)
    requires
        batch.wf(),
        is_permutation(order, batch@.len()),
    ensures
        between_addresses(batch@),
        between_addresses(reordered(batch@, order)),
{
}

/// A port is stored as null exactly if it is zero, and otherwise as its low sixteen
/// bits.
proof fn lemma_stored_port(port: u32)
    ensures
        stored_port(port) is None <==> port == 0,
        stored_port(port) matches Some(p) ==> p as int == port as int % 0x1_0000,
{
    assert((port as u16) as u32 == port % 0x1_0000u32) by (bit_vector);
}

/// A flow is stored exactly if both its ends have four or sixteen bytes, whatever else
/// it says.
pub proof fn law_stored_exactly(f: FlowData)
    ensures
        stored_row(f) is Some <==> (f.src_addr.len() == 4 || f.src_addr.len() == 16) && (
        f.dst_addr.len() == 4 || f.dst_addr.len() == 16),
{
}

/// A stored flow keeps its numbers, times and addresses. Ports are null exactly if they
/// are zero, TCP flags exactly if the protocol is not TCP, and translated addresses
/// exactly if they are empty; those that are not null are the flow's, ports in sixteen
/// bits and flags in eight.
pub proof fn law_row_keeps_flow(f: FlowData, row: Row)
    requires
        stored_row(f) == Some(row),
    ensures
        row.time_received_ns == f.time_received_ns,
        row.time_flow_start_ns == f.time_flow_start_ns,
        row.time_flow_end_ns == f.time_flow_end_ns,
        row.sampler_address == f.sampler_address,
        row.src_addr == f.src_addr,
        row.dst_addr == f.dst_addr,
        row.bytes == f.bytes,
        row.packets == f.packets,
        row.proto == f.proto,
        row.src_port is None <==> f.src_port == 0,
        row.src_port matches Some(p) ==> p as int == f.src_port as int % 0x1_0000,
        row.dst_port is None <==> f.dst_port == 0,
        row.dst_port matches Some(p) ==> p as int == f.dst_port as int % 0x1_0000,
        row.in_if == f.in_if,
        row.out_if == f.out_if,
        row.tcp_flags is None <==> f.proto != 6,
        row.tcp_flags matches Some(b) ==> b as int == f.tcp_flags as int % 0x100,
        row.post_nat_src_ipv4_address is None <==> f.post_nat_src_ipv4_address.len() == 0,
        row.post_nat_src_ipv4_address matches Some(b) ==> b == f.post_nat_src_ipv4_address,
        row.post_nat_dst_ipv4_address is None <==> f.post_nat_dst_ipv4_address.len() == 0,
        row.post_nat_dst_ipv4_address matches Some(b) ==> b == f.post_nat_dst_ipv4_address,
        row.post_napt_src_transport_port is None <==> f.post_napt_src_transport_port == 0,
        row.post_napt_src_transport_port matches Some(p) ==> p as int == f.post_napt_src_transport_port as int % 0x1_0000,
        row.post_napt_dst_transport_port is None <==> f.post_napt_dst_transport_port == 0,
        row.post_napt_dst_transport_port matches Some(p) ==> p as int == f.post_napt_dst_transport_port as int % 0x1_0000,
{
    let flags = f.tcp_flags;
    assert((flags as u8) as u32 == flags % 0x100u32) by (bit_vector);
    lemma_stored_port(f.src_port);
    lemma_stored_port(f.dst_port);
    lemma_stored_port(f.post_napt_src_transport_port);
    lemma_stored_port(f.post_napt_dst_transport_port);
}

/// Flows are stored one by one, in the order in which they come: a further flow adds its
/// row at the end if it is stored, and changes nothing if it is not.
pub proof fn law_flows_stored_in_order(flows: Seq<FlowData>, f: FlowData)
    ensures
        stored_rows(Seq::empty()).len() == 0,
        stored_row(f) matches Some(row) ==> stored_rows(flows.push(f)) == stored_rows(flows).push(
            row,
        ),
        stored_row(f) is None ==> stored_rows(flows.push(f)) == stored_rows(flows),
{
    assert(flows.push(f).drop_last() == flows);
}

/// The bytes of the rows together, by the given length of each.
pub open spec fn sum_of(rows: Seq<Row>, len: spec_fn(Row) -> nat) -> nat
    decreases rows.len(),
{
    if rows.len() == 0 {
        0
    } else {
        sum_of(rows.drop_last(), len) + len(rows.last())
    }
}

/// There is room for a flow exactly if, in each column of byte strings, those of the rows
/// and that of the flow are together no more than a 32-bit signed number of bytes.
pub proof fn law_room(rows: Seq<Row>, f: FlowData)
    ensures
        room_for(rows, f) <==> {
            &&& sum_of(rows, |r: Row| r.sampler_address.len()) + f.sampler_address.len()
                <= 0x7fff_ffff
            &&& sum_of(rows, |r: Row| r.src_addr.len()) + f.src_addr.len() <= 0x7fff_ffff
            &&& sum_of(rows, |r: Row| r.dst_addr.len()) + f.dst_addr.len() <= 0x7fff_ffff
            &&& sum_of(
                rows,
                |r: Row|
                    match r.post_nat_src_ipv4_address {
                        Some(b) => b.len(),
                        None => 0,
                    },
            ) + f.post_nat_src_ipv4_address.len() <= 0x7fff_ffff
            &&& sum_of(
                rows,
                |r: Row|
                    match r.post_nat_dst_ipv4_address {
                        Some(b) => b.len(),
                        None => 0,
                    },
            ) + f.post_nat_dst_ipv4_address.len() <= 0x7fff_ffff
        },
{
    let a = |r: Row| r.sampler_address.len();
    let b = |r: Row| r.src_addr.len();
    let c = |r: Row| r.dst_addr.len();
    let d = |r: Row|
        match r.post_nat_src_ipv4_address {
            Some(b) => b.len(),
            None => 0,
        };
    let e = |r: Row|
        match r.post_nat_dst_ipv4_address {
            Some(b) => b.len(),
            None => 0,
        };
    let all = row_columns(rows);
    lemma_sum(rows, all.sampler_address, a);
    lemma_sum(rows, all.src_addr, b);
    lemma_sum(rows, all.dst_addr, c);
    lemma_sum(rows, all.post_nat_src_ipv4_address, d);
    lemma_sum(rows, all.post_nat_dst_ipv4_address, e);
}

proof fn lemma_sum(rows: Seq<Row>, column: Seq<Option<Seq<u8>>>, len: spec_fn(Row) -> nat)
    requires
        rows.len() == column.len(),
        forall|i: int|
            0 <= i < rows.len() ==> len(rows[i]) == match #[trigger] column[i] {
                Some(b) => b.len(),
                None => 0,
            },
    ensures
        total_bytes(column) == sum_of(rows, len),
    decreases rows.len(),
{
    if rows.len() > 0 {
        let n = rows.len() - 1;
        assert(column[n] == column.last());
        assert forall|i: int| 0 <= i < n implies len(rows.drop_last()[i])
            == match #[trigger] column.drop_last()[i] {
            Some(b) => b.len(),
            None => 0,
        } by {
            assert(column[i] == column.drop_last()[i]);
        }
        lemma_sum(rows.drop_last(), column.drop_last(), len);
    }
}

/// Whether the table's columns, each found by its name, hold the given rows, one value
/// or null to a row.
pub open spec fn lists(t: Table, rows: Seq<Row>) -> bool {
    let fields = table_fields(t);
    let columns = table_columns(t);
    let n = rows.len();
    &&& named(fields, columns, "time_received_ns"@) == Some(
        ColumnData::Int64(Seq::new(n, |i: int| Some(rows[i].time_received_ns))),
    )
    &&& named(fields, columns, "time_flow_start_ns"@) == Some(
        ColumnData::Int64(Seq::new(n, |i: int| Some(rows[i].time_flow_start_ns))),
    )
    &&& named(fields, columns, "time_flow_end_ns"@) == Some(
        ColumnData::Int64(Seq::new(n, |i: int| Some(rows[i].time_flow_end_ns))),
    )
    &&& named(fields, columns, "sampler_address"@) == Some(
        ColumnData::Binary(Seq::new(n, |i: int| Some(rows[i].sampler_address))),
    )
    &&& named(fields, columns, "src_addr"@) == Some(
        ColumnData::Binary(Seq::new(n, |i: int| Some(rows[i].src_addr))),
    )
    &&& named(fields, columns, "dst_addr"@) == Some(
        ColumnData::Binary(Seq::new(n, |i: int| Some(rows[i].dst_addr))),
    )
    &&& named(fields, columns, "bytes"@) == Some(
        ColumnData::Int64(Seq::new(n, |i: int| Some(rows[i].bytes))),
    )
    &&& named(fields, columns, "packets"@) == Some(
        ColumnData::Int64(Seq::new(n, |i: int| Some(rows[i].packets))),
    )
    &&& named(fields, columns, "proto"@) == Some(
        ColumnData::UInt8(Seq::new(n, |i: int| Some(rows[i].proto))),
    )
    &&& named(fields, columns, "src_port"@) == Some(
        ColumnData::UInt16(Seq::new(n, |i: int| rows[i].src_port)),
    )
    &&& named(fields, columns, "dst_port"@) == Some(
        ColumnData::UInt16(Seq::new(n, |i: int| rows[i].dst_port)),
    )
    &&& named(fields, columns, "in_if"@) == Some(
        ColumnData::UInt32(Seq::new(n, |i: int| Some(rows[i].in_if))),
    )
    &&& named(fields, columns, "out_if"@) == Some(
        ColumnData::UInt32(Seq::new(n, |i: int| Some(rows[i].out_if))),
    )
    &&& named(fields, columns, "tcp_flags"@) == Some(
        ColumnData::UInt8(Seq::new(n, |i: int| rows[i].tcp_flags)),
    )
    &&& named(fields, columns, "post_nat_src_ipv4_address"@) == Some(
        ColumnData::Binary(Seq::new(n, |i: int| rows[i].post_nat_src_ipv4_address)),
    )
    &&& named(fields, columns, "post_nat_dst_ipv4_address"@) == Some(
        ColumnData::Binary(Seq::new(n, |i: int| rows[i].post_nat_dst_ipv4_address)),
    )
    &&& named(fields, columns, "post_napt_src_transport_port"@) == Some(
        ColumnData::UInt16(Seq::new(n, |i: int| rows[i].post_napt_src_transport_port)),
    )
    &&& named(fields, columns, "post_napt_dst_transport_port"@) == Some(
        ColumnData::UInt16(Seq::new(n, |i: int| rows[i].post_napt_dst_transport_port)),
    )
}

proof fn lemma_names()
    ensures
        forall|i: int, j: int|
            0 <= i < j < 18 ==> (#[trigger] layout()[i]).name != (#[trigger] layout()[j]).name,
{
    reveal_strlit("time_received_ns");
    reveal_strlit("time_flow_start_ns");
    reveal_strlit("time_flow_end_ns");
    reveal_strlit("sampler_address");
    reveal_strlit("src_addr");
    reveal_strlit("dst_addr");
    reveal_strlit("bytes");
    reveal_strlit("packets");
    reveal_strlit("proto");
    reveal_strlit("src_port");
    reveal_strlit("dst_port");
    reveal_strlit("in_if");
    reveal_strlit("out_if");
    reveal_strlit("tcp_flags");
    reveal_strlit("post_nat_src_ipv4_address");
    reveal_strlit("post_nat_dst_ipv4_address");
    reveal_strlit("post_napt_src_transport_port");
    reveal_strlit("post_napt_dst_transport_port");
    let names = layout();
    assert(names[0].name.len() == 16);
    assert(names[1].name.len() == 18);
    assert(names[2].name.len() == 16);
    assert(names[3].name.len() == 15);
    assert(names[4].name.len() == 8);
    assert(names[5].name.len() == 8);
    assert(names[6].name.len() == 5);
    assert(names[7].name.len() == 7);
    assert(names[8].name.len() == 5);
    assert(names[9].name.len() == 8);
    assert(names[10].name.len() == 8);
    assert(names[11].name.len() == 5);
    assert(names[12].name.len() == 6);
    assert(names[13].name.len() == 9);
    assert(names[14].name.len() == 25);
    assert(names[15].name.len() == 25);
    assert(names[16].name.len() == 28);
    assert(names[17].name.len() == 28);
    assert(names[0].name[5] != names[2].name[5]);
    assert(names[4].name[0] != names[5].name[0]);
    assert(names[4].name[5] != names[9].name[5]);
    assert(names[4].name[0] != names[10].name[0]);
    assert(names[5].name[0] != names[9].name[0]);
    assert(names[5].name[5] != names[10].name[5]);
    assert(names[9].name[0] != names[10].name[0]);
    assert(names[6].name[0] != names[8].name[0]);
    assert(names[6].name[0] != names[11].name[0]);
    assert(names[8].name[0] != names[11].name[0]);
    assert(names[14].name[9] != names[15].name[9]);
    assert(names[16].name[10] != names[17].name[10]);

    assert forall|i: int| 0 <= i < 1 implies (#[trigger] names[i]).name != names[1].name by {}
    assert forall|i: int| 0 <= i < 2 implies (#[trigger] names[i]).name != names[2].name by {}
    assert forall|i: int| 0 <= i < 3 implies (#[trigger] names[i]).name != names[3].name by {}
    assert forall|i: int| 0 <= i < 4 implies (#[trigger] names[i]).name != names[4].name by {}
    assert forall|i: int| 0 <= i < 5 implies (#[trigger] names[i]).name != names[5].name by {}
    assert forall|i: int| 0 <= i < 6 implies (#[trigger] names[i]).name != names[6].name by {}
    assert forall|i: int| 0 <= i < 7 implies (#[trigger] names[i]).name != names[7].name by {}
    assert forall|i: int| 0 <= i < 8 implies (#[trigger] names[i]).name != names[8].name by {}
    assert forall|i: int| 0 <= i < 9 implies (#[trigger] names[i]).name != names[9].name by {}
    assert forall|i: int| 0 <= i < 10 implies (#[trigger] names[i]).name != names[10].name by {}
    assert forall|i: int| 0 <= i < 11 implies (#[trigger] names[i]).name != names[11].name by {}
    assert forall|i: int| 0 <= i < 12 implies (#[trigger] names[i]).name != names[12].name by {}
    assert forall|i: int| 0 <= i < 13 implies (#[trigger] names[i]).name != names[13].name by {}
    assert forall|i: int| 0 <= i < 14 implies (#[trigger] names[i]).name != names[14].name by {}
    assert forall|i: int| 0 <= i < 15 implies (#[trigger] names[i]).name != names[15].name by {}
    assert forall|i: int| 0 <= i < 16 implies (#[trigger] names[i]).name != names[16].name by {}
    assert forall|i: int| 0 <= i < 17 implies (#[trigger] names[i]).name != names[17].name by {}
    assert forall|i: int, j: int| 0 <= i < j < 18 implies (#[trigger] names[i]).name != (
    #[trigger] names[j]).name by {
        assert(j == 1 || j == 2 || j == 3 || j == 4 || j == 5 || j == 6 || j == 7 || j == 8 || j == 9
            || j == 10 || j == 11 || j == 12 || j == 13 || j == 14 || j == 15 || j == 16 || j == 17);
    }
}

proof fn lemma_named_at(fields: Seq<FieldData>, columns: Seq<ColumnData>, k: int)
    requires
        0 <= k < fields.len(),
        fields.len() == columns.len(),
        forall|i: int| 0 <= i < k ==> (#[trigger] fields[i]).name != fields[k].name,
    ensures
        named(fields, columns, fields[k].name) == Some(columns[k]),
    decreases k,
{
    if k > 0 {
        assert(fields[0].name != fields[k].name);
        let rest = fields.skip(1);
        assert(rest[k - 1] == fields[k]);
        assert forall|i: int| 0 <= i < k - 1 implies (#[trigger] rest[i]).name != rest[k
            - 1].name by {
            assert(rest[i] == fields[i + 1]);
        }
        lemma_named_at(rest, columns.skip(1), k - 1);
        assert(columns.skip(1)[k - 1] == columns[k]);
    }
}

/// A table that holds rows in the order of time lists them, each once and no others, so
/// that no row starts before the one above it: the value of a row in the column of a
/// given name is what the row says under that name.
pub proof fn law_table_lists_rows(t: Table, rows: Seq<Row>)
    requires
        holds_in_time_order(t, rows),
    ensures
        exists|listed: Seq<Row>| #[trigger]
            lists(t, listed) && listed.to_multiset() == rows.to_multiset() && forall|i: int, j: int|
                0 <= i <= j < listed.len() ==> (#[trigger] listed[i]).time_flow_start_ns <= (
                #[trigger] listed[j]).time_flow_start_ns,
{
    let order = choose|order: Seq<u32>| #[trigger]
        is_time_order(order, rows) && table_columns(t) == row_columns(
            reordered(rows, order),
        ).data();
    assert(is_time_order(order, rows));
    let listed = reordered(rows, order);
    law_time_order(rows, order);
    lemma_names();
    let fields = layout();
    let columns = row_columns(listed).data();
    assert forall|k: int| 0 <= k < 18 implies named(
        fields,
        columns,
        (#[trigger] fields[k]).name,
    ) == Some(columns[k]) by {
        lemma_named_at(fields, columns, k);
    }
    assert(fields[0].name == "time_received_ns"@);
    assert(row_columns(listed).time_received_ns =~= Seq::new(listed.len(), |i: int| Some(listed[i].time_received_ns)));
    assert(fields[1].name == "time_flow_start_ns"@);
    assert(row_columns(listed).time_flow_start_ns =~= Seq::new(listed.len(), |i: int| Some(listed[i].time_flow_start_ns)));
    assert(fields[2].name == "time_flow_end_ns"@);
    assert(row_columns(listed).time_flow_end_ns =~= Seq::new(listed.len(), |i: int| Some(listed[i].time_flow_end_ns)));
    assert(fields[3].name == "sampler_address"@);
    assert(row_columns(listed).sampler_address =~= Seq::new(listed.len(), |i: int| Some(listed[i].sampler_address)));
    assert(fields[4].name == "src_addr"@);
    assert(row_columns(listed).src_addr =~= Seq::new(listed.len(), |i: int| Some(listed[i].src_addr)));
    assert(fields[5].name == "dst_addr"@);
    assert(row_columns(listed).dst_addr =~= Seq::new(listed.len(), |i: int| Some(listed[i].dst_addr)));
    assert(fields[6].name == "bytes"@);
    assert(row_columns(listed).bytes =~= Seq::new(listed.len(), |i: int| Some(listed[i].bytes)));
    assert(fields[7].name == "packets"@);
    assert(row_columns(listed).packets =~= Seq::new(listed.len(), |i: int| Some(listed[i].packets)));
    assert(fields[8].name == "proto"@);
    assert(row_columns(listed).proto =~= Seq::new(listed.len(), |i: int| Some(listed[i].proto)));
    assert(fields[9].name == "src_port"@);
    assert(row_columns(listed).src_port =~= Seq::new(listed.len(), |i: int| listed[i].src_port));
    assert(fields[10].name == "dst_port"@);
    assert(row_columns(listed).dst_port =~= Seq::new(listed.len(), |i: int| listed[i].dst_port));
    assert(fields[11].name == "in_if"@);
    assert(row_columns(listed).in_if =~= Seq::new(listed.len(), |i: int| Some(listed[i].in_if)));
    assert(fields[12].name == "out_if"@);
    assert(row_columns(listed).out_if =~= Seq::new(listed.len(), |i: int| Some(listed[i].out_if)));
    assert(fields[13].name == "tcp_flags"@);
    assert(row_columns(listed).tcp_flags =~= Seq::new(listed.len(), |i: int| listed[i].tcp_flags));
    assert(fields[14].name == "post_nat_src_ipv4_address"@);
    assert(row_columns(listed).post_nat_src_ipv4_address =~= Seq::new(listed.len(), |i: int| listed[i].post_nat_src_ipv4_address));
    assert(fields[15].name == "post_nat_dst_ipv4_address"@);
    assert(row_columns(listed).post_nat_dst_ipv4_address =~= Seq::new(listed.len(), |i: int| listed[i].post_nat_dst_ipv4_address));
    assert(fields[16].name == "post_napt_src_transport_port"@);
    assert(row_columns(listed).post_napt_src_transport_port =~= Seq::new(listed.len(), |i: int| listed[i].post_napt_src_transport_port));
    assert(fields[17].name == "post_napt_dst_transport_port"@);
    assert(row_columns(listed).post_napt_dst_transport_port =~= Seq::new(listed.len(), |i: int| listed[i].post_napt_dst_transport_port));
    assert(lists(t, listed));
    assert forall|i: int, j: int| 0 <= i <= j < listed.len() implies (
    #[trigger] listed[i]).time_flow_start_ns <= (#[trigger] listed[j]).time_flow_start_ns by {
        assert(reordered(rows, order)[i].time_flow_start_ns <= reordered(
            rows,
            order,
        )[j].time_flow_start_ns);
    }
}

/// Which columns of the archive's tables may hold nulls: the ports, the TCP flags and
/// what the address translation gave, and no others.
pub proof fn law_nullable_columns(k: int)
    requires
        0 <= k < layout().len(),
    ensures
        layout().len() == 18,
        layout()[k].nullable <==> {
            let name = layout()[k].name;
            ||| name == "src_port"@
            ||| name == "dst_port"@
            ||| name == "tcp_flags"@
            ||| name == "post_nat_src_ipv4_address"@
            ||| name == "post_nat_dst_ipv4_address"@
            ||| name == "post_napt_src_transport_port"@
            ||| name == "post_napt_dst_transport_port"@
        },
{
    lemma_names();
}

/// What a flow says, as it was read, is what its fields hold.
pub proof fn law_flow_view(f: Flow)
    ensures
        f@.time_received_ns == f.time_received_ns,
        f@.time_flow_start_ns == f.time_flow_start_ns,
        f@.time_flow_end_ns == f.time_flow_end_ns,
        f@.sampler_address == f.sampler_address@,
        f@.src_addr == f.src_addr@,
        f@.dst_addr == f.dst_addr@,
        f@.bytes == f.bytes,
        f@.packets == f.packets,
        f@.proto == f.proto,
        f@.src_port == f.src_port,
        f@.dst_port == f.dst_port,
        f@.in_if == f.in_if,
        f@.out_if == f.out_if,
        f@.tcp_flags == f.tcp_flags,
        f@.post_nat_src_ipv4_address == f.post_nat_src_ipv4_address@,
        f@.post_nat_dst_ipv4_address == f.post_nat_dst_ipv4_address@,
        f@.post_napt_src_transport_port == f.post_napt_src_transport_port,
        f@.post_napt_dst_transport_port == f.post_napt_dst_transport_port,
{
}

} // verus!
