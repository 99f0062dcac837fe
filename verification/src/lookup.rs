//! Who was behind a public address: the question an abuse report asks, as a query
//! over the archive, and the answer made of what the query finds.

use vstd::prelude::*;

use crate::addr::{fmt_ip, ip_to_hex_literal, shown, IpAddr};
use crate::batch::Row;
use crate::columns::{
    named, options_view, table_columns, table_fields, ColumnData, FieldData, Table,
};
use crate::moment::{rfc3339_text, Moment};
use crate::text::{
    decimal, hex, law_signed_decimal_writes, push_decimal, push_signed_decimal, signed_decimal, writes,
};

verus! {

/// How far round the given time a flow is sought, in seconds, unless the question
/// says otherwise.
pub fn default_tolerance() -> (secs: i64)
    ensures
        secs == 60,
{
    60
}

/// The question: who used this public address and port at this time?
pub struct NatLookupParams {
    pub ip: IpAddr,
    pub port: u16,
    pub at: Moment,
    /// How far before and after `at` a flow may lie.
    pub tolerance_secs: i64,
}

/// The time that a search is centred on, in nanoseconds since 1970; zero where 64
/// bits do not hold it.
pub open spec fn centre(secs: i64, nanos: u32) -> int {
    let ns = secs * 1_000_000_000 + nanos;
    if i64::MIN <= ns <= i64::MAX {
        ns
    } else {
        0
    }
}

/// The span of time that is searched: the first and the last nanosecond.
pub open spec fn search_span(at_ns: int, tolerance_secs: int) -> (int, int) {
    (at_ns - tolerance_secs * 1_000_000_000, at_ns + tolerance_secs * 1_000_000_000)
}

/// Whether the span can be searched: whether 64 bits hold it.
pub open spec fn can_search(at_ns: int, tolerance_secs: int) -> bool {
    let span = search_span(at_ns, tolerance_secs);
    &&& i64::MIN <= tolerance_secs * 1_000_000_000 <= i64::MAX
    &&& i64::MIN <= span.0 <= i64::MAX
    &&& i64::MIN <= span.1 <= i64::MAX
}

/// The span of time that is searched, if 64 bits hold it.
pub fn search_window(at_ns: i64, tolerance_secs: i64) -> (res: Option<(i64, i64)>)
    ensures
        res is Some <==> can_search(at_ns as int, tolerance_secs as int),
        res matches Some((start, end)) ==> (start as int, end as int) == search_span(
            at_ns as int,
            tolerance_secs as int,
        ),
{
    let tolerance_ns: i64 = match tolerance_secs.checked_mul(1_000_000_000) {
        Some(ns) => ns,
        None => return None,
    };
    match (at_ns.checked_sub(tolerance_ns), at_ns.checked_add(tolerance_ns)) {
        (Some(start), Some(end)) => Some((start, end)),
        _ => None,
    }
}

/// The conditions on one side of a flow: its translated address and port on that
/// side, and that it overlaps the span.
pub open spec fn conditions(
    side: Seq<char>,
    ip_hex: Seq<char>,
    port: u16,
    window_start: i64,
    window_end: i64,
) -> Seq<char> {
    "FROM flows WHERE post_nat_"@ + side + "_ipv4_address = X'"@ + ip_hex + "' AND post_napt_"@
        + side + "_transport_port = "@ + decimal(port as nat) + " AND time_flow_start_ns <= "@
        + signed_decimal(window_end as int) + " AND time_flow_end_ns >= "@ + signed_decimal(
        window_start as int,
    )
}

/// The query: the reported address may be the translated source of a flow, going
/// out, or its translated destination, coming in; a report does not tell. Either
/// way the inner address comes first.
pub open spec fn query_text(
    ip_hex: Seq<char>,
    port: u16,
    window_start: i64,
    window_end: i64,
) -> Seq<char> {
    "SELECT 'outbound' AS direction, src_addr, dst_addr, dst_port, proto, "@
        + "time_flow_start_ns, time_flow_end_ns, bytes, packets "@ + conditions(
        "src"@,
        ip_hex,
        port,
        window_start,
        window_end,
    ) + " UNION ALL SELECT 'inbound' AS direction, "@
        + "dst_addr AS src_addr, src_addr AS dst_addr, src_port AS dst_port, proto, "@
        + "time_flow_start_ns, time_flow_end_ns, bytes, packets "@ + conditions(
        "dst"@,
        ip_hex,
        port,
        window_start,
        window_end,
    ) + " LIMIT 50"@
}

fn push_conditions(
    out: &mut String,
    side: &str,
    ip_hex: &str,
    port: u16,
    window_start: i64,
    window_end: i64,
)
    ensures
        final(out)@ == old(out)@ + conditions(side@, ip_hex@, port, window_start, window_end),
{
    out.append("FROM flows WHERE post_nat_");
    out.append(side);
    out.append("_ipv4_address = X'");
    out.append(ip_hex);
    out.append("' AND post_napt_");
    out.append(side);
    out.append("_transport_port = ");
    push_decimal(out, port as u64);
    out.append(" AND time_flow_start_ns <= ");
    push_signed_decimal(out, window_end);
    out.append(" AND time_flow_end_ns >= ");
    push_signed_decimal(out, window_start);
    assert(out@ =~= old(out)@ + conditions(side@, ip_hex@, port, window_start, window_end));
}

/// The query for flows that an address and port, written as a byte string in
/// hexadecimal, stand in for in a span of time.
pub fn nat_query(ip_hex: &str, port: u16, window_start: i64, window_end: i64) -> (sql: String)
    ensures
        sql@ == query_text(ip_hex@, port, window_start, window_end),
{
    let mut sql = String::new();
    sql.append("SELECT 'outbound' AS direction, src_addr, dst_addr, dst_port, proto, ");
    sql.append("time_flow_start_ns, time_flow_end_ns, bytes, packets ");
    push_conditions(&mut sql, "src", ip_hex, port, window_start, window_end);
    sql.append(" UNION ALL SELECT 'inbound' AS direction, ");
    sql.append("dst_addr AS src_addr, src_addr AS dst_addr, src_port AS dst_port, proto, ");
    sql.append("time_flow_start_ns, time_flow_end_ns, bytes, packets ");
    push_conditions(&mut sql, "dst", ip_hex, port, window_start, window_end);
    sql.append(" LIMIT 50");
    assert(sql@ =~= query_text(ip_hex@, port, window_start, window_end));
    sql
}

/// The query that answers the question; nothing where 64 bits do not hold the span
/// of time.
pub fn plan_lookup(params: &NatLookupParams) -> (res: Option<String>)
    ensures
        ({
            let at_ns = centre(params.at.secs(), params.at.nanos());
            let tolerance = params.tolerance_secs as int;
            let span = search_span(at_ns, tolerance);
            if can_search(at_ns, tolerance) {
                res matches Some(sql) && sql@ == query_text(
                    hex(params.ip.octets()),
                    params.port,
                    span.0 as i64,
                    span.1 as i64,
                )
            } else {
                res is None
            }
        }),
{
    let at_ns: i64 = match params.at.to_nanos() {
        Some(ns) => ns,
        None => 0,
    };
    match search_window(at_ns, params.tolerance_secs) {
        Some((start, end)) => {
            let ip_hex = ip_to_hex_literal(params.ip);
            Some(nat_query(ip_hex.as_str(), params.port, start, end))
        },
        None => None,
    }
}

/// The columns of a batch of results, as far as they are there and of the type that
/// is expected of them.
pub struct NatColumns {
    pub rows: usize,
    pub direction: Option<Vec<String>>,
    pub src_addr: Option<Vec<Option<Vec<u8>>>>,
    pub dst_addr: Option<Vec<Option<Vec<u8>>>>,
    pub dst_port: Option<Vec<Option<u16>>>,
    pub proto: Option<Vec<u8>>,
    pub time_flow_start_ns: Option<Vec<i64>>,
    pub time_flow_end_ns: Option<Vec<i64>>,
    pub bytes: Option<Vec<i64>>,
    pub packets: Option<Vec<i64>>,
}

/// Whether a column, if it is there, has so many rows.
pub open spec fn has_rows<T>(column: Option<Vec<T>>, rows: usize) -> bool {
    column matches Some(v) ==> v@.len() == rows
}

impl NatColumns {
    /// Whether all columns that are there have the same length.
    pub open spec fn wf(self) -> bool {
        &&& has_rows(self.direction, self.rows)
        &&& has_rows(self.src_addr, self.rows)
        &&& has_rows(self.dst_addr, self.rows)
        &&& has_rows(self.dst_port, self.rows)
        &&& has_rows(self.proto, self.rows)
        &&& has_rows(self.time_flow_start_ns, self.rows)
        &&& has_rows(self.time_flow_end_ns, self.rows)
        &&& has_rows(self.bytes, self.rows)
        &&& has_rows(self.packets, self.rows)
    }
}

/// A flow that answers the question.
#[derive(Debug)]
pub struct NatLookupMatch {
    pub direction: &'static str,
    pub internal_ip: String,
    pub remote_ip: String,
    pub remote_port: Option<u32>,
    pub proto: u8,
    pub time_flow_start_ns: i64,
    pub time_flow_end_ns: i64,
    pub bytes: i64,
    pub packets: i64,
}

/// A flow that answers the question, as plain values.
pub struct NatMatchData {
    pub direction: Seq<char>,
    pub internal_ip: Seq<char>,
    pub remote_ip: Seq<char>,
    pub remote_port: Option<u32>,
    pub proto: u8,
    pub time_flow_start_ns: i64,
    pub time_flow_end_ns: i64,
    pub bytes: i64,
    pub packets: i64,
}

impl View for NatLookupMatch {
    type V = NatMatchData;

    open spec fn view(&self) -> NatMatchData {
        NatMatchData {
            direction: self.direction@,
            internal_ip: self.internal_ip@,
            remote_ip: self.remote_ip@,
            remote_port: self.remote_port,
            proto: self.proto,
            time_flow_start_ns: self.time_flow_start_ns,
            time_flow_end_ns: self.time_flow_end_ns,
            bytes: self.bytes,
            packets: self.packets,
        }
    }
}

/// The address of a row as it is shown: empty where there is none.
pub open spec fn address_at(column: Option<Vec<Option<Vec<u8>>>>, i: int) -> Seq<char> {
    match column {
        Some(v) => match v@[i] {
            Some(bytes) => shown(bytes@),
            None => Seq::empty(),
        },
        None => Seq::empty(),
    }
}

/// The number of a row: zero where the column is missing.
pub open spec fn number_at(column: Option<Vec<i64>>, i: int) -> i64 {
    match column {
        Some(v) => v@[i],
        None => 0,
    }
}

/// The flow of a row.
pub open spec fn match_at(columns: NatColumns, direction: Vec<String>, i: int) -> NatMatchData {
    NatMatchData {
        direction: if direction@[i]@ == "outbound"@ {
            "outbound"@
        } else {
            "inbound"@
        },
        internal_ip: address_at(columns.src_addr, i),
        remote_ip: address_at(columns.dst_addr, i),
        remote_port: match columns.dst_port {
            Some(v) => match v@[i] {
                Some(port) => Some(port as u32),
                None => None,
            },
            None => None,
        },
        proto: match columns.proto {
            Some(v) => v@[i],
            None => 0,
        },
        time_flow_start_ns: number_at(columns.time_flow_start_ns, i),
        time_flow_end_ns: number_at(columns.time_flow_end_ns, i),
        bytes: number_at(columns.bytes, i),
        packets: number_at(columns.packets, i),
    }
}

/// The flows of a batch of results, one to a row; none without a direction.
pub open spec fn matches_in(columns: NatColumns) -> Seq<NatMatchData> {
    match columns.direction {
        Some(direction) => Seq::new(
            columns.rows as nat,
            |i: int| match_at(columns, direction, i),
        ),
        None => Seq::empty(),
    }
}

/// The flows of several batches, in order.
pub open spec fn all_matches(batches: Seq<NatColumns>) -> Seq<NatMatchData>
    decreases batches.len(),
{
    if batches.len() == 0 {
        Seq::empty()
    } else {
        all_matches(batches.drop_last()) + matches_in(batches.last())
    }
}

/// The flows as plain values.
pub open spec fn matches_view(matches: Seq<NatLookupMatch>) -> Seq<NatMatchData> {
    matches.map_values(|m: NatLookupMatch| m@)
}

fn shown_at(column: &Option<Vec<Option<Vec<u8>>>>, i: usize) -> (text: String)
    requires
        column matches Some(v) ==> i < v@.len(),
    ensures
        text@ == address_at(*column, i as int),
{
    match column {
        Some(v) => match &v[i] {
            Some(bytes) => fmt_ip(bytes.as_slice()),
            None => String::new(),
        },
        None => String::new(),
    }
}

fn value_at(column: &Option<Vec<i64>>, i: usize) -> (value: i64)
    requires
        column matches Some(v) ==> i < v@.len(),
    ensures
        value == number_at(*column, i as int),
{
    match column {
        Some(v) => v[i],
        None => 0,
    }
}

/// The flows that the columns of a batch of results hold.
pub fn columns_to_nat_matches(columns: &NatColumns) -> (res: Vec<NatLookupMatch>)
    requires
        columns.wf(),
    ensures
        matches_view(res@) == matches_in(*columns),
        columns.direction is None ==> res@.len() == 0,
        columns.direction is Some ==> res@.len() == columns.rows,
        forall|i: int|
            0 <= i < res@.len() ==> {
                &&& (#[trigger] res@[i]).internal_ip@ == address_at(columns.src_addr, i)
                &&& res@[i].remote_ip@ == address_at(columns.dst_addr, i)
            },
{
    let mut out: Vec<NatLookupMatch> = Vec::new();
    let direction = match &columns.direction {
        Some(direction) => direction,
        None => {
            assert(matches_view(out@) =~= Seq::empty());
            return out;
        },
    };
    let outbound = "outbound".to_owned();
    let mut i: usize = 0;
    while i < columns.rows
        invariant
            columns.wf(),
            outbound@ == "outbound"@,
            columns.direction == Some(*direction),
            i == out@.len() <= columns.rows,
            forall|j: int| 0 <= j < i ==> (#[trigger] out@[j])@ == match_at(*columns, *direction, j),
        decreases columns.rows - i,
    {
        let remote_port: Option<u32> = match &columns.dst_port {
            Some(v) => match v[i] {
                Some(port) => Some(port as u32),
                None => None,
            },
            None => None,
        };
        let proto: u8 = match &columns.proto {
            Some(v) => v[i],
            None => 0,
        };
        out.push(
            NatLookupMatch {
                direction: if direction[i] == outbound {
                    "outbound"
                } else {
                    "inbound"
                },
                internal_ip: shown_at(&columns.src_addr, i),
                remote_ip: shown_at(&columns.dst_addr, i),
                remote_port,
                proto,
                time_flow_start_ns: value_at(&columns.time_flow_start_ns, i),
                time_flow_end_ns: value_at(&columns.time_flow_end_ns, i),
                bytes: value_at(&columns.bytes, i),
                packets: value_at(&columns.packets, i),
            },
        );
        i = i + 1;
    }
    assert(matches_view(out@) =~= matches_in(*columns));
    assert forall|k: int| 0 <= k < out@.len() implies {
        &&& (#[trigger] out@[k]).internal_ip@ == address_at(columns.src_addr, k)
        &&& out@[k].remote_ip@ == address_at(columns.dst_addr, k)
    } by {
        assert(out@[k]@ == match_at(*columns, *direction, k));
    }
    out
}

/// The question, as it is repeated in the answer.
#[derive(Debug)]
pub struct QueryEcho {
    pub ip: String,
    pub port: u16,
    pub at: String,
    pub tolerance_secs: i64,
}

/// The answer.
#[derive(Debug)]
pub struct NatLookupResponse {
    pub query: QueryEcho,
    pub matches: Vec<NatLookupMatch>,
}

/// The answer to the question, given the time it names as text and what the query
/// found.
pub fn answer_with(params: &NatLookupParams, at: String, batches: &Vec<NatColumns>) -> (res:
    NatLookupResponse)
    requires
        forall|i: int| 0 <= i < batches@.len() ==> (#[trigger] batches@[i]).wf(),
    ensures
        res.query.ip@ == params.ip.text(),
        res.query.port == params.port,
        res.query.at == at,
        res.query.tolerance_secs == params.tolerance_secs,
        matches_view(res.matches@) == all_matches(batches@),
{
    let mut matches: Vec<NatLookupMatch> = Vec::new();
    let mut i: usize = 0;
    assert(matches_view(matches@) =~= all_matches(batches@.take(0)));
    while i < batches.len()
        invariant
            i <= batches@.len(),
            forall|i: int| 0 <= i < batches@.len() ==> (#[trigger] batches@[i]).wf(),
            matches_view(matches@) == all_matches(batches@.take(i as int)),
        decreases batches.len() - i,
    {
        let ghost before = matches@;
        let mut found = columns_to_nat_matches(&batches[i]);
        let ghost more = found@;
        matches.append(&mut found);
        proof {
            assert(matches_view(matches@) =~= matches_view(before) + matches_view(more));
            assert(batches@.take(i + 1).drop_last() =~= batches@.take(i as int));
        }
        i = i + 1;
    }
    assert(batches@.take(i as int) =~= batches@);
    NatLookupResponse {
        query: QueryEcho {
            ip: params.ip.to_text(),
            port: params.port,
            at,
            tolerance_secs: params.tolerance_secs,
        },
        matches,
    }
}

/// What the table holds in the column of that name.
pub open spec fn column_of(t: Table, name: Seq<char>) -> Option<ColumnData> {
    named(table_fields(t), table_columns(t), name)
}

/// Whether these are the texts of the column, if it is one of texts; what stands in
/// place of a null is left open.
pub open spec fn reads_texts(column: Option<ColumnData>, texts: Option<Vec<String>>) -> bool {
    match column {
        Some(ColumnData::Utf8(s)) => texts matches Some(v) && v@.len() == s.len() && forall|i: int|
            0 <= i < s.len() && s[i] is Some ==> (#[trigger] v@[i])@ == s[i]->0,
        _ => texts is None,
    }
}

/// Whether these are the numbers of the column, if it is one of 64-bit numbers; what
/// stands in place of a null is left open.
pub open spec fn reads_numbers(column: Option<ColumnData>, numbers: Option<Vec<i64>>) -> bool {
    match column {
        Some(ColumnData::Int64(s)) => numbers matches Some(v) && v@.len() == s.len() && forall|
            i: int,
        |
            0 <= i < s.len() && s[i] is Some ==> Some(#[trigger] v@[i]) == s[i],
        _ => numbers is None,
    }
}

/// Whether these are the bytes of the column, if it is one of bytes; what stands in
/// place of a null is left open.
pub open spec fn reads_bytes(column: Option<ColumnData>, bytes: Option<Vec<u8>>) -> bool {
    match column {
        Some(ColumnData::UInt8(s)) => bytes matches Some(v) && v@.len() == s.len() && forall|i: int|
            0 <= i < s.len() && s[i] is Some ==> Some(#[trigger] v@[i]) == s[i],
        _ => bytes is None,
    }
}

/// Whether these are the ports of the column, if it is one of 16-bit numbers.
pub open spec fn reads_ports(column: Option<ColumnData>, ports: Option<Vec<Option<u16>>>) -> bool {
    match column {
        Some(ColumnData::UInt16(s)) => ports matches Some(v) && v@ == s,
        _ => ports is None,
    }
}

/// Whether these are the addresses of the column, if it is one of views of byte
/// strings, which is what the query engine makes of stored byte strings.
pub open spec fn reads_addresses(
    column: Option<ColumnData>,
    addresses: Option<Vec<Option<Vec<u8>>>>,
) -> bool {
    match column {
        Some(ColumnData::BinaryView(s)) => addresses matches Some(v) && options_view(v@) == s,
        _ => addresses is None,
    }
}

/// Whether these are the columns of the table, as far as they are there and of the
/// type that is expected of them.
pub open spec fn reads(t: Table, c: NatColumns) -> bool {
    &&& c.wf()
    &&& forall|i: int|
        0 <= i < table_columns(t).len() ==> (#[trigger] table_columns(t)[i]).len() == c.rows
    &&& reads_texts(column_of(t, "direction"@), c.direction)
    &&& reads_addresses(column_of(t, "src_addr"@), c.src_addr)
    &&& reads_addresses(column_of(t, "dst_addr"@), c.dst_addr)
    &&& reads_ports(column_of(t, "dst_port"@), c.dst_port)
    &&& reads_bytes(column_of(t, "proto"@), c.proto)
    &&& reads_numbers(column_of(t, "time_flow_start_ns"@), c.time_flow_start_ns)
    &&& reads_numbers(column_of(t, "time_flow_end_ns"@), c.time_flow_end_ns)
    &&& reads_numbers(column_of(t, "bytes"@), c.bytes)
    &&& reads_numbers(column_of(t, "packets"@), c.packets)
}

fn numbers_of(t: &Table, name: &str) -> (res: Option<Vec<i64>>)
    ensures
        reads_numbers(column_of(*t, name@), res),
{
    match t.column_by_name(name) {
        Some(c) => c.int64_values(),
        None => None,
    }
}

fn addresses_of(t: &Table, name: &str) -> (res: Option<Vec<Option<Vec<u8>>>>)
    ensures
        reads_addresses(column_of(*t, name@), res),
{
    match t.column_by_name(name) {
        Some(c) => c.binary_views(),
        None => None,
    }
}

proof fn lemma_named_length(
    fields: Seq<FieldData>,
    columns: Seq<ColumnData>,
    name: Seq<char>,
    rows: usize,
)
    requires
        forall|i: int| 0 <= i < columns.len() ==> (#[trigger] columns[i]).len() == rows,
    ensures
        named(fields, columns, name) matches Some(d) ==> d.len() == rows,
    decreases fields.len(),
{
    if fields.len() > 0 && columns.len() > 0 {
        assert(columns[0].len() == rows);
        let rest = columns.skip(1);
        assert forall|i: int| 0 <= i < rest.len() implies (#[trigger] rest[i]).len() == rows by {
            assert(rest[i] == columns[i + 1]);
        }
        lemma_named_length(fields.skip(1), rest, name, rows);
    }
}

/// The columns of a batch of results.
fn read_columns(t: &Table) -> (res: NatColumns)
    ensures
        reads(*t, res),
{
    let rows: usize = t.num_rows();
    proof {
        let fields = table_fields(*t);
        let columns = table_columns(*t);
        lemma_named_length(fields, columns, "direction"@, rows);
        lemma_named_length(fields, columns, "src_addr"@, rows);
        lemma_named_length(fields, columns, "dst_addr"@, rows);
        lemma_named_length(fields, columns, "dst_port"@, rows);
        lemma_named_length(fields, columns, "proto"@, rows);
        lemma_named_length(fields, columns, "time_flow_start_ns"@, rows);
        lemma_named_length(fields, columns, "time_flow_end_ns"@, rows);
        lemma_named_length(fields, columns, "bytes"@, rows);
        lemma_named_length(fields, columns, "packets"@, rows);
    }
    let direction = match t.column_by_name("direction") {
        Some(c) => c.strings(),
        None => None,
    };
    let dst_port = match t.column_by_name("dst_port") {
        Some(c) => c.uint16s(),
        None => None,
    };
    let proto = match t.column_by_name("proto") {
        Some(c) => c.uint8_values(),
        None => None,
    };
    NatColumns {
        rows,
        direction,
        src_addr: addresses_of(t, "src_addr"),
        dst_addr: addresses_of(t, "dst_addr"),
        dst_port,
        proto,
        time_flow_start_ns: numbers_of(t, "time_flow_start_ns"),
        time_flow_end_ns: numbers_of(t, "time_flow_end_ns"),
        bytes: numbers_of(t, "bytes"),
        packets: numbers_of(t, "packets"),
    }
}

/// The flows that a batch of results holds.
pub fn batch_to_nat_matches(batch: &Table) -> (res: Vec<NatLookupMatch>)
    ensures
        exists|columns: NatColumns| #[trigger]
            reads(*batch, columns) && matches_view(res@) == matches_in(columns),
{
    let columns = read_columns(batch);
    columns_to_nat_matches(&columns)
}

/// Whether these are the columns of the batches.
pub open spec fn reads_all(batches: Seq<Table>, columns: Seq<NatColumns>) -> bool {
    &&& columns.len() == batches.len()
    &&& forall|i: int| 0 <= i < batches.len() ==> reads(batches[i], #[trigger] columns[i])
}

/// The answer to the question, given what the query found.
pub fn answer(params: &NatLookupParams, batches: &Vec<Table>) -> (res: NatLookupResponse)
    ensures
        res.query.ip@ == params.ip.text(),
        res.query.port == params.port,
        res.query.at@ == rfc3339_text(params.at.secs(), params.at.nanos()),
        res.query.tolerance_secs == params.tolerance_secs,
        exists|columns: Seq<NatColumns>| #[trigger]
            reads_all(batches@, columns) && matches_view(res.matches@) == all_matches(columns),
{
    let mut columns: Vec<NatColumns> = Vec::new();
    let mut i: usize = 0;
    while i < batches.len()
        invariant
            i == columns@.len() <= batches@.len(),
            forall|j: int| 0 <= j < i ==> reads(batches@[j], #[trigger] columns@[j]),
        decreases batches.len() - i,
    {
        columns.push(read_columns(&batches[i]));
        i = i + 1;
    }
    assert(reads_all(batches@, columns@));
    answer_with(params, params.at.to_text(), &columns)
}

/// What is told of a flow that answers is what it holds.
pub proof fn law_match_view(m: NatLookupMatch)
    ensures
        m@.direction == m.direction@,
        m@.internal_ip == m.internal_ip@,
        m@.remote_ip == m.remote_ip@,
        m@.remote_port == m.remote_port,
        m@.proto == m.proto,
        m@.time_flow_start_ns == m.time_flow_start_ns,
        m@.time_flow_end_ns == m.time_flow_end_ns,
        m@.bytes == m.bytes,
        m@.packets == m.packets,
{
}

/// What a row of results becomes, whatever its direction: the inner address is shown from
/// the source column and the remote one from the destination column, and both are empty
/// where the row has none; the remote port is the destination port; the numbers are those
/// of their columns, and zero where a column is missing. The direction is outbound if the
/// row says so, and inbound otherwise.
pub proof fn law_match_of_row(columns: NatColumns, direction: Vec<String>, i: int)
    requires
        columns.direction == Some(direction),
        columns.wf(),
        0 <= i < columns.rows,
    ensures
        matches_in(columns).len() == columns.rows,
        ({
            let m = matches_in(columns)[i];
            &&& m.direction == "outbound"@ || m.direction == "inbound"@
            &&& direction@[i]@ == "outbound"@ ==> m.direction == "outbound"@
            &&& direction@[i]@ != "outbound"@ ==> m.direction == "inbound"@
            &&& columns.src_addr is None || columns.src_addr->0@[i] is None
                ==> m.internal_ip.len() == 0
            &&& columns.src_addr is Some && columns.src_addr->0@[i] is Some ==> m.internal_ip
                == shown(columns.src_addr->0@[i]->0@)
            &&& columns.dst_addr is None || columns.dst_addr->0@[i] is None
                ==> m.remote_ip.len() == 0
            &&& columns.dst_addr is Some && columns.dst_addr->0@[i] is Some ==> m.remote_ip == shown(
                columns.dst_addr->0@[i]->0@,
            )
            &&& columns.dst_port is None || columns.dst_port->0@[i] is None ==> m.remote_port is None
            &&& columns.dst_port is Some && columns.dst_port->0@[i] is Some
                ==> m.remote_port is Some && m.remote_port->0 as int
                == columns.dst_port->0@[i]->0 as int
            &&& columns.proto is None ==> m.proto == 0
            &&& columns.proto is Some ==> m.proto == columns.proto->0@[i]
            &&& columns.time_flow_start_ns is None ==> m.time_flow_start_ns == 0
            &&& columns.time_flow_start_ns is Some ==> m.time_flow_start_ns
                == columns.time_flow_start_ns->0@[i]
            &&& columns.time_flow_end_ns is None ==> m.time_flow_end_ns == 0
            &&& columns.time_flow_end_ns is Some ==> m.time_flow_end_ns
                == columns.time_flow_end_ns->0@[i]
            &&& columns.bytes is None ==> m.bytes == 0
            &&& columns.bytes is Some ==> m.bytes == columns.bytes->0@[i]
            &&& columns.packets is None ==> m.packets == 0
            &&& columns.packets is Some ==> m.packets == columns.packets->0@[i]
        }),
{
}

/// The flows of several batches are those of each, in order; a batch without directions
/// adds none.
pub proof fn law_batches_in_order(batches: Seq<NatColumns>, b: NatColumns)
    ensures
        all_matches(Seq::empty()).len() == 0,
        all_matches(batches.push(b)) == all_matches(batches) + matches_in(b),
        b.direction is None ==> matches_in(b).len() == 0,
{
    assert(batches.push(b).drop_last() == batches);
}

/// The search is centred on the time that is asked for, if 64 bits hold it in nanoseconds,
/// and on 1970 if they do not, and reaches equally far to both sides: as many seconds as were asked for.
pub proof fn law_search_span(secs: i64, nanos: u32, tolerance_secs: i64)
    ensures
        ({
            let at = centre(secs, nanos);
            let span = search_span(at, tolerance_secs as int);
            &&& -0x8000_0000_0000_0000 <= secs * 1_000_000_000 + nanos <= 0x7fff_ffff_ffff_ffff
                ==> at == secs * 1_000_000_000 + nanos
            &&& !(-0x8000_0000_0000_0000 <= secs * 1_000_000_000 + nanos <= 0x7fff_ffff_ffff_ffff)
                ==> at == 0
            &&& at - span.0 == tolerance_secs * 1_000_000_000
            &&& span.1 - at == tolerance_secs * 1_000_000_000
            &&& can_search(at, tolerance_secs as int) <==> {
                &&& -0x8000_0000_0000_0000 <= tolerance_secs * 1_000_000_000
                    <= 0x7fff_ffff_ffff_ffff
                &&& -0x8000_0000_0000_0000 <= span.0 <= 0x7fff_ffff_ffff_ffff
                &&& -0x8000_0000_0000_0000 <= span.1 <= 0x7fff_ffff_ffff_ffff
            }
        }),
{
}

/// One half of the query: what its rows say of their direction, which columns of the
/// archive it asks for, each with the name it has in the result, and on which side of a
/// flow the translated address is sought.
pub struct Half {
    pub direction: Seq<char>,
    pub columns: Seq<(Seq<char>, Seq<char>)>,
    pub side: Seq<char>,
}

/// Flows whose source was translated: source and destination as they are.
pub open spec fn outbound_half() -> Half {
    Half {
        direction: "outbound"@,
        columns: seq![
            ("src_addr"@, "src_addr"@),
            ("dst_addr"@, "dst_addr"@),
            ("dst_port"@, "dst_port"@),
            ("proto"@, "proto"@),
            ("time_flow_start_ns"@, "time_flow_start_ns"@),
            ("time_flow_end_ns"@, "time_flow_end_ns"@),
            ("bytes"@, "bytes"@),
            ("packets"@, "packets"@),
        ],
        side: "src"@,
    }
}

/// Flows whose destination was translated: source and destination exchanged.
pub open spec fn inbound_half() -> Half {
    Half {
        direction: "inbound"@,
        columns: seq![
            ("dst_addr"@, "src_addr"@),
            ("src_addr"@, "dst_addr"@),
            ("src_port"@, "dst_port"@),
            ("proto"@, "proto"@),
            ("time_flow_start_ns"@, "time_flow_start_ns"@),
            ("time_flow_end_ns"@, "time_flow_end_ns"@),
            ("bytes"@, "bytes"@),
            ("packets"@, "packets"@),
        ],
        side: "dst"@,
    }
}

/// A column of the archive under its name in the result.
pub open spec fn column_sql(column: (Seq<char>, Seq<char>)) -> Seq<char> {
    if column.0 == column.1 {
        column.0
    } else {
        column.0 + " AS "@ + column.1
    }
}

/// The first `n` columns, with commas between them.
pub open spec fn columns_sql(columns: Seq<(Seq<char>, Seq<char>)>, n: nat) -> Seq<char>
    decreases n,
{
    if n == 0 {
        Seq::empty()
    } else if n == 1 {
        column_sql(columns[0])
    } else {
        columns_sql(columns, (n - 1) as nat) + ", "@ + column_sql(columns[n - 1])
    }
}

/// One half of the query as text: the translated address and port on its side are those
/// sought, and the flow neither starts behind the span nor ends before it.
pub open spec fn half_sql(
    half: Half,
    ip_hex: Seq<char>,
    port: Seq<char>,
    from: Seq<char>,
    to: Seq<char>,
) -> Seq<char> {
    ("SELECT '"@ + half.direction + "' AS direction, "@ + columns_sql(half.columns, 8))
        + " FROM flows WHERE post_nat_"@ + (half.side + "_ipv4_address = X'"@ + ip_hex
        + "' AND post_napt_"@ + half.side + "_transport_port = "@ + port
        + " AND time_flow_start_ns <= "@ + to + " AND time_flow_end_ns >= "@ + from)
}

proof fn lemma_outbound_sql()
    ensures
        "SELECT 'outbound' AS direction, src_addr, dst_addr, dst_port, proto, "@
            + "time_flow_start_ns, time_flow_end_ns, bytes, packets "@ == "SELECT '"@ + "outbound"@
            + "' AS direction, "@ + columns_sql(outbound_half().columns, 8) + " "@,
{
    let c = outbound_half().columns;
    reveal_with_fuel(columns_sql, 9);
    assert(columns_sql(c, 8) =~= "src_addr"@ + ", "@ + "dst_addr"@ + ", "@ + "dst_port"@ + ", "@
        + "proto"@ + ", "@ + "time_flow_start_ns"@ + ", "@ + "time_flow_end_ns"@ + ", "@ + "bytes"@
        + ", "@ + "packets"@);
    reveal_strlit("SELECT 'outbound' AS direction, src_addr, dst_addr, dst_port, proto, ");
    reveal_strlit("time_flow_start_ns, time_flow_end_ns, bytes, packets ");
    reveal_strlit("SELECT '");
    reveal_strlit("outbound");
    reveal_strlit("' AS direction, ");
    reveal_strlit(", ");
    reveal_strlit(" ");
    reveal_strlit("src_addr");
    reveal_strlit("dst_addr");
    reveal_strlit("dst_port");
    reveal_strlit("proto");
    reveal_strlit("time_flow_start_ns");
    reveal_strlit("time_flow_end_ns");
    reveal_strlit("bytes");
    reveal_strlit("packets");
    assert("SELECT 'outbound' AS direction, src_addr, dst_addr, dst_port, proto, "@ =~= "SELECT '"@
        + "outbound"@ + "' AS direction, "@ + "src_addr"@ + ", "@ + "dst_addr"@ + ", "@
        + "dst_port"@ + ", "@ + "proto"@ + ", "@);
    assert("time_flow_start_ns, time_flow_end_ns, bytes, packets "@ =~= "time_flow_start_ns"@ + ", "@
        + "time_flow_end_ns"@ + ", "@ + "bytes"@ + ", "@ + "packets"@ + " "@);
    assert("SELECT 'outbound' AS direction, src_addr, dst_addr, dst_port, proto, "@
        + "time_flow_start_ns, time_flow_end_ns, bytes, packets "@ =~= "SELECT '"@ + "outbound"@
        + "' AS direction, "@ + columns_sql(c, 8) + " "@);
}

proof fn lemma_inbound_sql()
    ensures
        " UNION ALL SELECT 'inbound' AS direction, "@
            + "dst_addr AS src_addr, src_addr AS dst_addr, src_port AS dst_port, proto, "@
            + "time_flow_start_ns, time_flow_end_ns, bytes, packets "@ == " UNION ALL "@
            + "SELECT '"@ + "inbound"@ + "' AS direction, "@ + columns_sql(
            inbound_half().columns,
            8,
        ) + " "@,
{
    let c = inbound_half().columns;
    reveal_with_fuel(columns_sql, 9);
    reveal_strlit(" UNION ALL SELECT 'inbound' AS direction, ");
    reveal_strlit("dst_addr AS src_addr, src_addr AS dst_addr, src_port AS dst_port, proto, ");
    reveal_strlit("time_flow_start_ns, time_flow_end_ns, bytes, packets ");
    reveal_strlit(" UNION ALL ");
    reveal_strlit("SELECT '");
    reveal_strlit("inbound");
    reveal_strlit("' AS direction, ");
    reveal_strlit(", ");
    reveal_strlit(" ");
    reveal_strlit(" AS ");
    reveal_strlit("src_addr");
    reveal_strlit("dst_addr");
    reveal_strlit("src_port");
    reveal_strlit("dst_port");
    reveal_strlit("proto");
    reveal_strlit("time_flow_start_ns");
    reveal_strlit("time_flow_end_ns");
    reveal_strlit("bytes");
    reveal_strlit("packets");
    assert("src_addr"@[0] != "dst_addr"@[0]);
    assert("src_port"@[0] != "dst_port"@[0]);
    assert(columns_sql(c, 8) =~= ("dst_addr"@ + " AS "@ + "src_addr"@) + ", "@ + ("src_addr"@
        + " AS "@ + "dst_addr"@) + ", "@ + ("src_port"@ + " AS "@ + "dst_port"@) + ", "@ + "proto"@
        + ", "@ + "time_flow_start_ns"@ + ", "@ + "time_flow_end_ns"@ + ", "@ + "bytes"@ + ", "@
        + "packets"@);
    assert(" UNION ALL SELECT 'inbound' AS direction, "@ =~= " UNION ALL "@ + "SELECT '"@
        + "inbound"@ + "' AS direction, "@);
    assert("dst_addr AS src_addr, src_addr AS dst_addr, src_port AS dst_port, proto, "@
        =~= ("dst_addr"@ + " AS "@ + "src_addr"@) + ", "@ + ("src_addr"@ + " AS "@ + "dst_addr"@)
        + ", "@ + ("src_port"@ + " AS "@ + "dst_port"@) + ", "@ + "proto"@ + ", "@);
    assert("time_flow_start_ns, time_flow_end_ns, bytes, packets "@ =~= "time_flow_start_ns"@ + ", "@
        + "time_flow_end_ns"@ + ", "@ + "bytes"@ + ", "@ + "packets"@ + " "@);
    assert(" UNION ALL SELECT 'inbound' AS direction, "@
        + "dst_addr AS src_addr, src_addr AS dst_addr, src_port AS dst_port, proto, "@
        + "time_flow_start_ns, time_flow_end_ns, bytes, packets "@ =~= " UNION ALL "@
        + "SELECT '"@ + "inbound"@ + "' AS direction, "@ + columns_sql(c, 8) + " "@);
}

/// The query asks for both halves and at most fifty flows, with the address, the port and
/// the span in either half, and nothing in it depends on anything else.
pub proof fn law_query(ip_hex: Seq<char>, port: u16, window_start: i64, window_end: i64)
    ensures
        exists|p: Seq<char>, from: Seq<char>, to: Seq<char>|
            #![trigger writes(p, port as int), writes(from, window_start as int), writes(to, window_end as int)]
            {
                &&& writes(p, port as int)
                &&& writes(from, window_start as int)
                &&& writes(to, window_end as int)
                &&& query_text(ip_hex, port, window_start, window_end) == half_sql(
                    outbound_half(),
                    ip_hex,
                    p,
                    from,
                    to,
                ) + " UNION ALL "@ + half_sql(inbound_half(), ip_hex, p, from, to) + " LIMIT 50"@
            },
{
    let p = decimal(port as nat);
    let from = signed_decimal(window_start as int);
    let to = signed_decimal(window_end as int);
    law_signed_decimal_writes(port as int);
    law_signed_decimal_writes(window_start as int);
    law_signed_decimal_writes(window_end as int);
    assert(signed_decimal(port as int) == p);
    let head_out = "SELECT '"@ + "outbound"@ + "' AS direction, "@ + columns_sql(
        outbound_half().columns,
        8,
    );
    let head_in = "SELECT '"@ + "inbound"@ + "' AS direction, "@ + columns_sql(
        inbound_half().columns,
        8,
    );
    let rest_out = "src"@ + "_ipv4_address = X'"@ + ip_hex + "' AND post_napt_"@ + "src"@
        + "_transport_port = "@ + p + " AND time_flow_start_ns <= "@ + to
        + " AND time_flow_end_ns >= "@ + from;
    let rest_in = "dst"@ + "_ipv4_address = X'"@ + ip_hex + "' AND post_napt_"@ + "dst"@
        + "_transport_port = "@ + p + " AND time_flow_start_ns <= "@ + to
        + " AND time_flow_end_ns >= "@ + from;
    lemma_outbound_sql();
    lemma_inbound_sql();
    lemma_conditions("src"@, ip_hex, port, window_start, window_end);
    lemma_conditions("dst"@, ip_hex, port, window_start, window_end);
    lemma_from();
    lemma_union(" UNION ALL "@, "SELECT '"@, "inbound"@, "' AS direction, "@, columns_sql(
        inbound_half().columns,
        8,
    ), " "@);
    lemma_pieces(
        "SELECT 'outbound' AS direction, src_addr, dst_addr, dst_port, proto, "@,
        "time_flow_start_ns, time_flow_end_ns, bytes, packets "@,
        conditions("src"@, ip_hex, port, window_start, window_end),
        " UNION ALL SELECT 'inbound' AS direction, "@,
        "dst_addr AS src_addr, src_addr AS dst_addr, src_port AS dst_port, proto, "@,
        conditions("dst"@, ip_hex, port, window_start, window_end),
        head_out,
        rest_out,
        head_in,
        rest_in,
    );
}

proof fn lemma_union(
    u: Seq<char>,
    a: Seq<char>,
    b: Seq<char>,
    c: Seq<char>,
    d: Seq<char>,
    e: Seq<char>,
)
    ensures
        u + a + b + c + d + e == u + (a + b + c + d) + e,
{
    assert(u + a + b + c + d + e =~= u + (a + b + c + d) + e);
}

proof fn lemma_from()
    ensures
        " "@ + "FROM flows WHERE post_nat_"@ == " FROM flows WHERE post_nat_"@,
{
    reveal_strlit(" ");
    reveal_strlit("FROM flows WHERE post_nat_");
    reveal_strlit(" FROM flows WHERE post_nat_");
    assert(" "@ + "FROM flows WHERE post_nat_"@ =~= " FROM flows WHERE post_nat_"@);
}

proof fn lemma_conditions(
    side: Seq<char>,
    ip_hex: Seq<char>,
    port: u16,
    window_start: i64,
    window_end: i64,
)
    ensures
        conditions(side, ip_hex, port, window_start, window_end) == "FROM flows WHERE post_nat_"@ + (
        side + "_ipv4_address = X'"@ + ip_hex + "' AND post_napt_"@ + side + "_transport_port = "@
            + decimal(port as nat) + " AND time_flow_start_ns <= "@ + signed_decimal(
            window_end as int,
        ) + " AND time_flow_end_ns >= "@ + signed_decimal(window_start as int)),
{
    assert(conditions(side, ip_hex, port, window_start, window_end)
        =~= "FROM flows WHERE post_nat_"@ + (side + "_ipv4_address = X'"@ + ip_hex
        + "' AND post_napt_"@ + side + "_transport_port = "@ + decimal(port as nat)
        + " AND time_flow_start_ns <= "@ + signed_decimal(window_end as int)
        + " AND time_flow_end_ns >= "@ + signed_decimal(window_start as int)));
}

/// The pieces of the query, put together in another way.
proof fn lemma_pieces(
    a1: Seq<char>,
    a2: Seq<char>,
    out: Seq<char>,
    b1: Seq<char>,
    b2: Seq<char>,
    inb: Seq<char>,
    head_out: Seq<char>,
    rest_out: Seq<char>,
    head_in: Seq<char>,
    rest_in: Seq<char>,
)
    requires
        a1 + a2 == head_out + " "@,
        out == "FROM flows WHERE post_nat_"@ + rest_out,
        b1 + b2 + a2 == " UNION ALL "@ + head_in + " "@,
        inb == "FROM flows WHERE post_nat_"@ + rest_in,
        " "@ + "FROM flows WHERE post_nat_"@ == " FROM flows WHERE post_nat_"@,
    ensures
        a1 + a2 + out + b1 + b2 + a2 + inb + " LIMIT 50"@ == (head_out
            + " FROM flows WHERE post_nat_"@ + rest_out) + " UNION ALL "@ + (head_in
            + " FROM flows WHERE post_nat_"@ + rest_in) + " LIMIT 50"@,
{
    let f = "FROM flows WHERE post_nat_"@;
    assert(a1 + a2 + out + b1 + b2 + a2 + inb + " LIMIT 50"@ =~= (a1 + a2) + out + (b1 + b2 + a2)
        + inb + " LIMIT 50"@);
    assert((head_out + " "@) + (f + rest_out) =~= head_out + (" "@ + f) + rest_out);
    assert((" UNION ALL "@ + head_in + " "@) + (f + rest_in) =~= " UNION ALL "@ + (head_in + (" "@
        + f) + rest_in));
    let x = head_out + " FROM flows WHERE post_nat_"@ + rest_out;
    let y = head_in + " FROM flows WHERE post_nat_"@ + rest_in;
    assert((a1 + a2) + out + (b1 + b2 + a2) + inb + " LIMIT 50"@ =~= ((a1 + a2) + out) + ((b1 + b2
        + a2) + inb) + " LIMIT 50"@);
    assert(x + (" UNION ALL "@ + y) + " LIMIT 50"@ =~= x + " UNION ALL "@ + y + " LIMIT 50"@);
}

/// The column of the archive that stands under the given name in the rows of a half.
pub open spec fn source_of(half: Half, name: Seq<char>) -> Seq<char> {
    let k = choose|k: int|
        0 <= k < half.columns.len() && (#[trigger] half.columns[k]).1 == name;
    half.columns[k].0
}

/// The address that a stored flow has in the given column of the archive.
pub open spec fn stored_end(row: Row, column: Seq<char>) -> Seq<u8> {
    if column == "src_addr"@ {
        row.src_addr
    } else {
        row.dst_addr
    }
}

/// The port that a stored flow has in the given column of the archive.
pub open spec fn stored_port_in(row: Row, column: Seq<char>) -> Option<u16> {
    if column == "src_port"@ {
        row.src_port
    } else {
        row.dst_port
    }
}

/// Whether row `i` of the results is what the half of the query makes of the stored flow.
pub open spec fn comes_of(columns: NatColumns, i: int, half: Half, row: Row) -> bool {
    &&& columns.wf()
    &&& 0 <= i < columns.rows
    &&& columns.direction is Some && columns.direction->0@[i]@ == half.direction
    &&& columns.src_addr is Some && columns.src_addr->0@[i] is Some
        && columns.src_addr->0@[i]->0@ == stored_end(row, source_of(half, "src_addr"@))
    &&& columns.dst_addr is Some && columns.dst_addr->0@[i] is Some
        && columns.dst_addr->0@[i]->0@ == stored_end(row, source_of(half, "dst_addr"@))
    &&& columns.dst_port is Some && columns.dst_port->0@[i] == stored_port_in(
        row,
        source_of(half, "dst_port"@),
    )
}

proof fn lemma_sources()
    ensures
        source_of(outbound_half(), "src_addr"@) == "src_addr"@,
        source_of(outbound_half(), "dst_addr"@) == "dst_addr"@,
        source_of(outbound_half(), "dst_port"@) == "dst_port"@,
        source_of(inbound_half(), "src_addr"@) == "dst_addr"@,
        source_of(inbound_half(), "dst_addr"@) == "src_addr"@,
        source_of(inbound_half(), "dst_port"@) == "src_port"@,
        "src_addr"@ != "dst_addr"@,
        "src_port"@ != "dst_port"@,
        "outbound"@ != "inbound"@,
{
    reveal_strlit("src_addr");
    reveal_strlit("dst_addr");
    reveal_strlit("src_port");
    reveal_strlit("dst_port");
    reveal_strlit("proto");
    reveal_strlit("time_flow_start_ns");
    reveal_strlit("time_flow_end_ns");
    reveal_strlit("bytes");
    reveal_strlit("packets");
    reveal_strlit("outbound");
    reveal_strlit("inbound");
    assert("src_addr"@[0] != "dst_addr"@[0]);
    assert("src_port"@[0] != "dst_port"@[0]);
    assert("dst_addr"@[4] != "dst_port"@[4]);
    assert("src_addr"@[4] != "dst_port"@[4]);
    assert("outbound"@[0] != "inbound"@[0]);
    let a = outbound_half();
    let b = inbound_half();
    assert(a.columns[0].1 == "src_addr"@ && a.columns[1].1 == "dst_addr"@ && a.columns[2].1
        == "dst_port"@);
    assert(b.columns[0].1 == "src_addr"@ && b.columns[1].1 == "dst_addr"@ && b.columns[2].1
        == "dst_port"@);
    assert("proto"@.len() == 5 && "bytes"@.len() == 5 && "packets"@.len() == 7);
    assert("time_flow_start_ns"@.len() == 18 && "time_flow_end_ns"@.len() == 16);
    assert("src_addr"@.len() == 8 && "dst_addr"@.len() == 8 && "dst_port"@.len() == 8);
    assert forall|k: int| 0 <= k < 8 && (#[trigger] a.columns[k]).1 == "src_addr"@ implies k == 0 by {}
    assert forall|k: int| 0 <= k < 8 && (#[trigger] a.columns[k]).1 == "dst_addr"@ implies k == 1 by {}
    assert forall|k: int| 0 <= k < 8 && (#[trigger] a.columns[k]).1 == "dst_port"@ implies k == 2 by {}
    assert forall|k: int| 0 <= k < 8 && (#[trigger] b.columns[k]).1 == "src_addr"@ implies k == 0 by {}
    assert forall|k: int| 0 <= k < 8 && (#[trigger] b.columns[k]).1 == "dst_addr"@ implies k == 1 by {}
    assert forall|k: int| 0 <= k < 8 && (#[trigger] b.columns[k]).1 == "dst_port"@ implies k == 2 by {}
}

/// Across the query and its answer the customer is always the inner address. A flow that
/// went out is answered with its source as the inner address and its destination as the
/// remote one; a flow that came in, from a remote peer to a customer, with the customer,
/// which is its destination, as the inner address, and the peer, which is its source, with
/// the peer's port, as the remote one.
pub proof fn law_customer_is_internal(columns: NatColumns, i: int, row: Row)
    ensures
        comes_of(columns, i, outbound_half(), row) ==> {
            let m = matches_in(columns)[i];
            &&& m.direction == "outbound"@
            &&& m.internal_ip == shown(row.src_addr)
            &&& m.remote_ip == shown(row.dst_addr)
            &&& m.remote_port is Some <==> row.dst_port is Some
            &&& m.remote_port matches Some(p) ==> p as int == row.dst_port->0 as int
        },
        comes_of(columns, i, inbound_half(), row) ==> {
            let m = matches_in(columns)[i];
            &&& m.direction == "inbound"@
            &&& m.internal_ip == shown(row.dst_addr)
            &&& m.remote_ip == shown(row.src_addr)
            &&& m.remote_port is Some <==> row.src_port is Some
            &&& m.remote_port matches Some(p) ==> p as int == row.src_port->0 as int
        },
{
    lemma_sources();
}

/// The flows that are handed out are those that are told of, one for one.
pub proof fn law_matches_view(matches: Seq<NatLookupMatch>, i: int)
    requires
        0 <= i < matches.len(),
    ensures
        matches_view(matches).len() == matches.len(),
        matches_view(matches)[i] == matches[i]@,
{
}

/// What is read of a table: its rows are counted, and each column is read under its own
/// name, if it is there and of the expected type, and is missing otherwise. Values that are
/// not null come as they are.
pub proof fn law_columns_read(t: Table, c: NatColumns, k: int, i: int)
    requires
        reads(t, c),
    ensures
        0 <= k < table_columns(t).len() ==> table_columns(t)[k].len() == c.rows,
        ({
            let fields = table_fields(t);
            let columns = table_columns(t);
            &&& match named(fields, columns, "direction"@) {
                Some(ColumnData::Utf8(s)) => c.direction is Some && c.direction->0@.len() == s.len()
                    && (0 <= i < s.len() && s[i] is Some ==> c.direction->0@[i]@ == s[i]->0),
                _ => c.direction is None,
            }
            &&& match named(fields, columns, "src_addr"@) {
                Some(ColumnData::BinaryView(s)) => {
                    &&& c.src_addr is Some && c.src_addr->0@.len() == s.len()
                    &&& 0 <= i < s.len() ==> (c.src_addr->0@[i] is Some <==> s[i] is Some)
                    &&& 0 <= i < s.len() && s[i] is Some ==> c.src_addr->0@[i]->0@ == s[i]->0
                },
                _ => c.src_addr is None,
            }
            &&& match named(fields, columns, "dst_addr"@) {
                Some(ColumnData::BinaryView(s)) => {
                    &&& c.dst_addr is Some && c.dst_addr->0@.len() == s.len()
                    &&& 0 <= i < s.len() ==> (c.dst_addr->0@[i] is Some <==> s[i] is Some)
                    &&& 0 <= i < s.len() && s[i] is Some ==> c.dst_addr->0@[i]->0@ == s[i]->0
                },
                _ => c.dst_addr is None,
            }
            &&& match named(fields, columns, "dst_port"@) {
                Some(ColumnData::UInt16(s)) => c.dst_port is Some && c.dst_port->0@ == s,
                _ => c.dst_port is None,
            }
            &&& match named(fields, columns, "proto"@) {
                Some(ColumnData::UInt8(s)) => c.proto is Some && c.proto->0@.len() == s.len() && (0
                    <= i < s.len() && s[i] is Some ==> Some(c.proto->0@[i]) == s[i]),
                _ => c.proto is None,
            }
            &&& match named(fields, columns, "time_flow_start_ns"@) {
                Some(ColumnData::Int64(s)) => c.time_flow_start_ns is Some && c.time_flow_start_ns->0@.len() == s.len() && (0
                    <= i < s.len() && s[i] is Some ==> Some(c.time_flow_start_ns->0@[i]) == s[i]),
                _ => c.time_flow_start_ns is None,
            }
            &&& match named(fields, columns, "time_flow_end_ns"@) {
                Some(ColumnData::Int64(s)) => c.time_flow_end_ns is Some && c.time_flow_end_ns->0@.len() == s.len() && (0
                    <= i < s.len() && s[i] is Some ==> Some(c.time_flow_end_ns->0@[i]) == s[i]),
                _ => c.time_flow_end_ns is None,
            }
            &&& match named(fields, columns, "bytes"@) {
                Some(ColumnData::Int64(s)) => c.bytes is Some && c.bytes->0@.len() == s.len() && (0
                    <= i < s.len() && s[i] is Some ==> Some(c.bytes->0@[i]) == s[i]),
                _ => c.bytes is None,
            }
            &&& match named(fields, columns, "packets"@) {
                Some(ColumnData::Int64(s)) => c.packets is Some && c.packets->0@.len() == s.len() && (0
                    <= i < s.len() && s[i] is Some ==> Some(c.packets->0@[i]) == s[i]),
                _ => c.packets is None,
            }
        }),
{
    if c.src_addr is Some {
        let v = c.src_addr->0@;
        assert(options_view(v).len() == v.len());
        if 0 <= i < v.len() {
            assert(options_view(v)[i] == match v[i] {
                Some(bytes) => Some(bytes@),
                None => None,
            });
        }
    }
    if c.dst_addr is Some {
        let v = c.dst_addr->0@;
        assert(options_view(v).len() == v.len());
        if 0 <= i < v.len() {
            assert(options_view(v)[i] == match v[i] {
                Some(bytes) => Some(bytes@),
                None => None,
            });
        }
    }
}

/// Several batches are read one for one, in order.
pub proof fn law_batches_read(batches: Seq<Table>, columns: Seq<NatColumns>, i: int)
    requires
        reads_all(batches, columns),
        0 <= i < batches.len(),
    ensures
        columns.len() == batches.len(),
        reads(batches[i], columns[i]),
{
    assert(reads(batches[i], columns[i]));
}

} // verus!
