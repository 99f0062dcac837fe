//! One flow message: the protobuf wire format and the fields the archive keeps.

use vstd::prelude::*;

use crate::varint::{
    decode_varint, encode_varint, law_varint_length, law_varint_prefix, law_varint_round_trip,
    read_varint,
};

verus! {

// Field numbers of goflow2's FlowMessage.
pub const F_SRC_ADDR: u64 = 6;

pub const F_DST_ADDR: u64 = 7;

pub const F_BYTES: u64 = 9;

pub const F_PACKETS: u64 = 10;

pub const F_SAMPLER_ADDRESS: u64 = 11;

pub const F_IN_IF: u64 = 18;

pub const F_OUT_IF: u64 = 19;

pub const F_PROTO: u64 = 20;

pub const F_SRC_PORT: u64 = 21;

pub const F_DST_PORT: u64 = 22;

pub const F_TCP_FLAGS: u64 = 26;

pub const F_TIME_RECEIVED_NS: u64 = 110;

pub const F_TIME_FLOW_START_NS: u64 = 111;

pub const F_TIME_FLOW_END_NS: u64 = 112;

// Custom fields, declared in the `protobuf:` section of the collector's field map.
pub const F_POST_NAT_SRC_IPV4: u64 = 2225;

pub const F_POST_NAT_DST_IPV4: u64 = 2226;

pub const F_POST_NAPT_SRC_PORT: u64 = 2227;

pub const F_POST_NAPT_DST_PORT: u64 = 2228;

/// What a wire field carries.
pub enum WireValue {
    Varint(u64),
    /// Eight bytes, or fewer where the message ends first.
    Fixed64(Seq<u8>),
    Bytes(Seq<u8>),
    /// Four bytes, or fewer where the message ends first.
    Fixed32(Seq<u8>),
}

/// A field as it stands on the wire.
pub struct WireField {
    pub number: u64,
    pub value: WireValue,
}

/// The first `n` bytes of `s`, or all of it if it is shorter.
pub open spec fn up_to(s: Seq<u8>, n: int) -> Seq<u8> {
    if s.len() <= n {
        s
    } else {
        s.take(n)
    }
}

/// The value of wire type `kind` at the front of `s`, and how many bytes it
/// takes; `None` for a kind other than 0, 1, 2 and 5, for a varint that does not
/// end and for a byte string longer than what is left of `s`.
pub open spec fn decode_value(kind: u64, s: Seq<u8>) -> Option<(WireValue, nat)> {
    if kind == 0 {
        match decode_varint(s) {
            Some((v, n)) => Some((WireValue::Varint(v), n)),
            None => None,
        }
    } else if kind == 1 {
        Some((WireValue::Fixed64(up_to(s, 8)), up_to(s, 8).len()))
    } else if kind == 5 {
        Some((WireValue::Fixed32(up_to(s, 4)), up_to(s, 4).len()))
    } else if kind == 2 {
        match decode_varint(s) {
            Some((len, n)) => if n + len <= s.len() {
                Some((WireValue::Bytes(s.subrange(n as int, n + len)), n + len as nat))
            } else {
                None
            },
            None => None,
        }
    } else {
        None
    }
}

/// The field at the front of `s`, and how many bytes it takes. The tag is a
/// varint: the wire type in its low three bits, the field number above them.
pub open spec fn decode_field(s: Seq<u8>) -> Option<(WireField, nat)> {
    match decode_varint(s) {
        Some((tag, n)) => match decode_value(tag % 8, s.skip(n as int)) {
            Some((value, m)) => Some((WireField { number: tag / 8, value }, n + m)),
            None => None,
        },
        None => None,
    }
}

/// A field takes at least one byte, and lies within the message.
pub proof fn law_field_length(s: Seq<u8>)
    ensures
        decode_field(s) matches Some((f, n)) ==> 1 <= n <= s.len(),
{
    law_varint_length(s);
    if let Some((tag, n)) = decode_varint(s) {
        law_varint_length(s.skip(n as int));
    }
}

/// All the fields of the message `s` in order; `None` if `s` is not a whole
/// number of fields.
pub open spec fn wire_fields(s: Seq<u8>) -> Option<Seq<WireField>>
    decreases s.len(),
{
    if s.len() == 0 {
        Some(Seq::empty())
    } else {
        match decode_field(s) {
            Some((f, n)) => {
                proof {
                    law_field_length(s);
                }
                match wire_fields(s.skip(n as int)) {
                    Some(rest) => Some(seq![f] + rest),
                    None => None,
                }
            },
            None => None,
        }
    }
}

/// The fields of a flow message that the archive keeps, as plain values.
pub struct FlowData {
    pub time_received_ns: i64,
    pub time_flow_start_ns: i64,
    pub time_flow_end_ns: i64,
    pub sampler_address: Seq<u8>,
    pub src_addr: Seq<u8>,
    pub dst_addr: Seq<u8>,
    pub bytes: i64,
    pub packets: i64,
    pub proto: u8,
    pub src_port: u32,
    pub dst_port: u32,
    pub in_if: u32,
    pub out_if: u32,
    pub tcp_flags: u32,
    pub post_nat_src_ipv4_address: Seq<u8>,
    pub post_nat_dst_ipv4_address: Seq<u8>,
    pub post_napt_src_transport_port: u32,
    pub post_napt_dst_transport_port: u32,
}

impl FlowData {
    /// A flow with every number zero and every byte string empty.
    pub open spec fn blank() -> FlowData {
        FlowData {
            time_received_ns: 0,
            time_flow_start_ns: 0,
            time_flow_end_ns: 0,
            sampler_address: Seq::empty(),
            src_addr: Seq::empty(),
            dst_addr: Seq::empty(),
            bytes: 0,
            packets: 0,
            proto: 0,
            src_port: 0,
            dst_port: 0,
            in_if: 0,
            out_if: 0,
            tcp_flags: 0,
            post_nat_src_ipv4_address: Seq::empty(),
            post_nat_dst_ipv4_address: Seq::empty(),
            post_napt_src_transport_port: 0,
            post_napt_dst_transport_port: 0,
        }
    }
}

/// The varint that the last field numbered `number` of that wire type carries;
/// zero if there is none.
pub open spec fn last_varint(fields: Seq<WireField>, number: u64) -> u64
    decreases fields.len(),
{
    if fields.len() == 0 {
        0
    } else {
        match fields.last().value {
            WireValue::Varint(v) if fields.last().number == number => v,
            _ => last_varint(fields.drop_last(), number),
        }
    }
}

/// The bytes that the last field numbered `number` of that wire type carries;
/// empty if there is none.
pub open spec fn last_bytes(fields: Seq<WireField>, number: u64) -> Seq<u8>
    decreases fields.len(),
{
    if fields.len() == 0 {
        Seq::empty()
    } else {
        match fields.last().value {
            WireValue::Bytes(b) if fields.last().number == number => b,
            _ => last_bytes(fields.drop_last(), number),
        }
    }
}

/// The flow that a message with these fields describes: each of its fields is
/// what the last wire field of that number and kind says, cut down to the
/// field's width, and zero or empty where the message has none.
pub open spec fn flow_of(fields: Seq<WireField>) -> FlowData {
    FlowData {
        time_received_ns: last_varint(fields, F_TIME_RECEIVED_NS) as i64,
        time_flow_start_ns: last_varint(fields, F_TIME_FLOW_START_NS) as i64,
        time_flow_end_ns: last_varint(fields, F_TIME_FLOW_END_NS) as i64,
        sampler_address: last_bytes(fields, F_SAMPLER_ADDRESS),
        src_addr: last_bytes(fields, F_SRC_ADDR),
        dst_addr: last_bytes(fields, F_DST_ADDR),
        bytes: last_varint(fields, F_BYTES) as i64,
        packets: last_varint(fields, F_PACKETS) as i64,
        proto: last_varint(fields, F_PROTO) as u8,
        src_port: last_varint(fields, F_SRC_PORT) as u32,
        dst_port: last_varint(fields, F_DST_PORT) as u32,
        in_if: last_varint(fields, F_IN_IF) as u32,
        out_if: last_varint(fields, F_OUT_IF) as u32,
        tcp_flags: last_varint(fields, F_TCP_FLAGS) as u32,
        post_nat_src_ipv4_address: last_bytes(fields, F_POST_NAT_SRC_IPV4),
        post_nat_dst_ipv4_address: last_bytes(fields, F_POST_NAT_DST_IPV4),
        post_napt_src_transport_port: last_varint(fields, F_POST_NAPT_SRC_PORT) as u32,
        post_napt_dst_transport_port: last_varint(fields, F_POST_NAPT_DST_PORT) as u32,
    }
}

/// The flow that the message `frame` describes, if it is well formed.
pub open spec fn decode_flow(frame: Seq<u8>) -> Option<FlowData> {
    match wire_fields(frame) {
        Some(fields) => Some(flow_of(fields)),
        None => None,
    }
}

/// A flow message, decoded. The byte strings borrow from the frame they were
/// read out of.
pub struct Flow<'a> {
    pub time_received_ns: i64,
    pub time_flow_start_ns: i64,
    pub time_flow_end_ns: i64,
    pub sampler_address: &'a [u8],
    pub src_addr: &'a [u8],
    pub dst_addr: &'a [u8],
    pub bytes: i64,
    pub packets: i64,
    pub proto: u8,
    pub src_port: u32,
    pub dst_port: u32,
    pub in_if: u32,
    pub out_if: u32,
    pub tcp_flags: u32,
    // The address translation that makes a report about a public address
    // traceable to a customer. Raw bytes, as the collector emits them.
    pub post_nat_src_ipv4_address: &'a [u8],
    pub post_nat_dst_ipv4_address: &'a [u8],
    pub post_napt_src_transport_port: u32,
    pub post_napt_dst_transport_port: u32,
}

impl<'a> View for Flow<'a> {
    type V = FlowData;

    open spec fn view(&self) -> FlowData {
        FlowData {
            time_received_ns: self.time_received_ns,
            time_flow_start_ns: self.time_flow_start_ns,
            time_flow_end_ns: self.time_flow_end_ns,
            sampler_address: self.sampler_address@,
            src_addr: self.src_addr@,
            dst_addr: self.dst_addr@,
            bytes: self.bytes,
            packets: self.packets,
            proto: self.proto,
            src_port: self.src_port,
            dst_port: self.dst_port,
            in_if: self.in_if,
            out_if: self.out_if,
            tcp_flags: self.tcp_flags,
            post_nat_src_ipv4_address: self.post_nat_src_ipv4_address@,
            post_nat_dst_ipv4_address: self.post_nat_dst_ipv4_address@,
            post_napt_src_transport_port: self.post_napt_src_transport_port,
            post_napt_dst_transport_port: self.post_napt_dst_transport_port,
        }
    }
}

impl<'a> Default for Flow<'a> {
    fn default() -> (flow: Flow<'a>)
        ensures
            flow@ == FlowData::blank(),
    {
        let none: &'a [u8] = &[];
        assert(none@ == Seq::<u8>::empty());
        Flow {
            time_received_ns: 0,
            time_flow_start_ns: 0,
            time_flow_end_ns: 0,
            sampler_address: none,
            src_addr: none,
            dst_addr: none,
            bytes: 0,
            packets: 0,
            proto: 0,
            src_port: 0,
            dst_port: 0,
            in_if: 0,
            out_if: 0,
            tcp_flags: 0,
            post_nat_src_ipv4_address: none,
            post_nat_dst_ipv4_address: none,
            post_napt_src_transport_port: 0,
            post_napt_dst_transport_port: 0,
        }
    }
}

/// `flow_of`, folded up.
#[verifier::opaque]
spec fn flow_so_far(done: Seq<WireField>) -> FlowData {
    flow_of(done)
}

impl<'a> Flow<'a> {
    /// Takes over a varint field.
    fn set_varint(&mut self, number: u64, val: u64, Ghost(done): Ghost<Seq<WireField>>)
        requires
            old(self)@ == flow_so_far(done),
        ensures
            final(self)@ == flow_so_far(done.push(WireField { number, value: WireValue::Varint(val) })),
    {
        proof {
            reveal(flow_so_far);
            let next = done.push(WireField { number, value: WireValue::Varint(val) });
            assert(next.drop_last() == done);
        }
        match number {
            F_TIME_RECEIVED_NS => {
                self.time_received_ns = val as i64;
            },
            F_TIME_FLOW_START_NS => {
                self.time_flow_start_ns = val as i64;
            },
            F_TIME_FLOW_END_NS => {
                self.time_flow_end_ns = val as i64;
            },
            F_BYTES => {
                self.bytes = val as i64;
            },
            F_PACKETS => {
                self.packets = val as i64;
            },
            F_PROTO => {
                self.proto = val as u8;
            },
            F_SRC_PORT => {
                self.src_port = val as u32;
            },
            F_DST_PORT => {
                self.dst_port = val as u32;
            },
            F_IN_IF => {
                self.in_if = val as u32;
            },
            F_OUT_IF => {
                self.out_if = val as u32;
            },
            F_TCP_FLAGS => {
                self.tcp_flags = val as u32;
            },
            F_POST_NAPT_SRC_PORT => {
                self.post_napt_src_transport_port = val as u32;
            },
            F_POST_NAPT_DST_PORT => {
                self.post_napt_dst_transport_port = val as u32;
            },
            _ => {},
        }
    }

    /// Takes over a byte-string field.
    fn set_bytes(&mut self, number: u64, val: &'a [u8], Ghost(done): Ghost<Seq<WireField>>)
        requires
            old(self)@ == flow_so_far(done),
        ensures
            final(self)@ == flow_so_far(done.push(WireField { number, value: WireValue::Bytes(val@) })),
    {
        proof {
            reveal(flow_so_far);
            let next = done.push(WireField { number, value: WireValue::Bytes(val@) });
            assert(next.drop_last() == done);
        }
        match number {
            F_SAMPLER_ADDRESS => {
                self.sampler_address = val;
            },
            F_SRC_ADDR => {
                self.src_addr = val;
            },
            F_DST_ADDR => {
                self.dst_addr = val;
            },
            F_POST_NAT_SRC_IPV4 => {
                self.post_nat_src_ipv4_address = val;
            },
            F_POST_NAT_DST_IPV4 => {
                self.post_nat_dst_ipv4_address = val;
            },
            _ => {},
        }
    }
}

/// The fields in front of `at` are `done`: the message is those and whatever
/// fields follow.
#[verifier::opaque]
spec fn read_up_to(frame: Seq<u8>, at: int, done: Seq<WireField>) -> bool {
    match wire_fields(frame.skip(at)) {
        Some(rest) => wire_fields(frame) == Some(done + rest),
        None => wire_fields(frame) is None,
    }
}

proof fn lemma_read_none(frame: Seq<u8>)
    ensures
        read_up_to(frame, 0, Seq::empty()),
{
    reveal(read_up_to);
    assert(frame.skip(0) == frame);
    match wire_fields(frame) {
        Some(rest) => {
            assert(Seq::empty() + rest == rest);
        },
        None => {},
    }
}

proof fn lemma_read_one(frame: Seq<u8>, at: int, done: Seq<WireField>, field: WireField, n: nat)
    requires
        0 <= at < frame.len(),
        read_up_to(frame, at, done),
        decode_field(frame.skip(at)) == Some((field, n)),
    ensures
        read_up_to(frame, at + n, done.push(field)),
{
    reveal(read_up_to);
    law_field_length(frame.skip(at));
    assert(frame.skip(at).skip(n as int) == frame.skip(at + n));
    match wire_fields(frame.skip(at + n)) {
        Some(rest) => {
            assert(done + (seq![field] + rest) == done.push(field) + rest);
        },
        None => {},
    }
}

proof fn lemma_read_malformed(frame: Seq<u8>, at: int, done: Seq<WireField>)
    requires
        0 <= at < frame.len(),
        read_up_to(frame, at, done),
        decode_field(frame.skip(at)) is None,
    ensures
        decode_flow(frame) is None,
{
    reveal(read_up_to);
}

proof fn lemma_read_all(frame: Seq<u8>, done: Seq<WireField>)
    requires
        read_up_to(frame, frame.len() as int, done),
    ensures
        decode_flow(frame) == Some(flow_so_far(done)),
{
    reveal(read_up_to);
    reveal(flow_so_far);
    assert(done + Seq::empty() == done);
}

/// Reads a flow message without copying it. Fields the archive has no use for
/// are passed over, and so is a fixed-width field that the end of the message
/// cuts short.
pub fn scan_flow(frame: &[u8]) -> (res: Option<Flow<'_>>)
    ensures
        match decode_flow(frame@) {
            Some(data) => res matches Some(flow) && flow@ == data,
            None => res is None,
        },
{
    let mut flow = Flow::default();
    let mut offset: usize = 0;
    let ghost mut done: Seq<WireField> = Seq::empty();
    proof {
        reveal(flow_so_far);
        lemma_read_none(frame@);
    }
    while offset < frame.len()
        invariant
            offset <= frame.len(),
            flow@ == flow_so_far(done),
            read_up_to(frame@, offset as int, done),
        decreases frame.len() - offset,
    {
        let ghost s = frame@.skip(offset as int);
        let ghost at = offset;
        let ghost so_far = done;
        let (tag, consumed) = match read_varint(frame, offset) {
            Some(pair) => pair,
            None => {
                proof {
                    lemma_read_malformed(frame@, at as int, so_far);
                }
                return None;
            },
        };
        offset = offset + consumed;
        proof {
            law_varint_length(s);
            assert(s.skip(consumed as int) == frame@.skip(offset as int));
        }
        let ghost body = frame@.skip(offset as int);
        let field_num: u64 = tag >> 3;
        let wire_type: u64 = tag & 0x7;
        assert(tag >> 3 == tag / 8 && tag & 0x7 == tag % 8) by (bit_vector);
        let ghost mut field: WireField = arbitrary();
        match wire_type {
            0 => {
                let (val, consumed) = match read_varint(frame, offset) {
                    Some(pair) => pair,
                    None => {
                        proof {
                            lemma_read_malformed(frame@, at as int, so_far);
                        }
                        return None;
                    },
                };
                offset = offset + consumed;
                flow.set_varint(field_num, val, Ghost(done));
                proof {
                    field = WireField { number: field_num, value: WireValue::Varint(val) };
                }
            },
            1 => {
                proof {
                    field = WireField {
                        number: field_num,
                        value: WireValue::Fixed64(up_to(body, 8)),
                    };
                    lemma_skipped_field(done, field);
                }
                if frame.len() - offset < 8 {
                    offset = frame.len();
                } else {
                    offset = offset + 8;
                }
            },
            5 => {
                proof {
                    field = WireField {
                        number: field_num,
                        value: WireValue::Fixed32(up_to(body, 4)),
                    };
                    lemma_skipped_field(done, field);
                }
                if frame.len() - offset < 4 {
                    offset = frame.len();
                } else {
                    offset = offset + 4;
                }
            },
            2 => {
                let (len, consumed) = match read_varint(frame, offset) {
                    Some(pair) => pair,
                    None => {
                        proof {
                            lemma_read_malformed(frame@, at as int, so_far);
                        }
                        return None;
                    },
                };
                offset = offset + consumed;
                if len > (frame.len() - offset) as u64 {
                    proof {
                        lemma_read_malformed(frame@, at as int, so_far);
                    }
                    return None;
                }
                let end: usize = offset + len as usize;
                let slice = &frame[offset..end];
                assert(slice@ == body.subrange(consumed as int, consumed + len));
                flow.set_bytes(field_num, slice, Ghost(done));
                proof {
                    field = WireField { number: field_num, value: WireValue::Bytes(slice@) };
                }
                offset = end;
            },
            _ => {
                proof {
                    lemma_read_malformed(frame@, at as int, so_far);
                }
                return None;
            },
        }
        proof {
            assert(decode_field(s) == Some((field, (offset - at) as nat)));
            law_field_length(s);
            lemma_read_one(frame@, at as int, done, field, (offset - at) as nat);
            done = done.push(field);
        }
    }
    proof {
        lemma_read_all(frame@, done);
    }
    Some(flow)
}

/// A fixed-width field leaves the flow as it was.
proof fn lemma_skipped_field(done: Seq<WireField>, field: WireField)
    requires
        field.value is Fixed64 || field.value is Fixed32,
    ensures
        flow_so_far(done.push(field)) == flow_so_far(done),
{
    reveal(flow_so_far);
    assert(done.push(field).drop_last() == done);
}

/// Whether the archive keeps what a field says.
pub open spec fn is_kept(field: WireField) -> bool {
    match field.value {
        WireValue::Varint(_) => {
            ||| field.number == F_TIME_RECEIVED_NS
            ||| field.number == F_TIME_FLOW_START_NS
            ||| field.number == F_TIME_FLOW_END_NS
            ||| field.number == F_BYTES
            ||| field.number == F_PACKETS
            ||| field.number == F_PROTO
            ||| field.number == F_SRC_PORT
            ||| field.number == F_DST_PORT
            ||| field.number == F_IN_IF
            ||| field.number == F_OUT_IF
            ||| field.number == F_TCP_FLAGS
            ||| field.number == F_POST_NAPT_SRC_PORT
            ||| field.number == F_POST_NAPT_DST_PORT
        },
        WireValue::Bytes(_) => {
            ||| field.number == F_SAMPLER_ADDRESS
            ||| field.number == F_SRC_ADDR
            ||| field.number == F_DST_ADDR
            ||| field.number == F_POST_NAT_SRC_IPV4
            ||| field.number == F_POST_NAT_DST_IPV4
        },
        _ => false,
    }
}

/// A field the archive does not keep makes no difference to the flow, wherever
/// in the message it stands.
pub proof fn law_other_fields_ignored(
    before: Seq<WireField>,
    field: WireField,
    after: Seq<WireField>,
)
    requires
        !is_kept(field),
    ensures
        flow_of(before.push(field) + after) == flow_of(before + after),
    decreases after.len(),
{
    if after.len() == 0 {
        assert(before.push(field) + after == before.push(field));
        assert(before + after == before);
        assert(before.push(field).drop_last() == before);
    } else {
        law_other_fields_ignored(before, field, after.drop_last());
        assert((before.push(field) + after).drop_last() == before.push(field) + after.drop_last());
        assert((before + after).drop_last() == before + after.drop_last());
        assert((before.push(field) + after).last() == after.last());
        assert((before + after).last() == after.last());
    }
}

/// Whether a field stands on the wire in full: a fixed-width one has all its
/// bytes.
pub open spec fn is_whole(field: WireField) -> bool {
    match field.value {
        WireValue::Fixed64(b) => b.len() == 8,
        WireValue::Fixed32(b) => b.len() == 4,
        _ => true,
    }
}

proof fn lemma_decode_field_extend(s: Seq<u8>, t: Seq<u8>)
    requires
        decode_field(s) matches Some((f, n)) && is_whole(f),
    ensures
        decode_field(s + t) == decode_field(s),
{
    let (tag, n) = decode_varint(s).unwrap();
    law_varint_length(s);
    law_varint_prefix(s, t);
    let body = s.skip(n as int);
    assert((s + t).skip(n as int) == body + t);
    if tag % 8 == 0 {
        law_varint_prefix(body, t);
    } else if tag % 8 == 2 {
        law_varint_prefix(body, t);
        law_varint_length(body);
        let (len, m) = decode_varint(body).unwrap();
        assert((body + t).subrange(m as int, m + len) == body.subrange(m as int, m + len));
    } else if tag % 8 == 1 {
        assert(up_to(body + t, 8) == up_to(body, 8));
    } else {
        assert(up_to(body + t, 4) == up_to(body, 4));
    }
}

/// Messages merge by concatenation: after a message whose last field is not cut
/// short, further bytes read as further fields.
pub proof fn law_messages_concatenate(a: Seq<u8>, b: Seq<u8>)
    requires
        wire_fields(a) matches Some(fields) && forall|i: int|
            0 <= i < fields.len() ==> is_whole(#[trigger] fields[i]),
    ensures
        wire_fields(a + b) == match wire_fields(b) {
            Some(rest) => Some(wire_fields(a).unwrap() + rest),
            None => None,
        },
    decreases a.len(),
{
    let fields = wire_fields(a).unwrap();
    if a.len() == 0 {
        assert(a + b == b);
        match wire_fields(b) {
            Some(rest) => {
                assert(fields + rest == rest);
            },
            None => {},
        }
    } else {
        let (f, n) = decode_field(a).unwrap();
        let tail = wire_fields(a.skip(n as int)).unwrap();
        law_field_length(a);
        assert(fields[0] == f);
        assert forall|i: int| 0 <= i < tail.len() implies is_whole(#[trigger] tail[i]) by {
            assert(tail[i] == fields[i + 1]);
        }
        lemma_decode_field_extend(a, b);
        assert((a + b).skip(n as int) == a.skip(n as int) + b);
        law_messages_concatenate(a.skip(n as int), b);
        match wire_fields(b) {
            Some(rest) => {
                assert(seq![f] + (tail + rest) == fields + rest);
            },
            None => {},
        }
    }
}

/// The wire type of a value.
pub open spec fn wire_type_of(value: WireValue) -> nat {
    match value {
        WireValue::Varint(_) => 0,
        WireValue::Fixed64(_) => 1,
        WireValue::Bytes(_) => 2,
        WireValue::Fixed32(_) => 5,
    }
}

/// A field as a writer puts it on the wire.
pub open spec fn encode_field(field: WireField) -> Seq<u8> {
    encode_varint((field.number * 8 + wire_type_of(field.value)) as nat) + match field.value {
        WireValue::Varint(v) => encode_varint(v as nat),
        WireValue::Fixed64(b) => b,
        WireValue::Bytes(b) => encode_varint(b.len()) + b,
        WireValue::Fixed32(b) => b,
    }
}

/// A message as a writer puts it on the wire.
pub open spec fn encode_fields(fields: Seq<WireField>) -> Seq<u8>
    decreases fields.len(),
{
    if fields.len() == 0 {
        Seq::empty()
    } else {
        encode_fields(fields.drop_last()) + encode_field(fields.last())
    }
}

/// Whether a writer can put a field on the wire: its number leaves room for the
/// wire type in a 64-bit tag, its length fits a varint, its fixed-width value
/// has that width.
pub open spec fn is_writable(field: WireField) -> bool {
    &&& field.number < 0x2000_0000_0000_0000
    &&& is_whole(field)
    &&& field.value matches WireValue::Bytes(b) ==> b.len() <= u64::MAX
}

proof fn lemma_field_round_trip(field: WireField)
    requires
        is_writable(field),
    ensures
        wire_fields(encode_field(field)) == Some(seq![field]),
{
    let s = encode_field(field);
    let tag = (field.number * 8 + wire_type_of(field.value)) as u64;
    let head = encode_varint(tag as nat);
    let body = s.skip(head.len() as int);
    law_varint_round_trip(tag, body);
    assert(s == head + body);
    match field.value {
        WireValue::Varint(v) => {
            law_varint_round_trip(v, Seq::empty());
            assert(body == encode_varint(v as nat) + Seq::<u8>::empty());
        },
        WireValue::Bytes(b) => {
            law_varint_round_trip(b.len() as u64, b);
            let m = encode_varint(b.len()).len();
            assert(body == encode_varint(b.len()) + b);
            assert(body.subrange(m as int, (m + b.len()) as int) == b);
        },
        WireValue::Fixed64(b) => {
            assert(body == b);
        },
        WireValue::Fixed32(b) => {
            assert(body == b);
        },
    }
    assert(decode_field(s) == Some((field, s.len())));
    assert(s.skip(s.len() as int) == Seq::<u8>::empty());
    assert(wire_fields(s.skip(s.len() as int)) == Some(Seq::<WireField>::empty()));
    assert(seq![field] + Seq::<WireField>::empty() == seq![field]);
}

/// Scanning a message gives back the fields that were written into it.
pub proof fn law_message_round_trip(fields: Seq<WireField>)
    requires
        forall|i: int| 0 <= i < fields.len() ==> is_writable(#[trigger] fields[i]),
    ensures
        wire_fields(encode_fields(fields)) == Some(fields),
        decode_flow(encode_fields(fields)) == Some(flow_of(fields)),
    decreases fields.len(),
{
    if fields.len() == 0 {
        assert(fields == Seq::<WireField>::empty());
    } else {
        let front = fields.drop_last();
        assert forall|i: int| 0 <= i < front.len() implies is_writable(#[trigger] front[i]) by {
            assert(front[i] == fields[i]);
        }
        law_message_round_trip(front);
        assert forall|i: int| 0 <= i < front.len() implies is_whole(#[trigger] front[i]) by {
            assert(is_writable(front[i]));
        }
        lemma_field_round_trip(fields.last());
        law_messages_concatenate(encode_fields(front), encode_field(fields.last()));
        assert(front + seq![fields.last()] == fields);
    }
}

/// Whether `a` is a message none of whose fields is cut short, so that more fields can
/// follow.
pub open spec fn is_message(a: Seq<u8>) -> bool {
    wire_fields(a) matches Some(fields) && forall|i: int|
        0 <= i < fields.len() ==> is_whole(#[trigger] fields[i])
}

/// A message without fields is a flow of nothing.
pub proof fn law_empty_message()
    ensures
        is_message(Seq::empty()),
        decode_flow(Seq::empty()) matches Some(f) && {
            &&& f.time_received_ns == 0
            &&& f.time_flow_start_ns == 0
            &&& f.time_flow_end_ns == 0
            &&& f.bytes == 0
            &&& f.packets == 0
            &&& f.proto == 0
            &&& f.src_port == 0
            &&& f.dst_port == 0
            &&& f.in_if == 0
            &&& f.out_if == 0
            &&& f.tcp_flags == 0
            &&& f.post_napt_src_transport_port == 0
            &&& f.post_napt_dst_transport_port == 0
            &&& f.sampler_address.len() == 0
            &&& f.src_addr.len() == 0
            &&& f.dst_addr.len() == 0
            &&& f.post_nat_src_ipv4_address.len() == 0
            &&& f.post_nat_dst_ipv4_address.len() == 0
        },
{
}

/// One more field behind a message: the fields before it stay, and it is the last.
proof fn lemma_one_more(a: Seq<u8>, t: Seq<u8>, field: WireField)
    requires
        is_message(a),
        t.len() > 0,
        decode_field(t) == Some((field, t.len())),
    ensures
        wire_fields(a + t) == Some(wire_fields(a).unwrap().push(field)),
        decode_flow(a) == Some(flow_of(wire_fields(a).unwrap())),
        decode_flow(a + t) == Some(flow_of(wire_fields(a).unwrap().push(field))),
        is_whole(field) ==> is_message(a + t),
        wire_fields(a).unwrap().push(field).drop_last() == wire_fields(a).unwrap(),
{
    let fields = wire_fields(a).unwrap();
    let none = Seq::<WireField>::empty();
    assert(t.skip(t.len() as int) == Seq::<u8>::empty());
    assert(wire_fields(t.skip(t.len() as int)) == Some(none));
    assert(seq![field] + none == seq![field]);
    assert(wire_fields(t) == Some(seq![field]));
    law_messages_concatenate(a, t);
    assert(fields + seq![field] == fields.push(field));
    assert(fields.push(field).drop_last() == fields);
}

/// Behind a message, bytes that do not start with a field make it malformed.
proof fn lemma_bad_tail(a: Seq<u8>, t: Seq<u8>)
    requires
        is_message(a),
        t.len() > 0,
        decode_field(t) is None,
    ensures
        decode_flow(a + t) is None,
{
    law_messages_concatenate(a, t);
}

/// What a varint field behind a message changes: the number it is for, cut down to
/// that number's width, and nothing else. `h` is any spelling of the tag, `x` any
/// spelling of the value.
pub proof fn law_varint_field(a: Seq<u8>, h: Seq<u8>, tag: u64, x: Seq<u8>, v: u64)
    requires
        is_message(a),
        decode_varint(h) == Some((tag, h.len())),
        tag % 8 == 0,
        decode_varint(x) == Some((v, x.len())),
    ensures
        is_message(a + (h + x)),
        decode_flow(a) matches Some(f) && decode_flow(a + (h + x)) == Some(
            FlowData {
                time_received_ns: if tag / 8 == 110 {
                    v as i64
                } else {
                    f.time_received_ns
                },
                time_flow_start_ns: if tag / 8 == 111 {
                    v as i64
                } else {
                    f.time_flow_start_ns
                },
                time_flow_end_ns: if tag / 8 == 112 {
                    v as i64
                } else {
                    f.time_flow_end_ns
                },
                bytes: if tag / 8 == 9 {
                    v as i64
                } else {
                    f.bytes
                },
                packets: if tag / 8 == 10 {
                    v as i64
                } else {
                    f.packets
                },
                proto: if tag / 8 == 20 {
                    v as u8
                } else {
                    f.proto
                },
                src_port: if tag / 8 == 21 {
                    v as u32
                } else {
                    f.src_port
                },
                dst_port: if tag / 8 == 22 {
                    v as u32
                } else {
                    f.dst_port
                },
                in_if: if tag / 8 == 18 {
                    v as u32
                } else {
                    f.in_if
                },
                out_if: if tag / 8 == 19 {
                    v as u32
                } else {
                    f.out_if
                },
                tcp_flags: if tag / 8 == 26 {
                    v as u32
                } else {
                    f.tcp_flags
                },
                post_napt_src_transport_port: if tag / 8 == 2227 {
                    v as u32
                } else {
                    f.post_napt_src_transport_port
                },
                post_napt_dst_transport_port: if tag / 8 == 2228 {
                    v as u32
                } else {
                    f.post_napt_dst_transport_port
                },
                ..f
            },
        ),
{
    let t = h + x;
    let field = WireField { number: tag / 8, value: WireValue::Varint(v) };
    law_varint_length(h);
    law_varint_prefix(h, x);
    assert(t.skip(h.len() as int) == x);
    lemma_one_more(a, t, field);
}

/// What a byte-string field behind a message changes: the address it is for, and
/// nothing else. `l` is any spelling of its length.
pub proof fn law_bytes_field(a: Seq<u8>, h: Seq<u8>, tag: u64, l: Seq<u8>, b: Seq<u8>)
    requires
        is_message(a),
        decode_varint(h) == Some((tag, h.len())),
        tag % 8 == 2,
        b.len() <= u64::MAX,
        decode_varint(l) == Some((b.len() as u64, l.len())),
    ensures
        is_message(a + (h + (l + b))),
        decode_flow(a) matches Some(f) && decode_flow(a + (h + (l + b))) == Some(
            FlowData {
                sampler_address: if tag / 8 == 11 {
                    b
                } else {
                    f.sampler_address
                },
                src_addr: if tag / 8 == 6 {
                    b
                } else {
                    f.src_addr
                },
                dst_addr: if tag / 8 == 7 {
                    b
                } else {
                    f.dst_addr
                },
                post_nat_src_ipv4_address: if tag / 8 == 2225 {
                    b
                } else {
                    f.post_nat_src_ipv4_address
                },
                post_nat_dst_ipv4_address: if tag / 8 == 2226 {
                    b
                } else {
                    f.post_nat_dst_ipv4_address
                },
                ..f
            },
        ),
{
    let body = l + b;
    let t = h + body;
    let field = WireField { number: tag / 8, value: WireValue::Bytes(b) };
    law_varint_length(h);
    law_varint_prefix(h, body);
    law_varint_prefix(l, b);
    assert(t.skip(h.len() as int) == body);
    assert(body.subrange(l.len() as int, (l.len() + b.len()) as int) == b);
    lemma_one_more(a, t, field);
}

/// A field of eight or of four bytes behind a message changes nothing, and nor does
/// one that the end of the message cuts short.
pub proof fn law_fixed_field(a: Seq<u8>, h: Seq<u8>, tag: u64, b: Seq<u8>)
    requires
        is_message(a),
        decode_varint(h) == Some((tag, h.len())),
        tag % 8 == 1 && b.len() <= 8 || tag % 8 == 5 && b.len() <= 4,
    ensures
        decode_flow(a + (h + b)) == decode_flow(a),
        tag % 8 == 1 && b.len() == 8 || tag % 8 == 5 && b.len() == 4 ==> is_message(a + (h + b)),
{
    let t = h + b;
    let field = if tag % 8 == 1 {
        WireField { number: tag / 8, value: WireValue::Fixed64(b) }
    } else {
        WireField { number: tag / 8, value: WireValue::Fixed32(b) }
    };
    law_varint_length(h);
    law_varint_prefix(h, b);
    assert(t.skip(h.len() as int) == b);
    assert(up_to(b, 8) == b || b.len() > 8);
    lemma_one_more(a, t, field);
}

/// What makes a message malformed: a tag that does not end, a wire type that there is
/// not, a value or a length that does not end, and fewer bytes than a length
/// announces.
pub proof fn law_malformed(a: Seq<u8>, h: Seq<u8>, tag: u64, rest: Seq<u8>)
    requires
        is_message(a),
    ensures
        rest.len() > 0 && decode_varint(rest) is None ==> decode_flow(a + rest) is None,
        decode_varint(h) == Some((tag, h.len())) && (tag % 8 == 3 || tag % 8 == 4 || tag % 8 == 6
            || tag % 8 == 7) ==> decode_flow(a + (h + rest)) is None,
        decode_varint(h) == Some((tag, h.len())) && (tag % 8 == 0 || tag % 8 == 2) && decode_varint(
            rest,
        ) is None ==> decode_flow(a + (h + rest)) is None,
        decode_varint(h) == Some((tag, h.len())) && tag % 8 == 2 && (decode_varint(
            rest,
        ) matches Some((len, n)) && n + len > rest.len()) ==> decode_flow(a + (h + rest)) is None,
{
    if rest.len() > 0 && decode_varint(rest) is None {
        lemma_bad_tail(a, rest);
    }
    if decode_varint(h) == Some((tag, h.len())) {
        law_varint_length(h);
        law_varint_prefix(h, rest);
        assert((h + rest).skip(h.len() as int) == rest);
        if decode_field(h + rest) is None {
            lemma_bad_tail(a, h + rest);
        }
    }
}

proof fn lemma_last_varint(before: Seq<WireField>, number: u64, v: u64, after: Seq<WireField>)
    requires
        forall|i: int| 0 <= i < after.len() ==> (#[trigger] after[i]).number != number,
    ensures
        last_varint(
            before.push(WireField { number, value: WireValue::Varint(v) }) + after,
            number,
        ) == v,
    decreases after.len(),
{
    let field = WireField { number, value: WireValue::Varint(v) };
    let all = before.push(field) + after;
    if after.len() == 0 {
        assert(all == before.push(field));
    } else {
        lemma_last_varint(before, number, v, after.drop_last());
        assert(all.drop_last() == before.push(field) + after.drop_last());
        assert(all.last() == after[after.len() - 1]);
    }
}

proof fn lemma_last_bytes(before: Seq<WireField>, number: u64, b: Seq<u8>, after: Seq<WireField>)
    requires
        forall|i: int| 0 <= i < after.len() ==> (#[trigger] after[i]).number != number,
    ensures
        last_bytes(
            before.push(WireField { number, value: WireValue::Bytes(b) }) + after,
            number,
        ) == b,
    decreases after.len(),
{
    let field = WireField { number, value: WireValue::Bytes(b) };
    let all = before.push(field) + after;
    if after.len() == 0 {
        assert(all == before.push(field));
    } else {
        lemma_last_bytes(before, number, b, after.drop_last());
        assert(all.drop_last() == before.push(field) + after.drop_last());
        assert(all.last() == after[after.len() - 1]);
    }
}

/// A number that is written into a message, and not written again, is read as it was
/// written, if the field is wide enough for it.
pub proof fn law_number_comes_back(
    before: Seq<WireField>,
    number: u64,
    v: u64,
    after: Seq<WireField>,
)
    requires
        forall|i: int| 0 <= i < before.len() ==> is_writable(#[trigger] before[i]),
        forall|i: int| 0 <= i < after.len() ==> is_writable(#[trigger] after[i]),
        forall|i: int| 0 <= i < after.len() ==> (#[trigger] after[i]).number != number,
        number < 0x2000_0000_0000_0000,
    ensures
        decode_flow(
            encode_fields(before.push(WireField { number, value: WireValue::Varint(v) }) + after),
        ) matches Some(f) && {
            &&& number == 110 && v < 0x8000_0000_0000_0000 ==> f.time_received_ns as int == v as int
            &&& number == 111 && v < 0x8000_0000_0000_0000 ==> f.time_flow_start_ns as int == v as int
            &&& number == 112 && v < 0x8000_0000_0000_0000 ==> f.time_flow_end_ns as int == v as int
            &&& number == 9 && v < 0x8000_0000_0000_0000 ==> f.bytes as int == v as int
            &&& number == 10 && v < 0x8000_0000_0000_0000 ==> f.packets as int == v as int
            &&& number == 20 && v < 0x100 ==> f.proto as int == v as int
            &&& number == 21 && v < 0x1_0000_0000 ==> f.src_port as int == v as int
            &&& number == 22 && v < 0x1_0000_0000 ==> f.dst_port as int == v as int
            &&& number == 18 && v < 0x1_0000_0000 ==> f.in_if as int == v as int
            &&& number == 19 && v < 0x1_0000_0000 ==> f.out_if as int == v as int
            &&& number == 26 && v < 0x1_0000_0000 ==> f.tcp_flags as int == v as int
            &&& number == 2227 && v < 0x1_0000_0000 ==> f.post_napt_src_transport_port as int == v as int
            &&& number == 2228 && v < 0x1_0000_0000 ==> f.post_napt_dst_transport_port as int == v as int
        },
{
    let field = WireField { number, value: WireValue::Varint(v) };
    let all = before.push(field) + after;
    assert forall|i: int| 0 <= i < all.len() implies is_writable(#[trigger] all[i]) by {
        if i < before.len() {
            assert(all[i] == before[i]);
        } else if i > before.len() {
            assert(all[i] == after[i - before.len() - 1]);
        }
    }
    law_message_round_trip(all);
    lemma_last_varint(before, number, v, after);
}

/// An address that is written into a message, and not written again, is read as it was
/// written.
pub proof fn law_address_comes_back(
    before: Seq<WireField>,
    number: u64,
    b: Seq<u8>,
    after: Seq<WireField>,
)
    requires
        forall|i: int| 0 <= i < before.len() ==> is_writable(#[trigger] before[i]),
        forall|i: int| 0 <= i < after.len() ==> is_writable(#[trigger] after[i]),
        forall|i: int| 0 <= i < after.len() ==> (#[trigger] after[i]).number != number,
        number < 0x2000_0000_0000_0000,
        b.len() <= u64::MAX,
    ensures
        decode_flow(
            encode_fields(before.push(WireField { number, value: WireValue::Bytes(b) }) + after),
        ) matches Some(f) && {
            &&& number == 11 ==> f.sampler_address == b
            &&& number == 6 ==> f.src_addr == b
            &&& number == 7 ==> f.dst_addr == b
            &&& number == 2225 ==> f.post_nat_src_ipv4_address == b
            &&& number == 2226 ==> f.post_nat_dst_ipv4_address == b
        },
{
    let field = WireField { number, value: WireValue::Bytes(b) };
    let all = before.push(field) + after;
    assert forall|i: int| 0 <= i < all.len() implies is_writable(#[trigger] all[i]) by {
        if i < before.len() {
            assert(all[i] == before[i]);
        } else if i > before.len() {
            assert(all[i] == after[i - before.len() - 1]);
        }
    }
    law_message_round_trip(all);
    lemma_last_bytes(before, number, b, after);
}

} // verus!
