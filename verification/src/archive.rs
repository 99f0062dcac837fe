//! Flow records off a message queue, filed by the date on which they were received.

use vstd::prelude::*;

use crate::addr::{parse_ip, parsed_ip, IpAddr};
use crate::moment::{dated, lemma_day_of_second, rfc3339_moment, utc_date, Moment};
use crate::text::chars_of;

verus! {

/// A flow record as it is filed.
#[derive(Debug, Clone)]
pub struct GoflowNetflowRecord {
    /// The protocol it was exported by.
    pub flow_type: String,
    /// In the format of RFC 3339.
    pub time_received_ns: String,
    pub sequence_num: i64,
    pub sampling_rate: u32,
    pub sampler_address: String,
    pub time_flow_start_ns: i64,
    pub time_flow_end_ns: i64,
    pub bytes: i64,
    pub packets: i64,
    pub src_addr: IpAddr,
    pub src_net: String,
    pub dst_addr: IpAddr,
    pub dst_net: String,
    pub etype: String,
    pub proto: String,
    pub src_port: i32,
    pub dst_port: i32,
    pub in_if: u16,
    pub out_if: u16,
    pub src_mac: String,
    pub dst_mac: String,
    pub icmp_name: String,
    pub post_nat_src_ipv4_address: Option<String>,
    pub post_nat_dst_ipv4_address: Option<String>,
    pub post_napt_src_transport_port: Option<i32>,
    pub post_napt_dst_transport_port: Option<i32>,
}

/// A flow record as it comes off the queue: its addresses are text.
#[derive(Debug)]
pub struct QueuedRecord {
    pub flow_type: String,
    pub time_received_ns: String,
    pub sequence_num: i64,
    pub sampling_rate: u32,
    pub sampler_address: String,
    pub time_flow_start_ns: i64,
    pub time_flow_end_ns: i64,
    pub bytes: i64,
    pub packets: i64,
    pub src_addr: String,
    pub src_net: String,
    pub dst_addr: String,
    pub dst_net: String,
    pub etype: String,
    pub proto: String,
    pub src_port: i32,
    pub dst_port: i32,
    pub in_if: u16,
    pub out_if: u16,
    pub src_mac: String,
    pub dst_mac: String,
    pub icmp_name: String,
    pub post_nat_src_ipv4_address: Option<String>,
    pub post_nat_dst_ipv4_address: Option<String>,
    pub post_napt_src_transport_port: Option<i32>,
    pub post_napt_dst_transport_port: Option<i32>,
}

/// The date a record is filed under, in UTC; none if the time of its receipt cannot
/// be read.
pub open spec fn date_received(r: QueuedRecord) -> Option<Seq<char>> {
    match rfc3339_moment(r.time_received_ns@) {
        Some((secs, nanos)) => Some(utc_date(secs)),
        None => None,
    }
}

/// The record with the given addresses in place of their text.
pub open spec fn with_addresses(
    r: QueuedRecord,
    src_addr: IpAddr,
    dst_addr: IpAddr,
) -> GoflowNetflowRecord {
    GoflowNetflowRecord {
        flow_type: r.flow_type,
        time_received_ns: r.time_received_ns,
        sequence_num: r.sequence_num,
        sampling_rate: r.sampling_rate,
        sampler_address: r.sampler_address,
        time_flow_start_ns: r.time_flow_start_ns,
        time_flow_end_ns: r.time_flow_end_ns,
        bytes: r.bytes,
        packets: r.packets,
        src_addr,
        src_net: r.src_net,
        dst_addr,
        dst_net: r.dst_net,
        etype: r.etype,
        proto: r.proto,
        src_port: r.src_port,
        dst_port: r.dst_port,
        in_if: r.in_if,
        out_if: r.out_if,
        src_mac: r.src_mac,
        dst_mac: r.dst_mac,
        icmp_name: r.icmp_name,
        post_nat_src_ipv4_address: r.post_nat_src_ipv4_address,
        post_nat_dst_ipv4_address: r.post_nat_dst_ipv4_address,
        post_napt_src_transport_port: r.post_napt_src_transport_port,
        post_napt_dst_transport_port: r.post_napt_dst_transport_port,
    }
}

/// The record as it is filed; none if one of its addresses cannot be read.
pub open spec fn filed_record(r: QueuedRecord) -> Option<GoflowNetflowRecord> {
    match (parsed_ip(r.src_addr@), parsed_ip(r.dst_addr@)) {
        (Some(src_addr), Some(dst_addr)) => Some(with_addresses(r, src_addr, dst_addr)),
        _ => None,
    }
}

/// What becomes of a record.
#[derive(Debug)]
pub enum Disposition {
    /// It is passed over: there is no telling when it was received.
    Skip,
    /// It cannot be filed: an address in it is none.
    BadAddress,
    /// It is filed under the date.
    File { date: String, record: GoflowNetflowRecord },
}

/// Decides what becomes of a record, given when it was received, if that can be
/// told.
pub fn dispose_at(received: Option<Moment>, r: QueuedRecord) -> (res: Disposition)
    ensures
        match received {
            None => res is Skip,
            Some(at) => match filed_record(r) {
                None => res is BadAddress,
                Some(filed) => res matches Disposition::File { date, record } && date@ == utc_date(
                    at.secs(),
                ) && record == filed,
            },
        },
{
    let at = match received {
        Some(at) => at,
        None => return Disposition::Skip,
    };
    let src = chars_of(r.src_addr.as_str());
    let dst = chars_of(r.dst_addr.as_str());
    match (parse_ip(src.as_slice()), parse_ip(dst.as_slice())) {
        (Some(src_addr), Some(dst_addr)) => {
            let record = GoflowNetflowRecord {
                flow_type: r.flow_type,
                time_received_ns: r.time_received_ns,
                sequence_num: r.sequence_num,
                sampling_rate: r.sampling_rate,
                sampler_address: r.sampler_address,
                time_flow_start_ns: r.time_flow_start_ns,
                time_flow_end_ns: r.time_flow_end_ns,
                bytes: r.bytes,
                packets: r.packets,
                src_addr,
                src_net: r.src_net,
                dst_addr,
                dst_net: r.dst_net,
                etype: r.etype,
                proto: r.proto,
                src_port: r.src_port,
                dst_port: r.dst_port,
                in_if: r.in_if,
                out_if: r.out_if,
                src_mac: r.src_mac,
                dst_mac: r.dst_mac,
                icmp_name: r.icmp_name,
                post_nat_src_ipv4_address: r.post_nat_src_ipv4_address,
                post_nat_dst_ipv4_address: r.post_nat_dst_ipv4_address,
                post_napt_src_transport_port: r.post_napt_src_transport_port,
                post_napt_dst_transport_port: r.post_napt_dst_transport_port,
            };
            Disposition::File { date: at.date(), record }
        },
        _ => Disposition::BadAddress,
    }
}

/// Decides what becomes of a record.
pub fn dispose(r: QueuedRecord) -> (res: Disposition)
    ensures
        match date_received(r) {
            None => res is Skip,
            Some(day) => match filed_record(r) {
                None => res is BadAddress,
                Some(filed) => res matches Disposition::File { date, record } && date@ == day
                    && record == filed,
            },
        },
{
    let received = Moment::parse(r.time_received_ns.as_str());
    dispose_at(received, r)
}

/// The records of one date, in the order in which they came.
#[derive(Debug)]
pub struct Day {
    pub date: String,
    pub records: Vec<GoflowNetflowRecord>,
}

/// Records by date.
pub struct Archive {
    days: Vec<Day>,
}

/// Whether one of the days has this date.
pub open spec fn has_date(days: Seq<Day>, date: Seq<char>) -> bool {
    exists|i: int| 0 <= i < days.len() && (#[trigger] days[i]).date@ == date
}

/// The records of the first of the days that has this date.
pub open spec fn records_on(days: Seq<Day>, date: Seq<char>) -> Seq<GoflowNetflowRecord> {
    days[first_with(days, date, 0)].records@
}

/// Where, from `i` on, the date first stands among the days.
pub open spec fn first_with(days: Seq<Day>, date: Seq<char>, i: int) -> int
    decreases days.len() - i,
{
    if i < 0 || i >= days.len() || days[i].date@ == date {
        i
    } else {
        first_with(days, date, i + 1)
    }
}

/// The records of the days, by date.
pub open spec fn by_date(days: Seq<Day>) -> Map<Seq<char>, Seq<GoflowNetflowRecord>> {
    Map::new(|date: Seq<char>| has_date(days, date), |date: Seq<char>| records_on(days, date))
}

/// Whether no date stands twice.
pub open spec fn are_distinct(days: Seq<Day>) -> bool {
    forall|i: int, j: int|
        0 <= i < j < days.len() ==> (#[trigger] days[i]).date@ != (#[trigger] days[j]).date@
}

/// What is filed under the date with one more record.
pub open spec fn with_record(
    filed: Map<Seq<char>, Seq<GoflowNetflowRecord>>,
    date: Seq<char>,
    record: GoflowNetflowRecord,
) -> Map<Seq<char>, Seq<GoflowNetflowRecord>> {
    filed.insert(
        date,
        if filed.dom().contains(date) {
            filed[date].push(record)
        } else {
            seq![record]
        },
    )
}

proof fn lemma_first_with(days: Seq<Day>, date: Seq<char>, from: int, i: int)
    requires
        are_distinct(days),
        0 <= from <= i < days.len(),
        days[i].date@ == date,
    ensures
        first_with(days, date, from) == i,
    decreases i - from,
{
    if from < i {
        assert(days[from].date@ != days[i].date@);
        lemma_first_with(days, date, from + 1, i);
    }
}

/// Among days of different dates, each day's records are those of its date.
pub proof fn law_each_date_once(days: Seq<Day>)
    requires
        are_distinct(days),
    ensures
        forall|i: int|
            0 <= i < days.len() ==> by_date(days).contains_pair(
                (#[trigger] days[i]).date@,
                days[i].records@,
            ),
{
    assert forall|i: int| 0 <= i < days.len() implies by_date(days).contains_pair(
        (#[trigger] days[i]).date@,
        days[i].records@,
    ) by {
        lemma_first_with(days, days[i].date@, 0, i);
    }
}

impl View for Archive {
    type V = Map<Seq<char>, Seq<GoflowNetflowRecord>>;

    /// The records of each date that has any, in the order in which they came.
    closed spec fn view(&self) -> Map<Seq<char>, Seq<GoflowNetflowRecord>> {
        by_date(self.days@)
    }
}

/// Adding to one day's records changes those of no other date.
proof fn lemma_day_grows(days: Seq<Day>, i: int, after: Seq<Day>, record: GoflowNetflowRecord)
    requires
        are_distinct(days),
        0 <= i < days.len(),
        after.len() == days.len(),
        after[i].date@ == days[i].date@,
        after[i].records@ == days[i].records@.push(record),
        forall|j: int| 0 <= j < days.len() && j != i ==> after[j] == days[j],
    ensures
        are_distinct(after),
        by_date(after) == with_record(by_date(days), days[i].date@, record),
{
    assert forall|j: int, k: int| 0 <= j < k < after.len() implies (#[trigger] after[j]).date@ != (
    #[trigger] after[k]).date@ by {
        assert(days[j].date@ != days[k].date@);
    }
    let got = by_date(after);
    let want = with_record(by_date(days), days[i].date@, record);
    assert forall|date: Seq<char>| #[trigger] got.dom().contains(date) == want.dom().contains(
        date,
    ) by {
        lemma_same_dates(days, after, date);
        assert(has_date(days, days[i].date@));
    }
    assert forall|date: Seq<char>| #[trigger] got.dom().contains(date) implies got[date]
        == want[date] by {
        let j = choose|j: int| 0 <= j < after.len() && (#[trigger] after[j]).date@ == date;
        lemma_first_with(after, date, 0, j);
        lemma_first_with(days, date, 0, j);
        assert(has_date(days, days[i].date@));
        assert(has_date(days, days[j].date@));
        if j != i {
            assert(days[j].date@ != days[i].date@) by {
                if j < i {
                    assert(days[j].date@ != days[i].date@);
                } else {
                    assert(days[i].date@ != days[j].date@);
                }
            }
        }
    }
    assert(got =~= want);
}

proof fn lemma_same_dates(days: Seq<Day>, after: Seq<Day>, date: Seq<char>)
    requires
        after.len() == days.len(),
        forall|j: int| 0 <= j < days.len() ==> (#[trigger] after[j]).date@ == days[j].date@,
    ensures
        has_date(after, date) == has_date(days, date),
{
    if has_date(after, date) {
        let j = choose|j: int| 0 <= j < after.len() && (#[trigger] after[j]).date@ == date;
        assert(days[j].date@ == date);
    }
    if has_date(days, date) {
        let j = choose|j: int| 0 <= j < days.len() && (#[trigger] days[j]).date@ == date;
        assert(after[j].date@ == date);
    }
}

proof fn lemma_new_day(days: Seq<Day>, day: Day, record: GoflowNetflowRecord)
    requires
        are_distinct(days),
        !has_date(days, day.date@),
        day.records@ == seq![record],
    ensures
        are_distinct(days.push(day)),
        by_date(days.push(day)) == with_record(by_date(days), day.date@, record),
{
    let after = days.push(day);
    let n = days.len() as int;
    assert(after[n].date@ == day.date@);
    assert(has_date(after, day.date@));
    assert forall|j: int, k: int| 0 <= j < k < after.len() implies (#[trigger] after[j]).date@ != (
    #[trigger] after[k]).date@ by {
        assert(after[j] == days[j]);
        if k < n {
            assert(days[j].date@ != days[k].date@);
        }
    }
    let got = by_date(after);
    let want = with_record(by_date(days), day.date@, record);
    assert forall|date: Seq<char>| #[trigger] got.dom().contains(date) == want.dom().contains(
        date,
    ) by {
        if has_date(after, date) {
            let j = choose|j: int| 0 <= j < after.len() && (#[trigger] after[j]).date@ == date;
            if j < n {
                assert(days[j].date@ == date);
            }
        }
        if has_date(days, date) {
            let j = choose|j: int| 0 <= j < days.len() && (#[trigger] days[j]).date@ == date;
            assert(after[j].date@ == date);
        }
    }
    assert forall|date: Seq<char>| #[trigger] got.dom().contains(date) implies got[date]
        == want[date] by {
        let j = choose|j: int| 0 <= j < after.len() && (#[trigger] after[j]).date@ == date;
        lemma_first_with(after, date, 0, j);
        if j < n {
            assert(days[j].date@ == date);
            lemma_first_with(days, date, 0, j);
            assert(has_date(days, date));
        }
    }
    assert(got =~= want);
}

/// What an archive did with a record.
#[derive(Debug, Clone, Copy, PartialEq, Eq, Structural)]
pub enum Taken {
    /// It is filed.
    Filed,
    /// It is left: there is no telling when it was received.
    Skipped,
    /// It is left: an address in it is none.
    BadAddress,
}

/// What is filed after one more record off the queue.
pub open spec fn after_record(
    filed: Map<Seq<char>, Seq<GoflowNetflowRecord>>,
    r: QueuedRecord,
) -> Map<Seq<char>, Seq<GoflowNetflowRecord>> {
    match (date_received(r), filed_record(r)) {
        (Some(date), Some(record)) => with_record(filed, date, record),
        _ => filed,
    }
}

/// What is filed after the given records off the queue.
pub open spec fn after_records(all: Seq<QueuedRecord>) -> Map<
    Seq<char>,
    Seq<GoflowNetflowRecord>,
>
    decreases all.len(),
{
    if all.len() == 0 {
        Map::empty()
    } else {
        after_record(after_records(all.drop_last()), all.last())
    }
}

/// The records among these that were received on the date and can be filed, in
/// order.
pub open spec fn received_on(all: Seq<QueuedRecord>, date: Seq<char>) -> Seq<GoflowNetflowRecord>
    decreases all.len(),
{
    if all.len() == 0 {
        Seq::empty()
    } else {
        let before = received_on(all.drop_last(), date);
        match filed_record(all.last()) {
            Some(record) if date_received(all.last()) == Some(date) => before.push(record),
            _ => before,
        }
    }
}

/// Under each date are filed the records that were received on it, all of them and
/// no others, in the order in which they came; and there is nothing under other
/// dates.
pub proof fn law_filed_by_date(all: Seq<QueuedRecord>, date: Seq<char>)
    ensures
        after_records(all).dom().contains(date) <==> received_on(all, date).len() > 0,
        after_records(all).dom().contains(date) ==> after_records(all)[date] == received_on(
            all,
            date,
        ),
    decreases all.len(),
{
    if all.len() > 0 {
        law_filed_by_date(all.drop_last(), date);
        let before = received_on(all.drop_last(), date);
        if let Some(record) = filed_record(all.last()) {
            if before.len() == 0 {
                assert(before.push(record) =~= seq![record]);
            }
        }
    }
}

impl Archive {
    #[verifier::type_invariant]
    spec fn inv(self) -> bool {
        are_distinct(self.days@)
    }

    /// An archive without records.
    pub fn new() -> (archive: Archive)
        ensures
            archive@ == Map::<Seq<char>, Seq<GoflowNetflowRecord>>::empty(),
    {
        let archive = Archive { days: Vec::new() };
        assert(archive@ =~= Map::empty());
        archive
    }

    /// Files a record under the date.
    pub fn file(&mut self, date: String, record: GoflowNetflowRecord)
        ensures
            final(self)@ == with_record(old(self)@, date@, record),
    {
        proof {
            use_type_invariant(&*self);
        }
        let ghost before = self.days@;
        let mut days: Vec<Day> = Vec::new();
        std::mem::swap(&mut days, &mut self.days);
        let mut i: usize = 0;
        while i < days.len() && days[i].date != date
            invariant
                i <= days@.len(),
                days@ == before,
                forall|j: int| 0 <= j < i ==> (#[trigger] before[j]).date@ != date@,
            decreases days.len() - i,
        {
            i = i + 1;
        }
        if i < days.len() {
            days[i].records.push(record);
            proof {
                lemma_day_grows(before, i as int, days@, record);
            }
        } else {
            days.push(Day { date, records: vec![record] });
            proof {
                assert(days@.last().records@ =~= seq![record]);
                lemma_new_day(before, days@.last(), record);
            }
        }
        self.days = days;
    }

    /// Takes in a record off the queue: files it under the date on which it was
    /// received, or leaves it.
    pub fn take_in(&mut self, r: QueuedRecord) -> (taken: Taken)
        ensures
            taken == (match (date_received(r), filed_record(r)) {
                (None, _) => Taken::Skipped,
                (Some(_), None) => Taken::BadAddress,
                (Some(_), Some(_)) => Taken::Filed,
            }),
            final(self)@ == after_record(old(self)@, r),
    {
        match dispose(r) {
            Disposition::Skip => Taken::Skipped,
            Disposition::BadAddress => Taken::BadAddress,
            Disposition::File { date, record } => {
                self.file(date, record);
                Taken::Filed
            },
        }
    }

    /// The days that have records.
    pub fn into_days(self) -> (days: Vec<Day>)
        ensures
            are_distinct(days@),
            by_date(days@) == self@,
    {
        proof {
            use_type_invariant(&self);
        }
        self.days
    }
}

/// The file that the records of a date go into.
pub fn file_name(date: &str) -> (name: String)
    ensures
        name@ == "output/"@ + date@ + ".json"@,
{
    let mut name = String::new();
    name.append("output/");
    name.append(date);
    name.append(".json");
    assert(name@ =~= "output/"@ + date@ + ".json"@);
    name
}


/// A filed record says what the queued one says, field by field; only the addresses are
/// read, and are those that their text names. It is filed exactly if both can be read.
pub proof fn law_filed_record(r: QueuedRecord)
    ensures
        filed_record(r) is Some <==> parsed_ip(r.src_addr@) is Some && parsed_ip(
            r.dst_addr@,
        ) is Some,
        filed_record(r) matches Some(g) ==> {
            &&& parsed_ip(r.src_addr@) == Some(g.src_addr)
            &&& parsed_ip(r.dst_addr@) == Some(g.dst_addr)
            &&& g.flow_type == r.flow_type
            &&& g.time_received_ns == r.time_received_ns
            &&& g.sequence_num == r.sequence_num
            &&& g.sampling_rate == r.sampling_rate
            &&& g.sampler_address == r.sampler_address
            &&& g.time_flow_start_ns == r.time_flow_start_ns
            &&& g.time_flow_end_ns == r.time_flow_end_ns
            &&& g.bytes == r.bytes
            &&& g.packets == r.packets
            &&& g.src_net == r.src_net
            &&& g.dst_net == r.dst_net
            &&& g.etype == r.etype
            &&& g.proto == r.proto
            &&& g.src_port == r.src_port
            &&& g.dst_port == r.dst_port
            &&& g.in_if == r.in_if
            &&& g.out_if == r.out_if
            &&& g.src_mac == r.src_mac
            &&& g.dst_mac == r.dst_mac
            &&& g.icmp_name == r.icmp_name
            &&& g.post_nat_src_ipv4_address == r.post_nat_src_ipv4_address
            &&& g.post_nat_dst_ipv4_address == r.post_nat_dst_ipv4_address
            &&& g.post_napt_src_transport_port == r.post_napt_src_transport_port
            &&& g.post_napt_dst_transport_port == r.post_napt_dst_transport_port
        },
{
}

/// A record is filed under the day, in UTC, that the second of its receipt lies in, and
/// is passed over exactly if that time cannot be read.
pub proof fn law_filed_day(r: QueuedRecord)
    ensures
        date_received(r) is None <==> rfc3339_moment(r.time_received_ns@) is None,
        rfc3339_moment(r.time_received_ns@) matches Some((secs, nanos)) ==> exists|day: int|
            86_400 * day <= secs < 86_400 * (day + 1) && date_received(r) == Some(
                #[trigger] dated(day),
            ),
{
    if let Some((secs, nanos)) = rfc3339_moment(r.time_received_ns@) {
        lemma_day_of_second(secs);
    }
}

/// Taking in records one by one files each that can be filed behind those of its date,
/// and touches no other date.
pub proof fn law_one_more_filed(
    filed: Map<Seq<char>, Seq<GoflowNetflowRecord>>,
    r: QueuedRecord,
    other: Seq<char>,
)
    ensures
        ({
            let after = after_record(filed, r);
            &&& date_received(r) is None || filed_record(r) is None ==> after == filed
            &&& date_received(r) != Some(other) ==> after.dom().contains(other)
                == filed.dom().contains(other) && (filed.dom().contains(other) ==> after[other]
                == filed[other])
            &&& date_received(r) == Some(other) && filed_record(r) is Some ==> {
                &&& after.dom().contains(other)
                &&& after[other].len() > 0 && Some(after[other].last()) == filed_record(r)
                &&& after[other].drop_last() == if filed.dom().contains(other) {
                    filed[other]
                } else {
                    Seq::empty()
                }
            }
        }),
{
    if let Some(record) = filed_record(r) {
        if filed.dom().contains(other) {
            assert(filed[other].push(record).drop_last() =~= filed[other]);
        }
        assert(seq![record].drop_last() =~= Seq::empty());
    }
}

/// A date has records exactly if there is a day of that date.
pub proof fn law_dates_of_days(days: Seq<Day>, date: Seq<char>)
    ensures
        by_date(days).dom().contains(date) <==> exists|i: int|
            0 <= i < days.len() && (#[trigger] days[i]).date@ == date,
{
}

} // verus!
