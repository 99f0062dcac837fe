//! Which network an address belongs to: a public table of address ranges, and a
//! list of overrides that is looked at first.

use std::io::Read;

use flate2::read::GzDecoder;
use ipnet::{IpNet, Ipv4Net, Ipv6Net};

use vstd::arithmetic::power2::pow2;
use vstd::prelude::*;

use crate::addr::{parse_ip, parsed_ip, IpAddr};
use crate::order::{arranged, is_stable_order, law_order_lists_all, precedes, stable_order};
use crate::text::{
    chars_of, lines, parsed_u32, pieces_view, read_u32, split, split_at, split_lines, string_of,
};

verus! {

/// An autonomous system: its number, country and organization.
pub struct AsnInfo {
    pub asn: u32,
    pub country: String,
    pub org: String,
}

/// An autonomous system, as plain values.
pub struct AsnData {
    pub asn: u32,
    pub country: Seq<char>,
    pub org: Seq<char>,
}

impl View for AsnInfo {
    type V = AsnData;

    open spec fn view(&self) -> AsnData {
        AsnData { asn: self.asn, country: self.country@, org: self.org@ }
    }
}

impl Clone for AsnInfo {
    fn clone(&self) -> (res: AsnInfo)
        ensures
            res@ == self@,
    {
        AsnInfo { asn: self.asn, country: self.country.clone(), org: self.org.clone() }
    }
}

/// A block of addresses: those that begin with the same bits as `addr`, as many
/// as `prefix_len` says. The other bits of `addr` are of no account.
#[derive(Debug, Clone, Copy, PartialEq, Eq, Structural)]
pub struct Network {
    pub addr: IpAddr,
    pub prefix_len: u8,
}

impl Network {
    /// Whether the prefix is no longer than an address.
    pub open spec fn wf(self) -> bool {
        match self.addr {
            IpAddr::V4(_) => self.prefix_len <= 32,
            IpAddr::V6(_) => self.prefix_len <= 128,
        }
    }

    /// Whether the address lies in the block.
    pub open spec fn covers(self, ip: IpAddr) -> bool {
        match (self.addr, ip) {
            (IpAddr::V4(a), IpAddr::V4(b)) => {
                let rest = pow2((32 - self.prefix_len) as nat);
                a as nat / rest == b as nat / rest
            },
            (IpAddr::V6(a), IpAddr::V6(b)) => {
                let rest = pow2((128 - self.prefix_len) as nat);
                a as nat / rest == b as nat / rest
            },
            _ => false,
        }
    }

    /// The block, if the prefix is no longer than an address.
    pub fn new(addr: IpAddr, prefix_len: u8) -> (res: Option<Network>)
        ensures
            res == (if (Network { addr, prefix_len }).wf() {
                Some(Network { addr, prefix_len })
            } else {
                None
            }),
    {
        let longest: u8 = match addr {
            IpAddr::V4(_) => 32,
            IpAddr::V6(_) => 128,
        };
        if prefix_len <= longest {
            Some(Network { addr, prefix_len })
        } else {
            None
        }
    }

    /// `IpNet::contains` of an address: it lies in the block if it is of the same
    /// family and its bits up to the prefix length are those of the block.
    #[verifier::external_body]
    fn contains(&self, ip: IpAddr) -> (res: bool)
        requires
            self.wf(),
        ensures
            res == self.covers(ip),
    {
        let net = |addr: IpAddr, prefix_len: u8| match addr {
            IpAddr::V4(a) => IpNet::V4(Ipv4Net::new_assert(a.into(), prefix_len)),
            IpAddr::V6(a) => IpNet::V6(Ipv6Net::new_assert(a.into(), prefix_len)),
        };
        net(self.addr, self.prefix_len).contains(&net(ip, 0).addr())
    }
}

/// An override, as its file lists it.
pub struct OverrideEntry {
    pub network: Network,
    pub asn: u32,
    pub organization: String,
    pub country_code: String,
}

/// An override: a block of addresses and whose they are.
pub struct Override {
    pub network: Network,
    pub info: AsnData,
}

/// A range of addresses, both ends included, as numbers, and whose they are.
pub struct RangeData {
    pub start: u128,
    pub end: u128,
    pub info: AsnData,
}

struct Range {
    start: u128,
    end: u128,
    info: AsnInfo,
}

impl View for Range {
    type V = RangeData;

    closed spec fn view(&self) -> RangeData {
        RangeData { start: self.start, end: self.end, info: self.info@ }
    }
}

spec fn ranges_view(ranges: Seq<Range>) -> Seq<RangeData> {
    ranges.map_values(|r: Range| r@)
}

struct OverrideItem {
    network: Network,
    info: AsnInfo,
}

impl View for OverrideItem {
    type V = Override;

    closed spec fn view(&self) -> Override {
        Override { network: self.network, info: self.info@ }
    }
}

spec fn overrides_view(items: Seq<OverrideItem>) -> Seq<Override> {
    items.map_values(|o: OverrideItem| o@)
}

/// What a line of the public table says: two addresses, and whose the range
/// between them is. The columns are the first and the last address, the number,
/// the country and the organization, with tabs between them; further columns are
/// of no account. A line that has fewer, or whose addresses or number cannot be
/// read, says nothing, nor does one with the number zero, which stands for
/// addresses that nobody routes.
pub open spec fn parsed_line(line: Seq<char>) -> Option<(IpAddr, IpAddr, AsnData)> {
    let columns = split(line, '\t');
    if columns.len() < 5 {
        None
    } else {
        match (parsed_ip(columns[0]), parsed_ip(columns[1]), parsed_u32(columns[2])) {
            (Some(start), Some(end), Some(asn)) if asn != 0 => Some(
                (start, end, AsnData { asn, country: columns[3], org: columns[4] }),
            ),
            _ => None,
        }
    }
}

/// The IPv4 range of a line, if it says one.
pub open spec fn v4_range(line: Seq<char>) -> Option<RangeData> {
    match parsed_line(line) {
        Some((IpAddr::V4(s), IpAddr::V4(e), info)) => Some(
            RangeData { start: s as u128, end: e as u128, info },
        ),
        _ => None,
    }
}

/// The IPv6 range of a line, if it says one.
pub open spec fn v6_range(line: Seq<char>) -> Option<RangeData> {
    match parsed_line(line) {
        Some((IpAddr::V6(s), IpAddr::V6(e), info)) => Some(
            RangeData { start: s, end: e, info },
        ),
        _ => None,
    }
}

/// The IPv4 ranges that the lines say, in order.
pub open spec fn v4_ranges(all: Seq<Seq<char>>) -> Seq<RangeData>
    decreases all.len(),
{
    if all.len() == 0 {
        Seq::empty()
    } else {
        match v4_range(all.last()) {
            Some(r) => v4_ranges(all.drop_last()).push(r),
            None => v4_ranges(all.drop_last()),
        }
    }
}

/// The IPv6 ranges that the lines say, in order.
pub open spec fn v6_ranges(all: Seq<Seq<char>>) -> Seq<RangeData>
    decreases all.len(),
{
    if all.len() == 0 {
        Seq::empty()
    } else {
        match v6_range(all.last()) {
            Some(r) => v6_ranges(all.drop_last()).push(r),
            None => v6_ranges(all.drop_last()),
        }
    }
}

/// The starts of the ranges.
pub open spec fn starts(ranges: Seq<RangeData>) -> Seq<u128> {
    ranges.map_values(|r: RangeData| r.start)
}

/// What the overrides are sorted by: the longer the prefix, the smaller it is.
pub open spec fn specificity(overrides: Seq<Override>) -> Seq<u128> {
    overrides.map_values(|o: Override| (255 - o.network.prefix_len) as u128)
}

/// The overrides that the entries say, in order.
pub open spec fn overrides_of(entries: Seq<OverrideEntry>) -> Seq<Override> {
    entries.map_values(
        |e: OverrideEntry|
            Override {
                network: e.network,
                info: AsnData { asn: e.asn, country: e.country_code@, org: e.organization@ },
            },
    )
}

/// Whether `sorted` holds the items of `s`, sorted by the given keys of theirs,
/// items with the same key in the order in which they came.
pub open spec fn is_sorted_by<T>(sorted: Seq<T>, s: Seq<T>, keys: Seq<u128>) -> bool {
    exists|order: Seq<usize>| #[trigger]
        is_stable_order(order, keys) && sorted == arranged(s, order)
}

/// What a database holds: overrides and ranges, in the order in which they are
/// looked at.
pub struct AsnDbData {
    pub overrides: Seq<Override>,
    pub v4: Seq<RangeData>,
    pub v6: Seq<RangeData>,
}

/// The first override that covers the address.
pub open spec fn first_covering(overrides: Seq<Override>, ip: IpAddr) -> Option<AsnData>
    decreases overrides.len(),
{
    if overrides.len() == 0 {
        None
    } else if overrides[0].network.covers(ip) {
        Some(overrides[0].info)
    } else {
        first_covering(overrides.skip(1), ip)
    }
}

/// Whose the address is by the last range that starts at it or before it; nobody's
/// if that range ends before it.
pub open spec fn last_range(ranges: Seq<RangeData>, key: u128) -> Option<AsnData>
    decreases ranges.len(),
{
    if ranges.len() == 0 {
        None
    } else if ranges.last().start <= key {
        if key <= ranges.last().end {
            Some(ranges.last().info)
        } else {
            None
        }
    } else {
        last_range(ranges.drop_last(), key)
    }
}

impl AsnDbData {
    /// Whose the address is: the overrides are looked at first, then the ranges.
    pub open spec fn lookup(self, ip: IpAddr) -> Option<AsnData> {
        match first_covering(self.overrides, ip) {
            Some(info) => Some(info),
            None => match ip {
                IpAddr::V4(a) => last_range(self.v4, a as u128),
                IpAddr::V6(a) => last_range(self.v6, a),
            },
        }
    }

    /// Whether this is what the given text and entries make.
    pub open spec fn is_of(self, text: Seq<char>, entries: Seq<OverrideEntry>) -> bool {
        let v4 = v4_ranges(lines(text));
        let v6 = v6_ranges(lines(text));
        let overrides = overrides_of(entries);
        &&& is_sorted_by(self.v4, v4, starts(v4))
        &&& is_sorted_by(self.v6, v6, starts(v6))
        &&& is_sorted_by(self.overrides, overrides, specificity(overrides))
    }
}

fn read_line(line: &[char]) -> (res: Option<(IpAddr, IpAddr, AsnInfo)>)
    ensures
        match parsed_line(line@) {
            Some((start, end, info)) => res matches Some((s, e, i)) && s == start && e == end && i@
                == info,
            None => res is None,
        },
{
    let columns = split_at(line, '\t');
    if columns.len() < 5 {
        return None;
    }
    let ghost all = pieces_view(columns@);
    assert(forall|i: int| 0 <= i < all.len() ==> all[i] == columns@[i]@);
    match (parse_ip(columns[0]), parse_ip(columns[1]), read_u32(columns[2])) {
        (Some(start), Some(end), Some(asn)) => {
            if asn == 0 {
                return None;
            }
            let info = AsnInfo { asn, country: string_of(columns[3]), org: string_of(columns[4]) };
            Some((start, end, info))
        },
        _ => None,
    }
}

/// The ranges that the lines say, by family.
fn read_ranges(all: &Vec<&[char]>) -> (res: (Vec<Range>, Vec<Range>))
    ensures
        ranges_view(res.0@) == v4_ranges(pieces_view(all@)),
        ranges_view(res.1@) == v6_ranges(pieces_view(all@)),
{
    let ghost text = pieces_view(all@);
    let mut v4: Vec<Range> = Vec::new();
    let mut v6: Vec<Range> = Vec::new();
    let mut i: usize = 0;
    assert(text.take(0) =~= Seq::empty());
    assert(ranges_view(Seq::empty()) =~= Seq::empty());
    while i < all.len()
        invariant
            i <= all@.len(),
            text == pieces_view(all@),
            ranges_view(v4@) == v4_ranges(text.take(i as int)),
            ranges_view(v6@) == v6_ranges(text.take(i as int)),
        decreases all.len() - i,
    {
        let ghost before4 = v4@;
        let ghost before6 = v6@;
        proof {
            assert(text.take(i + 1).drop_last() =~= text.take(i as int));
            assert(text.take(i + 1).last() == all@[i as int]@);
        }
        match read_line(all[i]) {
            Some((IpAddr::V4(s), IpAddr::V4(e), info)) => {
                v4.push(Range { start: s as u128, end: e as u128, info });
                assert(ranges_view(v4@) =~= ranges_view(before4).push(v4@.last()@));
            },
            Some((IpAddr::V6(s), IpAddr::V6(e), info)) => {
                v6.push(Range { start: s, end: e, info });
                assert(ranges_view(v6@) =~= ranges_view(before6).push(v6@.last()@));
            },
            _ => {},
        }
        i = i + 1;
    }
    assert(text.take(i as int) =~= text);
    (v4, v6)
}

fn sort_ranges(ranges: &Vec<Range>) -> (res: Vec<Range>)
    ensures
        is_sorted_by(ranges_view(res@), ranges_view(ranges@), starts(ranges_view(ranges@))),
{
    let mut keys: Vec<u128> = Vec::new();
    let mut i: usize = 0;
    while i < ranges.len()
        invariant
            i == keys@.len() <= ranges@.len(),
            forall|j: int| 0 <= j < i ==> keys@[j] == ranges@[j].start,
        decreases ranges.len() - i,
    {
        keys.push(ranges[i].start);
        i = i + 1;
    }
    assert(keys@ =~= starts(ranges_view(ranges@)));
    let order = stable_order(&keys);
    let mut res: Vec<Range> = Vec::new();
    i = 0;
    while i < order.len()
        invariant
            i == res@.len() <= order@.len(),
            is_stable_order(order@, keys@),
            keys@.len() == ranges@.len(),
            forall|j: int| 0 <= j < i ==> (#[trigger] res@[j])@ == ranges@[order@[j] as int]@,
        decreases order.len() - i,
    {
        let r = &ranges[order[i]];
        res.push(Range { start: r.start, end: r.end, info: r.info.clone() });
        i = i + 1;
    }
    assert(ranges_view(res@) =~= arranged(ranges_view(ranges@), order@));
    res
}

fn sort_overrides(entries: &Vec<OverrideEntry>) -> (res: Vec<OverrideItem>)
    ensures
        is_sorted_by(
            overrides_view(res@),
            overrides_of(entries@),
            specificity(overrides_of(entries@)),
        ),
{
    let mut keys: Vec<u128> = Vec::new();
    let mut i: usize = 0;
    while i < entries.len()
        invariant
            i == keys@.len() <= entries@.len(),
            forall|j: int| 0 <= j < i ==> keys@[j] == 255 - entries@[j].network.prefix_len,
        decreases entries.len() - i,
    {
        keys.push((255 - entries[i].network.prefix_len) as u128);
        i = i + 1;
    }
    assert(keys@ =~= specificity(overrides_of(entries@)));
    let order = stable_order(&keys);
    let mut res: Vec<OverrideItem> = Vec::new();
    i = 0;
    while i < order.len()
        invariant
            i == res@.len() <= order@.len(),
            is_stable_order(order@, keys@),
            keys@.len() == entries@.len(),
            forall|j: int|
                0 <= j < i ==> (#[trigger] res@[j])@ == overrides_of(entries@)[order@[j] as int],
        decreases order.len() - i,
    {
        let e = &entries[order[i]];
        let info = AsnInfo {
            asn: e.asn,
            country: e.country_code.clone(),
            org: e.organization.clone(),
        };
        res.push(OverrideItem { network: e.network, info });
        i = i + 1;
    }
    assert(overrides_view(res@) =~= arranged(overrides_of(entries@), order@));
    res
}

/// Whose addresses are whose.
pub struct AsnDb {
    overrides: Vec<OverrideItem>,
    v4: Vec<Range>,
    v6: Vec<Range>,
}

impl View for AsnDb {
    type V = AsnDbData;

    closed spec fn view(&self) -> AsnDbData {
        AsnDbData {
            overrides: overrides_view(self.overrides@),
            v4: ranges_view(self.v4@),
            v6: ranges_view(self.v6@),
        }
    }
}

spec fn is_ascending(ranges: Seq<Range>) -> bool {
    forall|i: int, j: int|
        0 <= i <= j < ranges.len() ==> (#[trigger] ranges[i]).start <= (#[trigger] ranges[j]).start
}

proof fn lemma_sorted_ascends(res: Seq<Range>, ranges: Seq<RangeData>)
    requires
        is_sorted_by(ranges_view(res), ranges, starts(ranges)),
    ensures
        is_ascending(res),
{
    let keys = starts(ranges);
    let order = choose|order: Seq<usize>| #[trigger]
        is_stable_order(order, keys) && ranges_view(res) == arranged(ranges, order);
    assert(order.len() == ranges_view(res).len() == res.len());
    assert forall|i: int, j: int| 0 <= i <= j < res.len() implies (#[trigger] res[i]).start <= (
    #[trigger] res[j]).start by {
        assert(ranges_view(res)[i] == ranges[order[i] as int]);
        assert(ranges_view(res)[j] == ranges[order[j] as int]);
        if i < j {
            assert(precedes(keys, order[i] as int, order[j] as int));
        }
    }
}

/// Finds whose the address is among ranges that ascend.
fn find_range(ranges: &Vec<Range>, key: u128) -> (res: Option<AsnInfo>)
    requires
        is_ascending(ranges@),
    ensures
        match last_range(ranges_view(ranges@), key) {
            Some(info) => res matches Some(i) && i@ == info,
            None => res is None,
        },
{
    let mut low: usize = 0;
    let mut high: usize = ranges.len();
    while low < high
        invariant
            low <= high <= ranges@.len(),
            is_ascending(ranges@),
            forall|i: int| 0 <= i < low ==> (#[trigger] ranges@[i]).start <= key,
            forall|i: int| high <= i < ranges@.len() ==> (#[trigger] ranges@[i]).start > key,
        decreases high - low,
    {
        let mid: usize = low + (high - low) / 2;
        if ranges[mid].start <= key {
            low = mid + 1;
        } else {
            high = mid;
        }
    }
    proof {
        lemma_last_range(ranges@, key, low as int);
    }
    if low == 0 {
        return None;
    }
    let r = &ranges[low - 1];
    if key <= r.end {
        Some(r.info.clone())
    } else {
        None
    }
}

proof fn lemma_last_range(ranges: Seq<Range>, key: u128, k: int)
    requires
        0 <= k <= ranges.len(),
        k > 0 ==> ranges[k - 1].start <= key,
        forall|i: int| k <= i < ranges.len() ==> (#[trigger] ranges[i]).start > key,
    ensures
        last_range(ranges_view(ranges), key) == if k > 0 && key <= ranges[k - 1].end {
            Some(ranges[k - 1].info@)
        } else {
            None
        },
    decreases ranges.len(),
{
    let view = ranges_view(ranges);
    if ranges.len() > 0 {
        assert(view.last() == ranges.last()@);
        assert(view.drop_last() =~= ranges_view(ranges.drop_last()));
        if k < ranges.len() {
            assert(ranges[ranges.len() - 1].start > key);
            lemma_last_range(ranges.drop_last(), key, k);
        }
    }
}

/// A table of ranges that could not be read.
pub enum LoadError {
    /// It is not a gzip file of text.
    Gzip(std::io::Error),
}

/// The error of std's input and output.
#[verifier::external_type_specification]
#[verifier::external_body]
pub struct ExIoError(std::io::Error);

/// The text that is packed in a gzip file; none if it is not one, or if what is in
/// it is not UTF-8.
pub uninterp spec fn gunzipped(bytes: Seq<u8>) -> Option<Seq<char>>;

/// `GzDecoder`, read to the end as a text: what it gives depends on nothing but the
/// bytes.
#[verifier::external_body]
fn gunzip(bytes: &[u8]) -> (res: Result<String, std::io::Error>)
    ensures
        match res {
            Ok(text) => gunzipped(bytes@) == Some(text@),
            Err(_) => gunzipped(bytes@) is None,
        },
{
    let mut text = String::new();
    GzDecoder::new(bytes).read_to_string(&mut text)?;
    Ok(text)
}

impl AsnDb {
    #[verifier::type_invariant]
    spec fn inv(self) -> bool {
        &&& is_ascending(self.v4@)
        &&& is_ascending(self.v6@)
        &&& forall|i: int|
            0 <= i < self.overrides@.len() ==> (#[trigger] self.overrides@[i]).network.wf()
    }

    /// The database that a gzip file of ranges and a list of overrides make.
    pub fn load(ip2asn_tsv_gz: &[u8], overrides: &Vec<OverrideEntry>) -> (res: Result<
        AsnDb,
        LoadError,
    >)
        requires
            forall|i: int|
                0 <= i < overrides@.len() ==> (#[trigger] overrides@[i]).network.wf(),
        ensures
            match gunzipped(ip2asn_tsv_gz@) {
                Some(text) => res matches Ok(db) && db@.is_of(text, overrides@),
                None => res matches Err(e) && e is Gzip,
            },
    {
        match gunzip(ip2asn_tsv_gz) {
            Ok(text) => Ok(AsnDb::from_text(text.as_str(), overrides)),
            Err(e) => Err(LoadError::Gzip(e)),
        }
    }

    /// The database that a table of ranges and a list of overrides make: ranges by
    /// where they start, and the overrides with the longest prefix first, so that a
    /// more specific one wins over a broader one.
    pub fn from_text(text: &str, overrides: &Vec<OverrideEntry>) -> (db: AsnDb)
        requires
            forall|i: int|
                0 <= i < overrides@.len() ==> (#[trigger] overrides@[i]).network.wf(),
        ensures
            db@.is_of(text@, overrides@),
    {
        let chars = chars_of(text);
        let (v4, v6) = read_ranges(&split_lines(chars.as_slice()));
        let sorted4 = sort_ranges(&v4);
        let sorted6 = sort_ranges(&v6);
        let sorted = sort_overrides(overrides);
        proof {
            lemma_sorted_ascends(sorted4@, ranges_view(v4@));
            lemma_sorted_ascends(sorted6@, ranges_view(v6@));
            lemma_networks_stay(sorted@, overrides@);
        }
        AsnDb { overrides: sorted, v4: sorted4, v6: sorted6 }
    }

    /// How many IPv4 ranges, IPv6 ranges and overrides there are.
    pub fn sizes(&self) -> (res: (usize, usize, usize))
        ensures
            res.0 == self@.v4.len(),
            res.1 == self@.v6.len(),
            res.2 == self@.overrides.len(),
    {
        (self.v4.len(), self.v6.len(), self.overrides.len())
    }

    /// Whose the address is: the overrides are looked at first, then the ranges.
    pub fn lookup(&self, ip: IpAddr) -> (res: Option<AsnInfo>)
        ensures
            match self@.lookup(ip) {
                Some(info) => res matches Some(i) && i@ == info,
                None => res is None,
            },
    {
        proof {
            use_type_invariant(self);
        }
        let ghost all = self@.overrides;
        let mut i: usize = 0;
        assert(all.skip(0) =~= all);
        while i < self.overrides.len()
            invariant
                i <= self.overrides@.len(),
                all == overrides_view(self.overrides@),
                first_covering(all, ip) == first_covering(all.skip(i as int), ip),
                all == self@.overrides,
                forall|i: int|
                    0 <= i < self.overrides@.len() ==> (
                    #[trigger] self.overrides@[i]).network.wf(),
            decreases self.overrides.len() - i,
        {
            proof {
                assert(all.skip(i as int)[0] == self.overrides@[i as int]@);
                assert(all.skip(i as int).skip(1) =~= all.skip(i + 1));
            }
            if self.overrides[i].network.contains(ip) {
                return Some(self.overrides[i].info.clone());
            }
            i = i + 1;
        }
        assert(all.skip(i as int) =~= Seq::empty());
        match ip {
            IpAddr::V4(a) => find_range(&self.v4, a as u128),
            IpAddr::V6(a) => find_range(&self.v6, a),
        }
    }
}

proof fn lemma_networks_stay(items: Seq<OverrideItem>, entries: Seq<OverrideEntry>)
    requires
        is_sorted_by(
            overrides_view(items),
            overrides_of(entries),
            specificity(overrides_of(entries)),
        ),
        forall|i: int| 0 <= i < entries.len() ==> (#[trigger] entries[i]).network.wf(),
    ensures
        forall|i: int| 0 <= i < items.len() ==> (#[trigger] items[i]).network.wf(),
{
    let all = overrides_of(entries);
    let order = choose|order: Seq<usize>| #[trigger]
        is_stable_order(order, specificity(all)) && overrides_view(items) == arranged(all, order);
    assert(order.len() == overrides_view(items).len() == items.len());
    assert forall|i: int| 0 <= i < items.len() implies (#[trigger] items[i]).network.wf() by {
        assert(overrides_view(items)[i] == all[order[i] as int]);
        assert(entries[order[i] as int].network.wf());
    }
}

/// Whether the override at `w` is the one that decides about the address: it covers
/// it, none that covers it has a longer prefix, and none as long stands before it.
pub open spec fn decides(overrides: Seq<Override>, ip: IpAddr, w: int) -> bool {
    &&& 0 <= w < overrides.len()
    &&& overrides[w].network.covers(ip)
    &&& forall|j: int|
        0 <= j < overrides.len() && (#[trigger] overrides[j]).network.covers(ip) ==> {
            ||| overrides[j].network.prefix_len < overrides[w].network.prefix_len
            ||| overrides[j].network.prefix_len == overrides[w].network.prefix_len && w <= j
        }
}

proof fn lemma_first_covering(overrides: Seq<Override>, ip: IpAddr, k: int)
    requires
        0 <= k <= overrides.len(),
        forall|j: int| 0 <= j < k ==> !(#[trigger] overrides[j]).network.covers(ip),
        k < overrides.len() ==> overrides[k].network.covers(ip),
    ensures
        first_covering(overrides, ip) == if k < overrides.len() {
            Some(overrides[k].info)
        } else {
            None
        },
    decreases overrides.len(),
{
    if k > 0 {
        assert(!overrides[0].network.covers(ip));
        let rest = overrides.skip(1);
        assert forall|j: int| 0 <= j < k - 1 implies !(#[trigger] rest[j]).network.covers(ip) by {
            assert(rest[j] == overrides[j + 1]);
        }
        lemma_first_covering(rest, ip, k - 1);
    }
}

/// The override that decides about an address decides over the whole table of
/// ranges, and the more specific override wins: of those that cover the address,
/// the one with the longest prefix, and of several of that length the one that
/// stands first in the list.
pub proof fn law_override_decides(
    db: AsnDbData,
    text: Seq<char>,
    entries: Seq<OverrideEntry>,
    ip: IpAddr,
    w: int,
)
    requires
        db.is_of(text, entries),
        decides(overrides_of(entries), ip, w),
    ensures
        db.lookup(ip) == Some(overrides_of(entries)[w].info),
{
    let all = overrides_of(entries);
    let keys = specificity(all);
    let order = choose|order: Seq<usize>| #[trigger]
        is_stable_order(order, keys) && db.overrides == arranged(all, order);
    assert(is_stable_order(order, keys) && db.overrides == arranged(all, order));
    law_order_lists_all(order, keys, w);
    let p = choose|p: int| 0 <= p < order.len() && #[trigger] order[p] == w;
    assert(db.overrides[p] == all[w]);
    assert forall|q: int| 0 <= q < p implies !(#[trigger] db.overrides[q]).network.covers(ip) by {
        assert(precedes(keys, order[q] as int, order[p] as int));
        assert(db.overrides[q] == all[order[q] as int]);
    }
    lemma_first_covering(db.overrides, ip, p);
}

/// Where no override covers an address, the ranges alone decide.
pub proof fn law_no_override(
    db: AsnDbData,
    text: Seq<char>,
    entries: Seq<OverrideEntry>,
    ip: IpAddr,
)
    requires
        db.is_of(text, entries),
        forall|j: int|
            0 <= j < entries.len() ==> !(#[trigger] entries[j]).network.covers(ip),
    ensures
        db.lookup(ip) == match ip {
            IpAddr::V4(a) => last_range(db.v4, a as u128),
            IpAddr::V6(a) => last_range(db.v6, a),
        },
{
    let all = overrides_of(entries);
    let keys = specificity(all);
    let order = choose|order: Seq<usize>| #[trigger]
        is_stable_order(order, keys) && db.overrides == arranged(all, order);
    assert(is_stable_order(order, keys) && db.overrides == arranged(all, order));
    assert forall|q: int| 0 <= q < db.overrides.len() implies !(
    #[trigger] db.overrides[q]).network.covers(ip) by {
        assert(db.overrides[q] == all[order[q] as int]);
        assert(!entries[order[q] as int].network.covers(ip));
    }
    lemma_first_covering(db.overrides, ip, db.overrides.len() as int);
}

/// Whether the range holds the address.
pub open spec fn holds(r: RangeData, key: u128) -> bool {
    r.start <= key <= r.end
}

/// Whether no address is in two of the ranges.
pub open spec fn are_disjoint(ranges: Seq<RangeData>) -> bool {
    forall|i: int, j: int, key: u128|
        0 <= i < ranges.len() && 0 <= j < ranges.len() && i != j && #[trigger] holds(ranges[i], key)
            ==> !#[trigger] holds(ranges[j], key)
}

/// In a table whose ranges do not overlap and are not turned round, the range that
/// holds an address is found, wherever in the table it stands, and none is found
/// that does not hold it.
pub proof fn law_range_found(sorted: Seq<RangeData>, ranges: Seq<RangeData>, key: u128)
    requires
        is_sorted_by(sorted, ranges, starts(ranges)),
        are_disjoint(ranges),
        forall|i: int| 0 <= i < ranges.len() ==> (#[trigger] ranges[i]).start <= ranges[i].end,
    ensures
        forall|i: int|
            0 <= i < ranges.len() && #[trigger] holds(ranges[i], key) ==> last_range(sorted, key)
                == Some(ranges[i].info),
        (forall|i: int| 0 <= i < ranges.len() ==> !#[trigger] holds(ranges[i], key)) ==> last_range(
            sorted,
            key,
        ) is None,
{
    let keys = starts(ranges);
    let order = choose|order: Seq<usize>| #[trigger]
        is_stable_order(order, keys) && sorted == arranged(ranges, order);
    assert(is_stable_order(order, keys) && sorted == arranged(ranges, order));
    assert(order.len() == sorted.len());
    assert forall|p: int, q: int| 0 <= p < q < sorted.len() implies (#[trigger] sorted[p]).start <= (
    #[trigger] sorted[q]).start by {
        assert(precedes(keys, order[p] as int, order[q] as int));
    }
    let n = lemma_last_start(sorted, key);
    assert forall|i: int| 0 <= i < ranges.len() && #[trigger] holds(ranges[i], key) implies last_range(
        sorted,
        key,
    ) == Some(ranges[i].info) by {
        law_order_lists_all(order, keys, i);
        let p = choose|p: int| 0 <= p < order.len() && #[trigger] order[p] == i;
        assert(sorted[p] == ranges[i]);
        assert(n > p);
        if n - 1 != p {
            // A range that starts between would share its start with this one.
            let last = sorted[n - 1];
            let other = order[n - 1] as int;
            assert(precedes(keys, order[p] as int, other));
            assert(last == ranges[other]);
            assert(holds(ranges[other], last.start));
            assert(holds(ranges[i], last.start));
        }
    }
    if forall|i: int| 0 <= i < ranges.len() ==> !#[trigger] holds(ranges[i], key) {
        if n > 0 {
            assert(sorted[n - 1] == ranges[order[n - 1] as int]);
            assert(!holds(ranges[order[n - 1] as int], key));
        }
    }
}

/// How many of the ascending ranges start at the address or before it.
proof fn lemma_last_start(sorted: Seq<RangeData>, key: u128) -> (n: int)
    requires
        forall|p: int, q: int|
            0 <= p < q < sorted.len() ==> (#[trigger] sorted[p]).start <= (
            #[trigger] sorted[q]).start,
    ensures
        0 <= n <= sorted.len(),
        n > 0 ==> sorted[n - 1].start <= key,
        forall|i: int| n <= i < sorted.len() ==> (#[trigger] sorted[i]).start > key,
        last_range(sorted, key) == if n > 0 && key <= sorted[n - 1].end {
            Some(sorted[n - 1].info)
        } else {
            None
        },
    decreases sorted.len(),
{
    if sorted.len() == 0 {
        0
    } else if sorted.last().start <= key {
        sorted.len() as int
    } else {
        let front = sorted.drop_last();
        assert forall|p: int, q: int| 0 <= p < q < front.len() implies (#[trigger] front[p]).start
            <= (#[trigger] front[q]).start by {
            assert(sorted[p].start <= sorted[q].start);
        }
        let n = lemma_last_start(front, key);
        assert forall|i: int| n <= i < sorted.len() implies (#[trigger] sorted[i]).start > key by {
            if i < front.len() {
                assert(front[i].start > key);
            }
        }
        n
    }
}

/// What a line says of IPv4 addresses: exactly a line of at least five columns, whose first
/// two are such addresses and whose third is a number other than zero, says a range, from
/// the one address to the other. It belongs to the system of that number, with the country
/// in the fourth column and the organization in the fifth.
pub proof fn law_v4_line(line: Seq<char>)
    ensures
        ({
            let columns = split(line, '\t');
            &&& v4_range(line) is Some <==> columns.len() >= 5 && parsed_ip(
                columns[0],
            ) is Some && parsed_ip(columns[0])->0 is V4 && parsed_ip(columns[1]) is Some && parsed_ip(
                columns[1],
            )->0 is V4 && parsed_u32(columns[2]) is Some && parsed_u32(columns[2]) != Some(0u32)
            &&& v4_range(line) matches Some(r) ==> {
                &&& parsed_ip(columns[0]) == Some(IpAddr::V4(r.start as u32))
                &&& parsed_ip(columns[1]) == Some(IpAddr::V4(r.end as u32))
                &&& r.start <= u32::MAX && r.end <= u32::MAX
                &&& parsed_u32(columns[2]) == Some(r.info.asn)
                &&& r.info.country == columns[3]
                &&& r.info.org == columns[4]
            }
        }),
{
}

/// Ranges are taken from the lines one by one, in order.
pub proof fn law_v4_lines_in_order(all: Seq<Seq<char>>, line: Seq<char>)
    ensures
        v4_ranges(Seq::empty()).len() == 0,
        v4_range(line) is None ==> v4_ranges(all.push(line)) == v4_ranges(all),
        v4_range(line) matches Some(r) ==> v4_ranges(all.push(line)) == v4_ranges(all).push(r),
{
    assert(all.push(line).drop_last() == all);
}

proof fn lemma_v4_line_listed(all: Seq<Seq<char>>, k: int)
    requires
        0 <= k < all.len(),
        v4_range(all[k]) is Some,
    ensures
        exists|i: int|
            0 <= i < v4_ranges(all).len() && #[trigger] v4_ranges(all)[i] == v4_range(all[k])->0,
    decreases all.len(),
{
    let front = all.drop_last();
    if k == all.len() - 1 {
        assert(v4_ranges(all)[v4_ranges(front).len() as int] == v4_range(all[k])->0);
    } else {
        lemma_v4_line_listed(front, k);
        assert(front[k] == all[k]);
        let i = choose|i: int|
            0 <= i < v4_ranges(front).len() && #[trigger] v4_ranges(front)[i] == v4_range(
                front[k],
            )->0;
        assert(v4_ranges(all)[i] == v4_ranges(front)[i]);
    }
}

/// What a line says of IPv6 addresses: exactly a line of at least five columns, whose first
/// two are such addresses and whose third is a number other than zero, says a range, from
/// the one address to the other. It belongs to the system of that number, with the country
/// in the fourth column and the organization in the fifth.
pub proof fn law_v6_line(line: Seq<char>)
    ensures
        ({
            let columns = split(line, '\t');
            &&& v6_range(line) is Some <==> columns.len() >= 5 && parsed_ip(
                columns[0],
            ) is Some && parsed_ip(columns[0])->0 is V6 && parsed_ip(columns[1]) is Some && parsed_ip(
                columns[1],
            )->0 is V6 && parsed_u32(columns[2]) is Some && parsed_u32(columns[2]) != Some(0u32)
            &&& v6_range(line) matches Some(r) ==> {
                &&& parsed_ip(columns[0]) == Some(IpAddr::V6(r.start))
                &&& parsed_ip(columns[1]) == Some(IpAddr::V6(r.end))
                &&& parsed_u32(columns[2]) == Some(r.info.asn)
                &&& r.info.country == columns[3]
                &&& r.info.org == columns[4]
            }
        }),
{
}

/// Ranges are taken from the lines one by one, in order.
pub proof fn law_v6_lines_in_order(all: Seq<Seq<char>>, line: Seq<char>)
    ensures
        v6_ranges(Seq::empty()).len() == 0,
        v6_range(line) is None ==> v6_ranges(all.push(line)) == v6_ranges(all),
        v6_range(line) matches Some(r) ==> v6_ranges(all.push(line)) == v6_ranges(all).push(r),
{
    assert(all.push(line).drop_last() == all);
}

proof fn lemma_v6_line_listed(all: Seq<Seq<char>>, k: int)
    requires
        0 <= k < all.len(),
        v6_range(all[k]) is Some,
    ensures
        exists|i: int|
            0 <= i < v6_ranges(all).len() && #[trigger] v6_ranges(all)[i] == v6_range(all[k])->0,
    decreases all.len(),
{
    let front = all.drop_last();
    if k == all.len() - 1 {
        assert(v6_ranges(all)[v6_ranges(front).len() as int] == v6_range(all[k])->0);
    } else {
        lemma_v6_line_listed(front, k);
        assert(front[k] == all[k]);
        let i = choose|i: int|
            0 <= i < v6_ranges(front).len() && #[trigger] v6_ranges(front)[i] == v6_range(
                front[k],
            )->0;
        assert(v6_ranges(all)[i] == v6_ranges(front)[i]);
    }
}

/// Looking up an address in a table of ranges that do not overlap and are not turned
/// round, where no override covers it: the line whose range the address lies in answers,
/// with its own number, country and organization.
pub proof fn law_lookup_by_line(
    db: AsnDbData,
    text: Seq<char>,
    entries: Seq<OverrideEntry>,
    k: int,
    start: IpAddr,
    end: IpAddr,
    asn: u32,
    ip: IpAddr,
)
    requires
        db.is_of(text, entries),
        forall|j: int| 0 <= j < entries.len() ==> !(#[trigger] entries[j]).network.covers(ip),
        are_disjoint(v4_ranges(lines(text))),
        are_disjoint(v6_ranges(lines(text))),
        forall|i: int|
            0 <= i < v4_ranges(lines(text)).len() ==> (#[trigger] v4_ranges(lines(text))[i]).start
                <= v4_ranges(lines(text))[i].end,
        forall|i: int|
            0 <= i < v6_ranges(lines(text)).len() ==> (#[trigger] v6_ranges(lines(text))[i]).start
                <= v6_ranges(lines(text))[i].end,
        0 <= k < lines(text).len(),
        split(lines(text)[k], '\t').len() >= 5,
        parsed_ip(split(lines(text)[k], '\t')[0]) == Some(start),
        parsed_ip(split(lines(text)[k], '\t')[1]) == Some(end),
        parsed_u32(split(lines(text)[k], '\t')[2]) == Some(asn),
        asn != 0,
        match (start, ip, end) {
            (IpAddr::V4(s), IpAddr::V4(a), IpAddr::V4(e)) => s <= a <= e,
            (IpAddr::V6(s), IpAddr::V6(a), IpAddr::V6(e)) => s <= a <= e,
            _ => false,
        },
    ensures
        db.lookup(ip) matches Some(info) && info.asn == asn && info.country == split(
            lines(text)[k],
            '\t',
        )[3] && info.org == split(lines(text)[k], '\t')[4],
{
    let all = lines(text);
    law_no_override(db, text, entries, ip);
    match ip {
        IpAddr::V4(a) => {
            lemma_v4_line_listed(all, k);
            law_range_found(db.v4, v4_ranges(all), a as u128);
            let i = choose|i: int|
                0 <= i < v4_ranges(all).len() && #[trigger] v4_ranges(all)[i] == v4_range(
                    all[k],
                )->0;
            assert(holds(v4_ranges(all)[i], a as u128));
        },
        IpAddr::V6(a) => {
            lemma_v6_line_listed(all, k);
            law_range_found(db.v6, v6_ranges(all), a);
            let i = choose|i: int|
                0 <= i < v6_ranges(all).len() && #[trigger] v6_ranges(all)[i] == v6_range(
                    all[k],
                )->0;
            assert(holds(v6_ranges(all)[i], a));
        },
    }
}

/// Whichever ranges there are: the one with the greatest start that is not beyond the
/// address decides, of several with the same start the last in the table, and it answers
/// exactly if it reaches to the address. Without such a range there is no answer.
pub proof fn law_last_start_decides(
    sorted: Seq<RangeData>,
    ranges: Seq<RangeData>,
    key: u128,
    w: int,
)
    requires
        is_sorted_by(sorted, ranges, starts(ranges)),
    ensures
        0 <= w < ranges.len() && ranges[w].start <= key && (forall|j: int|
            0 <= j < ranges.len() && (#[trigger] ranges[j]).start <= key ==> ranges[j].start
                < ranges[w].start || ranges[j].start == ranges[w].start && j <= w) ==> last_range(
            sorted,
            key,
        ) == if key <= ranges[w].end {
            Some(ranges[w].info)
        } else {
            None
        },
        (forall|j: int| 0 <= j < ranges.len() ==> (#[trigger] ranges[j]).start > key) ==> last_range(
            sorted,
            key,
        ) is None,
{
    let keys = starts(ranges);
    let order = choose|order: Seq<usize>| #[trigger]
        is_stable_order(order, keys) && sorted == arranged(ranges, order);
    assert(is_stable_order(order, keys) && sorted == arranged(ranges, order));
    assert(order.len() == sorted.len());
    assert forall|p: int, q: int| 0 <= p < q < sorted.len() implies (#[trigger] sorted[p]).start <= (
    #[trigger] sorted[q]).start by {
        assert(precedes(keys, order[p] as int, order[q] as int));
    }
    let n = lemma_last_start(sorted, key);
    if 0 <= w < ranges.len() && ranges[w].start <= key && (forall|j: int|
        0 <= j < ranges.len() && (#[trigger] ranges[j]).start <= key ==> ranges[j].start
            < ranges[w].start || ranges[j].start == ranges[w].start && j <= w) {
        law_order_lists_all(order, keys, w);
        let p = choose|p: int| 0 <= p < order.len() && #[trigger] order[p] == w;
        assert(sorted[p] == ranges[w]);
        assert(n > p);
        if n - 1 != p {
            let other = order[n - 1] as int;
            assert(precedes(keys, order[p] as int, other));
            assert(sorted[n - 1] == ranges[other]);
            assert(ranges[other].start <= key);
        }
    }
    if forall|j: int| 0 <= j < ranges.len() ==> (#[trigger] ranges[j]).start > key {
        if n > 0 {
            assert(sorted[n - 1] == ranges[order[n - 1] as int]);
        }
    }
}

/// The override that decides answers with what its entry says: its number, its country
/// code as the country and its organization. It decides over longer and shorter prefixes
/// and the table of ranges as its entry's network and place say.
pub proof fn law_override_answers(
    db: AsnDbData,
    text: Seq<char>,
    entries: Seq<OverrideEntry>,
    ip: IpAddr,
    w: int,
)
    requires
        db.is_of(text, entries),
        0 <= w < entries.len(),
        entries[w].network.covers(ip),
        forall|j: int|
            0 <= j < entries.len() && (#[trigger] entries[j]).network.covers(ip) ==> {
                ||| entries[j].network.prefix_len < entries[w].network.prefix_len
                ||| entries[j].network.prefix_len == entries[w].network.prefix_len && w <= j
            },
    ensures
        db.lookup(ip) matches Some(info) && info.asn == entries[w].asn && info.country
            == entries[w].country_code@ && info.org == entries[w].organization@,
{
    let all = overrides_of(entries);
    assert forall|j: int| 0 <= j < all.len() && (#[trigger] all[j]).network.covers(ip) implies {
        ||| all[j].network.prefix_len < all[w].network.prefix_len
        ||| all[j].network.prefix_len == all[w].network.prefix_len && w <= j
    } by {
        assert(entries[j].network.covers(ip));
    }
    assert(decides(all, ip, w));
    law_override_decides(db, text, entries, ip, w);
}

/// What is looked up is what is told of it.
pub proof fn law_info_view(info: AsnInfo)
    ensures
        info@.asn == info.asn,
        info@.country == info.country@,
        info@.org == info.org@,
{
}

} // verus!
