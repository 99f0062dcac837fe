//! IP addresses: as numbers, as bytes, and as text in the usual notations.

use vstd::arithmetic::power2::{lemma2_to64, lemma_pow2_adds, lemma_pow2_pos, pow2};
use vstd::prelude::*;
use vstd::slice::slice_subrange;

use crate::text::{
    decimal, digits, encode, hex, joined, law_decimal, law_digits_read, law_hex_distinct,
    law_joined_split, law_split_joined, lemma_canonical_decimal, lemma_number_is_worth, nibble,
    number, pieces_view, push_decimal, push_hex, read_number, split, split_at,
};

verus! {

/// An IP address, as the number that its bytes make.
#[derive(Debug, Clone, Copy, PartialEq, Eq, Structural)]
pub enum IpAddr {
    V4(u32),
    V6(u128),
}

/// The low `len` bytes of `n`, the highest first.
pub open spec fn big_endian(n: nat, len: nat) -> Seq<u8>
    decreases len,
{
    if len == 0 {
        Seq::empty()
    } else {
        big_endian(n / 256, (len - 1) as nat).push((n % 256) as u8)
    }
}

/// The number that the bytes make, the highest first.
pub open spec fn from_big_endian(bytes: Seq<u8>) -> nat
    decreases bytes.len(),
{
    if bytes.len() == 0 {
        0
    } else {
        from_big_endian(bytes.drop_last()) * 256 + bytes.last() as nat
    }
}

/// The low `len` groups of sixteen bits of `n`, the highest first.
pub open spec fn groups(n: nat, len: nat) -> Seq<u16>
    decreases len,
{
    if len == 0 {
        Seq::empty()
    } else {
        groups(n / 0x1_0000, (len - 1) as nat).push((n % 0x1_0000) as u16)
    }
}

/// The number that the groups make, the highest first.
pub open spec fn from_groups(s: Seq<u16>) -> nat
    decreases s.len(),
{
    if s.len() == 0 {
        0
    } else {
        from_groups(s.drop_last()) * 0x1_0000 + s.last() as nat
    }
}

/// The bytes, two by two, as groups of sixteen bits.
pub open spec fn paired(bytes: Seq<u8>) -> Seq<u16> {
    Seq::new(bytes.len() / 2, |i: int| (bytes[2 * i] as int * 256 + bytes[2 * i + 1]) as u16)
}

/// An IPv4 address as text: its bytes in decimal, with dots between them.
pub open spec fn v4_text(bytes: Seq<u8>) -> Seq<char>
    decreases bytes.len(),
{
    if bytes.len() == 0 {
        Seq::empty()
    } else if bytes.len() == 1 {
        decimal(bytes[0] as nat)
    } else {
        v4_text(bytes.drop_last()).push('.') + decimal(bytes.last() as nat)
    }
}

/// Groups in hexadecimal, with colons between them.
pub open spec fn groups_text(s: Seq<u16>) -> Seq<char>
    decreases s.len(),
{
    if s.len() == 0 {
        Seq::empty()
    } else if s.len() == 1 {
        digits(s[0] as nat, 16)
    } else {
        groups_text(s.drop_last()).push(':') + digits(s.last() as nat, 16)
    }
}

/// How many groups from `i` on are zero.
pub open spec fn zeros_from(s: Seq<u16>, i: int) -> nat
    decreases s.len() - i,
{
    if i < 0 || i >= s.len() || s[i] != 0 {
        0
    } else {
        1 + zeros_from(s, i + 1)
    }
}

/// Where, from `i` on, the most groups in a row are zero; the first such place.
pub open spec fn longest_zeros(s: Seq<u16>, i: int) -> int
    decreases s.len() - i,
{
    if i < 0 || i >= s.len() {
        i
    } else {
        let later = longest_zeros(s, i + 1);
        if zeros_from(s, i) >= zeros_from(s, later) {
            i
        } else {
            later
        }
    }
}

/// Whether the groups are those of an IPv4 address mapped into IPv6.
pub open spec fn is_mapped(s: Seq<u16>) -> bool {
    s.len() == 8 && s[0] == 0 && s[1] == 0 && s[2] == 0 && s[3] == 0 && s[4] == 0 && s[5] == 0xffff
}

/// An IPv6 address as text: groups in hexadecimal with colons between them, the
/// longest run of zeros, if it is longer than one, as nothing between two colons;
/// a mapped IPv4 address with its last part as such.
pub open spec fn v6_text(s: Seq<u16>) -> Seq<char> {
    if is_mapped(s) {
        "::ffff:"@ + v4_text(big_endian(s[6] as nat, 2) + big_endian(s[7] as nat, 2))
    } else {
        let start = longest_zeros(s, 0);
        let len = zeros_from(s, start);
        if len > 1 {
            groups_text(s.take(start)) + "::"@ + groups_text(s.skip(start + len))
        } else {
            groups_text(s)
        }
    }
}

impl IpAddr {
    /// The bytes of the address, in network order.
    pub open spec fn octets(self) -> Seq<u8> {
        match self {
            IpAddr::V4(a) => big_endian(a as nat, 4),
            IpAddr::V6(a) => big_endian(a as nat, 16),
        }
    }

    /// The address as text.
    pub open spec fn text(self) -> Seq<char> {
        match self {
            IpAddr::V4(a) => v4_text(big_endian(a as nat, 4)),
            IpAddr::V6(a) => v6_text(groups(a as nat, 8)),
        }
    }
}

/// What an address of raw bytes is shown as: four bytes and sixteen as addresses,
/// anything else in hexadecimal.
pub open spec fn shown(bytes: Seq<u8>) -> Seq<char> {
    if bytes.len() == 4 {
        v4_text(bytes)
    } else if bytes.len() == 16 {
        v6_text(paired(bytes))
    } else {
        hex(bytes)
    }
}

/// A byte of an IPv4 address as text: at most three digits, and no zero in front.
pub open spec fn parsed_octet(s: Seq<char>) -> Option<u8> {
    match number(s, 10) {
        Some(n) if 1 <= s.len() <= 3 && (s.len() == 1 || s[0] != '0') && n <= 255 => Some(n as u8),
        _ => None,
    }
}

/// A group of an IPv6 address as text: at most four hexadecimal digits.
pub open spec fn parsed_group(s: Seq<char>) -> Option<u16> {
    match number(s, 16) {
        Some(n) if 1 <= s.len() <= 4 => Some(n as u16),
        _ => None,
    }
}

/// The IPv4 address that a text names: four bytes with dots between them.
pub open spec fn parsed_v4(s: Seq<char>) -> Option<u32> {
    let pieces = split(s, '.');
    if pieces.len() != 4 {
        None
    } else {
        match (
            parsed_octet(pieces[0]),
            parsed_octet(pieces[1]),
            parsed_octet(pieces[2]),
            parsed_octet(pieces[3]),
        ) {
            (Some(a), Some(b), Some(c), Some(d)) => Some(
                from_big_endian(seq![a, b, c, d]) as u32,
            ),
            _ => None,
        }
    }
}

/// The groups that pieces of text name, one each; where it is allowed, the last
/// piece may be an IPv4 address instead, which makes two.
pub open spec fn parsed_groups(pieces: Seq<Seq<char>>, v4_last: bool) -> Option<Seq<u16>>
    decreases pieces.len(),
{
    if pieces.len() == 0 {
        Some(Seq::empty())
    } else {
        let last = match (parsed_group(pieces.last()), parsed_v4(pieces.last())) {
            (Some(g), _) => Some(seq![g]),
            (None, Some(a)) if v4_last => Some(groups(a as nat, 2)),
            _ => None,
        };
        match (parsed_groups(pieces.drop_last(), false), last) {
            (Some(front), Some(back)) => Some(front + back),
            _ => None,
        }
    }
}

/// The groups that one side of a double colon names, which may be none.
pub open spec fn parsed_side(s: Seq<char>, v4_last: bool) -> Option<Seq<u16>> {
    if s.len() == 0 {
        Some(Seq::empty())
    } else {
        parsed_groups(split(s, ':'), v4_last)
    }
}

/// Where a double colon first stands in `s`; the end of `s` if there is none.
pub open spec fn double_colon(s: Seq<char>) -> nat
    decreases s.len(),
{
    if s.len() == 0 || (s.len() >= 2 && s[0] == ':' && s[1] == ':') {
        0
    } else {
        1 + double_colon(s.skip(1))
    }
}

/// The IPv6 address that a text names: eight groups, or fewer with a double colon
/// where zeros were left out.
pub open spec fn parsed_v6(s: Seq<char>) -> Option<u128> {
    let k = double_colon(s) as int;
    if k < s.len() {
        match (parsed_side(s.take(k), false), parsed_side(s.skip(k + 2), true)) {
            (Some(head), Some(tail)) if head.len() + tail.len() <= 7 => {
                let zeros = Seq::new((8 - head.len() - tail.len()) as nat, |i: int| 0u16);
                Some(from_groups(head + zeros + tail) as u128)
            },
            _ => None,
        }
    } else {
        match parsed_groups(split(s, ':'), true) {
            Some(all) if all.len() == 8 => Some(from_groups(all) as u128),
            _ => None,
        }
    }
}

/// The address that a text names.
pub open spec fn parsed_ip(s: Seq<char>) -> Option<IpAddr> {
    match parsed_v4(s) {
        Some(a) => Some(IpAddr::V4(a)),
        None => match parsed_v6(s) {
            Some(a) => Some(IpAddr::V6(a)),
            None => None,
        },
    }
}

/// The low `len` bytes of `n`, the highest first.
fn bytes_of(n: u128, len: usize) -> (bytes: Vec<u8>)
    ensures
        bytes@ == big_endian(n as nat, len as nat),
    decreases len,
{
    if len == 0 {
        Vec::new()
    } else {
        let mut bytes = bytes_of(n / 256, len - 1);
        bytes.push((n % 256) as u8);
        bytes
    }
}

/// The low `len` groups of `n`, the highest first.
fn groups_of(n: u128, len: usize) -> (res: Vec<u16>)
    ensures
        res@ == groups(n as nat, len as nat),
    decreases len,
{
    if len == 0 {
        Vec::new()
    } else {
        let mut res = groups_of(n / 0x1_0000, len - 1);
        res.push((n % 0x1_0000) as u16);
        res
    }
}

/// There are as many bytes as were asked for.
pub proof fn law_big_endian_len(n: nat, len: nat)
    ensures
        big_endian(n, len).len() == len,
    decreases len,
{
    if len > 0 {
        law_big_endian_len(n / 256, (len - 1) as nat);
    }
}

/// There are as many groups as were asked for.
pub proof fn law_groups_len(n: nat, len: nat)
    ensures
        groups(n, len).len() == len,
    decreases len,
{
    if len > 0 {
        law_groups_len(n / 0x1_0000, (len - 1) as nat);
    }
}

/// Appends the bytes in decimal, with dots between them.
fn push_v4(out: &mut String, bytes: &[u8])
    ensures
        final(out)@ == old(out)@ + v4_text(bytes@),
    decreases bytes@.len(),
{
    if bytes.len() == 0 {
        assert(out@ =~= old(out)@ + v4_text(bytes@));
    } else if bytes.len() == 1 {
        push_decimal(out, bytes[0] as u64);
    } else {
        let n: usize = bytes.len() - 1;
        assert(bytes@.subrange(0, n as int) =~= bytes@.drop_last());
        push_v4(out, slice_subrange(bytes, 0, n));
        out.push('.');
        push_decimal(out, bytes[n] as u64);
        assert(out@ =~= old(out)@ + v4_text(bytes@));
    }
}

/// Appends the groups in hexadecimal, with colons between them.
fn push_groups(out: &mut String, s: &[u16])
    ensures
        final(out)@ == old(out)@ + groups_text(s@),
    decreases s@.len(),
{
    if s.len() == 0 {
        assert(out@ =~= old(out)@ + groups_text(s@));
    } else if s.len() == 1 {
        push_hex(out, s[0]);
    } else {
        let n: usize = s.len() - 1;
        assert(s@.subrange(0, n as int) =~= s@.drop_last());
        push_groups(out, slice_subrange(s, 0, n));
        out.push(':');
        push_hex(out, s[n]);
        assert(out@ =~= old(out)@ + groups_text(s@));
    }
}

proof fn lemma_zeros_bound(s: Seq<u16>, i: int)
    requires
        0 <= i <= s.len(),
    ensures
        i + zeros_from(s, i) <= s.len(),
        i <= longest_zeros(s, i) <= s.len(),
    decreases s.len() - i,
{
    if i < s.len() {
        lemma_zeros_bound(s, i + 1);
    }
}

/// The longest run of zeros: where it starts, and how long it is.
fn find_longest_zeros(s: &[u16]) -> (res: (usize, usize))
    ensures
        res.0 == longest_zeros(s@, 0),
        res.1 == zeros_from(s@, res.0 as int),
        res.0 + res.1 <= s@.len(),
{
    let mut i: usize = s.len();
    let mut here: usize = 0;
    let mut best: usize = s.len();
    let mut best_len: usize = 0;
    while i > 0
        invariant
            i <= s@.len(),
            here == zeros_from(s@, i as int),
            best == longest_zeros(s@, i as int),
            best_len == zeros_from(s@, best as int),
        decreases i,
    {
        i = i - 1;
        proof {
            lemma_zeros_bound(s@, i as int);
        }
        here = if s[i] == 0 {
            here + 1
        } else {
            0
        };
        if here >= best_len {
            best = i;
            best_len = here;
        }
    }
    proof {
        lemma_zeros_bound(s@, 0);
        lemma_zeros_bound(s@, best as int);
    }
    (best, best_len)
}

/// Appends an IPv6 address of eight groups.
fn push_v6(out: &mut String, s: &[u16])
    requires
        s@.len() == 8,
    ensures
        final(out)@ == old(out)@ + v6_text(s@),
{
    if s[0] == 0 && s[1] == 0 && s[2] == 0 && s[3] == 0 && s[4] == 0 && s[5] == 0xffff {
        out.append("::ffff:");
        let mut bytes = bytes_of(s[6] as u128, 2);
        let mut low = bytes_of(s[7] as u128, 2);
        bytes.append(&mut low);
        push_v4(out, bytes.as_slice());
        assert(out@ =~= old(out)@ + v6_text(s@));
    } else {
        let (start, len) = find_longest_zeros(s);
        if len > 1 {
            push_groups(out, slice_subrange(s, 0, start));
            out.append("::");
            push_groups(out, slice_subrange(s, start + len, s.len()));
            proof {
                assert(s@.subrange(0, start as int) =~= s@.take(start as int));
                assert(s@.subrange(start + len, 8) =~= s@.skip(start + len));
            }
            assert(out@ =~= old(out)@ + v6_text(s@));
        } else {
            push_groups(out, s);
        }
    }
}

impl IpAddr {
    /// The bytes of the address, in network order.
    pub fn to_octets(&self) -> (bytes: Vec<u8>)
        ensures
            bytes@ == self.octets(),
    {
        match self {
            IpAddr::V4(a) => bytes_of(*a as u128, 4),
            IpAddr::V6(a) => bytes_of(*a, 16),
        }
    }

    /// The address as text.
    pub fn to_text(&self) -> (text: String)
        ensures
            text@ == self.text(),
    {
        let mut text = String::new();
        match self {
            IpAddr::V4(a) => {
                let bytes = bytes_of(*a as u128, 4);
                push_v4(&mut text, bytes.as_slice());
            },
            IpAddr::V6(a) => {
                let all = groups_of(*a, 8);
                proof {
                    law_groups_len(*a as nat, 8);
                }
                push_v6(&mut text, all.as_slice());
            },
        }
        assert(text@ =~= self.text());
        text
    }
}

/// The bytes of the address in hexadecimal, as a query writes a byte string.
pub fn ip_to_hex_literal(ip: IpAddr) -> (text: String)
    ensures
        text@ == hex(ip.octets()),
{
    let bytes = ip.to_octets();
    encode(bytes.as_slice())
}

/// Shows an address of raw bytes.
pub fn fmt_ip(bytes: &[u8]) -> (text: String)
    ensures
        text@ == shown(bytes@),
{
    let mut text = String::new();
    if bytes.len() == 4 {
        push_v4(&mut text, bytes);
        assert(text@ =~= shown(bytes@));
        text
    } else if bytes.len() == 16 {
        let mut s: Vec<u16> = Vec::new();
        let mut i: usize = 0;
        while i < 8
            invariant
                bytes@.len() == 16,
                i == s@.len() <= 8,
                forall|j: int| 0 <= j < i ==> s@[j] == #[trigger] paired(bytes@)[j],
            decreases 8 - i,
        {
            s.push(bytes[2 * i] as u16 * 256 + bytes[2 * i + 1] as u16);
            i = i + 1;
        }
        assert(s@ =~= paired(bytes@));
        push_v6(&mut text, s.as_slice());
        assert(text@ =~= shown(bytes@));
        text
    } else {
        encode(bytes)
    }
}

fn read_octet(s: &[char]) -> (res: Option<u8>)
    ensures
        res == parsed_octet(s@),
{
    if s.len() < 1 || s.len() > 3 || (s.len() > 1 && s[0] == '0') {
        return None;
    }
    match read_number(s, 10) {
        Some(n) => if n <= 255 {
            Some(n as u8)
        } else {
            None
        },
        None => None,
    }
}

proof fn lemma_four_digits(s: Seq<char>)
    requires
        s.len() <= 4,
    ensures
        number(s, 16) matches Some(n) ==> n <= 0xffff,
{
    reveal_with_fuel(number, 5);
}

fn read_group(s: &[char]) -> (res: Option<u16>)
    ensures
        res == parsed_group(s@),
{
    if s.len() < 1 || s.len() > 4 {
        return None;
    }
    proof {
        lemma_four_digits(s@);
    }
    match read_number(s, 16) {
        Some(n) => Some(n as u16),
        None => None,
    }
}

fn read_v4(s: &[char]) -> (res: Option<u32>)
    ensures
        res == parsed_v4(s@),
{
    let pieces = split_at(s, '.');
    let ghost all = pieces_view(pieces@);
    if pieces.len() != 4 {
        return None;
    }
    assert(all[0] == pieces@[0]@ && all[1] == pieces@[1]@ && all[2] == pieces@[2]@ && all[3]
        == pieces@[3]@);
    match (
        read_octet(pieces[0]),
        read_octet(pieces[1]),
        read_octet(pieces[2]),
        read_octet(pieces[3]),
    ) {
        (Some(a), Some(b), Some(c), Some(d)) => {
            proof {
                lemma_four_bytes(a, b, c, d);
            }
            Some(((a as u32 * 256 + b as u32) * 256 + c as u32) * 256 + d as u32)
        },
        _ => None,
    }
}

proof fn lemma_four_bytes(a: u8, b: u8, c: u8, d: u8)
    ensures
        from_big_endian(seq![a, b, c, d]) == ((a * 256 + b) * 256 + c) * 256 + d,
{
    let s = seq![a, b, c, d];
    assert(s.drop_last() =~= seq![a, b, c]);
    assert(s.drop_last().drop_last() =~= seq![a, b]);
    assert(s.drop_last().drop_last().drop_last() =~= seq![a]);
    reveal_with_fuel(from_big_endian, 5);
}

/// Reads pieces as groups, one each, but for an IPv4 address in the last place.
fn read_groups(pieces: &Vec<&[char]>, v4_last: bool) -> (res: Option<Vec<u16>>)
    ensures
        match parsed_groups(pieces_view(pieces@), v4_last) {
            Some(s) => res matches Some(v) && v@ == s,
            None => res is None,
        },
{
    let ghost all = pieces_view(pieces@);
    let mut found: Vec<u16> = Vec::new();
    let n: usize = pieces.len();
    if n == 0 {
        assert(found@ =~= Seq::empty());
        return Some(found);
    }
    let mut i: usize = 0;
    assert(all.take(0) =~= Seq::empty());
    while i < n - 1
        invariant
            n == pieces@.len() >= 1,
            i <= n - 1,
            all == pieces_view(pieces@),
            parsed_groups(all.take(i as int), false) == Some(found@),
        decreases n - i,
    {
        proof {
            assert(all.take(i + 1).drop_last() =~= all.take(i as int));
            assert(all.take(i + 1).last() == pieces@[i as int]@);
        }
        match read_group(pieces[i]) {
            Some(g) => {
                let ghost before = found@;
                found.push(g);
                assert(found@ =~= before + seq![g]);
            },
            None => {
                proof {
                    assert(parsed_groups(all.take(i + 1), false) is None);
                    lemma_groups_stay_bad(all, v4_last, i + 1);
                }
                return None;
            },
        }
        i = i + 1;
    }
    proof {
        assert(all.take(n - 1) =~= all.drop_last());
        assert(all.last() == pieces@[n - 1]@);
    }
    match read_group(pieces[n - 1]) {
        Some(g) => {
            let ghost before = found@;
            found.push(g);
            assert(found@ =~= before + seq![g]);
            Some(found)
        },
        None => match read_v4(pieces[n - 1]) {
            Some(a) => if v4_last {
                let mut two = groups_of(a as u128, 2);
                found.append(&mut two);
                Some(found)
            } else {
                None
            },
            None => None,
        },
    }
}

/// Pieces that do not name groups do not come to do so when more follow.
proof fn lemma_groups_stay_bad(pieces: Seq<Seq<char>>, v4_last: bool, k: int)
    requires
        0 <= k < pieces.len(),
        parsed_groups(pieces.take(k), false) is None,
    ensures
        parsed_groups(pieces, v4_last) is None,
    decreases pieces.len(),
{
    if k == pieces.len() - 1 {
        assert(pieces.take(k) =~= pieces.drop_last());
    } else {
        assert(pieces.drop_last().take(k) =~= pieces.take(k));
        lemma_groups_stay_bad(pieces.drop_last(), false, k);
    }
}

fn read_side(s: &[char], v4_last: bool) -> (res: Option<Vec<u16>>)
    ensures
        match parsed_side(s@, v4_last) {
            Some(g) => res matches Some(v) && v@ == g,
            None => res is None,
        },
{
    if s.len() == 0 {
        let none: Vec<u16> = Vec::new();
        assert(none@ =~= Seq::empty());
        return Some(none);
    }
    read_groups(&split_at(s, ':'), v4_last)
}

/// What `k` groups stay below.
spec fn group_limit(k: nat) -> nat
    decreases k,
{
    if k == 0 {
        1
    } else {
        group_limit((k - 1) as nat) * 0x1_0000
    }
}

proof fn lemma_group_limit(s: Seq<u16>)
    ensures
        from_groups(s) < group_limit(s.len()),
    decreases s.len(),
{
    if s.len() > 0 {
        lemma_group_limit(s.drop_last());
    }
}

/// The number that eight groups make.
fn join_groups(s: &Vec<u16>) -> (n: u128)
    requires
        s@.len() == 8,
    ensures
        n == from_groups(s@),
{
    let mut n: u128 = 0;
    let mut i: usize = 0;
    assert(s@.take(0) =~= Seq::empty());
    while i < 8
        invariant
            s@.len() == 8,
            i <= 8,
            n == from_groups(s@.take(i as int)),
        decreases 8 - i,
    {
        proof {
            assert(s@.take(i + 1).drop_last() =~= s@.take(i as int));
            lemma_group_limit(s@.take(i + 1));
            assert(group_limit((i + 1) as nat) <= u128::MAX + 1) by {
                reveal_with_fuel(group_limit, 9);
            }
        }
        n = n * 0x1_0000 + s[i] as u128;
        i = i + 1;
    }
    assert(s@.take(8) =~= s@);
    n
}

pub(crate) proof fn lemma_double_colon(s: Seq<char>, k: nat)
    requires
        k <= s.len(),
        k < s.len() ==> (k + 1 < s.len() && s[k as int] == ':' && s[k as int + 1] == ':'),
        forall|i: int| 0 <= i < k && i + 1 < s.len() ==> !(s[i] == ':' && #[trigger] s[i + 1] == ':'),
    ensures
        double_colon(s) == k,
    decreases s.len(),
{
    if k > 0 {
        assert(s.len() >= 2 ==> !(s[0] == ':' && s[0int + 1] == ':'));
        let t = s.skip(1);
        assert forall|i: int| 0 <= i < k - 1 && i + 1 < t.len() implies !(t[i] == ':'
            && #[trigger] t[i + 1] == ':') by {
            assert(s[i + 1] == t[i] && s[i + 1 + 1] == t[i + 1]);
        }
        lemma_double_colon(t, (k - 1) as nat);
    }
}

fn find_double_colon(s: &[char]) -> (k: usize)
    ensures
        k == double_colon(s@),
        k <= s@.len(),
        k < s@.len() ==> k + 1 < s@.len(),
{
    let mut k: usize = 0;
    while k < s.len()
        invariant_except_break
            k <= s@.len(),
            forall|i: int|
                0 <= i < k && i + 1 < s@.len() ==> !(s@[i] == ':' && #[trigger] s@[i + 1] == ':'),
        ensures
            k <= s@.len(),
            k < s@.len() ==> (k + 1 < s@.len() && s@[k as int] == ':' && s@[k + 1] == ':'),
            forall|i: int|
                0 <= i < k && i + 1 < s@.len() ==> !(s@[i] == ':' && #[trigger] s@[i + 1] == ':'),
        decreases s.len() - k,
    {
        if s.len() - k >= 2 && s[k] == ':' && s[k + 1] == ':' {
            break;
        }
        k = k + 1;
    }
    proof {
        lemma_double_colon(s@, k as nat);
    }
    k
}

fn read_v6(s: &[char]) -> (res: Option<u128>)
    ensures
        res == parsed_v6(s@),
{
    let k: usize = find_double_colon(s);
    if k < s.len() {
        let head = read_side(slice_subrange(s, 0, k), false);
        let tail = read_side(slice_subrange(s, k + 2, s.len()), true);
        proof {
            assert(s@.subrange(0, k as int) =~= s@.take(k as int));
            assert(s@.subrange(k + 2, s@.len() as int) =~= s@.skip(k + 2));
        }
        match (head, tail) {
            (Some(head), Some(tail)) => {
                let mut all = head;
                let mut back = tail;
                let ghost front = all@;
                let ghost end = back@;
                if all.len() > 7 || back.len() > 7 - all.len() {
                    return None;
                }
                let mut missing: usize = 8 - all.len() - back.len();
                let ghost count = missing;
                while missing > 0
                    invariant
                        missing <= count,
                        all@ == front + Seq::new((count - missing) as nat, |i: int| 0u16),
                    decreases missing,
                {
                    all.push(0);
                    missing = missing - 1;
                    assert(all@ =~= front + Seq::new((count - missing) as nat, |i: int| 0u16));
                }
                all.append(&mut back);
                assert(all@ =~= front + Seq::new(count as nat, |i: int| 0u16) + end);
                Some(join_groups(&all))
            },
            _ => None,
        }
    } else {
        match read_groups(&split_at(s, ':'), true) {
            Some(all) => if all.len() == 8 {
                Some(join_groups(&all))
            } else {
                None
            },
            None => None,
        }
    }
}

/// Reads an address.
pub fn parse_ip(s: &[char]) -> (res: Option<IpAddr>)
    ensures
        res == parsed_ip(s@),
{
    match read_v4(s) {
        Some(a) => Some(IpAddr::V4(a)),
        None => match read_v6(s) {
            Some(a) => Some(IpAddr::V6(a)),
            None => None,
        },
    }
}

/// What so many bytes stay below.
spec fn byte_limit(k: nat) -> nat
    decreases k,
{
    if k == 0 {
        1
    } else {
        byte_limit((k - 1) as nat) * 256
    }
}

proof fn lemma_big_endian_back(n: nat, len: nat)
    requires
        n < byte_limit(len),
    ensures
        from_big_endian(big_endian(n, len)) == n,
    decreases len,
{
    if len > 0 {
        lemma_big_endian_back(n / 256, (len - 1) as nat);
        let s = big_endian(n, len);
        assert(s.drop_last() =~= big_endian(n / 256, (len - 1) as nat));
        assert(s.last() == n % 256);
    }
}

proof fn lemma_groups_back(n: nat, len: nat)
    requires
        n < group_limit(len),
    ensures
        from_groups(groups(n, len)) == n,
    decreases len,
{
    if len > 0 {
        lemma_groups_back(n / 0x1_0000, (len - 1) as nat);
        let s = groups(n, len);
        assert(s.drop_last() =~= groups(n / 0x1_0000, (len - 1) as nat));
        assert(s.last() == n % 0x1_0000);
    }
}

/// The bytes of an address make up the address.
pub proof fn law_octets_back(ip: IpAddr)
    ensures
        match ip {
            IpAddr::V4(a) => ip.octets().len() == 4 && from_big_endian(ip.octets()) == a,
            IpAddr::V6(a) => ip.octets().len() == 16 && from_big_endian(ip.octets()) == a,
        },
{
    match ip {
        IpAddr::V4(a) => {
            reveal_with_fuel(byte_limit, 5);
            law_big_endian_len(a as nat, 4);
            lemma_big_endian_back(a as nat, 4);
        },
        IpAddr::V6(a) => {
            reveal_with_fuel(byte_limit, 17);
            law_big_endian_len(a as nat, 16);
            lemma_big_endian_back(a as nat, 16);
        },
    }
}

/// The groups of an IPv6 address make up the address.
pub proof fn law_groups_back(a: u128)
    ensures
        groups(a as nat, 8).len() == 8,
        from_groups(groups(a as nat, 8)) == a,
{
    reveal_with_fuel(group_limit, 9);
    law_groups_len(a as nat, 8);
    lemma_groups_back(a as nat, 8);
}

/// Different addresses have different literals.
pub proof fn law_literals_distinct(a: IpAddr, b: IpAddr)
    ensures
        hex(a.octets()) == hex(b.octets()) ==> a == b,
{
    law_hex_distinct(a.octets(), b.octets());
    law_octets_back(a);
    law_octets_back(b);
}

proof fn lemma_paired(n: nat, k: nat)
    ensures
        paired(big_endian(n, 2 * k)) == groups(n, k),
    decreases k,
{
    if k == 0 {
        assert(paired(big_endian(n, 0)) =~= groups(n, 0));
    } else {
        let j = (k - 1) as nat;
        let m = n / 0x1_0000;
        let bytes = big_endian(n, 2 * k);
        let front = big_endian(m, 2 * j);
        lemma_paired(m, j);
        law_big_endian_len(m, 2 * j);
        law_groups_len(m, j);
        assert(n / 256 / 256 == m);
        assert(big_endian(n / 256, (2 * k - 1) as nat) == front.push((n / 256 % 256) as u8));
        assert(bytes == front.push((n / 256 % 256) as u8).push((n % 256) as u8));
        assert((n / 256 % 256) * 256 + n % 256 == n % 0x1_0000);
        assert forall|i: int| 0 <= i < k implies paired(bytes)[i] == groups(n, k)[i] by {
            if i < j {
                assert(paired(front)[i] == groups(m, j)[i]);
                assert(bytes[2 * i] == front[2 * i] && bytes[2 * i + 1] == front[2 * i + 1]);
            }
        }
        assert(paired(bytes) =~= groups(n, k));
    }
}

/// The bytes of an address are shown as the address.
pub proof fn law_octets_shown(ip: IpAddr)
    ensures
        shown(ip.octets()) == ip.text(),
{
    law_octets_back(ip);
    match ip {
        IpAddr::V4(_) => {},
        IpAddr::V6(a) => {
            lemma_paired(a as nat, 8);
        },
    }
}

proof fn lemma_byte_at(n: nat, len: nat, i: int)
    requires
        0 <= i < len,
    ensures
        big_endian(n, len).len() == len,
        big_endian(n, len)[i] == n / pow2((8 * (len - 1 - i)) as nat) % 256,
    decreases len,
{
    law_big_endian_len(n, len);
    law_big_endian_len(n / 256, (len - 1) as nat);
    if i == len - 1 {
        lemma2_to64();
        assert(n / 1 == n);
    } else {
        lemma_byte_at(n / 256, (len - 1) as nat, i);
        let k = (8 * (len - 2 - i)) as nat;
        lemma_pow2_adds(8, k);
        lemma2_to64();
        lemma_pow2_pos(k);
        vstd::arithmetic::div_mod::lemma_div_denominator(n as int, 256, pow2(k) as int);
        assert(8 + k == 8 * (len - 1 - i));
    }
}

/// The bytes of an address are those of its number, the highest first: each is the number
/// without the bytes behind it, modulo 256.
pub proof fn law_octets(ip: IpAddr, i: int)
    ensures
        ip matches IpAddr::V4(a) ==> 0 <= i < 4 ==> ip.octets().len() == 4 && ip.octets()[i]
            == a as nat / pow2((8 * (3 - i)) as nat) % 256,
        ip matches IpAddr::V6(a) ==> 0 <= i < 16 ==> ip.octets().len() == 16 && ip.octets()[i]
            == a as nat / pow2((8 * (15 - i)) as nat) % 256,
{
    match ip {
        IpAddr::V4(a) => {
            if 0 <= i < 4 {
                lemma_byte_at(a as nat, 4, i);
            }
        },
        IpAddr::V6(a) => {
            if 0 <= i < 16 {
                lemma_byte_at(a as nat, 16, i);
            }
        },
    }
}

/// How raw bytes are shown: four as an IPv4 address, sixteen as the IPv6 address that they
/// are the bytes of, and any others in hexadecimal.
pub proof fn law_shown(bytes: Seq<u8>)
    ensures
        bytes.len() == 4 ==> shown(bytes) == decimal(bytes[0] as nat) + seq!['.'] + decimal(
            bytes[1] as nat,
        ) + seq!['.'] + decimal(bytes[2] as nat) + seq!['.'] + decimal(bytes[3] as nat),
        bytes.len() == 16 ==> exists|a: u128|
            (#[trigger] IpAddr::V6(a).octets()) == bytes && shown(bytes) == IpAddr::V6(a).text(),
        bytes.len() != 4 && bytes.len() != 16 ==> shown(bytes) == hex(bytes),
{
    if bytes.len() == 4 {
        lemma_v4_text(bytes);
    }
    if bytes.len() == 16 {
        lemma_from_bytes(bytes);
        let a = from_big_endian(bytes) as u128;
        assert(from_big_endian(bytes) <= u128::MAX) by {
            reveal_with_fuel(byte_limit, 17);
        }
        assert(IpAddr::V6(a).octets() == bytes);
        law_octets_shown(IpAddr::V6(a));
    }
}

proof fn lemma_from_bytes(bytes: Seq<u8>)
    ensures
        from_big_endian(bytes) < byte_limit(bytes.len()),
        big_endian(from_big_endian(bytes), bytes.len()) == bytes,
    decreases bytes.len(),
{
    if bytes.len() > 0 {
        let front = bytes.drop_last();
        lemma_from_bytes(front);
        let n = from_big_endian(bytes);
        assert(n / 256 == from_big_endian(front) && n % 256 == bytes.last());
        assert(front.push(bytes.last()) =~= bytes);
    } else {
        assert(big_endian(0, 0) =~= bytes);
    }
}

proof fn lemma_v4_text(bytes: Seq<u8>)
    requires
        bytes.len() == 4,
    ensures
        v4_text(bytes) == decimal(bytes[0] as nat) + seq!['.'] + decimal(bytes[1] as nat) + seq!['.']
            + decimal(bytes[2] as nat) + seq!['.'] + decimal(bytes[3] as nat),
{
    let three = bytes.drop_last();
    let two = three.drop_last();
    let one = two.drop_last();
    reveal_with_fuel(v4_text, 5);
    assert(v4_text(one) == decimal(bytes[0] as nat));
    assert(v4_text(two) =~= decimal(bytes[0] as nat) + seq!['.'] + decimal(bytes[1] as nat));
    assert(v4_text(three) =~= v4_text(two) + seq!['.'] + decimal(bytes[2] as nat));
    assert(v4_text(bytes) =~= v4_text(three) + seq!['.'] + decimal(bytes[3] as nat));
}

/// An IPv4 address has one text and no other: exactly its four bytes in decimal, without
/// zeros in front, with dots between them, are read as it.
pub proof fn law_v4_has_one_text(s: Seq<char>, a: u32)
    ensures
        parsed_v4(s) == Some(a) <==> s == IpAddr::V4(a).text(),
        IpAddr::V4(a).text() == shown(IpAddr::V4(a).octets()),
{
    law_octets_shown(IpAddr::V4(a));
    law_octets_back(IpAddr::V4(a));
    let bytes = IpAddr::V4(a).octets();
    if s == IpAddr::V4(a).text() {
        lemma_v4_read_back(bytes);
    }
    if parsed_v4(s) == Some(a) {
        let pieces = split(s, '.');
        law_joined_split(s, '.');
        let b0 = parsed_octet(pieces[0])->0;
        let b1 = parsed_octet(pieces[1])->0;
        let b2 = parsed_octet(pieces[2])->0;
        let b3 = parsed_octet(pieces[3])->0;
        lemma_octet_text(pieces[0]);
        lemma_octet_text(pieces[1]);
        lemma_octet_text(pieces[2]);
        lemma_octet_text(pieces[3]);
        let four = seq![b0, b1, b2, b3];
        lemma_four_bytes(b0, b1, b2, b3);
        lemma_from_bytes(four);
        assert(big_endian(a as nat, 4) == four);
        lemma_v4_text(four);
        let p3 = pieces.drop_last();
        let p2 = p3.drop_last();
        let p1 = p2.drop_last();
        reveal_with_fuel(joined, 5);
        assert(joined(p1, '.') == pieces[0]);
        assert(joined(p2, '.') =~= pieces[0] + seq!['.'] + pieces[1]);
        assert(joined(p3, '.') =~= joined(p2, '.') + seq!['.'] + pieces[2]);
        assert(joined(pieces, '.') =~= joined(p3, '.') + seq!['.'] + pieces[3]);
    }
}

proof fn lemma_octet_text(p: Seq<char>)
    requires
        parsed_octet(p) is Some,
    ensures
        p == decimal(parsed_octet(p)->0 as nat),
{
    lemma_number_is_worth(p);
    lemma_canonical_decimal(p);
}

proof fn lemma_octet_back(b: u8)
    ensures
        parsed_octet(decimal(b as nat)) == Some(b),
        !decimal(b as nat).contains('.'),
{
    law_decimal(b as nat);
    lemma_number_is_worth(decimal(b as nat));
    assert(decimal(b as nat).len() <= 3) by {
        reveal_with_fuel(digits, 4);
    }
    if decimal(b as nat).contains('.') {
        let k = choose|k: int| 0 <= k < decimal(b as nat).len() && decimal(b as nat)[k] == '.';
        assert('0' <= decimal(b as nat)[k] <= '9');
    }
}

proof fn lemma_v4_read_back(bytes: Seq<u8>)
    requires
        bytes.len() == 4,
    ensures
        parsed_v4(v4_text(bytes)) == Some(from_big_endian(bytes) as u32),
{
    let p = seq![
        decimal(bytes[0] as nat),
        decimal(bytes[1] as nat),
        decimal(bytes[2] as nat),
        decimal(bytes[3] as nat),
    ];
    lemma_octet_back(bytes[0]);
    lemma_octet_back(bytes[1]);
    lemma_octet_back(bytes[2]);
    lemma_octet_back(bytes[3]);
    lemma_v4_text(bytes);
    let p3 = p.drop_last();
    let p2 = p3.drop_last();
    let p1 = p2.drop_last();
    reveal_with_fuel(joined, 5);
    assert(joined(p1, '.') == p[0]);
    assert(joined(p2, '.') =~= p[0] + seq!['.'] + p[1]);
    assert(joined(p3, '.') =~= joined(p2, '.') + seq!['.'] + p[2]);
    assert(joined(p, '.') =~= joined(p3, '.') + seq!['.'] + p[3]);
    law_split_joined(p, '.');
    assert(seq![bytes[0], bytes[1], bytes[2], bytes[3]] =~= bytes);
}

/// Whether the groups from `i` on, `len` of them, are all zero.
pub open spec fn is_zero_run(s: Seq<u16>, i: int, len: int) -> bool {
    &&& 0 <= i
    &&& i + len <= s.len()
    &&& forall|j: int| i <= j < i + len ==> s[j] == 0
}

proof fn lemma_run_length(s: Seq<u16>, i: int, len: int)
    requires
        is_zero_run(s, i, len),
        len >= 0,
    ensures
        zeros_from(s, i) >= len,
    decreases len,
{
    if len > 0 {
        assert(s[i] == 0);
        assert(is_zero_run(s, i + 1, len - 1));
        lemma_run_length(s, i + 1, len - 1);
    }
}

proof fn lemma_longest(s: Seq<u16>, i: int, j: int)
    requires
        0 <= i <= j <= s.len(),
    ensures
        zeros_from(s, longest_zeros(s, i)) >= zeros_from(s, j),
        j < longest_zeros(s, i) ==> zeros_from(s, j) < zeros_from(s, longest_zeros(s, i)),
        i <= longest_zeros(s, i) <= s.len(),
    decreases s.len() - i,
{
    lemma_zeros_bound(s, i);
    if i < s.len() {
        lemma_longest(s, i + 1, if j > i { j } else { i + 1 });
    }
}

proof fn lemma_zeros_are_zero(s: Seq<u16>, i: int)
    requires
        0 <= i <= s.len(),
    ensures
        is_zero_run(s, i, zeros_from(s, i) as int),
    decreases s.len() - i,
{
    lemma_zeros_bound(s, i);
    if i < s.len() && s[i] == 0 {
        lemma_zeros_are_zero(s, i + 1);
    }
}

/// How an IPv6 address of eight groups is written. One that maps an IPv4 address is
/// written as such. In others a run of two zeros or more is left out between two colons:
/// the longest there is, and the first of several as long. Where there is none, all eight
/// are written.
pub proof fn law_v6_text(s: Seq<u16>)
    requires
        s.len() == 8,
    ensures
        ({
            let mapped = s[0] == 0 && s[1] == 0 && s[2] == 0 && s[3] == 0 && s[4] == 0 && s[5]
                == 0xffff;
            &&& mapped ==> v6_text(s) == "::ffff:"@ + shown(
                seq![
                    (s[6] / 256) as u8,
                    (s[6] % 256) as u8,
                    (s[7] / 256) as u8,
                    (s[7] % 256) as u8,
                ],
            )
            &&& !mapped && (forall|i: int| !#[trigger] is_zero_run(s, i, 2)) ==> v6_text(s)
                == groups_text(s)
            &&& !mapped && (exists|i: int| #[trigger] is_zero_run(s, i, 2)) ==> exists|
                start: int,
                len: int,
            |
                {
                    &&& len >= 2
                    &&& #[trigger] is_zero_run(s, start, len)
                    &&& forall|i: int, n: int| #[trigger] is_zero_run(s, i, n) ==> n <= len
                    &&& forall|i: int| #[trigger] is_zero_run(s, i, len) ==> start <= i
                    &&& v6_text(s) == groups_text(s.take(start)) + "::"@ + groups_text(
                        s.skip(start + len),
                    )
                }
        }),
{
    if is_mapped(s) {
        let bytes = seq![
            (s[6] / 256) as u8,
            (s[6] % 256) as u8,
            (s[7] / 256) as u8,
            (s[7] % 256) as u8,
        ];
        reveal_with_fuel(big_endian, 3);
        assert(s[6] as nat / 256 % 256 == s[6] as nat / 256);
        assert(s[7] as nat / 256 % 256 == s[7] as nat / 256);
        assert(big_endian(s[6] as nat, 2) + big_endian(s[7] as nat, 2) =~= bytes);
    } else {
        let start = longest_zeros(s, 0);
        let len = zeros_from(s, start) as int;
        lemma_zeros_bound(s, 0);
        lemma_zeros_are_zero(s, start);
        assert forall|i: int, n: int| #[trigger] is_zero_run(s, i, n) implies n <= len by {
            if n >= 0 {
                lemma_run_length(s, i, n);
                lemma_longest(s, 0, i);
            }
        }
        if len >= 2 {
            assert forall|i: int| #[trigger] is_zero_run(s, i, len) implies start <= i by {
                lemma_run_length(s, i, len);
                lemma_longest(s, 0, i);
            }
            assert(is_zero_run(s, start, 2));
        }
    }
}

/// How groups are written: each in hexadecimal, in lower case and without zeros in front,
/// with colons between them.
pub proof fn law_groups_text(s: Seq<u16>, g: u16)
    ensures
        groups_text(Seq::empty()).len() == 0,
        s.len() == 0 ==> groups_text(s.push(g)) == digits(g as nat, 16),
        s.len() > 0 ==> groups_text(s.push(g)) == groups_text(s) + seq![':'] + digits(g as nat, 16),
        number(digits(g as nat, 16), 16) == Some(g as nat),
        1 <= digits(g as nat, 16).len() <= 4,
        digits(g as nat, 16)[0] == '0' ==> g == 0,
        forall|i: int|
            0 <= i < digits(g as nat, 16).len() ==> nibble(#[trigger] digits(g as nat, 16)[i]) < 16,
{
    law_digits_read(g as nat, 16);
    assert(digits(g as nat, 16).len() <= 4) by {
        reveal_with_fuel(digits, 5);
    }
    assert(s.push(g).drop_last() =~= s);
    if s.len() > 0 {
        assert(groups_text(s.push(g)) =~= groups_text(s) + seq![':'] + digits(g as nat, 16));
    }
    assert(groups_text(Seq::empty()) =~= Seq::empty());
}

} // verus!
