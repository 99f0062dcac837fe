//! What is written of an address is read as that address.

use vstd::arithmetic::power2::{
    lemma2_to64, lemma2_to64_rest, lemma_pow2_adds, lemma_pow2_pos, pow2,
};
use vstd::prelude::*;

use crate::addr::{
    big_endian, double_colon, from_big_endian, from_groups, groups, groups_text, is_mapped,
    law_groups_back, law_groups_len, law_octets_back, law_octets_shown, law_v4_has_one_text,
    lemma_double_colon, longest_zeros, parsed_group, parsed_groups, parsed_ip, parsed_octet,
    parsed_side, parsed_v4, parsed_v6, shown, v4_text, v6_text, zeros_from, IpAddr,
};
use crate::text::{
    decimal, digit_value, digits, first_of, joined, law_digits_read, law_first_of,
    law_joined_split, law_split_append, law_split_joined, number, split,
};

verus! {

proof fn lemma_octet_read(b: u8)
    ensures
        parsed_octet(decimal(b as nat)) == Some(b),
{
    law_digits_read(b as nat, 10);
    assert(decimal(b as nat).len() <= 3) by {
        reveal_with_fuel(digits, 4);
    }
    if b == 0 {
        assert(decimal(0).len() == 1);
    }
}

proof fn lemma_group_read(g: u16)
    ensures
        parsed_group(digits(g as nat, 16)) == Some(g),
{
    law_digits_read(g as nat, 16);
    assert(digits(g as nat, 16).len() <= 4) by {
        reveal_with_fuel(digits, 5);
    }
}

proof fn lemma_no_mark(n: nat, base: nat, c: char)
    requires
        2 <= base <= 16,
        c == '.' || c == ':',
    ensures
        !digits(n, base).contains(c),
{
    law_digits_read(n, base);
}

/// The bytes in decimal, one by one.
spec fn decimals(bytes: Seq<u8>) -> Seq<Seq<char>> {
    Seq::new(bytes.len(), |i: int| decimal(bytes[i] as nat))
}

proof fn lemma_v4_pieces(bytes: Seq<u8>)
    requires
        bytes.len() > 0,
    ensures
        split(v4_text(bytes), '.') == decimals(bytes),
    decreases bytes.len(),
{
    let last = decimal(bytes.last() as nat);
    lemma_no_mark(bytes.last() as nat, 10, '.');
    if bytes.len() == 1 {
        law_split_append(Seq::empty(), last, '.');
        assert(decimals(bytes) =~= seq![last]);
    } else {
        let front = bytes.drop_last();
        lemma_v4_pieces(front);
        law_split_append(v4_text(front), last, '.');
        assert(decimals(bytes) =~= decimals(front).push(last));
    }
}

proof fn lemma_v4_read(bytes: Seq<u8>)
    requires
        bytes.len() == 4,
    ensures
        parsed_v4(v4_text(bytes)) == Some(from_big_endian(bytes) as u32),
{
    lemma_v4_pieces(bytes);
    lemma_octet_read(bytes[0]);
    lemma_octet_read(bytes[1]);
    lemma_octet_read(bytes[2]);
    lemma_octet_read(bytes[3]);
    assert(seq![bytes[0], bytes[1], bytes[2], bytes[3]] =~= bytes);
}

/// The groups in hexadecimal, one by one.
spec fn hexes(s: Seq<u16>) -> Seq<Seq<char>> {
    Seq::new(s.len(), |i: int| digits(s[i] as nat, 16))
}

proof fn lemma_group_pieces(s: Seq<u16>)
    requires
        s.len() > 0,
    ensures
        split(groups_text(s), ':') == hexes(s),
    decreases s.len(),
{
    let last = digits(s.last() as nat, 16);
    lemma_no_mark(s.last() as nat, 16, ':');
    if s.len() == 1 {
        law_split_append(Seq::empty(), last, ':');
        assert(hexes(s) =~= seq![last]);
    } else {
        let front = s.drop_last();
        lemma_group_pieces(front);
        law_split_append(groups_text(front), last, ':');
        assert(hexes(s) =~= hexes(front).push(last));
    }
}

proof fn lemma_groups_read(s: Seq<u16>, v4_last: bool)
    ensures
        parsed_groups(hexes(s), v4_last) == Some(s),
    decreases s.len(),
{
    if s.len() == 0 {
        assert(s =~= Seq::empty());
    } else {
        lemma_group_read(s.last());
        lemma_groups_read(s.drop_last(), false);
        assert(hexes(s).drop_last() =~= hexes(s.drop_last()));
        assert(s.drop_last() + seq![s.last()] =~= s);
    }
}

proof fn lemma_side_read(s: Seq<u16>, v4_last: bool)
    ensures
        parsed_side(groups_text(s), v4_last) == Some(s),
{
    if s.len() == 0 {
        assert(s =~= Seq::empty());
    } else {
        lemma_neat(s);
        lemma_group_pieces(s);
        lemma_groups_read(s, v4_last);
    }
}

/// Whether colons stand only between other things.
spec fn is_neat(t: Seq<char>) -> bool {
    &&& t.len() > 0
    &&& t[0] != ':'
    &&& t.last() != ':'
    &&& forall|i: int| 0 <= i && i + 1 < t.len() ==> !(t[i] == ':' && #[trigger] t[i + 1] == ':')
}

proof fn lemma_neat(s: Seq<u16>)
    requires
        s.len() > 0,
    ensures
        is_neat(groups_text(s)),
        !groups_text(s).contains('.'),
    decreases s.len(),
{
    let last = digits(s.last() as nat, 16);
    lemma_no_mark(s.last() as nat, 16, ':');
    lemma_no_mark(s.last() as nat, 16, '.');
    law_digits_read(s.last() as nat, 16);
    assert(last.contains(last[0]) && last.contains(last.last()));
    assert forall|i: int| 0 <= i < last.len() implies last[i] != ':' && last[i] != '.' by {
        assert(last.contains(last[i]));
    }
    if s.len() > 1 {
        let front = groups_text(s.drop_last());
        lemma_neat(s.drop_last());
        let t = groups_text(s);
        let n = front.len() as int;
        assert(t == front.push(':') + last);
        assert forall|i: int| 0 <= i && i + 1 < t.len() implies !(t[i] == ':' && #[trigger] t[i + 1]
            == ':') by {
            if i + 1 < n {
                assert(t[i] == front[i] && t[i + 1] == front[i + 1]);
            } else if i + 1 == n {
                assert(t[i] == front.last());
            } else {
                assert(t[i + 1] == last[i - n]);
            }
        }
        assert forall|i: int| 0 <= i < t.len() implies t[i] != '.' by {
            if i < n {
                assert(front.contains(front[i]));
            } else if i > n {
                assert(t[i] == last[i - n - 1]);
            }
        }
    }
}

/// The first double colon behind a neat text, or at the front.
proof fn lemma_finds_double_colon(head: Seq<char>, tail: Seq<char>)
    requires
        head.len() == 0 || is_neat(head),
    ensures
        double_colon(head + "::"@ + tail) == head.len(),
        (head + "::"@ + tail).take(head.len() as int) == head,
        (head + "::"@ + tail).skip(head.len() as int + 2) == tail,
{
    reveal_strlit("::");
    let t = head + "::"@ + tail;
    let k = head.len() as int;
    assert(t[k] == ':' && t[k + 1] == ':');
    assert forall|i: int| 0 <= i < k && i + 1 < t.len() implies !(t[i] == ':' && #[trigger] t[i + 1]
        == ':') by {
        assert(t[i] == head[i]);
        if i + 1 < k {
            assert(t[i + 1] == head[i + 1]);
        }
    }
    lemma_double_colon(t, head.len());
    assert(t.take(k) =~= head);
    assert(t.skip(k + 2) =~= tail);
}

/// A text without dots is not an IPv4 address.
proof fn lemma_not_v4(t: Seq<char>)
    requires
        !t.contains('.'),
    ensures
        parsed_v4(t) is None,
{
    law_split_append(Seq::empty(), t, '.');
}

proof fn lemma_zeros(s: Seq<u16>, i: int)
    requires
        0 <= i <= s.len(),
    ensures
        i + zeros_from(s, i) <= s.len(),
        i <= longest_zeros(s, i) <= s.len(),
        forall|j: int| i <= j < i + zeros_from(s, i) ==> s[j] == 0,
    decreases s.len() - i,
{
    if i < s.len() {
        lemma_zeros(s, i + 1);
    }
}

proof fn lemma_v6_read_plain(s: Seq<u16>)
    requires
        s.len() == 8,
    ensures
        parsed_v6(groups_text(s)) == Some(from_groups(s) as u128),
        parsed_v4(groups_text(s)) is None,
{
    let t = groups_text(s);
    lemma_neat(s);
    lemma_double_colon(t, t.len());
    lemma_group_pieces(s);
    lemma_groups_read(s, true);
    lemma_not_v4(t);
}

proof fn lemma_v6_read_short(s: Seq<u16>, start: int, len: nat)
    requires
        s.len() == 8,
        0 <= start,
        1 <= len,
        start + len <= 8,
        forall|j: int| start <= j < start + len ==> s[j] == 0,
    ensures
        ({
            let t = groups_text(s.take(start)) + "::"@ + groups_text(s.skip(start + len));
            &&& parsed_v6(t) == Some(from_groups(s) as u128)
            &&& parsed_v4(t) is None
        }),
{
    reveal_strlit("::");
    let head = s.take(start);
    let tail = s.skip(start + len);
    let t = groups_text(head) + "::"@ + groups_text(tail);
    if head.len() > 0 {
        lemma_neat(head);
    }
    if tail.len() > 0 {
        lemma_neat(tail);
    }
    lemma_finds_double_colon(groups_text(head), groups_text(tail));
    lemma_side_read(head, false);
    lemma_side_read(tail, true);
    let zeros = Seq::new((8 - head.len() - tail.len()) as nat, |i: int| 0u16);
    assert(head + zeros + tail =~= s);
    assert(!t.contains('.')) by {
        assert forall|i: int| 0 <= i < t.len() implies t[i] != '.' by {
            let n = groups_text(head).len() as int;
            if i < n {
                assert(groups_text(head).contains(t[i]));
            } else if i >= n + 2 {
                assert(t[i] == groups_text(tail)[i - n - 2]);
                assert(groups_text(tail).contains(t[i]));
            }
        }
    }
    lemma_not_v4(t);
}

proof fn lemma_number_bad(s: Seq<char>, base: nat, k: int)
    requires
        0 <= k < s.len(),
        digit_value(s[k], base) is None,
    ensures
        number(s, base) is None,
    decreases s.len(),
{
    if k < s.len() - 1 {
        lemma_number_bad(s.drop_last(), base, k);
    }
}

proof fn lemma_two_bytes(n: nat)
    requires
        n < 0x1_0000,
    ensures
        big_endian(n, 2) == seq![(n / 256) as u8, (n % 256) as u8],
{
    reveal_with_fuel(big_endian, 3);
    assert(n / 256 % 256 == n / 256);
    assert(big_endian(n, 2) =~= seq![(n / 256) as u8, (n % 256) as u8]);
}

proof fn lemma_ffff()
    ensures
        is_group(seq!['f', 'f', 'f', 'f']),
        number(seq!['f', 'f', 'f', 'f'], 16) == Some(0xffffnat),
{
    let ffff = seq!['f', 'f', 'f', 'f'];
    assert(digits(0xffff, 16) =~= ffff) by {
        reveal_with_fuel(digits, 5);
    }
    law_digits_read(0xffff, 16);
}

/// The two groups of an IPv4 address and its four bytes are the same number.
proof fn lemma_v4_of_groups(hi: u16, lo: u16) -> (x: u32)
    ensures
        big_endian(x as nat, 4) == big_endian(hi as nat, 2) + big_endian(lo as nat, 2),
        v4_values(Some(x)) == seq![hi, lo],
{
    let x = (hi * 0x1_0000 + lo) as u32;
    lemma_two_bytes(hi as nat);
    lemma_two_bytes(lo as nat);
    let n = x as nat;
    assert(n / 256 / 256 == hi && n / 256 / 256 / 256 == hi as nat / 256);
    assert(n % 256 == lo as nat % 256);
    assert(n / 256 % 256 == lo as nat / 256);
    assert(n / 256 / 256 / 256 % 256 == hi as nat / 256);
    reveal_with_fuel(big_endian, 5);
    assert(big_endian(n, 4) =~= big_endian(hi as nat, 2) + big_endian(lo as nat, 2));
    assert(v4_values(Some(x)) =~= seq![hi, lo]);
    x
}

proof fn lemma_v6_read_mapped(s: Seq<u16>)
    requires
        is_mapped(s),
    ensures
        parsed_v6(v6_text(s)) == Some(from_groups(s) as u128),
        parsed_v4(v6_text(s)) is None,
{
    let x = lemma_v4_of_groups(s[6], s[7]);
    let text = IpAddr::V4(x).text();
    let t = v6_text(s);
    let none = Seq::<Seq<char>>::empty();
    let ffff = seq!['f', 'f', 'f', 'f'];
    let tail = seq![ffff];
    lemma_ffff();
    assert(t == "::ffff:"@ + text);
    reveal_strlit("::ffff:");
    reveal_strlit("::");
    let back = with_v4(tail, Some(x));
    assert(back.drop_last() =~= tail);
    assert(joined(tail, ':') == ffff);
    assert(joined(back, ':') == ffff.push(':') + text);
    assert("::ffff:"@ =~= "::"@ + ffff.push(':'));
    assert(t =~= joined(none, ':') + "::"@ + joined(back, ':'));
    assert(spells(t, none, tail, Some(x), true));
    lemma_spelled_read(t, none, tail, Some(x), true);
    assert(group_values(tail) =~= seq![0xffffu16]);
    assert(spelled(none, tail, Some(x)) =~= s);
    assert(t[0] == ':');
    lemma_starts_badly(t);
}

/// A dotted text has a dot in it, and no colon.
proof fn lemma_dotted(bytes: Seq<u8>)
    requires
        bytes.len() >= 2,
    ensures
        v4_text(bytes).contains('.'),
        !v4_text(bytes).contains(':'),
{
    let front = v4_text(bytes.drop_last());
    let t = v4_text(bytes);
    assert(t[front.len() as int] == '.');
    lemma_no_colon(bytes);
}

proof fn lemma_no_colon(bytes: Seq<u8>)
    ensures
        !v4_text(bytes).contains(':'),
    decreases bytes.len(),
{
    if bytes.len() > 0 {
        let last = decimal(bytes.last() as nat);
        lemma_no_mark(bytes.last() as nat, 10, ':');
        if bytes.len() > 1 {
            let front = v4_text(bytes.drop_last());
            lemma_no_colon(bytes.drop_last());
            let t = v4_text(bytes);
            assert forall|i: int| 0 <= i < t.len() implies t[i] != ':' by {
                if i < front.len() {
                    assert(front.contains(t[i]));
                } else if i > front.len() {
                    assert(t[i] == last[i - front.len() - 1]);
                    assert(last.contains(t[i]));
                }
            }
        }
    }
}

/// A text that starts with a colon is not an IPv4 address.
proof fn lemma_starts_badly(t: Seq<char>)
    requires
        t.len() > 0,
        t[0] == ':',
    ensures
        parsed_v4(t) is None,
{
    let n = first_of(t, '.');
    law_first_of(t, '.');
    let first = split(t, '.')[0];
    if n >= t.len() {
        assert(first == t);
    } else {
        assert(first == t.take(n as int));
        assert(n > 0);
    }
    assert(first[0] == ':');
    lemma_number_bad(first, 10, 0);
}

/// What is written of an address is read as that address, and no two addresses are
/// written alike.
pub proof fn law_address_read_back(ip: IpAddr)
    ensures
        parsed_ip(ip.text()) == Some(ip),
{
    match ip {
        IpAddr::V4(a) => {
            law_octets_back(ip);
            lemma_v4_read(ip.octets());
        },
        IpAddr::V6(a) => {
            let s = groups(a as nat, 8);
            law_groups_back(a);
            if is_mapped(s) {
                lemma_v6_read_mapped(s);
            } else {
                let start = longest_zeros(s, 0);
                let len = zeros_from(s, start);
                lemma_zeros(s, 0);
                lemma_zeros(s, start);
                if len > 1 {
                    lemma_v6_read_short(s, start, len);
                } else {
                    lemma_v6_read_plain(s);
                }
            }
        },
    }
}

/// Whether a text is a group of an IPv6 address: one to four hexadecimal digits.
pub open spec fn is_group(p: Seq<char>) -> bool {
    1 <= p.len() <= 4 && number(p, 16) is Some
}

/// Whether all pieces are groups.
pub open spec fn are_groups(pieces: Seq<Seq<char>>) -> bool {
    forall|i: int| 0 <= i < pieces.len() ==> is_group(#[trigger] pieces[i])
}

/// What the groups are worth, one by one.
pub open spec fn group_values(pieces: Seq<Seq<char>>) -> Seq<u16> {
    Seq::new(pieces.len(), |i: int| number(pieces[i], 16)->0 as u16)
}

/// The pieces with the text of an IPv4 address behind them, where there is one.
pub open spec fn with_v4(pieces: Seq<Seq<char>>, v4: Option<u32>) -> Seq<Seq<char>> {
    match v4 {
        Some(x) => pieces.push(IpAddr::V4(x).text()),
        None => pieces,
    }
}

/// The two groups that an IPv4 address makes, where there is one.
pub open spec fn v4_values(v4: Option<u32>) -> Seq<u16> {
    match v4 {
        Some(x) => seq![(x / 0x1_0000) as u16, (x % 0x1_0000) as u16],
        None => Seq::empty(),
    }
}

/// Whether a text spells an IPv6 address: eight groups with colons between them, or at
/// most seven with a double colon in the place of the zeros that make them eight. The last
/// two groups may be written as an IPv4 address.
pub open spec fn spells(
    s: Seq<char>,
    head: Seq<Seq<char>>,
    tail: Seq<Seq<char>>,
    v4: Option<u32>,
    short: bool,
) -> bool {
    let count = head.len() + tail.len() + v4_values(v4).len();
    &&& are_groups(head)
    &&& are_groups(tail)
    &&& short ==> count <= 7 && s == joined(head, ':') + "::"@ + joined(with_v4(tail, v4), ':')
    &&& !short ==> count == 8 && head.len() == 0 && s == joined(with_v4(tail, v4), ':')
}

/// The eight groups that are spelled.
pub open spec fn spelled(head: Seq<Seq<char>>, tail: Seq<Seq<char>>, v4: Option<u32>) -> Seq<u16> {
    let back = group_values(tail) + v4_values(v4);
    group_values(head) + Seq::new((8 - head.len() - back.len()) as nat, |i: int| 0u16) + back
}

proof fn lemma_group_at(n: nat, len: nat, i: int)
    requires
        0 <= i < len,
    ensures
        groups(n, len).len() == len,
        groups(n, len)[i] == n / pow2((16 * (len - 1 - i)) as nat) % 0x1_0000,
    decreases len,
{
    law_groups_len(n, len);
    law_groups_len(n / 0x1_0000, (len - 1) as nat);
    lemma2_to64();
    if i == len - 1 {
        assert(n / 1 == n);
    } else {
        lemma_group_at(n / 0x1_0000, (len - 1) as nat, i);
        let k = (16 * (len - 2 - i)) as nat;
        lemma_pow2_adds(16, k);
        lemma_pow2_pos(k);
        vstd::arithmetic::div_mod::lemma_div_denominator(n as int, 0x1_0000, pow2(k) as int);
        assert(16 + k == 16 * (len - 1 - i));
    }
}

proof fn lemma_from_groups(s: Seq<u16>)
    ensures
        groups(from_groups(s), s.len()) == s,
        from_groups(s) < pow2(16 * s.len()),
    decreases s.len(),
{
    lemma2_to64();
    if s.len() > 0 {
        let front = s.drop_last();
        lemma_from_groups(front);
        let n = from_groups(s);
        assert(n / 0x1_0000 == from_groups(front) && n % 0x1_0000 == s.last());
        assert(front.push(s.last()) =~= s);
        lemma_pow2_adds((16 * front.len()) as nat, 16);
        assert(16 * front.len() + 16 == 16 * s.len());
    } else {
        assert(groups(0, 0) =~= s);
    }
}

/// A group has no colon and no dot in it.
proof fn lemma_group_plain(p: Seq<char>)
    requires
        is_group(p),
    ensures
        !p.contains(':'),
        !p.contains('.'),
{
    if p.contains(':') {
        let k = choose|k: int| 0 <= k < p.len() && p[k] == ':';
        lemma_number_bad(p, 16, k);
    }
    if p.contains('.') {
        let k = choose|k: int| 0 <= k < p.len() && p[k] == '.';
        lemma_number_bad(p, 16, k);
    }
}

proof fn lemma_group_value(p: Seq<char>)
    requires
        is_group(p),
    ensures
        parsed_group(p) == Some(number(p, 16)->0 as u16),
{
}

proof fn lemma_values_read(pieces: Seq<Seq<char>>, v4_last: bool)
    requires
        are_groups(pieces),
    ensures
        parsed_groups(pieces, v4_last) == Some(group_values(pieces)),
    decreases pieces.len(),
{
    if pieces.len() == 0 {
        assert(group_values(pieces) =~= Seq::empty());
    } else {
        let front = pieces.drop_last();
        assert(is_group(pieces[pieces.len() - 1]));
        assert forall|i: int| 0 <= i < front.len() implies is_group(#[trigger] front[i]) by {
            assert(is_group(pieces[i]));
        }
        lemma_values_read(front, false);
        lemma_group_value(pieces.last());
        assert(group_values(front) + seq![number(pieces.last(), 16)->0 as u16] =~= group_values(
            pieces,
        ));
    }
}

proof fn lemma_v4_piece(x: u32)
    ensures
        parsed_group(IpAddr::V4(x).text()) is None,
        parsed_v4(IpAddr::V4(x).text()) == Some(x),
        !IpAddr::V4(x).text().contains(':'),
        IpAddr::V4(x).text().len() > 0,
        groups(x as nat, 2) == v4_values(Some(x)),
{
    law_v4_has_one_text(IpAddr::V4(x).text(), x);
    law_octets_back(IpAddr::V4(x));
    let bytes = IpAddr::V4(x).octets();
    let t = IpAddr::V4(x).text();
    lemma_dotted(bytes);
    let k = choose|k: int| 0 <= k < t.len() && t[k] == '.';
    lemma_number_bad(t, 16, k);
    reveal_with_fuel(groups, 3);
    assert(x as nat / 0x1_0000 % 0x1_0000 == x as nat / 0x1_0000);
    assert(groups(x as nat, 2) =~= v4_values(Some(x)));
}

proof fn lemma_with_v4_read(pieces: Seq<Seq<char>>, v4: Option<u32>)
    requires
        are_groups(pieces),
    ensures
        parsed_groups(with_v4(pieces, v4), true) == Some(group_values(pieces) + v4_values(v4)),
        forall|i: int|
            0 <= i < with_v4(pieces, v4).len() ==> !(#[trigger] with_v4(pieces, v4)[i]).contains(':')
                && with_v4(pieces, v4)[i].len() > 0,
{
    let all = with_v4(pieces, v4);
    assert forall|i: int| 0 <= i < all.len() implies !(#[trigger] all[i]).contains(':')
        && all[i].len() > 0 by {
        if i < pieces.len() {
            assert(is_group(pieces[i]));
            lemma_group_plain(pieces[i]);
        } else {
            lemma_v4_piece(v4->0);
        }
    }
    match v4 {
        Some(x) => {
            lemma_v4_piece(x);
            lemma_values_read(pieces, false);
            assert(all.drop_last() =~= pieces);
        },
        None => {
            lemma_values_read(pieces, true);
            assert(group_values(pieces) + v4_values(v4) =~= group_values(pieces));
        },
    }
}

proof fn lemma_joined_neat(pieces: Seq<Seq<char>>)
    requires
        pieces.len() > 0,
        forall|i: int|
            0 <= i < pieces.len() ==> !(#[trigger] pieces[i]).contains(':') && pieces[i].len() > 0,
    ensures
        is_neat(joined(pieces, ':')),
    decreases pieces.len(),
{
    let last = pieces[pieces.len() - 1];
    assert(!last.contains(':') && last.len() > 0);
    assert forall|i: int| 0 <= i < last.len() implies last[i] != ':' by {
        assert(last.contains(last[i]));
    }
    if pieces.len() > 1 {
        let front = pieces.drop_last();
        assert forall|i: int| 0 <= i < front.len() implies !(#[trigger] front[i]).contains(':')
            && front[i].len() > 0 by {
            assert(front[i] == pieces[i]);
        }
        lemma_joined_neat(front);
        let f = joined(front, ':');
        let t = joined(pieces, ':');
        let n = f.len() as int;
        assert(t == f.push(':') + last);
        assert forall|i: int| 0 <= i && i + 1 < t.len() implies !(t[i] == ':' && #[trigger] t[i + 1]
            == ':') by {
            if i + 1 < n {
                assert(t[i] == f[i] && t[i + 1] == f[i + 1]);
            } else if i + 1 == n {
                assert(t[i] == f.last());
            } else {
                assert(t[i + 1] == last[i - n]);
            }
        }
    } else {
        assert(joined(pieces, ':') == last);
    }
}

proof fn lemma_side(pieces: Seq<Seq<char>>, v4: Option<u32>)
    requires
        are_groups(pieces),
    ensures
        parsed_side(joined(with_v4(pieces, v4), ':'), true) == Some(
            group_values(pieces) + v4_values(v4),
        ),
        v4 is None ==> parsed_side(joined(pieces, ':'), false) == Some(group_values(pieces)),
        joined(with_v4(pieces, v4), ':').len() == 0 || is_neat(joined(with_v4(pieces, v4), ':')),
        with_v4(pieces, v4).len() > 0 ==> split(joined(with_v4(pieces, v4), ':'), ':') == with_v4(
            pieces,
            v4,
        ),
{
    let all = with_v4(pieces, v4);
    lemma_with_v4_read(pieces, v4);
    if all.len() == 0 {
        assert(group_values(pieces) + v4_values(v4) =~= Seq::empty());
        assert(group_values(pieces) =~= Seq::empty());
    } else {
        lemma_joined_neat(all);
        law_split_joined(all, ':');
        if v4 is None {
            lemma_values_read(pieces, false);
        }
    }
}

/// What a text that spells an IPv6 address is read as.
proof fn lemma_spelled_read(
    s: Seq<char>,
    head: Seq<Seq<char>>,
    tail: Seq<Seq<char>>,
    v4: Option<u32>,
    short: bool,
)
    requires
        spells(s, head, tail, v4, short),
    ensures
        spelled(head, tail, v4).len() == 8,
        parsed_v6(s) == Some(from_groups(spelled(head, tail, v4)) as u128),
{
    let back = group_values(tail) + v4_values(v4);
    lemma_side(tail, v4);
    lemma_side(head, None);
    let all = spelled(head, tail, v4);
    if short {
        lemma_finds_double_colon(joined(head, ':'), joined(with_v4(tail, v4), ':'));
        reveal_strlit("::");
        let zeros = Seq::new((8 - head.len() - back.len()) as nat, |i: int| 0u16);
        assert(all =~= group_values(head) + zeros + back);
        assert(double_colon(s) < s.len());
    } else {
        lemma_double_colon(s, s.len());
        assert(all =~= back);
    }
}

/// The groups that pieces are read as come from groups, but for an IPv4 address at the end.
proof fn lemma_groups_spelled(pieces: Seq<Seq<char>>, v4_last: bool) -> (res: (
    Seq<Seq<char>>,
    Option<u32>,
))
    requires
        parsed_groups(pieces, v4_last) is Some,
    ensures
        are_groups(res.0),
        pieces == with_v4(res.0, res.1),
        parsed_groups(pieces, v4_last) == Some(group_values(res.0) + v4_values(res.1)),
        !v4_last ==> res.1 is None,
    decreases pieces.len(),
{
    if pieces.len() == 0 {
        assert(pieces =~= Seq::empty());
        assert(group_values(pieces) + v4_values(None) =~= Seq::empty());
        (pieces, None)
    } else {
        let front = pieces.drop_last();
        let last = pieces.last();
        let (f, none) = lemma_groups_spelled(front, false);
        assert(front == f);
        assert(group_values(f) + v4_values(None) =~= group_values(f));
        if parsed_group(last) is Some {
            assert forall|i: int| 0 <= i < pieces.len() implies is_group(#[trigger] pieces[i]) by {
                if i < front.len() {
                    assert(is_group(f[i]));
                }
            }
            assert(group_values(f) + seq![parsed_group(last)->0] =~= group_values(pieces)
                + v4_values(None));
            (pieces, None)
        } else {
            let x = parsed_v4(last)->0;
            law_v4_has_one_text(last, x);
            lemma_v4_piece(x);
            assert(f.push(last) =~= pieces);
            (f, Some(x))
        }
    }
}

proof fn lemma_at_double_colon(s: Seq<char>)
    ensures
        double_colon(s) <= s.len(),
        double_colon(s) < s.len() ==> {
            let k = double_colon(s) as int;
            k + 1 < s.len() && s[k] == ':' && s[k + 1] == ':'
        },
    decreases s.len(),
{
    if s.len() > 0 && !(s.len() >= 2 && s[0] == ':' && s[1] == ':') {
        lemma_at_double_colon(s.skip(1));
    }
}

proof fn lemma_side_spelled(s: Seq<char>, v4_last: bool) -> (res: (Seq<Seq<char>>, Option<u32>))
    requires
        parsed_side(s, v4_last) is Some,
    ensures
        are_groups(res.0),
        s == joined(with_v4(res.0, res.1), ':'),
        parsed_side(s, v4_last) == Some(group_values(res.0) + v4_values(res.1)),
        !v4_last ==> res.1 is None,
{
    if s.len() == 0 {
        let none = Seq::<Seq<char>>::empty();
        assert(group_values(none) + v4_values(None) =~= Seq::empty());
        assert(s =~= Seq::empty());
        (none, None)
    } else {
        law_joined_split(s, ':');
        lemma_groups_spelled(split(s, ':'), v4_last)
    }
}

/// What is read as an IPv6 address is what spells one, and nothing else; and it is read as
/// the address whose groups are spelled.
pub proof fn law_v6_read(s: Seq<char>, a: u128)
    ensures
        parsed_v6(s) == Some(a) <==> exists|
            head: Seq<Seq<char>>,
            tail: Seq<Seq<char>>,
            v4: Option<u32>,
            short: bool,
        |
            #[trigger] spells(s, head, tail, v4, short) && forall|i: int|
                0 <= i < 8 ==> #[trigger] spelled(head, tail, v4)[i] == a as nat / pow2(
                    (16 * (7 - i)) as nat,
                ) % 0x1_0000,
{
    lemma2_to64();
    lemma2_to64_rest();
    lemma_pow2_adds(64, 64);
    assert(pow2(128) == u128::MAX + 1);
    if parsed_v6(s) == Some(a) {
        let k = double_colon(s) as int;
        lemma_at_double_colon(s);
        if k < s.len() {
            let (head, none) = lemma_side_spelled(s.take(k), false);
            let (tail, v4) = lemma_side_spelled(s.skip(k + 2), true);
            reveal_strlit("::");
            assert(s =~= s.take(k) + "::"@ + s.skip(k + 2));
            assert(group_values(head) + v4_values(None) =~= group_values(head));
            assert(spells(s, head, tail, v4, true));
            lemma_spelled_read(s, head, tail, v4, true);
            lemma_same_groups(spelled(head, tail, v4), a);
        } else {
            law_joined_split(s, ':');
            let (tail, v4) = lemma_groups_spelled(split(s, ':'), true);
            let head = Seq::<Seq<char>>::empty();
            assert(spells(s, head, tail, v4, false));
            lemma_spelled_read(s, head, tail, v4, false);
            lemma_same_groups(spelled(head, tail, v4), a);
        }
    }
    if exists|head: Seq<Seq<char>>, tail: Seq<Seq<char>>, v4: Option<u32>, short: bool|
        #[trigger] spells(s, head, tail, v4, short) && forall|i: int|
            0 <= i < 8 ==> #[trigger] spelled(head, tail, v4)[i] == a as nat / pow2(
                (16 * (7 - i)) as nat,
            ) % 0x1_0000 {
        let (head, tail, v4, short) = choose|
            head: Seq<Seq<char>>,
            tail: Seq<Seq<char>>,
            v4: Option<u32>,
            short: bool,
        |
            #[trigger] spells(s, head, tail, v4, short) && forall|i: int|
                0 <= i < 8 ==> #[trigger] spelled(head, tail, v4)[i] == a as nat / pow2(
                    (16 * (7 - i)) as nat,
                ) % 0x1_0000;
        lemma_spelled_read(s, head, tail, v4, short);
        let g = spelled(head, tail, v4);
        assert forall|i: int| 0 <= i < 8 implies g[i] == groups(a as nat, 8)[i] by {
            lemma_group_at(a as nat, 8, i);
        }
        law_groups_back(a);
        assert(g =~= groups(a as nat, 8));
    }
}

proof fn lemma_same_groups(g: Seq<u16>, a: u128)
    requires
        g.len() == 8,
        from_groups(g) as u128 == a,
        pow2(128) == u128::MAX + 1,
    ensures
        forall|i: int|
            0 <= i < 8 ==> #[trigger] g[i] == a as nat / pow2((16 * (7 - i)) as nat) % 0x1_0000,
{
    lemma_from_groups(g);
    assert forall|i: int| 0 <= i < 8 implies #[trigger] g[i] == a as nat / pow2(
        (16 * (7 - i)) as nat,
    ) % 0x1_0000 by {
        lemma_group_at(a as nat, 8, i);
    }
}

/// A text is read as an IPv4 address if it is one, and otherwise as an IPv6 address if it
/// is one of those.
pub proof fn law_family(s: Seq<char>)
    ensures
        parsed_v4(s) matches Some(a) ==> parsed_ip(s) == Some(IpAddr::V4(a)),
        parsed_v4(s) is None ==> (parsed_ip(s) is Some <==> parsed_v6(s) is Some),
        parsed_v4(s) is None ==> (parsed_v6(s) matches Some(a) ==> parsed_ip(s) == Some(
            IpAddr::V6(a),
        )),
{
}

/// An address is written from its own bits: an IPv4 address as its bytes are shown, an IPv6
/// address by its eight groups, each the number without the groups behind it, modulo 2^16.
pub proof fn law_text_of_address(ip: IpAddr, s: Seq<u16>)
    ensures
        ip is V4 ==> ip.text() == shown(ip.octets()),
        ip matches IpAddr::V6(a) ==> s.len() == 8 && (forall|i: int|
            0 <= i < 8 ==> #[trigger] s[i] == a as nat / pow2((16 * (7 - i)) as nat) % 0x1_0000)
            ==> ip.text() == v6_text(s),
{
    law_octets_shown(ip);
    if let IpAddr::V6(a) = ip {
        if s.len() == 8 && (forall|i: int|
            0 <= i < 8 ==> #[trigger] s[i] == a as nat / pow2((16 * (7 - i)) as nat) % 0x1_0000) {
            law_groups_len(a as nat, 8);
            assert forall|i: int| 0 <= i < 8 implies s[i] == groups(a as nat, 8)[i] by {
                lemma_group_at(a as nat, 8, i);
            }
            assert(s =~= groups(a as nat, 8));
        }
    }
}

} // verus!
