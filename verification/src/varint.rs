//! Base-128 variable-length integers, as protobuf writes them: seven bits to a
//! byte, least significant group first, the top bit set on every byte but the
//! last.

use vstd::arithmetic::power2::{lemma2_to64, lemma2_to64_rest, lemma_pow2_adds, lemma_pow2_strictly_increases, pow2};
use vstd::bits::lemma_u64_shl_is_mul;
use vstd::prelude::*;

verus! {

/// The most bytes a varint may take.
pub const MAX_VARINT_LEN: usize = 10;

/// One past the greatest value of a 64-bit unsigned integer.
pub open spec fn two_to_64() -> nat {
    0x1_0000_0000_0000_0000
}

/// The number spelled by the bytes of `s` from index `k` up to the first byte
/// below 0x80, and how many bytes those are; `None` when no such byte comes
/// before the end of `s` or before index ten.
pub open spec fn groups_from(s: Seq<u8>, k: nat) -> Option<(nat, nat)>
    decreases MAX_VARINT_LEN - k,
{
    if k >= MAX_VARINT_LEN || k >= s.len() {
        None
    } else if s[k as int] < 0x80 {
        Some((s[k as int] as nat, 1nat))
    } else {
        match groups_from(s, k + 1) {
            Some((high, n)) => Some((high * 128 + (s[k as int] - 0x80) as nat, n + 1)),
            None => None,
        }
    }
}

/// The varint at the front of `s`: its value, of which the bits beyond the
/// sixty-fourth are dropped, and its length in bytes.
pub open spec fn decode_varint(s: Seq<u8>) -> Option<(u64, nat)> {
    match groups_from(s, 0) {
        Some((v, n)) => Some(((v % two_to_64()) as u64, n)),
        None => None,
    }
}

/// The varint at position `at` of `s`.
pub open spec fn varint_at(s: Seq<u8>, at: int) -> Option<(u64, nat)> {
    if 0 <= at <= s.len() {
        decode_varint(s.skip(at))
    } else {
        None
    }
}

/// The shortest varint for `v`.
pub open spec fn encode_varint(v: nat) -> Seq<u8>
    decreases v,
{
    if v < 0x80 {
        seq![v as u8]
    } else {
        seq![(v % 128 + 0x80) as u8] + encode_varint(v / 128)
    }
}

proof fn lemma_or_group(acc: u64, x: u64, shift: u64)
    requires
        shift <= 56,
        acc < pow2(shift as nat),
        x < 128,
    ensures
        (acc | (x << shift)) == acc + x * pow2(shift as nat),
        acc + x * pow2(shift as nat) < pow2((shift + 7) as nat),
{
    let p = pow2(shift as nat) as int;
    lemma2_to64();
    lemma2_to64_rest();
    lemma_pow2_adds(shift as nat, 7);
    if shift < 56 {
        lemma_pow2_strictly_increases(shift as nat, 56);
    }
    assert(acc + x * p < p * 128) by (nonlinear_arith)
        requires
            acc < p,
            x < 128,
    ;
    assert(p * 128 <= 0x8000_0000_0000_0000) by (nonlinear_arith)
        requires
            p <= 0x100_0000_0000_0000,
    ;
    assert(1 * p == p);
    lemma_u64_shl_is_mul(1, shift);
    lemma_u64_shl_is_mul(x, shift);
    assert((acc | (x << shift)) == acc + (x << shift)) by (bit_vector)
        requires
            shift <= 56,
            acc < (1u64 << shift),
            x < 128,
    ;
}

proof fn lemma_or_last_group(acc: u64, x: u64)
    requires
        acc < pow2(63),
        x < 128,
    ensures
        (acc | (x << 63)) == (acc + x * pow2(63)) % (two_to_64() as int),
{
    lemma2_to64_rest();
    assert((acc | (x << 63)) == acc + (x % 2) * 0x8000_0000_0000_0000) by (bit_vector)
        requires
            acc < 0x8000_0000_0000_0000,
            x < 128,
    ;
}

proof fn lemma_groups_from_bounds(s: Seq<u8>, k: nat)
    ensures
        groups_from(s, k) matches Some((v, n)) ==> 1 <= n && k + n <= s.len() && k + n
            <= MAX_VARINT_LEN,
    decreases MAX_VARINT_LEN - k,
{
    if k < MAX_VARINT_LEN {
        lemma_groups_from_bounds(s, k + 1);
    }
}

proof fn lemma_groups_from_extend(s: Seq<u8>, t: Seq<u8>, k: nat)
    ensures
        groups_from(s, k) is Some ==> groups_from(s + t, k) == groups_from(s, k),
    decreases MAX_VARINT_LEN - k,
{
    if k < MAX_VARINT_LEN && k < s.len() {
        lemma_groups_from_extend(s, t, k + 1);
    }
}

/// A varint that starts a byte string takes at least one byte and at most ten,
/// and lies within the string.
pub proof fn law_varint_length(s: Seq<u8>)
    ensures
        decode_varint(s) matches Some((v, n)) ==> 1 <= n <= MAX_VARINT_LEN && n <= s.len(),
{
    lemma_groups_from_bounds(s, 0);
}

/// What follows a varint does not change how it reads.
pub proof fn law_varint_prefix(s: Seq<u8>, t: Seq<u8>)
    requires
        decode_varint(s) is Some,
    ensures
        decode_varint(s + t) == decode_varint(s),
{
    lemma_groups_from_extend(s, t, 0);
}

/// `encode_varint(v)`, read from index `k` of a string that holds it there, is
/// `v` again.
proof fn lemma_encode_groups(v: nat, s: Seq<u8>, k: nat)
    requires
        v < two_to_64(),
        k + encode_varint(v).len() <= s.len(),
        s.subrange(k as int, (k + encode_varint(v).len()) as int) == encode_varint(v),
        k + encode_varint(v).len() <= MAX_VARINT_LEN,
    ensures
        groups_from(s, k) == Some((v, encode_varint(v).len())),
    decreases v,
{
    let code = encode_varint(v);
    assert(s[k as int] == s.subrange(k as int, (k + code.len()) as int)[0]);
    if v >= 0x80 {
        let rest = encode_varint(v / 128);
        assert(code.len() == rest.len() + 1);
        assert(code.skip(1) == rest);
        assert(s.subrange((k + 1) as int, (k + 1 + rest.len()) as int) == s.subrange(
            k as int,
            (k + code.len()) as int,
        ).skip(1));
        lemma_encode_groups(v / 128, s, k + 1);
    }
}

proof fn lemma_encode_len(v: nat, k: nat)
    requires
        1 <= k,
        v < pow2(7 * k),
    ensures
        1 <= encode_varint(v).len() <= k,
    decreases k,
{
    lemma2_to64();
    if v >= 0x80 {
        assert(k >= 2) by {
            if k == 1 {
                assert(pow2(7) == 128);
            }
        }
        lemma_pow2_adds(7, (7 * k - 7) as nat);
        assert(v / 128 < pow2((7 * k - 7) as nat)) by (nonlinear_arith)
            requires
                v < 128 * pow2((7 * k - 7) as nat),
        ;
        lemma_encode_len(v / 128, (k - 1) as nat);
    }
}

/// Reading a varint gives back the number that was written, whatever bytes come
/// after it.
pub proof fn law_varint_round_trip(v: u64, rest: Seq<u8>)
    ensures
        decode_varint(encode_varint(v as nat) + rest) == Some(
            (v, encode_varint(v as nat).len()),
        ),
        1 <= encode_varint(v as nat).len() <= MAX_VARINT_LEN,
{
    let code = encode_varint(v as nat);
    lemma2_to64_rest();
    lemma_pow2_strictly_increases(64, 70);
    lemma_encode_len(v as nat, 10);
    assert((code + rest).subrange(0, code.len() as int) == code);
    lemma_encode_groups(v as nat, code + rest, 0);
}

/// Reads the varint at `offset`: its value and how many bytes it took.
pub fn read_varint(data: &[u8], offset: usize) -> (res: Option<(u64, usize)>)
    ensures
        match varint_at(data@, offset as int) {
            Some((v, n)) => res == Some((v, n as usize)) && offset + n <= data.len(),
            None => res is None,
        },
{
    if offset > data.len() {
        return None;
    }
    let ghost s = data@.skip(offset as int);
    let mut result: u64 = 0;
    let mut shift: u32 = 0;
    let mut pos: usize = offset;
    proof {
        lemma2_to64();
    }
    loop
        invariant
            offset <= data.len(),
            s == data@.skip(offset as int),
            offset <= pos <= data.len(),
            pos - offset <= 9,
            shift == 7 * (pos - offset),
            result < pow2(shift as nat),
            match groups_from(s, (pos - offset) as nat) {
                Some((v, n)) => groups_from(s, 0) == Some(
                    (result as nat + v * pow2(shift as nat), n + (pos - offset) as nat),
                ),
                None => groups_from(s, 0) is None,
            },
        decreases data.len() - pos,
    {
        if pos >= data.len() {
            return None;
        }
        let byte = data[pos];
        let ghost k = (pos - offset) as nat;
        let ghost before = result;
        assert(byte == s[k as int]);
        assert((byte & 0x7F) as u64 == byte as u64 % 128) by (bit_vector);
        assert((byte & 0x80 == 0) == (byte < 0x80)) by (bit_vector);
        let group: u64 = (byte & 0x7F) as u64;
        proof {
            if shift < 63 {
                lemma_or_group(result, group, shift as u64);
            } else {
                lemma_or_last_group(result, group);
            }
        }
        result = result | (group << shift);
        pos = pos + 1;
        if byte & 0x80 == 0 {
            proof {
                lemma2_to64_rest();
                if shift < 63 {
                    if shift + 7 < 63 {
                        lemma_pow2_strictly_increases((shift + 7) as nat, 63);
                    }
                    assert(result as nat == before as nat + group as nat * pow2(shift as nat));
                }
            }
            return Some((result, pos - offset));
        }
        shift = shift + 7;
        if shift > 63 {
            return None;
        }
        proof {
            let p = pow2((shift - 7) as nat) as int;
            lemma2_to64();
            lemma_pow2_adds((shift - 7) as nat, 7);
            match groups_from(s, k + 1) {
                Some((v, n)) => {
                    assert(before + (v * 128 + group) * p == (before + group * p) + v * (p * 128))
                        by (nonlinear_arith);
                },
                None => {},
            }
        }
    }
}

/// The low seven bits of the first `n` bytes, each byte worth 128 times the one before
/// it.
pub open spec fn weighed(s: Seq<u8>, n: nat) -> nat
    decreases n,
{
    if n == 0 {
        0
    } else {
        weighed(s, (n - 1) as nat) + (s[n - 1] % 128) as nat * pow2((7 * (n - 1)) as nat)
    }
}

proof fn lemma_groups_weighed(s: Seq<u8>, k: nat, n: nat)
    requires
        k < n <= 10,
        n <= s.len(),
        forall|i: int| k <= i < n - 1 ==> (#[trigger] s[i]) >= 0x80,
        s[n - 1] < 0x80,
    ensures
        groups_from(s, k) matches Some((v, m)) && m == n - k && weighed(s, n) == weighed(s, k) + v
            * pow2(7 * k),
    decreases n - k,
{
    if k == n - 1 {
        assert(s[k as int] < 0x80);
    } else {
        assert(s[k as int] >= 0x80);
        lemma_groups_weighed(s, k + 1, n);
        let (high, m) = groups_from(s, k + 1).unwrap();
        let low = (s[k as int] - 0x80) as nat;
        lemma_pow2_adds(7 * k, 7);
        lemma2_to64();
        let p = pow2(7 * k);
        assert(7 * (k + 1) == 7 * k + 7);
        assert(weighed(s, k + 1) == weighed(s, k) + low * p);
        assert(low * p + high * (p * 128) == (high * 128 + low) * p) by (nonlinear_arith);
    }
}

proof fn lemma_no_groups(s: Seq<u8>, k: nat)
    requires
        forall|i: int| k <= i < s.len() && i < 10 ==> (#[trigger] s[i]) >= 0x80,
    ensures
        groups_from(s, k) is None,
    decreases MAX_VARINT_LEN - k,
{
    if k < MAX_VARINT_LEN && k < s.len() {
        assert(s[k as int] >= 0x80);
        lemma_no_groups(s, k + 1);
    }
}

/// What a varint is worth: it ends at the first byte below 0x80, which is the tenth at
/// the latest; its value is the sum of its bytes' low seven bits, each byte worth 128
/// times the one before it, as far as 64 bits go. Without such a byte there is none.
pub proof fn law_varint_value(s: Seq<u8>, n: nat)
    ensures
        1 <= n <= 10 && n <= s.len() && s[n - 1] < 0x80 && (forall|i: int|
            0 <= i < n - 1 ==> (#[trigger] s[i]) >= 0x80) ==> decode_varint(s) == Some(
            ((weighed(s, n) % 0x1_0000_0000_0000_0000) as u64, n),
        ),
        (forall|i: int| 0 <= i < s.len() && i < 10 ==> (#[trigger] s[i]) >= 0x80) ==> decode_varint(
            s,
        ) is None,
{
    if 1 <= n <= 10 && n <= s.len() && s[n - 1] < 0x80 && (forall|i: int|
        0 <= i < n - 1 ==> (#[trigger] s[i]) >= 0x80) {
        lemma_groups_weighed(s, 0, n);
        lemma2_to64();
        let v = groups_from(s, 0).unwrap().0;
        assert(v * 1 == v);
    }
    if forall|i: int| 0 <= i < s.len() && i < 10 ==> (#[trigger] s[i]) >= 0x80 {
        lemma_no_groups(s, 0);
    }
}

/// A varint that is written is read back also by what its bytes are worth: every byte
/// but the last has its top bit set, and the sum of the low seven bits is the number.
pub proof fn law_varint_written(v: u64)
    ensures
        ({
            let code = encode_varint(v as nat);
            &&& 1 <= code.len() <= 10
            &&& code[code.len() - 1] < 0x80
            &&& forall|i: int| 0 <= i < code.len() - 1 ==> (#[trigger] code[i]) >= 0x80
            &&& weighed(code, code.len()) % 0x1_0000_0000_0000_0000 == v
        }),
{
    let code = encode_varint(v as nat);
    law_varint_round_trip(v, Seq::empty());
    assert(code + Seq::<u8>::empty() == code);
    lemma_encode_shape(v as nat);
    law_varint_value(code, code.len());
}

proof fn lemma_encode_shape(v: nat)
    ensures
        encode_varint(v).len() >= 1,
        encode_varint(v)[encode_varint(v).len() - 1] < 0x80,
        forall|i: int| 0 <= i < encode_varint(v).len() - 1 ==> (#[trigger] encode_varint(v)[i]) >= 0x80,
    decreases v,
{
    if v >= 0x80 {
        lemma_encode_shape(v / 128);
        let code = encode_varint(v);
        let rest = encode_varint(v / 128);
        assert(code[code.len() - 1] == rest[rest.len() - 1]);
        assert forall|i: int| 0 <= i < code.len() - 1 implies (#[trigger] code[i]) >= 0x80 by {
            if i > 0 {
                assert(code[i] == rest[i - 1]);
            }
        }
    }
}

/// Reading at a place is reading what follows it; beyond the end there is nothing.
pub proof fn law_varint_at(s: Seq<u8>, at: int)
    ensures
        0 <= at <= s.len() ==> varint_at(s, at) == decode_varint(s.skip(at)),
        at < 0 || at > s.len() ==> varint_at(s, at) is None,
{
}

} // verus!
