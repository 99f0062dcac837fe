//! Numbers as text, text as numbers, and text cut into pieces.

use vstd::prelude::*;
use vstd::slice::slice_subrange;

verus! {

/// `String::push` appends the character.
pub assume_specification[ String::push ](s: &mut String, c: char)
    ensures
        final(s)@ == old(s)@.push(c),
;

/// The digit for `d`, in lower case where it is a letter.
pub open spec fn digit(d: int) -> char {
    if d < 10 {
        (0x30 + d) as char
    } else {
        (0x57 + d) as char
    }
}

/// The digits of `n` in the given base, without leading zeros.
pub open spec fn digits(n: nat, base: nat) -> Seq<char>
    decreases n,
{
    if base < 2 || n < base {
        seq![digit(n as int)]
    } else {
        proof {
            vstd::arithmetic::div_mod::lemma_div_decreases(n as int, base as int);
        }
        digits(n / base, base).push(digit((n % base) as int))
    }
}

/// `n` in decimal.
pub open spec fn decimal(n: nat) -> Seq<char> {
    digits(n, 10)
}

/// `n` in decimal, with a minus sign if it is negative.
pub open spec fn signed_decimal(n: int) -> Seq<char> {
    if n < 0 {
        seq!['-'] + decimal((-n) as nat)
    } else {
        decimal(n as nat)
    }
}

/// `n` in decimal, with zeros in front up to the given width.
pub open spec fn zero_padded(n: nat, width: nat) -> Seq<char> {
    let text = decimal(n);
    let zeros = if text.len() < width { (width - text.len()) as nat } else { 0 };
    Seq::new(zeros, |i: int| '0') + text
}

/// The two hexadecimal digits of a byte.
pub open spec fn hex_byte(b: u8) -> Seq<char> {
    seq![digit(b as int / 16), digit(b as int % 16)]
}

/// Two hexadecimal digits for each byte.
pub open spec fn hex(bytes: Seq<u8>) -> Seq<char>
    decreases bytes.len(),
{
    if bytes.len() == 0 {
        Seq::empty()
    } else {
        hex(bytes.drop_last()) + hex_byte(bytes.last())
    }
}

fn digit_char(d: u8) -> (c: char)
    requires
        d < 16,
    ensures
        c == digit(d as int),
{
    if d < 10 {
        (0x30 + d) as char
    } else {
        (0x57 + d) as char
    }
}

/// Appends `n` in decimal.
pub fn push_decimal(out: &mut String, n: u64)
    ensures
        final(out)@ == old(out)@ + decimal(n as nat),
    decreases n,
{
    if n >= 10 {
        push_decimal(out, n / 10);
    }
    out.push(digit_char((n % 10) as u8));
    assert(out@ =~= old(out)@ + decimal(n as nat));
}

/// Appends `n` in hexadecimal, without leading zeros.
pub fn push_hex(out: &mut String, n: u16)
    ensures
        final(out)@ == old(out)@ + digits(n as nat, 16),
    decreases n,
{
    if n >= 16 {
        push_hex(out, n / 16);
    }
    out.push(digit_char((n % 16) as u8));
    assert(out@ =~= old(out)@ + digits(n as nat, 16));
}

/// Appends `n` in decimal, with its sign if it is negative.
pub fn push_signed_decimal(out: &mut String, n: i64)
    ensures
        final(out)@ == old(out)@ + signed_decimal(n as int),
{
    if n < 0 {
        out.push('-');
        let magnitude: u64 = if n == i64::MIN {
            0x8000_0000_0000_0000
        } else {
            (-n) as u64
        };
        push_decimal(out, magnitude);
        assert(out@ =~= old(out)@ + signed_decimal(n as int));
    } else {
        push_decimal(out, n as u64);
    }
}

proof fn lemma_zero_padded_step(n: nat, width: nat)
    requires
        width >= 2,
    ensures
        zero_padded(n, width) == zero_padded(n / 10, (width - 1) as nat).push(
            digit((n % 10) as int),
        ),
{
    assert(decimal(0) =~= seq!['0']);
    assert(zero_padded(n, width) =~= zero_padded(n / 10, (width - 1) as nat).push(
        digit((n % 10) as int),
    ));
}

/// Appends `n` in decimal, with zeros in front up to the given width.
pub fn push_zero_padded(out: &mut String, n: u64, width: usize)
    ensures
        final(out)@ == old(out)@ + zero_padded(n as nat, width as nat),
    decreases width,
{
    if width >= 2 {
        push_zero_padded(out, n / 10, width - 1);
        out.push(digit_char((n % 10) as u8));
        proof {
            lemma_zero_padded_step(n as nat, width as nat);
        }
        assert(out@ =~= old(out)@ + zero_padded(n as nat, width as nat));
    } else {
        proof {
            assert(decimal(n as nat).len() >= 1);
            assert(zero_padded(n as nat, width as nat) =~= decimal(n as nat));
        }
        push_decimal(out, n);
    }
}

/// Appends the two hexadecimal digits of a byte.
pub fn push_hex_byte(out: &mut String, b: u8)
    ensures
        final(out)@ == old(out)@ + hex_byte(b),
{
    out.push(digit_char(b / 16));
    out.push(digit_char(b % 16));
    assert(out@ =~= old(out)@ + hex_byte(b));
}

/// The bytes in hexadecimal, two lower-case digits each.
pub fn encode(bytes: &[u8]) -> (text: String)
    ensures
        text@ == hex(bytes@),
{
    let mut text = String::new();
    let mut i: usize = 0;
    assert(bytes@.take(0) =~= Seq::empty());
    while i < bytes.len()
        invariant
            i <= bytes.len(),
            text@ == hex(bytes@.take(i as int)),
        decreases bytes.len() - i,
    {
        push_hex_byte(&mut text, bytes[i]);
        i = i + 1;
        proof {
            assert(bytes@.take(i as int).drop_last() =~= bytes@.take(i - 1));
        }
    }
    assert(bytes@.take(i as int) =~= bytes@);
    text
}

/// Where `c` first stands in `s`; the end of `s` if it does not.
pub open spec fn first_of(s: Seq<char>, c: char) -> nat
    decreases s.len(),
{
    if s.len() == 0 || s[0] == c {
        0
    } else {
        1 + first_of(s.skip(1), c)
    }
}

/// The pieces of `s` between one `c` and the next. There is always one more of
/// them than there are of `c`.
pub open spec fn split(s: Seq<char>, c: char) -> Seq<Seq<char>>
    decreases s.len(),
{
    let n = first_of(s, c);
    if n >= s.len() {
        seq![s]
    } else {
        seq![s.take(n as int)] + split(s.skip(n as int + 1), c)
    }
}

/// `s` without a carriage return at its end.
pub open spec fn without_cr(s: Seq<char>) -> Seq<char> {
    if s.len() > 0 && s.last() == '\r' {
        s.drop_last()
    } else {
        s
    }
}

/// The lines of `s`: each ends at a line feed, with or without a carriage return
/// before it, and the last may lack its ending.
pub open spec fn lines(s: Seq<char>) -> Seq<Seq<char>>
    decreases s.len(),
{
    let n = first_of(s, '\n');
    if s.len() == 0 {
        Seq::empty()
    } else if n >= s.len() {
        seq![s]
    } else {
        seq![without_cr(s.take(n as int))] + lines(s.skip(n as int + 1))
    }
}

/// The pieces as sequences.
pub open spec fn pieces_view(pieces: Seq<&[char]>) -> Seq<Seq<char>> {
    pieces.map_values(|p: &[char]| p@)
}

/// What is first found lies within, and nothing before it is what is sought.
pub proof fn law_first_of(s: Seq<char>, c: char)
    ensures
        first_of(s, c) <= s.len(),
        first_of(s, c) < s.len() ==> s[first_of(s, c) as int] == c,
        forall|i: int| 0 <= i < first_of(s, c) ==> s[i] != c,
    decreases s.len(),
{
    if s.len() > 0 && s[0] != c {
        law_first_of(s.skip(1), c);
        assert forall|i: int| 0 <= i < first_of(s, c) implies s[i] != c by {
            if i > 0 {
                assert(s.skip(1)[i - 1] == s[i]);
            }
        }
    }
}

/// The place is the first one: nothing before it is what is sought.
proof fn lemma_first_is(s: Seq<char>, c: char, n: nat)
    requires
        n <= s.len(),
        n < s.len() ==> s[n as int] == c,
        forall|i: int| 0 <= i < n ==> s[i] != c,
    ensures
        first_of(s, c) == n,
{
    law_first_of(s, c);
    let m = first_of(s, c);
    if m < n {
        assert(s[m as int] != c);
    } else if n < m {
        assert(s[n as int] != c);
    }
}

fn find(s: &[char], from: usize, c: char) -> (at: usize)
    requires
        from <= s@.len(),
    ensures
        from <= at <= s@.len(),
        at == from + first_of(s@.skip(from as int), c),
{
    let mut at: usize = from;
    while at < s.len() && s[at] != c
        invariant
            from <= at <= s@.len(),
            forall|i: int| from <= i < at ==> s@[i] != c,
        decreases s.len() - at,
    {
        at = at + 1;
    }
    proof {
        lemma_first_is(s@.skip(from as int), c, (at - from) as nat);
    }
    at
}

/// Cuts `s` at every `c`.
pub fn split_at<'a>(s: &'a [char], c: char) -> (pieces: Vec<&'a [char]>)
    ensures
        pieces_view(pieces@) == split(s@, c),
{
    let mut pieces: Vec<&'a [char]> = Vec::new();
    let mut from: usize = 0;
    assert(s@.skip(0) =~= s@);
    assert(pieces_view(pieces@) + split(s@, c) =~= split(s@, c));
    loop
        invariant
            from <= s@.len(),
            pieces_view(pieces@) + split(s@.skip(from as int), c) == split(s@, c),
        decreases s.len() - from,
    {
        let ghost before = pieces@;
        let ghost rest = s@.skip(from as int);
        proof {
            law_first_of(rest, c);
        }
        let at: usize = find(s, from, c);
        pieces.push(slice_subrange(s, from, at));
        proof {
            assert(s@.subrange(from as int, at as int) =~= rest.take(at - from));
            assert(pieces_view(pieces@) =~= pieces_view(before).push(rest.take(at - from)));
            if at == s@.len() {
                assert(rest.take(at - from) =~= rest);
                assert(pieces_view(pieces@) =~= pieces_view(before) + seq![rest]);
            } else {
                assert(rest.skip(at - from + 1) =~= s@.skip(at + 1));
                let more = split(s@.skip(at + 1), c);
                assert(pieces_view(before) + (seq![rest.take(at - from)] + more) =~= pieces_view(
                    pieces@,
                ) + more);
            }
        }
        if at == s.len() {
            return pieces;
        }
        from = at + 1;
    }
}

/// Cuts `s` into lines.
pub fn split_lines<'a>(s: &'a [char]) -> (pieces: Vec<&'a [char]>)
    ensures
        pieces_view(pieces@) == lines(s@),
{
    let mut pieces: Vec<&'a [char]> = Vec::new();
    let mut from: usize = 0;
    assert(s@.skip(0) =~= s@);
    assert(pieces_view(pieces@) + lines(s@) =~= lines(s@));
    while from < s.len()
        invariant
            from <= s@.len(),
            pieces_view(pieces@) + lines(s@.skip(from as int)) == lines(s@),
        decreases s.len() - from,
    {
        let ghost before = pieces@;
        let ghost rest = s@.skip(from as int);
        proof {
            law_first_of(rest, '\n');
        }
        let at: usize = find(s, from, '\n');
        let ghost line = rest.take(at - from);
        assert(s@.subrange(from as int, at as int) =~= line);
        if at == s.len() {
            pieces.push(slice_subrange(s, from, at));
            proof {
                assert(line =~= rest);
                assert(pieces_view(pieces@) =~= pieces_view(before) + seq![rest]);
            }
            return pieces;
        }
        let end: usize = if at > from && s[at - 1] == '\r' {
            at - 1
        } else {
            at
        };
        pieces.push(slice_subrange(s, from, end));
        proof {
            assert(s@.subrange(from as int, end as int) =~= without_cr(line));
            assert(rest.skip(at - from + 1) =~= s@.skip(at + 1));
            let more = lines(s@.skip(at + 1));
            assert(pieces_view(pieces@) =~= pieces_view(before).push(without_cr(line)));
            assert(pieces_view(before) + (seq![without_cr(line)] + more) =~= pieces_view(pieces@)
                + more);
        }
        from = at + 1;
    }
    assert(s@.skip(from as int) =~= Seq::empty());
    assert(pieces_view(pieces@) + Seq::<Seq<char>>::empty() =~= pieces_view(pieces@));
    pieces
}

/// The characters of a text.
pub fn chars_of(text: &str) -> (chars: Vec<char>)
    ensures
        chars@ == text@,
{
    let mut chars: Vec<char> = Vec::new();
    for c in iter: text.chars()
        invariant
            iter.seq() == text@,
            chars@ == text@.take(iter.index()),
    {
        chars.push(c);
    }
    assert(text@.take(text@.len() as int) =~= text@);
    chars
}

/// The characters as a text.
pub fn string_of(chars: &[char]) -> (text: String)
    ensures
        text@ == chars@,
{
    let mut text = String::new();
    let mut i: usize = 0;
    while i < chars.len()
        invariant
            i <= chars@.len(),
            text@ == chars@.take(i as int),
        decreases chars.len() - i,
    {
        text.push(chars[i]);
        i = i + 1;
        assert(text@ =~= chars@.take(i as int));
    }
    assert(chars@.take(i as int) =~= chars@);
    text
}

/// The value of a digit in the given base, which is at most sixteen; letters of
/// either case are digits above nine.
pub open spec fn digit_value(c: char, base: nat) -> Option<nat> {
    let d = if '0' <= c <= '9' {
        (c as int - '0' as int) as nat
    } else if 'a' <= c <= 'f' {
        (c as int - 'a' as int + 10) as nat
    } else if 'A' <= c <= 'F' {
        (c as int - 'A' as int + 10) as nat
    } else {
        16
    };
    if d < base {
        Some(d)
    } else {
        None
    }
}

/// The number that a text of digits names; none if it holds anything else.
pub open spec fn number(s: Seq<char>, base: nat) -> Option<nat>
    decreases s.len(),
{
    if s.len() == 0 {
        Some(0)
    } else {
        match (number(s.drop_last(), base), digit_value(s.last(), base)) {
            (Some(n), Some(d)) => Some(n * base + d),
            _ => None,
        }
    }
}

/// The number that a text names, as `u32` reads it: decimal digits, at least one,
/// behind an optional plus sign, not above what 32 bits hold.
pub open spec fn parsed_u32(s: Seq<char>) -> Option<u32> {
    let body = if s.len() > 0 && s[0] == '+' {
        s.skip(1)
    } else {
        s
    };
    match number(body, 10) {
        Some(n) if body.len() > 0 && n <= u32::MAX => Some(n as u32),
        _ => None,
    }
}

fn value_of_digit(c: char, base: u32) -> (res: Option<u32>)
    requires
        base <= 16,
    ensures
        match digit_value(c, base as nat) {
            Some(d) => res == Some(d as u32) && d < base,
            None => res is None,
        },
{
    let d: u32 = if '0' <= c && c <= '9' {
        c as u32 - '0' as u32
    } else if 'a' <= c && c <= 'f' {
        c as u32 - 'a' as u32 + 10
    } else if 'A' <= c && c <= 'F' {
        c as u32 - 'A' as u32 + 10
    } else {
        16
    };
    if d < base {
        Some(d)
    } else {
        None
    }
}

/// More digits never make a number smaller, nor well formed what was not.
proof fn lemma_number_grows(s: Seq<char>, base: nat, k: int)
    requires
        0 <= k <= s.len(),
        base >= 1,
    ensures
        number(s, base) matches Some(n) ==> (number(s.take(k), base) matches Some(m) && m <= n),
    decreases s.len(),
{
    if k == s.len() {
        assert(s.take(k) =~= s);
    } else {
        lemma_number_grows(s.drop_last(), base, k);
        assert(s.drop_last().take(k) =~= s.take(k));
        if let Some(n) = number(s.drop_last(), base) {
            assert(n <= n * base) by (nonlinear_arith)
                requires
                    base >= 1,
            ;
        }
    }
}

/// Reads digits in the given base, as far as 32 bits hold the number.
pub fn read_number(s: &[char], base: u32) -> (res: Option<u32>)
    requires
        1 <= base <= 16,
    ensures
        match number(s@, base as nat) {
            Some(n) => if n <= u32::MAX {
                res == Some(n as u32)
            } else {
                res is None
            },
            None => res is None,
        },
{
    let mut n: u32 = 0;
    let mut i: usize = 0;
    assert(s@.take(0) =~= Seq::empty());
    while i < s.len()
        invariant
            i <= s@.len(),
            1 <= base <= 16,
            number(s@.take(i as int), base as nat) == Some(n as nat),
        decreases s.len() - i,
    {
        proof {
            lemma_number_grows(s@, base as nat, i + 1);
            assert(s@.take(i + 1).drop_last() =~= s@.take(i as int));
        }
        let d: u32 = match value_of_digit(s[i], base) {
            Some(d) => d,
            None => return None,
        };
        assert(n * base <= u32::MAX * 16) by (nonlinear_arith)
            requires
                n <= u32::MAX,
                base <= 16,
        ;
        let next: u64 = n as u64 * base as u64 + d as u64;
        if next > 0xffff_ffff {
            return None;
        }
        n = next as u32;
        i = i + 1;
    }
    assert(s@.take(i as int) =~= s@);
    Some(n)
}

/// Reads a number as `u32` reads it.
pub fn read_u32(s: &[char]) -> (res: Option<u32>)
    ensures
        res == parsed_u32(s@),
{
    let from: usize = if s.len() > 0 && s[0] == '+' {
        1
    } else {
        0
    };
    assert(s@.skip(0) =~= s@);
    assert(s@.subrange(from as int, s@.len() as int) =~= s@.skip(from as int));
    if from == s.len() {
        return None;
    }
    read_number(slice_subrange(s, from, s.len()), 10)
}

/// Different bytes are written differently, two digits to a byte.
pub proof fn law_hex_distinct(a: Seq<u8>, b: Seq<u8>)
    ensures
        hex(a).len() == 2 * a.len(),
        hex(a) == hex(b) ==> a == b,
    decreases a.len() + b.len(),
{
    if a.len() > 0 {
        law_hex_distinct(a.drop_last(), Seq::empty());
    }
    if b.len() > 0 {
        law_hex_distinct(b.drop_last(), Seq::empty());
    }
    if hex(a) == hex(b) {
        if a.len() > 0 && b.len() > 0 {
            let x = hex(a);
            let n = x.len() as int;
            let m = hex(a.drop_last());
            let k = hex(b.drop_last());
            assert(m =~= x.take(n - 2) && k =~= x.take(n - 2));
            assert(x[n - 2] == hex_byte(a.last())[0] && x[n - 1] == hex_byte(a.last())[1]);
            assert(x[n - 2] == hex_byte(b.last())[0] && x[n - 1] == hex_byte(b.last())[1]);
            law_hex_distinct(a.drop_last(), b.drop_last());
            assert(a.drop_last().push(a.last()) =~= a);
            assert(b.drop_last().push(b.last()) =~= b);
        } else {
            assert(hex(a).len() == 2 * a.len() && hex(b).len() == 2 * b.len());
            assert(a =~= b);
        }
    }
}

/// A text without `c` is one piece, and putting `c` and such a text behind another
/// adds one piece to those of the other.
pub proof fn law_split_append(s: Seq<char>, p: Seq<char>, c: char)
    requires
        !p.contains(c),
    ensures
        split(p, c) == seq![p],
        split(s.push(c) + p, c) == split(s, c).push(p),
    decreases s.len(),
{
    lemma_first_is(p, c, p.len());
    let t = s.push(c) + p;
    let n = first_of(s, c);
    law_first_of(s, c);
    assert(t[s.len() as int] == c);
    assert forall|i: int| 0 <= i < n implies t[i] != c by {
        assert(t[i] == s[i]);
    }
    lemma_first_is(t, c, n);
    assert(t.take(n as int) =~= s.take(n as int));
    if n < s.len() {
        let rest = s.skip(n as int + 1);
        law_split_append(rest, p, c);
        assert(t.skip(n as int + 1) =~= rest.push(c) + p);
        assert(split(t, c) =~= split(s, c).push(p));
    } else {
        assert(s.take(n as int) =~= s);
        assert(t.skip(n as int + 1) =~= p);
        assert(split(p, c) =~= seq![p]);
        assert(split(s, c) =~= seq![s]);
        assert(split(t, c) == seq![s] + split(p, c));
        assert(split(t, c) =~= split(s, c).push(p));
    }
}

/// A number written in digits is read as that number. Its digits are digits, there
/// is at least one, and the first is zero only in zero itself.
pub proof fn law_digits_read(n: nat, base: nat)
    requires
        2 <= base <= 16,
    ensures
        number(digits(n, base), base) == Some(n),
        digits(n, base).len() >= 1,
        digits(n, base)[0] == '0' ==> n == 0,
        forall|i: int|
            0 <= i < digits(n, base).len() ==> '0' <= #[trigger] digits(n, base)[i] <= '9' || 'a'
                <= digits(n, base)[i] <= 'f',
    decreases n,
{
    let s = digits(n, base);
    if n < base {
        assert(s =~= seq![digit(n as int)]);
        assert(s.drop_last() =~= Seq::empty());
        assert(number(s.drop_last(), base) == Some(0nat));
        assert(digit_value(s.last(), base) == Some(n));
        assert(0 * base == 0) by (nonlinear_arith);
    } else {
        vstd::arithmetic::div_mod::lemma_div_decreases(n as int, base as int);
        vstd::arithmetic::div_mod::lemma_fundamental_div_mod(n as int, base as int);
        vstd::arithmetic::div_mod::lemma_mod_bound(n as int, base as int);
        let front = digits(n / base, base);
        law_digits_read(n / base, base);
        assert(s =~= front.push(digit((n % base) as int)));
        assert(s.drop_last() =~= front);
        assert(digit_value(s.last(), base) == Some(n % base));
        assert((n / base) * base == base * (n / base)) by (nonlinear_arith);
        assert(s[0] == front[0]);
        assert(n / base != 0) by {
            vstd::arithmetic::div_mod::lemma_div_non_zero(n as int, base as int);
        }
        assert forall|i: int| 0 <= i < s.len() implies '0' <= #[trigger] s[i] <= '9' || 'a' <= s[i]
            <= 'f' by {
            if i < front.len() {
                assert(s[i] == front[i]);
            }
        }
    }
}

/// Whether a text is made of the ten decimal digits alone.
pub open spec fn is_decimal(s: Seq<char>) -> bool {
    forall|i: int| 0 <= i < s.len() ==> '0' <= #[trigger] s[i] <= '9'
}

/// What decimal digits are worth, each ten times the one behind it.
pub open spec fn worth(s: Seq<char>) -> nat
    decreases s.len(),
{
    if s.len() == 0 {
        0
    } else {
        worth(s.drop_last()) * 10 + (s.last() as int - 48) as nat
    }
}

proof fn lemma_worth(s: Seq<char>)
    ensures
        is_decimal(s) ==> number(s, 10) == Some(worth(s)),
        !is_decimal(s) ==> number(s, 10) is None,
    decreases s.len(),
{
    if s.len() > 0 {
        let front = s.drop_last();
        lemma_worth(front);
        if is_decimal(s) {
            assert('0' <= s[s.len() - 1] <= '9');
            assert forall|i: int| 0 <= i < front.len() implies '0' <= #[trigger] front[i] <= '9' by {
                assert(front[i] == s[i]);
            }
        } else if is_decimal(front) {
            assert forall|i: int| 0 <= i < s.len() && '0' <= s.last() <= '9' implies '0'
                <= #[trigger] s[i] <= '9' by {
                if i < front.len() {
                    assert(s[i] == front[i]);
                }
            }
        }
    }
}

/// A number in decimal is worth that number. It is made of digits, at least one, and
/// starts with a zero only if it is zero.
pub proof fn law_decimal(n: nat)
    ensures
        worth(decimal(n)) == n,
        is_decimal(decimal(n)),
        decimal(n).len() >= 1,
        decimal(n)[0] == '0' ==> n == 0 && decimal(n).len() == 1,
    decreases n,
{
    law_digits_read(n, 10);
    lemma_worth(decimal(n));
    lemma_decimal_chars(n);
    assert(decimal(0) =~= seq!['0']);
}

proof fn lemma_decimal_chars(n: nat)
    ensures
        is_decimal(decimal(n)),
    decreases n,
{
    if n >= 10 {
        lemma_decimal_chars(n / 10);
        let s = decimal(n);
        let front = decimal(n / 10);
        assert(s =~= front.push(digit((n % 10) as int)));
        assert forall|i: int| 0 <= i < s.len() implies '0' <= #[trigger] s[i] <= '9' by {
            if i < front.len() {
                assert(s[i] == front[i]);
            }
        }
    }
}

/// A negative number is written as a minus sign and the number without it; another has
/// no sign.
pub proof fn law_signed_decimal(n: int)
    ensures
        n >= 0 ==> is_decimal(signed_decimal(n)) && worth(signed_decimal(n)) == n,
        n < 0 ==> signed_decimal(n).len() > 0 && signed_decimal(n)[0] == '-' && is_decimal(
            signed_decimal(n).skip(1),
        ) && worth(signed_decimal(n).skip(1)) == -n,
{
    if n >= 0 {
        law_decimal(n as nat);
    } else {
        law_decimal((-n) as nat);
        assert(signed_decimal(n).skip(1) =~= decimal((-n) as nat));
    }
}

/// Whether a text is a whole number as it is usually written: digits without zeros in
/// front, and a minus sign before them if it is negative.
pub open spec fn writes(s: Seq<char>, n: int) -> bool {
    let body = if n < 0 {
        s.skip(1)
    } else {
        s
    };
    &&& n < 0 ==> s.len() > 0 && s[0] == '-'
    &&& is_decimal(body)
    &&& body.len() > 0
    &&& body[0] == '0' ==> body.len() == 1
    &&& worth(body) == if n < 0 {
        -n
    } else {
        n
    }
}

/// What is written of a number is that number as it is usually written.
pub proof fn law_signed_decimal_writes(n: int)
    ensures
        writes(signed_decimal(n), n),
{
    law_signed_decimal(n);
    if n >= 0 {
        law_decimal(n as nat);
    } else {
        law_decimal((-n) as nat);
        assert(signed_decimal(n).skip(1) =~= decimal((-n) as nat));
    }
}

proof fn lemma_zeros_worth(k: nat, s: Seq<char>)
    requires
        is_decimal(s),
    ensures
        is_decimal(Seq::new(k, |i: int| '0') + s),
        worth(Seq::new(k, |i: int| '0') + s) == worth(s),
    decreases s.len(), k,
{
    let zeros = Seq::new(k, |i: int| '0');
    let t = zeros + s;
    assert forall|i: int| 0 <= i < t.len() implies '0' <= #[trigger] t[i] <= '9' by {
        if i >= k {
            assert(t[i] == s[i - k]);
        }
    }
    if s.len() > 0 {
        let front = s.drop_last();
        assert forall|i: int| 0 <= i < front.len() implies '0' <= #[trigger] front[i] <= '9' by {
            assert(front[i] == s[i]);
        }
        lemma_zeros_worth(k, front);
        assert(t.drop_last() =~= zeros + front);
    } else if k > 0 {
        let fewer = Seq::new((k - 1) as nat, |i: int| '0');
        lemma_zeros_worth((k - 1) as nat, s);
        assert(t.drop_last() =~= fewer + s);
    }
}

/// A padded number is worth that number, has at least the width asked for, and has no
/// zeros in front beyond it.
pub proof fn law_zero_padded(n: nat, width: nat)
    ensures
        is_decimal(zero_padded(n, width)),
        worth(zero_padded(n, width)) == n,
        zero_padded(n, width).len() >= width,
        zero_padded(n, width).len() > width ==> zero_padded(n, width) == decimal(n),
{
    law_decimal(n);
    let text = decimal(n);
    let zeros = if text.len() < width { (width - text.len()) as nat } else { 0 };
    lemma_zeros_worth(zeros, text);
    if zeros == 0 {
        assert(zero_padded(n, width) =~= text);
    }
}

/// What a hexadecimal digit in lower case is worth; sixteen for anything else.
pub open spec fn nibble(c: char) -> int {
    if '0' <= c <= '9' {
        c as int - 48
    } else if 'a' <= c <= 'f' {
        c as int - 87
    } else {
        16
    }
}

/// Each byte is written as two hexadecimal digits in lower case, the higher first.
pub proof fn law_hex_of_bytes(bytes: Seq<u8>, i: int)
    requires
        0 <= i < bytes.len(),
    ensures
        hex(bytes).len() == 2 * bytes.len(),
        nibble(hex(bytes)[2 * i]) * 16 + nibble(hex(bytes)[2 * i + 1]) == bytes[i],
        nibble(hex(bytes)[2 * i]) < 16,
        nibble(hex(bytes)[2 * i + 1]) < 16,
    decreases bytes.len(),
{
    let front = bytes.drop_last();
    law_hex_distinct(bytes, bytes);
    law_hex_distinct(front, front);
    if i < front.len() {
        law_hex_of_bytes(front, i);
        assert(hex(bytes)[2 * i] == hex(front)[2 * i]);
        assert(hex(bytes)[2 * i + 1] == hex(front)[2 * i + 1]);
    } else {
        assert(hex(bytes)[2 * i] == hex_byte(bytes.last())[0]);
        assert(hex(bytes)[2 * i + 1] == hex_byte(bytes.last())[1]);
    }
}

/// How digits are read: none are worth nothing, and one more makes the number `base`
/// times what it was, and adds what the digit is worth. Letters of either case stand for
/// ten to fifteen, and nothing else is a digit.
pub proof fn law_number_read(s: Seq<char>, c: char, base: nat)
    requires
        base <= 16,
    ensures
        number(Seq::empty(), base) == Some(0nat),
        ({
            let d = if 48 <= c as int <= 57 {
                c as int - 48
            } else if 97 <= c as int <= 102 {
                c as int - 87
            } else if 65 <= c as int <= 70 {
                c as int - 55
            } else {
                16
            };
            number(s.push(c), base) == match number(s, base) {
                Some(n) => if d < base {
                    Some((n * base + d) as nat)
                } else {
                    None
                },
                None => None,
            }
        }),
{
    assert(s.push(c).drop_last() == s);
}

/// What is read as a 32-bit number: decimal digits, at least one, with or without a plus
/// sign before them, that are worth no more than 32 bits hold, and nothing else.
pub proof fn law_u32_read(s: Seq<char>, n: u32)
    ensures
        parsed_u32(s) == Some(n) <==> exists|body: Seq<char>|
            (s == body || s == seq!['+'] + body) && body.len() > 0 && #[trigger] is_decimal(body)
                && worth(body) == n,
{
    let body = if s.len() > 0 && s[0] == '+' {
        s.skip(1)
    } else {
        s
    };
    lemma_worth(body);
    if parsed_u32(s) == Some(n) {
        if s.len() > 0 && s[0] == '+' {
            assert(s =~= seq!['+'] + body);
        }
        assert(is_decimal(body));
    }
    if exists|b: Seq<char>|
        (s == b || s == seq!['+'] + b) && b.len() > 0 && #[trigger] is_decimal(b) && worth(b) == n {
        let b = choose|b: Seq<char>|
            (s == b || s == seq!['+'] + b) && b.len() > 0 && #[trigger] is_decimal(b) && worth(b)
                == n;
        assert('0' <= b[0] <= '9');
        if s == b {
            assert(s[0] != '+');
        } else {
            assert(s[0] == '+');
            assert(s.skip(1) =~= b);
        }
    }
}

/// How a text is cut into lines: nothing has none, a text without a line feed is one, and
/// a line feed ends a line, with a carriage return before it if there is one.
pub proof fn law_lines(line: Seq<char>, rest: Seq<char>)
    requires
        !line.contains('\n'),
    ensures
        lines(Seq::empty()).len() == 0,
        line.len() > 0 ==> lines(line) == seq![line],
        lines(line.push('\n') + rest) == seq![
            if line.len() > 0 && line.last() == '\r' {
                line.drop_last()
            } else {
                line
            },
        ] + lines(rest),
{
    lemma_first_is(line, '\n', line.len());
    let t = line.push('\n') + rest;
    let n = line.len() as int;
    assert(t[n] == '\n');
    assert forall|i: int| 0 <= i < n implies t[i] != '\n' by {
        assert(t[i] == line[i]);
        assert(line.contains(line[i]));
    }
    lemma_first_is(t, '\n', line.len());
    assert(t.take(n) == line);
    assert(t.skip(n + 1) == rest);
}

/// Pieces of text with `c` between them.
pub open spec fn joined(pieces: Seq<Seq<char>>, c: char) -> Seq<char>
    decreases pieces.len(),
{
    if pieces.len() == 0 {
        Seq::empty()
    } else if pieces.len() == 1 {
        pieces[0]
    } else {
        joined(pieces.drop_last(), c).push(c) + pieces.last()
    }
}

/// Cutting undoes joining: pieces that do not hold `c` themselves come back.
pub proof fn law_split_joined(pieces: Seq<Seq<char>>, c: char)
    requires
        pieces.len() > 0,
        forall|i: int| 0 <= i < pieces.len() ==> !(#[trigger] pieces[i]).contains(c),
    ensures
        split(joined(pieces, c), c) == pieces,
    decreases pieces.len(),
{
    assert(!pieces[pieces.len() - 1].contains(c));
    if pieces.len() == 1 {
        law_split_append(Seq::empty(), pieces[0], c);
        assert(pieces =~= seq![pieces[0]]);
    } else {
        let front = pieces.drop_last();
        assert forall|i: int| 0 <= i < front.len() implies !(#[trigger] front[i]).contains(c) by {
            assert(front[i] == pieces[i]);
        }
        law_split_joined(front, c);
        law_split_append(joined(front, c), pieces.last(), c);
        assert(front.push(pieces.last()) =~= pieces);
    }
}

/// Joining undoes cutting, and no piece holds what was cut at.
pub proof fn law_joined_split(s: Seq<char>, c: char)
    ensures
        split(s, c).len() > 0,
        joined(split(s, c), c) == s,
        forall|i: int| 0 <= i < split(s, c).len() ==> !(#[trigger] split(s, c)[i]).contains(c),
    decreases s.len(),
{
    if s.contains(c) {
        let k = lemma_last_of(s, c);
        let front = s.take(k);
        let p = s.skip(k + 1);
        assert(s =~= front.push(c) + p);
        assert(!p.contains(c)) by {
            assert forall|i: int| 0 <= i < p.len() implies p[i] != c by {
                assert(p[i] == s[k + 1 + i]);
            }
        }
        law_split_append(front, p, c);
        law_joined_split(front, c);
        let all = split(s, c);
        assert(all.drop_last() =~= split(front, c));
        assert forall|i: int| 0 <= i < all.len() implies !(#[trigger] all[i]).contains(c) by {
            if i < all.len() - 1 {
                assert(all[i] == split(front, c)[i]);
            }
        }
    } else {
        law_split_append(Seq::empty(), s, c);
    }
}

proof fn lemma_last_of(s: Seq<char>, c: char) -> (k: int)
    requires
        s.contains(c),
    ensures
        0 <= k < s.len(),
        s[k] == c,
        forall|i: int| k < i < s.len() ==> s[i] != c,
    decreases s.len(),
{
    if s.last() == c {
        s.len() - 1
    } else {
        let front = s.drop_last();
        let w = choose|w: int| 0 <= w < s.len() && s[w] == c;
        assert(front[w] == c);
        let k = lemma_last_of(front, c);
        assert forall|i: int| k < i < s.len() implies s[i] != c by {
            if i < front.len() {
                assert(front[i] == s[i]);
            }
        }
        k
    }
}

/// Digits without zeros in front are the decimal text of what they are worth.
pub(crate) proof fn lemma_canonical_decimal(p: Seq<char>)
    requires
        is_decimal(p),
        p.len() >= 1,
        p.len() == 1 || p[0] != '0',
    ensures
        decimal(worth(p)) == p,
        p.len() >= 2 ==> worth(p) >= 10,
        p[0] != '0' ==> worth(p) >= 1,
    decreases p.len(),
{
    let d = (p.last() as int - 48) as nat;
    assert('0' <= p[p.len() - 1] <= '9');
    let front = p.drop_last();
    if p.len() == 1 {
        assert(worth(front) == 0);
        assert(decimal(d) =~= p);
    } else {
        assert forall|i: int| 0 <= i < front.len() implies '0' <= #[trigger] front[i] <= '9' by {
            assert(front[i] == p[i]);
        }
        assert(front[0] == p[0]);
        lemma_canonical_decimal(front);
        let n = worth(p);
        assert(n == worth(front) * 10 + d);
        assert(n / 10 == worth(front) && n % 10 == d);
        assert(decimal(n) =~= front.push(digit(d as int)));
        assert(front.push(p.last()) =~= p);
    }
}

pub(crate) proof fn lemma_number_is_worth(s: Seq<char>)
    ensures
        is_decimal(s) ==> number(s, 10) == Some(worth(s)),
        !is_decimal(s) ==> number(s, 10) is None,
{
    lemma_worth(s);
}

} // verus!
