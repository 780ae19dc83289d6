//! Byte-string helpers shared by the codec, the stores and the dispatcher:
//! ASCII literals, copying and comparing, case folding, and decimal numbers.
use vstd::prelude::*;
use vstd::slice::slice_to_vec;

verus! {

/// The bytes of an ASCII string, one byte per character.
pub open spec fn ascii(s: &str) -> Seq<u8> {
    Seq::new(s@.len(), |i: int| s@[i] as u8)
}

/// The bytes of a string; for an ASCII string, one byte per character.
pub fn bytes_of(s: &str) -> (out: Vec<u8>)
    ensures
        s.is_ascii() ==> out@ == ascii(s),
{
    broadcast use vstd::string::is_ascii_spec_bytes;

    let out = s.as_bytes_vec();
    assert(s.is_ascii() ==> out@ =~= ascii(s));
    out
}

/// Copies a byte slice into an owned vector.
pub fn copy_bytes(src: &[u8]) -> (out: Vec<u8>)
    ensures
        out@ == src@,
{
    slice_to_vec(src)
}

/// Appends `src` to `out`.
pub fn append_bytes(out: &mut Vec<u8>, src: &[u8])
    ensures
        final(out)@ == old(out)@ + src@,
{
    let mut i: usize = 0;
    while i < src.len()
        invariant
            i <= src.len(),
            out@ == old(out)@ + src@.take(i as int),
        decreases src.len() - i,
    {
        out.push(src[i]);
        assert(src@.take(i + 1) =~= src@.take(i as int).push(src@[i as int]));
        i = i + 1;
    }
    assert(src@.take(src.len() as int) =~= src@);
}

/// Whether two byte strings hold the same bytes.
pub fn bytes_eq(a: &[u8], b: &[u8]) -> (same: bool)
    ensures
        same == (a@ == b@),
{
    if a.len() != b.len() {
        return false;
    }
    let mut i: usize = 0;
    while i < a.len()
        invariant
            i <= a.len(),
            a.len() == b.len(),
            forall|j: int| 0 <= j < i ==> a@[j] == b@[j],
        decreases a.len() - i,
    {
        if a[i] != b[i] {
            return false;
        }
        i = i + 1;
    }
    assert(a@ =~= b@);
    true
}

/// An upper-case ASCII letter becomes its lower-case form; any other byte stays.
pub open spec fn lower_byte(b: u8) -> u8 {
    if 65 <= b <= 90 {
        (b + 32) as u8
    } else {
        b
    }
}

/// `s` with every ASCII letter in lower case.
pub open spec fn lower(s: Seq<u8>) -> Seq<u8> {
    Seq::new(s.len(), |i: int| lower_byte(s[i]))
}

/// Whether two byte strings are equal up to the case of ASCII letters.
pub open spec fn same_word(a: Seq<u8>, b: Seq<u8>) -> bool {
    lower(a) == lower(b)
}

fn to_lower(b: u8) -> (out: u8)
    ensures
        out == lower_byte(b),
{
    if 65 <= b && b <= 90 {
        b + 32
    } else {
        b
    }
}

/// Compares two byte strings without regard to the case of ASCII letters.
pub fn eq_ignore_case(a: &[u8], b: &[u8]) -> (same: bool)
    ensures
        same == same_word(a@, b@),
{
    if a.len() != b.len() {
        assert(lower(a@).len() != lower(b@).len());
        return false;
    }
    let mut i: usize = 0;
    while i < a.len()
        invariant
            i <= a.len(),
            a.len() == b.len(),
            forall|j: int| 0 <= j < i ==> lower_byte(a@[j]) == lower_byte(b@[j]),
        decreases a.len() - i,
    {
        if to_lower(a[i]) != to_lower(b[i]) {
            assert(lower(a@)[i as int] != lower(b@)[i as int]);
            return false;
        }
        i = i + 1;
    }
    assert(lower(a@) =~= lower(b@));
    true
}

/// The value of a hexadecimal digit, 0 for any other byte.
pub open spec fn hex_value(b: u8) -> u8 {
    if 48 <= b <= 57 {
        (b - 48) as u8
    } else if 97 <= b <= 102 {
        (b - 87) as u8
    } else if 65 <= b <= 70 {
        (b - 55) as u8
    } else {
        0
    }
}

/// The bytes that pairs of hexadecimal digits denote; a last digit without a partner
/// denotes nothing.
pub open spec fn unhex(s: Seq<u8>) -> Seq<u8> {
    Seq::new(s.len() / 2, |i: int| (hex_value(s[2 * i]) * 16 + hex_value(s[2 * i + 1])) as u8)
}

fn hex_digit(b: u8) -> (out: u8)
    ensures
        out == hex_value(b),
        out < 16,
{
    if 48 <= b && b <= 57 {
        b - 48
    } else if 97 <= b && b <= 102 {
        b - 87
    } else if 65 <= b && b <= 70 {
        b - 55
    } else {
        0
    }
}

/// Reads pairs of hexadecimal digits as bytes.
pub fn decode_hex(s: &[u8]) -> (out: Vec<u8>)
    ensures
        out@ == unhex(s@),
{
    let mut out: Vec<u8> = Vec::new();
    let n: usize = s.len() / 2;
    let mut i: usize = 0;
    while i < n
        invariant
            i <= n,
            n == s.len() / 2,
            out.len() == i,
            forall|j: int| 0 <= j < i ==> out@[j] == unhex(s@)[j],
        decreases n - i,
    {
        let high: u8 = hex_digit(s[2 * i]);
        let low: u8 = hex_digit(s[2 * i + 1]);
        out.push(high * 16 + low);
        i = i + 1;
    }
    assert(out@ =~= unhex(s@));
    out
}

/// Whether `b` is one of the bytes `0` to `9`.
pub open spec fn is_digit(b: u8) -> bool {
    48 <= b <= 57
}

/// Whether `s` is made of decimal digits only.
pub open spec fn all_digits(s: Seq<u8>) -> bool {
    forall|i: int| 0 <= i < s.len() ==> is_digit(#[trigger] s[i])
}

/// The shortest decimal numeral of `n`.
pub open spec fn decimal(n: nat) -> Seq<u8>
    decreases n,
{
    if n < 10 {
        seq![(48 + n) as u8]
    } else {
        decimal(n / 10).push((48 + n % 10) as u8)
    }
}

/// The decimal numeral of `i`, with a minus sign where `i` is negative.
pub open spec fn signed_decimal(i: int) -> Seq<u8> {
    if i < 0 {
        seq![45u8] + decimal((-i) as nat)
    } else {
        decimal(i as nat)
    }
}

/// The number that a string of digits denotes; leading zeros count for nothing.
pub open spec fn digits_value(s: Seq<u8>) -> nat
    decreases s.len(),
{
    if s.len() == 0 {
        0
    } else {
        (digits_value(s.drop_last()) * 10 + (s.last() - 48)) as nat
    }
}

/// Reads one or more decimal digits.
pub open spec fn parse_digits(s: Seq<u8>) -> Option<nat> {
    if s.len() > 0 && all_digits(s) {
        Some(digits_value(s))
    } else {
        None
    }
}

/// Reads an unsigned decimal number: an optional plus sign, then one or more digits.
pub open spec fn parse_nat(s: Seq<u8>) -> Option<nat> {
    if s.len() > 0 && s[0] == 43 {
        parse_digits(s.skip(1))
    } else {
        parse_digits(s)
    }
}

/// Reads a signed decimal number: an optional sign, then one or more digits.
pub open spec fn parse_int(s: Seq<u8>) -> Option<int> {
    if s.len() > 0 && s[0] == 45 {
        match parse_digits(s.skip(1)) {
            Some(n) => Some(-(n as int)),
            None => None,
        }
    } else {
        match parse_nat(s) {
            Some(n) => Some(n as int),
            None => None,
        }
    }
}

/// What `parse_nat` reads, where it fits in 64 bits.
pub open spec fn parse_nat_u64(s: Seq<u8>) -> Option<u64> {
    match parse_nat(s) {
        Some(n) => if n <= u64::MAX {
            Some(n as u64)
        } else {
            None
        },
        None => None,
    }
}

/// What `parse_nat` reads, where it fits in 32 bits.
pub open spec fn parse_nat_u32(s: Seq<u8>) -> Option<u32> {
    match parse_nat(s) {
        Some(n) => if n <= u32::MAX {
            Some(n as u32)
        } else {
            None
        },
        None => None,
    }
}

/// What `parse_nat` reads, where it fits in 16 bits.
pub open spec fn parse_nat_u16(s: Seq<u8>) -> Option<u16> {
    match parse_nat(s) {
        Some(n) => if n <= u16::MAX {
            Some(n as u16)
        } else {
            None
        },
        None => None,
    }
}

/// What `parse_int` reads, where it fits in a signed 64-bit integer.
pub open spec fn parse_int_i64(s: Seq<u8>) -> Option<i64> {
    match parse_int(s) {
        Some(i) => if i64::MIN <= i <= i64::MAX {
            Some(i as i64)
        } else {
            None
        },
        None => None,
    }
}

/// A longer string of digits never denotes less than one of its prefixes.
pub proof fn lemma_digits_value_monotone(s: Seq<u8>, k: int)
    requires
        0 <= k <= s.len(),
        all_digits(s),
    ensures
        digits_value(s.take(k)) <= digits_value(s),
    decreases s.len(),
{
    if k == s.len() {
        assert(s.take(k) =~= s);
    } else {
        assert(s.drop_last().take(k) =~= s.take(k));
        lemma_digits_value_monotone(s.drop_last(), k);
        assert(is_digit(s[s.len() - 1]));
    }
}

/// Reads at most `limit` from a string of digits; `None` where `s` is empty, holds another
/// byte, or denotes more than `limit`.
fn read_digits(s: &[u8], from: usize, limit: u64) -> (out: Option<u64>)
    requires
        from <= s.len(),
    ensures
        out == (match parse_digits(s@.skip(from as int)) {
            Some(n) => if n <= limit {
                Some(n as u64)
            } else {
                None
            },
            None => None,
        }),
{
    let ghost d = s@.skip(from as int);
    if from == s.len() {
        return None;
    }
    let mut i: usize = from;
    let mut acc: u64 = 0;
    while i < s.len()
        invariant
            from <= i <= s.len(),
            d == s@.skip(from as int),
            all_digits(d.take(i - from)),
            acc == digits_value(d.take(i - from)),
            acc <= limit,
        decreases s.len() - i,
    {
        let b: u8 = s[i];
        if b < 48 || b > 57 {
            assert(!is_digit(d[i - from]));
            return None;
        }
        let digit: u64 = (b - 48) as u64;
        let ghost next = d.take(i - from + 1);
        proof {
            assert(next.drop_last() =~= d.take(i - from));
            assert(next.last() == b);
            assert forall|j: int| 0 <= j < next.len() implies is_digit(#[trigger] next[j]) by {
                if j < i - from {
                    assert(is_digit(d.take(i - from)[j]));
                }
            }
        }
        let over: bool = match acc.checked_mul(10) {
            Some(t) => match t.checked_add(digit) {
                Some(v) => {
                    if v > limit {
                        true
                    } else {
                        acc = v;
                        false
                    }
                },
                None => true,
            },
            None => true,
        };
        if over {
            proof {
                assert(digits_value(next) > limit);
                if all_digits(d) {
                    lemma_digits_value_monotone(d, i - from + 1);
                }
            }
            return None;
        }
        i = i + 1;
    }
    assert(d.take(s.len() - from) =~= d);
    Some(acc)
}

/// Reads an unsigned decimal number of at most `limit`.
fn read_nat(s: &[u8], limit: u64) -> (out: Option<u64>)
    ensures
        out == (match parse_nat(s@) {
            Some(n) => if n <= limit {
                Some(n as u64)
            } else {
                None
            },
            None => None,
        }),
{
    if s.len() > 0 && s[0] == 43 {
        read_digits(s, 1, limit)
    } else {
        assert(s@.skip(0) =~= s@);
        read_digits(s, 0, limit)
    }
}

/// Reads an unsigned decimal number that fits in 64 bits.
pub fn parse_u64(s: &[u8]) -> (out: Option<u64>)
    ensures
        out == parse_nat_u64(s@),
{
    read_nat(s, u64::MAX)
}

/// Reads an unsigned decimal number that fits in 32 bits.
pub fn parse_u32(s: &[u8]) -> (out: Option<u32>)
    ensures
        out == parse_nat_u32(s@),
{
    match read_nat(s, 0xffff_ffff) {
        Some(n) => Some(n as u32),
        None => None,
    }
}

/// Reads an unsigned decimal number that fits in 16 bits.
pub fn parse_u16(s: &[u8]) -> (out: Option<u16>)
    ensures
        out == parse_nat_u16(s@),
{
    match read_nat(s, 0xffff) {
        Some(n) => Some(n as u16),
        None => None,
    }
}

/// Reads a signed decimal number that fits in 64 bits.
pub fn parse_i64(s: &[u8]) -> (out: Option<i64>)
    ensures
        out == parse_int_i64(s@),
{
    if s.len() > 0 && s[0] == 45 {
        match read_digits(s, 1, 0x8000_0000_0000_0000) {
            Some(n) => {
                if n == 0x8000_0000_0000_0000 {
                    Some(i64::MIN)
                } else {
                    Some(-(n as i64))
                }
            },
            None => None,
        }
    } else {
        match read_nat(s, 0x7fff_ffff_ffff_ffff) {
            Some(n) => Some(n as i64),
            None => None,
        }
    }
}

/// Appends the decimal numeral of `n`.
pub fn push_decimal(out: &mut Vec<u8>, n: u64)
    ensures
        final(out)@ == old(out)@ + decimal(n as nat),
    decreases n,
{
    if n >= 10 {
        push_decimal(out, n / 10);
    }
    out.push(48 + (n % 10) as u8);
    assert(out@ =~= old(out)@ + decimal(n as nat));
}

/// Appends the decimal numeral of `i`, with its sign where it is negative.
pub fn push_signed_decimal(out: &mut Vec<u8>, i: i64)
    ensures
        final(out)@ == old(out)@ + signed_decimal(i as int),
{
    if i < 0 {
        out.push(45u8);
        let magnitude: u64 = if i == i64::MIN {
            0x8000_0000_0000_0000
        } else {
            (-i) as u64
        };
        push_decimal(out, magnitude);
        assert(out@ =~= old(out)@ + signed_decimal(i as int));
    } else {
        push_decimal(out, i as u64);
    }
}

/// A numeral is one or more digits.
pub proof fn lemma_decimal_digits(n: nat)
    ensures
        decimal(n).len() > 0,
        all_digits(decimal(n)),
    decreases n,
{
    if n >= 10 {
        lemma_decimal_digits(n / 10);
    }
}

/// A numeral has no more digits than its number has units, and one at least.
pub proof fn lemma_decimal_len(n: nat)
    ensures
        decimal(n).len() <= n + 1,
    decreases n,
{
    if n >= 10 {
        lemma_decimal_len(n / 10);
    }
}

/// Reading the digits of a numeral gives the number back.
pub proof fn lemma_digits_value_decimal(n: nat)
    ensures
        digits_value(decimal(n)) == n,
    decreases n,
{
    if n < 10 {
        assert(decimal(n).drop_last() =~= Seq::<u8>::empty());
        assert(digits_value(decimal(n).drop_last()) == 0);
    } else {
        lemma_digits_value_decimal(n / 10);
        assert(decimal(n).drop_last() =~= decimal(n / 10));
    }
}

/// Reading a numeral gives the number back.
pub proof fn lemma_parse_decimal(n: nat)
    ensures
        parse_nat(decimal(n)) == Some(n),
        parse_digits(decimal(n)) == Some(n),
{
    lemma_decimal_digits(n);
    lemma_digits_value_decimal(n);
    assert(is_digit(decimal(n)[0]));
}

/// Reading a signed numeral gives the number back.
pub proof fn lemma_parse_signed_decimal(i: int)
    ensures
        parse_int(signed_decimal(i)) == Some(i),
{
    if i < 0 {
        let n = (-i) as nat;
        lemma_parse_decimal(n);
        assert(signed_decimal(i).skip(1) =~= decimal(n));
    } else {
        lemma_parse_decimal(i as nat);
        lemma_decimal_digits(i as nat);
        assert(is_digit(decimal(i as nat)[0]));
    }
}

} // verus!
