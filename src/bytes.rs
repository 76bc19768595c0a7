use vstd::prelude::*;
use vstd::utf8::{decode_utf8, valid_utf8};

verus! {

/// The unsigned big-endian integer held in the four bytes of `s` at `pos`.
pub open spec fn be_u32_at(s: Seq<u8>, pos: int) -> int {
    s[pos] * 16777216 + s[pos + 1] * 65536 + s[pos + 2] * 256 + s[pos + 3]
}

/// Two's complement reading of a 32-bit pattern.
pub open spec fn signed32(u: int) -> int {
    if u >= 0x8000_0000 {
        u - 0x1_0000_0000
    } else {
        u
    }
}

/// Two's complement reading of a byte.
pub open spec fn signed8(b: u8) -> int {
    if b >= 128 {
        b - 256
    } else {
        b as int
    }
}

pub fn read_u32_be(data: &[u8], pos: usize) -> (r: u32)
    requires
        pos + 4 <= data@.len(),
    ensures
        r == be_u32_at(data@, pos as int),
{
    (data[pos] as u32) * 16777216 + (data[pos + 1] as u32) * 65536 + (data[pos + 2] as u32) * 256
        + (data[pos + 3] as u32)
}

pub fn read_i32_be(data: &[u8], pos: usize) -> (r: i32)
    requires
        pos + 4 <= data@.len(),
    ensures
        r == signed32(be_u32_at(data@, pos as int)),
{
    let u = read_u32_be(data, pos);
    if u >= 0x8000_0000 {
        ((u - 0x8000_0000) as i32) - 0x7fff_ffff - 1
    } else {
        u as i32
    }
}

pub fn read_i8(data: &[u8], pos: usize) -> (r: i8)
    requires
        pos < data@.len(),
    ensures
        r == signed8(data@[pos as int]),
{
    let b = data[pos];
    if b >= 128 {
        ((b - 128) as i8) - 127 - 1
    } else {
        b as i8
    }
}

pub open spec fn is_digit(b: u8) -> bool {
    48 <= b <= 57
}

pub open spec fn all_digits(s: Seq<u8>) -> bool {
    forall|i: int| 0 <= i < s.len() ==> is_digit(#[trigger] s[i])
}

/// The number written in decimal by the digit bytes `s` (most significant first).
pub open spec fn digits_value(s: Seq<u8>) -> nat
    decreases s.len(),
{
    if s.len() == 0 {
        0
    } else {
        digits_value(s.drop_last()) * 10 + (s.last() - 48) as nat
    }
}

/// `n` written as ASCII decimal digits, most significant first.
pub open spec fn decimal_bytes(n: nat) -> Seq<u8>
    decreases n,
{
    if n < 10 {
        seq![(48 + n) as u8]
    } else {
        decimal_bytes(n / 10).push((48 + n % 10) as u8)
    }
}

/// Ten to the power `k`.
pub open spec fn pow10(k: nat) -> nat
    decreases k,
{
    if k == 0 {
        1
    } else {
        10 * pow10((k - 1) as nat)
    }
}

/// The decimal form of `n` is all digits, at least one, and reads back as `n`.
pub proof fn lemma_decimal_bytes(n: nat)
    ensures
        all_digits(decimal_bytes(n)),
        digits_value(decimal_bytes(n)) == n,
        decimal_bytes(n).len() >= 1,
    decreases n,
{
    let s = decimal_bytes(n);
    if n < 10 {
        assert(s.drop_last() =~= Seq::<u8>::empty());
        assert(digits_value(Seq::<u8>::empty()) == 0);
        assert(s.last() == (48 + n) as u8);
    } else {
        lemma_decimal_bytes(n / 10);
        assert(s.drop_last() =~= decimal_bytes(n / 10));
        assert(s.last() == (48 + n % 10) as u8);
        assert((n / 10) * 10 + n % 10 == n);
        assert forall|i: int| 0 <= i < s.len() implies is_digit(#[trigger] s[i]) by {
            if i < s.len() - 1 {
                assert(s[i] == decimal_bytes(n / 10)[i]);
            }
        }
    }
}

/// A number below `10^k` takes at most `k` digits.
pub proof fn lemma_decimal_len(n: nat, k: nat)
    requires
        k >= 1,
        n < pow10(k),
    ensures
        decimal_bytes(n).len() <= k,
    decreases k,
{
    if n >= 10 {
        if k == 1 {
            assert(pow10(1) == 10) by {
                reveal_with_fuel(pow10, 2);
            }
        } else {
            lemma_decimal_len(n / 10, (k - 1) as nat);
        }
    }
}

/// The value of `10^20`, which exceeds every 64-bit number.
pub proof fn lemma_pow10_20()
    ensures
        pow10(20) == 100_000_000_000_000_000_000,
{
    reveal_with_fuel(pow10, 21);
}

/// The magnitude that `s` writes, with an optional leading sign (`+` always, `-` when
/// `negative_ok`), as std's integer parsing reads it: `None` where the text is malformed.
pub open spec fn signed_decimal(s: Seq<u8>, negative_ok: bool) -> Option<(bool, nat)> {
    if s.len() > 0 && (s[0] == 45u8 && negative_ok || s[0] == 43u8) {
        let d = s.subrange(1, s.len() as int);
        if d.len() > 0 && all_digits(d) {
            Some((s[0] == 45u8, digits_value(d)))
        } else {
            None
        }
    } else if s.len() > 0 && all_digits(s) {
        Some((false, digits_value(s)))
    } else {
        None
    }
}

/// A signed 64-bit integer written in ASCII decimal, as `str::parse::<i64>` accepts it.
pub open spec fn parse_i64_spec(s: Seq<u8>) -> Option<i64> {
    match signed_decimal(s, true) {
        Some((true, m)) => if m <= 0x8000_0000_0000_0000 {
            Some((-m) as i64)
        } else {
            None
        },
        Some((false, m)) => if m <= 0x7fff_ffff_ffff_ffff {
            Some(m as i64)
        } else {
            None
        },
        None => None,
    }
}

/// An unsigned 64-bit integer written in ASCII decimal, as `str::parse::<u64>` accepts it.
pub open spec fn parse_u64_spec(s: Seq<u8>) -> Option<u64> {
    match signed_decimal(s, false) {
        Some((_, m)) => if m <= 0xffff_ffff_ffff_ffff {
            Some(m as u64)
        } else {
            None
        },
        None => None,
    }
}

proof fn lemma_digits_prefix_le(s: Seq<u8>, i: int)
    requires
        0 <= i <= s.len(),
    ensures
        digits_value(s.subrange(0, i)) <= digits_value(s),
    decreases s.len() - i,
{
    if i < s.len() {
        lemma_digits_prefix_le(s, i + 1);
        assert(s.subrange(0, i + 1).drop_last() =~= s.subrange(0, i));
    } else {
        assert(s.subrange(0, i) =~= s);
    }
}

/// Reads the decimal digits of `data[start..end]`; `None` where one is no digit or the
/// value exceeds `limit`.
fn digits_up_to(data: &[u8], start: usize, end: usize, limit: u64) -> (r: Option<u64>)
    requires
        start <= end <= data@.len(),
    ensures
        match r {
            Some(v) => all_digits(data@.subrange(start as int, end as int)) && v == digits_value(
                data@.subrange(start as int, end as int),
            ) && v <= limit,
            None => !all_digits(data@.subrange(start as int, end as int)) || digits_value(
                data@.subrange(start as int, end as int),
            ) > limit,
        },
{
    let ghost s = data@.subrange(start as int, end as int);
    let mut acc: u128 = 0;
    let mut i: usize = start;
    while i < end
        invariant
            start <= i <= end <= data@.len(),
            s == data@.subrange(start as int, end as int),
            all_digits(data@.subrange(start as int, i as int)),
            acc == digits_value(data@.subrange(start as int, i as int)),
            acc <= limit,
        decreases end - i,
    {
        let b = data[i];
        if b < 48 || b > 57 {
            assert(s[i - start] == b);
            return None;
        }
        let ghost prev = data@.subrange(start as int, i as int);
        let ghost next = data@.subrange(start as int, i + 1);
        assert(next.drop_last() =~= prev);
        acc = acc * 10 + (b - 48) as u128;
        i = i + 1;
        if acc > limit as u128 {
            proof {
                lemma_digits_prefix_le(s, i - start);
                assert(s.subrange(0, i - start) =~= next);
            }
            return None;
        }
    }
    assert(data@.subrange(start as int, i as int) =~= s);
    Some(acc as u64)
}

/// Parses `data[start..end]` as `str::parse::<i64>` would.
pub fn parse_i64(data: &[u8], start: usize, end: usize) -> (r: Option<i64>)
    requires
        start <= end <= data@.len(),
    ensures
        r == parse_i64_spec(data@.subrange(start as int, end as int)),
{
    let ghost s = data@.subrange(start as int, end as int);
    if start < end && (data[start] == 45 || data[start] == 43) {
        assert(s[0] == data@[start as int]);
        assert(s.subrange(1, s.len() as int) =~= data@.subrange(start + 1, end as int));
        if start + 1 == end {
            return None;
        }
        let neg = data[start] == 45;
        let limit: u64 = if neg { 0x8000_0000_0000_0000 } else { 0x7fff_ffff_ffff_ffff };
        match digits_up_to(data, start + 1, end, limit) {
            Some(m) => if neg {
                if m == 0x8000_0000_0000_0000 {
                    Some(-0x7fff_ffff_ffff_ffff - 1)
                } else {
                    Some(-(m as i64))
                }
            } else {
                Some(m as i64)
            },
            None => None,
        }
    } else {
        if start < end {
            assert(s[0] == data@[start as int]);
        }
        if start == end {
            return None;
        }
        match digits_up_to(data, start, end, 0x7fff_ffff_ffff_ffff) {
            Some(m) => Some(m as i64),
            None => None,
        }
    }
}

/// Parses `data[start..end]` as `str::parse::<u64>` would.
pub fn parse_u64(data: &[u8], start: usize, end: usize) -> (r: Option<u64>)
    requires
        start <= end <= data@.len(),
    ensures
        r == parse_u64_spec(data@.subrange(start as int, end as int)),
{
    let ghost s = data@.subrange(start as int, end as int);
    if start < end && data[start] == 43 {
        assert(s[0] == data@[start as int]);
        assert(s.subrange(1, s.len() as int) =~= data@.subrange(start + 1, end as int));
        if start + 1 == end {
            return None;
        }
        digits_up_to(data, start + 1, end, 0xffff_ffff_ffff_ffff)
    } else {
        if start < end {
            assert(s[0] == data@[start as int]);
        }
        if start == end {
            return None;
        }
        digits_up_to(data, start, end, 0xffff_ffff_ffff_ffff)
    }
}

/// Relies on `String::from_utf8`: it succeeds exactly on valid UTF-8, and the string
/// then holds the characters that the bytes encode.
#[verifier::external_body]
pub(crate) fn utf8_string(bytes: Vec<u8>) -> (r: Option<String>)
    ensures
        r is Some <==> valid_utf8(bytes@),
        r is Some ==> r->0@ == decode_utf8(bytes@),
{
    String::from_utf8(bytes).ok()
}

/// Copies `data[start..end]`.
pub fn copy_range(data: &[u8], start: usize, end: usize) -> (r: Vec<u8>)
    requires
        start <= end <= data@.len(),
    ensures
        r@ == data@.subrange(start as int, end as int),
{
    let mut out: Vec<u8> = Vec::new();
    let mut i: usize = start;
    while i < end
        invariant
            start <= i <= end <= data@.len(),
            out@ == data@.subrange(start as int, i as int),
        decreases end - i,
    {
        out.push(data[i]);
        i = i + 1;
        assert(out@ =~= data@.subrange(start as int, i as int));
    }
    out
}

} // verus!
