use vstd::prelude::*;

verus! {

/// The value of a digit sequence read most significant first, in the
/// given base.
pub open spec fn digits_value(ds: Seq<int>, base: int) -> int
    decreases ds.len(),
{
    if ds.len() == 0 {
        0
    } else {
        digits_value(ds.drop_last(), base) * base + ds.last()
    }
}

pub proof fn lemma_digits_value_nonneg(ds: Seq<int>, base: int)
    requires
        base > 1,
        forall|i: int| 0 <= i < ds.len() ==> 0 <= #[trigger] ds[i] < base,
    ensures
        digits_value(ds, base) >= 0,
    decreases ds.len(),
{
    if ds.len() > 0 {
        lemma_digits_value_nonneg(ds.drop_last(), base);
        assert(digits_value(ds.drop_last(), base) * base >= 0) by (nonlinear_arith)
            requires
                digits_value(ds.drop_last(), base) >= 0,
                base > 1,
        ;
    }
}

/// Reading one more digit never shrinks the value.
pub proof fn lemma_digits_value_grow(ds: Seq<int>, base: int, k: int)
    requires
        base > 1,
        forall|i: int| 0 <= i < ds.len() ==> 0 <= #[trigger] ds[i] < base,
        0 <= k <= ds.len(),
    ensures
        digits_value(ds.take(k), base) <= digits_value(ds, base),
    decreases ds.len(),
{
    if k == ds.len() {
        assert(ds.take(k) =~= ds);
    } else {
        let d = ds.drop_last();
        assert(forall|i: int| 0 <= i < d.len() ==> 0 <= #[trigger] d[i] < base);
        lemma_digits_value_grow(d, base, k);
        assert(d.take(k) =~= ds.take(k));
        lemma_digits_value_nonneg(d, base);
        assert(digits_value(d, base) * base + ds.last() >= digits_value(d, base))
            by (nonlinear_arith)
            requires
                digits_value(d, base) >= 0,
                base > 1,
                ds.last() >= 0,
        ;
    }
}

/// Appending the digit at `k` multiplies the prefix value by the base.
pub proof fn lemma_digits_value_step(ds: Seq<int>, base: int, k: int)
    requires
        0 <= k < ds.len(),
    ensures
        digits_value(ds.take(k + 1), base) == digits_value(ds.take(k), base) * base + ds[k],
{
    assert(ds.take(k + 1).drop_last() =~= ds.take(k));
    assert(ds.take(k + 1).last() == ds[k]);
}

pub open spec fn is_dec_digit(c: char) -> bool {
    48 <= (c as u32) <= 57
}

pub open spec fn dec_val(c: char) -> int {
    (c as u32) - 48
}

pub open spec fn is_hex_digit(c: char) -> bool {
    is_dec_digit(c) || 97 <= (c as u32) <= 102 || 65 <= (c as u32) <= 70
}

/// A hexadecimal digit's value, either letter case accepted.
pub open spec fn hex_val(c: char) -> int {
    if is_dec_digit(c) {
        (c as u32) - 48
    } else if 97 <= (c as u32) <= 102 {
        (c as u32) - 87
    } else {
        (c as u32) - 55
    }
}

/// The digit values of a string of hexadecimal digits.
pub open spec fn hex_digits(s: Seq<char>) -> Seq<int> {
    s.map_values(|c: char| hex_val(c))
}

/// The digit values of a string of decimal digits.
pub open spec fn dec_digits(s: Seq<char>) -> Seq<int> {
    s.map_values(|c: char| dec_val(c))
}

/// A well-formed hexadecimal byte string: even length, hexadecimal
/// digits only.
pub open spec fn is_hex_seq(s: Seq<char>) -> bool {
    s.len() % 2 == 0 && forall|i: int| 0 <= i < s.len() ==> is_hex_digit(#[trigger] s[i])
}

/// The bytes a hexadecimal string denotes, two digits each.
pub open spec fn hex_bytes(s: Seq<char>) -> Seq<u8> {
    Seq::new((s.len() / 2) as nat, |i: int| (hex_val(s[2 * i]) * 16 + hex_val(s[2 * i + 1])) as u8)
}

/// The hexadecimal digit value of `c`, if it is one.
fn hex_digit(c: char) -> (r: Option<u32>)
    ensures
        match r {
            Some(v) => is_hex_digit(c) && v == hex_val(c) && v <= 15,
            None => !is_hex_digit(c),
        },
{
    let u = c as u32;
    if 48 <= u && u <= 57 {
        Some(u - 48)
    } else if 97 <= u && u <= 102 {
        Some(u - 87)
    } else if 65 <= u && u <= 70 {
        Some(u - 55)
    } else {
        None
    }
}

/// Decodes a hexadecimal string into its bytes: exactly the strings of
/// even length made of hexadecimal digits decode, two digits to a byte.
pub fn hex_decode(s: &str) -> (r: Option<Vec<u8>>)
    ensures
        match r {
            Some(v) => is_hex_seq(s@) && v@ == hex_bytes(s@),
            None => !is_hex_seq(s@),
        },
{
    let len = s.unicode_len();
    if len % 2 != 0 {
        return None;
    }
    let mut out: Vec<u8> = Vec::new();
    let mut i: usize = 0;
    while i < len
        invariant
            0 <= i <= len,
            i % 2 == 0,
            len % 2 == 0,
            len == s@.len(),
            forall|j: int| 0 <= j < i ==> is_hex_digit(#[trigger] s@[j]),
            out@.len() == i / 2,
            forall|j: int|
                0 <= j < i / 2 ==> #[trigger] out@[j] == (hex_val(s@[2 * j]) * 16 + hex_val(
                    s@[2 * j + 1],
                )) as u8,
        decreases len - i,
    {
        let hi = match hex_digit(s.get_char(i)) {
            Some(v) => v,
            None => {
                return None;
            },
        };
        let lo = match hex_digit(s.get_char(i + 1)) {
            Some(v) => v,
            None => {
                return None;
            },
        };
        out.push((hi * 16 + lo) as u8);
        i += 2;
    }
    proof {
        assert(out@ =~= hex_bytes(s@));
    }
    Some(out)
}

/// A non-empty run of hexadecimal digits.
pub open spec fn all_hex(s: Seq<char>) -> bool {
    s.len() >= 1 && forall|i: int| 0 <= i < s.len() ==> is_hex_digit(#[trigger] s[i])
}

/// A leading `'+'`, if any, dropped.
pub open spec fn strip_plus(s: Seq<char>) -> Seq<char> {
    if s.len() > 0 && s[0] == '+' {
        s.drop_first()
    } else {
        s
    }
}

/// What reading a 32-bit hexadecimal number must yield: the value of the
/// digits after an optional `'+'`, where they are digits and it fits.
pub open spec fn spec_parse_hex_u32(s: Seq<char>) -> Option<u32> {
    let ds = strip_plus(s);
    if all_hex(ds) && digits_value(hex_digits(ds), 16) < 0x1_0000_0000 {
        Some(digits_value(hex_digits(ds), 16) as u32)
    } else {
        None
    }
}

/// Reads a 32-bit number from hexadecimal digits after an optional
/// `'+'`; fails on any other character, on an empty run, and on a value
/// that does not fit.
pub fn parse_hex_u32(s: &str) -> (r: Option<u32>)
    ensures
        r == spec_parse_hex_u32(s@),
{
    let len = s.unicode_len();
    let start: usize = if len > 0 && s.get_char(0) == '+' {
        1
    } else {
        0
    };
    let ghost ds = strip_plus(s@);
    proof {
        assert(forall|j: int| 0 <= j < ds.len() ==> ds[j] == s@[j + start]);
    }
    if len == start {
        return None;
    }
    let mut acc: u32 = 0;
    let mut i: usize = start;
    while i < len
        invariant
            start <= i <= len,
            len == s@.len(),
            ds == strip_plus(s@),
            ds.len() == len - start,
            forall|j: int| 0 <= j < ds.len() ==> ds[j] == s@[j + start],
            forall|j: int| 0 <= j < i - start ==> is_hex_digit(#[trigger] ds[j]),
            acc as int == digits_value(hex_digits(ds).take(i - start), 16),
        decreases len - i,
    {
        let d = match hex_digit(s.get_char(i)) {
            Some(v) => v,
            None => {
                proof {
                    assert(!is_hex_digit(ds[i - start]));
                }
                return None;
            },
        };
        proof {
            lemma_digits_value_step(hex_digits(ds), 16, i - start);
            assert(hex_digits(ds)[i - start] == hex_val(ds[i - start]));
        }
        if acc > (0xFFFF_FFFFu32 - d) / 16 {
            proof {
                if all_hex(ds) {
                    assert forall|j: int|
                        0 <= j < hex_digits(ds).len() implies 0 <= #[trigger] hex_digits(
                        ds,
                    )[j] < 16 by {
                        assert(is_hex_digit(ds[j]));
                    }
                    lemma_digits_value_grow(hex_digits(ds), 16, i + 1 - start);
                    assert(digits_value(hex_digits(ds).take(i + 1 - start), 16) == acc as int * 16
                        + d);
                    assert(acc as int * 16 + d > 0xFFFF_FFFF);
                    assert(digits_value(hex_digits(ds), 16) >= acc as int * 16 + d);
                }
            }
            return None;
        }
        acc = acc * 16 + d;
        i += 1;
    }
    proof {
        assert(hex_digits(ds).take(i - start) =~= hex_digits(ds));
        assert(all_hex(ds));
    }
    Some(acc)
}

/// The digits of a decimal number after its optional sign.
pub open spec fn sign_digits(s: Seq<char>) -> Seq<char> {
    if s.len() > 0 && (s[0] == '-' || s[0] == '+') {
        s.drop_first()
    } else {
        s
    }
}

/// A non-empty run of decimal digits.
pub open spec fn all_dec(s: Seq<char>) -> bool {
    s.len() >= 1 && forall|i: int| 0 <= i < s.len() ==> is_dec_digit(#[trigger] s[i])
}

/// The signed value a decimal number string denotes.
pub open spec fn signed_value(s: Seq<char>) -> int {
    if s.len() > 0 && s[0] == '-' {
        -digits_value(dec_digits(sign_digits(s)), 10)
    } else {
        digits_value(dec_digits(sign_digits(s)), 10)
    }
}

/// What reading a signed 64-bit decimal number must yield: an optional
/// sign, then decimal digits, the value within the 64-bit range.
pub open spec fn spec_parse_i64(s: Seq<char>) -> Option<int> {
    if s.len() > 0 && all_dec(sign_digits(s)) && -0x8000_0000_0000_0000 <= signed_value(s)
        <= 0x7FFF_FFFF_FFFF_FFFF {
        Some(signed_value(s))
    } else {
        None
    }
}

/// Reads a signed 64-bit number from decimal digits after an optional
/// sign; fails on any other character, on an empty run, and on a value
/// out of range.
pub fn parse_i64(s: &str) -> (r: Option<i64>)
    ensures
        match r {
            Some(v) => spec_parse_i64(s@) == Some(v as int),
            None => spec_parse_i64(s@) is None,
        },
{
    let len = s.unicode_len();
    if len == 0 {
        return None;
    }
    let c0 = s.get_char(0);
    let neg = c0 == '-';
    let start: usize = if c0 == '-' || c0 == '+' {
        1
    } else {
        0
    };
    let ghost ds = if c0 == '-' || c0 == '+' {
        s@.drop_first()
    } else {
        s@
    };
    proof {
        assert(forall|j: int| 0 <= j < ds.len() ==> ds[j] == s@[j + start]);
    }
    if len == start {
        return None;
    }
    let bound: u64 = if neg {
        0x8000_0000_0000_0000
    } else {
        0x7FFF_FFFF_FFFF_FFFF
    };
    let mut acc: u64 = 0;
    let mut i: usize = start;
    while i < len
        invariant
            start <= i <= len,
            len == s@.len(),
            len > 0,
            ds == (if s@[0] == '-' || s@[0] == '+' {
                s@.drop_first()
            } else {
                s@
            }),
            neg == (s@[0] == '-'),
            ds.len() == len - start,
            forall|j: int| 0 <= j < ds.len() ==> ds[j] == s@[j + start],
            forall|j: int| 0 <= j < i - start ==> is_dec_digit(#[trigger] ds[j]),
            acc as int == digits_value(dec_digits(ds).take(i - start), 10),
            acc <= bound,
            bound == (if neg {
                0x8000_0000_0000_0000u64
            } else {
                0x7FFF_FFFF_FFFF_FFFFu64
            }),
        decreases len - i,
    {
        let c = s.get_char(i);
        let u = c as u32;
        if !(48 <= u && u <= 57) {
            proof {
                assert(!is_dec_digit(ds[i - start]));
            }
            return None;
        }
        let d: u64 = (u - 48) as u64;
        proof {
            lemma_digits_value_step(dec_digits(ds), 10, i - start);
            assert(dec_digits(ds)[i - start] == dec_val(ds[i - start]));
        }
        if acc > (bound - d) / 10 {
            proof {
                if forall|j: int| 0 <= j < ds.len() ==> is_dec_digit(#[trigger] ds[j]) {
                    assert forall|j: int|
                        0 <= j < dec_digits(ds).len() implies 0 <= #[trigger] dec_digits(
                        ds,
                    )[j] < 10 by {
                        assert(is_dec_digit(ds[j]));
                    }
                    lemma_digits_value_grow(dec_digits(ds), 10, i + 1 - start);
                    assert(digits_value(dec_digits(ds).take(i + 1 - start), 10) == acc as int * 10
                        + d);
                    assert(acc as int * 10 + d > bound);
                    assert(digits_value(dec_digits(ds), 10) >= acc as int * 10 + d);
                }
            }
            return None;
        }
        acc = acc * 10 + d;
        i += 1;
    }
    proof {
        assert(dec_digits(ds).take(i - start) =~= dec_digits(ds));
    }
    if neg {
        if acc == 0x8000_0000_0000_0000 {
            return Some(-0x7FFF_FFFF_FFFF_FFFFi64 - 1);
        }
        let m = acc as i64;
        return Some(-m);
    }
    Some(acc as i64)
}

} // verus!
