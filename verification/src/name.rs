use vstd::prelude::*;

verus! {

/// A calendar timestamp to the minute, as the fixed archive member
/// naming scheme `YYYY/MM/DD/HH/mm.json.bz2` encodes it.
#[derive(Clone, Copy, PartialEq, Eq, Structural, Debug)]
pub struct Timestamp {
    pub year: u16,
    pub month: u8,
    pub day: u8,
    pub hour: u8,
    pub minute: u8,
}

/// Gregorian leap year rule.
pub open spec fn spec_is_leap_year(y: int) -> bool {
    y % 4 == 0 && (y % 100 != 0 || y % 400 == 0)
}

/// Days of month `m` in year `y` (`m` between 1 and 12).
pub open spec fn spec_days_in_month(y: int, m: int) -> int {
    if m == 2 {
        if spec_is_leap_year(y) {
            29
        } else {
            28
        }
    } else if m == 4 || m == 6 || m == 9 || m == 11 {
        30
    } else {
        31
    }
}

/// A timestamp whose fields name a real calendar minute with a
/// four-digit year.
pub open spec fn ts_valid(ts: Timestamp) -> bool {
    &&& ts.year <= 9999
    &&& 1 <= ts.month <= 12
    &&& 1 <= ts.day <= spec_days_in_month(ts.year as int, ts.month as int)
    &&& ts.hour <= 23
    &&& ts.minute <= 59
}

pub open spec fn is_digit(c: char) -> bool {
    48 <= (c as u32) <= 57
}

pub open spec fn digit_val(c: char) -> int {
    (c as u32) - 48
}

pub open spec fn digit_char(d: int) -> char {
    if d == 0 {
        '0'
    } else if d == 1 {
        '1'
    } else if d == 2 {
        '2'
    } else if d == 3 {
        '3'
    } else if d == 4 {
        '4'
    } else if d == 5 {
        '5'
    } else if d == 6 {
        '6'
    } else if d == 7 {
        '7'
    } else if d == 8 {
        '8'
    } else {
        '9'
    }
}

/// A digit's character names its value back.
pub proof fn lemma_digit_char_val(c: char)
    requires
        is_digit(c),
    ensures
        digit_char(digit_val(c)) == c,
{
    vstd::utf8::char_u32_cast(c, c as u32);
    assert(('0' as u32) == 48 && ('1' as u32) == 49 && ('2' as u32) == 50 && ('3' as u32) == 51
        && ('4' as u32) == 52 && ('5' as u32) == 53 && ('6' as u32) == 54 && ('7' as u32) == 55 && (
    '8' as u32) == 56 && ('9' as u32) == 57);
}

/// The fixed five-field pattern: four year digits and four two-digit
/// fields separated by `'/'`, then exactly `.json.bz2`.
pub open spec fn name_matches(s: Seq<char>) -> bool {
    &&& s.len() == 25
    &&& is_digit(s[0]) && is_digit(s[1]) && is_digit(s[2]) && is_digit(s[3])
    &&& s[4] == '/' && is_digit(s[5]) && is_digit(s[6])
    &&& s[7] == '/' && is_digit(s[8]) && is_digit(s[9])
    &&& s[10] == '/' && is_digit(s[11]) && is_digit(s[12])
    &&& s[13] == '/' && is_digit(s[14]) && is_digit(s[15])
    &&& s[16] == '.' && s[17] == 'j' && s[18] == 's' && s[19] == 'o' && s[20] == 'n'
    &&& s[21] == '.' && s[22] == 'b' && s[23] == 'z' && s[24] == '2'
}

/// The two-digit field starting at `i`.
pub open spec fn field2(s: Seq<char>, i: int) -> int {
    digit_val(s[i]) * 10 + digit_val(s[i + 1])
}

/// The fields a matching name encodes.
pub open spec fn spec_fields(s: Seq<char>) -> Timestamp {
    Timestamp {
        year: (digit_val(s[0]) * 1000 + digit_val(s[1]) * 100 + digit_val(s[2]) * 10 + digit_val(
            s[3],
        )) as u16,
        month: field2(s, 5) as u8,
        day: field2(s, 8) as u8,
        hour: field2(s, 11) as u8,
        minute: field2(s, 14) as u8,
    }
}

/// The member name a timestamp encodes to.
pub open spec fn spec_name_of(ts: Timestamp) -> Seq<char> {
    seq![
        digit_char(ts.year as int / 1000 % 10),
        digit_char(ts.year as int / 100 % 10),
        digit_char(ts.year as int / 10 % 10),
        digit_char(ts.year as int % 10),
        '/',
        digit_char(ts.month as int / 10 % 10),
        digit_char(ts.month as int % 10),
        '/',
        digit_char(ts.day as int / 10 % 10),
        digit_char(ts.day as int % 10),
        '/',
        digit_char(ts.hour as int / 10 % 10),
        digit_char(ts.hour as int % 10),
        '/',
        digit_char(ts.minute as int / 10 % 10),
        digit_char(ts.minute as int % 10),
        '.',
        'j',
        's',
        'o',
        'n',
        '.',
        'b',
        'z',
        '2',
    ]
}

/// What can go wrong while reading a timestamp out of a member name.
#[derive(Debug)]
pub enum Error {
    /// The name does not match the pattern, or its fields name no real
    /// calendar minute; carries the name.
    InvalidFormat(String),
    /// A timestamp that does not survive the canonical round trip;
    /// field validation leaves nothing for this condition to catch.
    InvalidDateTime(Timestamp),
}

/// The mathematical value of an [`Error`].
pub enum ErrorView {
    InvalidFormat(Seq<char>),
    InvalidDateTime(Timestamp),
}

impl View for Error {
    type V = ErrorView;

    open spec fn view(&self) -> ErrorView {
        match self {
            Error::InvalidFormat(s) => ErrorView::InvalidFormat(s@),
            Error::InvalidDateTime(ts) => ErrorView::InvalidDateTime(*ts),
        }
    }
}

/// Reads one digit of `s` at position `i`.
fn get_digit(s: &str, i: usize) -> (r: Option<u16>)
    requires
        i < s@.len(),
    ensures
        match r {
            Some(d) => is_digit(s@[i as int]) && d == digit_val(s@[i as int]) && d <= 9,
            None => !is_digit(s@[i as int]),
        },
{
    let c = s.get_char(i);
    let u = c as u32;
    if 48 <= u && u <= 57 {
        Some((u - 48) as u16)
    } else {
        None
    }
}

/// Whether year `y` is a Gregorian leap year.
fn is_leap_year(y: u16) -> (r: bool)
    ensures
        r == spec_is_leap_year(y as int),
{
    y % 4 == 0 && (y % 100 != 0 || y % 400 == 0)
}

/// The number of days of month `m` in year `y`.
fn days_in_month(y: u16, m: u8) -> (r: u8)
    ensures
        r == spec_days_in_month(y as int, m as int),
{
    if m == 2 {
        if is_leap_year(y) {
            29
        } else {
            28
        }
    } else if m == 4 || m == 6 || m == 9 || m == 11 {
        30
    } else {
        31
    }
}

/// Reads the timestamp a member name encodes, accepting exactly the
/// names that match the fixed five-field pattern and whose fields name a
/// real calendar minute; any other name fails with the invalid-format
/// condition carrying the name.
pub fn extract_timestamp(name: &str) -> (r: Result<Timestamp, Error>)
    ensures
        match r {
            Ok(ts) => name_matches(name@) && ts == spec_fields(name@) && ts_valid(ts),
            Err(e) => !(name_matches(name@) && ts_valid(spec_fields(name@))) && e@
                == ErrorView::InvalidFormat(name@),
        },
{
    match parse_name(name) {
        Some(ts) => Ok(ts),
        None => Err(Error::InvalidFormat(name.to_owned())),
    }
}

/// The pattern match and field validation behind [`extract_timestamp`].
fn parse_name(name: &str) -> (r: Option<Timestamp>)
    ensures
        match r {
            Some(ts) => name_matches(name@) && ts == spec_fields(name@) && ts_valid(ts),
            None => !(name_matches(name@) && ts_valid(spec_fields(name@))),
        },
{
    if name.unicode_len() != 25 {
        return None;
    }
    let (d0, d1, d2, d3) = match (get_digit(name, 0), get_digit(name, 1), get_digit(name, 2),
        get_digit(name, 3)) {
        (Some(a), Some(b), Some(c), Some(d)) => (a, b, c, d),
        _ => {
            return None;
        },
    };
    if name.get_char(4) != '/' {
        return None;
    }
    let month = match (get_digit(name, 5), get_digit(name, 6)) {
        (Some(a), Some(b)) => (a * 10 + b) as u8,
        _ => {
            return None;
        },
    };
    if name.get_char(7) != '/' {
        return None;
    }
    let day = match (get_digit(name, 8), get_digit(name, 9)) {
        (Some(a), Some(b)) => (a * 10 + b) as u8,
        _ => {
            return None;
        },
    };
    if name.get_char(10) != '/' {
        return None;
    }
    let hour = match (get_digit(name, 11), get_digit(name, 12)) {
        (Some(a), Some(b)) => (a * 10 + b) as u8,
        _ => {
            return None;
        },
    };
    if name.get_char(13) != '/' {
        return None;
    }
    let minute = match (get_digit(name, 14), get_digit(name, 15)) {
        (Some(a), Some(b)) => (a * 10 + b) as u8,
        _ => {
            return None;
        },
    };
    if name.get_char(16) != '.' || name.get_char(17) != 'j' || name.get_char(18) != 's'
        || name.get_char(19) != 'o' || name.get_char(20) != 'n' || name.get_char(21) != '.'
        || name.get_char(22) != 'b' || name.get_char(23) != 'z' || name.get_char(24) != '2' {
        return None;
    }
    let year = d0 * 1000 + d1 * 100 + d2 * 10 + d3;
    let ts = Timestamp { year, month, day, hour, minute };
    proof {
        assert(name_matches(name@));
        assert(ts == spec_fields(name@));
    }
    if !(1 <= month && month <= 12) {
        return None;
    }
    if !(1 <= day && day <= days_in_month(year, month)) {
        return None;
    }
    if !(hour <= 23 && minute <= 59) {
        return None;
    }
    Some(ts)
}

/// One digit as text.
fn digit_str(d: u16) -> (r: &'static str)
    requires
        d <= 9,
    ensures
        r@ == seq![digit_char(d as int)],
{
    proof {
        reveal_strlit("0");
        reveal_strlit("1");
        reveal_strlit("2");
        reveal_strlit("3");
        reveal_strlit("4");
        reveal_strlit("5");
        reveal_strlit("6");
        reveal_strlit("7");
        reveal_strlit("8");
        reveal_strlit("9");
    }
    match d {
        0 => "0",
        1 => "1",
        2 => "2",
        3 => "3",
        4 => "4",
        5 => "5",
        6 => "6",
        7 => "7",
        8 => "8",
        _ => "9",
    }
}

/// Writes a timestamp back as the member name that encodes it: four year
/// digits and four two-digit fields separated by `'/'`, then `.json.bz2`.
pub fn to_name(ts: Timestamp) -> (r: String)
    requires
        ts_valid(ts),
    ensures
        r@ == spec_name_of(ts),
{
    proof {
        reveal_strlit("/");
        reveal_strlit(".json.bz2");
    }
    let mut s = String::new();
    s.append(digit_str(ts.year / 1000 % 10));
    s.append(digit_str(ts.year / 100 % 10));
    s.append(digit_str(ts.year / 10 % 10));
    s.append(digit_str(ts.year % 10));
    s.append("/");
    s.append(digit_str((ts.month / 10 % 10) as u16));
    s.append(digit_str((ts.month % 10) as u16));
    s.append("/");
    s.append(digit_str((ts.day / 10 % 10) as u16));
    s.append(digit_str((ts.day % 10) as u16));
    s.append("/");
    s.append(digit_str((ts.hour / 10 % 10) as u16));
    s.append(digit_str((ts.hour % 10) as u16));
    s.append("/");
    s.append(digit_str((ts.minute / 10 % 10) as u16));
    s.append(digit_str((ts.minute % 10) as u16));
    s.append(".json.bz2");
    proof {
        assert(("/")@ =~= seq!['/']);
        assert((".json.bz2")@ =~= seq!['.', 'j', 's', 'o', 'n', '.', 'b', 'z', '2']);
        assert(s@ =~= spec_name_of(ts));
    }
    s
}

/// Round trip: a name that matches the pattern and names a real
/// calendar minute is written back unchanged by
/// `to_name(extract_timestamp(name))`.
proof fn lemma_digits2(a: int, b: int)
    by (nonlinear_arith)
    requires
        0 <= a <= 9,
        0 <= b <= 9,
    ensures
        (a * 10 + b) / 10 % 10 == a,
        (a * 10 + b) % 10 == b,
{
}

proof fn lemma_digits4(a: int, b: int, c: int, d: int)
    by (nonlinear_arith)
    requires
        0 <= a <= 9,
        0 <= b <= 9,
        0 <= c <= 9,
        0 <= d <= 9,
    ensures
        (a * 1000 + b * 100 + c * 10 + d) / 1000 % 10 == a,
        (a * 1000 + b * 100 + c * 10 + d) / 100 % 10 == b,
        (a * 1000 + b * 100 + c * 10 + d) / 10 % 10 == c,
        (a * 1000 + b * 100 + c * 10 + d) % 10 == d,
{
}

pub proof fn lemma_name_round_trip(s: Seq<char>)
    requires
        name_matches(s),
        ts_valid(spec_fields(s)),
    ensures
        spec_name_of(spec_fields(s)) == s,
{
    let ts = spec_fields(s);
    lemma_digits4(digit_val(s[0]), digit_val(s[1]), digit_val(s[2]), digit_val(s[3]));
    lemma_digits2(digit_val(s[5]), digit_val(s[6]));
    lemma_digits2(digit_val(s[8]), digit_val(s[9]));
    lemma_digits2(digit_val(s[11]), digit_val(s[12]));
    lemma_digits2(digit_val(s[14]), digit_val(s[15]));
    lemma_digit_char_val(s[0]);
    lemma_digit_char_val(s[1]);
    lemma_digit_char_val(s[2]);
    lemma_digit_char_val(s[3]);
    lemma_digit_char_val(s[5]);
    lemma_digit_char_val(s[6]);
    lemma_digit_char_val(s[8]);
    lemma_digit_char_val(s[9]);
    lemma_digit_char_val(s[11]);
    lemma_digit_char_val(s[12]);
    lemma_digit_char_val(s[14]);
    lemma_digit_char_val(s[15]);
    assert(ts.year as int == digit_val(s[0]) * 1000 + digit_val(s[1]) * 100 + digit_val(s[2]) * 10
        + digit_val(s[3]));
    assert(ts.year as int / 1000 % 10 == digit_val(s[0]));
    assert(ts.year as int / 100 % 10 == digit_val(s[1]));
    assert(ts.year as int / 10 % 10 == digit_val(s[2]));
    assert(ts.year as int % 10 == digit_val(s[3]));
    assert(ts.month as int / 10 % 10 == digit_val(s[5]));
    assert(ts.month as int % 10 == digit_val(s[6]));
    assert(ts.day as int / 10 % 10 == digit_val(s[8]));
    assert(ts.day as int % 10 == digit_val(s[9]));
    assert(ts.hour as int / 10 % 10 == digit_val(s[11]));
    assert(ts.hour as int % 10 == digit_val(s[12]));
    assert(ts.minute as int / 10 % 10 == digit_val(s[14]));
    assert(ts.minute as int % 10 == digit_val(s[15]));
    assert(spec_name_of(ts) =~= s);
}

} // verus!
