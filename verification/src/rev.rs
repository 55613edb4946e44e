//! Revision descriptor: the per-revision metadata document.
//!
//! A revision's `.rev` document carries its backend type, parent, trust
//! level, UUID, statistics and a timestamp in the fixed format
//! `YYYY-MM-DD HH:MM:SS[.fff...]±ZZ[:]ZZ`. The caller parses the document
//! into plain fields; this module validates them: the backend type must
//! be `chunked`, and the timestamp must match the fixed format, with a
//! real calendar date.

use vstd::prelude::*;

use crate::chunkvec::is_dec_digit;
use crate::util::append_bytes;

verus! {

/// Errors of revision descriptor validation.
#[derive(Debug)]
pub enum RevError {
    /// The document could not be read; holds a report.
    Io(String),
    /// The document or its timestamp is malformed; holds the revision
    /// name and a report.
    ParseRev(Vec<u8>, String),
    /// The revision has a backend type other than `chunked`; holds it.
    WrongType(Vec<u8>),
}

/// The digit value of an ASCII byte.
pub open spec fn digit(b: u8) -> int {
    b - 0x30
}

/// The value of the two digits at `i`.
pub open spec fn d2(s: Seq<u8>, i: int) -> int {
    digit(s[i]) * 10 + digit(s[i + 1])
}

/// The value of the four digits at `i`.
pub open spec fn d4(s: Seq<u8>, i: int) -> int {
    d2(s, i) * 100 + d2(s, i + 2)
}

/// All bytes in `[i, j)` are decimal digits.
pub open spec fn digits_in(s: Seq<u8>, i: int, j: int) -> bool {
    forall|k: int| i <= k < j ==> is_dec_digit(#[trigger] s[k])
}

/// The length of the run of digits starting at `i`.
pub open spec fn digit_run(s: Seq<u8>, i: int) -> int
    decreases s.len() - i when 0 <= i <= s.len()
{
    if i < s.len() && is_dec_digit(s[i]) {
        1 + digit_run(s, i + 1)
    } else {
        0
    }
}

/// The value of the digit run `[i, j)` read as a decimal number.
pub open spec fn run_val(s: Seq<u8>, i: int, j: int) -> int
    decreases j - i,
{
    if i >= j {
        0
    } else {
        run_val(s, i, j - 1) * 10 + digit(s[j - 1])
    }
}

/// Ten to the `n`-th power.
pub open spec fn pow10(n: int) -> int
    decreases n,
{
    if n <= 0 {
        1
    } else {
        10 * pow10(n - 1)
    }
}

/// A Gregorian leap year.
pub open spec fn spec_is_leap(y: int) -> bool {
    y % 4 == 0 && (y % 100 != 0 || y % 400 == 0)
}

/// The number of days of month `m` in year `y`.
pub open spec fn spec_days_in_month(y: int, m: int) -> int {
    if m == 2 {
        if spec_is_leap(y) {
            29
        } else {
            28
        }
    } else if m == 4 || m == 6 || m == 9 || m == 11 {
        30
    } else {
        31
    }
}

/// Where the zone designator starts: after the optional fractional part.
pub open spec fn tz_start(s: Seq<u8>) -> int {
    if s.len() > 19 && s[19] == 0x2e {
        20 + digit_run(s, 20)
    } else {
        19
    }
}

/// The fixed timestamp format: `YYYY-MM-DD HH:MM:SS`, an optional
/// fraction `.f` of one to nine digits, and a zone `±ZZZZ` or `±ZZ:ZZ`,
/// with every field in range and the day valid for the month and year.
pub open spec fn timestamp_ok(s: Seq<u8>) -> bool {
    let z = tz_start(s);
    &&& s.len() >= 24
    &&& digits_in(s, 0, 4)
    &&& s[4] == 0x2d
    &&& digits_in(s, 5, 7)
    &&& s[7] == 0x2d
    &&& digits_in(s, 8, 10)
    &&& s[10] == 0x20
    &&& digits_in(s, 11, 13)
    &&& s[13] == 0x3a
    &&& digits_in(s, 14, 16)
    &&& s[16] == 0x3a
    &&& digits_in(s, 17, 19)
    &&& (s.len() > 19 && s[19] == 0x2e ==> 1 <= digit_run(s, 20) <= 9)
    &&& z < s.len()
    &&& (s[z] == 0x2b || s[z] == 0x2d)
    &&& {
        ||| (s.len() == z + 5 && digits_in(s, z + 1, z + 5))
        ||| (s.len() == z + 6 && digits_in(s, z + 1, z + 3) && s[z + 3] == 0x3a && digits_in(
            s,
            z + 4,
            z + 6,
        ))
    }
    &&& 1 <= d2(s, 5) <= 12
    &&& 1 <= d2(s, 8) <= spec_days_in_month(d4(s, 0), d2(s, 5))
    &&& d2(s, 11) <= 23
    &&& d2(s, 14) <= 59
    &&& d2(s, 17) <= 59
    &&& d2(s, tz_start(s) + 1) <= 23
    &&& tz_minutes_field(s) <= 59
}

/// The minutes field of the zone designator.
pub open spec fn tz_minutes_field(s: Seq<u8>) -> int {
    let z = tz_start(s);
    if s.len() == z + 5 {
        d2(s, z + 3)
    } else {
        d2(s, z + 4)
    }
}

/// The nanoseconds denoted by the optional fractional part.
pub open spec fn spec_nanos(s: Seq<u8>) -> int {
    if s.len() > 19 && s[19] == 0x2e {
        run_val(s, 20, 20 + digit_run(s, 20)) * pow10(9 - digit_run(s, 20))
    } else {
        0
    }
}

/// The zone offset east of UTC, in minutes, including the sign.
pub open spec fn spec_tz_minutes(s: Seq<u8>) -> int {
    let z = tz_start(s);
    let hhmm = d2(s, z + 1) * 60 + tz_minutes_field(s);
    if s[z] == 0x2d {
        -hhmm
    } else {
        hhmm
    }
}

/// A parsed revision timestamp.
#[derive(Debug, Clone, Copy, PartialEq, Eq, Structural)]
pub struct Timestamp {
    /// Calendar year (four digits).
    pub year: u16,
    /// Month, 1 to 12.
    pub month: u8,
    /// Day of month, valid for the month and year.
    pub day: u8,
    /// Hour, 0 to 23.
    pub hour: u8,
    /// Minute, 0 to 59.
    pub minute: u8,
    /// Second, 0 to 59.
    pub second: u8,
    /// Nanoseconds within the second.
    pub nanos: u32,
    /// Zone offset east of UTC in minutes, -1439 to 1439.
    pub tz_minutes: i32,
}

/// The timestamp denoted by a well-formed timestamp text.
pub open spec fn spec_timestamp(s: Seq<u8>) -> Timestamp {
    Timestamp {
        year: d4(s, 0) as u16,
        month: d2(s, 5) as u8,
        day: d2(s, 8) as u8,
        hour: d2(s, 11) as u8,
        minute: d2(s, 14) as u8,
        second: d2(s, 17) as u8,
        nanos: spec_nanos(s) as u32,
        tz_minutes: spec_tz_minutes(s) as i32,
    }
}

/// Whether the byte is an ASCII digit.
fn is_digit(b: u8) -> (r: bool)
    ensures
        r == is_dec_digit(b),
{
    b >= 0x30 && b <= 0x39
}

/// Reads the two digits at `i`.
fn read2(s: &[u8], i: usize) -> (r: u32)
    requires
        i + 2 <= s@.len(),
        digits_in(s@, i as int, i + 2),
    ensures
        r == d2(s@, i as int),
        r <= 99,
{
    proof {
        assert(is_dec_digit(s@[i as int]));
        assert(is_dec_digit(s@[i + 1]));
    }
    (s[i] - 0x30) as u32 * 10 + (s[i + 1] - 0x30) as u32
}

/// Checks that the bytes in `[i, j)` are all digits.
fn check_digits(s: &[u8], i: usize, j: usize) -> (r: bool)
    requires
        i <= j <= s@.len(),
    ensures
        r == digits_in(s@, i as int, j as int),
{
    let mut k: usize = i;
    while k < j
        invariant
            i <= k <= j <= s@.len(),
            digits_in(s@, i as int, k as int),
        decreases j - k,
    {
        if !is_digit(s[k]) {
            assert(!digits_in(s@, i as int, j as int)) by {
                assert(!is_dec_digit(s@[k as int]));
            }
            return false;
        }
        k += 1;
    }
    true
}

/// Parses a revision timestamp in the fixed format. Returns the denoted
/// timestamp exactly for well-formed texts and nothing otherwise.
pub fn parse_timestamp(s: &[u8]) -> (r: Option<Timestamp>)
    ensures
        timestamp_ok(s@) ==> (r matches Some(t) && t == spec_timestamp(s@)),
        !timestamp_ok(s@) ==> r is None,
{
    let n = s.len();
    if n < 24 {
        return None;
    }
    if !(check_digits(s, 0, 4) && s[4] == 0x2d && check_digits(s, 5, 7) && s[7] == 0x2d
        && check_digits(s, 8, 10) && s[10] == 0x20 && check_digits(s, 11, 13) && s[13] == 0x3a
        && check_digits(s, 14, 16) && s[16] == 0x3a && check_digits(s, 17, 19)) {
        return None;
    }
    // Optional fractional part.
    let mut nanos: u64 = 0;
    let mut z: usize = 19;
    if s[19] == 0x2e {
        let mut k: usize = 20;
        let mut val: u64 = 0;
        while k < n && is_digit(s[k]) && k < 29
            invariant
                20 <= k <= n == s@.len(),
                k <= 29,
                digits_in(s@, 20, k as int),
                val == run_val(s@, 20, k as int),
                val < 1000000000,
            decreases n - k,
        {
            proof {
                assert(run_val(s@, 20, k + 1) == run_val(s@, 20, k as int) * 10 + digit(
                    s@[k as int],
                ));
                assert(is_dec_digit(s@[k as int]));
            }
            val = val * 10 + (s[k] - 0x30) as u64;
            k += 1;
            if val >= 1000000000 {
                // At most nine fractional digits fit the loop, so their
                // value stays below one billion.
                proof {
                    lemma_run_val_bound(s@, 20, k as int);
                    lemma_pow10_bound(k - 20);
                    assert(false);
                }
                return None;
            }
        }
        if k == 29 && k < n && is_digit(s[k]) {
            // Ten or more fractional digits: not the fixed format.
            proof {
                assert(digits_in(s@, 20, 30));
                lemma_digit_run_at_least(s@, 20, 30);
                assert(digit_run(s@, 20) >= 10);
                assert(!timestamp_ok(s@));
            }
            return None;
        }
        proof {
            lemma_digit_run_exact(s@, 20, k as int);
        }
        if k == 20 {
            // A dot with no digits after it.
            proof {
                assert(digit_run(s@, 20) == 0);
                assert(!timestamp_ok(s@));
            }
            return None;
        }
        // Scale to nanoseconds: val * 10^(9 - digits).
        let digits = k - 20;
        let mut scale: u64 = 1;
        let mut e: usize = 0;
        while e < 9 - digits
            invariant
                0 <= e <= 9 - digits,
                1 <= digits <= 9,
                scale == pow10(e as int),
            decreases 9 - digits - e,
        {
            proof {
                lemma_pow10_bound(e as int);
                assert(e <= 7);
            }
            scale = scale * 10;
            e += 1;
        }
        proof {
            lemma_run_val_nonneg(s@, 20, k as int);
            lemma_pow10_bound((9 - digits) as int);
            assert(val * scale < 1000000000 * 1000000000) by (nonlinear_arith)
                requires
                    0 <= val < 1000000000,
                    0 < scale <= 1000000000,
            ;
        }
        nanos = val * scale;
        z = k;
    }
    // Zone designator.
    if z >= n {
        return None;
    }
    let sign = s[z];
    if sign != 0x2b && sign != 0x2d {
        return None;
    }
    let hh: u32;
    let mm: u32;
    if n == z + 5 {
        if !check_digits(s, z + 1, z + 5) {
            return None;
        }
        hh = read2(s, z + 1);
        mm = read2(s, z + 3);
    } else if n == z + 6 {
        if !(check_digits(s, z + 1, z + 3) && s[z + 3] == 0x3a && check_digits(s, z + 4, z + 6)) {
            return None;
        }
        hh = read2(s, z + 1);
        mm = read2(s, z + 4);
    } else {
        return None;
    }
    // Field ranges.
    let year = read2(s, 0) * 100 + read2(s, 2);
    let month = read2(s, 5);
    let day = read2(s, 8);
    let hour = read2(s, 11);
    let minute = read2(s, 14);
    let second = read2(s, 17);
    if month < 1 || month > 12 {
        return None;
    }
    if day < 1 || day > days_in_month(year as u16, month as u8) as u32 {
        return None;
    }
    if hour > 23 || minute > 59 || second > 59 {
        return None;
    }
    if hh > 23 || mm > 59 {
        return None;
    }
    let hhmm = (hh * 60 + mm) as i32;
    let tz_minutes: i32 = if sign == 0x2d {
        -hhmm
    } else {
        hhmm
    };
    proof {
        assert(z == tz_start(s@));
        assert(timestamp_ok(s@));
        assert(spec_nanos(s@) == nanos);
        assert(spec_tz_minutes(s@) == tz_minutes);
        assert(year == d4(s@, 0));
    }
    Some(
        Timestamp {
            year: year as u16,
            month: month as u8,
            day: day as u8,
            hour: hour as u8,
            minute: minute as u8,
            second: second as u8,
            nanos: nanos as u32,
            tz_minutes,
        },
    )
}

/// The number of days of the given month.
pub fn days_in_month(year: u16, month: u8) -> (r: u8)
    ensures
        r == spec_days_in_month(year as int, month as int),
{
    if month == 2 {
        if year % 4 == 0 && (year % 100 != 0 || year % 400 == 0) {
            proof {
                vstd::arithmetic::div_mod::lemma_mod_mod(year as int, 4, 25);
            }
            29
        } else {
            28
        }
    } else if month == 4 || month == 6 || month == 9 || month == 11 {
        30
    } else {
        31
    }
}

proof fn lemma_run_val_nonneg(s: Seq<u8>, i: int, j: int)
    requires
        digits_in(s, i, j),
        0 <= i,
        j <= s.len(),
    ensures
        run_val(s, i, j) >= 0,
    decreases j - i,
{
    if i < j {
        lemma_run_val_nonneg(s, i, j - 1);
        assert(is_dec_digit(s[j - 1]));
    }
}

/// A digit run of length `d` denotes at least `10^(d-1)`.
proof fn lemma_run_val_bound(s: Seq<u8>, i: int, j: int)
    requires
        digits_in(s, i, j),
        0 <= i <= j <= s.len(),
    ensures
        run_val(s, i, j) < pow10(j - i),
    decreases j - i,
{
    if i < j {
        lemma_run_val_bound(s, i, j - 1);
        assert(is_dec_digit(s[j - 1]));
        assert(run_val(s, i, j) == run_val(s, i, j - 1) * 10 + digit(s[j - 1]));
        assert(run_val(s, i, j - 1) * 10 <= (pow10(j - i - 1) - 1) * 10) by (nonlinear_arith)
            requires
                run_val(s, i, j - 1) <= pow10(j - i - 1) - 1,
        ;
    }
}

/// The digit run is never negative.
proof fn lemma_digit_run_nonneg(s: Seq<u8>, i: int)
    requires
        0 <= i <= s.len(),
    ensures
        digit_run(s, i) >= 0,
    decreases s.len() - i,
{
    if i < s.len() && is_dec_digit(s[i]) {
        lemma_digit_run_nonneg(s, i + 1);
    }
}

/// A run of digits observed up to `j` makes the digit run at least that
/// long.
proof fn lemma_digit_run_at_least(s: Seq<u8>, i: int, j: int)
    requires
        0 <= i <= j <= s.len(),
        digits_in(s, i, j),
    ensures
        digit_run(s, i) >= j - i,
    decreases j - i,
{
    if i < j {
        assert(is_dec_digit(s[i]));
        assert(digits_in(s, i + 1, j));
        lemma_digit_run_at_least(s, i + 1, j);
    } else {
        lemma_digit_run_nonneg(s, i);
    }
}

/// When the run stops at `j`, the digit run is exactly `j - i`.
proof fn lemma_digit_run_exact(s: Seq<u8>, i: int, j: int)
    requires
        0 <= i <= j <= s.len(),
        digits_in(s, i, j),
        j == s.len() || !is_dec_digit(s[j]),
    ensures
        digit_run(s, i) == j - i,
    decreases j - i,
{
    if i < j {
        assert(is_dec_digit(s[i]));
        assert(digits_in(s, i + 1, j));
        lemma_digit_run_exact(s, i + 1, j);
    }
}

proof fn lemma_pow10_bound(e: int)
    requires
        0 <= e <= 9,
    ensures
        pow10(e) <= 1000000000,
        pow10(e) >= 1,
        e <= 7 ==> pow10(e) <= 10000000,
        e <= 8 ==> pow10(e) <= 100000000,
{
    assert(pow10(0) == 1);
    assert(pow10(1) == 10);
    assert(pow10(2) == 100);
    assert(pow10(3) == 1000);
    assert(pow10(4) == 10000);
    assert(pow10(5) == 100000);
    assert(pow10(6) == 1000000);
    assert(pow10(7) == 10000000);
    assert(pow10(8) == 100000000);
    assert(pow10(9) == 1000000000);
}

/// The bytes of `chunked`.
pub open spec fn chunked_tag() -> Seq<u8> {
    seq![
        ('c' as u8),
        ('h' as u8),
        ('u' as u8),
        ('n' as u8),
        ('k' as u8),
        ('e' as u8),
        ('d' as u8),
    ]
}

/// A validated revision descriptor.
#[derive(Debug)]
pub struct Rev {
    /// The backend type; always `chunked` after validation.
    pub backend_type: Vec<u8>,
    /// The parent revision's ID.
    pub parent: Vec<u8>,
    /// The revision timestamp.
    pub timestamp: Timestamp,
    /// The trust level recorded for this revision.
    pub trust: Vec<u8>,
    /// The revision's UUID.
    pub uuid: Vec<u8>,
    /// Bytes written when the revision was taken.
    pub bytes_written: u64,
}

impl Rev {
    /// Validates the plain fields of a revision document: the backend
    /// type must be `chunked` and the timestamp must match the fixed
    /// format.
    pub fn new(
        name: &[u8],
        backend_type: &[u8],
        parent: &[u8],
        timestamp: &[u8],
        trust: &[u8],
        uuid: &[u8],
        bytes_written: u64,
    ) -> (r: Result<Rev, RevError>)
        ensures
            backend_type@ != chunked_tag() ==> (r matches Err(RevError::WrongType(t)) && t@
                == backend_type@),
            backend_type@ == chunked_tag() && !timestamp_ok(timestamp@) ==> (r matches Err(
                RevError::ParseRev(n, _),
            ) && n@ == name@),
            backend_type@ == chunked_tag() && timestamp_ok(timestamp@) ==> (r matches Ok(rev)
                && rev.backend_type@ == backend_type@ && rev.parent@ == parent@ && rev.timestamp
                == spec_timestamp(timestamp@) && rev.trust@ == trust@ && rev.uuid@ == uuid@
                && rev.bytes_written == bytes_written),
    {
        let mut chunked: Vec<u8> = Vec::new();
        chunked.push('c' as u8);
        chunked.push('h' as u8);
        chunked.push('u' as u8);
        chunked.push('n' as u8);
        chunked.push('k' as u8);
        chunked.push('e' as u8);
        chunked.push('d' as u8);
        proof {
            assert(chunked@ =~= chunked_tag());
        }
        if !crate::util::bytes_eq(backend_type, chunked.as_slice()) {
            let mut t: Vec<u8> = Vec::new();
            append_bytes(&mut t, backend_type);
            proof {
                assert(t@ =~= backend_type@);
            }
            return Err(RevError::WrongType(t));
        }
        let ts = match parse_timestamp(timestamp) {
            Some(t) => t,
            None => {
                let mut n: Vec<u8> = Vec::new();
                append_bytes(&mut n, name);
                proof {
                    assert(n@ =~= name@);
                }
                return Err(RevError::ParseRev(n, "timestamp does not match the fixed format".to_owned()));
            },
        };
        let mut bt: Vec<u8> = Vec::new();
        append_bytes(&mut bt, backend_type);
        let mut pr: Vec<u8> = Vec::new();
        append_bytes(&mut pr, parent);
        let mut tr: Vec<u8> = Vec::new();
        append_bytes(&mut tr, trust);
        let mut uu: Vec<u8> = Vec::new();
        append_bytes(&mut uu, uuid);
        proof {
            assert(bt@ =~= backend_type@);
            assert(pr@ =~= parent@);
            assert(tr@ =~= trust@);
            assert(uu@ =~= uuid@);
        }
        Ok(
            Rev {
                backend_type: bt,
                parent: pr,
                timestamp: ts,
                trust: tr,
                uuid: uu,
                bytes_written,
            },
        )
    }
}

} // verus!
