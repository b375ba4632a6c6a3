//! Textual codecs for the XSD scalar values the vocabulary uses: date-times
//! and durations.
//!
//! Both codecs are plain grammars over characters.  Each parser is specified
//! by a spec-level model of the grammar, and each formatter by a spec-level
//! model of the text it produces; the round-trip laws relating the two are
//! proved in this module.

use vstd::prelude::*;

verus! {

// ---------------------------------------------------------------------------
// Decimal digits
// ---------------------------------------------------------------------------

/// Whether `c` is a decimal digit.
pub open spec fn is_digit(c: char) -> bool {
    c == '0' || c == '1' || c == '2' || c == '3' || c == '4' || c == '5' || c == '6' || c == '7'
        || c == '8' || c == '9'
}

/// Numeric value of a digit character.
pub open spec fn digit_val(c: char) -> int {
    if c == '0' {
        0
    } else if c == '1' {
        1
    } else if c == '2' {
        2
    } else if c == '3' {
        3
    } else if c == '4' {
        4
    } else if c == '5' {
        5
    } else if c == '6' {
        6
    } else if c == '7' {
        7
    } else if c == '8' {
        8
    } else {
        9
    }
}

/// Digit character of a value below ten.
pub open spec fn digit_char(d: int) -> char {
    if d == 0 {
        '0'
    } else if d == 1 {
        '1'
    } else if d == 2 {
        '2'
    } else if d == 3 {
        '3'
    } else if d == 4 {
        '4'
    } else if d == 5 {
        '5'
    } else if d == 6 {
        '6'
    } else if d == 7 {
        '7'
    } else if d == 8 {
        '8'
    } else {
        '9'
    }
}

/// All of `s[i .. i + w)` are digits.
pub open spec fn digits_at(s: Seq<char>, i: int, w: int) -> bool {
    &&& 0 <= i
    &&& i + w <= s.len()
    &&& forall|k: int| i <= k < i + w ==> is_digit(#[trigger] s[k])
}

/// Value of the `w` digits starting at `i`.
pub open spec fn num_at(s: Seq<char>, i: int, w: int) -> int
    decreases w,
{
    if w <= 0 {
        0
    } else {
        num_at(s, i, w - 1) * 10 + digit_val(s[i + w - 1])
    }
}

/// First position at or after `i` that does not hold a digit.
pub open spec fn digit_end(s: Seq<char>, i: int) -> int
    decreases s.len() - i,
{
    if i < 0 || i >= s.len() || !is_digit(s[i]) {
        i
    } else {
        digit_end(s, i + 1)
    }
}

/// Ten to the `n`.
pub open spec fn pow10(n: nat) -> int
    decreases n,
{
    if n == 0 {
        1
    } else {
        10 * pow10((n - 1) as nat)
    }
}

/// The `w` low decimal digits of `v`, zero padded.
pub open spec fn pad(v: int, w: nat) -> Seq<char>
    decreases w,
{
    if w == 0 {
        Seq::empty()
    } else {
        pad(v / 10, (w - 1) as nat).push(digit_char(v % 10))
    }
}

/// Unpadded decimal digits of `v`.
pub open spec fn dec(v: int) -> Seq<char>
    decreases v,
{
    if v <= 0 {
        seq!['0']
    } else if v < 10 {
        seq![digit_char(v)]
    } else {
        dec(v / 10).push(digit_char(v % 10))
    }
}

/// A field of `w` digits stays below ten to the `w`.
pub proof fn lemma_num_at_bound(s: Seq<char>, i: int, w: int)
    requires
        digits_at(s, i, w),
    ensures
        0 <= num_at(s, i, w) < pow10(if w >= 0 {
            w as nat
        } else {
            0
        }),
    decreases w,
{
    if w > 0 {
        assert(digits_at(s, i, w - 1));
        lemma_num_at_bound(s, i, w - 1);
        assert(is_digit(s[i + w - 1]));
        assert(digit_val(s[i + w - 1]) <= 9);
    }
}

proof fn lemma_digit_end_bounds(s: Seq<char>, i: int)
    requires
        0 <= i <= s.len(),
    ensures
        i <= digit_end(s, i) <= s.len(),
        forall|k: int| i <= k < digit_end(s, i) ==> is_digit(#[trigger] s[k]),
        digit_end(s, i) < s.len() ==> !is_digit(s[digit_end(s, i)]),
    decreases s.len() - i,
{
    if i < s.len() && is_digit(s[i]) {
        lemma_digit_end_bounds(s, i + 1);
    }
}

} // verus!

verus! {

// ---------------------------------------------------------------------------
// Duration
// ---------------------------------------------------------------------------

/// An XSD duration: an optional sign and six unsigned components.
/// Components a document does not mention are zero.
#[derive(Debug, Clone, Copy, PartialEq, Eq, Hash, Structural)]
pub struct Duration {
    pub negative: bool,
    pub years: u64,
    pub months: u64,
    pub days: u64,
    pub hours: u64,
    pub minutes: u64,
    pub seconds: u64,
}

/// The grammar violation a duration parse reports, carrying the rejected text.
#[derive(Debug, Clone, PartialEq, Eq)]
pub struct DurationParseError(pub String);

/// One `<digits><mark>` component at cursor `i`: the cursor after the
/// component and its value, or the cursor unmoved and zero when the
/// component is absent (no digits, the wrong mark, or a value past `u64`).
pub open spec fn spec_component(s: Seq<char>, i: int, mark: char) -> (int, u64) {
    let e = digit_end(s, i);
    if e > i && e < s.len() && s[e] == mark && num_at(s, i, e - i) <= u64::MAX {
        (e + 1, num_at(s, i, e - i) as u64)
    } else {
        (i, 0u64)
    }
}

/// The duration grammar: `P`, an optional `-`, then year/month/day
/// components, then an optional `T`-introduced time section with
/// hour/minute/second components; nothing may remain.
pub open spec fn spec_parse_duration(s: Seq<char>) -> Option<Duration> {
    if s.len() == 0 || s[0] != 'P' {
        None
    } else {
        let neg = 1 < s.len() && s[1] == '-';
        let i1: int = if neg { 2 } else { 1 };
        let (i2, years) = spec_component(s, i1, 'Y');
        let (i3, months) = spec_component(s, i2, 'M');
        let (i4, days) = spec_component(s, i3, 'D');
        if i4 < s.len() && s[i4] == 'T' {
            let (i5, hours) = spec_component(s, i4 + 1, 'H');
            let (i6, minutes) = spec_component(s, i5, 'M');
            let (i7, seconds) = spec_component(s, i6, 'S');
            if i7 == s.len() {
                Some(Duration { negative: neg, years, months, days, hours, minutes, seconds })
            } else {
                None
            }
        } else {
            if i4 == s.len() {
                Some(
                    Duration {
                        negative: neg,
                        years,
                        months,
                        days,
                        hours: 0,
                        minutes: 0,
                        seconds: 0,
                    },
                )
            } else {
                None
            }
        }
    }
}

/// A rendered component: the digits and the mark, or nothing when zero.
pub open spec fn fmt_comp(v: u64, mark: char) -> Seq<char> {
    if v != 0 {
        dec(v as int).push(mark)
    } else {
        Seq::empty()
    }
}

/// The rendered `P` and sign.
pub open spec fn fmt_head(d: Duration) -> Seq<char> {
    seq!['P'] + (if d.negative {
        seq!['-']
    } else {
        Seq::empty()
    })
}

/// Whether the rendering carries a time section at all.
pub open spec fn fmt_has_time(d: Duration) -> bool {
    d.hours != 0 || d.minutes != 0 || d.seconds != 0
}

/// The rendered time section.
pub open spec fn fmt_time(d: Duration) -> Seq<char> {
    if fmt_has_time(d) {
        seq!['T'] + fmt_comp(d.hours, 'H') + fmt_comp(d.minutes, 'M') + fmt_comp(d.seconds, 'S')
    } else {
        Seq::empty()
    }
}

/// The text a duration renders to: `P`, the sign, then each nonzero
/// component with its mark; the `T` section appears only when some time
/// component is nonzero.  Some emitters of this format have been seen
/// writing the months component with the years magnitude; this renderer
/// deliberately gives every component its own magnitude, so that a value
/// always decodes back from its own rendering.
pub open spec fn spec_format_duration(d: Duration) -> Seq<char> {
    fmt_head(d) + (fmt_comp(d.years, 'Y') + fmt_comp(d.months, 'M') + fmt_comp(d.days, 'D'))
        + fmt_time(d)
}

// ---------------------------------------------------------------------------
// Executable digit helpers
// ---------------------------------------------------------------------------

/// Relies on `String::push`: appends exactly the one character.
#[verifier::external_body]
pub fn push_text_char(s: &mut String, c: char)
    ensures
        final(s)@ == old(s)@.push(c),
{
    s.push(c);
}

/// Digit value of a character, if it is one.
fn digit_of(c: char) -> (r: Option<u64>)
    ensures
        r is Some <==> is_digit(c),
        r is Some ==> r->0 == digit_val(c),
{
    match c {
        '0' => Some(0),
        '1' => Some(1),
        '2' => Some(2),
        '3' => Some(3),
        '4' => Some(4),
        '5' => Some(5),
        '6' => Some(6),
        '7' => Some(7),
        '8' => Some(8),
        '9' => Some(9),
        _ => None,
    }
}

/// Digit character of a value below ten.
fn char_of_digit(d: u64) -> (r: char)
    requires
        d < 10,
    ensures
        r == digit_char(d as int),
{
    match d {
        0 => '0',
        1 => '1',
        2 => '2',
        3 => '3',
        4 => '4',
        5 => '5',
        6 => '6',
        7 => '7',
        8 => '8',
        _ => '9',
    }
}

/// Appends the unpadded decimal digits of `v`.
fn push_dec(out: &mut String, v: u64)
    ensures
        final(out)@ == old(out)@ + dec(v as int),
    decreases v,
{
    if v >= 10 {
        push_dec(out, v / 10);
        push_text_char(out, char_of_digit(v % 10));
        assert(final(out)@ =~= old(out)@ + dec(v as int));
    } else {
        push_text_char(out, char_of_digit(v));
        assert(final(out)@ =~= old(out)@ + dec(v as int));
    }
}

/// Scans the run of digits starting at `i`: where it ends, and its value
/// unless that value passes `u64`.
fn scan_number(s: &str, n: usize, i: usize) -> (r: (usize, Option<u64>))
    requires
        n == s@.len(),
        i <= n,
    ensures
        r.0 == digit_end(s@, i as int),
        i <= r.0 <= n,
        r.1 is Some <==> num_at(s@, i as int, r.0 - i) <= u64::MAX,
        r.1 is Some ==> r.1->0 == num_at(s@, i as int, r.0 - i),
{
    let mut j: usize = i;
    let mut acc: u128 = 0;
    let mut over: bool = false;
    loop
        invariant
            i <= j <= n,
            n == s@.len(),
            digit_end(s@, i as int) == digit_end(s@, j as int),
            forall|k: int| i <= k < j ==> is_digit(#[trigger] s@[k]),
            !over ==> acc == num_at(s@, i as int, j - i) && acc <= u64::MAX,
            over ==> num_at(s@, i as int, j - i) > u64::MAX,
        ensures
            i <= j <= n,
            digit_end(s@, i as int) == j,
            !over ==> acc == num_at(s@, i as int, j - i) && acc <= u64::MAX,
            over ==> num_at(s@, i as int, j - i) > u64::MAX,
        decreases n - j,
    {
        if j >= n {
            break;
        }
        let c = s.get_char(j);
        let d = match digit_of(c) {
            Some(d) => d,
            None => {
                break;
            }
        };
        proof {
            assert(num_at(s@, i as int, (j - i) + 1) == num_at(s@, i as int, j - i) * 10
                + digit_val(s@[j as int]));
        }
        if !over {
            acc = acc * 10 + (d as u128);
            if acc > u64::MAX as u128 {
                over = true;
            }
        }
        j = j + 1;
    }
    proof {
        assert(digit_end(s@, j as int) == j);
    }
    if over {
        (j, None)
    } else {
        (j, Some(acc as u64))
    }
}

/// Scans one `<digits><mark>` component, as `spec_component` describes.
fn scan_component(s: &str, n: usize, i: usize, mark: char) -> (r: (usize, u64))
    requires
        n == s@.len(),
        i <= n,
    ensures
        r.0 == spec_component(s@, i as int, mark).0,
        r.1 == spec_component(s@, i as int, mark).1,
        i <= r.0 <= n,
{
    let (e, val) = scan_number(s, n, i);
    if e > i && e < n {
        let c = s.get_char(e);
        if c == mark {
            match val {
                Some(v) => (e + 1, v),
                None => (i, 0),
            }
        } else {
            (i, 0)
        }
    } else {
        (i, 0)
    }
}

/// Concatenation of character sequences associates.
proof fn seq_concat_assoc(a: Seq<char>, b: Seq<char>, c: Seq<char>)
    ensures
        (a + b) + c == a + (b + c),
{
    assert((a + b) + c =~= a + (b + c));
}

impl Duration {
    /// Parses the duration grammar; rejected text is reported back.
    pub fn parse(s: &str) -> (r: Result<Duration, DurationParseError>)
        ensures
            match r {
                Ok(d) => spec_parse_duration(s@) == Some(d),
                Err(_) => spec_parse_duration(s@) is None,
            },
    {
        let n = s.unicode_len();
        if n == 0 || s.get_char(0) != 'P' {
            return Err(DurationParseError(s.to_owned()));
        }
        let neg = n > 1 && s.get_char(1) == '-';
        let i1: usize = if neg {
            2
        } else {
            1
        };
        let (i2, years) = scan_component(s, n, i1, 'Y');
        let (i3, months) = scan_component(s, n, i2, 'M');
        let (i4, days) = scan_component(s, n, i3, 'D');
        if i4 < n && s.get_char(i4) == 'T' {
            let (i5, hours) = scan_component(s, n, i4 + 1, 'H');
            let (i6, minutes) = scan_component(s, n, i5, 'M');
            let (i7, seconds) = scan_component(s, n, i6, 'S');
            if i7 == n {
                Ok(Duration { negative: neg, years, months, days, hours, minutes, seconds })
            } else {
                Err(DurationParseError(s.to_owned()))
            }
        } else {
            if i4 == n {
                Ok(
                    Duration {
                        negative: neg,
                        years,
                        months,
                        days,
                        hours: 0,
                        minutes: 0,
                        seconds: 0,
                    },
                )
            } else {
                Err(DurationParseError(s.to_owned()))
            }
        }
    }

    /// Renders the duration back to text.
    pub fn to_text(&self) -> (r: String)
        ensures
            r@ == spec_format_duration(*self),
    {
        let ghost head = seq!['P'] + (if self.negative {
            seq!['-']
        } else {
            Seq::<char>::empty()
        });
        let ghost yp = if self.years != 0 {
            dec(self.years as int).push('Y')
        } else {
            Seq::<char>::empty()
        };
        let ghost mp = if self.months != 0 {
            dec(self.months as int).push('M')
        } else {
            Seq::<char>::empty()
        };
        let ghost dp = if self.days != 0 {
            dec(self.days as int).push('D')
        } else {
            Seq::<char>::empty()
        };
        let ghost hp = if self.hours != 0 {
            dec(self.hours as int).push('H')
        } else {
            Seq::<char>::empty()
        };
        let ghost mip = if self.minutes != 0 {
            dec(self.minutes as int).push('M')
        } else {
            Seq::<char>::empty()
        };
        let ghost sp = if self.seconds != 0 {
            dec(self.seconds as int).push('S')
        } else {
            Seq::<char>::empty()
        };
        let mut out = String::new();
        push_text_char(&mut out, 'P');
        if self.negative {
            push_text_char(&mut out, '-');
        }
        assert(out@ =~= head);
        if self.years != 0 {
            push_dec(&mut out, self.years);
            push_text_char(&mut out, 'Y');
        }
        assert(out@ =~= head + yp);
        let ghost m1 = out@;
        if self.months != 0 {
            push_dec(&mut out, self.months);
            push_text_char(&mut out, 'M');
        }
        assert(out@ =~= m1 + mp);
        let ghost m2 = out@;
        if self.days != 0 {
            push_dec(&mut out, self.days);
            push_text_char(&mut out, 'D');
        }
        assert(out@ =~= m2 + dp);
        proof {
            seq_concat_assoc(head, yp, mp);
            seq_concat_assoc(head, yp + mp, dp);
            assert(out@ == head + (yp + mp + dp));
        }
        let ghost m3 = out@;
        if self.hours != 0 || self.minutes != 0 || self.seconds != 0 {
            push_text_char(&mut out, 'T');
            assert(out@ =~= m3 + seq!['T']);
            let ghost m4 = out@;
            if self.hours != 0 {
                push_dec(&mut out, self.hours);
                push_text_char(&mut out, 'H');
            }
            assert(out@ =~= m4 + hp);
            let ghost m5 = out@;
            if self.minutes != 0 {
                push_dec(&mut out, self.minutes);
                push_text_char(&mut out, 'M');
            }
            assert(out@ =~= m5 + mip);
            let ghost m6 = out@;
            if self.seconds != 0 {
                push_dec(&mut out, self.seconds);
                push_text_char(&mut out, 'S');
            }
            assert(out@ =~= m6 + sp);
            proof {
                seq_concat_assoc(m3, seq!['T'], hp);
                seq_concat_assoc(m3, seq!['T'] + hp, mip);
                seq_concat_assoc(m3, seq!['T'] + hp + mip, sp);
                assert(out@ == m3 + (seq!['T'] + hp + mip + sp));
            }
        }
        proof {
            assert(out@ == spec_format_duration(*self));
        }
        out
    }
}

} // verus!

verus! {

// ---------------------------------------------------------------------------
// DateTime
// ---------------------------------------------------------------------------

/// An XSD date-time.  The grammar a document used is remembered: a naive
/// stamp (no offset, with a four-digit fraction of a second kept in
/// ten-thousandths) re-encodes as a naive stamp, an offset stamp re-encodes
/// in the offset grammar at seconds precision.
#[derive(Debug, Clone, Copy, PartialEq, Eq, Hash, Structural)]
pub enum DateTime {
    Naive { year: u32, month: u32, day: u32, hour: u32, minute: u32, second: u32, frac: u32 },
    WithOffset {
        year: u32,
        month: u32,
        day: u32,
        hour: u32,
        minute: u32,
        second: u32,
        offset_minutes: i32,
    },
}

/// Leap years of the Gregorian calendar.
pub open spec fn leap_year(y: int) -> bool {
    y % 4 == 0 && (y % 100 != 0 || y % 400 == 0)
}

/// Days of month `m` of year `y`.
pub open spec fn days_in_month(y: int, m: int) -> int {
    if m == 2 {
        if leap_year(y) {
            29
        } else {
            28
        }
    } else if m == 4 || m == 6 || m == 9 || m == 11 {
        30
    } else {
        31
    }
}

/// A calendar date the codec accepts: four-digit year, real month and day.
pub open spec fn valid_date(y: int, m: int, d: int) -> bool {
    0 <= y <= 9999 && 1 <= m <= 12 && 1 <= d <= days_in_month(y, m)
}

/// A time of day the codec accepts.
pub open spec fn valid_time(h: int, mi: int, sec: int) -> bool {
    0 <= h <= 23 && 0 <= mi <= 59 && 0 <= sec <= 59
}

/// A well-formed date-time value: exactly those values a parse can produce.
pub open spec fn datetime_wf(dt: DateTime) -> bool {
    match dt {
        DateTime::Naive { year, month, day, hour, minute, second, frac } => valid_date(
            year as int,
            month as int,
            day as int,
        ) && valid_time(hour as int, minute as int, second as int) && frac <= 9999,
        DateTime::WithOffset { year, month, day, hour, minute, second, offset_minutes } =>
            valid_date(year as int, month as int, day as int) && valid_time(
            hour as int,
            minute as int,
            second as int,
        ) && -1439 <= offset_minutes <= 1439,
    }
}

/// The date-and-time prefix both grammars share:
/// `YYYY-MM-DDTHH:MM:SS`, with `t` and a space accepted for the separator.
pub open spec fn stamp_prefix_ok(s: Seq<char>) -> bool {
    &&& s.len() >= 19
    &&& digits_at(s, 0, 4)
    &&& s[4] == '-'
    &&& digits_at(s, 5, 2)
    &&& s[7] == '-'
    &&& digits_at(s, 8, 2)
    &&& (s[10] == 'T' || s[10] == 't' || s[10] == ' ')
    &&& digits_at(s, 11, 2)
    &&& s[13] == ':'
    &&& digits_at(s, 14, 2)
    &&& s[16] == ':'
    &&& digits_at(s, 17, 2)
}

/// Whether the prefix's fields name a real date and time.
pub open spec fn stamp_fields_ok(s: Seq<char>) -> bool {
    valid_date(num_at(s, 0, 4), num_at(s, 5, 2), num_at(s, 8, 2)) && valid_time(
        num_at(s, 11, 2),
        num_at(s, 14, 2),
        num_at(s, 17, 2),
    )
}

/// End of the optional fraction after the seconds field: `19` when there is
/// none, the end of its digit run when there is one, nothing when a lone
/// dot has no digits.
pub open spec fn frac_region_end(s: Seq<char>) -> Option<int> {
    if s.len() > 19 && s[19] == '.' {
        let e = digit_end(s, 20);
        if e > 20 {
            Some(e)
        } else {
            None
        }
    } else {
        Some(19)
    }
}

/// The offset suffix beginning at `q`: `Z`/`z`, or a signed `HH:MM` pair,
/// which must close the text; its value in minutes.
pub open spec fn spec_parse_offset_suffix(s: Seq<char>, q: int) -> Option<int> {
    if 0 <= q < s.len() && (s[q] == 'Z' || s[q] == 'z') && q + 1 == s.len() {
        Some(0)
    } else if 0 <= q && q + 6 == s.len() && (s[q] == '+' || s[q] == '-') && digits_at(s, q + 1, 2)
        && s[q + 3] == ':' && digits_at(s, q + 4, 2) && num_at(s, q + 1, 2) <= 23 && num_at(
        s,
        q + 4,
        2,
    ) <= 59 {
        let mins = num_at(s, q + 1, 2) * 60 + num_at(s, q + 4, 2);
        if s[q] == '-' {
            Some(-mins)
        } else {
            Some(mins)
        }
    } else {
        None
    }
}

/// The offset grammar: the shared prefix, an optional fraction of a second
/// (accepted and discarded), and an explicit offset.
pub open spec fn spec_parse_offset_form(s: Seq<char>) -> Option<DateTime> {
    if stamp_prefix_ok(s) && stamp_fields_ok(s) {
        match frac_region_end(s) {
            Some(q) => match spec_parse_offset_suffix(s, q) {
                Some(off) => Some(
                    DateTime::WithOffset {
                        year: num_at(s, 0, 4) as u32,
                        month: num_at(s, 5, 2) as u32,
                        day: num_at(s, 8, 2) as u32,
                        hour: num_at(s, 11, 2) as u32,
                        minute: num_at(s, 14, 2) as u32,
                        second: num_at(s, 17, 2) as u32,
                        offset_minutes: off as i32,
                    },
                ),
                None => None,
            },
            None => None,
        }
    } else {
        None
    }
}

/// Value of the fraction digits `s[i .. e)` in ten-thousandths of a second;
/// digits past the fourth are dropped.
pub open spec fn frac4_at(s: Seq<char>, i: int, e: int) -> int {
    if e - i >= 4 {
        num_at(s, i, 4)
    } else {
        num_at(s, i, e - i) * pow10((4 - (e - i)) as nat)
    }
}

/// The naive grammar: the shared prefix, an optional dot-led fraction, no
/// offset, nothing else.
pub open spec fn spec_parse_naive_form(s: Seq<char>) -> Option<DateTime> {
    if stamp_prefix_ok(s) && stamp_fields_ok(s) {
        let frac: int = if s.len() == 19 {
            0
        } else if s.len() >= 21 && s[19] == '.' && digit_end(s, 20) == s.len() {
            frac4_at(s, 20, s.len() as int)
        } else {
            -1
        };
        if frac >= 0 {
            Some(
                DateTime::Naive {
                    year: num_at(s, 0, 4) as u32,
                    month: num_at(s, 5, 2) as u32,
                    day: num_at(s, 8, 2) as u32,
                    hour: num_at(s, 11, 2) as u32,
                    minute: num_at(s, 14, 2) as u32,
                    second: num_at(s, 17, 2) as u32,
                    frac: frac as u32,
                },
            )
        } else {
            None
        }
    } else {
        None
    }
}

/// A date-time parse: the offset grammar first, the naive grammar second.
pub open spec fn spec_parse_datetime(s: Seq<char>) -> Option<DateTime> {
    match spec_parse_offset_form(s) {
        Some(dt) => Some(dt),
        None => spec_parse_naive_form(s),
    }
}

/// The shared `YYYY-MM-DDTHH:MM:SS` prefix a value renders to.
pub open spec fn spec_format_stamp(y: int, mo: int, d: int, h: int, mi: int, sec: int) -> Seq<
    char,
> {
    pad(y, 4) + seq!['-'] + pad(mo, 2) + seq!['-'] + pad(d, 2) + seq!['T'] + pad(h, 2) + seq![':']
        + pad(mi, 2) + seq![':'] + pad(sec, 2)
}

/// The text a date-time renders to: the naive form keeps its four-digit
/// fraction, the offset form closes with an explicit signed offset.
pub open spec fn spec_format_datetime(dt: DateTime) -> Seq<char> {
    match dt {
        DateTime::Naive { year, month, day, hour, minute, second, frac } => spec_format_stamp(
            year as int,
            month as int,
            day as int,
            hour as int,
            minute as int,
            second as int,
        ) + seq!['.'] + pad(frac as int, 4),
        DateTime::WithOffset { year, month, day, hour, minute, second, offset_minutes } => {
            let off = offset_minutes as int;
            let mag = if off < 0 {
                -off
            } else {
                off
            };
            spec_format_stamp(
                year as int,
                month as int,
                day as int,
                hour as int,
                minute as int,
                second as int,
            ) + (if off < 0 {
                seq!['-']
            } else {
                seq!['+']
            }) + pad(mag / 60, 2) + seq![':'] + pad(mag % 60, 2)
        },
    }
}

/// Days of month `m` of year `y`.
pub fn days_in_month_of(y: u32, m: u32) -> (r: u32)
    ensures
        r == days_in_month(y as int, m as int),
{
    if m == 2 {
        if y % 4 == 0 && (y % 100 != 0 || y % 400 == 0) {
            29
        } else {
            28
        }
    } else if m == 4 || m == 6 || m == 9 || m == 11 {
        30
    } else {
        31
    }
}

/// Reads the fixed-width digit field `s[i .. i + w)`.
fn read_fixed(s: &str, n: usize, i: usize, w: usize) -> (r: Option<u32>)
    requires
        n == s@.len(),
        i + w <= n,
        w <= 4,
    ensures
        r is Some <==> digits_at(s@, i as int, w as int),
        r is Some ==> r->0 == num_at(s@, i as int, w as int),
{
    let mut k: usize = 0;
    let mut acc: u32 = 0;
    while k < w
        invariant
            k <= w,
            w <= 4,
            i + w <= n,
            n == s@.len(),
            forall|t: int| i <= t < i + k ==> is_digit(#[trigger] s@[t]),
            acc == num_at(s@, i as int, k as int),
            acc < pow10(k as nat),
        decreases w - k,
    {
        let c = s.get_char(i + k);
        match digit_of(c) {
            Some(d) => {
                proof {
                    reveal_with_fuel(pow10, 6);
                    assert(digits_at(s@, i as int, k as int + 1));
                    lemma_num_at_bound(s@, i as int, k as int + 1);
                    assert(num_at(s@, i as int, k as int + 1) == num_at(s@, i as int, k as int)
                        * 10 + digit_val(s@[i + k]));
                }
                acc = acc * 10 + (d as u32);
                k = k + 1;
            },
            None => {
                return None;
            },
        }
    }
    Some(acc)
}

/// Appends the `w` low decimal digits of `v`, zero padded.
fn push_pad(out: &mut String, v: u32, w: u32)
    ensures
        final(out)@ == old(out)@ + pad(v as int, w as nat),
    decreases w,
{
    if w > 0 {
        push_pad(out, v / 10, w - 1);
        push_text_char(out, char_of_digit((v % 10) as u64));
        assert(final(out)@ =~= old(out)@ + pad(v as int, w as nat));
    } else {
        assert(final(out)@ =~= old(out)@ + pad(v as int, 0));
    }
}

impl DateTime {
    /// Parses either accepted grammar; the offset form is preferred.
    #[verifier::loop_isolation(false)]
    pub fn parse(s: &str) -> (r: Option<DateTime>)
        ensures
            r == spec_parse_datetime(s@),
            r matches Some(dt) ==> datetime_wf(dt),
    {
        proof {
            lemma_parse_datetime_wf(s@);
        }
        let n = s.unicode_len();
        if n < 19 {
            return None;
        }
        let year = read_fixed(s, n, 0, 4);
        let month = read_fixed(s, n, 5, 2);
        let day = read_fixed(s, n, 8, 2);
        let hour = read_fixed(s, n, 11, 2);
        let minute = read_fixed(s, n, 14, 2);
        let second = read_fixed(s, n, 17, 2);
        let (year, month, day, hour, minute, second) = match (
            year,
            month,
            day,
            hour,
            minute,
            second,
        ) {
            (Some(y), Some(mo), Some(d), Some(h), Some(mi), Some(sec)) => (y, mo, d, h, mi, sec),
            _ => {
                return None;
            },
        };
        let sep = s.get_char(10);
        if !(s.get_char(4) == '-' && s.get_char(7) == '-' && (sep == 'T' || sep == 't' || sep
            == ' ') && s.get_char(13) == ':' && s.get_char(16) == ':') {
            return None;
        }
        if !(1 <= month && month <= 12 && 1 <= day && day <= days_in_month_of(year, month) && hour
            <= 23 && minute <= 59 && second <= 59) {
            return None;
        }
        proof {
            reveal_with_fuel(pow10, 6);
            lemma_num_at_bound(s@, 0, 4);
            assert(stamp_prefix_ok(s@) && stamp_fields_ok(s@));
        }
        // The offset grammar: an optional fraction, then the offset suffix.
        let q = if n > 19 && s.get_char(19) == '.' {
            let (e, _) = scan_number(s, n, 20);
            if e > 20 {
                Some(e)
            } else {
                None
            }
        } else {
            Some(19)
        };
        let fell_through: bool;
        if let Some(q) = q {
            assert(frac_region_end(s@) == Some(q as int));
            if q < n && (s.get_char(q) == 'Z' || s.get_char(q) == 'z') && q + 1 == n {
                return Some(
                    DateTime::WithOffset {
                        year,
                        month,
                        day,
                        hour,
                        minute,
                        second,
                        offset_minutes: 0,
                    },
                );
            }
            if q < n && n - q == 6 && (s.get_char(q) == '+' || s.get_char(q) == '-')
                && s.get_char(q + 3) == ':' {
                let oh = read_fixed(s, n, q + 1, 2);
                let om = read_fixed(s, n, q + 4, 2);
                if let (Some(oh), Some(om)) = (oh, om) {
                    if oh <= 23 && om <= 59 {
                        let mins = (oh * 60 + om) as i32;
                        let off: i32 = if s.get_char(q) == '-' {
                            -mins
                        } else {
                            mins
                        };
                        return Some(
                            DateTime::WithOffset {
                                year,
                                month,
                                day,
                                hour,
                                minute,
                                second,
                                offset_minutes: off,
                            },
                        );
                    }
                }
            }
            assert(spec_parse_offset_suffix(s@, q as int) is None);
            fell_through = true;
        } else {
            fell_through = true;
        }
        assert(fell_through);
        assert(spec_parse_offset_form(s@) is None);
        // The naive grammar: an optional fraction, then the end of the text.
        if n == 19 {
            return Some(
                DateTime::Naive { year, month, day, hour, minute, second, frac: 0 },
            );
        }
        if n >= 21 && s.get_char(19) == '.' {
            let (e, _) = scan_number(s, n, 20);
            if e == n {
                proof {
                    lemma_digit_end_bounds(s@, 20);
                }
                let w = n - 20;
                let frac: u32 = if w >= 4 {
                    proof {
                        assert(digits_at(s@, 20, 4));
                    }
                    match read_fixed(s, n, 20, 4) {
                        Some(f) => f,
                        None => 0,
                    }
                } else {
                    proof {
                        assert(digits_at(s@, 20, w as int));
                        reveal_with_fuel(pow10, 6);
                        lemma_num_at_bound(s@, 20, w as int);
                    }
                    let head = match read_fixed(s, n, 20, w) {
                        Some(f) => f,
                        None => 0,
                    };
                    let mut scale: u32 = 1;
                    let mut t: usize = w;
                    while t < 4
                        invariant
                            1 <= w <= 3,
                            w <= t <= 4,
                            scale == pow10((t - w) as nat),
                            scale <= 1000,
                        decreases 4 - t,
                    {
                        proof {
                            reveal_with_fuel(pow10, 6);
                        }
                        scale = scale * 10;
                        t = t + 1;
                    }
                    proof {
                        reveal_with_fuel(pow10, 6);
                        assert(head <= 999);
                        assert(scale <= 1000);
                        assert(head as int * scale as int <= 999000) by (nonlinear_arith)
                            requires
                                head <= 999,
                                scale <= 1000,
                        ;
                    }
                    head * scale
                };
                assert(frac == frac4_at(s@, 20, n as int));
                return Some(
                    DateTime::Naive { year, month, day, hour, minute, second, frac },
                );
            }
        }
        None
    }

    /// Renders the date-time back to text.
    #[verifier::rlimit(50)]
    pub fn to_text(&self) -> (r: String)
        ensures
            r@ == spec_format_datetime(*self),
    {
        let mut out = String::new();
        let (year, month, day, hour, minute, second) = match *self {
            DateTime::Naive { year, month, day, hour, minute, second, .. } => (
                year,
                month,
                day,
                hour,
                minute,
                second,
            ),
            DateTime::WithOffset { year, month, day, hour, minute, second, .. } => (
                year,
                month,
                day,
                hour,
                minute,
                second,
            ),
        };
        push_pad(&mut out, year, 4);
        push_text_char(&mut out, '-');
        push_pad(&mut out, month, 2);
        push_text_char(&mut out, '-');
        push_pad(&mut out, day, 2);
        push_text_char(&mut out, 'T');
        push_pad(&mut out, hour, 2);
        push_text_char(&mut out, ':');
        push_pad(&mut out, minute, 2);
        push_text_char(&mut out, ':');
        push_pad(&mut out, second, 2);
        proof {
            assert(out@ =~= spec_format_stamp(
                year as int,
                month as int,
                day as int,
                hour as int,
                minute as int,
                second as int,
            ));
        }
        match *self {
            DateTime::Naive { frac, .. } => {
                push_text_char(&mut out, '.');
                push_pad(&mut out, frac, 4);
                proof {
                    assert(out@ =~= spec_format_datetime(*self));
                }
            },
            DateTime::WithOffset { offset_minutes, .. } => {
                if offset_minutes < 0 {
                    push_text_char(&mut out, '-');
                } else {
                    push_text_char(&mut out, '+');
                }
                let mag: u32 = if offset_minutes < 0 {
                    (-(offset_minutes as i64)) as u32
                } else {
                    offset_minutes as u32
                };
                push_pad(&mut out, mag / 60, 2);
                push_text_char(&mut out, ':');
                push_pad(&mut out, mag % 60, 2);
                proof {
                    assert(out@ =~= spec_format_datetime(*self));
                }
            },
        }
        out
    }
}

} // verus!

verus! {

// ---------------------------------------------------------------------------
// Round trips
// ---------------------------------------------------------------------------

/// Reading digits is insensitive to what surrounds them.
proof fn lemma_num_at_congr(s1: Seq<char>, i1: int, s2: Seq<char>, i2: int, w: int)
    requires
        forall|k: int| 0 <= k < w ==> s1[i1 + k] == #[trigger] s2[i2 + k],
    ensures
        num_at(s1, i1, w) == num_at(s2, i2, w),
    decreases w,
{
    if w > 0 {
        lemma_num_at_congr(s1, i1, s2, i2, w - 1);
        assert(s1[i1 + (w - 1)] == s2[i2 + (w - 1)]);
    }
}

/// The digits of `dec(v)`: all digits, and they read back as `v`.
proof fn lemma_dec_props(v: int)
    requires
        v >= 0,
    ensures
        dec(v).len() >= 1,
        forall|k: int| 0 <= k < dec(v).len() ==> is_digit(#[trigger] dec(v)[k]),
        num_at(dec(v), 0, dec(v).len() as int) == v,
    decreases v,
{
    if v >= 10 {
        lemma_dec_props(v / 10);
        let t = dec(v / 10);
        let s = dec(v);
        assert(s == t.push(digit_char(v % 10)));
        assert(forall|k: int| 0 <= k < t.len() ==> #[trigger] s[k] == t[k]);
        lemma_num_at_congr(s, 0, t, 0, t.len() as int);
        assert(s[s.len() - 1] == digit_char(v % 10));
        assert(digit_val(digit_char(v % 10)) == v % 10);
        assert(num_at(s, 0, s.len() as int) == num_at(s, 0, t.len() as int) * 10 + digit_val(
            s[s.len() - 1],
        ));
        assert(num_at(s, 0, s.len() as int) == (v / 10) * 10 + v % 10);
    } else {
        assert(dec(v).len() == 1);
        assert(num_at(dec(v), 0, 1) == num_at(dec(v), 0, 0) * 10 + digit_val(dec(v)[0]));
    }
}

/// The digits of `pad(v, w)`: `w` digits that read back as `v`.
proof fn lemma_pad_props(v: int, w: nat)
    requires
        0 <= v < pow10(w),
    ensures
        pad(v, w).len() == w,
        forall|k: int| 0 <= k < w ==> is_digit(#[trigger] pad(v, w)[k]),
        num_at(pad(v, w), 0, w as int) == v,
    decreases w,
{
    if w > 0 {
        lemma_pad_props(v / 10, (w - 1) as nat);
        let t = pad(v / 10, (w - 1) as nat);
        let s = pad(v, w);
        assert(s == t.push(digit_char(v % 10)));
        assert(forall|k: int| 0 <= k < t.len() ==> #[trigger] s[k] == t[k]);
        lemma_num_at_congr(s, 0, t, 0, t.len() as int);
        assert(s[w - 1] == digit_char(v % 10));
        assert(digit_val(digit_char(v % 10)) == v % 10);
        assert(num_at(s, 0, w as int) == num_at(s, 0, w - 1) * 10 + digit_val(s[w - 1]));
        assert(num_at(s, 0, w as int) == (v / 10) * 10 + v % 10);
    }
}

/// Where a run of digits ends, told from its layout.
proof fn lemma_digit_end_of(s: Seq<char>, i: int, e: int)
    requires
        0 <= i <= e <= s.len(),
        forall|k: int| i <= k < e ==> is_digit(#[trigger] s[k]),
        e < s.len() ==> !is_digit(s[e]),
    ensures
        digit_end(s, i) == e,
    decreases e - i,
{
    if i < e {
        lemma_digit_end_of(s, i + 1, e);
    }
}

/// A present `<digits><mark>` component scans to its value.
proof fn lemma_component_present(s: Seq<char>, i: int, v: u64, mark: char)
    requires
        0 <= i,
        i + dec(v as int).len() + 1 <= s.len(),
        forall|k: int| 0 <= k < dec(v as int).len() ==> #[trigger] s[i + k] == dec(v as int)[k],
        s[i + dec(v as int).len()] == mark,
        !is_digit(mark),
    ensures
        spec_component(s, i, mark) == (i + dec(v as int).len() + 1, v),
{
    lemma_dec_props(v as int);
    let d = dec(v as int);
    let e = i + d.len();
    assert forall|k: int| i <= k < e implies is_digit(#[trigger] s[k]) by {
        assert(s[i + (k - i)] == d[k - i]);
    }
    lemma_digit_end_of(s, i, e);
    assert(forall|k: int| 0 <= k < e - i ==> s[i + k] == #[trigger] d[0 + k]);
    lemma_num_at_congr(s, i, d, 0, e - i);
    assert(num_at(s, i, e - i) == v);
}

/// A component whose cursor does not sit on its own digits-and-mark shape
/// scans as absent.
proof fn lemma_component_absent(s: Seq<char>, i: int, mark: char)
    requires
        0 <= i <= s.len(),
        digit_end(s, i) == i || digit_end(s, i) == s.len() || s[digit_end(s, i)] != mark
            || num_at(s, i, digit_end(s, i) - i) > u64::MAX,
    ensures
        spec_component(s, i, mark) == (i, 0u64),
{
}

} // verus!

verus! {

/// Index congruence for a segment of a concatenation.
proof fn lemma_segment_at(s: Seq<char>, pre: Seq<char>, seg: Seq<char>, post: Seq<char>)
    requires
        s == pre + seg + post,
    ensures
        forall|k: int| 0 <= k < seg.len() ==> #[trigger] s[pre.len() + k] == seg[k],
        s.len() == pre.len() + seg.len() + post.len(),
{
    assert forall|k: int| 0 <= k < seg.len() implies #[trigger] s[pre.len() + k] == seg[k] by {
        assert(s[pre.len() + k] == (pre + seg + post)[pre.len() + k]);
    }
}

/// A rendered number with a non-digit stop after it is exactly the digit
/// run at its position.
proof fn lemma_dec_run_at(s: Seq<char>, i: int, v: u64, stop: char)
    requires
        0 <= i,
        i + dec(v as int).len() < s.len(),
        forall|k: int| 0 <= k < dec(v as int).len() ==> #[trigger] s[i + k] == dec(v as int)[k],
        s[i + dec(v as int).len()] == stop,
        !is_digit(stop),
    ensures
        digit_end(s, i) == i + dec(v as int).len(),
        num_at(s, i, dec(v as int).len() as int) == v,
{
    lemma_dec_props(v as int);
    let d = dec(v as int);
    let e = i + d.len();
    assert forall|k: int| i <= k < e implies is_digit(#[trigger] s[k]) by {
        assert(s[i + (k - i)] == d[k - i]);
    }
    lemma_digit_end_of(s, i, e);
    assert(forall|k: int| 0 <= k < e - i ==> s[i + k] == #[trigger] d[0 + k]);
    lemma_num_at_congr(s, i, d, 0, e - i);
}

/// A present component scans to its value and moves the cursor past its mark.
proof fn lemma_component_at(s: Seq<char>, i: int, v: u64, mark: char)
    requires
        0 <= i,
        i + dec(v as int).len() < s.len(),
        forall|k: int| 0 <= k < dec(v as int).len() ==> #[trigger] s[i + k] == dec(v as int)[k],
        s[i + dec(v as int).len()] == mark,
        !is_digit(mark),
    ensures
        spec_component(s, i, mark) == (i + dec(v as int).len() + 1, v),
{
    lemma_dec_run_at(s, i, v, mark);
    lemma_dec_props(v as int);
}

/// A component scans as absent when another component's run sits at the
/// cursor.
proof fn lemma_absent_before_run(s: Seq<char>, i: int, v: u64, next_mark: char, mark: char)
    requires
        0 <= i,
        i + dec(v as int).len() < s.len(),
        forall|k: int| 0 <= k < dec(v as int).len() ==> #[trigger] s[i + k] == dec(v as int)[k],
        s[i + dec(v as int).len()] == next_mark,
        !is_digit(next_mark),
        mark != next_mark,
    ensures
        spec_component(s, i, mark) == (i, 0u64),
{
    lemma_dec_run_at(s, i, v, next_mark);
}

/// A component scans as absent at the end of the text or at a non-digit.
proof fn lemma_absent_at_stop(s: Seq<char>, i: int, mark: char)
    requires
        0 <= i <= s.len(),
        i == s.len() || !is_digit(s[i]),
    ensures
        spec_component(s, i, mark) == (i, 0u64),
{
}

/// Cursor positions of the rendered components.
pub open spec fn dur_pos_y(d: Duration) -> int {
    fmt_head(d).len() as int
}

pub open spec fn dur_pos_m(d: Duration) -> int {
    dur_pos_y(d) + fmt_comp(d.years, 'Y').len()
}

pub open spec fn dur_pos_d(d: Duration) -> int {
    dur_pos_m(d) + fmt_comp(d.months, 'M').len()
}

pub open spec fn dur_pos_t(d: Duration) -> int {
    dur_pos_d(d) + fmt_comp(d.days, 'D').len()
}

pub open spec fn dur_pos_h(d: Duration) -> int {
    dur_pos_t(d) + 1
}

pub open spec fn dur_pos_mi(d: Duration) -> int {
    dur_pos_h(d) + fmt_comp(d.hours, 'H').len()
}

pub open spec fn dur_pos_s(d: Duration) -> int {
    dur_pos_mi(d) + fmt_comp(d.minutes, 'M').len()
}

/// Layout of the date half of a rendering.
proof fn lemma_duration_layout_date(d: Duration)
    ensures
        forall|k: int| 0 <= k < fmt_comp(d.years, 'Y').len() ==> #[trigger] spec_format_duration(
            d,
        )[dur_pos_y(d) + k] == fmt_comp(d.years, 'Y')[k],
        forall|k: int| 0 <= k < fmt_comp(d.months, 'M').len() ==> #[trigger] spec_format_duration(
            d,
        )[dur_pos_m(d) + k] == fmt_comp(d.months, 'M')[k],
        forall|k: int| 0 <= k < fmt_comp(d.days, 'D').len() ==> #[trigger] spec_format_duration(
            d,
        )[dur_pos_d(d) + k] == fmt_comp(d.days, 'D')[k],
        spec_format_duration(d).len() == dur_pos_t(d) + fmt_time(d).len(),
        spec_format_duration(d)[0] == 'P',
        d.negative ==> spec_format_duration(d)[1] == '-',
{
    let s = spec_format_duration(d);
    let head = fmt_head(d);
    let yp = fmt_comp(d.years, 'Y');
    let mp = fmt_comp(d.months, 'M');
    let dp = fmt_comp(d.days, 'D');
    let time = fmt_time(d);
    assert(s =~= head + yp + (mp + dp + time));
    lemma_segment_at(s, head, yp, mp + dp + time);
    assert(s =~= (head + yp) + mp + (dp + time));
    lemma_segment_at(s, head + yp, mp, dp + time);
    assert(s =~= (head + yp + mp) + dp + time);
    lemma_segment_at(s, head + yp + mp, dp, time);
    assert(s[0] == (head + (yp + mp + dp) + time)[0]);
    if d.negative {
        assert(s[1] == (head + (yp + mp + dp) + time)[1]);
    }
}

/// Layout of the time half of a rendering.
proof fn lemma_duration_layout_time(d: Duration)
    requires
        fmt_has_time(d),
    ensures
        spec_format_duration(d)[dur_pos_t(d)] == 'T',
        forall|k: int| 0 <= k < fmt_comp(d.hours, 'H').len() ==> #[trigger] spec_format_duration(
            d,
        )[dur_pos_h(d) + k] == fmt_comp(d.hours, 'H')[k],
        forall|k: int| 0 <= k < fmt_comp(d.minutes, 'M').len() ==> #[trigger]
            spec_format_duration(d)[dur_pos_mi(d) + k] == fmt_comp(d.minutes, 'M')[k],
        forall|k: int| 0 <= k < fmt_comp(d.seconds, 'S').len() ==> #[trigger]
            spec_format_duration(d)[dur_pos_s(d) + k] == fmt_comp(d.seconds, 'S')[k],
        spec_format_duration(d).len() == dur_pos_s(d) + fmt_comp(d.seconds, 'S').len(),
{
    let s = spec_format_duration(d);
    let head = fmt_head(d);
    let yp = fmt_comp(d.years, 'Y');
    let mp = fmt_comp(d.months, 'M');
    let dp = fmt_comp(d.days, 'D');
    let hp = fmt_comp(d.hours, 'H');
    let mip = fmt_comp(d.minutes, 'M');
    let sp = fmt_comp(d.seconds, 'S');
    assert(s =~= (head + yp + mp + dp) + fmt_time(d) + Seq::<char>::empty());
    lemma_segment_at(s, head + yp + mp + dp, fmt_time(d), Seq::<char>::empty());
    assert(s[dur_pos_t(d) + 0] == fmt_time(d)[0]);
    assert(s =~= (head + yp + mp + dp + seq!['T']) + hp + (mip + sp));
    lemma_segment_at(s, head + yp + mp + dp + seq!['T'], hp, mip + sp);
    assert(s =~= (head + yp + mp + dp + seq!['T'] + hp) + mip + sp);
    lemma_segment_at(s, head + yp + mp + dp + seq!['T'] + hp, mip, sp);
    assert(s =~= (head + yp + mp + dp + seq!['T'] + hp + mip) + sp + Seq::<char>::empty());
    lemma_segment_at(s, head + yp + mp + dp + seq!['T'] + hp + mip, sp, Seq::<char>::empty());
}

/// How one component scans inside a rendering: to its value when present,
/// as absent when zero, given what the rendering holds after it.
proof fn lemma_scan_rendered(
    s: Seq<char>,
    i: int,
    v: u64,
    mark: char,
    nv1: u64,
    m1: char,
    p1: int,
    nv2: u64,
    m2: char,
    p2: int,
    tpos: int,
    has_t: bool,
)
    requires
        0 <= i <= s.len(),
        is_digit(mark) == false && is_digit(m1) == false && is_digit(m2) == false,
        mark != m1 && mark != m2 && mark != 'T',
        forall|k: int| 0 <= k < fmt_comp(v, mark).len() ==> #[trigger] s[i + k] == fmt_comp(
            v,
            mark,
        )[k],
        v != 0 ==> i + fmt_comp(v, mark).len() <= s.len(),
        v == 0 ==> i == p1,
        v == 0 && nv1 == 0 ==> p1 == p2,
        nv1 != 0 ==> p1 + fmt_comp(nv1, m1).len() <= s.len(),
        nv2 != 0 ==> p2 + fmt_comp(nv2, m2).len() <= s.len(),
        forall|k: int| 0 <= k < fmt_comp(nv1, m1).len() ==> #[trigger] s[p1 + k] == fmt_comp(
            nv1,
            m1,
        )[k],
        forall|k: int| 0 <= k < fmt_comp(nv2, m2).len() ==> #[trigger] s[p2 + k] == fmt_comp(
            nv2,
            m2,
        )[k],
        v == 0 && nv1 == 0 && nv2 == 0 ==> p2 == tpos,
        has_t ==> 0 <= tpos < s.len() && s[tpos] == 'T',
        !has_t ==> tpos == s.len(),
    ensures
        spec_component(s, i, mark) == (i + fmt_comp(v, mark).len(), v),
{
    if v != 0 {
        lemma_dec_props(v as int);
        assert forall|k: int| 0 <= k < dec(v as int).len() implies #[trigger] s[i + k] == dec(
            v as int,
        )[k] by {
            assert(s[i + k] == fmt_comp(v, mark)[k]);
        }
        assert(s[i + dec(v as int).len()] == fmt_comp(v, mark)[fmt_comp(v, mark).len() - 1]);
        lemma_component_at(s, i, v, mark);
    } else if nv1 != 0 {
        lemma_dec_props(nv1 as int);
        assert forall|k: int| 0 <= k < dec(nv1 as int).len() implies #[trigger] s[i + k] == dec(
            nv1 as int,
        )[k] by {
            assert(s[p1 + k] == fmt_comp(nv1, m1)[k]);
        }
        assert(s[i + dec(nv1 as int).len()] == fmt_comp(nv1, m1)[fmt_comp(nv1, m1).len() - 1]);
        lemma_absent_before_run(s, i, nv1, m1, mark);
    } else if nv2 != 0 {
        lemma_dec_props(nv2 as int);
        assert forall|k: int| 0 <= k < dec(nv2 as int).len() implies #[trigger] s[i + k] == dec(
            nv2 as int,
        )[k] by {
            assert(s[p2 + k] == fmt_comp(nv2, m2)[k]);
        }
        assert(s[i + dec(nv2 as int).len()] == fmt_comp(nv2, m2)[fmt_comp(nv2, m2).len() - 1]);
        lemma_absent_before_run(s, i, nv2, m2, mark);
    } else {
        lemma_absent_at_stop(s, i, mark);
    }
}

/// Every duration value decodes back from its own rendering.
pub proof fn lemma_duration_round_trip(d: Duration)
    ensures
        spec_parse_duration(spec_format_duration(d)) == Some(d),
{
    let s = spec_format_duration(d);
    lemma_duration_layout_date(d);
    let tpos = dur_pos_t(d);
    let has_t = fmt_has_time(d);
    if has_t {
        lemma_duration_layout_time(d);
    }
    // The sign is read back exactly when it was rendered.
    assert((1 < s.len() && s[1] == '-') == d.negative) by {
        if !d.negative && 1 < s.len() && s[1] == '-' {
            if d.years != 0 {
                assert(s[dur_pos_y(d) + 0] == fmt_comp(d.years, 'Y')[0]);
                lemma_dec_props(d.years as int);
            } else if d.months != 0 {
                assert(s[dur_pos_m(d) + 0] == fmt_comp(d.months, 'M')[0]);
                lemma_dec_props(d.months as int);
            } else if d.days != 0 {
                assert(s[dur_pos_d(d) + 0] == fmt_comp(d.days, 'D')[0]);
                lemma_dec_props(d.days as int);
            } else if has_t {
                assert(s[tpos] == 'T');
            } else {
            }
        }
    }
    lemma_scan_rendered(
        s,
        dur_pos_y(d),
        d.years,
        'Y',
        d.months,
        'M',
        dur_pos_m(d),
        d.days,
        'D',
        dur_pos_d(d),
        tpos,
        has_t,
    );
    lemma_scan_rendered(
        s,
        dur_pos_m(d),
        d.months,
        'M',
        d.days,
        'D',
        dur_pos_d(d),
        0,
        'D',
        tpos,
        tpos,
        has_t,
    );
    lemma_scan_rendered(
        s,
        dur_pos_d(d),
        d.days,
        'D',
        0,
        'Y',
        tpos,
        0,
        'Y',
        tpos,
        tpos,
        has_t,
    );
    if has_t {
        lemma_scan_rendered(
            s,
            dur_pos_h(d),
            d.hours,
            'H',
            d.minutes,
            'M',
            dur_pos_mi(d),
            d.seconds,
            'S',
            dur_pos_s(d),
            s.len() as int,
            false,
        );
        lemma_scan_rendered(
            s,
            dur_pos_mi(d),
            d.minutes,
            'M',
            d.seconds,
            'S',
            dur_pos_s(d),
            0,
            'S',
            s.len() as int,
            s.len() as int,
            false,
        );
        lemma_scan_rendered(
            s,
            dur_pos_s(d),
            d.seconds,
            'S',
            0,
            'Y',
            s.len() as int,
            0,
            'Y',
            s.len() as int,
            s.len() as int,
            false,
        );
    }
    assert(spec_parse_duration(s) == Some(d));
}

} // verus!

verus! {

/// Layout of the rendered `YYYY-MM-DDTHH:MM:SS` prefix inside a longer text.
proof fn lemma_stamp_layout(s: Seq<char>, y: u32, mo: u32, d: u32, h: u32, mi: u32, sec: u32, tail: Seq<char>)
    requires
        y <= 9999,
        mo <= 99,
        d <= 99,
        h <= 99,
        mi <= 99,
        sec <= 99,
        s == spec_format_stamp(y as int, mo as int, d as int, h as int, mi as int, sec as int)
            + tail,
    ensures
        s.len() == 19 + tail.len(),
        stamp_prefix_ok(s),
        num_at(s, 0, 4) == y,
        num_at(s, 5, 2) == mo,
        num_at(s, 8, 2) == d,
        num_at(s, 11, 2) == h,
        num_at(s, 14, 2) == mi,
        num_at(s, 17, 2) == sec,
        forall|k: int| 19 <= k < s.len() ==> #[trigger] s[k] == tail[k - 19],
{
    let py = pad(y as int, 4);
    let pmo = pad(mo as int, 2);
    let pd = pad(d as int, 2);
    let ph = pad(h as int, 2);
    let pmi = pad(mi as int, 2);
    let psec = pad(sec as int, 2);
    reveal_with_fuel(pow10, 6);
    lemma_pad_props(y as int, 4);
    lemma_pad_props(mo as int, 2);
    lemma_pad_props(d as int, 2);
    lemma_pad_props(h as int, 2);
    lemma_pad_props(mi as int, 2);
    lemma_pad_props(sec as int, 2);
    let stamp = spec_format_stamp(y as int, mo as int, d as int, h as int, mi as int, sec as int);
    assert(stamp.len() == 19);
    assert(forall|k: int| 0 <= k < 4 ==> #[trigger] s[0 + k] == py[k]) by {
        assert(s =~= Seq::<char>::empty() + py + (stamp.subrange(4, 19) + tail));
        lemma_segment_at(s, Seq::<char>::empty(), py, stamp.subrange(4, 19) + tail);
    }
    assert(forall|k: int| 0 <= k < 2 ==> #[trigger] s[5 + k] == pmo[k]) by {
        assert(s =~= (py + seq!['-']) + pmo + (stamp.subrange(7, 19) + tail));
        lemma_segment_at(s, py + seq!['-'], pmo, stamp.subrange(7, 19) + tail);
    }
    assert(forall|k: int| 0 <= k < 2 ==> #[trigger] s[8 + k] == pd[k]) by {
        assert(s =~= (py + seq!['-'] + pmo + seq!['-']) + pd + (stamp.subrange(10, 19) + tail));
        lemma_segment_at(s, py + seq!['-'] + pmo + seq!['-'], pd, stamp.subrange(10, 19) + tail);
    }
    assert(forall|k: int| 0 <= k < 2 ==> #[trigger] s[11 + k] == ph[k]) by {
        assert(s =~= (py + seq!['-'] + pmo + seq!['-'] + pd + seq!['T']) + ph + (stamp.subrange(
            13,
            19,
        ) + tail));
        lemma_segment_at(
            s,
            py + seq!['-'] + pmo + seq!['-'] + pd + seq!['T'],
            ph,
            stamp.subrange(13, 19) + tail,
        );
    }
    assert(forall|k: int| 0 <= k < 2 ==> #[trigger] s[14 + k] == pmi[k]) by {
        assert(s =~= (py + seq!['-'] + pmo + seq!['-'] + pd + seq!['T'] + ph + seq![':']) + pmi + (
        stamp.subrange(16, 19) + tail));
        lemma_segment_at(
            s,
            py + seq!['-'] + pmo + seq!['-'] + pd + seq!['T'] + ph + seq![':'],
            pmi,
            stamp.subrange(16, 19) + tail,
        );
    }
    assert(forall|k: int| 0 <= k < 2 ==> #[trigger] s[17 + k] == psec[k]) by {
        assert(s =~= (py + seq!['-'] + pmo + seq!['-'] + pd + seq!['T'] + ph + seq![':'] + pmi
            + seq![':']) + psec + tail);
        lemma_segment_at(
            s,
            py + seq!['-'] + pmo + seq!['-'] + pd + seq!['T'] + ph + seq![':'] + pmi + seq![':'],
            psec,
            tail,
        );
    }
    assert(s[4] == '-' && s[7] == '-' && s[10] == 'T' && s[13] == ':' && s[16] == ':') by {
        assert(s[4] == (stamp + tail)[4]);
        assert(s[7] == (stamp + tail)[7]);
        assert(s[10] == (stamp + tail)[10]);
        assert(s[13] == (stamp + tail)[13]);
        assert(s[16] == (stamp + tail)[16]);
    }
    assert forall|k: int| 19 <= k < s.len() implies #[trigger] s[k] == tail[k - 19] by {
        assert(s[k] == (stamp + tail)[k]);
    }
    lemma_num_at_congr(s, 0, py, 0, 4);
    lemma_num_at_congr(s, 5, pmo, 0, 2);
    lemma_num_at_congr(s, 8, pd, 0, 2);
    lemma_num_at_congr(s, 11, ph, 0, 2);
    lemma_num_at_congr(s, 14, pmi, 0, 2);
    lemma_num_at_congr(s, 17, psec, 0, 2);
    assert(digits_at(s, 0, 4) && digits_at(s, 5, 2) && digits_at(s, 8, 2) && digits_at(s, 11, 2)
        && digits_at(s, 14, 2) && digits_at(s, 17, 2)) by {
        assert(forall|k: int| 0 <= k < 4 ==> is_digit(#[trigger] py[k]));
        assert forall|k: int| 0 <= k < 4 implies is_digit(#[trigger] s[k]) by {
            assert(s[0 + k] == py[k]);
        }
        assert forall|k: int| 5 <= k < 7 implies is_digit(#[trigger] s[k]) by {
            assert(s[5 + (k - 5)] == pmo[k - 5]);
        }
        assert forall|k: int| 8 <= k < 10 implies is_digit(#[trigger] s[k]) by {
            assert(s[8 + (k - 8)] == pd[k - 8]);
        }
        assert forall|k: int| 11 <= k < 13 implies is_digit(#[trigger] s[k]) by {
            assert(s[11 + (k - 11)] == ph[k - 11]);
        }
        assert forall|k: int| 14 <= k < 16 implies is_digit(#[trigger] s[k]) by {
            assert(s[14 + (k - 14)] == pmi[k - 14]);
        }
        assert forall|k: int| 17 <= k < 19 implies is_digit(#[trigger] s[k]) by {
            assert(s[17 + (k - 17)] == psec[k - 17]);
        }
    }
}

/// Every well-formed date-time decodes back from its own rendering.
pub proof fn lemma_datetime_round_trip(dt: DateTime)
    requires
        datetime_wf(dt),
    ensures
        spec_parse_datetime(spec_format_datetime(dt)) == Some(dt),
{
    let s = spec_format_datetime(dt);
    match dt {
        DateTime::Naive { year, month, day, hour, minute, second, frac } => {
            let tail = seq!['.'] + pad(frac as int, 4);
            assert(s == spec_format_stamp(
                year as int,
                month as int,
                day as int,
                hour as int,
                minute as int,
                second as int,
            ) + tail) by {
                assert(s =~= spec_format_stamp(
                    year as int,
                    month as int,
                    day as int,
                    hour as int,
                    minute as int,
                    second as int,
                ) + tail);
            }
            lemma_stamp_layout(s, year, month, day, hour, minute, second, tail);
            reveal_with_fuel(pow10, 6);
            lemma_pad_props(frac as int, 4);
            assert(s.len() == 24);
            assert(s[19] == tail[0]);
            assert forall|k: int| 20 <= k < 24 implies is_digit(#[trigger] s[k]) by {
                assert(s[k] == tail[k - 19]);
                assert(tail[k - 19] == pad(frac as int, 4)[k - 20]);
            }
            lemma_digit_end_of(s, 20, 24);
            assert(frac_region_end(s) == Some(24int));
            assert(spec_parse_offset_suffix(s, 24) is None);
            assert(spec_parse_offset_form(s) is None);
            assert(num_at(s, 20, 4) == frac) by {
                assert(forall|k: int| 0 <= k < 4 ==> #[trigger] s[20 + k] == pad(frac as int, 4)[k]);
                lemma_num_at_congr(s, 20, pad(frac as int, 4), 0, 4);
            }
            assert(frac4_at(s, 20, 24) == frac);
            assert(spec_parse_naive_form(s) == Some(dt));
        },
        DateTime::WithOffset { year, month, day, hour, minute, second, offset_minutes } => {
            let off = offset_minutes as int;
            let mag = if off < 0 {
                -off
            } else {
                off
            };
            let sign: Seq<char> = if off < 0 {
                seq!['-']
            } else {
                seq!['+']
            };
            let tail = sign + pad(mag / 60, 2) + seq![':'] + pad(mag % 60, 2);
            assert(s == spec_format_stamp(
                year as int,
                month as int,
                day as int,
                hour as int,
                minute as int,
                second as int,
            ) + tail) by {
                assert(s =~= spec_format_stamp(
                    year as int,
                    month as int,
                    day as int,
                    hour as int,
                    minute as int,
                    second as int,
                ) + tail);
            }
            lemma_stamp_layout(s, year, month, day, hour, minute, second, tail);
            reveal_with_fuel(pow10, 6);
            assert(0 <= mag / 60 <= 23);
            assert(0 <= mag % 60 <= 59);
            lemma_pad_props(mag / 60, 2);
            lemma_pad_props(mag % 60, 2);
            assert(s.len() == 25);
            assert(s[19] == tail[0]);
            assert(s[19] == '+' || s[19] == '-');
            assert(frac_region_end(s) == Some(19int));
            assert(s[22] == tail[3]);
            assert(s[22] == ':');
            assert(forall|k: int| 0 <= k < 2 ==> #[trigger] s[20 + k] == pad(mag / 60, 2)[k]) by {
                assert(forall|k: int| 0 <= k < 2 ==> #[trigger] s[20 + k] == tail[k + 1]);
                assert(forall|k: int| 0 <= k < 2 ==> #[trigger] tail[k + 1] == pad(mag / 60, 2)[k]);
            }
            assert(forall|k: int| 0 <= k < 2 ==> #[trigger] s[23 + k] == pad(mag % 60, 2)[k]) by {
                assert(forall|k: int| 0 <= k < 2 ==> #[trigger] s[23 + k] == tail[k + 4]);
                assert(forall|k: int| 0 <= k < 2 ==> #[trigger] tail[k + 4] == pad(mag % 60, 2)[k]);
            }
            assert(digits_at(s, 20, 2)) by {
                assert forall|k: int| 20 <= k < 22 implies is_digit(#[trigger] s[k]) by {
                    assert(s[20 + (k - 20)] == pad(mag / 60, 2)[k - 20]);
                }
            }
            assert(digits_at(s, 23, 2)) by {
                assert forall|k: int| 23 <= k < 25 implies is_digit(#[trigger] s[k]) by {
                    assert(s[23 + (k - 23)] == pad(mag % 60, 2)[k - 23]);
                }
            }
            lemma_num_at_congr(s, 20, pad(mag / 60, 2), 0, 2);
            lemma_num_at_congr(s, 23, pad(mag % 60, 2), 0, 2);
            assert(num_at(s, 20, 2) == mag / 60);
            assert(num_at(s, 23, 2) == mag % 60);
            assert(num_at(s, 20, 2) * 60 + num_at(s, 23, 2) == mag);
            assert(spec_parse_offset_suffix(s, 19) == Some(off));
            assert(spec_parse_offset_form(s) == Some(dt));
        },
    }
}

} // verus!

verus! {

/// Every parsed date-time is well formed: parsing checks the calendar,
/// the clock, the offset bounds and the fraction's four digits, so the
/// round-trip law applies to every parsed value with nothing assumed.
pub proof fn lemma_parse_datetime_wf(s: Seq<char>)
    ensures
        spec_parse_datetime(s) matches Some(dt) ==> datetime_wf(dt),
{
    reveal_with_fuel(pow10, 6);
    if spec_parse_offset_form(s) is Some {
        assert(stamp_prefix_ok(s) && stamp_fields_ok(s));
        lemma_num_at_bound(s, 0, 4);
        lemma_num_at_bound(s, 5, 2);
        lemma_num_at_bound(s, 8, 2);
        lemma_num_at_bound(s, 11, 2);
        lemma_num_at_bound(s, 14, 2);
        lemma_num_at_bound(s, 17, 2);
        match frac_region_end(s) {
            Some(q) => {
                match spec_parse_offset_suffix(s, q) {
                    Some(off) => {
                        if !(0 <= q < s.len() && (s[q] == 'Z' || s[q] == 'z') && q + 1
                            == s.len()) {
                            lemma_num_at_bound(s, q + 1, 2);
                            lemma_num_at_bound(s, q + 4, 2);
                        }
                        assert(-1439 <= off <= 1439);
                    },
                    None => {},
                }
            },
            None => {},
        }
    } else if spec_parse_naive_form(s) is Some {
        assert(stamp_prefix_ok(s) && stamp_fields_ok(s));
        lemma_num_at_bound(s, 0, 4);
        lemma_num_at_bound(s, 5, 2);
        lemma_num_at_bound(s, 8, 2);
        lemma_num_at_bound(s, 11, 2);
        lemma_num_at_bound(s, 14, 2);
        lemma_num_at_bound(s, 17, 2);
        if s.len() != 19 {
            let e = s.len() as int;
            let w = e - 20;
            lemma_digit_end_bounds(s, 20);
            assert(digits_at(s, 20, w));
            if w >= 4 {
                assert(digits_at(s, 20, 4));
                lemma_num_at_bound(s, 20, 4);
                assert(frac4_at(s, 20, e) <= 9999);
            } else {
                lemma_num_at_bound(s, 20, w);
                if w == 1 {
                    assert(num_at(s, 20, 1) * pow10(3) <= 9000) by (nonlinear_arith)
                        requires
                            0 <= num_at(s, 20, 1) <= 9,
                            pow10(3) == 1000,
                    ;
                } else if w == 2 {
                    assert(num_at(s, 20, 2) * pow10(2) <= 9900) by (nonlinear_arith)
                        requires
                            0 <= num_at(s, 20, 2) <= 99,
                            pow10(2) == 100,
                    ;
                } else {
                    assert(num_at(s, 20, 3) * pow10(1) <= 9990) by (nonlinear_arith)
                        requires
                            0 <= num_at(s, 20, 3) <= 999,
                            pow10(1) == 10,
                    ;
                }
                assert(frac4_at(s, 20, e) <= 9999);
            }
        }
    }
}

} // verus!
