//! Slack's search endpoint: the in-page script that calls it, the reading of
//! its answer, and the merging of the per-scope result lists.

use vstd::prelude::*;
use vstd::string::*;

use crate::date::{
    date_before, day_after, day_before, day_index, days_before_year, is_valid_ymd,
    lemma_day_after_index, lemma_four_digits_order, lemma_index_follows_calendar,
    lemma_four_digits, lemma_months_fill_year, lemma_two_digits, lemma_two_digits_order, lemma_years_increase, ymd_text, zero_padded,
};

use crate::text::{
    chars_le, chars_le_exec, extend_chars, lemma_chars_le_common_prefix,
    lemma_chars_le_prefix_decides, lemma_chars_le_reflexive, lemma_chars_le_total, lemma_chars_le_transitive, chars_of, copy_range, decimal, decimal_chars, digit_char, lemma_replace_all_keeps_run, occurs_in, replace_all, replace_chars,
    string_from_chars,
};

verus! {

/// Messages requested per page of the search endpoint.
pub const PER_PAGE: usize = 100;

/// Cap on the messages collected for one per-scope query.
pub const MAX_PER_QUERY: usize = 1000;

/// One extracted search result.
#[derive(Debug, Clone)]
pub struct SearchResult {
    /// Message timestamp (RFC 3339, derived from the Slack `ts`).
    pub ts: String,
    pub channel: String,
    pub author: String,
    /// The message text, raw.
    pub text: String,
    /// Permalink to the message, for click-through.
    pub permalink: String,
}

// ---------------------------------------------------------------------------
// Slack timestamps

/// The chars of `s` before its first `.` (all of `s` when it has none): the
/// first item of `str::split('.')`.
pub open spec fn before_first_dot(s: Seq<char>) -> Seq<char>
    decreases s.len(),
{
    if s.len() == 0 {
        s
    } else if s[0] == '.' {
        Seq::empty()
    } else {
        seq![s[0]] + before_first_dot(s.skip(1))
    }
}

/// The seconds part of a timestamp is the text up to its first `.`: a
/// prefix of it without any `.`, followed by a `.` unless it is all of it.
pub proof fn law_seconds_part_is_text_before_first_dot(s: Seq<char>)
    ensures
        before_first_dot(s).is_prefix_of(s),
        !before_first_dot(s).contains('.'),
        before_first_dot(s).len() < s.len() ==> s[before_first_dot(s).len() as int] == '.',
    decreases s.len(),
{
    if s.len() > 0 && s[0] != '.' {
        law_seconds_part_is_text_before_first_dot(s.skip(1));
        let r = before_first_dot(s.skip(1));
        assert(before_first_dot(s) == seq![s[0]] + r);
        assert forall|i: int| 0 <= i < before_first_dot(s).len() implies before_first_dot(s)[i]
            == s[i] by {
            if i > 0 {
                assert(before_first_dot(s)[i] == r[i - 1]);
                assert(s.skip(1)[i - 1] == s[i]);
            }
        }
        if before_first_dot(s).contains('.') {
            let k = choose|k: int| 0 <= k < before_first_dot(s).len() && before_first_dot(s)[k] == '.';
            assert(k > 0);
            assert(r[k - 1] == '.');
        }
    }
}

/// Whether every char of `s` is an ASCII digit.
pub open spec fn all_ascii_digits(s: Seq<char>) -> bool {
    forall|i: int| 0 <= i < s.len() ==> '0' <= #[trigger] s[i] && s[i] <= '9'
}

/// The value of a string of decimal digits.
pub open spec fn digits_value(s: Seq<char>) -> int
    decreases s.len(),
{
    if s.len() == 0 {
        0
    } else {
        digits_value(s.drop_last()) * 10 + (s.last() as int - 48)
    }
}

/// The value of an optional `+` or `-` followed by one or more ASCII digits.
pub open spec fn signed_decimal_value(s: Seq<char>) -> Option<int> {
    if s.len() > 0 && (s[0] == '+' || s[0] == '-') {
        let digits = s.skip(1);
        if digits.len() > 0 && all_ascii_digits(digits) {
            Some(
                if s[0] == '-' {
                    -digits_value(digits)
                } else {
                    digits_value(digits)
                },
            )
        } else {
            None
        }
    } else if s.len() > 0 && all_ascii_digits(s) {
        Some(digits_value(s))
    } else {
        None
    }
}

/// What `str::parse::<i64>` gives: the signed decimal value when it fits.
pub open spec fn parsed_i64(s: Seq<char>) -> Option<i64> {
    match signed_decimal_value(s) {
        Some(v) => if i64::MIN <= v <= i64::MAX {
            Some(v as i64)
        } else {
            None
        },
        None => None,
    }
}

/// Calls `str::parse::<i64>`. Its documentation: an optional `+` or `-`
/// followed by digits, nothing else; out-of-range values are errors.
#[verifier::external_body]
fn parse_i64(s: &str) -> (r: Option<i64>)
    ensures
        r == parsed_i64(s@),
{
    s.parse::<i64>().ok()
}

/// The first Unix second chrono's `DateTime<Utc>` represents
/// (`-262143-01-01T00:00:00`).
pub const MIN_UNIX_SECONDS: i64 = -8334601228800;

/// The last Unix second chrono's `DateTime<Utc>` represents
/// (`+262142-12-31T23:59:59`).
pub const MAX_UNIX_SECONDS: i64 = 8210266876799;

/// The calendar date `n` days after 1970-01-01 (before it, for negative `n`).
pub open spec fn unix_day_date(n: int) -> (int, int, int)
    decreases (if n >= 0 {
        n
    } else {
        -n
    }),
{
    if n == 0 {
        (1970, 1, 1)
    } else if n > 0 {
        match day_after(unix_day_date(n - 1)) {
            Some(d) => d,
            None => unix_day_date(n - 1),
        }
    } else {
        match day_before(unix_day_date(n + 1)) {
            Some(d) => d,
            None => unix_day_date(n + 1),
        }
    }
}

/// `HH:MM:SS` of the `s`-th second of a day.
pub open spec fn clock_text(s: int) -> Seq<char> {
    zero_padded((s / 3600) as nat, 2) + seq![':'] + zero_padded(((s % 3600) / 60) as nat, 2)
        + seq![':'] + zero_padded((s % 60) as nat, 2)
}

/// The RFC 3339 text of the UTC instant `secs` seconds after the Unix epoch:
/// the date as `%Y-%m-%d`, `T`, the time of day, and the offset `+00:00`.
pub open spec fn rfc3339_utc_text(secs: int) -> Seq<char> {
    ymd_text(unix_day_date(secs / 86400)) + seq!['T'] + clock_text(secs % 86400) + "+00:00"@
}

/// Calls `chrono::DateTime::from_timestamp(secs, 0)` and renders the instant
/// with `to_rfc3339`. chrono has an instant exactly for the seconds from
/// `MIN_UNIX_SECONDS` to `MAX_UNIX_SECONDS`; it renders the date of day
/// `secs.div_euclid(86400)` after 1970-01-01 as `%Y` does, the time of day as
/// `HH:MM:SS` (no fraction, as the nanoseconds are 0) and the UTC offset as
/// `+00:00`.
#[verifier::external_body]
fn utc_rfc3339(secs: i64) -> (r: Option<String>)
    ensures
        r is Some <==> MIN_UNIX_SECONDS <= secs <= MAX_UNIX_SECONDS,
        r matches Some(t) ==> t@ == rfc3339_utc_text(secs as int),
{
    match chrono::DateTime::from_timestamp(secs, 0) {
        Some(dt) => Some(dt.to_rfc3339()),
        None => None,
    }
}

/// A Slack `ts` (`"1718200000.632709"`) as RFC 3339 UTC, or the raw text when
/// its whole seconds do not parse or lie outside chrono's range.
pub open spec fn iso8601_text(ts: Seq<char>) -> Seq<char> {
    match parsed_i64(before_first_dot(ts)) {
        Some(secs) => if MIN_UNIX_SECONDS <= secs <= MAX_UNIX_SECONDS {
            rfc3339_utc_text(secs as int)
        } else {
            ts
        },
        None => ts,
    }
}

/// Days `0..=2932896` after 1970-01-01 (the last is 9999-12-31) are valid dates in years
/// 1970 through 9999, counted right from 0000-01-01.
proof fn lemma_unix_day_date(n: int)
    requires
        0 <= n <= 2932896,
    ensures
        is_valid_ymd(unix_day_date(n)),
        1970 <= unix_day_date(n).0 <= 9999,
        day_index(unix_day_date(n)) == n + days_before_year(1970),
    decreases n,
{
    if n > 0 {
        lemma_unix_day_date(n - 1);
        let d = unix_day_date(n - 1);
        lemma_day_after_index(d);
        let e = day_after(d)->0;
        assert(unix_day_date(n) == e);
        if e.0 >= 10000 {
            lemma_years_increase(10000, e.0);
            lemma_months_fill_year(e.0, e.1);
            assert(days_before_year(10000) == 3652425);
            assert(days_before_year(1970) == 719528);
        }
    }
}

/// Later days after 1970-01-01 are later dates, through year 9999.
proof fn lemma_unix_day_date_order(n1: int, n2: int)
    requires
        0 <= n1 < n2 <= 2932896,
    ensures
        date_before(unix_day_date(n1), unix_day_date(n2)),
{
    lemma_unix_day_date(n1);
    lemma_unix_day_date(n2);
    let a = unix_day_date(n1);
    let b = unix_day_date(n2);
    if !date_before(a, b) {
        if a == b {
        } else {
            lemma_index_follows_calendar(b, a);
        }
    }
}

/// A block of one length, then the rest: the blocks decide the order when
/// they differ, the rests when they agree.
proof fn lemma_block_then_rest(p: Seq<char>, q: Seq<char>, x: Seq<char>, y: Seq<char>)
    requires
        p.len() == q.len(),
        chars_le(p, q),
        p == q ==> chars_le(x, y),
    ensures
        chars_le(p + x, q + y),
{
    if p == q {
        lemma_chars_le_common_prefix(p, x, y);
    } else {
        lemma_chars_le_prefix_decides(p, q, x, y);
    }
}

/// The RFC 3339 text of date `d` and second of the day `r`, block by block.
pub open spec fn stamp_text(d: (int, int, int), r: int) -> Seq<char> {
    zero_padded(d.0 as nat, 4) + (seq!['-'] + (zero_padded(d.1 as nat, 2) + (seq!['-'] + (
    zero_padded(d.2 as nat, 2) + (seq!['T'] + (zero_padded((r / 3600) as nat, 2) + (seq![':'] + (
    zero_padded(((r % 3600) / 60) as nat, 2) + (seq![':'] + (zero_padded((r % 60) as nat, 2)
        + "+00:00"@))))))))))
}

/// Stamps of dates in years 0 through 9999 sort as date and time do.
proof fn lemma_stamp_order(a: (int, int, int), ra: int, b: (int, int, int), rb: int)
    requires
        is_valid_ymd(a),
        is_valid_ymd(b),
        0 <= a.0 <= 9999,
        0 <= b.0 <= 9999,
        0 <= ra < 86400,
        0 <= rb < 86400,
        date_before(a, b) || (a == b && ra <= rb),
    ensures
        chars_le(stamp_text(a, ra), stamp_text(b, rb)),
{
    let tail = "+00:00"@;
    let (ha, ma, sa) = (ra / 3600, (ra % 3600) / 60, ra % 60);
    let (hb, mb, sb) = (rb / 3600, (rb % 3600) / 60, rb % 60);
    let same_day = a == b;
    // seconds
    let t6a = zero_padded(sa as nat, 2) + tail;
    let t6b = zero_padded(sb as nat, 2) + tail;
    assert(same_day && ha == hb && ma == mb ==> chars_le(t6a, t6b)) by {
        if same_day && ha == hb && ma == mb {
            lemma_two_digits_order(sa, sb);
            lemma_chars_le_reflexive(tail);
            lemma_block_then_rest(zero_padded(sa as nat, 2), zero_padded(sb as nat, 2), tail, tail);
        }
    }
    let t5a = seq![':'] + t6a;
    let t5b = seq![':'] + t6b;
    lemma_chars_le_common_prefix(seq![':'], t6a, t6b);
    // minutes
    let t4a = zero_padded(ma as nat, 2) + t5a;
    let t4b = zero_padded(mb as nat, 2) + t5b;
    assert(same_day && ha == hb ==> chars_le(t4a, t4b)) by {
        if same_day && ha == hb {
            lemma_two_digits_order(ma, mb);
            lemma_block_then_rest(zero_padded(ma as nat, 2), zero_padded(mb as nat, 2), t5a, t5b);
        }
    }
    let t3a = seq![':'] + t4a;
    let t3b = seq![':'] + t4b;
    lemma_chars_le_common_prefix(seq![':'], t4a, t4b);
    // hours
    let t2a = zero_padded(ha as nat, 2) + t3a;
    let t2b = zero_padded(hb as nat, 2) + t3b;
    assert(same_day ==> chars_le(t2a, t2b)) by {
        if same_day {
            lemma_two_digits_order(ha, hb);
            lemma_block_then_rest(zero_padded(ha as nat, 2), zero_padded(hb as nat, 2), t3a, t3b);
        }
    }
    let t1a = seq!['T'] + t2a;
    let t1b = seq!['T'] + t2b;
    lemma_chars_le_common_prefix(seq!['T'], t2a, t2b);
    // day
    let u3a = zero_padded(a.2 as nat, 2) + t1a;
    let u3b = zero_padded(b.2 as nat, 2) + t1b;
    assert(a.0 == b.0 && a.1 == b.1 ==> chars_le(u3a, u3b)) by {
        if a.0 == b.0 && a.1 == b.1 {
            lemma_two_digits_order(a.2, b.2);
            lemma_block_then_rest(zero_padded(a.2 as nat, 2), zero_padded(b.2 as nat, 2), t1a, t1b);
        }
    }
    let u2a = seq!['-'] + u3a;
    let u2b = seq!['-'] + u3b;
    lemma_chars_le_common_prefix(seq!['-'], u3a, u3b);
    // month
    let u1a = zero_padded(a.1 as nat, 2) + u2a;
    let u1b = zero_padded(b.1 as nat, 2) + u2b;
    assert(a.0 == b.0 ==> chars_le(u1a, u1b)) by {
        if a.0 == b.0 {
            lemma_two_digits_order(a.1, b.1);
            lemma_block_then_rest(zero_padded(a.1 as nat, 2), zero_padded(b.1 as nat, 2), u2a, u2b);
        }
    }
    let u0a = seq!['-'] + u1a;
    let u0b = seq!['-'] + u1b;
    lemma_chars_le_common_prefix(seq!['-'], u1a, u1b);
    // year
    lemma_four_digits_order(a.0, b.0);
    lemma_block_then_rest(zero_padded(a.0 as nat, 4), zero_padded(b.0 as nat, 4), u0a, u0b);
}

/// Two texts made of blocks of one length and rests differ when the blocks
/// or the rests differ.
proof fn lemma_block_or_rest_differs(p: Seq<char>, q: Seq<char>, x: Seq<char>, y: Seq<char>)
    requires
        p.len() == q.len(),
        p != q || x != y,
    ensures
        p + x != q + y,
{
    if p != q {
        assert((p + x).take(p.len() as int) =~= p);
        assert((q + y).take(q.len() as int) =~= q);
    } else {
        assert((p + x).skip(p.len() as int) =~= x);
        assert((q + y).skip(q.len() as int) =~= y);
    }
}

/// Zero-padded blocks of different numbers differ.
proof fn lemma_padded_differ(a: int, b: int, w: nat)
    requires
        w == 2 ==> 0 <= a < 100 && 0 <= b < 100,
        w == 4 ==> 0 <= a < 10000 && 0 <= b < 10000,
        w == 2 || w == 4,
    ensures
        zero_padded(a as nat, w).len() == w,
        zero_padded(b as nat, w).len() == w,
        a != b ==> zero_padded(a as nat, w) != zero_padded(b as nat, w),
{
    let (lo, hi) = if a <= b {
        (a, b)
    } else {
        (b, a)
    };
    if w == 2 {
        lemma_two_digits_order(lo, hi);
    } else {
        lemma_four_digits_order(lo, hi);
    }
}

/// Stamps of different dates or different seconds of the day differ.
proof fn lemma_stamp_distinct(a: (int, int, int), ra: int, b: (int, int, int), rb: int)
    requires
        is_valid_ymd(a),
        is_valid_ymd(b),
        0 <= a.0 <= 9999,
        0 <= b.0 <= 9999,
        0 <= ra < 86400,
        0 <= rb < 86400,
        a != b || ra != rb,
    ensures
        stamp_text(a, ra) != stamp_text(b, rb),
{
    let tail = "+00:00"@;
    let (ha, ma, sa) = (ra / 3600, (ra % 3600) / 60, ra % 60);
    let (hb, mb, sb) = (rb / 3600, (rb % 3600) / 60, rb % 60);
    assert(ra == ha * 3600 + ma * 60 + sa);
    assert(rb == hb * 3600 + mb * 60 + sb);
    lemma_padded_differ(sa, sb, 2);
    lemma_padded_differ(ma, mb, 2);
    lemma_padded_differ(ha, hb, 2);
    lemma_padded_differ(a.2, b.2, 2);
    lemma_padded_differ(a.1, b.1, 2);
    lemma_padded_differ(a.0, b.0, 4);
    let t6a = zero_padded(sa as nat, 2) + tail;
    let t6b = zero_padded(sb as nat, 2) + tail;
    if sa != sb {
        lemma_block_or_rest_differs(zero_padded(sa as nat, 2), zero_padded(sb as nat, 2), tail, tail);
    }
    let t5a = seq![':'] + t6a;
    let t5b = seq![':'] + t6b;
    if t6a != t6b {
        lemma_block_or_rest_differs(seq![':'], seq![':'], t6a, t6b);
    }
    let t4a = zero_padded(ma as nat, 2) + t5a;
    let t4b = zero_padded(mb as nat, 2) + t5b;
    if ma != mb || t5a != t5b {
        lemma_block_or_rest_differs(zero_padded(ma as nat, 2), zero_padded(mb as nat, 2), t5a, t5b);
    }
    let t3a = seq![':'] + t4a;
    let t3b = seq![':'] + t4b;
    if t4a != t4b {
        lemma_block_or_rest_differs(seq![':'], seq![':'], t4a, t4b);
    }
    let t2a = zero_padded(ha as nat, 2) + t3a;
    let t2b = zero_padded(hb as nat, 2) + t3b;
    if ha != hb || t3a != t3b {
        lemma_block_or_rest_differs(zero_padded(ha as nat, 2), zero_padded(hb as nat, 2), t3a, t3b);
    }
    let t1a = seq!['T'] + t2a;
    let t1b = seq!['T'] + t2b;
    if t2a != t2b {
        lemma_block_or_rest_differs(seq!['T'], seq!['T'], t2a, t2b);
    }
    let u3a = zero_padded(a.2 as nat, 2) + t1a;
    let u3b = zero_padded(b.2 as nat, 2) + t1b;
    if a.2 != b.2 || t1a != t1b {
        lemma_block_or_rest_differs(zero_padded(a.2 as nat, 2), zero_padded(b.2 as nat, 2), t1a, t1b);
    }
    let u2a = seq!['-'] + u3a;
    let u2b = seq!['-'] + u3b;
    if u3a != u3b {
        lemma_block_or_rest_differs(seq!['-'], seq!['-'], u3a, u3b);
    }
    let u1a = zero_padded(a.1 as nat, 2) + u2a;
    let u1b = zero_padded(b.1 as nat, 2) + u2b;
    if a.1 != b.1 || u2a != u2b {
        lemma_block_or_rest_differs(zero_padded(a.1 as nat, 2), zero_padded(b.1 as nat, 2), u2a, u2b);
    }
    let u0a = seq!['-'] + u1a;
    let u0b = seq!['-'] + u1b;
    if u1a != u1b {
        lemma_block_or_rest_differs(seq!['-'], seq!['-'], u1a, u1b);
    }
    lemma_block_or_rest_differs(zero_padded(a.0 as nat, 4), zero_padded(b.0 as nat, 4), u0a, u0b);
}

/// For instants from 1970 through year 9999, the RFC 3339 texts sort as the
/// seconds do: sorting results by their rendered timestamp text is sorting
/// them by time.
pub proof fn law_rendered_instants_sort_chronologically(s1: int, s2: int)
    requires
        0 <= s1 <= s2 <= 253402300799,
    ensures
        chars_le(rfc3339_utc_text(s1), rfc3339_utc_text(s2)),
        s1 < s2 ==> rfc3339_utc_text(s1) != rfc3339_utc_text(s2),
{
    let (q1, r1, q2, r2) = (s1 / 86400, s1 % 86400, s2 / 86400, s2 % 86400);
    assert(0 <= q1 <= q2 <= 2932896 && 0 <= r1 < 86400 && 0 <= r2 < 86400);
    assert(q1 == q2 ==> r1 <= r2);
    lemma_text_is_stamp(s1);
    lemma_text_is_stamp(s2);
    if q1 < q2 {
        lemma_unix_day_date_order(q1, q2);
    }
    lemma_stamp_order(unix_day_date(q1), r1, unix_day_date(q2), r2);
    if s1 < s2 {
        assert(q1 < q2 || r1 < r2);
        lemma_stamp_distinct(unix_day_date(q1), r1, unix_day_date(q2), r2);
    }
}

/// The RFC 3339 text of an instant from 1970 through year 9999, block by
/// block.
#[verifier::rlimit(30)]
proof fn lemma_text_is_stamp(s: int)
    requires
        0 <= s <= 253402300799,
    ensures
        0 <= s / 86400 <= 2932896,
        is_valid_ymd(unix_day_date(s / 86400)),
        1970 <= unix_day_date(s / 86400).0 <= 9999,
        rfc3339_utc_text(s) == stamp_text(unix_day_date(s / 86400), s % 86400),
{
    let q = s / 86400;
    assert(0 <= q <= 2932896);
    lemma_unix_day_date(q);
    let d = unix_day_date(q);
    assert(rfc3339_utc_text(s) =~= stamp_text(d, s % 86400));
}

/// Slack timestamps whose whole seconds lie from 1970 through year 9999
/// render to texts that sort as those seconds do.
pub proof fn law_iso8601_sorts_chronologically(ts1: Seq<char>, ts2: Seq<char>)
    requires
        parsed_i64(before_first_dot(ts1)) is Some,
        parsed_i64(before_first_dot(ts2)) is Some,
        0 <= parsed_i64(before_first_dot(ts1))->0 <= parsed_i64(before_first_dot(ts2))->0
            <= 253402300799,
    ensures
        chars_le(iso8601_text(ts1), iso8601_text(ts2)),
        parsed_i64(before_first_dot(ts1))->0 < parsed_i64(before_first_dot(ts2))->0
            ==> iso8601_text(ts1) != iso8601_text(ts2),
{
    law_rendered_instants_sort_chronologically(
        parsed_i64(before_first_dot(ts1))->0 as int,
        parsed_i64(before_first_dot(ts2))->0 as int,
    );
}

/// The value and shape of one decimal digit.
proof fn lemma_digit_char_value(d: nat)
    requires
        d < 10,
    ensures
        digit_char(d) as int == 48 + d,
        '0' <= digit_char(d) <= '9',
{
}

/// Two zero-padded digits read back as the number they render.
proof fn lemma_two_digits_value(n: int)
    requires
        0 <= n < 100,
    ensures
        zero_padded(n as nat, 2).len() == 2,
        all_ascii_digits(zero_padded(n as nat, 2)),
        digits_value(zero_padded(n as nat, 2)) == n,
{
    lemma_two_digits(n);
    reveal_with_fuel(digits_value, 3);
    let z = zero_padded(n as nat, 2);
    lemma_digit_char_value((n / 10) as nat);
    lemma_digit_char_value((n % 10) as nat);
    assert(z.drop_last() =~= seq![z[0]]);
    assert(z.drop_last().drop_last() =~= Seq::<char>::empty());
    assert(digits_value(z.drop_last()) == n / 10);
    assert(n == (n / 10) * 10 + n % 10) by (nonlinear_arith);
}

/// Four zero-padded digits read back as the number they render.
proof fn lemma_four_digits_value(n: int)
    requires
        0 <= n < 10000,
    ensures
        zero_padded(n as nat, 4).len() == 4,
        all_ascii_digits(zero_padded(n as nat, 4)),
        digits_value(zero_padded(n as nat, 4)) == n,
{
    lemma_four_digits(n);
    reveal_with_fuel(digits_value, 5);
    let z = zero_padded(n as nat, 4);
    lemma_digit_char_value((n / 1000) as nat);
    lemma_digit_char_value(((n / 100) % 10) as nat);
    lemma_digit_char_value(((n / 10) % 10) as nat);
    lemma_digit_char_value((n % 10) as nat);
    let z3 = z.drop_last();
    let z2 = z3.drop_last();
    let z1 = z2.drop_last();
    assert(z1 =~= seq![z[0]]);
    assert(z1.drop_last() =~= Seq::<char>::empty());
    assert(z2 =~= seq![z[0], z[1]]);
    assert(z3 =~= seq![z[0], z[1], z[2]]);
    assert(digits_value(z1) == n / 1000);
    assert(n / 100 == (n / 1000) * 10 + (n / 100) % 10) by (nonlinear_arith)
        requires
            0 <= n < 10000,
    ;
    assert(digits_value(z2) == n / 100);
    assert(n / 10 == (n / 100) * 10 + (n / 10) % 10) by (nonlinear_arith)
        requires
            0 <= n < 10000,
    ;
    assert(digits_value(z3) == n / 10);
    assert(n == (n / 10) * 10 + n % 10) by (nonlinear_arith);
}

/// The date that an RFC 3339 text names, read from its `YYYY-MM-DD` digits.
pub open spec fn read_date(t: Seq<char>) -> (int, int, int) {
    (digits_value(t.subrange(0, 4)), digits_value(t.subrange(5, 7)), digits_value(t.subrange(8, 10)))
}

/// A date of years 0 through 9999 renders as `YYYY-MM-DD`, four, two and two
/// ASCII digits that read back as its year, month and day.
pub proof fn law_ymd_text_reads_back(d: (int, int, int))
    requires
        is_valid_ymd(d),
        0 <= d.0 <= 9999,
    ensures
        ymd_text(d).len() == 10,
        ymd_text(d)[4] == '-',
        ymd_text(d)[7] == '-',
        all_ascii_digits(ymd_text(d).subrange(0, 4)),
        all_ascii_digits(ymd_text(d).subrange(5, 7)),
        all_ascii_digits(ymd_text(d).subrange(8, 10)),
        read_date(ymd_text(d)) == d,
{
    lemma_four_digits_value(d.0);
    lemma_two_digits_value(d.1);
    lemma_two_digits_value(d.2);
    let t = ymd_text(d);
    let zy = zero_padded(d.0 as nat, 4);
    let zm = zero_padded(d.1 as nat, 2);
    let zd = zero_padded(d.2 as nat, 2);
    assert(t =~= zy + seq!['-'] + zm + seq!['-'] + zd);
    assert(t.subrange(0, 4) =~= zy);
    assert(t.subrange(5, 7) =~= zm);
    assert(t.subrange(8, 10) =~= zd);
}

/// Whether `t` has the shape `DDDD-DD-DDTDD:DD:DD+00:00`, `D` an ASCII digit.
pub open spec fn utc_stamp_shape(t: Seq<char>) -> bool {
    &&& t.len() == 25
    &&& all_ascii_digits(t.subrange(0, 4))
    &&& t[4] == '-'
    &&& all_ascii_digits(t.subrange(5, 7))
    &&& t[7] == '-'
    &&& all_ascii_digits(t.subrange(8, 10))
    &&& t[10] == 'T'
    &&& all_ascii_digits(t.subrange(11, 13))
    &&& t[13] == ':'
    &&& all_ascii_digits(t.subrange(14, 16))
    &&& t[16] == ':'
    &&& all_ascii_digits(t.subrange(17, 19))
    &&& t.subrange(19, 25) == "+00:00"@
}

/// A Slack timestamp whose whole seconds `s` lie from 1970 through year 9999
/// renders that very instant: its date is the valid calendar day
/// `s / 86400` days after 1970-01-01, and its hours, minutes and seconds,
/// each in range, make up the second `s % 86400` of that day.
pub proof fn law_iso8601_renders_that_instant(ts: Seq<char>)
    requires
        parsed_i64(before_first_dot(ts)) is Some,
        0 <= parsed_i64(before_first_dot(ts))->0 <= 253402300799,
    ensures
        utc_stamp_shape(iso8601_text(ts)),
        is_valid_ymd(read_date(iso8601_text(ts))),
        day_index(read_date(iso8601_text(ts))) == day_index((1970, 1, 1)) + parsed_i64(
            before_first_dot(ts),
        )->0 / 86400,
        digits_value(iso8601_text(ts).subrange(11, 13)) < 24,
        digits_value(iso8601_text(ts).subrange(14, 16)) < 60,
        digits_value(iso8601_text(ts).subrange(17, 19)) < 60,
        digits_value(iso8601_text(ts).subrange(11, 13)) * 3600 + digits_value(
            iso8601_text(ts).subrange(14, 16),
        ) * 60 + digits_value(iso8601_text(ts).subrange(17, 19)) == parsed_i64(
            before_first_dot(ts),
        )->0 % 86400,
{
    let s: int = parsed_i64(before_first_dot(ts))->0 as int;
    let t = iso8601_text(ts);
    lemma_text_is_stamp(s);
    assert(t == rfc3339_utc_text(s));
    let d = unix_day_date(s / 86400);
    let r = s % 86400;
    let (h, m, sec) = (r / 3600, (r % 3600) / 60, r % 60);
    lemma_four_digits_value(d.0);
    lemma_two_digits_value(d.1);
    lemma_two_digits_value(d.2);
    lemma_two_digits_value(h);
    lemma_two_digits_value(m);
    lemma_two_digits_value(sec);
    let zy = zero_padded(d.0 as nat, 4);
    let zm = zero_padded(d.1 as nat, 2);
    let zd = zero_padded(d.2 as nat, 2);
    let zh = zero_padded(h as nat, 2);
    let zi = zero_padded(m as nat, 2);
    let zs = zero_padded(sec as nat, 2);
    reveal_strlit("+00:00");
    let flat = zy + seq!['-'] + zm + seq!['-'] + zd + seq!['T'] + zh + seq![':'] + zi + seq![':']
        + zs + "+00:00"@;
    assert(t =~= flat);
    assert(t.subrange(0, 4) =~= zy);
    assert(t.subrange(5, 7) =~= zm);
    assert(t.subrange(8, 10) =~= zd);
    assert(t.subrange(11, 13) =~= zh);
    assert(t.subrange(14, 16) =~= zi);
    assert(t.subrange(17, 19) =~= zs);
    assert(t.subrange(19, 25) =~= "+00:00"@);
    assert(day_index((1970, 1, 1)) == days_before_year(1970));
    lemma_unix_day_date(s / 86400);
    assert(h * 3600 + m * 60 + sec == r && h < 24) by (nonlinear_arith)
        requires
            0 <= r < 86400,
            h == r / 3600,
            m == (r % 3600) / 60,
            sec == r % 60,
    ;
}

/// The whole-seconds part of a Slack `ts`.
fn seconds_part(ts: &Vec<char>) -> (r: Vec<char>)
    ensures
        r@ == before_first_dot(ts@),
{
    let mut k: usize = 0;
    proof {
        assert(ts@.skip(0) =~= ts@);
        assert(ts@.take(0) =~= Seq::<char>::empty());
    }
    while k < ts.len() && ts[k] != '.'
        invariant
            k <= ts.len(),
            before_first_dot(ts@) == ts@.take(k as int) + before_first_dot(ts@.skip(k as int)),
        decreases ts.len() - k,
    {
        proof {
            assert(ts@.skip(k as int).skip(1) =~= ts@.skip(k + 1));
            assert(ts@.take(k as int) + (seq![ts@[k as int]] + before_first_dot(ts@.skip(k + 1)))
                =~= ts@.take(k + 1) + before_first_dot(ts@.skip(k + 1)));
        }
        k += 1;
    }
    proof {
        if k == ts.len() {
            assert(ts@.skip(k as int) =~= Seq::<char>::empty());
        }
        assert(before_first_dot(ts@.skip(k as int)) =~= Seq::<char>::empty());
        assert(ts@.take(k as int) =~= ts@.subrange(0, k as int));
    }
    copy_range(ts, 0, k)
}

/// The rendered instant when there is one, else the raw `ts`.
pub fn rendered_or_raw(ts: &str, rendered: Option<String>) -> (r: String)
    ensures
        r@ == (match rendered {
            Some(t) => t@,
            None => ts@,
        }),
{
    match rendered {
        Some(t) => t,
        None => String::from_str(ts),
    }
}

/// Slack `ts` (`"1718200000.632709"`) to RFC 3339 UTC; falls back to the raw
/// string if it does not parse.
pub fn iso8601(ts: &str) -> (r: String)
    ensures
        r@ == iso8601_text(ts@),
{
    let secs_text = string_from_chars(&seconds_part(&chars_of(ts)));
    match parse_i64(secs_text.as_str()) {
        Some(secs) => rendered_or_raw(ts, utc_rfc3339(secs)),
        None => String::from_str(ts),
    }
}

// ---------------------------------------------------------------------------
// The endpoint's answer

/// One row of the search script's answer.
#[derive(Debug, Clone)]
pub struct RawRow {
    pub ts: String,
    pub channel: String,
    pub author: String,
    pub text: String,
    pub permalink: String,
}

/// What the search script answers: result rows with the total match count,
/// or an error code.
#[derive(Debug, Clone)]
pub struct ApiResponse {
    pub results: Vec<RawRow>,
    pub total: usize,
    pub error: Option<String>,
}

/// Why a per-scope search failed.
#[derive(Debug, Clone)]
pub enum SearchError {
    /// The page holds no session token: the user has not signed in.
    NotAuthenticated,
    /// The query scopes to `@me` but the workspace config has no user id.
    NoUserId,
    /// Any other error code the endpoint or the script reported.
    Endpoint { error: String, query: String },
}

/// The text of a search error.
pub open spec fn search_error_text(e: SearchError) -> Seq<char> {
    match e {
        SearchError::NotAuthenticated => NOT_SIGNED_IN@,
        SearchError::NoUserId => NO_USER_ID@,
        SearchError::Endpoint { error, query } => ENDPOINT_ERROR_HEAD@ + error@ + FOR_QUERY@
            + query@ + ENDPOINT_ERROR_TAIL@,
    }
}

/// Message for a page without a signed-in session.
pub const NOT_SIGNED_IN: &'static str =
    "not signed in to Slack — complete login in the browser window, then re-run";

/// Message for an `@me` query without a user id.
pub const NO_USER_ID: &'static str = "query scopes to `@me` but the active workspace has no user_id in local config — reopen the workspace so the web client rehydrates, or remove the @me scope";

/// Start of the message for other endpoint errors.
pub const ENDPOINT_ERROR_HEAD: &'static str = "Slack's search endpoint returned error '";

/// Between the error code and the query.
pub const FOR_QUERY: &'static str = "' for query '";

/// End of the message for other endpoint errors.
pub const ENDPOINT_ERROR_TAIL: &'static str =
    "' (the session token may have expired, or the browser-automation-backed API changed)";

impl SearchError {
    /// The error message.
    pub fn message(&self) -> (r: String)
        ensures
            r@ == search_error_text(*self),
    {
        match self {
            SearchError::NotAuthenticated => String::from_str(NOT_SIGNED_IN),
            SearchError::NoUserId => String::from_str(NO_USER_ID),
            SearchError::Endpoint { error, query } => {
                let mut m = String::from_str(ENDPOINT_ERROR_HEAD);
                m.append(error.as_str());
                m.append(FOR_QUERY);
                m.append(query.as_str());
                m.append(ENDPOINT_ERROR_TAIL);
                m
            },
        }
    }
}

/// The error a reported error code stands for.
pub open spec fn error_for_code(err: SearchError, code: Seq<char>, query: Seq<char>) -> bool {
    if code == "not_authenticated"@ {
        err is NotAuthenticated
    } else if code == "no_user_id"@ {
        err is NoUserId
    } else {
        err matches SearchError::Endpoint { error, query: q } && error@ == code && q@ == query
    }
}

/// The result a row becomes: its `ts` as RFC 3339, every other field as is.
pub open spec fn result_of_row(row: RawRow, r: SearchResult) -> bool {
    &&& r.ts@ == iso8601_text(row.ts@)
    &&& r.channel == row.channel
    &&& r.author == row.author
    &&& r.text == row.text
    &&& r.permalink == row.permalink
}

/// A result made from a row carries the row's message text, channel,
/// author and permalink unchanged; only the timestamp is rendered.
pub proof fn law_result_keeps_row_fields(row: RawRow, r: SearchResult)
    requires
        result_of_row(row, r),
    ensures
        r.text@ == row.text@,
        r.channel@ == row.channel@,
        r.author@ == row.author@,
        r.permalink@ == row.permalink@,
{
}

/// The notice for a query whose matches were cut at the cap.
pub open spec fn truncation_text(query: Seq<char>, total: nat, returned: nat) -> Seq<char> {
    "slack-adapter: query '"@ + query + "' matched "@ + decimal(total) + " messages; returning the first "@
        + decimal(returned)
        + " (narrow the date range or add a channel/text filter for the rest)"@
}

/// Whether the cap cut the matches of a query short.
pub open spec fn was_truncated(returned: nat, total: nat) -> bool {
    returned >= MAX_PER_QUERY && total > returned
}

/// The notice comes exactly when a query returned at least the cap of 1000
/// messages and matched more than it returned; it names the query, the
/// number matched and the number returned.
pub proof fn law_notice_exactly_when_capped(query: Seq<char>, returned: nat, total: nat)
    ensures
        was_truncated(returned, total) <==> (returned >= 1000 && total > returned),
        truncation_text(query, total, returned) == "slack-adapter: query '"@ + query
            + "' matched "@ + decimal(total) + " messages; returning the first "@ + decimal(
            returned,
        ) + " (narrow the date range or add a channel/text filter for the rest)"@,
{
}

/// A reported error code reads as its message: `not_authenticated` asks the
/// user to sign in, `no_user_id` explains the missing user id, and any other
/// code is quoted with the query it came from.
pub proof fn law_error_codes_read_as_messages(e: SearchError, code: Seq<char>, query: Seq<char>)
    requires
        error_for_code(e, code, query),
    ensures
        code == "not_authenticated"@ ==> search_error_text(e)
            == "not signed in to Slack — complete login in the browser window, then re-run"@,
        code == "no_user_id"@ ==> search_error_text(e) == NO_USER_ID@,
        code != "not_authenticated"@ && code != "no_user_id"@ ==> search_error_text(e)
            == "Slack's search endpoint returned error '"@ + code + "' for query '"@ + query
            + "' (the session token may have expired, or the browser-automation-backed API changed)"@,
{
    reveal_strlit("not_authenticated");
    reveal_strlit("no_user_id");
    if code == "no_user_id"@ {
        assert(code.len() == 10);
        assert(code != "not_authenticated"@);
        assert(e is NoUserId);
    }
}

/// The rows of one successful per-scope search, with a notice when the cap
/// cut its matches short.
#[derive(Debug, Clone)]
pub struct QueryAnswer {
    pub rows: Vec<SearchResult>,
    pub notice: Option<String>,
}

/// The truncation notice for a query, if the cap cut it short.
pub fn truncation_notice(query: &str, returned: usize, total: usize) -> (r: Option<String>)
    ensures
        r is Some <==> was_truncated(returned as nat, total as nat),
        r matches Some(t) ==> t@ == truncation_text(query@, total as nat, returned as nat),
{
    if returned >= MAX_PER_QUERY && total > returned {
        let mut m = String::from_str("slack-adapter: query '");
        m.append(query);
        m.append("' matched ");
        m.append(string_from_chars(&decimal_chars(total as u64)).as_str());
        m.append(" messages; returning the first ");
        m.append(string_from_chars(&decimal_chars(returned as u64)).as_str());
        m.append(" (narrow the date range or add a channel/text filter for the rest)");
        Some(m)
    } else {
        None
    }
}

/// Reads the search script's answer for `query`: an error code becomes the
/// matching error; otherwise every row becomes a result (its `ts` rendered
/// as RFC 3339), in order, with a notice when the cap cut the matches short.
pub fn interpret_response(query: &str, resp: ApiResponse) -> (r: Result<QueryAnswer, SearchError>)
    ensures
        r is Err <==> resp.error is Some,
        r matches Err(e) ==> error_for_code(e, resp.error->0@, query@),
        r matches Ok(a) ==> {
            &&& a.rows.len() == resp.results.len()
            &&& forall|i: int|
                0 <= i < a.rows.len() ==> result_of_row(resp.results[i], #[trigger] a.rows[i])
            &&& forall|i: int|
                0 <= i < a.rows.len() ==> {
                    &&& (#[trigger] a.rows[i]).text@ == resp.results[i].text@
                    &&& a.rows[i].ts@ == iso8601_text(resp.results[i].ts@)
                    &&& a.rows[i].channel@ == resp.results[i].channel@
                    &&& a.rows[i].author@ == resp.results[i].author@
                    &&& a.rows[i].permalink@ == resp.results[i].permalink@
                }
            &&& (a.notice is Some <==> was_truncated(
                resp.results.len() as nat,
                resp.total as nat,
            ))
            &&& a.notice matches Some(t) ==> t@ == truncation_text(
                query@,
                resp.total as nat,
                resp.results.len() as nat,
            )
        },
{
    let ApiResponse { results, total, error } = resp;
    if let Some(err) = error {
        if err == String::from_str("not_authenticated") {
            return Err(SearchError::NotAuthenticated);
        }
        if err == String::from_str("no_user_id") {
            return Err(SearchError::NoUserId);
        }
        return Err(SearchError::Endpoint { error: err, query: String::from_str(query) });
    }
    let notice = truncation_notice(query, results.len(), total);
    let ghost incoming = results@;
    let mut rest = results;
    let mut rows: Vec<SearchResult> = Vec::new();
    while rest.len() > 0
        invariant
            rows.len() + rest.len() == incoming.len(),
            rest@ == incoming.skip(rows.len() as int),
            forall|i: int| 0 <= i < rows.len() ==> result_of_row(incoming[i], #[trigger] rows[i]),
        decreases rest.len(),
    {
        let row = rest.remove(0);
        let ghost k = rows.len() as int;
        assert(row == incoming[k]);
        let ts = iso8601(row.ts.as_str());
        rows.push(
            SearchResult {
                ts,
                channel: row.channel,
                author: row.author,
                text: row.text,
                permalink: row.permalink,
            },
        );
        proof {
            assert(incoming.skip(k).remove(0) =~= incoming.skip(k + 1));
        }
    }
    Ok(QueryAnswer { rows, notice })
}

// ---------------------------------------------------------------------------
// Merging the per-scope result lists

/// The results of all batches, batch after batch.
pub open spec fn all_rows(batches: Seq<Vec<SearchResult>>) -> Seq<SearchResult>
    decreases batches.len(),
{
    if batches.len() == 0 {
        Seq::empty()
    } else {
        batches[0]@ + all_rows(batches.skip(1))
    }
}

/// Whether some result of `rows` has the permalink `p`.
pub open spec fn has_permalink(rows: Seq<SearchResult>, p: Seq<char>) -> bool {
    exists|i: int| 0 <= i < rows.len() && (#[trigger] rows[i]).permalink@ == p
}

/// The first result of each permalink, in order of first appearance.
pub open spec fn first_by_permalink(rows: Seq<SearchResult>) -> Seq<SearchResult>
    decreases rows.len(),
{
    if rows.len() == 0 {
        Seq::empty()
    } else {
        let kept = first_by_permalink(rows.drop_last());
        if has_permalink(kept, rows.last().permalink@) {
            kept
        } else {
            kept.push(rows.last())
        }
    }
}

/// `x` put into `sorted` after every result whose timestamp sorts no later.
pub open spec fn insert_by_ts(sorted: Seq<SearchResult>, x: SearchResult) -> Seq<SearchResult>
    decreases sorted.len(),
{
    if sorted.len() == 0 {
        seq![x]
    } else if chars_le(sorted.last().ts@, x.ts@) {
        sorted.push(x)
    } else {
        insert_by_ts(sorted.drop_last(), x).push(sorted.last())
    }
}

/// `rows` stably sorted by timestamp, ascending (what `sort_by` with
/// `ts.cmp` gives): results with equal timestamps keep their order.
pub open spec fn sort_by_ts(rows: Seq<SearchResult>) -> Seq<SearchResult>
    decreases rows.len(),
{
    if rows.len() == 0 {
        Seq::empty()
    } else {
        insert_by_ts(sort_by_ts(rows.drop_last()), rows.last())
    }
}

/// The merged results of the per-scope searches.
pub open spec fn merged(batches: Seq<Vec<SearchResult>>) -> Seq<SearchResult> {
    sort_by_ts(first_by_permalink(all_rows(batches)))
}

/// Whether some result of `rows` has the permalink `p`.
fn permalink_seen(rows: &Vec<SearchResult>, p: &String) -> (r: bool)
    ensures
        r == has_permalink(rows@, p@),
{
    let mut i: usize = 0;
    while i < rows.len()
        invariant
            i <= rows.len(),
            forall|j: int| 0 <= j < i ==> (#[trigger] rows@[j]).permalink@ != p@,
        decreases rows.len() - i,
    {
        if rows[i].permalink == *p {
            return true;
        }
        i += 1;
    }
    false
}

/// Puts `x` into a vector sorted by timestamp, after every result whose
/// timestamp sorts no later.
fn insert_sorted(sorted: &mut Vec<SearchResult>, x: SearchResult)
    ensures
        final(sorted)@ == insert_by_ts(old(sorted)@, x),
{
    let ghost s = sorted@;
    let x_ts = chars_of(x.ts.as_str());
    let mut k: usize = sorted.len();
    proof {
        assert(s.take(k as int) =~= s);
        assert(s.skip(k as int) =~= Seq::<SearchResult>::empty());
        assert(insert_by_ts(s, x) =~= insert_by_ts(s.take(k as int), x) + s.skip(k as int));
    }
    while k > 0 && !chars_le_exec(&chars_of(sorted[k - 1].ts.as_str()), &x_ts)
        invariant
            k <= s.len(),
            sorted@ == s,
            x_ts@ == x.ts@,
            insert_by_ts(s, x) == insert_by_ts(s.take(k as int), x) + s.skip(k as int),
        decreases k,
    {
        proof {
            let t = s.take(k as int);
            assert(t.drop_last() =~= s.take(k - 1));
            assert(t.last() == s[k - 1]);
            assert(insert_by_ts(t, x) == insert_by_ts(s.take(k - 1), x).push(s[k - 1]));
            assert(insert_by_ts(s.take(k - 1), x).push(s[k - 1]) + s.skip(k as int) =~=
                insert_by_ts(s.take(k - 1), x) + s.skip(k - 1));
        }
        k -= 1;
    }
    proof {
        let t = s.take(k as int);
        if k > 0 {
            assert(t.last() == s[k - 1]);
            assert(insert_by_ts(t, x) == t.push(x));
        } else {
            assert(t =~= Seq::<SearchResult>::empty());
        }
        assert(insert_by_ts(t, x) + s.skip(k as int) =~= s.insert(k as int, x));
    }
    sorted.insert(k, x);
}

/// Unions the per-scope result lists: the first result of each permalink is
/// kept, in order of first appearance, then all are sorted by timestamp
/// ascending (stably).
pub fn merge_results(batches: Vec<Vec<SearchResult>>) -> (r: Vec<SearchResult>)
    ensures
        r@ == merged(batches@),
{
    let ghost all = all_rows(batches@);
    let mut pending = batches;
    let mut rows: Vec<SearchResult> = Vec::new();
    while pending.len() > 0
        invariant
            all == rows@ + all_rows(pending@),
        decreases pending.len(),
    {
        let ghost before = pending@;
        let mut batch = pending.remove(0);
        proof {
            assert(before.skip(1) =~= pending@);
            assert(all_rows(before) == before[0]@ + all_rows(before.skip(1)));
        }
        let ghost rows_before = rows@;
        rows.append(&mut batch);
        proof {
            assert(rows_before + (before[0]@ + all_rows(pending@)) =~= rows@ + all_rows(pending@));
        }
    }
    assert(all_rows(pending@) =~= Seq::<SearchResult>::empty());
    assert(rows@ =~= all);
    let mut kept: Vec<SearchResult> = Vec::new();
    let mut done: usize = 0;
    let total = rows.len();
    proof {
        assert(all.take(0) =~= Seq::<SearchResult>::empty());
        assert(all.skip(0) =~= all);
    }
    while rows.len() > 0
        invariant
            done + rows.len() == total,
            total == all.len(),
            rows@ == all.skip(done as int),
            kept@ == first_by_permalink(all.take(done as int)),
        decreases rows.len(),
    {
        let row = rows.remove(0);
        proof {
            assert(row == all[done as int]);
            assert(all.take(done + 1).drop_last() =~= all.take(done as int));
            assert(all.take(done + 1).last() == all[done as int]);
            assert(all.skip(done as int).remove(0) =~= all.skip(done + 1));
        }
        if !permalink_seen(&kept, &row.permalink) {
            kept.push(row);
        }
        done += 1;
    }
    assert(all.take(done as int) =~= all);
    let ghost deduped = kept@;
    let n = kept.len();
    let mut sorted: Vec<SearchResult> = Vec::new();
    let mut placed: usize = 0;
    proof {
        assert(deduped.take(0) =~= Seq::<SearchResult>::empty());
        assert(deduped.skip(0) =~= deduped);
    }
    while kept.len() > 0
        invariant
            placed + kept.len() == n,
            n == deduped.len(),
            kept@ == deduped.skip(placed as int),
            sorted@ == sort_by_ts(deduped.take(placed as int)),
        decreases kept.len(),
    {
        let row = kept.remove(0);
        proof {
            assert(row == deduped[placed as int]);
            assert(deduped.take(placed + 1).drop_last() =~= deduped.take(placed as int));
            assert(deduped.take(placed + 1).last() == deduped[placed as int]);
            assert(deduped.skip(placed as int).remove(0) =~= deduped.skip(placed + 1));
        }
        insert_sorted(&mut sorted, row);
        placed += 1;
    }
    assert(deduped.take(placed as int) =~= deduped);
    sorted
}

/// Whether `rows` is in ascending timestamp order.
pub open spec fn sorted_by_ts(rows: Seq<SearchResult>) -> bool {
    forall|i: int, j: int|
        0 <= i < j < rows.len() ==> chars_le((#[trigger] rows[i]).ts@, (#[trigger] rows[j]).ts@)
}

/// Whether no two results of `rows` share a permalink.
pub open spec fn distinct_permalinks(rows: Seq<SearchResult>) -> bool {
    forall|i: int, j: int|
        0 <= i < rows.len() && 0 <= j < rows.len() && i != j ==> (#[trigger] rows[i]).permalink@
            != (#[trigger] rows[j]).permalink@
}

/// Inserting adds exactly the inserted result.
proof fn lemma_insert_members(s: Seq<SearchResult>, x: SearchResult)
    ensures
        insert_by_ts(s, x).len() == s.len() + 1,
        forall|y: SearchResult| #[trigger]
            insert_by_ts(s, x).contains(y) <==> (s.contains(y) || y == x),
    decreases s.len(),
{
    let r = insert_by_ts(s, x);
    if s.len() == 0 {
        assert forall|y: SearchResult| #[trigger] r.contains(y) <==> (s.contains(y) || y == x) by {
            if r.contains(y) {
                let i = choose|i: int| 0 <= i < r.len() && r[i] == y;
            }
            if y == x {
                assert(r[0] == x);
            }
        }
    } else if chars_le(s.last().ts@, x.ts@) {
        assert forall|y: SearchResult| #[trigger] r.contains(y) <==> (s.contains(y) || y == x) by {
            if r.contains(y) {
                let i = choose|i: int| 0 <= i < r.len() && r[i] == y;
                if i < s.len() {
                    assert(s[i] == y);
                }
            }
            if s.contains(y) {
                let i = choose|i: int| 0 <= i < s.len() && s[i] == y;
                assert(r[i] == y);
            }
            if y == x {
                assert(r[s.len() as int] == x);
            }
        }
    } else {
        let p = s.drop_last();
        lemma_insert_members(p, x);
        let q = insert_by_ts(p, x);
        assert(r == q.push(s.last()));
        assert forall|y: SearchResult| #[trigger] r.contains(y) <==> (s.contains(y) || y == x) by {
            if r.contains(y) {
                let i = choose|i: int| 0 <= i < r.len() && r[i] == y;
                if i < q.len() {
                    assert(q[i] == y);
                    assert(q.contains(y));
                    if p.contains(y) {
                        let k = choose|k: int| 0 <= k < p.len() && p[k] == y;
                        assert(s[k] == y);
                    }
                } else {
                    assert(s[s.len() - 1] == y);
                }
            }
            if s.contains(y) {
                let i = choose|i: int| 0 <= i < s.len() && s[i] == y;
                if i < p.len() {
                    assert(p[i] == y);
                    assert(q.contains(y));
                    let k = choose|k: int| 0 <= k < q.len() && q[k] == y;
                    assert(r[k] == y);
                } else {
                    assert(r[q.len() as int] == y);
                }
            }
            if y == x {
                assert(q.contains(x));
                let k = choose|k: int| 0 <= k < q.len() && q[k] == x;
                assert(r[k] == x);
            }
        }
    }
}

/// Sorting keeps exactly the results it is given.
proof fn lemma_sort_members(rows: Seq<SearchResult>)
    ensures
        sort_by_ts(rows).len() == rows.len(),
        forall|y: SearchResult| #[trigger] sort_by_ts(rows).contains(y) <==> rows.contains(y),
    decreases rows.len(),
{
    if rows.len() > 0 {
        let p = rows.drop_last();
        lemma_sort_members(p);
        lemma_insert_members(sort_by_ts(p), rows.last());
        assert forall|y: SearchResult| #[trigger]
            sort_by_ts(rows).contains(y) <==> rows.contains(y) by {
            if rows.contains(y) {
                let i = choose|i: int| 0 <= i < rows.len() && rows[i] == y;
                if i < p.len() {
                    assert(p[i] == y);
                }
            }
            if p.contains(y) {
                let i = choose|i: int| 0 <= i < p.len() && p[i] == y;
                assert(rows[i] == y);
            }
        }
    }
}

/// Inserting into an ascending list keeps it ascending.
proof fn lemma_insert_sorted(s: Seq<SearchResult>, x: SearchResult)
    requires
        sorted_by_ts(s),
    ensures
        sorted_by_ts(insert_by_ts(s, x)),
    decreases s.len(),
{
    let r = insert_by_ts(s, x);
    if s.len() == 0 {
    } else if chars_le(s.last().ts@, x.ts@) {
        assert forall|i: int, j: int| 0 <= i < j < r.len() implies chars_le(
            (#[trigger] r[i]).ts@,
            (#[trigger] r[j]).ts@,
        ) by {
            if j == s.len() {
                if i < s.len() - 1 {
                    assert(chars_le(s[i].ts@, s[s.len() - 1].ts@));
                    lemma_chars_le_transitive(s[i].ts@, s.last().ts@, x.ts@);
                }
            } else {
                assert(r[i] == s[i] && r[j] == s[j]);
            }
        }
    } else {
        lemma_chars_le_total(s.last().ts@, x.ts@);
        let p = s.drop_last();
        let last = s.last();
        assert(sorted_by_ts(p)) by {
            assert forall|i: int, j: int| 0 <= i < j < p.len() implies chars_le(
                (#[trigger] p[i]).ts@,
                (#[trigger] p[j]).ts@,
            ) by {
                assert(p[i] == s[i] && p[j] == s[j]);
            }
        }
        lemma_insert_sorted(p, x);
        lemma_insert_members(p, x);
        let q = insert_by_ts(p, x);
        assert(r == q.push(last));
        assert forall|i: int, j: int| 0 <= i < j < r.len() implies chars_le(
            (#[trigger] r[i]).ts@,
            (#[trigger] r[j]).ts@,
        ) by {
            if j == q.len() {
                assert(r[i] == q[i]);
                assert(q.contains(q[i]));
                if q[i] == x {
                } else {
                    assert(p.contains(q[i]));
                    let k = choose|k: int| 0 <= k < p.len() && p[k] == q[i];
                    assert(s[k] == q[i]);
                    assert(chars_le(s[k].ts@, s[s.len() - 1].ts@));
                }
            } else {
                assert(r[i] == q[i] && r[j] == q[j]);
            }
        }
    }
}

/// Sorting gives an ascending list.
proof fn lemma_sort_sorted(rows: Seq<SearchResult>)
    ensures
        sorted_by_ts(sort_by_ts(rows)),
    decreases rows.len(),
{
    if rows.len() > 0 {
        lemma_sort_sorted(rows.drop_last());
        lemma_insert_sorted(sort_by_ts(rows.drop_last()), rows.last());
    }
}

/// Inserting a result whose permalink is new keeps permalinks distinct.
proof fn lemma_insert_distinct(s: Seq<SearchResult>, x: SearchResult)
    requires
        distinct_permalinks(s),
        !has_permalink(s, x.permalink@),
    ensures
        distinct_permalinks(insert_by_ts(s, x)),
    decreases s.len(),
{
    let r = insert_by_ts(s, x);
    if s.len() == 0 {
    } else if chars_le(s.last().ts@, x.ts@) {
        assert forall|i: int, j: int|
            0 <= i < r.len() && 0 <= j < r.len() && i != j implies (#[trigger] r[i]).permalink@
            != (#[trigger] r[j]).permalink@ by {
            if i == s.len() {
                assert(s[j] == r[j]);
            } else if j == s.len() {
                assert(s[i] == r[i]);
            } else {
                assert(s[i] == r[i] && s[j] == r[j]);
            }
        }
    } else {
        let p = s.drop_last();
        let last = s.last();
        assert(distinct_permalinks(p)) by {
            assert forall|i: int, j: int|
                0 <= i < p.len() && 0 <= j < p.len() && i != j implies (#[trigger] p[i]).permalink@
                != (#[trigger] p[j]).permalink@ by {
                assert(p[i] == s[i] && p[j] == s[j]);
            }
        }
        assert(!has_permalink(p, x.permalink@)) by {
            if has_permalink(p, x.permalink@) {
                let k = choose|k: int| 0 <= k < p.len() && (#[trigger] p[k]).permalink@ == x.permalink@;
                assert(s[k] == p[k]);
            }
        }
        lemma_insert_distinct(p, x);
        lemma_insert_members(p, x);
        let q = insert_by_ts(p, x);
        assert(r == q.push(last));
        assert forall|i: int|
            0 <= i < q.len() implies (#[trigger] q[i]).permalink@ != last.permalink@ by {
            assert(q.contains(q[i]));
            if q[i] == x {
                assert(s[s.len() - 1] == last);
            } else {
                assert(p.contains(q[i]));
                let k = choose|k: int| 0 <= k < p.len() && p[k] == q[i];
                assert(s[k] == q[i]);
                assert(s[s.len() - 1] == last);
            }
        }
        assert forall|i: int, j: int|
            0 <= i < r.len() && 0 <= j < r.len() && i != j implies (#[trigger] r[i]).permalink@
            != (#[trigger] r[j]).permalink@ by {
            if i == q.len() {
                assert(r[j] == q[j]);
            } else if j == q.len() {
                assert(r[i] == q[i]);
            } else {
                assert(r[i] == q[i] && r[j] == q[j]);
            }
        }
    }
}

/// Sorting keeps permalinks distinct.
proof fn lemma_sort_distinct(rows: Seq<SearchResult>)
    requires
        distinct_permalinks(rows),
    ensures
        distinct_permalinks(sort_by_ts(rows)),
    decreases rows.len(),
{
    if rows.len() > 0 {
        let p = rows.drop_last();
        let last = rows.last();
        assert(distinct_permalinks(p)) by {
            assert forall|i: int, j: int|
                0 <= i < p.len() && 0 <= j < p.len() && i != j implies (#[trigger] p[i]).permalink@
                != (#[trigger] p[j]).permalink@ by {
                assert(p[i] == rows[i] && p[j] == rows[j]);
            }
        }
        lemma_sort_distinct(p);
        lemma_sort_members(p);
        let sp = sort_by_ts(p);
        assert(!has_permalink(sp, last.permalink@)) by {
            if has_permalink(sp, last.permalink@) {
                let k = choose|k: int|
                    0 <= k < sp.len() && (#[trigger] sp[k]).permalink@ == last.permalink@;
                assert(sp.contains(sp[k]));
                let m = choose|m: int| 0 <= m < p.len() && p[m] == sp[k];
                assert(rows[m] == p[m]);
                assert(rows[rows.len() - 1] == last);
            }
        }
        lemma_insert_distinct(sp, last);
    }
}

/// Keeping the first result of each permalink leaves distinct permalinks,
/// taken from the input, covering every permalink of the input.
proof fn lemma_first_by_permalink(rows: Seq<SearchResult>)
    ensures
        distinct_permalinks(first_by_permalink(rows)),
        forall|y: SearchResult| #[trigger] first_by_permalink(rows).contains(y) ==> rows.contains(y),
        forall|i: int|
            0 <= i < rows.len() ==> has_permalink(first_by_permalink(rows), (#[trigger] rows[i]).permalink@),
    decreases rows.len(),
{
    if rows.len() > 0 {
        let p = rows.drop_last();
        let last = rows.last();
        lemma_first_by_permalink(p);
        let kept = first_by_permalink(p);
        let r = first_by_permalink(rows);
        if has_permalink(kept, last.permalink@) {
            assert forall|y: SearchResult| #[trigger] r.contains(y) implies rows.contains(y) by {
                assert(p.contains(y));
                let k = choose|k: int| 0 <= k < p.len() && p[k] == y;
                assert(rows[k] == y);
            }
            assert forall|i: int| 0 <= i < rows.len() implies has_permalink(
                r,
                (#[trigger] rows[i]).permalink@,
            ) by {
                if i < p.len() {
                    assert(p[i] == rows[i]);
                }
            }
        } else {
            assert(r == kept.push(last));
            assert forall|i: int, j: int|
                0 <= i < r.len() && 0 <= j < r.len() && i != j implies (#[trigger] r[i]).permalink@
                != (#[trigger] r[j]).permalink@ by {
                if i < kept.len() && j < kept.len() {
                    assert(r[i] == kept[i] && r[j] == kept[j]);
                } else if i < kept.len() {
                    assert(r[i] == kept[i]);
                } else if j < kept.len() {
                    assert(r[j] == kept[j]);
                }
            }
            assert forall|y: SearchResult| #[trigger] r.contains(y) implies rows.contains(y) by {
                let k = choose|k: int| 0 <= k < r.len() && r[k] == y;
                if k < kept.len() {
                    assert(kept[k] == y);
                    assert(kept.contains(y));
                    assert(p.contains(y));
                    let m = choose|m: int| 0 <= m < p.len() && p[m] == y;
                    assert(rows[m] == y);
                } else {
                    assert(rows[rows.len() - 1] == y);
                }
            }
            assert forall|i: int| 0 <= i < rows.len() implies has_permalink(
                r,
                (#[trigger] rows[i]).permalink@,
            ) by {
                if i < p.len() {
                    assert(p[i] == rows[i]);
                    assert(has_permalink(kept, p[i].permalink@));
                    let k = choose|k: int|
                        0 <= k < kept.len() && (#[trigger] kept[k]).permalink@ == p[i].permalink@;
                    assert(r[k] == kept[k]);
                } else {
                    assert(r[kept.len() as int] == last);
                }
            }
        }
    }
}

/// Whether `rows[i]` is the first result of `rows` with its permalink.
pub open spec fn first_with_its_permalink(rows: Seq<SearchResult>, i: int) -> bool {
    &&& 0 <= i < rows.len()
    &&& forall|j: int| 0 <= j < i ==> (#[trigger] rows[j]).permalink@ != rows[i].permalink@
}

/// Each result kept is the first of its permalink in the input.
proof fn lemma_first_by_permalink_keeps_first(rows: Seq<SearchResult>)
    ensures
        forall|y: SearchResult| #[trigger]
            first_by_permalink(rows).contains(y) ==> exists|i: int|
                first_with_its_permalink(rows, i) && #[trigger] rows[i] == y,
    decreases rows.len(),
{
    if rows.len() > 0 {
        let p = rows.drop_last();
        let last = rows.last();
        lemma_first_by_permalink_keeps_first(p);
        lemma_first_by_permalink(p);
        let kept = first_by_permalink(p);
        let r = first_by_permalink(rows);
        assert forall|y: SearchResult| #[trigger] r.contains(y) implies exists|i: int|
            first_with_its_permalink(rows, i) && #[trigger] rows[i] == y by {
            if kept.contains(y) {
                let i = choose|i: int| first_with_its_permalink(p, i) && #[trigger] p[i] == y;
                assert(rows[i] == p[i]);
                assert forall|j: int| 0 <= j < i implies (#[trigger] rows[j]).permalink@
                    != rows[i].permalink@ by {
                    assert(rows[j] == p[j]);
                }
                assert(first_with_its_permalink(rows, i));
            } else {
                assert(!has_permalink(kept, last.permalink@));
                assert(r == kept.push(last));
                let k = choose|k: int| 0 <= k < r.len() && r[k] == y;
                if k < kept.len() {
                    assert(kept[k] == y);
                    assert(kept.contains(y));
                }
                assert(y == last);
                let i = rows.len() - 1;
                assert forall|j: int| 0 <= j < i implies (#[trigger] rows[j]).permalink@
                    != rows[i].permalink@ by {
                    assert(rows[j] == p[j]);
                    assert(has_permalink(kept, p[j].permalink@));
                }
                assert(first_with_its_permalink(rows, i));
                assert(rows[i] == y);
            }
        }
    }
}

/// Of the results that share a permalink, the merge keeps the one that came
/// first, batch after batch and row after row.
pub proof fn law_merged_keeps_first_of_each_permalink(batches: Seq<Vec<SearchResult>>)
    ensures
        forall|y: SearchResult| #[trigger]
            merged(batches).contains(y) ==> exists|i: int|
                first_with_its_permalink(all_rows(batches), i) && #[trigger] all_rows(batches)[i]
                    == y,
{
    let rows = all_rows(batches);
    let d = first_by_permalink(rows);
    lemma_sort_members(d);
    lemma_first_by_permalink_keeps_first(rows);
    assert forall|y: SearchResult| #[trigger] merged(batches).contains(y) implies exists|i: int|
        first_with_its_permalink(rows, i) && #[trigger] rows[i] == y by {
        assert(d.contains(y));
    }
}

/// Whether `x` stands at some place of `rows` before a place of `y`.
pub open spec fn placed_before(rows: Seq<SearchResult>, x: SearchResult, y: SearchResult) -> bool {
    exists|a: int, b: int|
        0 <= a < b < rows.len() && #[trigger] rows[a] == x && #[trigger] rows[b] == y
}

/// Inserting puts `x` between the results that sort no later and a tail of
/// results that sort strictly later.
proof fn lemma_insert_split(s: Seq<SearchResult>, x: SearchResult)
    ensures
        exists|k: int|
            0 <= k <= s.len() && insert_by_ts(s, x) == s.take(k) + seq![x] + s.skip(k) && (forall|
                e: int,
            | k <= e < s.len() ==> !chars_le((#[trigger] s[e]).ts@, x.ts@)),
    decreases s.len(),
{
    if s.len() == 0 {
        assert(insert_by_ts(s, x) =~= s.take(0) + seq![x] + s.skip(0));
    } else if chars_le(s.last().ts@, x.ts@) {
        let k = s.len() as int;
        assert(insert_by_ts(s, x) =~= s.take(k) + seq![x] + s.skip(k));
    } else {
        let p = s.drop_last();
        lemma_insert_split(p, x);
        let k = choose|k: int|
            0 <= k <= p.len() && insert_by_ts(p, x) == p.take(k) + seq![x] + p.skip(k) && (forall|
                e: int,
            | k <= e < p.len() ==> !chars_le((#[trigger] p[e]).ts@, x.ts@));
        assert(insert_by_ts(s, x) =~= s.take(k) + seq![x] + s.skip(k));
        assert forall|e: int| k <= e < s.len() implies !chars_le((#[trigger] s[e]).ts@, x.ts@) by {
            if e < p.len() {
                assert(s[e] == p[e]);
            }
        }
    }
}

/// Sorting by timestamp is stable: of two results with the same timestamp,
/// the one placed first was placed first in the input too.
proof fn lemma_sort_stable(rows: Seq<SearchResult>)
    ensures
        forall|i: int, j: int|
            0 <= i < j < sort_by_ts(rows).len() && (#[trigger] sort_by_ts(rows)[i]).ts@ == (
            #[trigger] sort_by_ts(rows)[j]).ts@ ==> placed_before(
                rows,
                sort_by_ts(rows)[i],
                sort_by_ts(rows)[j],
            ),
    decreases rows.len(),
{
    if rows.len() > 0 {
        let p = rows.drop_last();
        let x = rows.last();
        lemma_sort_stable(p);
        lemma_sort_members(p);
        let sp = sort_by_ts(p);
        let out = sort_by_ts(rows);
        lemma_insert_split(sp, x);
        let k = choose|k: int|
            0 <= k <= sp.len() && insert_by_ts(sp, x) == sp.take(k) + seq![x] + sp.skip(k) && (
            forall|e: int| k <= e < sp.len() ==> !chars_le((#[trigger] sp[e]).ts@, x.ts@));
        assert(out == sp.take(k) + seq![x] + sp.skip(k));
        assert forall|i: int, j: int|
            0 <= i < j < out.len() && (#[trigger] out[i]).ts@ == (#[trigger] out[j]).ts@ implies placed_before(
            rows,
            out[i],
            out[j],
        ) by {
            if i == k {
                assert(out[j] == sp[j - 1]);
                lemma_chars_le_reflexive(x.ts@);
            } else if j == k {
                assert(out[i] == sp[i]);
                assert(sp.contains(sp[i]));
                let a = choose|a: int| 0 <= a < p.len() && p[a] == sp[i];
                let b = rows.len() - 1;
                assert(rows[a] == out[i] && rows[b] == out[j]);
            } else {
                let i2 = if i < k { i } else { i - 1 };
                let j2 = if j < k { j } else { j - 1 };
                assert(out[i] == sp[i2]);
                assert(out[j] == sp[j2]);
                assert(placed_before(p, sp[i2], sp[j2]));
                let (a, b) = choose|a: int, b: int|
                    0 <= a < b < p.len() && #[trigger] p[a] == sp[i2] && #[trigger] p[b] == sp[j2];
                assert(rows[a] == out[i] && rows[b] == out[j]);
            }
        }
    }
}

/// Whether `x` and `y` are first results of their permalinks in `rows`, `x`
/// coming first.
pub open spec fn first_appearances_in_order(
    rows: Seq<SearchResult>,
    x: SearchResult,
    y: SearchResult,
) -> bool {
    exists|a: int, b: int|
        a < b && first_with_its_permalink(rows, a) && first_with_its_permalink(rows, b)
            && #[trigger] rows[a] == x && #[trigger] rows[b] == y
}

/// Keeping the first result of each permalink keeps them in the order of
/// their first appearance.
proof fn lemma_first_by_permalink_order(rows: Seq<SearchResult>)
    ensures
        forall|i: int, j: int|
            0 <= i < j < first_by_permalink(rows).len() ==> first_appearances_in_order(
                rows,
                #[trigger] first_by_permalink(rows)[i],
                #[trigger] first_by_permalink(rows)[j],
            ),
    decreases rows.len(),
{
    if rows.len() > 0 {
        let p = rows.drop_last();
        let last = rows.last();
        lemma_first_by_permalink_order(p);
        lemma_first_by_permalink(p);
        lemma_first_by_permalink_keeps_first(p);
        let kept = first_by_permalink(p);
        let r = first_by_permalink(rows);
        assert forall|i: int, j: int| 0 <= i < j < r.len() implies first_appearances_in_order(
            rows,
            #[trigger] r[i],
            #[trigger] r[j],
        ) by {
            if j < kept.len() {
                assert(r[i] == kept[i] && r[j] == kept[j]);
                assert(first_appearances_in_order(p, kept[i], kept[j]));
                let (a, b) = choose|a: int, b: int|
                    a < b && first_with_its_permalink(p, a) && first_with_its_permalink(p, b)
                        && #[trigger] p[a] == kept[i] && #[trigger] p[b] == kept[j];
                assert(rows[a] == p[a] && rows[b] == p[b]);
                assert forall|m: int| 0 <= m < a implies (#[trigger] rows[m]).permalink@
                    != rows[a].permalink@ by {
                    assert(rows[m] == p[m]);
                }
                assert forall|m: int| 0 <= m < b implies (#[trigger] rows[m]).permalink@
                    != rows[b].permalink@ by {
                    assert(rows[m] == p[m]);
                }
                assert(first_with_its_permalink(rows, a) && first_with_its_permalink(rows, b));
            } else {
                assert(!has_permalink(kept, last.permalink@));
                assert(r == kept.push(last));
                assert(r[j] == last);
                assert(r[i] == kept[i]);
                assert(kept.contains(kept[i]));
                let a = choose|a: int| first_with_its_permalink(p, a) && #[trigger] p[a] == kept[i];
                let b = rows.len() - 1;
                assert(rows[a] == p[a]);
                assert forall|m: int| 0 <= m < a implies (#[trigger] rows[m]).permalink@
                    != rows[a].permalink@ by {
                    assert(rows[m] == p[m]);
                }
                assert forall|m: int| 0 <= m < b implies (#[trigger] rows[m]).permalink@
                    != rows[b].permalink@ by {
                    assert(rows[m] == p[m]);
                    assert(has_permalink(kept, p[m].permalink@));
                }
                assert(first_with_its_permalink(rows, a) && first_with_its_permalink(rows, b));
                assert(rows[b] == r[j]);
            }
        }
    }
}

/// Results with the same timestamp come in the order in which their
/// permalinks first appeared, batch after batch and row after row.
pub proof fn law_merged_ties_keep_first_seen_order(batches: Seq<Vec<SearchResult>>)
    ensures
        forall|i: int, j: int|
            0 <= i < j < merged(batches).len() && (#[trigger] merged(batches)[i]).ts@ == (
            #[trigger] merged(batches)[j]).ts@ ==> first_appearances_in_order(
                all_rows(batches),
                merged(batches)[i],
                merged(batches)[j],
            ),
{
    let rows = all_rows(batches);
    let d = first_by_permalink(rows);
    let out = merged(batches);
    lemma_sort_stable(d);
    lemma_first_by_permalink_order(d);
    lemma_first_by_permalink(rows);
    lemma_first_by_permalink_order(rows);
    assert forall|i: int, j: int|
        0 <= i < j < out.len() && (#[trigger] out[i]).ts@ == (#[trigger] out[j]).ts@ implies first_appearances_in_order(
        rows,
        out[i],
        out[j],
    ) by {
        assert(placed_before(d, out[i], out[j]));
        let (a, b) = choose|a: int, b: int|
            0 <= a < b < d.len() && #[trigger] d[a] == out[i] && #[trigger] d[b] == out[j];
        assert(first_appearances_in_order(rows, d[a], d[b]));
    }
}

/// The merged results come in ascending timestamp order.
pub proof fn law_merged_sorted(batches: Seq<Vec<SearchResult>>)
    ensures
        sorted_by_ts(merged(batches)),
{
    lemma_sort_sorted(first_by_permalink(all_rows(batches)));
}

/// The merged results hold no two results with the same permalink, each of
/// them is one of the input results, and every permalink of the input is
/// among them.
pub proof fn law_merged_dedups_by_permalink(batches: Seq<Vec<SearchResult>>)
    ensures
        distinct_permalinks(merged(batches)),
        forall|y: SearchResult| #[trigger]
            merged(batches).contains(y) ==> all_rows(batches).contains(y),
        forall|i: int|
            0 <= i < all_rows(batches).len() ==> has_permalink(
                merged(batches),
                (#[trigger] all_rows(batches)[i]).permalink@,
            ),
{
    let rows = all_rows(batches);
    let d = first_by_permalink(rows);
    lemma_first_by_permalink(rows);
    lemma_sort_distinct(d);
    lemma_sort_members(d);
    assert forall|i: int| 0 <= i < rows.len() implies has_permalink(
        merged(batches),
        (#[trigger] rows[i]).permalink@,
    ) by {
        assert(has_permalink(d, rows[i].permalink@));
        let k = choose|k: int| 0 <= k < d.len() && (#[trigger] d[k]).permalink@ == rows[i].permalink@;
        assert(d.contains(d[k]));
        assert(sort_by_ts(d).contains(d[k]));
        let m = choose|m: int| 0 <= m < sort_by_ts(d).len() && sort_by_ts(d)[m] == d[k];
        assert(merged(batches)[m].permalink@ == rows[i].permalink@);
    }
}

// ---------------------------------------------------------------------------
// The in-page search script

/// A lowercase hexadecimal digit.
pub open spec fn hex_digit(n: nat) -> char {
    if n < 10 {
        ((48 + n) as u32) as char
    } else {
        ((87 + n) as u32) as char
    }
}

/// How serde_json writes one char inside a JSON string.
pub open spec fn json_escape(c: char) -> Seq<char> {
    if c == '"' {
        seq!['\\', '"']
    } else if c == '\\' {
        seq!['\\', '\\']
    } else if c == '\x08' {
        seq!['\\', 'b']
    } else if c == '\t' {
        seq!['\\', 't']
    } else if c == '\n' {
        seq!['\\', 'n']
    } else if c == '\x0C' {
        seq!['\\', 'f']
    } else if c == '\r' {
        seq!['\\', 'r']
    } else if (c as u32) < 32 {
        seq!['\\', 'u', '0', '0', hex_digit((c as nat) / 16), hex_digit((c as nat) % 16)]
    } else {
        seq![c]
    }
}

/// The value of a hexadecimal digit.
pub open spec fn hex_value(c: char) -> Option<int> {
    if '0' <= c <= '9' {
        Some(c as int - 48)
    } else if 'a' <= c <= 'f' {
        Some(c as int - 87)
    } else if 'A' <= c <= 'F' {
        Some(c as int - 55)
    } else {
        None
    }
}

/// The escaped chars of `s`.
pub open spec fn json_escaped(s: Seq<char>) -> Seq<char>
    decreases s.len(),
{
    if s.len() == 0 {
        Seq::empty()
    } else {
        json_escaped(s.drop_last()) + json_escape(s.last())
    }
}

/// `s` as a JSON string literal, as serde_json writes it.
pub open spec fn json_string_literal(s: Seq<char>) -> Seq<char> {
    seq!['"'] + json_escaped(s) + seq!['"']
}

/// The char a two-char JSON escape `\\e` stands for.
pub open spec fn json_short_escape(e: char) -> Option<char> {
    if e == '"' {
        Some('"')
    } else if e == '\\' {
        Some('\\')
    } else if e == '/' {
        Some('/')
    } else if e == 'b' {
        Some('\x08')
    } else if e == 'f' {
        Some('\x0C')
    } else if e == 'n' {
        Some('\n')
    } else if e == 'r' {
        Some('\r')
    } else if e == 't' {
        Some('\t')
    } else {
        None
    }
}

/// `c` in front of a decoded text, if there is one.
pub open spec fn json_cons(c: char, rest: Option<Seq<char>>) -> Option<Seq<char>> {
    match rest {
        Some(r) => Some(seq![c] + r),
        None => None,
    }
}

/// The text that the body of a JSON string literal (what stands between its
/// quotes) denotes, read left to right; `None` where the body is not valid
/// JSON: a bare `"` or control char, an unknown escape, or a `\\u` escape of
/// a surrogate.
pub open spec fn json_unescape(t: Seq<char>) -> Option<Seq<char>>
    decreases t.len(),
{
    if t.len() == 0 {
        Some(Seq::empty())
    } else if t[0] == '\\' {
        if t.len() >= 2 && json_short_escape(t[1]) is Some {
            json_cons(json_short_escape(t[1])->0, json_unescape(t.skip(2)))
        } else if t.len() >= 6 && t[1] == 'u' && hex_value(t[2]) is Some && hex_value(t[3]) is Some
            && hex_value(t[4]) is Some && hex_value(t[5]) is Some {
            let code = hex_value(t[2])->0 * 4096 + hex_value(t[3])->0 * 256 + hex_value(t[4])->0 * 16
                + hex_value(t[5])->0;
            if code < 0xD800 || 0xDFFF < code {
                json_cons((code as u32) as char, json_unescape(t.skip(6)))
            } else {
                None
            }
        } else {
            None
        }
    } else if t[0] == '"' || (t[0] as u32) < 32 {
        None
    } else {
        json_cons(t[0], json_unescape(t.skip(1)))
    }
}

/// Escaping a text char by char, from the front.
proof fn lemma_json_escaped_front(c: char, s: Seq<char>)
    ensures
        json_escaped(seq![c] + s) == json_escape(c) + json_escaped(s),
    decreases s.len(),
{
    if s.len() == 0 {
        assert(seq![c] + s =~= seq![c]);
        assert(seq![c].drop_last() =~= Seq::<char>::empty());
        assert(json_escaped(Seq::<char>::empty()) =~= Seq::<char>::empty());
        assert(json_escaped(seq![c]) =~= json_escaped(Seq::<char>::empty()) + json_escape(c));
        assert(json_escaped(seq![c]) =~= json_escape(c));
    } else {
        let w = seq![c] + s;
        assert(w.drop_last() =~= seq![c] + s.drop_last());
        assert(w.last() == s.last());
        lemma_json_escaped_front(c, s.drop_last());
        assert(json_escaped(w) =~= json_escape(c) + json_escaped(s));
    }
}

/// A lowercase hexadecimal digit reads back as its value.
proof fn lemma_hex_digit_value(n: nat)
    requires
        n < 16,
    ensures
        hex_value(hex_digit(n)) == Some(n as int),
{
}

/// Decoding the escape of one char gives that char back, in front of
/// whatever follows decodes to.
proof fn lemma_json_unescape_one(c: char, rest: Seq<char>)
    ensures
        json_unescape(json_escape(c) + rest) == json_cons(c, json_unescape(rest)),
{
    let t = json_escape(c) + rest;
    if c == '"' || c == '\\' || c == '\x08' || c == '\t' || c == '\n' || c == '\x0C' || c == '\r' {
        assert(t.skip(2) =~= rest);
    } else if (c as u32) < 32 {
        let n = c as nat;
        lemma_hex_digit_value(0);
        lemma_hex_digit_value(n / 16);
        lemma_hex_digit_value(n % 16);
        assert(t[2] == '0' && t[3] == '0');
        assert(t[4] == hex_digit(n / 16) && t[5] == hex_digit(n % 16));
        assert(t.skip(6) =~= rest);
        assert(n == (n / 16) * 16 + n % 16);
    } else {
        assert(t.skip(1) =~= rest);
    }
}

/// The escaped text decodes back to the text.
proof fn lemma_json_unescape_escaped(s: Seq<char>)
    ensures
        json_unescape(json_escaped(s)) == Some(s),
    decreases s.len(),
{
    if s.len() == 0 {
    } else {
        let rest = s.skip(1);
        assert(s =~= seq![s[0]] + rest);
        lemma_json_escaped_front(s[0], rest);
        lemma_json_unescape_escaped(rest);
        lemma_json_unescape_one(s[0], json_escaped(rest));
    }
}

/// The script's query literal is a JSON string that denotes exactly the
/// query: it opens and closes with `"`, and what stands between the quotes
/// is valid JSON string content that decodes back to the query.
pub proof fn law_query_literal_decodes_to_query(query: Seq<char>)
    ensures
        json_string_literal(query).len() >= 2,
        json_string_literal(query)[0] == '"',
        json_string_literal(query).last() == '"',
        json_unescape(
            json_string_literal(query).subrange(1, json_string_literal(query).len() - 1),
        ) == Some(query),
{
    let lit = json_string_literal(query);
    assert(lit.subrange(1, lit.len() - 1) =~= json_escaped(query));
    lemma_json_unescape_escaped(query);
}

/// Calls `serde_json::to_string` on a string slice: a JSON string literal
/// that escapes `"`, `\` and the control chars below U+0020 (with short
/// escapes where JSON has them, else `\u00xx` in lowercase hex) and writes
/// every other char as is. Writing a `str` into memory cannot fail, so the
/// error arm is never taken.
#[verifier::external_body]
fn json_quote(s: &str) -> (r: String)
    ensures
        r@ == json_string_literal(s@),
{
    match serde_json::to_string(s) {
        Ok(t) => t,
        Err(_) => String::new(),
    }
}

/// The rest of the script with the page size and the per-query cap filled
/// in.
pub open spec fn script_tail_text() -> Seq<char> {
    replace_all(
        replace_all(SEARCH_JS_TAIL@, "__PER_PAGE__"@, decimal(PER_PAGE as nat)),
        "__MAX__"@,
        decimal(MAX_PER_QUERY as nat),
    )
}

/// The search script for `query`: the head, which ends in `const QUERY = `,
/// then the query as a JSON string literal and `;`, then the rest of the
/// script with the page size and the per-query cap filled in. Nothing of the
/// query is rewritten.
pub open spec fn search_script_text(query: Seq<char>) -> Seq<char> {
    SEARCH_JS_HEAD@ + json_string_literal(query) + seq![';'] + script_tail_text()
}

/// The in-page script for one per-scope query.
pub fn search_script(query: &str) -> (r: String)
    ensures
        r@ == search_script_text(query@),
        r@ == SEARCH_JS_HEAD@ + json_string_literal(query@) + seq![';'] + filled_template_tail(),
{
    proof {
        law_script_tail_is_template_filled();
    }
    proof {
        reveal_strlit("__PER_PAGE__");
        reveal_strlit("__MAX__");
    }
    let tail = chars_of(SEARCH_JS_TAIL);
    let tail = replace_chars(&tail, &chars_of("__PER_PAGE__"), &decimal_chars(PER_PAGE as u64));
    let tail = replace_chars(&tail, &chars_of("__MAX__"), &decimal_chars(MAX_PER_QUERY as u64));
    let mut js = chars_of(SEARCH_JS_HEAD);
    extend_chars(&mut js, &chars_of(json_quote(query).as_str()));
    js.push(';');
    extend_chars(&mut js, &tail);
    string_from_chars(&js)
}

/// `SEARCH_JS_TAIL` with `__PER_PAGE__` set to `100` and `__MAX__` to
/// `1000`, and nothing else changed.
pub open spec fn filled_template_tail() -> Seq<char> {
    replace_all(replace_all(SEARCH_JS_TAIL@, "__PER_PAGE__"@, "100"@), "__MAX__"@, "1000"@)
}

/// The rest of the script is the template's text with only the page size
/// (100) and the per-query cap (1000) filled in.
pub proof fn law_script_tail_is_template_filled()
    ensures
        script_tail_text() == filled_template_tail(),
{
    reveal_strlit("100");
    reveal_strlit("1000");
    reveal_with_fuel(decimal, 5);
    assert(decimal(100) =~= "100"@);
    assert(decimal(1000) =~= "1000"@);
}

/// The script binds `QUERY` to the JSON string literal of the query, as a
/// statement of its own: the text before the literal is the same for every
/// query and ends in `const QUERY = `, a `;` follows the literal, and the
/// text after it is the same for every query.
pub proof fn law_script_binds_query_verbatim(query: Seq<char>)
    ensures
        search_script_text(query) == SEARCH_JS_HEAD@ + json_string_literal(query) + seq![';']
            + script_tail_text(),
        "const QUERY = "@.is_suffix_of(SEARCH_JS_HEAD@),
{
    reveal_strlit("const QUERY = ");
    reveal_strlit("\n(async () => {\n  const QUERY = ");
}

/// The `@me` rewrite of the script, as it stands in the template.
pub open spec fn me_rewrite_text() -> Seq<char> {
    "const query = QUERY.replace(/from:@me\\b/g, 'from:<@' + userId + '>')\n                     .replace(/to:@me\\b/g, 'to:<@' + userId + '>');"@
}

/// Whatever the query, the script rewrites `from:@me` to the signed-in
/// user's sender mention `from:<@id>` and `to:@me` to the recipient mention
/// `to:<@id>` before it calls the search endpoint: filling in the page size
/// and the cap leaves that statement as it is.
pub proof fn law_script_expands_me_to_mentions(query: Seq<char>)
    ensures
        occurs_in(me_rewrite_text(), search_script_text(query)),
{
    let w = me_rewrite_text();
    reveal_strlit("const query = QUERY.replace(/from:@me\\b/g, 'from:<@' + userId + '>')\n                     .replace(/to:@me\\b/g, 'to:<@' + userId + '>');");
    reveal_strlit("__PER_PAGE__");
    reveal_strlit("__MAX__");
    // The template, char by char.
    reveal_strlit(r#"
  const PER_PAGE = __PER_PAGE__;
  const MAX = __MAX__;

  const cfg = JSON.parse(localStorage.localConfig_v2 || '{}');
  const teams = cfg.teams || {};
  const activeId = cfg.lastActiveTeamId || Object.keys(teams)[0];
  const t = teams[activeId] || {};
  const token = t.token;
  if (!token) return { error: 'not_authenticated' };
  const teamBase = (t.url || location.origin).replace(/\/$/, '');
  // The authenticated user id lives under `user_id` in current client builds
  // and `self_id` in older ones (see examples/api_discover.rs) — read both so
  // the @me guard below only fires when neither is present.
  const userId = t.user_id || t.self_id || '';

  // Edge-routing query string. Prefer harvesting it from a live /api/ call (the
  // most faithful, picks up the current build params); otherwise rebuild a
  // deterministic minimal set from local config that is known to be accepted.
  let qs = '';
  try {
    const apiUrls = performance.getEntriesByType('resource').map(e => e.name)
      .filter(n => /\/api\/[a-zA-Z]/.test(n));
    qs = new URL(apiUrls[apiUrls.length - 1] || '').search;
  } catch (e) {}
  if (!/[?&]slack_route=/.test(qs)) {
    const p = new URLSearchParams();
    p.set('slack_route', activeId);
    if (t.versionDataTs) p.set('_x_version_ts', String(t.versionDataTs));
    p.set('_x_frontend_build_type', 'current');
    p.set('_x_desktop_ia', '4');
    p.set('_x_gantry', 'true');
    qs = '?' + p.toString();
  }

  // `@me` is a UI-only token the API doesn't resolve — expand to the encoded
  // user mention so `from:`/`to:` scope to the authenticated user. If the query
  // asks for `@me` but local config carries no user_id, fail loudly: replaying
  // the bare token makes the API return zero rows, which reads as "no matches"
  // rather than the misconfiguration it is.
  const wantsMe = /(?:from|to):@me\b/.test(QUERY);
  if (wantsMe && !userId) return { error: 'no_user_id' };
  const query = QUERY.replace(/from:@me\b/g, 'from:<@' + userId + '>')
                     .replace(/to:@me\b/g, 'to:<@' + userId + '>');

  async function fetchPage(page) {
    const f = new URLSearchParams();
    f.set('token', token);
    f.set('module', 'messages');
    f.set('query', query);
    f.set('count', String(PER_PAGE));
    f.set('page', String(page));
    f.set('sort', 'timestamp');
    f.set('sort_dir', 'asc');
    f.set('highlight', '0');
    f.set('extracts', '0');
    f.set('extra_message_data', '1');
    f.set('no_user_profile', '1');
    const res = await fetch(teamBase + '/api/search.modules.messages' + qs, {
      method: 'POST',
      headers: { 'Content-Type': 'application/x-www-form-urlencoded' },
      body: f.toString(),
      credentials: 'include',
      mode: 'cors',
    });
    return res.json();
  }

  const results = [];
  let total = 0;
  let page = 1, pageCount = 1;
  do {
    let j;
    try { j = await fetchPage(page); }
    catch (e) { return { error: 'fetch_failed: ' + String(e) }; }
    if (!j || !j.ok) return { error: (j && j.error) || 'api_error' };
    if (page === 1) total = (j.pagination && j.pagination.total_count) || 0;
    pageCount = (j.pagination && j.pagination.page_count) || 1;
    for (const item of (j.items || [])) {
      const ch = item.channel || {};
      for (const m of (item.messages || [])) {
        results.push({
          ts: m.ts || '',
          channel: ch.name || ch.id || '',
          author: m.username || m.user || '',
          text: m.text || '',
          permalink: m.permalink || '',
        });
        if (results.length >= MAX) return { results, total };
      }
    }
    page++;
  } while (page <= pageCount);
  return { results, total };
})()
"#);
    let t = SEARCH_JS_TAIL@;
    let k: int = 1933;
    let x = t.take(k);
    let y = t.skip(k + w.len());
    assert(t.subrange(k, k + w.len()) =~= w);
    assert(t =~= x + w + y);
    assert(!w.contains('_')) by {
        if w.contains('_') {
            let i = choose|i: int| 0 <= i < w.len() && w[i] == '_';
        }
    }
    assert(!"__PER_PAGE__"@.contains('c'));
    assert(!"__MAX__"@.contains('c'));
    let pp = "__PER_PAGE__"@;
    let pm = "__MAX__"@;
    let rp = decimal(PER_PAGE as nat);
    let rm = decimal(MAX_PER_QUERY as nat);
    lemma_replace_all_keeps_run(x, w, y, pp, rp);
    let x1 = replace_all(x, pp, rp);
    let y1 = replace_all(y, pp, rp);
    lemma_replace_all_keeps_run(x1, w, y1, pm, rm);
    let x2 = replace_all(x1, pm, rm);
    let y2 = replace_all(y1, pm, rm);
    assert(script_tail_text() == x2 + w + y2);
    let pre = SEARCH_JS_HEAD@ + json_string_literal(query) + seq![';'] + x2;
    let full = search_script_text(query);
    assert(full =~= pre + w + y2);
    assert(full.subrange(pre.len() as int, pre.len() + w.len() as int) =~= w);
}

/// The in-page search, evaluated against the authenticated Slack page. It
/// reads the active team's token and base URL from `localConfig_v2`, expands
/// `@me`, then pages through `search.modules.messages` and returns flattened
/// rows. The script is `SEARCH_JS_HEAD`, the query as a JSON string and `;`
/// (put in by `search_script`), then `SEARCH_JS_TAIL`, whose `__PER_PAGE__`
/// and `__MAX__` `search_script` fills in.
pub const SEARCH_JS_HEAD: &'static str = r#"
(async () => {
  const QUERY = "#;

/// The search script after the query literal and its `;`; see
/// `SEARCH_JS_HEAD`.
pub const SEARCH_JS_TAIL: &'static str = r#"
  const PER_PAGE = __PER_PAGE__;
  const MAX = __MAX__;

  const cfg = JSON.parse(localStorage.localConfig_v2 || '{}');
  const teams = cfg.teams || {};
  const activeId = cfg.lastActiveTeamId || Object.keys(teams)[0];
  const t = teams[activeId] || {};
  const token = t.token;
  if (!token) return { error: 'not_authenticated' };
  const teamBase = (t.url || location.origin).replace(/\/$/, '');
  // The authenticated user id lives under `user_id` in current client builds
  // and `self_id` in older ones (see examples/api_discover.rs) — read both so
  // the @me guard below only fires when neither is present.
  const userId = t.user_id || t.self_id || '';

  // Edge-routing query string. Prefer harvesting it from a live /api/ call (the
  // most faithful, picks up the current build params); otherwise rebuild a
  // deterministic minimal set from local config that is known to be accepted.
  let qs = '';
  try {
    const apiUrls = performance.getEntriesByType('resource').map(e => e.name)
      .filter(n => /\/api\/[a-zA-Z]/.test(n));
    qs = new URL(apiUrls[apiUrls.length - 1] || '').search;
  } catch (e) {}
  if (!/[?&]slack_route=/.test(qs)) {
    const p = new URLSearchParams();
    p.set('slack_route', activeId);
    if (t.versionDataTs) p.set('_x_version_ts', String(t.versionDataTs));
    p.set('_x_frontend_build_type', 'current');
    p.set('_x_desktop_ia', '4');
    p.set('_x_gantry', 'true');
    qs = '?' + p.toString();
  }

  // `@me` is a UI-only token the API doesn't resolve — expand to the encoded
  // user mention so `from:`/`to:` scope to the authenticated user. If the query
  // asks for `@me` but local config carries no user_id, fail loudly: replaying
  // the bare token makes the API return zero rows, which reads as "no matches"
  // rather than the misconfiguration it is.
  const wantsMe = /(?:from|to):@me\b/.test(QUERY);
  if (wantsMe && !userId) return { error: 'no_user_id' };
  const query = QUERY.replace(/from:@me\b/g, 'from:<@' + userId + '>')
                     .replace(/to:@me\b/g, 'to:<@' + userId + '>');

  async function fetchPage(page) {
    const f = new URLSearchParams();
    f.set('token', token);
    f.set('module', 'messages');
    f.set('query', query);
    f.set('count', String(PER_PAGE));
    f.set('page', String(page));
    f.set('sort', 'timestamp');
    f.set('sort_dir', 'asc');
    f.set('highlight', '0');
    f.set('extracts', '0');
    f.set('extra_message_data', '1');
    f.set('no_user_profile', '1');
    const res = await fetch(teamBase + '/api/search.modules.messages' + qs, {
      method: 'POST',
      headers: { 'Content-Type': 'application/x-www-form-urlencoded' },
      body: f.toString(),
      credentials: 'include',
      mode: 'cors',
    });
    return res.json();
  }

  const results = [];
  let total = 0;
  let page = 1, pageCount = 1;
  do {
    let j;
    try { j = await fetchPage(page); }
    catch (e) { return { error: 'fetch_failed: ' + String(e) }; }
    if (!j || !j.ok) return { error: (j && j.error) || 'api_error' };
    if (page === 1) total = (j.pagination && j.pagination.total_count) || 0;
    pageCount = (j.pagination && j.pagination.page_count) || 1;
    for (const item of (j.items || [])) {
      const ch = item.channel || {};
      for (const m of (item.messages || [])) {
        results.push({
          ts: m.ts || '',
          channel: ch.name || ch.id || '',
          author: m.username || m.user || '',
          text: m.text || '',
          permalink: m.permalink || '',
        });
        if (results.length >= MAX) return { results, total };
      }
    }
    page++;
  } while (page <= pageCount);
  return { results, total };
})()
"#;

} // verus!
