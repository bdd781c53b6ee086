//! Timestamps, the relative-duration grammar, and remaining-time labels.
//!
//! An absolute point in time is carried as a number of seconds since the
//! Unix epoch. The library keeps every stored timestamp inside the range
//! that the four-digit-year text form `YYYY-MM-DD HH:MM:SS` can carry;
//! chrono renders and reads that text form behind trusted wrappers, while
//! the duration grammar `<int><unit>` (units `w d h m s`) is parsed and
//! summed by verified code.

use vstd::prelude::*;

use crate::text::{all_digits, dec_val, is_digit, dec_digits, lemma_dec_val_extend_ge,
    chars_to_string, u64_to_string};

verus! {

/// Largest timestamp the library stores: 9999-12-31 23:59:59 UTC.
pub const TS_MAX: i64 = 253402300799;

/// Seconds in a week.
pub const WEEK_SECS: u32 = 604800;

/// Seconds in a day.
pub const DAY_SECS: u32 = 86400;

/// Seconds in an hour.
pub const HOUR_SECS: u32 = 3600;

/// Seconds in a minute.
pub const MINUTE_SECS: u32 = 60;

/// A timestamp the library is willing to store and render.
pub open spec fn ts_in_range(t: int) -> bool {
    0 <= t <= TS_MAX
}

/// Clamps an arbitrary timestamp into the storable range.
pub fn clamp_ts(t: i64) -> (r: i64)
    ensures
        ts_in_range(r as int),
        ts_in_range(t as int) ==> r == t,
{
    if t < 0 {
        0
    } else if t > TS_MAX {
        TS_MAX
    } else {
        t
    }
}

/// The 19-character text form `YYYY-MM-DD HH:MM:SS` of a storable
/// timestamp, as chrono renders it in UTC.
pub uninterp spec fn ts_text(t: int) -> Seq<char>;

/// Characters that may appear in a timestamp's text form.
pub open spec fn is_date_char(c: char) -> bool {
    is_digit(c) || c == '-' || c == ' ' || c == ':'
}

/// A string made only of timestamp-text characters; in particular one
/// holding no quote and no backslash.
pub open spec fn plain_text(s: Seq<char>) -> bool {
    forall|i: int| 0 <= i < s.len() ==> is_date_char(#[trigger] s[i])
}

/// Relies on chrono's `DateTime::from_timestamp` and the
/// `%Y-%m-%d %H:%M:%S` format: a timestamp between 1970 and 9999 renders
/// as the 19-character date-time text, zero-padded, a pure function of
/// the timestamp made of digits, `-`, space and `:` only.
#[verifier::external_body]
pub(crate) fn format_ts(t: i64) -> (r: String)
    requires
        ts_in_range(t as int),
    ensures
        r@ == ts_text(t as int),
        r@.len() == 19,
        plain_text(r@),
{
    let dt = chrono::DateTime::from_timestamp(t, 0).expect("timestamp in range");
    dt.format("%Y-%m-%d %H:%M:%S").to_string()
}

/// Relies on chrono's `NaiveDateTime::parse_from_str` with the same
/// format string: it consumes the whole input or fails, and parsing is
/// the inverse of formatting, so the text of a storable timestamp parses
/// back to exactly that timestamp.
#[verifier::external_body]
pub(crate) fn parse_ts(s: &str) -> (r: Option<i64>)
    ensures
        forall|t: i64| ts_in_range(t as int) && s@ == ts_text(t as int) ==> r == Some(t),
{
    match chrono::NaiveDateTime::parse_from_str(s, "%Y-%m-%d %H:%M:%S") {
        Ok(dt) => Some(dt.and_utc().timestamp()),
        Err(_) => None,
    }
}

/// Relies on chrono's `Utc::now` for the current Unix timestamp; nothing
/// is assumed of the clock's value.
#[verifier::external_body]
fn now_ts() -> i64 {
    chrono::Utc::now().timestamp()
}

/// The current time, clamped into the storable range.
pub fn now_in_range() -> (r: i64)
    ensures
        ts_in_range(r as int),
{
    clamp_ts(now_ts())
}

/// Parses the absolute fallback form: the text `YYYY-MM-DD HH:MM` with
/// seconds defaulted to zero. Only storable timestamps are accepted.
pub fn parse_absolute(s: &str) -> (r: Option<i64>)
    ensures
        forall|t: i64|
            ts_in_range(t as int) && s@ + ":00"@ == ts_text(t as int) ==> r == Some(t),
        r matches Some(t) ==> ts_in_range(t as int),
{
    let full = String::from_str(s).concat(":00");
    match parse_ts(full.as_str()) {
        Some(t) => {
            if 0 <= t && t <= TS_MAX {
                Some(t)
            } else {
                None
            }
        },
        None => None,
    }
}

// ---------------------------------------------------------------------
// The relative-duration grammar: space-separated `<int><unit>` tokens.
// ---------------------------------------------------------------------

/// Seconds that one unit letter stands for; zero marks a non-unit.
pub open spec fn unit_secs(c: char) -> int {
    if c == 'w' {
        WEEK_SECS as int
    } else if c == 'd' {
        DAY_SECS as int
    } else if c == 'h' {
        HOUR_SECS as int
    } else if c == 'm' {
        MINUTE_SECS as int
    } else if c == 's' {
        1
    } else {
        0
    }
}

/// Whether `c` is one of the five duration units.
pub open spec fn is_unit(c: char) -> bool {
    unit_secs(c) != 0
}

/// Whether a numeral is a well-formed signed integer that fits `i64`.
pub open spec fn numeral_ok(u: Seq<char>) -> bool {
    &&& u.len() > 0
    &&& all_digits(if u[0] == '-' || u[0] == '+' {
        u.drop_first()
    } else {
        u
    })
    &&& -0x8000_0000_0000_0000 <= numeral_val(u) <= 0x7fff_ffff_ffff_ffff
}

/// The signed value of a numeral.
pub open spec fn numeral_val(u: Seq<char>) -> int {
    if u.len() > 0 && u[0] == '-' {
        -(dec_val(u.drop_first()) as int)
    } else if u.len() > 0 && u[0] == '+' {
        dec_val(u.drop_first()) as int
    } else {
        dec_val(u) as int
    }
}

/// Whether one token is `<int><unit>`.
pub open spec fn token_ok(t: Seq<char>) -> bool {
    t.len() >= 1 && is_unit(t.last()) && numeral_ok(t.drop_last())
}

/// Seconds one token stands for.
pub open spec fn token_secs(t: Seq<char>) -> int {
    numeral_val(t.drop_last()) * unit_secs(t.last())
}

/// Length of the leading run of non-space characters.
pub open spec fn tok_len(s: Seq<char>) -> nat
    decreases s.len(),
{
    if s.len() == 0 {
        0
    } else if s[0] == ' ' {
        0
    } else {
        (1 + tok_len(s.drop_first())) as nat
    }
}

/// `tok_len` is the position of the first space, or the length.
pub proof fn lemma_tok_len_at(s: Seq<char>, k: int)
    requires
        0 <= k <= s.len(),
        forall|j: int| 0 <= j < k ==> s[j] != ' ',
        k < s.len() ==> s[k] == ' ',
    ensures
        tok_len(s) == k,
    decreases s.len(),
{
    if s.len() > 0 && s[0] != ' ' {
        let d = s.drop_first();
        assert(forall|j: int| 0 <= j < k - 1 ==> d[j] == s[j + 1] && s[j + 1] != ' ');
        lemma_tok_len_at(d, k - 1);
    }
}

/// Whether the whole expression is well-formed: every space-separated
/// token is `<int><unit>`.
pub open spec fn expr_ok(s: Seq<char>) -> bool
    decreases s.len(),
{
    let e = tok_len(s) as int;
    if e >= s.len() {
        token_ok(s)
    } else {
        token_ok(s.subrange(0, e)) && expr_ok(s.subrange(e + 1, s.len() as int))
    }
}

/// The sum of seconds over all tokens of a well-formed expression.
pub open spec fn expr_secs(s: Seq<char>) -> int
    decreases s.len(),
{
    let e = tok_len(s) as int;
    if e >= s.len() {
        token_secs(s)
    } else {
        token_secs(s.subrange(0, e)) + expr_secs(s.subrange(e + 1, s.len() as int))
    }
}

/// Why a due-date expression was rejected.
#[derive(Clone, Copy, PartialEq, Eq, Structural, Debug)]
pub enum TimeError {
    /// Some token is not `<int><unit>`.
    Invalid,
    /// The expression is well-formed but lands outside the storable range.
    OutOfRange,
}

/// The user-facing message for a rejected due-date expression.
pub fn time_error_message(e: &TimeError) -> (r: String)
    ensures
        e is Invalid ==> r@ == "Invalid time format"@,
        e is OutOfRange ==> r@ == "Due date out of range"@,
{
    match e {
        TimeError::Invalid => String::from_str("Invalid time format"),
        TimeError::OutOfRange => String::from_str("Due date out of range"),
    }
}

/// Finds the end of the token that starts at `i`: the index of the next
/// space, or the length.
fn find_token_end(s: &str, i: usize) -> (e: usize)
    requires
        i <= s@.len(),
    ensures
        i <= e <= s@.len(),
        e - i == tok_len(s@.subrange(i as int, s@.len() as int)),
        forall|j: int| i <= j < e ==> s@[j] != ' ',
        e < s@.len() ==> s@[e as int] == ' ',
{
    let len = s.unicode_len();
    let mut j: usize = i;
    while j < len && s.get_char(j) != ' '
        invariant
            i <= j <= len,
            len == s@.len(),
            forall|k: int| i <= k < j ==> s@[k] != ' ',
        decreases len - j,
    {
        j = j + 1;
    }
    proof {
        let u = s@.subrange(i as int, s@.len() as int);
        assert(forall|k: int| 0 <= k < j - i ==> u[k] == s@[k + i] && s@[k + i] != ' ');
        lemma_tok_len_at(u, j - i);
    }
    j
}

/// Parses the numeral of one token, `s[i..e]`; `None` when it is not a
/// well-formed signed integer fitting `i64`.
fn parse_numeral(s: &str, i: usize, e: usize) -> (r: Option<i64>)
    requires
        i <= e <= s@.len(),
    ensures
        r is Some <==> numeral_ok(s@.subrange(i as int, e as int)),
        r matches Some(v) ==> v as int == numeral_val(s@.subrange(i as int, e as int)),
{
    let ghost u = s@.subrange(i as int, e as int);
    if i == e {
        return None;
    }
    let c0 = s.get_char(i);
    let neg = c0 == '-';
    let signed = neg || c0 == '+';
    let d0: usize = if signed {
        i + 1
    } else {
        i
    };
    let ghost dg = if signed {
        u.drop_first()
    } else {
        u
    };
    proof {
        assert(dg =~= s@.subrange(d0 as int, e as int));
    }
    if d0 == e {
        return None;
    }
    let limit: u64 = if neg {
        9223372036854775808
    } else {
        9223372036854775807
    };
    let mut mag: u64 = 0;
    let mut j: usize = d0;
    while j < e
        invariant
            i < e,
            i <= d0 <= j <= e <= s@.len(),
            u == s@.subrange(i as int, e as int),
            dg == s@.subrange(d0 as int, e as int),
            neg == (u[0] == '-'),
            dg == (if u[0] == '-' || u[0] == '+' {
                u.drop_first()
            } else {
                u
            }),
            limit == if neg {
                9223372036854775808u64
            } else {
                9223372036854775807u64
            },
            mag <= limit,
            forall|k: int| 0 <= k < j - d0 ==> is_digit(#[trigger] dg[k]),
            mag as nat == dec_val(dg.subrange(0, j - d0)),
        decreases e - j,
    {
        let c = s.get_char(j);
        let uu = c as u32;
        if uu < 48 || uu > 57 {
            proof {
                assert(!is_digit(dg[j - d0]));
                assert(!all_digits(dg));
                assert(!numeral_ok(u));
            }
            return None;
        }
        let d = (uu - 48) as u64;
        proof {
            let pre = dg.subrange(0, j - d0 + 1);
            assert(pre.drop_last() =~= dg.subrange(0, j - d0));
            assert(pre.last() == dg[j - d0]);
        }
        if mag > (limit - d) / 10 {
            proof {
                let pre = dg.subrange(0, j - d0 + 1);
                lemma_dec_val_extend_ge(pre, dg);
                assert(mag * 10 + d > limit) by (nonlinear_arith)
                    requires
                        mag > (limit - d) / 10,
                        0 <= d < 10,
                        mag >= 0,
                        limit >= 0,
                ;
                assert(dec_val(dg) > limit as nat);
                assert(!numeral_ok(u));
            }
            return None;
        }
        proof {
            assert(mag * 10 + d <= limit) by (nonlinear_arith)
                requires
                    mag <= (limit - d) / 10,
                    0 <= d < 10,
                    mag >= 0,
                    limit >= d,
            ;
        }
        mag = mag * 10 + d;
        j = j + 1;
    }
    proof {
        assert(dg.subrange(0, e - d0) =~= dg);
    }
    if neg {
        if mag == 9223372036854775808 {
            Some(i64::MIN)
        } else {
            Some(-(mag as i64))
        }
    } else {
        Some(mag as i64)
    }
}

/// Seconds for one unit letter; zero marks a non-unit.
fn unit_secs_exec(c: char) -> (r: u32)
    ensures
        r as int == unit_secs(c),
{
    if c == 'w' {
        WEEK_SECS
    } else if c == 'd' {
        DAY_SECS
    } else if c == 'h' {
        HOUR_SECS
    } else if c == 'm' {
        MINUTE_SECS
    } else if c == 's' {
        1
    } else {
        0
    }
}

/// An upper bound on the magnitude of any one token's seconds.
proof fn lemma_token_secs_bound(t: Seq<char>)
    requires
        token_ok(t),
    ensures
        -tok_bound() <= token_secs(t) <= tok_bound(),
{
    let n = numeral_val(t.drop_last());
    let u = unit_secs(t.last());
    assert(1 <= u <= 604800);
    assert(n * u <= tok_bound() && n * u >= -tok_bound()) by (nonlinear_arith)
        requires
            -0x8000_0000_0000_0000 <= n <= 0x7fff_ffff_ffff_ffff,
            1 <= u <= 604800,
            tok_bound() == 6000000000000000000000000,
    ;
}

/// A round upper bound on the magnitude of any one token's seconds.
pub open spec fn tok_bound() -> int {
    6000000000000000000000000
}

/// An upper bound on the magnitude of a whole expression's seconds.
proof fn lemma_expr_secs_bound(s: Seq<char>)
    requires
        expr_ok(s),
    ensures
        -(s.len() + 1) * tok_bound() <= expr_secs(s) <= (s.len() + 1) * tok_bound(),
    decreases s.len(),
{
    let big: int = tok_bound();
    let e = tok_len(s) as int;
    if e >= s.len() {
        lemma_token_secs_bound(s);
        assert((s.len() + 1) * big >= 1 * big) by (nonlinear_arith)
            requires
                big > 0,
                s.len() >= 0,
        ;
    } else {
        let rest = s.subrange(e + 1, s.len() as int);
        lemma_token_secs_bound(s.subrange(0, e));
        lemma_expr_secs_bound(rest);
        assert((rest.len() + 1) * big + big == (s.len() - e + 1) * big) by (nonlinear_arith)
            requires
                rest.len() == s.len() - e - 1,
        ;
        assert((s.len() - e + 1) * big <= (s.len() + 1) * big) by (nonlinear_arith)
            requires
                big > 0,
                e >= 0,
                s.len() >= 0,
        ;
    }
}

/// Parses a whole relative-duration expression into seconds.
///
/// The length bound keeps the running sum inside `i128`.
pub fn parse_duration_secs(s: &str) -> (r: Option<i128>)
    requires
        s@.len() <= 100_000_000,
    ensures
        r is Some <==> expr_ok(s@),
        r matches Some(v) ==> v as int == expr_secs(s@),
{
    let len = s.unicode_len();
    let ghost big: int = tok_bound();
    let mut acc: i128 = 0;
    let mut i: usize = 0;
    proof {
        assert(s@.subrange(0, len as int) =~= s@);
    }
    loop
        invariant
            i <= len + 1,
            i <= len || i == len + 1,
            len == s@.len(),
            len <= 100_000_000,
            big == tok_bound(),
            -(i as int) * big <= acc as int <= (i as int) * big,
            expr_ok(s@) <==> (i <= len && expr_ok(s@.subrange(i as int, len as int))),
            expr_ok(s@) ==> expr_secs(s@) == acc as int + expr_secs(
                s@.subrange(i as int, len as int),
            ),
            i > len ==> !expr_ok(s@),
        decreases len + 1 - i,
    {
        if i > len {
            return None;
        }
        let ghost suffix = s@.subrange(i as int, len as int);
        let e = find_token_end(s, i);
        proof {
            assert(suffix.subrange(0, e - i) =~= s@.subrange(i as int, e as int));
            if (e as int) < len {
                assert(suffix.subrange(e - i + 1, suffix.len() as int) =~= s@.subrange(
                    e as int + 1,
                    len as int,
                ));
            }
        }
        if e == i {
            // an empty token: the expression is malformed
            return None;
        }
        let unit = unit_secs_exec(s.get_char(e - 1));
        if unit == 0 {
            return None;
        }
        let num = match parse_numeral(s, i, e - 1) {
            Some(v) => v,
            None => {
                proof {
                    let tok = s@.subrange(i as int, e as int);
                    assert(tok.drop_last() =~= s@.subrange(i as int, e as int - 1));
                }
                return None;
            },
        };
        let ghost tok = s@.subrange(i as int, e as int);
        proof {
            assert(tok.drop_last() =~= s@.subrange(i as int, e as int - 1));
            assert(tok.last() == s@[e as int - 1]);
            assert(token_ok(tok));
            lemma_token_secs_bound(tok);
        }
        proof {
            assert(-tok_bound() <= (num as int) * (unit as int) <= tok_bound())
                by (nonlinear_arith)
                requires
                    -0x8000_0000_0000_0000 <= num as int <= 0x7fff_ffff_ffff_ffff,
                    0 <= unit as int <= 604800,
                    tok_bound() == 6000000000000000000000000,
            ;
        }
        let add: i128 = (num as i128) * (unit as i128);
        proof {
            assert(num as int * (unit as int) == token_secs(tok));
            assert(i128::MIN < acc + add < i128::MAX && -((e as int) + 1) * big <= acc + add <= ((
            e as int) + 1) * big) by (nonlinear_arith)
                requires
                    -(i as int) * big <= acc as int <= (i as int) * big,
                    -big <= add as int <= big,
                    0 <= i <= e <= len <= 100_000_000,
                    big == 6000000000000000000000000,
            ;
        }
        acc = acc + add;
        if e == len {
            proof {
                assert(suffix.subrange(0, e - i) =~= suffix);
            }
            return Some(acc);
        }
        i = e + 1;
    }
}

/// Turns a relative-duration expression and a base time into a due
/// timestamp: the base plus the expression's seconds, accepted exactly
/// when the expression is well-formed and the sum is storable.
pub fn due_from_expr(now: i64, s: &str) -> (r: Result<i64, TimeError>)
    requires
        s@.len() <= 100_000_000,
    ensures
        r matches Ok(t) <==> expr_ok(s@) && ts_in_range(now + expr_secs(s@)),
        r matches Ok(t) ==> t as int == now + expr_secs(s@),
        r matches Err(e) && e is Invalid <==> !expr_ok(s@),
{
    match parse_duration_secs(s) {
        Some(secs) => {
            proof {
                lemma_expr_secs_bound(s@);
                assert((s@.len() + 1) * tok_bound() <= 600000006000000000000000000000000)
                    by (nonlinear_arith)
                    requires
                        s@.len() <= 100_000_000,
                        tok_bound() == 6000000000000000000000000,
                ;
            }
            let total: i128 = (now as i128) + secs;
            if 0 <= total && total <= TS_MAX as i128 {
                Ok(total as i64)
            } else {
                Err(TimeError::OutOfRange)
            }
        },
        None => Err(TimeError::Invalid),
    }
}

/// Parses a relative-duration expression against the current time.
pub fn date_from_time(s: &str) -> (r: Result<i64, TimeError>)
    requires
        s@.len() <= 100_000_000,
    ensures
        !expr_ok(s@) ==> (r matches Err(e) && e is Invalid),
        r matches Ok(t) ==> ts_in_range(t as int) && expr_ok(s@) && (exists|n: i64|
            ts_in_range(n as int) && t == n + expr_secs(s@)),
{
    let now = now_in_range();
    let r = due_from_expr(now, s);
    proof {
        if r is Ok {
            assert(ts_in_range(now as int) && r->Ok_0 == now + expr_secs(s@));
        }
    }
    r
}

// ---------------------------------------------------------------------
// Remaining-time labels.
// ---------------------------------------------------------------------

/// The label for a signed number of remaining seconds: the sign, then
/// the count in the largest unit with a non-zero count, then the unit
/// letter; zero seconds is `0s`.
pub open spec fn time_left_label(diff: int) -> Seq<char> {
    let m = if diff < 0 {
        -diff
    } else {
        diff
    };
    let sign: Seq<char> = if diff < 0 {
        seq!['-']
    } else {
        Seq::empty()
    };
    if m >= WEEK_SECS {
        sign + dec_digits((m / (WEEK_SECS as int)) as nat) + seq!['w']
    } else if m >= DAY_SECS {
        sign + dec_digits((m / (DAY_SECS as int)) as nat) + seq!['d']
    } else if m >= HOUR_SECS {
        sign + dec_digits((m / (HOUR_SECS as int)) as nat) + seq!['h']
    } else if m >= MINUTE_SECS {
        sign + dec_digits((m / (MINUTE_SECS as int)) as nat) + seq!['m']
    } else {
        sign + dec_digits(m as nat) + seq!['s']
    }
}

/// Renders the remaining-time label for a signed difference in seconds.
pub fn time_left_label_of(diff: i64) -> (r: String)
    requires
        -TS_MAX <= diff <= TS_MAX,
    ensures
        r@ == time_left_label(diff as int),
{
    let neg = diff < 0;
    let m: i64 = if neg {
        -diff
    } else {
        diff
    };
    let (q, u): (i64, char) = if m >= WEEK_SECS as i64 {
        (m / (WEEK_SECS as i64), 'w')
    } else if m >= DAY_SECS as i64 {
        (m / (DAY_SECS as i64), 'd')
    } else if m >= HOUR_SECS as i64 {
        (m / (HOUR_SECS as i64), 'h')
    } else if m >= MINUTE_SECS as i64 {
        (m / (MINUTE_SECS as i64), 'm')
    } else {
        (m, 's')
    };
    let digits = u64_to_string(q as u64);
    let mut out: Vec<char> = Vec::new();
    if neg {
        out.push('-');
    }
    let mut k: usize = 0;
    let dl = digits.as_str().unicode_len();
    while k < dl
        invariant
            0 <= k <= dl,
            dl == digits@.len(),
            out@.len() == (if neg { 1int } else { 0int }) + k,
            neg ==> out@ == seq!['-'] + digits@.subrange(0, k as int),
            !neg ==> out@ == digits@.subrange(0, k as int),
        decreases dl - k,
    {
        out.push(digits.as_str().get_char(k));
        proof {
            assert(digits@.subrange(0, k as int).push(digits@[k as int]) =~= digits@.subrange(
                0,
                k as int + 1,
            ));
        }
        k = k + 1;
    }
    out.push(u);
    proof {
        assert(digits@.subrange(0, dl as int) =~= digits@);
        assert(out@ =~= time_left_label(diff as int));
    }
    chars_to_string(&out)
}

/// The remaining-time label from now until `due`.
pub fn get_time_left(due: i64) -> (r: String)
    requires
        ts_in_range(due as int),
    ensures
        exists|n: i64| ts_in_range(n as int) && r@ == time_left_label(due - n),
{
    let now = now_in_range();
    let r = time_left_label_of(due - now);
    proof {
        assert(ts_in_range(now as int) && r@ == time_left_label(due - now));
    }
    r
}

} // verus!
