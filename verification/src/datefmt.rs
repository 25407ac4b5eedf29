use vstd::prelude::*;
use vstd::string::{StrSliceExecFns, StringExecFns};
use std::fmt::Write;

verus! {

/// Width in characters that rendering a strftime-style pattern against a
/// reference date occupies: `%Y` renders as four digits, `%m` `%d` `%H`
/// `%M` `%S` as two each, and any other character stands for itself.
pub open spec fn spec_estimate_len(f: Seq<char>) -> nat
    decreases f.len(),
{
    if f.len() == 0 {
        0
    } else if f.len() >= 2 && f[0] == '%' && f[1] == 'Y' {
        4 + spec_estimate_len(f.skip(2))
    } else if f.len() >= 2 && f[0] == '%' && (f[1] == 'm' || f[1] == 'd' || f[1] == 'H' || f[1]
        == 'M' || f[1] == 'S') {
        2 + spec_estimate_len(f.skip(2))
    } else {
        1 + spec_estimate_len(f.skip(1))
    }
}

/// The estimated width never exceeds twice the pattern's length.
pub proof fn lemma_estimate_len_bound(f: Seq<char>)
    ensures
        spec_estimate_len(f) <= 2 * f.len(),
    decreases f.len(),
{
    if f.len() == 0 {
    } else if f.len() >= 2 && f[0] == '%' && (f[1] == 'Y' || f[1] == 'm' || f[1] == 'd' || f[1]
        == 'H' || f[1] == 'M' || f[1] == 'S') {
        lemma_estimate_len_bound(f.skip(2));
    } else {
        lemma_estimate_len_bound(f.skip(1));
    }
}

/// Estimates the width in characters that a timestamp rendered under
/// `format` occupies, by giving each date field its reference width.
pub fn estimate_format_len(format: &str) -> (r: usize)
    requires
        format@.len() <= usize::MAX as int / 2,
    ensures
        r == spec_estimate_len(format@),
{
    let n = format.unicode_len();
    let mut i: usize = 0;
    let mut acc: usize = 0;
    proof {
        assert(format@.skip(0) =~= format@);
    }
    while i < n
        invariant
            n == format@.len(),
            n <= usize::MAX as int / 2,
            i <= n,
            acc <= 2 * i,
            acc + spec_estimate_len(format@.skip(i as int)) == spec_estimate_len(format@),
        decreases n - i,
    {
        let ghost rest = format@.skip(i as int);
        proof {
            assert(rest.len() == n - i);
            assert(rest[0] == format@[i as int]);
            if i + 1 < n {
                assert(rest[1] == format@[i as int + 1]);
            }
            assert(rest.skip(1) =~= format@.skip(i as int + 1));
            if i + 2 <= n {
                assert(rest.skip(2) =~= format@.skip(i as int + 2));
            }
        }
        let c = format.get_char(i);
        let mut step: usize = 1;
        let mut add: usize = 1;
        if c == '%' && i + 1 < n {
            let c2 = format.get_char(i + 1);
            if c2 == 'Y' {
                step = 2;
                add = 4;
            } else if c2 == 'm' || c2 == 'd' || c2 == 'H' || c2 == 'M' || c2 == 'S' {
                step = 2;
                add = 2;
            }
        }
        acc = acc + add;
        i = i + step;
    }
    proof {
        assert(format@.skip(n as int) =~= Seq::<char>::empty());
    }
    acc
}

/// An ASCII decimal digit.
pub open spec fn spec_is_digit(c: char) -> bool {
    '0' <= c && c <= '9'
}

fn is_digit(c: char) -> (r: bool)
    ensures
        r == spec_is_digit(c),
{
    '0' <= c && c <= '9'
}

/// The stem begins with a bare `YYYY-MM-DD` date.
pub open spec fn spec_has_date_prefix(s: Seq<char>) -> bool {
    &&& s.len() >= 10
    &&& spec_is_digit(s[0])
    &&& spec_is_digit(s[1])
    &&& spec_is_digit(s[2])
    &&& spec_is_digit(s[3])
    &&& s[4] == '-'
    &&& spec_is_digit(s[5])
    &&& spec_is_digit(s[6])
    &&& s[7] == '-'
    &&& spec_is_digit(s[8])
    &&& spec_is_digit(s[9])
}

/// The stem begins with a full `YYYY-MM-DD-HH-MM-SS` timestamp.
pub open spec fn spec_has_full_date_prefix(s: Seq<char>) -> bool {
    &&& spec_has_date_prefix(s)
    &&& s.len() >= 19
    &&& s[10] == '-'
    &&& spec_is_digit(s[11])
    &&& spec_is_digit(s[12])
    &&& s[13] == '-'
    &&& spec_is_digit(s[14])
    &&& spec_is_digit(s[15])
    &&& s[16] == '-'
    &&& spec_is_digit(s[17])
    &&& spec_is_digit(s[18])
}

/// Where a recognized prefix of `base` characters ends once the optional
/// `-` or `_` separator after it is consumed as well.
pub open spec fn spec_prefix_end(s: Seq<char>, base: nat) -> nat {
    if s.len() > base && (s[base as int] == '-' || s[base as int] == '_') {
        base + 1
    } else {
        base
    }
}

/// The stem with any date-like prefix removed: a full timestamp prefix is
/// tried first, then a bare date prefix, each with an optional trailing
/// separator; a strip that would leave nothing keeps the stem instead.
pub open spec fn spec_strip_date_prefix(s: Seq<char>) -> Seq<char> {
    if spec_has_full_date_prefix(s) && spec_prefix_end(s, 19) < s.len() {
        s.skip(spec_prefix_end(s, 19) as int)
    } else if spec_has_date_prefix(s) && spec_prefix_end(s, 10) < s.len() {
        s.skip(spec_prefix_end(s, 10) as int)
    } else {
        s
    }
}

fn has_date_prefix(s: &str) -> (r: bool)
    ensures
        r == spec_has_date_prefix(s@),
{
    if s.unicode_len() < 10 {
        return false;
    }
    is_digit(s.get_char(0)) && is_digit(s.get_char(1)) && is_digit(s.get_char(2)) && is_digit(
        s.get_char(3),
    ) && s.get_char(4) == '-' && is_digit(s.get_char(5)) && is_digit(s.get_char(6)) && s.get_char(7)
        == '-' && is_digit(s.get_char(8)) && is_digit(s.get_char(9))
}

fn has_full_date_prefix(s: &str) -> (r: bool)
    ensures
        r == spec_has_full_date_prefix(s@),
{
    if s.unicode_len() < 19 {
        return false;
    }
    has_date_prefix(s) && s.get_char(10) == '-' && is_digit(s.get_char(11)) && is_digit(
        s.get_char(12),
    ) && s.get_char(13) == '-' && is_digit(s.get_char(14)) && is_digit(s.get_char(15))
        && s.get_char(16) == '-' && is_digit(s.get_char(17)) && is_digit(s.get_char(18))
}

/// Removes a pre-existing date-like prefix from a stem, so that renaming a
/// file that was date-prefixed under another convention does not pile a
/// second date onto the first.
pub fn strip_date_prefix<'a>(name: &'a str) -> (r: &'a str)
    ensures
        r@ == spec_strip_date_prefix(name@),
{
    let n = name.unicode_len();
    if has_full_date_prefix(name) {
        let end: usize = if n > 19 && (name.get_char(19) == '-' || name.get_char(19) == '_') {
            20
        } else {
            19
        };
        if end < n {
            let rest = name.substring_char(end, n);
            proof {
                assert(rest@ =~= name@.skip(end as int));
            }
            return rest;
        }
    }
    if has_date_prefix(name) {
        let end: usize = if n > 10 && (name.get_char(10) == '-' || name.get_char(10) == '_') {
            11
        } else {
            10
        };
        if end < n {
            let rest = name.substring_char(end, n);
            proof {
                assert(rest@ =~= name@.skip(end as int));
            }
            return rest;
        }
    }
    name
}

/// Names the outcome of chrono's `DateTime::parse_from_str`: whether `s`
/// parses as a date and time under the pattern `fmt`.
pub uninterp spec fn chrono_parses(s: Seq<char>, fmt: Seq<char>) -> bool;

/// Relies on chrono's `DateTime::parse_from_str`: parsing either succeeds
/// or reports an error, and its outcome is a function of the two strings
/// alone.
#[verifier::external_body]
fn chrono_parse_ok(s: &str, fmt: &str) -> (r: bool)
    ensures
        r == chrono_parses(s@, fmt@),
{
    chrono::DateTime::parse_from_str(s, fmt).is_ok()
}

/// The date candidate parses under the pattern: chrono accepts it once a
/// fixed `+0000` offset is appended to the candidate and `%z` to the
/// pattern, which a bare date pattern needs to yield a full timestamp.
pub open spec fn date_parses(s: Seq<char>, fmt: Seq<char>) -> bool {
    chrono_parses(s + " +0000"@, fmt + " %z"@)
}

/// The stem is in canonical form: it begins with as many characters as a
/// rendered timestamp occupies, those characters parse back under the
/// configured format, and a `-` follows them.
pub open spec fn spec_already_formatted(stem: Seq<char>, fmt: Seq<char>) -> bool {
    let len = spec_estimate_len(fmt);
    &&& stem.len() >= len + 1
    &&& stem[len as int] == '-'
    &&& date_parses(stem.take(len as int), fmt)
}

/// Decides whether a stem is already in canonical form under `format`, so
/// that planning is idempotent: a file the planner has renamed is skipped
/// by every later run.
pub fn already_formatted(stem: &str, format: &str) -> (r: bool)
    requires
        format@.len() <= usize::MAX as int / 2,
    ensures
        r == spec_already_formatted(stem@, format@),
{
    let prefix_len = estimate_format_len(format);
    proof {
        lemma_estimate_len_bound(format@);
    }
    let n = stem.unicode_len();
    if n < prefix_len + 1 {
        return false;
    }
    if stem.get_char(prefix_len) != '-' {
        return false;
    }
    let date_part = stem.substring_char(0, prefix_len);
    proof {
        assert(date_part@ =~= stem@.take(prefix_len as int));
    }
    let mut candidate = String::from_str(date_part);
    candidate.append(" +0000");
    let mut pattern = String::from_str(format);
    pattern.append(" %z");
    chrono_parse_ok(candidate.as_str(), pattern.as_str())
}

/// Relies on chrono: renders the timestamp `secs` (seconds since the Unix
/// epoch), taken in the machine's local time zone, under the strftime-style
/// pattern `fmt`. The result depends on the machine's time zone, so nothing
/// is promised of it.
#[verifier::external_body]
pub(crate) fn render_timestamp(secs: i64, fmt: &str) -> String {
    let dt = match chrono::DateTime::from_timestamp(secs, 0) {
        Some(d) => d.with_timezone(&chrono::Local),
        None => {
            return String::new();
        },
    };
    let mut out = String::new();
    let _ = write!(out, "{}", dt.format(fmt));
    out
}

} // verus!
