//! Reading effort estimates: strings like `30m`, `2h`, `0.5h` or
//! `1.5 hours` turned into whole minutes. The number may carry a decimal
//! fraction of up to twenty digits; minutes are rounded down. A day
//! counts as eight hours, a week as five such days.

use vstd::prelude::*;

use crate::strutil::{digits_val, is_dec_digit, is_space, str_eq};
use crate::validators::is_space_char;

verus! {

/// Why an effort string was rejected.
#[derive(Debug, Clone, Copy, PartialEq, Eq, Structural)]
pub enum EffortError {
    /// Nothing left after trimming.
    Empty,
    /// No leading number.
    NoNumber,
    /// A malformed number: several dots, no digits, or more than twenty
    /// fractional digits.
    BadNumber,
    /// An unrecognized unit.
    UnknownUnit,
}

/// The string without leading whitespace.
pub open spec fn ltrim(s: Seq<char>) -> Seq<char>
    decreases s.len(),
{
    if s.len() > 0 && is_space(s[0]) {
        ltrim(s.drop_first())
    } else {
        s
    }
}

/// The string without trailing whitespace.
pub open spec fn rtrim(s: Seq<char>) -> Seq<char>
    decreases s.len(),
{
    if s.len() > 0 && is_space(s.last()) {
        rtrim(s.drop_last())
    } else {
        s
    }
}

/// The string without surrounding whitespace.
pub open spec fn trim_of(s: Seq<char>) -> Seq<char> {
    rtrim(ltrim(s))
}

/// A character the number part may hold.
pub open spec fn is_num_char(c: char) -> bool {
    is_dec_digit(c) || c == '.'
}

/// Length of the leading run of digits and dots.
pub open spec fn num_prefix_len(s: Seq<char>) -> int
    decreases s.len(),
{
    if s.len() > 0 && is_num_char(s[0]) {
        1 + num_prefix_len(s.drop_first())
    } else {
        0
    }
}

/// Position of the first dot, or the length when there is none.
pub open spec fn dot_pos(s: Seq<char>) -> int
    decreases s.len(),
{
    if s.len() == 0 {
        0
    } else if s[0] == '.' {
        0
    } else {
        1 + dot_pos(s.drop_first())
    }
}

/// How many dots the number part holds.
pub open spec fn dot_count(s: Seq<char>) -> int
    decreases s.len(),
{
    if s.len() == 0 {
        0
    } else if s[0] == '.' {
        1 + dot_count(s.drop_first())
    } else {
        dot_count(s.drop_first())
    }
}

/// Some character is a digit.
pub open spec fn has_digit(s: Seq<char>) -> bool {
    exists|i: int| 0 <= i < s.len() && is_dec_digit(#[trigger] s[i])
}

/// Ten to the given power.
pub open spec fn pow10(k: nat) -> nat
    decreases k,
{
    if k == 0 {
        1
    } else {
        10 * pow10((k - 1) as nat)
    }
}

/// Minutes per unit name; `None` for an unknown unit. An absent unit
/// means minutes.
pub open spec fn unit_minutes(u: Seq<char>) -> Option<nat> {
    if u == ""@ || u == "m"@ || u == "min"@ || u == "mins"@ || u == "minute"@ || u == "minutes"@ {
        Some(1nat)
    } else if u == "h"@ || u == "hr"@ || u == "hrs"@ || u == "hour"@ || u == "hours"@ {
        Some(60nat)
    } else if u == "d"@ || u == "day"@ || u == "days"@ {
        Some(480nat)
    } else if u == "w"@ || u == "week"@ || u == "weeks"@ {
        Some(2400nat)
    } else {
        None
    }
}

/// What `parse_effort` computes. The trimmed input splits into a leading
/// number (digits, at most one dot, at most twenty fractional digits)
/// and a trimmed unit; the minutes are the number times the unit's
/// minutes, rounded down, capped at `u32::MAX`.
pub open spec fn effort_spec(s: Seq<char>) -> Result<u32, EffortError> {
    let t = trim_of(s);
    if t.len() == 0 {
        Err(EffortError::Empty)
    } else {
        let ne = num_prefix_len(t);
        if ne == 0 {
            Err(EffortError::NoNumber)
        } else {
            let num = t.subrange(0, ne);
            let dp = dot_pos(num);
            let frac_len = if dp < num.len() {
                num.len() - dp - 1
            } else {
                0
            };
            if dot_count(num) > 1 || !has_digit(num) || frac_len > 20 {
                Err(EffortError::BadNumber)
            } else {
                match unit_minutes(trim_of(t.subrange(ne, t.len() as int))) {
                    None => Err(EffortError::UnknownUnit),
                    Some(m) => {
                        let ip = digits_val(num.subrange(0, dp));
                        let fp = if dp < num.len() {
                            digits_val(num.subrange(dp + 1, num.len() as int))
                        } else {
                            0
                        };
                        let p = pow10(frac_len as nat);
                        let minutes = (m * (ip * p + fp)) / p;
                        if minutes > u32::MAX {
                            Ok(u32::MAX)
                        } else {
                            Ok(minutes as u32)
                        }
                    },
                }
            }
        }
    }
}

/// With all earlier characters whitespace, `ltrim` starts at index `i`.
proof fn lemma_ltrim_at(s: Seq<char>, i: int)
    requires
        0 <= i <= s.len(),
        forall|t: int| 0 <= t < i ==> is_space(#[trigger] s[t]),
        i < s.len() ==> !is_space(s[i]),
    ensures
        ltrim(s) =~= s.subrange(i, s.len() as int),
    decreases i,
{
    if i == 0 {
        if s.len() > 0 {
            assert(ltrim(s) =~= s);
        }
        assert(s.subrange(0, s.len() as int) =~= s);
    } else {
        assert(is_space(s[0]));
        let rest = s.drop_first();
        assert(forall|t: int| 0 <= t < i - 1 ==> #[trigger] rest[t] == s[t + 1]);
        lemma_ltrim_at(rest, i - 1);
        assert(rest.subrange(i - 1, rest.len() as int) =~= s.subrange(i, s.len() as int));
    }
}

/// With all later characters whitespace, `rtrim` ends at index `j`.
proof fn lemma_rtrim_at(s: Seq<char>, j: int)
    requires
        0 <= j <= s.len(),
        forall|t: int| j <= t < s.len() ==> is_space(#[trigger] s[t]),
        j > 0 ==> !is_space(s[j - 1]),
    ensures
        rtrim(s) =~= s.subrange(0, j),
    decreases s.len() - j,
{
    if j == s.len() {
        if s.len() > 0 {
            assert(rtrim(s) =~= s);
        }
        assert(s.subrange(0, s.len() as int) =~= s);
    } else {
        assert(is_space(s.last()));
        let rest = s.drop_last();
        assert(forall|t: int| 0 <= t < rest.len() ==> #[trigger] rest[t] == s[t]);
        lemma_rtrim_at(rest, j);
        assert(rest.subrange(0, j) =~= s.subrange(0, j));
    }
}

/// With all earlier characters numeric, the numeric prefix ends at `i`.
proof fn lemma_num_prefix_at(s: Seq<char>, i: int)
    requires
        0 <= i <= s.len(),
        forall|t: int| 0 <= t < i ==> is_num_char(#[trigger] s[t]),
        i < s.len() ==> !is_num_char(s[i]),
    ensures
        num_prefix_len(s) == i,
    decreases i,
{
    if i == 0 {
    } else {
        let rest = s.drop_first();
        assert(forall|t: int| 0 <= t < i - 1 ==> #[trigger] rest[t] == s[t + 1]);
        lemma_num_prefix_at(rest, i - 1);
    }
}

/// With all earlier characters non-dots, the first dot sits at `i`.
proof fn lemma_dot_pos_at(s: Seq<char>, i: int)
    requires
        0 <= i <= s.len(),
        forall|t: int| 0 <= t < i ==> (#[trigger] s[t]) != '.',
        i < s.len() ==> s[i] == '.',
    ensures
        dot_pos(s) == i,
    decreases i,
{
    if i == 0 {
    } else {
        let rest = s.drop_first();
        assert(forall|t: int| 0 <= t < i - 1 ==> #[trigger] rest[t] == s[t + 1]);
        lemma_dot_pos_at(rest, i - 1);
    }
}

/// Exactly the dots at the two named places: the count is their number.
proof fn lemma_dot_count_le_one(s: Seq<char>, dp: int)
    requires
        0 <= dp <= s.len(),
        forall|t: int| 0 <= t < s.len() && t != dp ==> (#[trigger] s[t]) != '.',
    ensures
        dot_count(s) <= 1,
    decreases s.len(),
{
    if s.len() == 0 {
    } else {
        let rest = s.drop_first();
        assert(forall|t: int| 0 <= t < rest.len() ==> #[trigger] rest[t] == s[t + 1]);
        if s[0] == '.' {
            assert(dp == 0);
            lemma_dot_count_none(rest);
        } else {
            lemma_dot_count_le_one(rest, if dp == 0 { 0 } else { dp - 1 });
        }
    }
}

/// No dots at all: the count is zero.
proof fn lemma_dot_count_none(s: Seq<char>)
    requires
        forall|t: int| 0 <= t < s.len() ==> (#[trigger] s[t]) != '.',
    ensures
        dot_count(s) == 0,
    decreases s.len(),
{
    if s.len() > 0 {
        let rest = s.drop_first();
        assert(forall|t: int| 0 <= t < rest.len() ==> #[trigger] rest[t] == s[t + 1]);
        lemma_dot_count_none(rest);
    }
}

/// Two dots were seen: the count is at least two.
proof fn lemma_dot_count_ge_two(s: Seq<char>, a: int, b: int)
    requires
        0 <= a < b < s.len(),
        s[a] == '.',
        s[b] == '.',
    ensures
        dot_count(s) >= 2,
    decreases s.len(),
{
    let rest = s.drop_first();
    assert(forall|t: int| 0 <= t < rest.len() ==> #[trigger] rest[t] == s[t + 1]);
    if a == 0 {
        lemma_dot_count_ge_one(rest, b - 1);
    } else {
        lemma_dot_count_ge_two(rest, a - 1, b - 1);
    }
}

/// A dot was seen: the count is at least one.
proof fn lemma_dot_count_ge_one(s: Seq<char>, a: int)
    requires
        0 <= a < s.len(),
        s[a] == '.',
    ensures
        dot_count(s) >= 1,
    decreases s.len(),
{
    if a > 0 {
        let rest = s.drop_first();
        assert(forall|t: int| 0 <= t < rest.len() ==> #[trigger] rest[t] == s[t + 1]);
        lemma_dot_count_ge_one(rest, a - 1);
    } else {
        lemma_dot_count_nonneg(s.drop_first());
    }
}

/// Dot counts are never negative.
proof fn lemma_dot_count_nonneg(s: Seq<char>)
    ensures
        dot_count(s) >= 0,
    decreases s.len(),
{
    if s.len() > 0 {
        lemma_dot_count_nonneg(s.drop_first());
    }
}

/// Reads an effort estimate into whole minutes, exactly as `effort_spec`
/// lays it out.
#[verifier::rlimit(100)]
pub fn parse_effort(s: &str) -> (r: Result<u32, EffortError>)
    ensures
        r == effort_spec(s@),
{
    let len = s.unicode_len();
    // Trim the input.
    let mut a: usize = 0;
    while a < len && is_space_char(s.get_char(a))
        invariant
            a <= len,
            len == s@.len(),
            forall|t: int| 0 <= t < a ==> is_space(#[trigger] s@[t]),
        decreases len - a,
    {
        a = a + 1;
    }
    let mut b: usize = len;
    while b > a && is_space_char(s.get_char(b - 1))
        invariant
            a <= b <= len,
            len == s@.len(),
            forall|t: int| 0 <= t < a ==> is_space(#[trigger] s@[t]),
            a < len ==> !is_space(s@[a as int]),
            forall|t: int| b <= t < len ==> is_space(#[trigger] s@[t]),
        decreases b,
    {
        b = b - 1;
    }
    let t = s.substring_char(a, b);
    proof {
        lemma_ltrim_at(s@, a as int);
        let lt = s@.subrange(a as int, len as int);
        assert(forall|u: int| 0 <= u < lt.len() ==> #[trigger] lt[u] == s@[a + u]);
        lemma_rtrim_at(lt, b - a);
        assert(lt.subrange(0, b - a) =~= s@.subrange(a as int, b as int));
        assert(trim_of(s@) =~= t@);
    }
    let tlen = t.unicode_len();
    if tlen == 0 {
        return Err(EffortError::Empty);
    }
    // The number part.
    let mut ne: usize = 0;
    while ne < tlen
        invariant
            ne <= tlen,
            tlen == t@.len(),
            forall|u: int| 0 <= u < ne ==> is_num_char(#[trigger] t@[u]),
        ensures
            ne <= tlen,
            forall|u: int| 0 <= u < ne ==> is_num_char(#[trigger] t@[u]),
            ne < tlen ==> !is_num_char(t@[ne as int]),
        decreases tlen - ne,
    {
        let c = t.get_char(ne);
        if !((c >= '0' && c <= '9') || c == '.') {
            break;
        }
        ne = ne + 1;
    }
    proof {
        lemma_num_prefix_at(t@, ne as int);
    }
    if ne == 0 {
        return Err(EffortError::NoNumber);
    }
    let ghost num = t@.subrange(0, ne as int);
    // Scan the number: integer digits, an optional dot, fraction digits.
    let mut i: usize = 0;
    let mut dot_at: Option<usize> = None;
    let mut saw_digit = false;
    let mut second_dot = false;
    let mut int_val: u64 = 0;
    let mut int_sat = false;
    while i < ne
        invariant
            i <= ne,
            ne <= tlen,
            tlen == t@.len(),
            num == t@.subrange(0, ne as int),
            forall|u: int| 0 <= u < ne ==> is_num_char(#[trigger] t@[u]),
            match dot_at {
                Some(d) => d < i && num[d as int] == '.' && (forall|u: int|
                    0 <= u < i && u != d ==> (#[trigger] num[u]) != '.' || second_dot),
                None => forall|u: int| 0 <= u < i ==> (#[trigger] num[u]) != '.',
            },
            second_dot ==> dot_count(num) >= 2,
            saw_digit ==> exists|u: int| 0 <= u < i && is_dec_digit(#[trigger] num[u]),
            !saw_digit ==> forall|u: int| 0 <= u < i ==> !is_dec_digit(#[trigger] num[u]),
            !int_sat ==> int_val <= u32::MAX,
            (match dot_at {
                Some(d) => !int_sat ==> int_val == digits_val(num.subrange(0, d as int)),
                None => !int_sat ==> int_val == digits_val(num.subrange(0, i as int)),
            }),
            (match dot_at {
                Some(d) => int_sat ==> digits_val(num.subrange(0, d as int)) > u32::MAX,
                None => int_sat ==> digits_val(num.subrange(0, i as int)) > u32::MAX,
            }),
        decreases ne - i,
    {
        let c = t.get_char(i);
        proof {
            assert(num[i as int] == t@[i as int]);
        }
        if c == '.' {
            match dot_at {
                Some(d) => {
                    proof {
                        lemma_dot_count_ge_two(num, d as int, i as int);
                    }
                    second_dot = true;
                },
                None => {
                    dot_at = Some(i);
                },
            }
        } else {
            proof {
                assert(is_dec_digit(num[i as int]));
            }
            saw_digit = true;
            let no_dot = match dot_at {
                Some(_) => false,
                None => true,
            };
            if no_dot && !int_sat {
                let d: u64 = (c as u32 - '0' as u32) as u64;
                let next: u64 = int_val * 10 + d;
                proof {
                    assert(num.subrange(0, i as int).push(c) =~= num.subrange(0, (i + 1) as int));
                    crate::strutil::lemma_digits_val_push(num.subrange(0, i as int), c);
                }
                if next > u32::MAX as u64 {
                    int_sat = true;
                    proof {
                        lemma_digits_grow_tail(num, (i + 1) as int);
                    }
                } else {
                    int_val = next;
                }
            } else {
                proof {
                    if no_dot && int_sat {
                        assert(num.subrange(0, i as int).push(c) =~= num.subrange(
                            0,
                            (i + 1) as int,
                        ));
                        crate::strutil::lemma_digits_val_push(num.subrange(0, i as int), c);
                    }
                }
            }
        }
        i = i + 1;
    }
    if second_dot || !saw_digit {
        proof {
            if !saw_digit {
                assert(!has_digit(num)) by {
                    if has_digit(num) {
                        let u = choose|u: int| 0 <= u < num.len() && is_dec_digit(#[trigger] num[u]);
                        assert(!is_dec_digit(num[u]));
                    }
                }
            }
        }
        return Err(EffortError::BadNumber);
    }
    proof {
        match dot_at {
            Some(d) => {
                lemma_dot_pos_at(num, d as int);
                lemma_dot_count_le_one(num, d as int);
            },
            None => {
                lemma_dot_pos_at(num, num.len() as int);
                lemma_dot_count_none(num);
            },
        }
        assert(has_digit(num)) by {
            let u = choose|u: int| 0 <= u < i && is_dec_digit(#[trigger] num[u]);
            assert(is_dec_digit(num[u]));
        }
    }
    // The fraction digits.
    let frac_start: usize = match dot_at {
        Some(d) => d + 1,
        None => ne,
    };
    if ne - frac_start > 20 {
        return Err(EffortError::BadNumber);
    }
    let mut f: usize = frac_start;
    let mut frac_val: u128 = 0;
    while f < ne
        invariant
            frac_start <= f <= ne,
            ne <= tlen,
            tlen == t@.len(),
            num == t@.subrange(0, ne as int),
            forall|u: int| 0 <= u < ne ==> is_num_char(#[trigger] t@[u]),
            forall|u: int| frac_start <= u < ne ==> (#[trigger] num[u]) != '.',
            ne - frac_start <= 20,
            frac_val == digits_val(num.subrange(frac_start as int, f as int)),
            frac_val < pow10((f - frac_start) as nat),
        decreases ne - f,
    {
        let c = t.get_char(f);
        proof {
            assert(num[f as int] == t@[f as int]);
            assert(is_dec_digit(num[f as int]));
            assert(num.subrange(frac_start as int, f as int).push(c) =~= num.subrange(
                frac_start as int,
                (f + 1) as int,
            ));
            crate::strutil::lemma_digits_val_push(num.subrange(frac_start as int, f as int), c);
            lemma_pow10_bounds((f - frac_start) as nat);
        }
        let d: u128 = (c as u32 - '0' as u32) as u128;
        frac_val = frac_val * 10 + d;
        f = f + 1;
    }
    // The unit.
    let mut ua: usize = ne;
    while ua < tlen && is_space_char(t.get_char(ua))
        invariant
            ne <= ua <= tlen,
            tlen == t@.len(),
            forall|u: int| ne <= u < ua ==> is_space(#[trigger] t@[u]),
        decreases tlen - ua,
    {
        ua = ua + 1;
    }
    let mut ub: usize = tlen;
    while ub > ua && is_space_char(t.get_char(ub - 1))
        invariant
            ua <= ub <= tlen,
            tlen == t@.len(),
            forall|u: int| ne <= u < ua ==> is_space(#[trigger] t@[u]),
            ua < tlen ==> !is_space(t@[ua as int]),
            forall|u: int| ub <= u < tlen ==> is_space(#[trigger] t@[u]),
        decreases ub,
    {
        ub = ub - 1;
    }
    let unit = t.substring_char(ua, ub);
    proof {
        let tail = t@.subrange(ne as int, tlen as int);
        assert(forall|u: int| 0 <= u < tail.len() ==> #[trigger] tail[u] == t@[ne + u]);
        lemma_ltrim_at(tail, ua - ne);
        let lt = tail.subrange(ua - ne, tail.len() as int);
        assert(forall|u: int| 0 <= u < lt.len() ==> #[trigger] lt[u] == t@[ua + u]);
        lemma_rtrim_at(lt, ub - ua);
        assert(lt.subrange(0, ub - ua) =~= t@.subrange(ua as int, ub as int));
        assert(trim_of(t@.subrange(ne as int, tlen as int)) =~= unit@);
    }
    proof {
        reveal_strlit("");
        reveal_strlit("m");
        reveal_strlit("min");
        reveal_strlit("mins");
        reveal_strlit("minute");
        reveal_strlit("minutes");
        reveal_strlit("h");
        reveal_strlit("hr");
        reveal_strlit("hrs");
        reveal_strlit("hour");
        reveal_strlit("hours");
        reveal_strlit("d");
        reveal_strlit("day");
        reveal_strlit("days");
        reveal_strlit("w");
        reveal_strlit("week");
        reveal_strlit("weeks");
    }
    let mult: u128 = if unit.unicode_len() == 0 || str_eq(unit, "m") || str_eq(unit, "min")
        || str_eq(unit, "mins") || str_eq(unit, "minute") || str_eq(unit, "minutes") {
        proof {
            reveal_strlit("");
            if unit@.len() == 0 {
                assert(unit@ =~= ""@);
            }
        }
        1
    } else if str_eq(unit, "h") || str_eq(unit, "hr") || str_eq(unit, "hrs") || str_eq(unit, "hour")
        || str_eq(unit, "hours") {
        60
    } else if str_eq(unit, "d") || str_eq(unit, "day") || str_eq(unit, "days") {
        480
    } else if str_eq(unit, "w") || str_eq(unit, "week") || str_eq(unit, "weeks") {
        2400
    } else {
        proof {
            reveal_strlit("");
            assert(unit@.len() > 0);
            assert(unit@ != ""@);
        }
        return Err(EffortError::UnknownUnit);
    };
    // Put the number together.
    let frac_len: usize = ne - frac_start;
    let mut p: u128 = 1;
    proof {
        lemma_pow10_mono(0, 20);
        lemma_pow10_bounds(0);
    }
    let mut k: usize = 0;
    while k < frac_len
        invariant
            k <= frac_len <= 20,
            p == pow10(k as nat),
            p <= pow10(20),
        decreases frac_len - k,
    {
        proof {
            lemma_pow10_bounds(k as nat);
            lemma_pow10_mono((k + 1) as nat, 20nat);
        }
        p = p * 10;
        k = k + 1;
    }
    proof {
        lemma_pow10_bounds(frac_len as nat);
    }
    let ghost ip = digits_val(num.subrange(0, dot_pos(num)));
    let ghost fp = if dot_pos(num) < num.len() {
        digits_val(num.subrange(dot_pos(num) + 1, num.len() as int))
    } else {
        0nat
    };
    let big: u128 = if int_sat {
        u32::MAX as u128 + 1
    } else {
        int_val as u128
    };
    proof {
        assert(frac_val < p);
        if !int_sat {
            assert(big == ip);
        } else {
            assert(ip > u32::MAX);
        }
        assert(fp == frac_val) by {
            match dot_at {
                Some(d) => {
                    assert(dot_pos(num) == d as int);
                },
                None => {
                    assert(dot_pos(num) == num.len());
                    assert(num.subrange(frac_start as int, frac_start as int)
                        =~= Seq::<char>::empty());
                },
            }
        }
    }
    proof {
        assert(big * p <= 0x100000000 * 0x56bc75e2d63100000) by (nonlinear_arith)
            requires
                big <= 0x100000000,
                0 <= p <= 0x56bc75e2d63100000,
        ;
        assert(mult * (big * p + frac_val) <= 2400 * (0x100000000 * 0x56bc75e2d63100000
            + 0x56bc75e2d63100000)) by (nonlinear_arith)
            requires
                1 <= mult <= 2400,
                0 <= big * p <= 0x100000000 * 0x56bc75e2d63100000,
                0 <= frac_val <= 0x56bc75e2d63100000,
        ;
    }
    let q: u128 = (mult * (big * p + frac_val)) / p;
    proof {
        lemma_effort_value(
            mult as nat,
            big as nat,
            ip,
            frac_val as nat,
            p as nat,
            int_sat,
        );
    }
    proof {
        let ts = trim_of(s@);
        assert(ts == t@);
        assert(num_prefix_len(ts) == ne);
        assert(num == ts.subrange(0, ne as int));
        assert(unit_minutes(unit@) == Some(mult as nat));
        assert(trim_of(ts.subrange(ne as int, ts.len() as int)) == unit@);
        let dp = dot_pos(num);
        match dot_at {
            Some(d) => {
                assert(dp == d);
                assert(ne - frac_start == num.len() - dp - 1);
            },
            None => {
                assert(dp == num.len());
                assert(ne - frac_start == 0);
            },
        }
        assert(p == pow10((ne - frac_start) as nat));
        assert(dot_count(num) <= 1 && has_digit(num) && ne - frac_start <= 20);
    }
    if q > u32::MAX as u128 {
        Ok(u32::MAX)
    } else {
        Ok(q as u32)
    }
}

/// A longer digit string keeps exceeding any bound its prefix exceeds.
proof fn lemma_digits_grow_tail(s: Seq<char>, k: int)
    requires
        0 <= k <= s.len(),
    ensures
        forall|j: int|
            k <= j <= s.len() ==> digits_val(#[trigger] s.subrange(0, j)) >= digits_val(
                s.subrange(0, k),
            ),
    decreases s.len(),
{
    assert forall|j: int|
        k <= j <= s.len() implies digits_val(#[trigger] s.subrange(0, j)) >= digits_val(
        s.subrange(0, k),
    ) by {
        lemma_digits_prefix_monotone(s, k, j);
    }
}

/// Digit-string values grow along prefixes.
proof fn lemma_digits_prefix_monotone(s: Seq<char>, k: int, j: int)
    requires
        0 <= k <= j <= s.len(),
    ensures
        digits_val(s.subrange(0, j)) >= digits_val(s.subrange(0, k)),
    decreases j - k,
{
    if k < j {
        lemma_digits_prefix_monotone(s, k, j - 1);
        assert(s.subrange(0, j - 1).push(s[j - 1]) =~= s.subrange(0, j));
        crate::strutil::lemma_digits_val_push(s.subrange(0, j - 1), s[j - 1]);
    }
}

/// Ten to the twentieth fits comfortably; powers grow.
proof fn lemma_pow10_bounds(k: nat)
    requires
        k <= 20,
    ensures
        pow10(k) >= 1,
        pow10(k) <= pow10(20),
        pow10(20) == 0x56bc75e2d63100000,
    decreases k,
{
    assert(pow10(20) == 0x56bc75e2d63100000) by {
        reveal_with_fuel(pow10, 21);
    }
    lemma_pow10_mono(k, 20);
    lemma_pow10_pos(k);
}

proof fn lemma_pow10_pos(k: nat)
    ensures
        pow10(k) >= 1,
    decreases k,
{
    if k > 0 {
        lemma_pow10_pos((k - 1) as nat);
    }
}

proof fn lemma_pow10_mono(a: nat, b: nat)
    requires
        a <= b,
    ensures
        pow10(a) <= pow10(b),
    decreases b,
{
    if a < b {
        lemma_pow10_mono(a, (b - 1) as nat);
        lemma_pow10_pos((b - 1) as nat);
    }
}

/// The machine arithmetic lands on the specified minutes value, capped.
proof fn lemma_effort_value(m: nat, big: nat, ip: nat, fv: nat, p: nat, sat: bool)
    requires
        1 <= m <= 2400,
        p >= 1,
        p <= pow10(20),
        fv < p,
        big <= u32::MAX + 1,
        !sat ==> big == ip,
        sat ==> big == u32::MAX + 1 && ip > u32::MAX,
    ensures
        (m * (big * p + fv)) / p <= (m * (ip * p + fv)) / p,
        (m * (big * p + fv)) / p > u32::MAX ==> (m * (ip * p + fv)) / p > u32::MAX,
        (m * (big * p + fv)) / p <= u32::MAX ==> (m * (big * p + fv)) / p == (m * (ip * p + fv))
            / p,
        m * (big * p + fv) <= 0x8000000000000000000000000000,
{
    assert(m * (big * p + fv) <= 2400 * ((u32::MAX + 1) * pow10(20) + pow10(20))) by (
    nonlinear_arith)
        requires
            1 <= m <= 2400,
            p >= 1,
            p <= pow10(20),
            fv < p,
            big <= u32::MAX + 1,
    ;
    assert(2400 * ((u32::MAX + 1) * pow10(20) + pow10(20)) <= 0x8000000000000000000000000000) by {
        assert(pow10(20) == 0x56bc75e2d63100000) by {
            reveal_with_fuel(pow10, 21);
        }
    }
    if !sat {
        assert(big == ip);
    } else {
        // The saturated value already pushes the result past the cap.
        assert(m * (big * p + fv) >= big * p) by (nonlinear_arith)
            requires
                m >= 1,
                fv >= 0,
                p >= 1,
                big >= 0,
        ;
        assert((m * (big * p + fv)) / p >= (big * p) / p) by {
            vstd::arithmetic::div_mod::lemma_div_is_ordered(
                (big * p) as int,
                (m * (big * p + fv)) as int,
                p as int,
            );
        }
        assert((big * p) / p == big) by {
            vstd::arithmetic::div_mod::lemma_div_by_multiple(big as int, p as int);
        }
        assert((m * (big * p + fv)) / p > u32::MAX);
        assert(m * (ip * p + fv) >= ip * p) by (nonlinear_arith)
            requires
                m >= 1,
                fv >= 0,
                p >= 1,
                ip >= 0,
        ;
        assert((m * (ip * p + fv)) / p >= (ip * p) / p) by {
            vstd::arithmetic::div_mod::lemma_div_is_ordered(
                (ip * p) as int,
                (m * (ip * p + fv)) as int,
                p as int,
            );
        }
        assert((ip * p) / p == ip) by {
            vstd::arithmetic::div_mod::lemma_div_by_multiple(ip as int, p as int);
        }
        assert(big * p + fv <= ip * p + fv) by (nonlinear_arith)
            requires
                big <= ip,
                p >= 1,
        ;
        assert(m * (big * p + fv) <= m * (ip * p + fv)) by (nonlinear_arith)
            requires
                big * p + fv <= ip * p + fv,
                m >= 1,
        ;
        vstd::arithmetic::div_mod::lemma_div_is_ordered(
            (m * (big * p + fv)) as int,
            (m * (ip * p + fv)) as int,
            p as int,
        );
    }
}

} // verus!
