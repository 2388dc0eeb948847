//! Validation of interactive input: issue titles, priorities, effort
//! estimates and issue references. Checking that a file exists is left
//! to the caller, with the file system.

use vstd::prelude::*;

use crate::strutil::{ascii_lower, eq_ignore_ascii_case, is_space, parse_u32_spec, str_eq};

verus! {

/// Why an input was rejected.
#[derive(Debug, Clone, Copy, PartialEq, Eq, Structural)]
pub enum ValidationError {
    /// Nothing but whitespace.
    EmptyInput,
    /// Not one of critical, high, medium, low.
    BadPriority,
    /// Neither a T-shirt size, nor story points, nor a time estimate.
    BadEffort,
    /// A character other than an ASCII letter, digit or dash.
    BadRefChar,
}

/// The whole string is whitespace.
pub open spec fn all_whitespace(s: Seq<char>) -> bool {
    forall|i: int| 0 <= i < s.len() ==> is_space(#[trigger] s[i])
}

/// Accepts any input with at least one non-whitespace character.
pub fn validate_non_empty(input: &str) -> (r: Result<(), ValidationError>)
    ensures
        r is Ok <==> !all_whitespace(input@),
        r is Err ==> r == Err::<(), ValidationError>(ValidationError::EmptyInput),
{
    let len = input.unicode_len();
    let mut i: usize = 0;
    while i < len
        invariant
            i <= len,
            len == input@.len(),
            forall|t: int| 0 <= t < i ==> is_space(#[trigger] input@[t]),
        decreases len - i,
    {
        let c = input.get_char(i);
        if !is_space_char(c) {
            return Ok(());
        }
        i = i + 1;
    }
    Err(ValidationError::EmptyInput)
}

/// Whether the character has the white-space property.
pub fn is_space_char(c: char) -> (r: bool)
    ensures
        r == is_space(c),
{
    c == ' ' || c == '\t' || c == '\n' || c == '\r' || c == '\u{0b}' || c == '\u{0c}' || c
        == '\u{85}' || c == '\u{a0}' || c == '\u{1680}' || (c >= '\u{2000}' && c <= '\u{200a}') || c
        == '\u{2028}' || c == '\u{2029}' || c == '\u{202f}' || c == '\u{205f}' || c == '\u{3000}'
}

/// The priority names, compared without regard to ASCII case.
pub open spec fn is_priority_name(s: Seq<char>) -> bool {
    ||| ascii_lower(s) == "critical"@
    ||| ascii_lower(s) == "high"@
    ||| ascii_lower(s) == "medium"@
    ||| ascii_lower(s) == "low"@
}

/// Accepts exactly critical, high, medium or low, in any ASCII case.
pub fn validate_priority(input: &str) -> (r: Result<(), ValidationError>)
    ensures
        r is Ok <==> is_priority_name(input@),
        r is Err ==> r == Err::<(), ValidationError>(ValidationError::BadPriority),
{
    proof {
        reveal_strlit("critical");
        reveal_strlit("high");
        reveal_strlit("medium");
        reveal_strlit("low");
        assert(ascii_lower("critical"@) =~= "critical"@);
        assert(ascii_lower("high"@) =~= "high"@);
        assert(ascii_lower("medium"@) =~= "medium"@);
        assert(ascii_lower("low"@) =~= "low"@);
    }
    if eq_ignore_ascii_case(input, "critical") || eq_ignore_ascii_case(input, "high")
        || eq_ignore_ascii_case(input, "medium") || eq_ignore_ascii_case(input, "low") {
        Ok(())
    } else {
        Err(ValidationError::BadPriority)
    }
}

/// An accepted effort estimate: a T-shirt size in any ASCII case, one of
/// the story-point values, or a number of hours, days or minutes whose
/// numeric part reads as a `u32`.
pub open spec fn is_effort(s: Seq<char>) -> bool {
    ||| ascii_lower(s) == "xs"@
    ||| ascii_lower(s) == "s"@
    ||| ascii_lower(s) == "m"@
    ||| ascii_lower(s) == "l"@
    ||| ascii_lower(s) == "xl"@
    ||| s == "1"@
    ||| s == "2"@
    ||| s == "3"@
    ||| s == "5"@
    ||| s == "8"@
    ||| s == "13"@
    ||| s == "21"@
    ||| (s.len() > 0 && (s.last() == 'h' || s.last() == 'd' || s.last() == 'm')
        && parse_u32_spec(s.drop_last()) is Some)
}

/// Accepts T-shirt sizes, story points, and time estimates.
pub fn validate_effort(input: &str) -> (r: Result<(), ValidationError>)
    ensures
        r is Ok <==> is_effort(input@),
        r is Err ==> r == Err::<(), ValidationError>(ValidationError::BadEffort),
{
    proof {
        reveal_strlit("XS");
        reveal_strlit("S");
        reveal_strlit("M");
        reveal_strlit("L");
        reveal_strlit("XL");
        reveal_strlit("xs");
        reveal_strlit("s");
        reveal_strlit("m");
        reveal_strlit("l");
        reveal_strlit("xl");
        assert(ascii_lower("XS"@) =~= "xs"@);
        assert(ascii_lower("S"@) =~= "s"@);
        assert(ascii_lower("M"@) =~= "m"@);
        assert(ascii_lower("L"@) =~= "l"@);
        assert(ascii_lower("XL"@) =~= "xl"@);
    }
    if eq_ignore_ascii_case(input, "XS") || eq_ignore_ascii_case(input, "S")
        || eq_ignore_ascii_case(input, "M") || eq_ignore_ascii_case(input, "L")
        || eq_ignore_ascii_case(input, "XL") {
        return Ok(());
    }
    if str_eq(input, "1") || str_eq(input, "2") || str_eq(input, "3") || str_eq(input, "5")
        || str_eq(input, "8") || str_eq(input, "13") || str_eq(input, "21") {
        return Ok(());
    }
    let len = input.unicode_len();
    if len > 0 {
        let last = input.get_char(len - 1);
        if last == 'h' || last == 'd' || last == 'm' {
            let prefix = input.substring_char(0, len - 1);
            proof {
                assert(prefix@ =~= input@.drop_last());
            }
            if let Some(_n) = crate::strutil::parse_u32(prefix) {
                return Ok(());
            }
        }
    }
    proof {
        lemma_effort_reject(input@);
    }
    Err(ValidationError::BadEffort)
}

/// Rejection is sound: on this path none of the accepted shapes matches.
proof fn lemma_effort_reject(s: Seq<char>)
    requires
        !(ascii_lower(s) == "xs"@ || ascii_lower(s) == "s"@ || ascii_lower(s) == "m"@
            || ascii_lower(s) == "l"@ || ascii_lower(s) == "xl"@),
        !(s == "1"@ || s == "2"@ || s == "3"@ || s == "5"@ || s == "8"@ || s == "13"@ || s
            == "21"@),
        !(s.len() > 0 && (s.last() == 'h' || s.last() == 'd' || s.last() == 'm')
            && parse_u32_spec(s.drop_last()) is Some),
    ensures
        !is_effort(s),
{
}

/// An acceptable issue reference: non-blank, ASCII letters, digits and
/// dashes only.
pub open spec fn is_issue_ref(s: Seq<char>) -> bool {
    !all_whitespace(s) && forall|i: int|
        0 <= i < s.len() ==> crate::storage::is_ascii_alnum(#[trigger] s[i]) || s[i] == '-'
}

/// Accepts flexible reference formats built from letters, digits and
/// dashes.
pub fn validate_issue_ref(input: &str) -> (r: Result<(), ValidationError>)
    ensures
        r is Ok <==> is_issue_ref(input@),
        r is Err ==> r == Err::<(), ValidationError>(ValidationError::EmptyInput) || r == Err::<
            (),
            ValidationError,
        >(ValidationError::BadRefChar),
{
    match validate_non_empty(input) {
        Ok(()) => {},
        Err(_) => {
            return Err(ValidationError::EmptyInput);
        },
    }
    let len = input.unicode_len();
    let mut i: usize = 0;
    while i < len
        invariant
            i <= len,
            len == input@.len(),
            forall|t: int|
                0 <= t < i ==> crate::storage::is_ascii_alnum(#[trigger] input@[t]) || input@[t]
                    == '-',
        decreases len - i,
    {
        let c = input.get_char(i);
        let ok = (c >= 'a' && c <= 'z') || (c >= 'A' && c <= 'Z') || (c >= '0' && c <= '9') || c
            == '-';
        if !ok {
            return Err(ValidationError::BadRefChar);
        }
        i = i + 1;
    }
    Ok(())
}

} // verus!
