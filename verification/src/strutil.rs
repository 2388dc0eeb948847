//! Small verified utilities on strings and integer vectors that the rest
//! of the crate builds on: decimal parsing and printing, ASCII case
//! handling, substring search, and sorting of id lists.

use vstd::prelude::*;

verus! {

// ---------------------------------------------------------------------
// Decimal digits
// ---------------------------------------------------------------------

/// A decimal digit character.
pub open spec fn is_dec_digit(c: char) -> bool {
    '0' <= c && c <= '9'
}

/// Numeric value of a decimal digit character.
pub open spec fn digit_val(c: char) -> nat {
    (c as nat - '0' as nat) as nat
}

/// Every character of `s` is a decimal digit.
pub open spec fn all_dec_digits(s: Seq<char>) -> bool {
    forall|i: int| 0 <= i < s.len() ==> is_dec_digit(#[trigger] s[i])
}

/// Value of a digit string read as a base-10 number.
pub open spec fn digits_val(s: Seq<char>) -> nat
    decreases s.len(),
{
    if s.len() == 0 {
        0
    } else {
        digits_val(s.drop_last()) * 10 + digit_val(s.last())
    }
}

/// Digit character for a value below ten.
pub open spec fn digit_char(d: nat) -> char {
    if d == 0 { '0' }
    else if d == 1 { '1' }
    else if d == 2 { '2' }
    else if d == 3 { '3' }
    else if d == 4 { '4' }
    else if d == 5 { '5' }
    else if d == 6 { '6' }
    else if d == 7 { '7' }
    else if d == 8 { '8' }
    else { '9' }
}

/// Shortest decimal representation of `n`.
pub open spec fn dec_str(n: nat) -> Seq<char>
    decreases n,
{
    if n < 10 {
        seq![digit_char(n)]
    } else {
        dec_str(n / 10).push(digit_char(n % 10))
    }
}

/// Appending one more digit multiplies the value by ten.
pub proof fn lemma_digits_val_push(s: Seq<char>, c: char)
    ensures
        digits_val(s.push(c)) == digits_val(s) * 10 + digit_val(c),
{
    assert(s.push(c).drop_last() =~= s);
    assert(s.push(c).last() == c);
}

// ---------------------------------------------------------------------
// Parsing an unsigned 32-bit number
// ---------------------------------------------------------------------

/// What `parse_u32` accepts: an optional leading `'+'`, then one or more
/// decimal digits whose value fits in a `u32`.
pub open spec fn parse_u32_spec(s: Seq<char>) -> Option<u32> {
    let body = if s.len() > 0 && s[0] == '+' { s.subrange(1, s.len() as int) } else { s };
    if body.len() > 0 && all_dec_digits(body) && digits_val(body) <= u32::MAX {
        Some(digits_val(body) as u32)
    } else {
        None
    }
}

/// Parses a decimal number with an optional leading `'+'`, rejecting
/// anything else and values above `u32::MAX`.
pub fn parse_u32(s: &str) -> (r: Option<u32>)
    ensures
        r == parse_u32_spec(s@),
{
    let len = s.unicode_len();
    let start: usize = if len > 0 && s.get_char(0) == '+' { 1 } else { 0 };
    let ghost body = if s@.len() > 0 && s@[0] == '+' {
        s@.subrange(1, s@.len() as int)
    } else {
        s@
    };
    if len == start {
        return None;
    }
    let mut i: usize = start;
    let mut acc: u64 = 0;
    while i < len
        invariant
            start <= i <= len,
            len == s@.len(),
            start == 0 || start == 1,
            start == 1 ==> s@.len() > 0 && s@[0] == '+',
            start == 0 ==> !(s@.len() > 0 && s@[0] == '+'),
            body == s@.subrange(start as int, len as int),
            all_dec_digits(s@.subrange(start as int, i as int)),
            acc == digits_val(s@.subrange(start as int, i as int)),
            acc <= u32::MAX,
        decreases len - i,
    {
        let c = s.get_char(i);
        if !(c >= '0' && c <= '9') {
            proof {
                assert(s@.subrange(0, len as int) =~= s@);
                assert(body[(i - start) as int] == c);
            }
            return None;
        }
        let d: u64 = (c as u32 - '0' as u32) as u64;
        let next: u64 = acc * 10 + d;
        proof {
            assert(s@.subrange(start as int, i as int).push(c)
                =~= s@.subrange(start as int, (i + 1) as int));
            lemma_digits_val_push(s@.subrange(start as int, i as int), c);
        }
        if next > u32::MAX as u64 {
            // Once the prefix overflows, every extension does too.
            proof {
                assert(s@.subrange(0, len as int) =~= s@);
                assert(digit_val(c) == d as nat);
                assert(digits_val(s@.subrange(start as int, (i + 1) as int)) == acc * 10 + d);
                assert(body.subrange(0, (i + 1 - start) as int)
                    =~= s@.subrange(start as int, (i + 1) as int));
                lemma_digits_prefix_overflow(
                    body,
                    (i + 1 - start) as int,
                    digits_val(s@.subrange(start as int, (i + 1) as int)),
                );
                assert(digits_val(body) > u32::MAX);
            }
            return None;
        }
        acc = next;
        i = i + 1;
    }
    proof {
        assert(s@.subrange(0, len as int) =~= s@);
        assert(s@.subrange(start as int, i as int) =~= body);
    }
    Some(acc as u32)
}

/// If some prefix of a digit string already exceeds `u32::MAX`, the whole
/// string does.
proof fn lemma_digits_prefix_overflow(s: Seq<char>, k: int, pv: nat)
    requires
        0 <= k <= s.len(),
        pv == digits_val(s.subrange(0, k)),
        pv > u32::MAX,
    ensures
        digits_val(s) > u32::MAX,
    decreases s.len() - k,
{
    if k == s.len() {
        assert(s.subrange(0, k) =~= s);
    } else {
        assert(s.subrange(0, k + 1) =~= s.subrange(0, k).push(s[k]));
        lemma_digits_val_push(s.subrange(0, k), s[k]);
        lemma_digits_prefix_overflow(s, k + 1, digits_val(s.subrange(0, k + 1)));
    }
}

// ---------------------------------------------------------------------
// Printing an unsigned 32-bit number
// ---------------------------------------------------------------------

/// Appends one digit character to a string.
fn push_digit(s: &mut String, d: u32)
    requires
        d < 10,
    ensures
        final(s)@ == old(s)@.push(digit_char(d as nat)),
{
    proof {
        reveal_strlit("0");
        reveal_strlit("1");
        reveal_strlit("2");
        reveal_strlit("3");
        reveal_strlit("4");
        reveal_strlit("5");
        reveal_strlit("6");
        reveal_strlit("7");
        reveal_strlit("8");
        reveal_strlit("9");
    }
    match d {
        0 => s.append("0"),
        1 => s.append("1"),
        2 => s.append("2"),
        3 => s.append("3"),
        4 => s.append("4"),
        5 => s.append("5"),
        6 => s.append("6"),
        7 => s.append("7"),
        8 => s.append("8"),
        _ => s.append("9"),
    }
    assert(s@ =~= old(s)@.push(digit_char(d as nat)));
}

/// Writes `n` in decimal.
pub fn u32_to_string(n: u32) -> (r: String)
    ensures
        r@ == dec_str(n as nat),
{
    let mut digits: Vec<u32> = Vec::new();
    let mut m: u32 = n;
    // `suffix` is the tail of digit characters already peeled off `n`,
    // in printing order.
    let ghost mut suffix: Seq<char> = Seq::empty();
    loop
        invariant_except_break
            dec_str(n as nat) == dec_str(m as nat) + suffix,
        invariant
            forall|j: int| 0 <= j < digits@.len() ==> #[trigger] digits@[j] < 10,
            suffix.len() == digits@.len(),
            forall|j: int| 0 <= j < suffix.len()
                ==> #[trigger] suffix[j] == digit_char(digits@[digits@.len() - 1 - j] as nat),
        ensures
            forall|j: int| 0 <= j < digits@.len() ==> #[trigger] digits@[j] < 10,
            suffix.len() == digits@.len(),
            forall|j: int| 0 <= j < suffix.len()
                ==> #[trigger] suffix[j] == digit_char(digits@[digits@.len() - 1 - j] as nat),
            dec_str(n as nat) == suffix,
        decreases m,
    {
        let d: u32 = m % 10;
        digits.push(d);
        proof {
            if m >= 10 {
                assert(dec_str(m as nat) == dec_str((m / 10) as nat).push(digit_char((m % 10) as nat)));
                assert(dec_str((m / 10) as nat) + (seq![digit_char(d as nat)] + suffix)
                    =~= dec_str(m as nat) + suffix);
            } else {
                assert(dec_str(m as nat) =~= seq![digit_char(d as nat)]);
                assert(dec_str(m as nat) + suffix =~= seq![digit_char(d as nat)] + suffix);
            }
            suffix = seq![digit_char(d as nat)] + suffix;
        }
        m = m / 10;
        if m == 0 {
            proof {
                assert(dec_str(0nat) =~= seq![digit_char(0nat)]);
            }
            assert(dec_str(n as nat) =~= suffix);
            break;
        }
    }
    let mut out = String::new();
    let len = digits.len();
    let mut i: usize = len;
    while i > 0
        invariant
            i <= len,
            len == digits@.len(),
            forall|j: int| 0 <= j < digits@.len() ==> #[trigger] digits@[j] < 10,
            suffix.len() == digits@.len(),
            forall|j: int| 0 <= j < suffix.len()
                ==> #[trigger] suffix[j] == digit_char(digits@[digits@.len() - 1 - j] as nat),
            out@ == suffix.subrange(0, len - i),
        decreases i,
    {
        i = i - 1;
        push_digit(&mut out, digits[i]);
        proof {
            assert(suffix[len - 1 - i] == digit_char(digits@[i as int] as nat));
            assert(out@ =~= suffix.subrange(0, len - i));
        }
    }
    proof {
        assert(suffix.subrange(0, suffix.len() as int) =~= suffix);
    }
    out
}

// ---------------------------------------------------------------------
// Sorted id lists
// ---------------------------------------------------------------------

/// Ascending order, duplicates allowed.
pub open spec fn sorted(s: Seq<u32>) -> bool {
    forall|i: int, j: int| 0 <= i < j < s.len() ==> #[trigger] s[i] <= #[trigger] s[j]
}

/// Strictly ascending order: sorted and free of duplicates.
pub open spec fn strictly_sorted(s: Seq<u32>) -> bool {
    forall|i: int, j: int| 0 <= i < j < s.len() ==> #[trigger] s[i] < #[trigger] s[j]
}

/// Linear membership test.
pub fn contains_u32(v: &Vec<u32>, x: u32) -> (r: bool)
    ensures
        r == v@.contains(x),
{
    let mut i: usize = 0;
    while i < v.len()
        invariant
            i <= v@.len(),
            forall|k: int| 0 <= k < i ==> v@[k] != x,
        decreases v@.len() - i,
    {
        if v[i] == x {
            return true;
        }
        i = i + 1;
    }
    false
}

/// Insertion sort, ascending.
pub fn sort_u32(v: &mut Vec<u32>)
    ensures
        sorted(final(v)@),
        final(v)@.to_multiset() == old(v)@.to_multiset(),
        final(v)@.len() == old(v)@.len(),
        forall|x: u32| final(v)@.contains(x) <==> old(v)@.contains(x),
{
    let ghost orig = v@;
    let mut i: usize = 1;
    while i < v.len()
        invariant
            1 <= i || v@.len() <= 1,
            i <= v@.len() || v@.len() <= 1,
            v@.len() == orig.len(),
            v@.to_multiset() == orig.to_multiset(),
            sorted(v@.subrange(0, i as int)) || i > v@.len(),
        decreases v@.len() - i,
    {
        proof {
            assert forall|a: int, b: int| 0 <= a < b < i implies #[trigger] v@[a] <= #[trigger] v@[b] by {
                assert(v@.subrange(0, i as int)[a] == v@[a]);
                assert(v@.subrange(0, i as int)[b] == v@[b]);
            }
        }
        let mut j: usize = i;
        while j > 0 && v[j - 1] > v[j]
            invariant
                j <= i < v@.len(),
                v@.len() == orig.len(),
                v@.to_multiset() == orig.to_multiset(),
                forall|a: int, b: int|
                    0 <= a < b <= i && a != j && b != j ==> #[trigger] v@[a] <= #[trigger] v@[b],
                forall|b: int| j < b <= i ==> #[trigger] v@[b] >= v@[j as int],
            decreases j,
        {
            let ghost before = v@;
            let a = v[j - 1];
            let b = v[j];
            v.set(j - 1, b);
            v.set(j, a);
            proof {
                vstd::seq_lib::to_multiset_update(before, j - 1, b);
                vstd::seq_lib::to_multiset_update(before.update(j - 1, b), j as int, a);
                vstd::seq_lib::lemma_multiset_commutative(before, before);
                assert(v@.to_multiset() =~= before.to_multiset()) by {
                    broadcast use vstd::seq_lib::group_to_multiset_ensures;

                    assert(before.update(j - 1, b).update(j as int, a).to_multiset()
                        == before.to_multiset().insert(b).remove(before[j - 1]).insert(a).remove(
                        before.update(j - 1, b)[j as int]));
                    assert(before.update(j - 1, b)[j as int] == b);
                    assert(before.to_multiset().insert(b).remove(a).insert(a).remove(b)
                        =~= before.to_multiset());
                }
            }
            j = j - 1;
        }
        i = i + 1;
        proof {
            assert(sorted(v@.subrange(0, i as int)));
        }
    }
    proof {
        assert(v@.subrange(0, v@.len() as int) =~= v@);
        if v@.len() <= 1 {
            assert(sorted(v@));
        }
        assert forall|x: u32| v@.contains(x) <==> orig.contains(x) by {
            broadcast use vstd::seq_lib::group_to_multiset_ensures;

            assert(v@.contains(x) <==> v@.to_multiset().count(x) > 0);
            assert(orig.contains(x) <==> orig.to_multiset().count(x) > 0);
        }
    }
}

/// Copies an id list.
pub fn copy_ids(v: &Vec<u32>) -> (r: Vec<u32>)
    ensures
        r@ == v@,
{
    let mut r: Vec<u32> = Vec::new();
    let mut i: usize = 0;
    while i < v.len()
        invariant
            i <= v@.len(),
            r@ == v@.subrange(0, i as int),
        decreases v@.len() - i,
    {
        r.push(v[i]);
        proof {
            assert(r@ =~= v@.subrange(0, (i + 1) as int));
        }
        i = i + 1;
    }
    proof {
        assert(v@.subrange(0, v@.len() as int) =~= v@);
    }
    r
}

/// Strict ascending order leaves no room for duplicates.
pub proof fn lemma_strictly_sorted_no_duplicates(s: Seq<u32>)
    requires
        strictly_sorted(s),
    ensures
        s.no_duplicates(),
{
}

/// Two strictly ascending lists over the same set of ids are the same
/// list.
pub proof fn lemma_strictly_sorted_equal(a: Seq<u32>, b: Seq<u32>)
    requires
        strictly_sorted(a),
        strictly_sorted(b),
        a.to_set() == b.to_set(),
    ensures
        a == b,
    decreases a.len(),
{
    if a.len() == 0 {
        if b.len() > 0 {
            assert(b.to_set().contains(b[0]));
            assert(a.contains(b[0]));
        }
        assert(a =~= b);
    } else {
        assert(a.to_set().contains(a[0])) by {
            assert(a.contains(a[0]));
        }
        assert(b.len() > 0) by {
            assert(b.contains(a[0]));
        }
        assert(b.to_set().contains(b[0])) by {
            assert(b.contains(b[0]));
        }
        // Both heads are the least element of the shared set.
        assert(a[0] == b[0]) by {
            assert(a.contains(b[0]));
            let i = choose|i: int| 0 <= i < a.len() && a[i] == b[0];
            assert(b.contains(a[0]));
            let j = choose|j: int| 0 <= j < b.len() && b[j] == a[0];
            if a[0] < b[0] {
                assert(b[0] <= b[j]);
            } else if b[0] < a[0] {
                assert(a[0] <= a[i]);
            }
        }
        let a2 = a.drop_first();
        let b2 = b.drop_first();
        assert(strictly_sorted(a2)) by {
            assert(forall|i: int| 0 <= i < a2.len() ==> #[trigger] a2[i] == a[i + 1]);
        }
        assert(strictly_sorted(b2)) by {
            assert(forall|i: int| 0 <= i < b2.len() ==> #[trigger] b2[i] == b[i + 1]);
        }
        assert(a2.to_set() =~= b2.to_set()) by {
            assert forall|x: u32| a2.to_set().contains(x) implies b2.to_set().contains(x) by {
                let i = choose|i: int| 0 <= i < a2.len() && a2[i] == x;
                assert(a[i + 1] == x);
                assert(a[0] < x);
                assert(b.contains(x)) by {
                    assert(a.contains(x));
                    assert(a.to_set().contains(x));
                    assert(b.to_set().contains(x));
                }
                let j = choose|j: int| 0 <= j < b.len() && b[j] == x;
                assert(j > 0) by {
                    if j == 0 {
                        assert(b[0] == x);
                    }
                }
                assert(b2[j - 1] == x);
                assert(b2.contains(x));
            }
            assert forall|x: u32| b2.to_set().contains(x) implies a2.to_set().contains(x) by {
                let i = choose|i: int| 0 <= i < b2.len() && b2[i] == x;
                assert(b[i + 1] == x);
                assert(b[0] < x);
                assert(a.contains(x)) by {
                    assert(b.contains(x));
                    assert(b.to_set().contains(x));
                    assert(a.to_set().contains(x));
                }
                let j = choose|j: int| 0 <= j < a.len() && a[j] == x;
                assert(j > 0) by {
                    if j == 0 {
                        assert(a[0] == x);
                    }
                }
                assert(a2[j - 1] == x);
                assert(a2.contains(x));
            }
        }
        lemma_strictly_sorted_equal(a2, b2);
        assert(a =~= b) by {
            assert(forall|i: int| 0 < i < a.len() ==> #[trigger] a[i] == a2[i - 1]);
            assert(forall|i: int| 0 < i < b.len() ==> #[trigger] b[i] == b2[i - 1]);
        }
    }
}

/// Sorts a duplicate-free id list into strictly ascending order.
pub fn sort_distinct(v: &mut Vec<u32>)
    requires
        old(v)@.no_duplicates(),
    ensures
        strictly_sorted(final(v)@),
        final(v)@.to_set() == old(v)@.to_set(),
        final(v)@.len() == old(v)@.len(),
        final(v)@.no_duplicates(),
{
    let ghost orig = v@;
    sort_u32(v);
    proof {
        orig.lemma_multiset_has_no_duplicates();
        assert(v@.to_multiset() == orig.to_multiset());
        v@.lemma_multiset_has_no_duplicates_conv();
        assert forall|i: int, j: int| 0 <= i < j < v@.len() implies v@[i] < v@[j] by {
            assert(v@[i] <= v@[j]);
            if v@[i] == v@[j] {
                assert(!v@.no_duplicates());
            }
        }
        assert(v@.to_set() =~= orig.to_set()) by {
            assert(forall|x: u32| v@.contains(x) <==> orig.contains(x));
        }
    }
}

// ---------------------------------------------------------------------
// ASCII case handling and substring search
// ---------------------------------------------------------------------

/// Relies on `String::push`: appends exactly the given character to the
/// end of the string.
#[verifier::external_body]
pub fn push_char(s: &mut String, c: char)
    ensures
        final(s)@ == old(s)@.push(c),
{
    s.push(c);
}

/// ASCII lower-casing of one character; anything outside `'A'..='Z'`
/// is left alone.
pub open spec fn ascii_lower_char(c: char) -> char {
    if 'A' <= c && c <= 'Z' {
        ((c as u8) + 32) as char
    } else {
        c
    }
}

/// Pointwise ASCII lower-casing.
pub open spec fn ascii_lower(s: Seq<char>) -> Seq<char> {
    s.map_values(|c: char| ascii_lower_char(c))
}

/// A character with the white-space property.
pub open spec fn is_space(c: char) -> bool {
    c == ' ' || c == '\t' || c == '\n' || c == '\r' || c == '\u{0b}' || c == '\u{0c}' || c
        == '\u{85}' || c == '\u{a0}' || c == '\u{1680}' || ('\u{2000}' <= c && c <= '\u{200a}')
        || c == '\u{2028}' || c == '\u{2029}' || c == '\u{202f}' || c == '\u{205f}' || c
        == '\u{3000}'
}

/// String equality up to ASCII case.
pub fn eq_ignore_ascii_case(a: &str, b: &str) -> (r: bool)
    ensures
        r == (ascii_lower(a@) == ascii_lower(b@)),
{
    let la = a.unicode_len();
    let lb = b.unicode_len();
    if la != lb {
        proof {
            assert(ascii_lower(a@).len() == a@.len());
            assert(ascii_lower(b@).len() == b@.len());
        }
        return false;
    }
    let mut i: usize = 0;
    while i < la
        invariant
            i <= la,
            la == a@.len(),
            la == b@.len(),
            forall|t: int| 0 <= t < i ==> ascii_lower_char(a@[t]) == ascii_lower_char(#[trigger] b@[t]),
        decreases la - i,
    {
        let ca = a.get_char(i);
        let cb = b.get_char(i);
        let da: char = if ca >= 'A' && ca <= 'Z' {
            (((ca as u8) + 32) as char)
        } else {
            ca
        };
        let db: char = if cb >= 'A' && cb <= 'Z' {
            (((cb as u8) + 32) as char)
        } else {
            cb
        };
        if da != db {
            proof {
                assert(ascii_lower(a@)[i as int] == ascii_lower_char(a@[i as int]));
                assert(ascii_lower(b@)[i as int] == ascii_lower_char(b@[i as int]));
            }
            return false;
        }
        i = i + 1;
    }
    proof {
        assert(ascii_lower(a@) =~= ascii_lower(b@)) by {
            assert(forall|t: int|
                0 <= t < a@.len() ==> #[trigger] ascii_lower(a@)[t] == ascii_lower_char(a@[t]));
            assert(forall|t: int|
                0 <= t < b@.len() ==> #[trigger] ascii_lower(b@)[t] == ascii_lower_char(b@[t]));
        }
    }
    true
}

/// `needle` occurs contiguously inside `hay`.
pub open spec fn seq_contains_seq(hay: Seq<char>, needle: Seq<char>) -> bool {
    exists|i: int|
        0 <= i <= hay.len() - needle.len()
            && #[trigger] hay.subrange(i, i + needle.len()) == needle
}

/// Character-for-character string equality.
pub fn str_eq(a: &str, b: &str) -> (r: bool)
    ensures
        r == (a@ == b@),
{
    let la = a.unicode_len();
    let lb = b.unicode_len();
    if la != lb {
        return false;
    }
    let mut i: usize = 0;
    while i < la
        invariant
            i <= la,
            la == a@.len(),
            la == b@.len(),
            forall|t: int| 0 <= t < i ==> a@[t] == b@[t],
        decreases la - i,
    {
        if a.get_char(i) != b.get_char(i) {
            return false;
        }
        i = i + 1;
    }
    proof {
        assert(a@ =~= b@);
    }
    true
}

/// Tests whether the characters of `hay` starting at `at` spell `needle`.
fn matches_at(hay: &str, needle: &str, at: usize) -> (r: bool)
    requires
        at + needle@.len() <= hay@.len(),
    ensures
        r == (hay@.subrange(at as int, at + needle@.len()) == needle@),
{
    let h = hay.unicode_len();
    let n = needle.unicode_len();
    let mut k: usize = 0;
    while k < n
        invariant
            k <= n,
            n == needle@.len(),
            h == hay@.len(),
            at + n <= hay@.len(),
            forall|t: int| 0 <= t < k ==> hay@[at + t] == needle@[t],
        decreases n - k,
    {
        if hay.get_char(at + k) != needle.get_char(k) {
            assert(hay@.subrange(at as int, at + needle@.len()) != needle@) by {
                assert(hay@.subrange(at as int, at + needle@.len())[k as int] == hay@[at + k]);
            }
            return false;
        }
        k = k + 1;
    }
    proof {
        assert(hay@.subrange(at as int, at + needle@.len()) =~= needle@);
    }
    true
}

/// Substring search by scanning every starting position.
pub fn contains_str(hay: &str, needle: &str) -> (r: bool)
    ensures
        r == seq_contains_seq(hay@, needle@),
{
    let h = hay.unicode_len();
    let n = needle.unicode_len();
    if n > h {
        return false;
    }
    let mut i: usize = 0;
    loop
        invariant
            n <= h,
            h == hay@.len(),
            n == needle@.len(),
            i <= h - n,
            forall|t: int|
                0 <= t < i ==> #[trigger] hay@.subrange(t, t + needle@.len()) != needle@,
        ensures
            forall|t: int|
                0 <= t <= h - n ==> #[trigger] hay@.subrange(t, t + needle@.len()) != needle@,
        decreases h - n - i,
    {
        if matches_at(hay, needle, i) {
            return true;
        }
        if i == h - n {
            break;
        }
        i = i + 1;
    }
    false
}

} // verus!
