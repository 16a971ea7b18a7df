//! Verified character-level text utilities: ASCII case-insensitive substring
//! search, trimming, decimal integer parsing and whitespace splitting.

use vstd::prelude::*;

verus! {

/// The whitespace characters this library's parsers strip and split on.
pub open spec fn is_ws_char(c: char) -> bool {
    c == ' ' || c == '\t' || c == '\n' || c == '\r'
}

pub fn is_ws(c: char) -> (r: bool)
    ensures
        r == is_ws_char(c),
{
    c == ' ' || c == '\t' || c == '\n' || c == '\r'
}

/// Two characters are the same letter up to ASCII case.
pub open spec fn chars_eq_ci(a: char, b: char) -> bool {
    ||| a == b
    ||| (65 <= a as u32 <= 90 && b as u32 == a as u32 + 32)
    ||| (65 <= b as u32 <= 90 && a as u32 == b as u32 + 32)
}

pub fn char_eq_ci(a: char, b: char) -> (r: bool)
    ensures
        r == chars_eq_ci(a, b),
{
    let x = a as u32;
    let y = b as u32;
    x == y || (65 <= x && x <= 90 && y == x + 32) || (65 <= y && y <= 90 && x == y + 32)
}

/// The needle matches the haystack at offset `k`, up to ASCII case.
pub open spec fn matches_ci_at(hay: Seq<char>, needle: Seq<char>, k: int) -> bool {
    forall|j: int| 0 <= j < needle.len() ==> chars_eq_ci(hay[k + j], needle[j])
}

/// ASCII case-insensitive substring containment, the library's reading of a
/// `%needle%` pattern. An empty needle is contained in every string.
pub open spec fn contains_ci_spec(hay: Seq<char>, needle: Seq<char>) -> bool {
    exists|k: int| 0 <= k <= hay.len() - needle.len() && matches_ci_at(hay, needle, k)
}

pub fn contains_ci(hay: &str, needle: &str) -> (r: bool)
    ensures
        r == contains_ci_spec(hay@, needle@),
{
    let n = hay.unicode_len();
    let m = needle.unicode_len();
    if m > n {
        assert(!contains_ci_spec(hay@, needle@));
        return false;
    }
    let mut k: usize = 0;
    while k <= n - m
        invariant
            m <= n,
            n == hay@.len(),
            m == needle@.len(),
            k <= n - m + 1,
            forall|k2: int| 0 <= k2 < k ==> !matches_ci_at(hay@, needle@, k2),
        decreases n - m - k + 1,
    {
        let mut j: usize = 0;
        let mut ok = true;
        while j < m && ok
            invariant
                m <= n,
                n == hay@.len(),
                m == needle@.len(),
                k <= n - m,
                j <= m,
                ok ==> forall|j2: int| 0 <= j2 < j ==> chars_eq_ci(hay@[k + j2], needle@[j2]),
                !ok ==> !matches_ci_at(hay@, needle@, k as int),
            decreases m - j + (if ok { 1int } else { 0int }),
        {
            if !char_eq_ci(hay.get_char(k + j), needle.get_char(j)) {
                assert(!chars_eq_ci(hay@[k as int + j as int], needle@[j as int]));
                ok = false;
            } else {
                j += 1;
            }
        }
        if ok {
            assert(matches_ci_at(hay@, needle@, k as int));
            return true;
        }
        k += 1;
    }
    false
}

/// Index of the first non-whitespace character at or after `i`.
pub open spec fn trim_start_idx(s: Seq<char>, i: int) -> int
    decreases s.len() - i,
{
    if 0 <= i < s.len() && is_ws_char(s[i]) {
        trim_start_idx(s, i + 1)
    } else {
        i
    }
}

/// Index one past the last non-whitespace character strictly before `j`.
pub open spec fn trim_end_idx(s: Seq<char>, j: int) -> int
    decreases j,
{
    if 0 < j <= s.len() && is_ws_char(s[j - 1]) {
        trim_end_idx(s, j - 1)
    } else {
        j
    }
}

pub proof fn lemma_trim_end_bounds(s: Seq<char>, j: int)
    requires
        0 <= j <= s.len(),
    ensures
        0 <= trim_end_idx(s, j) <= j,
    decreases j,
{
    if 0 < j <= s.len() && is_ws_char(s[j - 1]) {
        lemma_trim_end_bounds(s, j - 1);
    }
}

/// The string with leading and trailing whitespace removed.
pub open spec fn spec_trim(s: Seq<char>) -> Seq<char> {
    let a = trim_start_idx(s, 0);
    let b = trim_end_idx(s, s.len() as int);
    if a <= b {
        s.subrange(a, b)
    } else {
        Seq::empty()
    }
}

pub fn trim_str(s: &str) -> (r: String)
    ensures
        r@ == spec_trim(s@),
{
    let n = s.unicode_len();
    let mut a: usize = 0;
    while a < n && is_ws(s.get_char(a))
        invariant
            a <= n,
            n == s@.len(),
            trim_start_idx(s@, 0) == trim_start_idx(s@, a as int),
        decreases n - a,
    {
        a += 1;
    }
    assert(trim_start_idx(s@, a as int) == a as int);
    let mut b: usize = n;
    while b > a && is_ws(s.get_char(b - 1))
        invariant
            a <= b <= n,
            n == s@.len(),
            trim_end_idx(s@, n as int) == trim_end_idx(s@, b as int),
        decreases b,
    {
        b -= 1;
    }
    if b == a {
        // Either the string is all whitespace or the trimmed range is empty.
        proof {
            lemma_trim_end_bounds(s@, a as int);
            assert(spec_trim(s@) =~= Seq::<char>::empty());
        }
        return String::new();
    }
    assert(trim_end_idx(s@, b as int) == b as int);
    let piece = s.substring_char(a, b);
    assert(piece@ =~= spec_trim(s@));
    String::from_str(piece)
}

pub open spec fn is_digit_char(c: char) -> bool {
    48 <= c as u32 <= 57
}

pub open spec fn digit_val(c: char) -> int {
    c as u32 - 48
}

pub open spec fn all_digits(s: Seq<char>) -> bool {
    forall|i: int| 0 <= i < s.len() ==> is_digit_char(#[trigger] s[i])
}

/// The value of a string of decimal digits, most significant first.
pub open spec fn digits_val(s: Seq<char>) -> int
    decreases s.len(),
{
    if s.len() == 0 {
        0
    } else {
        digits_val(s.drop_last()) * 10 + digit_val(s.last())
    }
}

pub proof fn lemma_digits_val_nonneg(s: Seq<char>)
    requires
        all_digits(s),
    ensures
        digits_val(s) >= 0,
    decreases s.len(),
{
    if s.len() > 0 {
        assert(all_digits(s.drop_last()));
        lemma_digits_val_nonneg(s.drop_last());
    }
}

/// Dropping trailing digits can only shrink the value.
pub proof fn lemma_digits_val_prefix_le(s: Seq<char>, i: int)
    requires
        all_digits(s),
        0 <= i <= s.len(),
    ensures
        digits_val(s.take(i)) <= digits_val(s),
    decreases s.len() - i,
{
    if i < s.len() {
        lemma_digits_val_prefix_le(s, i + 1);
        let t = s.take(i + 1);
        assert(t.drop_last() =~= s.take(i));
        assert(all_digits(t.drop_last()));
        lemma_digits_val_nonneg(t.drop_last());
        assert(digits_val(t) == digits_val(s.take(i)) * 10 + digit_val(t.last()));
        assert(digits_val(s.take(i)) <= digits_val(s.take(i)) * 10 + digit_val(t.last()));
    } else {
        assert(s.take(i) =~= s);
    }
}

/// What `str::parse` accepts for a signed integer: an optional sign followed
/// by at least one decimal digit, and nothing else.
pub open spec fn spec_parse_int(s: Seq<char>) -> Option<int> {
    if s.len() == 0 {
        None
    } else if s[0] == '-' {
        if s.len() > 1 && all_digits(s.skip(1)) {
            Some(-digits_val(s.skip(1)))
        } else {
            None
        }
    } else if s[0] == '+' {
        if s.len() > 1 && all_digits(s.skip(1)) {
            Some(digits_val(s.skip(1)))
        } else {
            None
        }
    } else if all_digits(s) {
        Some(digits_val(s))
    } else {
        None
    }
}

/// Parses the digits of `s` from `start` to the end as an unsigned value.
/// Returns `None` when a non-digit occurs or the value exceeds `u64::MAX`.
fn parse_digits_u64(s: &str, start: usize) -> (r: Option<u64>)
    requires
        start <= s@.len(),
    ensures
        s@.len() == start ==> r is None,
        r is Some ==> all_digits(s@.skip(start as int)) && r.unwrap() == digits_val(
            s@.skip(start as int),
        ) && s@.len() > start,
        r is None ==> !all_digits(s@.skip(start as int)) || digits_val(s@.skip(start as int))
            > u64::MAX || s@.len() == start,
{
    let n = s.unicode_len();
    if start == n {
        return None;
    }
    let ghost whole = s@.skip(start as int);
    let mut acc: u64 = 0;
    let mut i: usize = start;
    while i < n
        invariant
            start <= i <= n,
            n == s@.len(),
            start < n,
            whole == s@.skip(start as int),
            all_digits(whole.take(i - start)),
            acc == digits_val(whole.take(i - start)),
        decreases n - i,
    {
        let c = s.get_char(i);
        let cv = c as u32;
        if cv < 48 || cv > 57 {
            assert(!is_digit_char(whole[i - start]));
            assert(!all_digits(whole));
            return None;
        }
        let d: u64 = (cv - 48) as u64;
        if acc > (u64::MAX - d) / 10 {
            // The true value is at least as large as this prefix already is.
            proof {
                assert(acc * 10 + d > u64::MAX) by (nonlinear_arith)
                    requires
                        acc > (u64::MAX - d) / 10,
                        d <= 9,
                ;
                let t = whole.take(i - start + 1);
                assert(t.drop_last() =~= whole.take(i - start));
                assert(digits_val(t) == acc * 10 + d);
                if all_digits(whole) {
                    lemma_digits_val_prefix_le(whole, i - start + 1);
                }
            }
            return None;
        }
        proof {
            let t = whole.take(i - start + 1);
            assert(t.drop_last() =~= whole.take(i - start));
            assert(t.last() == whole[i - start]);
        }
        acc = acc * 10 + d;
        i += 1;
    }
    proof {
        assert(whole.take(n - start) =~= whole);
    }
    Some(acc)
}

/// Parses a signed decimal integer exactly as `str::parse::<i64>` does.
pub fn parse_i64(s: &str) -> (r: Option<i64>)
    ensures
        r is Some ==> spec_parse_int(s@) == Some(r.unwrap() as int),
        r is None ==> spec_parse_int(s@) is None || (spec_parse_int(s@) is Some && (
        spec_parse_int(s@).unwrap() > i64::MAX || spec_parse_int(s@).unwrap() < i64::MIN)),
{
    let n = s.unicode_len();
    if n == 0 {
        return None;
    }
    let c0 = s.get_char(0);
    if c0 == '-' {
        match parse_digits_u64(s, 1) {
            Some(v) => {
                proof {
                    lemma_digits_val_nonneg(s@.skip(1));
                }
                if v <= 9223372036854775807u64 {
                    Some(-(v as i64))
                } else if v == 9223372036854775808u64 {
                    Some(i64::MIN)
                } else {
                    None
                }
            },
            None => None,
        }
    } else if c0 == '+' {
        match parse_digits_u64(s, 1) {
            Some(v) => {
                if v <= i64::MAX as u64 {
                    Some(v as i64)
                } else {
                    None
                }
            },
            None => None,
        }
    } else {
        proof {
            assert(s@.skip(0) =~= s@);
        }
        match parse_digits_u64(s, 0) {
            Some(v) => {
                if v <= i64::MAX as u64 {
                    Some(v as i64)
                } else {
                    None
                }
            },
            None => None,
        }
    }
}

/// Relies on String::push: appends the given character to the end of the
/// string.
pub assume_specification[ String::push ](s: &mut String, c: char)
    ensures
        final(s)@ == old(s)@.push(c),
;

/// The whitespace-split of `s` continued from position `i` with the pending
/// token `cur` and the tokens `out` already produced.
pub open spec fn split_ws_acc(s: Seq<char>, i: int, cur: Seq<char>, out: Seq<Seq<char>>) -> Seq<
    Seq<char>,
>
    decreases s.len() - i,
{
    if i < 0 || i >= s.len() {
        if cur.len() > 0 {
            out.push(cur)
        } else {
            out
        }
    } else if is_ws_char(s[i]) {
        if cur.len() > 0 {
            split_ws_acc(s, i + 1, Seq::empty(), out.push(cur))
        } else {
            split_ws_acc(s, i + 1, cur, out)
        }
    } else {
        split_ws_acc(s, i + 1, cur.push(s[i]), out)
    }
}

/// The maximal whitespace-free runs of `s`, in order.
pub open spec fn spec_split_ws(s: Seq<char>) -> Seq<Seq<char>> {
    split_ws_acc(s, 0, Seq::empty(), Seq::empty())
}

pub fn split_ws(s: &str) -> (r: Vec<String>)
    ensures
        r.deep_view() == spec_split_ws(s@),
{
    let n = s.unicode_len();
    let mut out: Vec<String> = Vec::new();
    let mut cur = String::new();
    proof {
        assert(out.deep_view() =~= Seq::<Seq<char>>::empty());
        assert(cur@ =~= Seq::<char>::empty());
    }
    let mut i: usize = 0;
    while i < n
        invariant
            i <= n,
            n == s@.len(),
            spec_split_ws(s@) == split_ws_acc(s@, i as int, cur@, out.deep_view()),
        decreases n - i,
    {
        let c = s.get_char(i);
        if is_ws(c) {
            if cur.unicode_len() > 0 {
                let ghost prev_out = out.deep_view();
                out.push(cur);
                assert(out.deep_view() =~= prev_out.push(cur@));
                cur = String::new();
            }
        } else {
            cur.push(c);
        }
        i += 1;
    }
    if cur.unicode_len() > 0 {
        let ghost prev_out = out.deep_view();
        out.push(cur);
        assert(out.deep_view() =~= prev_out.push(cur@));
    }
    out
}

/// Character-by-character string equality.
pub fn str_eq(a: &str, b: &str) -> (r: bool)
    ensures
        r == (a@ == b@),
{
    let n = a.unicode_len();
    let m = b.unicode_len();
    if n != m {
        return false;
    }
    let mut i: usize = 0;
    while i < n
        invariant
            i <= n,
            n == a@.len(),
            n == b@.len(),
            forall|j: int| 0 <= j < i ==> a@[j] == b@[j],
        decreases n - i,
    {
        if a.get_char(i) != b.get_char(i) {
            return false;
        }
        i += 1;
    }
    proof {
        assert(a@ =~= b@);
    }
    true
}

} // verus!
