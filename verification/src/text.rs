//! Character-level text utilities shared by the algorithm-name lookup and
//! the configuration parser.

use vstd::prelude::*;

verus! {

/// Exact string equality, decided character by character.
pub fn str_eq(a: &str, b: &str) -> (r: bool)
    ensures
        r == (a@ == b@),
{
    let la = a.unicode_len();
    let lb = b.unicode_len();
    if la != lb {
        proof {
            assert(a@ != b@);
        }
        return false;
    }
    let mut i: usize = 0;
    while i < la
        invariant
            i <= la,
            la == a@.len(),
            la == b@.len(),
            forall|j: int| 0 <= j < i ==> a@[j] == b@[j],
        decreases la - i,
    {
        if a.get_char(i) != b.get_char(i) {
            proof {
                assert(a@ != b@);
            }
            return false;
        }
        i = i + 1;
    }
    proof {
        assert(a@ =~= b@);
    }
    true
}

/// The whitespace the configuration format strips: blanks, tabs and line
/// ends.
pub open spec fn is_ws(c: char) -> bool {
    c == ' ' || c == '\t' || c == '\r' || c == '\n'
}

/// `s` without leading whitespace.
pub open spec fn trim_start_spec(s: Seq<char>) -> Seq<char>
    decreases s.len(),
{
    if s.len() > 0 && is_ws(s[0]) {
        trim_start_spec(s.drop_first())
    } else {
        s
    }
}

/// `s` without trailing whitespace.
pub open spec fn trim_end_spec(s: Seq<char>) -> Seq<char>
    decreases s.len(),
{
    if s.len() > 0 && is_ws(s.last()) {
        trim_end_spec(s.drop_last())
    } else {
        s
    }
}

/// `s` without leading or trailing whitespace.
pub open spec fn trim_spec(s: Seq<char>) -> Seq<char> {
    trim_end_spec(trim_start_spec(s))
}

proof fn lemma_trim_start_at(s: Seq<char>, a: int)
    requires
        0 <= a <= s.len(),
        forall|j: int| 0 <= j < a ==> is_ws(#[trigger] s[j]),
        a < s.len() ==> !is_ws(s[a]),
    ensures
        trim_start_spec(s) == s.subrange(a, s.len() as int),
    decreases a,
{
    if a == 0 {
        assert(s.subrange(0, s.len() as int) =~= s);
    } else {
        lemma_trim_start_at(s.drop_first(), a - 1);
        assert(s.drop_first().subrange(a - 1, s.drop_first().len() as int) =~= s.subrange(
            a,
            s.len() as int,
        ));
    }
}

proof fn lemma_trim_end_at(s: Seq<char>, b: int)
    requires
        0 <= b <= s.len(),
        forall|j: int| b <= j < s.len() ==> is_ws(#[trigger] s[j]),
        b > 0 ==> !is_ws(s[b - 1]),
    ensures
        trim_end_spec(s) == s.subrange(0, b),
    decreases s.len() - b,
{
    if b == s.len() {
        assert(s.subrange(0, s.len() as int) =~= s);
    } else {
        lemma_trim_end_at(s.drop_last(), b);
        assert(s.drop_last().subrange(0, b) =~= s.subrange(0, b));
    }
}

/// The trimmed string is the subrange `[a, b)` when everything outside it
/// is whitespace and its two ends are not.
pub proof fn lemma_trim_is_subrange(s: Seq<char>, a: int, b: int)
    requires
        0 <= a <= b <= s.len(),
        forall|j: int| 0 <= j < a ==> is_ws(#[trigger] s[j]),
        forall|j: int| b <= j < s.len() ==> is_ws(#[trigger] s[j]),
        a < b ==> !is_ws(s[a]) && !is_ws(s[b - 1]),
        a == b ==> a == s.len(),
    ensures
        trim_spec(s) == s.subrange(a, b),
{
    lemma_trim_start_at(s, a);
    let t = s.subrange(a, s.len() as int);
    lemma_trim_end_at(t, b - a);
    assert(t.subrange(0, b - a) =~= s.subrange(a, b));
}

/// Whether a character is one of the kinds of whitespace the format
/// strips.
pub fn is_ws_exec(c: char) -> (r: bool)
    ensures
        r == is_ws(c),
{
    c == ' ' || c == '\t' || c == '\r' || c == '\n'
}

/// A copy of `s` with leading and trailing whitespace removed.
pub fn trim(s: &str) -> (r: String)
    ensures
        r@ == trim_spec(s@),
{
    let n = s.unicode_len();
    let mut a: usize = 0;
    loop
        invariant
            a <= n,
            n == s@.len(),
            forall|j: int| 0 <= j < a ==> is_ws(#[trigger] s@[j]),
        ensures
            a <= n,
            n == s@.len(),
            forall|j: int| 0 <= j < a ==> is_ws(#[trigger] s@[j]),
            a == n || !is_ws(s@[a as int]),
        decreases n - a,
    {
        if a >= n {
            break;
        }
        if !is_ws_exec(s.get_char(a)) {
            break;
        }
        a = a + 1;
    }
    let mut b: usize = n;
    loop
        invariant
            a <= b <= n,
            n == s@.len(),
            forall|j: int| b <= j < n ==> is_ws(#[trigger] s@[j]),
            a == n || !is_ws(s@[a as int]),
        ensures
            a <= b <= n,
            n == s@.len(),
            forall|j: int| b <= j < n ==> is_ws(#[trigger] s@[j]),
            b == a || !is_ws(s@[b - 1]),
        decreases b,
    {
        if b <= a {
            break;
        }
        if !is_ws_exec(s.get_char(b - 1)) {
            break;
        }
        b = b - 1;
    }
    proof {
        if a == b && a < n {
            assert(is_ws(s@[a as int]));
            assert(false);
        }
        lemma_trim_is_subrange(s@, a as int, b as int);
    }
    String::from_str(s.substring_char(a, b))
}

/// Whether `p` is a prefix of `s`.
pub open spec fn starts_with_spec(s: Seq<char>, p: Seq<char>) -> bool {
    p.len() <= s.len() && s.subrange(0, p.len() as int) == p
}

/// Whether `s` starts with the prefix `p`.
pub fn str_starts_with(s: &str, p: &str) -> (r: bool)
    ensures
        r == starts_with_spec(s@, p@),
{
    let n = s.unicode_len();
    let m = p.unicode_len();
    if m > n {
        return false;
    }
    let mut j: usize = 0;
    while j < m
        invariant
            j <= m,
            m == p@.len(),
            n == s@.len(),
            m <= n,
            forall|k: int| 0 <= k < j ==> s@[k] == p@[k],
        decreases m - j,
    {
        if s.get_char(j) != p.get_char(j) {
            proof {
                assert(s@.subrange(0, p@.len() as int)[j as int] != p@[j as int]);
            }
            return false;
        }
        j = j + 1;
    }
    proof {
        assert(s@.subrange(0, p@.len() as int) =~= p@);
    }
    true
}

/// Index of the first comma in `s`, or `s.len()` when there is none.
pub open spec fn first_comma(s: Seq<char>) -> int
    decreases s.len(),
{
    if s.len() == 0 {
        0
    } else if s[0] == ',' {
        0
    } else {
        1 + first_comma(s.drop_first())
    }
}

/// `s` split at every comma, commas removed: always at least one piece,
/// and one more piece per comma.
pub open spec fn split_commas(s: Seq<char>) -> Seq<Seq<char>>
    decreases s.len(),
{
    let i = first_comma(s);
    if 0 <= i < s.len() {
        seq![s.subrange(0, i)] + split_commas(s.subrange(i + 1, s.len() as int))
    } else {
        seq![s]
    }
}

/// `first_comma` is the index of the first comma: nothing before it is a
/// comma, and it lands on one unless there is none at all.
pub proof fn lemma_first_comma_at(s: Seq<char>, k: int)
    requires
        0 <= k <= s.len(),
        forall|j: int| 0 <= j < k ==> s[j] != ',',
        k < s.len() ==> s[k] == ',',
    ensures
        first_comma(s) == k,
    decreases k,
{
    if k == 0 {
        if s.len() > 0 && s[0] != ',' {
            assert(false);
        }
    } else {
        lemma_first_comma_at(s.drop_first(), k - 1);
    }
}

/// The pieces of `s`, split at commas.
pub fn split_commas_exec(s: &str) -> (parts: Vec<String>)
    ensures
        parts@.map_values(|t: String| t@) == split_commas(s@),
{
    let n = s.unicode_len();
    let mut parts: Vec<String> = Vec::new();
    let mut start: usize = 0;
    let mut j: usize = 0;
    proof {
        assert(s@.subrange(0, n as int) =~= s@);
        assert(parts@.map_values(|t: String| t@) + split_commas(s@) =~= split_commas(s@));
    }
    while j < n
        invariant
            start <= j <= n,
            n == s@.len(),
            forall|k: int| start <= k < j ==> s@[k] != ',',
            split_commas(s@) == parts@.map_values(|t: String| t@) + split_commas(
                s@.subrange(start as int, n as int),
            ),
        decreases n - j,
    {
        if s.get_char(j) == ',' {
            let piece = String::from_str(s.substring_char(start, j));
            proof {
                let rest = s@.subrange(start as int, n as int);
                lemma_first_comma_at(rest, j - start);
                assert(rest.subrange(0, j - start) =~= s@.subrange(start as int, j as int));
                assert(rest.subrange(j - start + 1, rest.len() as int) =~= s@.subrange(
                    j + 1,
                    n as int,
                ));
                assert((parts@.push(piece)).map_values(|t: String| t@) =~= parts@.map_values(
                    |t: String| t@,
                ).push(piece@));
                assert(parts@.map_values(|t: String| t@) + (seq![rest.subrange(0, j - start)]
                    + split_commas(s@.subrange(j + 1, n as int))) =~= (parts@.push(
                    piece,
                )).map_values(|t: String| t@) + split_commas(s@.subrange(j + 1, n as int)));
            }
            parts.push(piece);
            start = j + 1;
        }
        j = j + 1;
    }
    let piece = String::from_str(s.substring_char(start, n));
    proof {
        let rest = s@.subrange(start as int, n as int);
        lemma_first_comma_at(rest, rest.len() as int);
        assert(rest =~= piece@);
        assert((parts@.push(piece)).map_values(|t: String| t@) =~= parts@.map_values(
            |t: String| t@,
        ).push(piece@));
        assert(parts@.map_values(|t: String| t@) + seq![rest] =~= (parts@.push(
            piece,
        )).map_values(|t: String| t@));
    }
    parts.push(piece);
    parts
}

/// Whether `c` is a decimal digit.
pub open spec fn is_digit(c: char) -> bool {
    48 <= c as u32 <= 57
}

/// The value of a decimal digit.
pub open spec fn digit_val(c: char) -> int {
    c as u32 - 48
}

/// Whether `s` is one or more decimal digits and nothing else.
pub open spec fn all_digits(s: Seq<char>) -> bool {
    s.len() > 0 && forall|j: int| 0 <= j < s.len() ==> is_digit(#[trigger] s[j])
}

/// The number the digit string `s` denotes.
pub open spec fn digits_val(s: Seq<char>) -> int
    decreases s.len(),
{
    if s.len() == 0 {
        0
    } else {
        digits_val(s.drop_last()) * 10 + digit_val(s.last())
    }
}

proof fn lemma_digits_val_nonneg(s: Seq<char>)
    requires
        forall|j: int| 0 <= j < s.len() ==> is_digit(#[trigger] s[j]),
    ensures
        digits_val(s) >= 0,
    decreases s.len(),
{
    if s.len() > 0 {
        lemma_digits_val_nonneg(s.drop_last());
    }
}

proof fn lemma_digits_val_prefix_le(s: Seq<char>, k: int)
    requires
        0 <= k <= s.len(),
        forall|j: int| 0 <= j < s.len() ==> is_digit(#[trigger] s[j]),
    ensures
        digits_val(s.subrange(0, k)) <= digits_val(s),
    decreases s.len() - k,
{
    if k == s.len() {
        assert(s.subrange(0, k) =~= s);
    } else {
        lemma_digits_val_prefix_le(s, k + 1);
        let t = s.subrange(0, k + 1);
        assert(t.drop_last() =~= s.subrange(0, k));
        lemma_digits_val_nonneg(s.subrange(0, k));
        assert(digits_val(t) == digits_val(s.subrange(0, k)) * 10 + digit_val(s[k]));
        assert(digits_val(s.subrange(0, k)) * 10 >= digits_val(s.subrange(0, k))) by (nonlinear_arith)
            requires
                digits_val(s.subrange(0, k)) >= 0,
        ;
    }
}

/// What parsing `s` as an unsigned 64-bit decimal yields: the denoted
/// number when `s` is all digits and the number fits, nothing otherwise.
pub open spec fn parse_u64_spec(s: Seq<char>) -> Option<u64> {
    if all_digits(s) && digits_val(s) <= u64::MAX {
        Some(digits_val(s) as u64)
    } else {
        None
    }
}

/// What parsing `s` as an unsigned 32-bit decimal yields.
pub open spec fn parse_u32_spec(s: Seq<char>) -> Option<u32> {
    if all_digits(s) && digits_val(s) <= u32::MAX {
        Some(digits_val(s) as u32)
    } else {
        None
    }
}

/// Parse a non-empty, all-digit decimal that fits in 64 bits; anything
/// else is rejected.
pub fn parse_u64(s: &str) -> (r: Option<u64>)
    ensures
        r == parse_u64_spec(s@),
{
    let n = s.unicode_len();
    if n == 0 {
        return None;
    }
    let mut val: u128 = 0;
    let mut j: usize = 0;
    while j < n
        invariant
            j <= n,
            n == s@.len(),
            n > 0,
            forall|k: int| 0 <= k < j ==> is_digit(#[trigger] s@[k]),
            val as int == digits_val(s@.subrange(0, j as int)),
            val <= u64::MAX,
        decreases n - j,
    {
        let c = s.get_char(j);
        let u = c as u32;
        if u < 48 || u > 57 {
            proof {
                assert(!is_digit(s@[j as int]));
                assert(!all_digits(s@));
            }
            return None;
        }
        let d = (u - 48) as u128;
        let next = val * 10 + d;
        proof {
            assert(s@.subrange(0, j + 1).drop_last() =~= s@.subrange(0, j as int));
            assert(s@.subrange(0, j + 1).last() == s@[j as int]);
        }
        if next > u64::MAX as u128 {
            proof {
                if all_digits(s@) {
                    lemma_digits_val_prefix_le(s@, j + 1);
                    assert(digits_val(s@) > u64::MAX);
                }
            }
            return None;
        }
        val = next;
        j = j + 1;
    }
    proof {
        assert(s@.subrange(0, n as int) =~= s@);
    }
    Some(val as u64)
}

/// Parse a non-empty, all-digit decimal that fits in 32 bits.
pub fn parse_u32(s: &str) -> (r: Option<u32>)
    ensures
        r == parse_u32_spec(s@),
{
    match parse_u64(s) {
        Some(v) => {
            proof {
                lemma_digits_val_nonneg(s@);
            }
            if v <= u32::MAX as u64 {
                Some(v as u32)
            } else {
                None
            }
        },
        None => {
            proof {
                if all_digits(s@) {
                    assert(digits_val(s@) > u64::MAX);
                }
            }
            None
        },
    }
}

} // verus!
