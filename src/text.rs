//! Character-level helpers shared by the header policies: ASCII case folding,
//! pattern search, whitespace trimming and decimal parsing.
use vstd::prelude::*;
use vstd::std_specs::iter::IteratorSpec;

verus! {

/// `c` equals the pattern character `p` when ASCII letters are compared
/// without regard to case (patterns are written in lower case).
pub open spec fn folds_to(c: char, p: char) -> bool {
    c == p || (97 <= (p as u32) <= 122 && (c as u32) + 32 == (p as u32))
}

/// `pat` occurs in `s` at position `i`, up to ASCII case.
pub open spec fn matches_at(s: Seq<char>, i: int, pat: Seq<char>) -> bool {
    &&& 0 <= i
    &&& i + pat.len() <= s.len()
    &&& forall|j: int| 0 <= j < pat.len() ==> folds_to(#[trigger] s[i + j], pat[j])
}

/// `s` begins with `pat`, up to ASCII case.
pub open spec fn starts_with_ci(s: Seq<char>, pat: Seq<char>) -> bool {
    matches_at(s, 0, pat)
}

/// `s` ends with `pat`, up to ASCII case.
pub open spec fn ends_with_ci(s: Seq<char>, pat: Seq<char>) -> bool {
    s.len() >= pat.len() && matches_at(s, s.len() - pat.len(), pat)
}

/// The first position at or after `i` where `pat` occurs in `s`, up to ASCII case.
pub open spec fn find_from(s: Seq<char>, pat: Seq<char>, i: int) -> Option<int>
    decreases s.len() - i,
{
    if i < 0 || i + pat.len() > s.len() {
        None
    } else if matches_at(s, i, pat) {
        Some(i)
    } else {
        find_from(s, pat, i + 1)
    }
}

/// `pat` occurs somewhere in `s`, up to ASCII case.
pub open spec fn contains_ci(s: Seq<char>, pat: Seq<char>) -> bool {
    find_from(s, pat, 0) is Some
}

/// Characters with the Unicode `White_Space` property.
pub open spec fn is_space(c: char) -> bool {
    let u = c as u32;
    (9 <= u <= 13) || u == 32 || u == 0x85 || u == 0xA0 || u == 0x1680 || (0x2000 <= u
        <= 0x200A) || u == 0x2028 || u == 0x2029 || u == 0x202F || u == 0x205F || u == 0x3000
}

pub open spec fn trim_start(s: Seq<char>) -> Seq<char>
    decreases s.len(),
{
    if s.len() > 0 && is_space(s[0]) {
        trim_start(s.drop_first())
    } else {
        s
    }
}

pub open spec fn trim_end(s: Seq<char>) -> Seq<char>
    decreases s.len(),
{
    if s.len() > 0 && is_space(s.last()) {
        trim_end(s.drop_last())
    } else {
        s
    }
}

/// `s` without leading and trailing whitespace.
pub open spec fn trim(s: Seq<char>) -> Seq<char> {
    trim_end(trim_start(s))
}

/// The position of the last occurrence of `c` in `s`.
pub open spec fn rfind_char(s: Seq<char>, c: char) -> Option<int>
    decreases s.len(),
{
    if s.len() == 0 {
        None
    } else if s.last() == c {
        Some(s.len() - 1)
    } else {
        rfind_char(s.drop_last(), c)
    }
}

pub open spec fn is_digit(c: char) -> bool {
    48 <= (c as u32) <= 57
}

pub open spec fn all_digits(s: Seq<char>) -> bool {
    forall|i: int| 0 <= i < s.len() ==> is_digit(#[trigger] s[i])
}

/// The number that the decimal digits `s` denote.
pub open spec fn decimal_value(s: Seq<char>) -> nat
    decreases s.len(),
{
    if s.len() == 0 {
        0
    } else {
        decimal_value(s.drop_last()) * 10 + ((s.last() as u32) - 48) as nat
    }
}

/// The end of the run of decimal digits that starts at `i`.
pub open spec fn digit_run_end(s: Seq<char>, i: int) -> int
    decreases s.len() - i,
{
    if 0 <= i < s.len() && is_digit(s[i]) {
        digit_run_end(s, i + 1)
    } else {
        i
    }
}

/// What parsing `s` as an unsigned integer no larger than `limit` gives:
/// one or more decimal digits whose value fits.
pub open spec fn parse_bounded(s: Seq<char>, limit: nat) -> Option<nat> {
    if s.len() > 0 && all_digits(s) && decimal_value(s) <= limit {
        Some(decimal_value(s))
    } else {
        None
    }
}

/// What `u16::from_str` accepts: an optional `+`, then decimal digits that fit.
pub open spec fn parse_u16(s: Seq<char>) -> Option<u16> {
    let d = if s.len() > 0 && s[0] == '+' {
        s.drop_first()
    } else {
        s
    };
    match parse_bounded(d, 65535) {
        Some(v) => Some(v as u16),
        None => None,
    }
}

/// The characters of `s`, one per element.
pub fn chars_of(s: &str) -> (r: Vec<char>)
    ensures
        r@ == s@,
{
    let mut r: Vec<char> = Vec::new();
    let mut it = s.chars();
    loop
        invariant
            it.obeys_prophetic_iter_laws(),
            r@ + it.remaining() == s@,
            it.decrease() is Some,
        decreases it.decrease()->0,
    {
        match it.next() {
            Some(c) => {
                r.push(c);
                assert(r@ + it.remaining() =~= s@);
            },
            None => {
                assert(r@ =~= s@);
                return r;
            },
        }
    }
}

pub fn folds_to_exec(c: char, p: char) -> (r: bool)
    ensures
        r == folds_to(c, p),
{
    c == p || (97 <= (p as u32) && (p as u32) <= 122 && (c as u32) + 32 == (p as u32))
}

pub fn matches_at_exec(s: &Vec<char>, i: usize, pat: &Vec<char>) -> (r: bool)
    ensures
        r == matches_at(s@, i as int, pat@),
{
    if i > s.len() || pat.len() > s.len() - i {
        return false;
    }
    let mut j: usize = 0;
    while j < pat.len()
        invariant
            i + pat@.len() <= s@.len(),
            s@.len() == s.len(),
            0 <= j <= pat@.len(),
            forall|k: int| 0 <= k < j ==> folds_to(#[trigger] s@[i + k], pat@[k]),
        decreases pat@.len() - j,
    {
        if !folds_to_exec(s[i + j], pat[j]) {
            return false;
        }
        j += 1;
    }
    true
}

pub fn starts_with_ci_exec(s: &Vec<char>, pat: &Vec<char>) -> (r: bool)
    ensures
        r == starts_with_ci(s@, pat@),
{
    matches_at_exec(s, 0, pat)
}

pub fn ends_with_ci_exec(s: &Vec<char>, pat: &Vec<char>) -> (r: bool)
    ensures
        r == ends_with_ci(s@, pat@),
{
    if s.len() < pat.len() {
        false
    } else {
        matches_at_exec(s, s.len() - pat.len(), pat)
    }
}

/// The first position where `pat` occurs in `s`, up to ASCII case.
pub fn find_ci(s: &Vec<char>, pat: &Vec<char>) -> (r: Option<usize>)
    ensures
        match r {
            Some(i) => find_from(s@, pat@, 0) == Some(i as int) && matches_at(s@, i as int, pat@),
            None => find_from(s@, pat@, 0) is None,
        },
{
    let mut i: usize = 0;
    while i <= s.len() && pat.len() <= s.len() - i
        invariant
            find_from(s@, pat@, 0) == find_from(s@, pat@, i as int),
        decreases s@.len() - i,
    {
        if matches_at_exec(s, i, pat) {
            return Some(i);
        }
        i += 1;
    }
    None
}

pub fn is_space_exec(c: char) -> (r: bool)
    ensures
        r == is_space(c),
{
    let u = c as u32;
    (9 <= u && u <= 13) || u == 32 || u == 0x85 || u == 0xA0 || u == 0x1680 || (0x2000 <= u && u
        <= 0x200A) || u == 0x2028 || u == 0x2029 || u == 0x202F || u == 0x205F || u == 0x3000
}

pub fn is_digit_exec(c: char) -> (r: bool)
    ensures
        r == is_digit(c),
{
    48 <= (c as u32) && (c as u32) <= 57
}

/// The bounds `(a, b)` of `trim(s)` within `s`.
pub fn trim_bounds(s: &Vec<char>, from: usize) -> (r: (usize, usize))
    requires
        from <= s@.len(),
    ensures
        from <= r.0 <= r.1 <= s@.len(),
        s@.subrange(r.0 as int, r.1 as int) == trim(s@.subrange(from as int, s@.len() as int)),
{
    let ghost whole = s@.subrange(from as int, s@.len() as int);
    let mut a: usize = from;
    while a < s.len() && is_space_exec(s[a])
        invariant
            from <= a <= s@.len(),
            trim_start(whole) == trim_start(s@.subrange(a as int, s@.len() as int)),
        decreases s@.len() - a,
    {
        assert(s@.subrange(a as int, s@.len() as int).drop_first() =~= s@.subrange(
            a + 1,
            s@.len() as int,
        ));
        a += 1;
    }
    let mut b: usize = s.len();
    assert(trim_start(whole) == s@.subrange(a as int, b as int));
    while b > a && is_space_exec(s[b - 1])
        invariant
            from <= a <= b <= s@.len(),
            trim(whole) == trim_end(s@.subrange(a as int, b as int)),
        decreases b - a,
    {
        assert(s@.subrange(a as int, b as int).drop_last() =~= s@.subrange(a as int, b - 1));
        b -= 1;
    }
    (a, b)
}

/// The position of the last `c` in `s[from..to]`, relative to `from`.
pub fn rfind_char_exec(s: &Vec<char>, from: usize, to: usize, c: char) -> (r: Option<usize>)
    requires
        from <= to <= s@.len(),
    ensures
        match r {
            Some(p) => p < to - from && rfind_char(s@.subrange(from as int, to as int), c) == Some(
                p as int,
            ),
            None => rfind_char(s@.subrange(from as int, to as int), c) is None,
        },
{
    let mut e: usize = to;
    while e > from
        invariant
            from <= e <= to <= s@.len(),
            rfind_char(s@.subrange(from as int, to as int), c) == rfind_char(
                s@.subrange(from as int, e as int),
                c,
            ),
        decreases e - from,
    {
        if s[e - 1] == c {
            return Some(e - 1 - from);
        }
        assert(s@.subrange(from as int, e as int).drop_last() =~= s@.subrange(
            from as int,
            e - 1,
        ));
        e -= 1;
    }
    None
}

/// The end of the run of digits in `s` that starts at `i`.
pub fn digit_run_end_exec(s: &Vec<char>, i: usize) -> (r: usize)
    requires
        i <= s@.len(),
    ensures
        r as int == digit_run_end(s@, i as int),
        i <= r <= s@.len(),
{
    let mut e: usize = i;
    while e < s.len() && is_digit_exec(s[e])
        invariant
            i <= e <= s@.len(),
            digit_run_end(s@, i as int) == digit_run_end(s@, e as int),
        decreases s@.len() - e,
    {
        e += 1;
    }
    e
}

proof fn lemma_decimal_prefix_le(s: Seq<char>, k: int)
    requires
        0 <= k <= s.len(),
    ensures
        decimal_value(s.subrange(0, k)) <= decimal_value(s),
    decreases s.len() - k,
{
    if k < s.len() {
        lemma_decimal_prefix_le(s, k + 1);
        let p = s.subrange(0, k + 1);
        assert(p.drop_last() =~= s.subrange(0, k));
    } else {
        assert(s.subrange(0, k) =~= s);
    }
}

/// Parses `s[from..to]` as decimal digits whose value is at most `limit`.
pub fn parse_bounded_exec(s: &Vec<char>, from: usize, to: usize, limit: u64) -> (r: Option<u64>)
    requires
        from <= to <= s@.len(),
    ensures
        match parse_bounded(s@.subrange(from as int, to as int), limit as nat) {
            Some(v) => r == Some(v as u64),
            None => r is None,
        },
{
    let ghost d = s@.subrange(from as int, to as int);
    if from == to {
        return None;
    }
    let mut v: u128 = 0;
    let mut over = false;
    let mut k: usize = from;
    while k < to
        invariant
            from <= k <= to <= s@.len(),
            d == s@.subrange(from as int, to as int),
            all_digits(s@.subrange(from as int, k as int)),
            !over ==> v as nat == decimal_value(s@.subrange(from as int, k as int)) && v <= limit,
            over ==> decimal_value(s@.subrange(from as int, k as int)) > limit,
        decreases to - k,
    {
        let c = s[k];
        if !is_digit_exec(c) {
            assert(d[k - from] == c);
            return None;
        }
        let ghost pre = s@.subrange(from as int, k as int);
        let ghost next = s@.subrange(from as int, k + 1);
        assert(next.drop_last() =~= pre);
        if !over {
            v = v * 10 + ((c as u32) - 48) as u128;
            if v > limit as u128 {
                over = true;
            }
        } else {
            assert(decimal_value(next) >= decimal_value(pre) * 10);
        }
        k += 1;
    }
    assert(d =~= s@.subrange(from as int, k as int));
    if over {
        None
    } else {
        Some(v as u64)
    }
}

/// Parses `s[from..to]` as `u16::from_str` does.
pub fn parse_u16_exec(s: &Vec<char>, from: usize, to: usize) -> (r: Option<u16>)
    requires
        from <= to <= s@.len(),
    ensures
        r == parse_u16(s@.subrange(from as int, to as int)),
{
    let ghost t = s@.subrange(from as int, to as int);
    if from < to && s[from] == '+' {
        assert(t.drop_first() =~= s@.subrange(from + 1, to as int));
        match parse_bounded_exec(s, from + 1, to, 65535) {
            Some(v) => Some(v as u16),
            None => None,
        }
    } else {
        match parse_bounded_exec(s, from, to, 65535) {
            Some(v) => Some(v as u16),
            None => None,
        }
    }
}

/// `a` and `b` hold the same characters.
pub fn same_text(a: &str, b: &str) -> (r: bool)
    ensures
        r == (a@ == b@),
{
    let x = chars_of(a);
    let y = chars_of(b);
    if x.len() != y.len() {
        return false;
    }
    let mut i: usize = 0;
    while i < x.len()
        invariant
            x@ == a@,
            y@ == b@,
            x@.len() == y@.len(),
            0 <= i <= x@.len(),
            forall|k: int| 0 <= k < i ==> x@[k] == y@[k],
        decreases x@.len() - i,
    {
        if x[i] != y[i] {
            assert(a@[i as int] != b@[i as int]);
            return false;
        }
        i += 1;
    }
    assert(x@ =~= y@);
    true
}

} // verus!
