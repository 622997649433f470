//! The memory-pressure advice, read from the text of `/proc/meminfo`.
use vstd::prelude::*;

use crate::http::{split_lines, text_lines};
use crate::policy::header_views;
use crate::text::{chars_of, is_space, is_space_exec, parse_bounded, parse_bounded_exec};

verus! {

/// The least available memory, in KiB, that always counts as enough to go on caching.
pub const MIN_AVAILABLE_KB: usize = 100 * 1024;

/// `s` begins with `p`, exactly.
pub open spec fn has_prefix(s: Seq<char>, p: Seq<char>) -> bool {
    s.len() >= p.len() && s.subrange(0, p.len() as int) == p
}

/// The first position at or after `i` that is not whitespace.
pub open spec fn skip_space(s: Seq<char>, i: int) -> int
    decreases s.len() - i,
{
    if 0 <= i < s.len() && is_space(s[i]) {
        skip_space(s, i + 1)
    } else {
        i
    }
}

/// The first position at or after `i` that is whitespace.
pub open spec fn skip_word(s: Seq<char>, i: int) -> int
    decreases s.len() - i,
{
    if 0 <= i < s.len() && !is_space(s[i]) {
        skip_word(s, i + 1)
    } else {
        i
    }
}

/// The second whitespace-separated word of `s`, if it has two.
pub open spec fn second_word(s: Seq<char>) -> Option<Seq<char>> {
    let a = skip_space(s, 0);
    let b = skip_word(s, a);
    let c = skip_space(s, b);
    if c < s.len() {
        Some(s.subrange(c, skip_word(s, c)))
    } else {
        None
    }
}

/// What `usize::from_str` accepts: an optional `+`, then decimal digits that fit.
pub open spec fn parse_usize(s: Seq<char>) -> Option<nat> {
    let d = if s.len() > 0 && s[0] == '+' {
        s.drop_first()
    } else {
        s
    };
    parse_bounded(d, usize::MAX as nat)
}

/// The value, in KiB, of the last line of `lines` that starts with `key`:
/// its second word as a number, or 0 when that does not parse.
pub open spec fn meminfo_value(lines: Seq<Seq<char>>, key: Seq<char>) -> nat
    decreases lines.len(),
{
    if lines.len() == 0 {
        0
    } else if has_prefix(lines.last(), key) {
        match second_word(lines.last()) {
            Some(w) => match parse_usize(w) {
                Some(v) => v,
                None => 0,
            },
            None => 0,
        }
    } else {
        meminfo_value(lines.drop_last(), key)
    }
}

/// Whether a machine whose `/proc/meminfo` reads `meminfo` has room to go
/// on caching: more available memory than 100 MiB and than a tenth of the
/// total.
pub open spec fn spec_memory_sufficient(meminfo: Seq<char>) -> bool {
    let lines = text_lines(meminfo);
    let available = meminfo_value(lines, "MemAvailable:"@);
    let total = meminfo_value(lines, "MemTotal:"@);
    let required = if MIN_AVAILABLE_KB >= total / 10 {
        MIN_AVAILABLE_KB as nat
    } else {
        total / 10
    };
    available > required
}

fn has_prefix_exec(s: &Vec<char>, p: &Vec<char>) -> (r: bool)
    ensures
        r == has_prefix(s@, p@),
{
    if s.len() < p.len() {
        return false;
    }
    let mut i: usize = 0;
    while i < p.len()
        invariant
            p@.len() <= s@.len(),
            0 <= i <= p@.len(),
            forall|k: int| 0 <= k < i ==> s@[k] == p@[k],
        decreases p@.len() - i,
    {
        if s[i] != p[i] {
            assert(s@.subrange(0, p@.len() as int)[i as int] != p@[i as int]);
            return false;
        }
        i += 1;
    }
    assert(s@.subrange(0, p@.len() as int) =~= p@);
    true
}

fn skip_space_exec(s: &Vec<char>, i: usize) -> (r: usize)
    requires
        i <= s@.len(),
    ensures
        r == skip_space(s@, i as int),
        i <= r <= s@.len(),
{
    let mut k = i;
    while k < s.len() && is_space_exec(s[k])
        invariant
            i <= k <= s@.len(),
            skip_space(s@, i as int) == skip_space(s@, k as int),
        decreases s@.len() - k,
    {
        k += 1;
    }
    k
}

fn skip_word_exec(s: &Vec<char>, i: usize) -> (r: usize)
    requires
        i <= s@.len(),
    ensures
        r == skip_word(s@, i as int),
        i <= r <= s@.len(),
{
    let mut k = i;
    while k < s.len() && !is_space_exec(s[k])
        invariant
            i <= k <= s@.len(),
            skip_word(s@, i as int) == skip_word(s@, k as int),
        decreases s@.len() - k,
    {
        k += 1;
    }
    k
}

proof fn lemma_skip_word_ge(s: Seq<char>, i: int)
    requires
        0 <= i,
    ensures
        skip_word(s, i) >= i,
    decreases s.len() - i,
{
    if 0 <= i < s.len() && !is_space(s[i]) {
        lemma_skip_word_ge(s, i + 1);
    }
}

/// The value of one `/proc/meminfo` line: its second word as a number, or 0.
fn line_value(s: &Vec<char>) -> (r: usize)
    ensures
        r == match second_word(s@) {
            Some(w) => match parse_usize(w) {
                Some(v) => v,
                None => 0,
            },
            None => 0,
        },
{
    let a = skip_space_exec(s, 0);
    let b = skip_word_exec(s, a);
    let c = skip_space_exec(s, b);
    if c >= s.len() {
        return 0;
    }
    let d = skip_word_exec(s, c);
    let ghost w = s@.subrange(c as int, d as int);
    let mut from = c;
    proof {
        lemma_skip_word_ge(s@, c + 1);
    }
    if s[c] == '+' {
        assert(w.drop_first() =~= s@.subrange(c + 1, d as int));
        from = c + 1;
    } else {
        assert(w =~= s@.subrange(c as int, d as int));
    }
    match parse_bounded_exec(s, from, d, usize::MAX as u64) {
        Some(v) => v as usize,
        None => 0,
    }
}

/// Whether the machine has room to go on caching, judged from the text of
/// its `/proc/meminfo`.
pub fn memory_sufficient(meminfo: &str) -> (r: bool)
    ensures
        r == spec_memory_sufficient(meminfo@),
{
    let lines = split_lines(meminfo);
    let ghost ls = header_views(lines@);
    let available_key = chars_of("MemAvailable:");
    let total_key = chars_of("MemTotal:");
    let mut available: usize = 0;
    let mut total: usize = 0;
    let mut i: usize = 0;
    assert(ls.subrange(0, 0) =~= Seq::<Seq<char>>::empty());
    while i < lines.len()
        invariant
            0 <= i <= lines@.len(),
            ls == header_views(lines@),
            available_key@ == "MemAvailable:"@,
            total_key@ == "MemTotal:"@,
            available == meminfo_value(ls.subrange(0, i as int), "MemAvailable:"@),
            total == meminfo_value(ls.subrange(0, i as int), "MemTotal:"@),
        decreases lines@.len() - i,
    {
        let ghost next = ls.subrange(0, i + 1);
        assert(next.drop_last() =~= ls.subrange(0, i as int));
        assert(next.last() == lines@[i as int]@);
        let line = chars_of(lines[i].as_str());
        if has_prefix_exec(&line, &available_key) {
            available = line_value(&line);
        } else if has_prefix_exec(&line, &total_key) {
            total = line_value(&line);
        }
        proof {
            reveal_strlit("MemAvailable:");
            reveal_strlit("MemTotal:");
            if has_prefix(line@, "MemAvailable:"@) {
                assert(line@.subrange(0, 13)[3] == 'A');
                assert(line@[3] == 'A');
                if has_prefix(line@, "MemTotal:"@) {
                    assert(line@.subrange(0, 9)[3] == 'T');
                }
            }
        }
        i += 1;
    }
    assert(ls.subrange(0, i as int) =~= ls);
    let tenth = total / 10;
    let required = if MIN_AVAILABLE_KB >= tenth {
        MIN_AVAILABLE_KB
    } else {
        tenth
    };
    available > required
}

} // verus!
