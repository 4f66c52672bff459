use vstd::prelude::*;
use vstd::string::StrSliceExecFns;

verus! {

/// Whether the string matches the pattern, in which `*` stands for any
/// run of characters, the empty one too, and `?` for exactly one.
pub open spec fn wild_match(s: Seq<char>, p: Seq<char>) -> bool
    decreases p.len(), s.len(),
{
    if p.len() == 0 {
        s.len() == 0
    } else if p[0] == '*' {
        wild_match(s, p.drop_first()) || (s.len() > 0 && wild_match(s.drop_first(), p))
    } else if s.len() == 0 {
        false
    } else if p[0] == '?' || p[0] == s[0] {
        wild_match(s.drop_first(), p.drop_first())
    } else {
        false
    }
}

/// The characters of a string.
pub fn chars_of(s: &str) -> (r: Vec<char>)
    ensures
        r@ == s@,
{
    let n = s.unicode_len();
    let mut out: Vec<char> = Vec::new();
    let mut i: usize = 0;
    while i < n
        invariant
            i <= n,
            n == s@.len(),
            out@ == s@.subrange(0, i as int),
        decreases n - i,
    {
        out.push(s.get_char(i));
        assert(out@ =~= s@.subrange(0, i + 1));
        i += 1;
    }
    assert(s@.subrange(0, n as int) =~= s@);
    out
}

/// The answers for the string from `at` on, one per position of the
/// pattern, given in `next` those for the string from `at + 1` on.
fn wild_row(s: &Vec<char>, pattern: &Vec<char>, at: usize, next: &Vec<bool>) -> (row: Vec<bool>)
    requires
        at <= s@.len(),
        at < s@.len() ==> next@.len() == pattern@.len() + 1 && forall|j: int|
            0 <= j <= pattern@.len() ==> #[trigger] next@[j] == wild_match(
                s@.skip(at + 1),
                pattern@.skip(j),
            ),
    ensures
        row@.len() == pattern@.len() + 1,
        forall|j: int|
            0 <= j <= pattern@.len() ==> #[trigger] row@[j] == wild_match(
                s@.skip(at as int),
                pattern@.skip(j),
            ),
{
    let n = s.len();
    let m = pattern.len();
    let mut row: Vec<bool> = Vec::new();
    let mut filled: usize = 0;
    while filled < m
        invariant
            filled <= m,
            row.len() == filled,
        decreases m - filled,
    {
        row.push(false);
        filled += 1;
    }
    row.push(at == n);
    let ghost ss = s@.skip(at as int);
    proof {
        assert(pattern@.skip(m as int).len() == 0);
        assert(ss.len() == n - at);
    }
    let mut j: usize = m;
    while j > 0
        invariant
            j <= m,
            at <= n,
            n == s@.len(),
            m == pattern@.len(),
            ss == s@.skip(at as int),
            row.len() == m + 1,
            at < n ==> next@.len() == m + 1 && forall|x: int|
                0 <= x <= m ==> #[trigger] next@[x] == wild_match(s@.skip(at + 1), pattern@.skip(x)),
            forall|x: int| j <= x <= m ==> #[trigger] row@[x] == wild_match(ss, pattern@.skip(x)),
        decreases j,
    {
        j -= 1;
        let c = pattern[j];
        let ghost pp = pattern@.skip(j as int);
        proof {
            assert(pp.len() == m - j);
            assert(pp[0] == pattern@[j as int]);
            assert(pp.drop_first() =~= pattern@.skip(j + 1));
            assert(ss.len() == n - at);
            if at < n {
                assert(ss[0] == s@[at as int]);
                assert(ss.drop_first() =~= s@.skip(at + 1));
            }
            assert(row@[j + 1] == wild_match(ss, pattern@.skip(j + 1)));
        }
        let answer = if c == '*' {
            row[j + 1] || (at < n && next[j])
        } else if at == n {
            false
        } else if c == '?' || c == s[at] {
            next[j + 1]
        } else {
            false
        };
        assert(answer == wild_match(ss, pp));
        row.set(j, answer);
    }
    row
}

/// Matches `s` against `pattern` character by character. Fills one row
/// of answers per position of the string, last position first, so the
/// work is the product of the two lengths.
pub fn wild_compare_chars(s: &Vec<char>, pattern: &Vec<char>) -> (r: bool)
    ensures
        r == wild_match(s@, pattern@),
{
    let n = s.len();
    let empty: Vec<bool> = Vec::new();
    let mut next = wild_row(s, pattern, n, &empty);
    let mut i: usize = n;
    while i > 0
        invariant
            i <= n,
            n == s@.len(),
            next@.len() == pattern@.len() + 1,
            forall|j: int|
                0 <= j <= pattern@.len() ==> #[trigger] next@[j] == wild_match(
                    s@.skip(i as int),
                    pattern@.skip(j),
                ),
        decreases i,
    {
        i -= 1;
        next = wild_row(s, pattern, i, &next);
    }
    assert(s@.skip(0) =~= s@);
    assert(pattern@.skip(0) =~= pattern@);
    next[0]
}

/// Whether `s` matches `pattern`, with `*` for any run of characters and
/// `?` for exactly one.
pub fn fast_wild_compare_portable(s: &str, pattern: &str) -> (r: bool)
    ensures
        r == wild_match(s@, pattern@),
{
    let text = chars_of(s);
    let wild = chars_of(pattern);
    wild_compare_chars(&text, &wild)
}

} // verus!
