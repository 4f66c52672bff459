use vstd::prelude::*;

verus! {

/// Whether `a` and `b` agree on their first `k` bytes and `a` is smaller
/// right after them: `a` ends there and `b` goes on, or `a`'s next byte is
/// the smaller one.
pub open spec fn lex_lt_at(a: Seq<u8>, b: Seq<u8>, k: int) -> bool {
    &&& 0 <= k <= a.len()
    &&& k <= b.len()
    &&& forall|i: int| 0 <= i < k ==> a[i] == b[i]
    &&& if k == a.len() {
        k < b.len()
    } else {
        k < b.len() && a[k] < b[k]
    }
}

/// Lexicographic order on byte strings: the order in which keys are stored.
pub open spec fn lex_lt(a: Seq<u8>, b: Seq<u8>) -> bool {
    exists|k: int| lex_lt_at(a, b, k)
}

pub open spec fn lex_le(a: Seq<u8>, b: Seq<u8>) -> bool {
    a == b || lex_lt(a, b)
}

/// Whether `p` is a prefix of `s`.
pub open spec fn is_prefix(p: Seq<u8>, s: Seq<u8>) -> bool {
    p.len() <= s.len() && s.subrange(0, p.len() as int) == p
}

/// -1, 0 or 1 as `a` is smaller than, equal to or greater than `b`.
pub open spec fn spec_compare_bytes(a: Seq<u8>, b: Seq<u8>) -> int {
    if lex_lt(a, b) {
        -1
    } else if a == b {
        0
    } else {
        1
    }
}

pub proof fn lemma_lex_asymmetric(a: Seq<u8>, b: Seq<u8>)
    requires
        lex_lt(a, b),
    ensures
        !lex_lt(b, a),
        a != b,
{
    let k1 = choose|k: int| lex_lt_at(a, b, k);
    if lex_lt(b, a) {
        let k2 = choose|k: int| lex_lt_at(b, a, k);
        if k1 < k2 {
            assert(b[k1] == a[k1]);
        } else if k2 < k1 {
            assert(a[k2] == b[k2]);
        }
    }
}

pub proof fn lemma_lex_transitive(a: Seq<u8>, b: Seq<u8>, c: Seq<u8>)
    requires
        lex_lt(a, b),
        lex_lt(b, c),
    ensures
        lex_lt(a, c),
{
    let k1 = choose|k: int| lex_lt_at(a, b, k);
    let k2 = choose|k: int| lex_lt_at(b, c, k);
    let k = if k1 <= k2 {
        k1
    } else {
        k2
    };
    assert forall|i: int| 0 <= i < k implies a[i] == c[i] by {
        assert(a[i] == b[i]);
        assert(b[i] == c[i]);
    }
    if k1 < k2 {
        assert(b[k1] == c[k1]);
    } else if k2 < k1 {
        assert(a[k2] == b[k2]);
    }
    assert(lex_lt_at(a, c, k));
}

/// Any two byte strings are equal or ordered one way.
pub proof fn lemma_lex_total(a: Seq<u8>, b: Seq<u8>)
    ensures
        lex_lt(a, b) || a == b || lex_lt(b, a),
{
    lemma_lex_total_from(a, b, 0);
}

proof fn lemma_lex_total_from(a: Seq<u8>, b: Seq<u8>, k: int)
    requires
        0 <= k <= a.len(),
        k <= b.len(),
        forall|i: int| 0 <= i < k ==> a[i] == b[i],
    ensures
        lex_lt(a, b) || a == b || lex_lt(b, a),
    decreases a.len() - k,
{
    if k == a.len() {
        if k == b.len() {
            assert(a =~= b);
        } else {
            assert(lex_lt_at(a, b, k));
        }
    } else if k == b.len() {
        assert(lex_lt_at(b, a, k));
    } else if a[k] < b[k] {
        assert(lex_lt_at(a, b, k));
    } else if b[k] < a[k] {
        assert(lex_lt_at(b, a, k));
    } else {
        lemma_lex_total_from(a, b, k + 1);
    }
}

/// Appending the same bytes to a common prefix keeps the order of what follows.
pub proof fn lemma_lex_common_prefix(p: Seq<u8>, a: Seq<u8>, b: Seq<u8>)
    ensures
        lex_lt(p + a, p + b) == lex_lt(a, b),
{
    if lex_lt(a, b) {
        let k = choose|k: int| lex_lt_at(a, b, k);
        assert(lex_lt_at(p + a, p + b, p.len() + k)) by {
            assert forall|i: int| 0 <= i < p.len() + k implies (p + a)[i] == (p + b)[i] by {
                if i >= p.len() {
                    assert(a[i - p.len()] == b[i - p.len()]);
                }
            }
        }
    }
    if lex_lt(p + a, p + b) {
        let k = choose|k: int| lex_lt_at(p + a, p + b, k);
        if k < p.len() {
            assert((p + a)[k] == p[k]);
            assert((p + b)[k] == p[k]);
        }
        assert(lex_lt_at(a, b, k - p.len())) by {
            assert forall|i: int| 0 <= i < k - p.len() implies a[i] == b[i] by {
                assert((p + a)[i + p.len()] == (p + b)[i + p.len()]);
            }
            if k < (p + a).len() {
                assert((p + a)[k] == a[k - p.len()]);
                assert((p + b)[k] == b[k - p.len()]);
            }
        }
    }
}

/// Compares two byte strings lexicographically.
pub fn compare_bytes(a: &[u8], b: &[u8]) -> (r: i8)
    ensures
        r == spec_compare_bytes(a@, b@),
        r == 1 ==> lex_lt(b@, a@),
{
    let mut i: usize = 0;
    while i < a.len() && i < b.len()
        invariant
            i <= a@.len(),
            i <= b@.len(),
            forall|j: int| 0 <= j < i ==> a@[j] == b@[j],
        decreases a@.len() - i,
    {
        if a[i] < b[i] {
            assert(lex_lt_at(a@, b@, i as int));
            return -1;
        }
        if a[i] > b[i] {
            assert(lex_lt_at(b@, a@, i as int));
            proof {
                lemma_lex_asymmetric(b@, a@);
            }
            return 1;
        }
        i += 1;
    }
    if a.len() < b.len() {
        assert(lex_lt_at(a@, b@, i as int));
        -1
    } else if a.len() == b.len() {
        assert(a@ =~= b@);
        proof {
            if lex_lt(a@, b@) {
                lemma_lex_asymmetric(a@, b@);
            }
        }
        0
    } else {
        assert(lex_lt_at(b@, a@, i as int));
        proof {
            lemma_lex_asymmetric(b@, a@);
        }
        1
    }
}

/// Whether two byte strings hold the same bytes.
pub fn bytes_equal(a: &[u8], b: &[u8]) -> (r: bool)
    ensures
        r == (a@ == b@),
{
    if a.len() != b.len() {
        return false;
    }
    let mut i: usize = 0;
    while i < a.len()
        invariant
            i <= a@.len(),
            a@.len() == b@.len(),
            forall|j: int| 0 <= j < i ==> a@[j] == b@[j],
        decreases a@.len() - i,
    {
        if a[i] != b[i] {
            return false;
        }
        i += 1;
    }
    assert(a@ =~= b@);
    true
}

/// Whether `s` starts with `p`.
pub fn starts_with_bytes(s: &[u8], p: &[u8]) -> (r: bool)
    ensures
        r == is_prefix(p@, s@),
{
    if p.len() > s.len() {
        return false;
    }
    let mut i: usize = 0;
    while i < p.len()
        invariant
            i <= p@.len(),
            p@.len() <= s@.len(),
            forall|j: int| 0 <= j < i ==> s@[j] == p@[j],
        decreases p@.len() - i,
    {
        if s[i] != p[i] {
            assert(s@.subrange(0, p@.len() as int)[i as int] == s@[i as int]);
            return false;
        }
        i += 1;
    }
    assert(s@.subrange(0, p@.len() as int) =~= p@);
    true
}

/// A copy of the bytes.
pub fn copy_bytes(a: &[u8]) -> (r: Vec<u8>)
    ensures
        r@ == a@,
{
    let mut out: Vec<u8> = Vec::new();
    let mut i: usize = 0;
    while i < a.len()
        invariant
            i <= a@.len(),
            out@ == a@.subrange(0, i as int),
        decreases a@.len() - i,
    {
        out.push(a[i]);
        assert(out@ =~= a@.subrange(0, i + 1));
        i += 1;
    }
    assert(out@ =~= a@);
    out
}

/// With first parts of equal length, the order of two concatenations is
/// the order of the first parts, and that of the rest where those are equal.
pub proof fn lemma_lex_concat(p1: Seq<u8>, s1: Seq<u8>, p2: Seq<u8>, s2: Seq<u8>)
    requires
        p1.len() == p2.len(),
    ensures
        lex_lt(p1 + s1, p2 + s2) == (lex_lt(p1, p2) || (p1 == p2 && lex_lt(s1, s2))),
        (p1 + s1 == p2 + s2) == (p1 == p2 && s1 == s2),
{
    let a = p1 + s1;
    let b = p2 + s2;
    let n = p1.len() as int;
    if p1 == p2 {
        lemma_lex_common_prefix(p1, s1, s2);
        if lex_lt(p1, p2) {
            lemma_lex_asymmetric(p1, p2);
        }
        if a == b {
            assert(s1 =~= a.subrange(n, a.len() as int));
            assert(s2 =~= b.subrange(n, b.len() as int));
        }
    } else {
        assert(a != b) by {
            if a == b {
                assert(p1 =~= a.subrange(0, n));
                assert(p2 =~= b.subrange(0, n));
            }
        }
        if lex_lt(p1, p2) {
            let k = choose|k: int| lex_lt_at(p1, p2, k);
            assert(lex_lt_at(a, b, k));
        }
        if lex_lt(a, b) {
            let k = choose|k: int| lex_lt_at(a, b, k);
            if k >= n {
                assert forall|i: int| 0 <= i < n implies p1[i] == p2[i] by {
                    assert(a[i] == b[i]);
                }
                assert(p1 =~= p2);
            } else {
                assert(lex_lt_at(p1, p2, k)) by {
                    assert forall|i: int| 0 <= i < k implies p1[i] == p2[i] by {
                        assert(a[i] == b[i]);
                    }
                    assert(a[k] == p1[k]);
                    assert(b[k] == p2[k]);
                }
            }
        }
    }
}

/// The first `i + 1` items hold what the first `i` hold, and item `i`.
pub proof fn lemma_take_step<T>(s: Seq<T>, i: int, x: T)
    requires
        0 <= i < s.len(),
    ensures
        s.take(i + 1).contains(x) <==> (s.take(i).contains(x) || x == s[i]),
{
    let a = s.take(i + 1);
    let b = s.take(i);
    if a.contains(x) {
        let k = choose|k: int| 0 <= k < a.len() && a[k] == x;
        if k < i {
            assert(b[k] == x);
        }
    }
    if b.contains(x) {
        let k = choose|k: int| 0 <= k < b.len() && b[k] == x;
        assert(a[k] == x);
    }
    assert(a[i] == s[i]);
}

/// A sequence with one more item holds that item and what it held.
pub proof fn lemma_insert_contains<T>(s: Seq<T>, p: int, e: T, x: T)
    requires
        0 <= p <= s.len(),
    ensures
        s.insert(p, e).contains(x) <==> (x == e || s.contains(x)),
{
    let t = s.insert(p, e);
    if t.contains(x) {
        let k = choose|k: int| 0 <= k < t.len() && t[k] == x;
        if k < p {
            assert(s[k] == x);
        } else if k > p {
            assert(s[k - 1] == x);
        }
    }
    if x == e {
        assert(t[p] == x);
    }
    if s.contains(x) {
        let k = choose|k: int| 0 <= k < s.len() && s[k] == x;
        let k1 = if k < p {
            k
        } else {
            k + 1
        };
        assert(t[k1] == x);
    }
}

/// A sequence with one more item at its end holds that item and what it held.
pub proof fn lemma_push_contains<T>(s: Seq<T>, e: T, x: T)
    ensures
        s.push(e).contains(x) <==> (x == e || s.contains(x)),
{
    let t = s.push(e);
    if t.contains(x) {
        let k = choose|k: int| 0 <= k < t.len() && t[k] == x;
        if k < s.len() {
            assert(s[k] == x);
        }
    }
    if x == e {
        assert(t[s.len() as int] == x);
    }
    if s.contains(x) {
        let k = choose|k: int| 0 <= k < s.len() && s[k] == x;
        assert(t[k] == x);
    }
}

} // verus!
