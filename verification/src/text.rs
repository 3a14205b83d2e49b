use vstd::prelude::*;

verus! {

use vstd::string::StrSliceExecFns;

/// `q` occurs in `s` as a contiguous run starting at index `i`.
pub open spec fn contains_at(s: Seq<char>, q: Seq<char>, i: int) -> bool {
    0 <= i && i + q.len() <= s.len() && s.subrange(i, i + q.len()) == q
}

/// `q` is a literal substring of `s`; the empty sequence is a substring of
/// every sequence.
pub open spec fn spec_contains(s: Seq<char>, q: Seq<char>) -> bool {
    exists|i: int| contains_at(s, q, i)
}

/// Lexicographic order on character sequences by code point, the order in
/// which Rust compares string slices: a proper prefix comes first, and
/// otherwise the first differing character decides.
pub open spec fn lex_le(a: Seq<char>, b: Seq<char>) -> bool
    decreases a.len(),
{
    if a.len() == 0 {
        true
    } else if b.len() == 0 {
        false
    } else if a[0] < b[0] {
        true
    } else if b[0] < a[0] {
        false
    } else {
        lex_le(a.skip(1), b.skip(1))
    }
}

/// The order `lex_le` is reflexive.
pub proof fn lemma_lex_le_refl(a: Seq<char>)
    ensures
        lex_le(a, a),
    decreases a.len(),
{
    if a.len() > 0 {
        lemma_lex_le_refl(a.skip(1));
    }
}

/// The order `lex_le` is total: any two sequences are comparable.
pub proof fn lemma_lex_le_total(a: Seq<char>, b: Seq<char>)
    ensures
        lex_le(a, b) || lex_le(b, a),
    decreases a.len(),
{
    if a.len() == 0 {
    } else if b.len() == 0 {
    } else if a[0] < b[0] {
        assert(lex_le(a, b));
    } else if b[0] < a[0] {
        assert(lex_le(b, a));
    } else {
        lemma_lex_le_total(a.skip(1), b.skip(1));
    }
}

/// The order `lex_le` is antisymmetric: mutual order means equality.
pub proof fn lemma_lex_le_antisym(a: Seq<char>, b: Seq<char>)
    requires
        lex_le(a, b),
        lex_le(b, a),
    ensures
        a == b,
    decreases a.len(),
{
    if a.len() == 0 {
        assert(b.len() == 0);
        assert(a =~= b);
    } else {
        assert(b.len() > 0);
        assert(a[0] == b[0]);
        lemma_lex_le_antisym(a.skip(1), b.skip(1));
        assert(a.skip(1).len() == a.len() - 1);
        assert(b.skip(1).len() == b.len() - 1);
        assert(a.len() == b.len());
        assert forall|k: int| 0 <= k < a.len() implies a[k] == b[k] by {
            if k > 0 {
                assert(a[k] == a.skip(1)[k - 1]);
                assert(b[k] == b.skip(1)[k - 1]);
            }
        }
        assert(a =~= b);
    }
}

/// The order `lex_le` is transitive.
pub proof fn lemma_lex_le_trans(a: Seq<char>, b: Seq<char>, c: Seq<char>)
    requires
        lex_le(a, b),
        lex_le(b, c),
    ensures
        lex_le(a, c),
    decreases a.len(),
{
    if a.len() == 0 {
    } else {
        assert(b.len() > 0);
        assert(c.len() > 0);
        if a[0] < b[0] || b[0] < c[0] {
            assert(a[0] < c[0]);
            assert(lex_le(a, c));
        } else {
            assert(a[0] == b[0] && b[0] == c[0]);
            lemma_lex_le_trans(a.skip(1), b.skip(1), c.skip(1));
            assert(lex_le(a, c));
        }
    }
}

/// When the first `i` characters agree, the order is decided by the tails.
proof fn lemma_lex_le_skip(a: Seq<char>, b: Seq<char>, i: int)
    requires
        0 <= i <= a.len(),
        i <= b.len(),
        forall|k: int| 0 <= k < i ==> a[k] == b[k],
    ensures
        lex_le(a, b) == lex_le(a.skip(i), b.skip(i)),
    decreases i,
{
    if i > 0 {
        assert(a.len() > 0 && b.len() > 0);
        assert(a[0] == b[0]);
        lemma_lex_le_skip(a.skip(1), b.skip(1), i - 1);
        assert(a.skip(1).skip(i - 1) =~= a.skip(i));
        assert(b.skip(1).skip(i - 1) =~= b.skip(i));
    } else {
        assert(a.skip(0) =~= a);
        assert(b.skip(0) =~= b);
    }
}

/// Whether `q@` is a literal substring of `s@`, by direct search.
pub fn str_contains(s: &str, q: &str) -> (r: bool)
    ensures
        r == spec_contains(s@, q@),
{
    let n = s.unicode_len();
    let m = q.unicode_len();
    if m == 0 {
        proof {
            assert(s@.subrange(0, 0) =~= q@);
            assert(contains_at(s@, q@, 0));
        }
        return true;
    }
    if m > n {
        return false;
    }
    let mut i: usize = 0;
    while i <= n - m
        invariant
            1 <= m <= n,
            i <= n - m + 1,
            n == s@.len(),
            m == q@.len(),
            forall|k: int| 0 <= k < i ==> !contains_at(s@, q@, k),
        decreases n - m + 1 - i,
    {
        if match_at(s, q, i) {
            proof {
                assert(contains_at(s@, q@, i as int));
            }
            return true;
        }
        i += 1;
    }
    proof {
        assert forall|k: int| !contains_at(s@, q@, k) by {
            if 0 <= k && k + q@.len() <= s@.len() {
                assert(k < i);
            }
        }
    }
    false
}

/// Whether `q@` occurs in `s@` starting exactly at index `i`.
fn match_at(s: &str, q: &str, i: usize) -> (r: bool)
    requires
        i + q@.len() <= s@.len(),
    ensures
        r == (s@.subrange(i as int, i + q@.len()) == q@),
{
    let n = s.unicode_len();
    let m = q.unicode_len();
    let mut j: usize = 0;
    while j < m
        invariant
            j <= m,
            n == s@.len(),
            m == q@.len(),
            i + m <= n,
            forall|k: int| 0 <= k < j ==> s@[i + k] == q@[k],
        decreases m - j,
    {
        if s.get_char(i + j) != q.get_char(j) {
            proof {
                assert(s@.subrange(i as int, i + q@.len())[j as int] == s@[i + j]);
            }
            return false;
        }
        j += 1;
    }
    proof {
        assert(s@.subrange(i as int, i + q@.len()) =~= q@);
    }
    true
}

/// Whether `a@` comes at or before `b@` in lexicographic order, by direct
/// comparison of characters.
pub fn str_le(a: &str, b: &str) -> (r: bool)
    ensures
        r == lex_le(a@, b@),
{
    let n = a.unicode_len();
    let m = b.unicode_len();
    let mut i: usize = 0;
    while i < n && i < m
        invariant
            i <= n,
            i <= m,
            n == a@.len(),
            m == b@.len(),
            forall|k: int| 0 <= k < i ==> a@[k] == b@[k],
        decreases n - i,
    {
        let ca = a.get_char(i);
        let cb = b.get_char(i);
        if ca < cb {
            proof {
                lemma_lex_le_skip(a@, b@, i as int);
                assert(a@.skip(i as int)[0] == ca);
                assert(b@.skip(i as int)[0] == cb);
            }
            return true;
        }
        if cb < ca {
            proof {
                lemma_lex_le_skip(a@, b@, i as int);
                assert(a@.skip(i as int)[0] == ca);
                assert(b@.skip(i as int)[0] == cb);
            }
            return false;
        }
        i += 1;
    }
    proof {
        lemma_lex_le_skip(a@, b@, i as int);
        if i == n {
            assert(a@.skip(i as int).len() == 0);
        } else {
            assert(b@.skip(i as int).len() == 0);
            assert(a@.skip(i as int).len() > 0);
        }
    }
    n <= m
}

} // verus!
