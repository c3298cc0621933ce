//! Byte-string helpers.
//!
//! Names and blobs are raw byte strings, and listings are ordered by the
//! store's default text comparison, which is plain byte-wise (memcmp)
//! order; trimming strips ASCII whitespace from both ends of a name.

use vstd::prelude::*;

verus! {

/// Strict lexicographic (byte-wise) order on byte strings.
pub open spec fn lex_lt(a: Seq<u8>, b: Seq<u8>) -> bool
    decreases a.len(),
{
    if b.len() == 0 {
        false
    } else if a.len() == 0 {
        true
    } else if a[0] < b[0] {
        true
    } else if a[0] > b[0] {
        false
    } else {
        lex_lt(a.drop_first(), b.drop_first())
    }
}

/// `lex_lt` is trichotomous: of `a < b`, `b < a` and `a == b`, exactly one holds.
pub proof fn lemma_lex_trichotomy(a: Seq<u8>, b: Seq<u8>)
    ensures
        lex_lt(a, b) || lex_lt(b, a) || a == b,
        !(lex_lt(a, b) && lex_lt(b, a)),
        lex_lt(a, b) ==> a != b,
        lex_lt(b, a) ==> a != b,
    decreases a.len(),
{
    if a.len() != 0 && b.len() != 0 && a[0] == b[0] {
        lemma_lex_trichotomy(a.drop_first(), b.drop_first());
        if a.drop_first() == b.drop_first() {
            assert forall|j: int| 0 <= j < a.len() implies a[j] == b[j] by {
                if j > 0 {
                    assert(a[j] == a.drop_first()[j - 1]);
                    assert(b[j] == b.drop_first()[j - 1]);
                }
            }
            assert(a =~= b);
        }
        if a == b {
            assert(a.drop_first() =~= b.drop_first());
        }
    } else if a == b && a.len() != 0 {
        assert(a[0] == b[0]);
    }
}

/// `lex_lt` is transitive.
pub proof fn lemma_lex_trans(a: Seq<u8>, b: Seq<u8>, c: Seq<u8>)
    requires
        lex_lt(a, b),
        lex_lt(b, c),
    ensures
        lex_lt(a, c),
    decreases a.len(),
{
    if a.len() != 0 && b.len() != 0 && c.len() != 0 {
        if a[0] == b[0] && b[0] == c[0] {
            lemma_lex_trans(a.drop_first(), b.drop_first(), c.drop_first());
        }
    }
}

/// Outcome of a three-way byte-string comparison.
pub enum Cmp {
    Lt,
    Eq,
    Gt,
}

/// If `a` and `b` agree on their first `i` positions, the comparison is
/// decided by position `i` (or, failing that, by length).
proof fn lemma_lex_from_prefix(a: Seq<u8>, b: Seq<u8>, i: int)
    requires
        0 <= i <= a.len(),
        i <= b.len(),
        forall|j: int| 0 <= j < i ==> a[j] == b[j],
    ensures
        i < a.len() && i < b.len() && a[i] < b[i] ==> lex_lt(a, b),
        i < a.len() && i < b.len() && a[i] > b[i] ==> lex_lt(b, a),
        i == a.len() && i < b.len() ==> lex_lt(a, b),
        i == b.len() && i < a.len() ==> lex_lt(b, a),
        i == a.len() && i == b.len() ==> a == b,
    decreases i,
{
    if i == 0 {
        if a.len() == 0 && b.len() == 0 {
            assert(a =~= b);
        }
    } else {
        let a1 = a.drop_first();
        let b1 = b.drop_first();
        assert(forall|j: int| 0 <= j < i - 1 ==> a1[j] == b1[j]);
        lemma_lex_from_prefix(a1, b1, i - 1);
        if i == a.len() && i == b.len() {
            assert(a =~= b);
        }
    }
}

/// Three-way comparison of two byte strings in byte-wise order.
pub fn cmp_bytes(a: &Vec<u8>, b: &Vec<u8>) -> (r: Cmp)
    ensures
        r is Lt <==> lex_lt(a@, b@),
        r is Eq <==> a@ == b@,
        r is Gt <==> lex_lt(b@, a@),
{
    proof {
        lemma_lex_trichotomy(a@, b@);
    }
    let n: usize = if a.len() < b.len() { a.len() } else { b.len() };
    let mut i: usize = 0;
    while i < n
        invariant
            0 <= i <= n,
            n <= a@.len(),
            n <= b@.len(),
            n == a@.len() || n == b@.len(),
            forall|j: int| 0 <= j < i ==> a@[j] == b@[j],
        decreases n - i,
    {
        if a[i] < b[i] {
            proof {
                lemma_lex_from_prefix(a@, b@, i as int);
                lemma_lex_trichotomy(a@, b@);
            }
            return Cmp::Lt;
        }
        if a[i] > b[i] {
            proof {
                lemma_lex_from_prefix(a@, b@, i as int);
                lemma_lex_trichotomy(a@, b@);
            }
            return Cmp::Gt;
        }
        i = i + 1;
    }
    proof {
        lemma_lex_from_prefix(a@, b@, n as int);
        lemma_lex_trichotomy(a@, b@);
    }
    if a.len() < b.len() {
        Cmp::Lt
    } else if b.len() < a.len() {
        Cmp::Gt
    } else {
        Cmp::Eq
    }
}

/// ASCII whitespace, as stripped from the ends of a name.
pub open spec fn is_blank(b: u8) -> bool {
    b == 0x20 || (0x09 <= b && b <= 0x0d)
}

/// `s` with its leading whitespace removed.
pub open spec fn trim_front(s: Seq<u8>) -> Seq<u8>
    decreases s.len(),
{
    if s.len() > 0 && is_blank(s[0]) {
        trim_front(s.drop_first())
    } else {
        s
    }
}

/// `s` with its trailing whitespace removed.
pub open spec fn trim_back(s: Seq<u8>) -> Seq<u8>
    decreases s.len(),
{
    if s.len() > 0 && is_blank(s.last()) {
        trim_back(s.drop_last())
    } else {
        s
    }
}

/// `s` with whitespace removed from both ends.
pub open spec fn trimmed(s: Seq<u8>) -> Seq<u8> {
    trim_back(trim_front(s))
}

proof fn lemma_trim_front_at(s: Seq<u8>, k: int)
    requires
        0 <= k <= s.len(),
        forall|j: int| 0 <= j < k ==> is_blank(s[j]),
        k < s.len() ==> !is_blank(s[k]),
    ensures
        trim_front(s) == s.subrange(k, s.len() as int),
    decreases k,
{
    if k == 0 {
        assert(s.subrange(0, s.len() as int) =~= s);
    } else {
        let s1 = s.drop_first();
        lemma_trim_front_at(s1, k - 1);
        assert(s1.subrange(k - 1, s1.len() as int) =~= s.subrange(k, s.len() as int));
    }
}

proof fn lemma_trim_back_at(s: Seq<u8>, k: int)
    requires
        0 <= k <= s.len(),
        forall|j: int| k <= j < s.len() ==> is_blank(s[j]),
        k > 0 ==> !is_blank(s[k - 1]),
    ensures
        trim_back(s) == s.subrange(0, k),
    decreases s.len(),
{
    if k == s.len() {
        if s.len() > 0 && is_blank(s.last()) {
            assert(!is_blank(s[k - 1]));
            assert(false);
        }
        assert(s.subrange(0, k) =~= s);
    } else {
        let s1 = s.drop_last();
        assert(is_blank(s.last()));
        lemma_trim_back_at(s1, k);
        assert(s1.subrange(0, k) =~= s.subrange(0, k));
    }
}

/// Copy of `v` with ASCII whitespace stripped from both ends.
pub fn trim_bytes(v: &Vec<u8>) -> (r: Vec<u8>)
    ensures
        r@ == trimmed(v@),
{
    let mut lo: usize = 0;
    while lo < v.len() && (v[lo] == 0x20 || (0x09 <= v[lo] && v[lo] <= 0x0d))
        invariant
            0 <= lo <= v@.len(),
            forall|j: int| 0 <= j < lo ==> is_blank(v@[j]),
        decreases v@.len() - lo,
    {
        lo = lo + 1;
    }
    proof {
        lemma_trim_front_at(v@, lo as int);
    }
    let mut hi: usize = v.len();
    while hi > lo && (v[hi - 1] == 0x20 || (0x09 <= v[hi - 1] && v[hi - 1] <= 0x0d))
        invariant
            lo <= hi <= v@.len(),
            forall|j: int| hi <= j < v@.len() ==> is_blank(v@[j]),
        decreases hi,
    {
        hi = hi - 1;
    }
    let ghost t = v@.subrange(lo as int, v@.len() as int);
    proof {
        assert(forall|j: int| hi - lo <= j < t.len() ==> is_blank(t[j]));
        lemma_trim_back_at(t, hi - lo);
    }
    let mut r: Vec<u8> = Vec::new();
    let mut i: usize = lo;
    while i < hi
        invariant
            lo <= i <= hi <= v@.len(),
            r@ == v@.subrange(lo as int, i as int),
        decreases hi - i,
    {
        r.push(v[i]);
        proof {
            assert(v@.subrange(lo as int, i + 1 as int) =~= v@.subrange(lo as int, i as int).push(
                v@[i as int],
            ));
        }
        i = i + 1;
    }
    proof {
        assert(r@ =~= t.subrange(0, hi - lo));
    }
    r
}

/// Copy of a byte string.
pub fn clone_bytes(v: &Vec<u8>) -> (r: Vec<u8>)
    ensures
        r@ == v@,
{
    let mut r: Vec<u8> = Vec::new();
    let mut i: usize = 0;
    while i < v.len()
        invariant
            0 <= i <= v@.len(),
            r@ == v@.subrange(0, i as int),
        decreases v@.len() - i,
    {
        r.push(v[i]);
        proof {
            assert(v@.subrange(0, i + 1 as int) =~= v@.subrange(0, i as int).push(v@[i as int]));
        }
        i = i + 1;
    }
    proof {
        assert(r@ =~= v@);
    }
    r
}

} // verus!
