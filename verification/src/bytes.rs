//! Lexicographic order and searching on byte strings.
//!
//! Rows, columns and cell values are plain byte strings; every ordered
//! structure in the store compares them lexicographically.

use vstd::prelude::*;

verus! {

/// Strict lexicographic order on byte strings: `a` comes before `b`.
pub open spec fn lex_lt(a: Seq<u8>, b: Seq<u8>) -> bool
    decreases a.len(),
{
    if b.len() == 0 {
        false
    } else if a.len() == 0 {
        true
    } else if a[0] < b[0] {
        true
    } else if a[0] > b[0] {
        false
    } else {
        lex_lt(a.drop_first(), b.drop_first())
    }
}

/// Non-strict lexicographic order.
pub open spec fn lex_le(a: Seq<u8>, b: Seq<u8>) -> bool {
    lex_lt(a, b) || a == b
}

/// Exactly one of `a < b`, `a == b`, `b < a` holds.
pub proof fn lemma_lex_trichotomy(a: Seq<u8>, b: Seq<u8>)
    ensures
        lex_lt(a, b) ==> !(a == b) && !lex_lt(b, a),
        a == b ==> !lex_lt(a, b) && !lex_lt(b, a),
        !lex_lt(a, b) && !lex_lt(b, a) ==> a == b,
    decreases a.len(),
{
    if a.len() == 0 || b.len() == 0 {
        if a.len() == b.len() {
            assert(a =~= b);
        }
    } else {
        lemma_lex_trichotomy(a.drop_first(), b.drop_first());
        if a[0] == b[0] && a.drop_first() == b.drop_first() {
            assert forall|i: int| 0 <= i < a.len() implies a[i] == b[i] by {
                if i > 0 {
                    assert(a.drop_first()[i - 1] == b.drop_first()[i - 1]);
                }
            }
            assert(a =~= b);
        }
        if a == b {
            assert(a.drop_first() =~= b.drop_first());
        }
    }
}

/// The order is transitive.
pub proof fn lemma_lex_transitive(a: Seq<u8>, b: Seq<u8>, c: Seq<u8>)
    requires
        lex_lt(a, b),
        lex_lt(b, c),
    ensures
        lex_lt(a, c),
    decreases a.len(),
{
    if a.len() == 0 {
    } else if b.len() == 0 {
    } else if c.len() == 0 {
    } else {
        if a[0] == b[0] && b[0] == c[0] {
            lemma_lex_transitive(a.drop_first(), b.drop_first(), c.drop_first());
        }
    }
}

/// Dropping a shared first element keeps the order unchanged.
proof fn lemma_lex_skip_one(a: Seq<u8>, b: Seq<u8>, i: int)
    requires
        0 < i <= a.len(),
        i <= b.len(),
        a.subrange(0, i) == b.subrange(0, i),
    ensures
        lex_lt(a, b) == lex_lt(a.skip(i), b.skip(i)),
    decreases i,
{
    assert(a.subrange(0, i)[0] == a[0]);
    assert(b.subrange(0, i)[0] == b[0]);
    if i == 1 {
        assert(a.skip(1) =~= a.drop_first());
        assert(b.skip(1) =~= b.drop_first());
    } else {
        assert(a.drop_first().subrange(0, i - 1) =~= a.subrange(0, i).drop_first());
        assert(b.drop_first().subrange(0, i - 1) =~= b.subrange(0, i).drop_first());
        lemma_lex_skip_one(a.drop_first(), b.drop_first(), i - 1);
        assert(a.drop_first().skip(i - 1) =~= a.skip(i));
        assert(b.drop_first().skip(i - 1) =~= b.skip(i));
    }
}

/// Three-way lexicographic comparison of two byte strings.
pub fn bytes_cmp(a: &[u8], b: &[u8]) -> (r: i8)
    ensures
        -1 <= r <= 1,
        r == -1 <==> lex_lt(a@, b@),
        r == 0 <==> a@ == b@,
        r == 1 <==> lex_lt(b@, a@),
{
    proof {
        lemma_lex_trichotomy(a@, b@);
        assert(a@.skip(0) =~= a@);
        assert(b@.skip(0) =~= b@);
    }
    let mut i: usize = 0;
    while i < a.len() && i < b.len()
        invariant
            0 <= i <= a.len(),
            i <= b.len(),
            a@.subrange(0, i as int) == b@.subrange(0, i as int),
        decreases a.len() - i,
    {
        let x = a[i];
        let y = b[i];
        if x < y {
            proof {
                if i > 0 {
                    lemma_lex_skip_one(a@, b@, i as int);
                } else {
                    assert(a@.skip(0) =~= a@);
                    assert(b@.skip(0) =~= b@);
                }
                assert(lex_lt(a@.skip(i as int), b@.skip(i as int)));
                lemma_lex_trichotomy(a@, b@);
            }
            return -1;
        }
        if x > y {
            proof {
                if i > 0 {
                    lemma_lex_skip_one(b@, a@, i as int);
                    assert(b@.subrange(0, i as int) =~= a@.subrange(0, i as int));
                } else {
                    assert(a@.skip(0) =~= a@);
                    assert(b@.skip(0) =~= b@);
                }
                assert(lex_lt(b@.skip(i as int), a@.skip(i as int)));
                lemma_lex_trichotomy(a@, b@);
            }
            return 1;
        }
        proof {
            assert(a@.subrange(0, i + 1 as int) =~= a@.subrange(0, i as int).push(a@[i as int]));
            assert(b@.subrange(0, i + 1 as int) =~= b@.subrange(0, i as int).push(b@[i as int]));
        }
        i = i + 1;
    }
    if a.len() == b.len() {
        proof {
            assert(a@ =~= a@.subrange(0, i as int));
            assert(b@ =~= b@.subrange(0, i as int));
        }
        0
    } else if a.len() < b.len() {
        proof {
            if i > 0 {
                lemma_lex_skip_one(a@, b@, i as int);
            }
            assert(lex_lt(a@.skip(i as int), b@.skip(i as int)));
        }
        -1
    } else {
        proof {
            if i > 0 {
                lemma_lex_skip_one(b@, a@, i as int);
                assert(b@.subrange(0, i as int) =~= a@.subrange(0, i as int));
            }
            assert(lex_lt(b@.skip(i as int), a@.skip(i as int)));
        }
        1
    }
}

/// Equality of two byte strings.
pub fn bytes_eq(a: &[u8], b: &[u8]) -> (r: bool)
    ensures
        r == (a@ == b@),
{
    bytes_cmp(a, b) == 0
}

/// Whether `a` comes strictly before `b` lexicographically.
pub fn bytes_lt(a: &[u8], b: &[u8]) -> (r: bool)
    ensures
        r == lex_lt(a@, b@),
{
    bytes_cmp(a, b) == -1
}

/// Whether `a` comes before `b` or equals it.
pub fn bytes_le(a: &[u8], b: &[u8]) -> (r: bool)
    ensures
        r == lex_le(a@, b@),
{
    bytes_cmp(a, b) != 1
}

/// `value` starts with `prefix`.
pub open spec fn spec_starts_with(value: Seq<u8>, prefix: Seq<u8>) -> bool {
    prefix.len() <= value.len() && value.subrange(0, prefix.len() as int) == prefix
}

/// `value` ends with `suffix`.
pub open spec fn spec_ends_with(value: Seq<u8>, suffix: Seq<u8>) -> bool {
    suffix.len() <= value.len() && value.subrange(
        value.len() - suffix.len(),
        value.len() as int,
    ) == suffix
}

/// `needle` occurs contiguously somewhere inside `value`.
pub open spec fn spec_contains(value: Seq<u8>, needle: Seq<u8>) -> bool {
    exists|i: int|
        0 <= i && i + needle.len() <= value.len() && #[trigger] value.subrange(i, i + needle.len())
            == needle
}

fn slice_matches_at(value: &[u8], needle: &[u8], at: usize) -> (r: bool)
    requires
        at + needle@.len() <= value@.len(),
    ensures
        r == (value@.subrange(at as int, at + needle@.len()) == needle@),
{
    let n = needle.len();
    let vl = value.len();
    let mut j: usize = 0;
    while j < n
        invariant
            0 <= j <= n,
            n == needle@.len(),
            vl == value@.len(),
            at + needle@.len() <= value@.len(),
            value@.subrange(at as int, at + j) == needle@.subrange(0, j as int),
        decreases n - j,
    {
        if value[at + j] != needle[j] {
            proof {
                assert(value@.subrange(at as int, at + needle@.len())[j as int] == value@[at + j]);
            }
            return false;
        }
        proof {
            assert(value@.subrange(at as int, at + j + 1) =~= value@.subrange(at as int, at + j).push(
                value@[at + j],
            ));
            assert(needle@.subrange(0, j + 1) =~= needle@.subrange(0, j as int).push(needle@[j as int]));
        }
        j = j + 1;
    }
    proof {
        assert(needle@.subrange(0, needle@.len() as int) =~= needle@);
    }
    true
}

/// `value` starts with `prefix`, byte for byte.
pub fn starts_with_bytes(value: &[u8], prefix: &[u8]) -> (r: bool)
    ensures
        r == spec_starts_with(value@, prefix@),
{
    if prefix.len() > value.len() {
        return false;
    }
    slice_matches_at(value, prefix, 0)
}

/// `value` ends with `suffix`, byte for byte.
pub fn ends_with_bytes(value: &[u8], suffix: &[u8]) -> (r: bool)
    ensures
        r == spec_ends_with(value@, suffix@),
{
    if suffix.len() > value.len() {
        return false;
    }
    slice_matches_at(value, suffix, value.len() - suffix.len())
}

/// `value` contains `needle` as a contiguous run of bytes.  An empty needle
/// is contained in everything.
pub fn contains_subsequence(value: &[u8], needle: &[u8]) -> (r: bool)
    ensures
        r == spec_contains(value@, needle@),
{
    if needle.len() == 0 {
        proof {
            assert(value@.subrange(0, 0 + needle@.len() as int) =~= needle@);
        }
        return true;
    }
    if needle.len() > value.len() {
        return false;
    }
    let last = value.len() - needle.len();
    let mut i: usize = 0;
    while i <= last
        invariant
            0 <= i <= last + 1,
            last == value@.len() - needle@.len(),
            1 <= needle@.len() <= value@.len(),
            value@.len() <= usize::MAX,
            forall|k: int|
                0 <= k < i ==> #[trigger] value@.subrange(k, k + needle@.len()) != needle@,
        decreases last + 1 - i,
    {
        if slice_matches_at(value, needle, i) {
            return true;
        }
        i = i + 1;
    }
    false
}

} // verus!
