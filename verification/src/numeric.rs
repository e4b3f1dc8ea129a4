//! Recognizing and reading numbers written as bytes.
//!
//! Aggregations read cell values as decimal integers where they can, and
//! otherwise classify them against the grammar that Rust's floating-point
//! parser accepts: an optional sign, then `inf`, `infinity`, `nan` (in any
//! case) or digits with an optional point and exponent.  Only the
//! classification and the integer value are computed here; floating-point
//! arithmetic itself is left to the embedding program and the tests.

use vstd::prelude::*;

verus! {

/// An ASCII decimal digit.
pub open spec fn is_digit(b: u8) -> bool {
    48 <= b <= 57
}

/// Every byte is a decimal digit.
pub open spec fn all_digits(s: Seq<u8>) -> bool {
    forall|i: int| 0 <= i < s.len() ==> is_digit(#[trigger] s[i])
}

/// The value of a run of decimal digits.
pub open spec fn digits_val(s: Seq<u8>) -> int
    decreases s.len(),
{
    if s.len() == 0 {
        0
    } else {
        digits_val(s.drop_last()) * 10 + (s.last() - 48)
    }
}

/// The bytes after an optional leading `+` or `-`.
pub open spec fn sign_body(s: Seq<u8>) -> Seq<u8> {
    if s.len() > 0 && (s[0] == 43 || s[0] == 45) {
        s.drop_first()
    } else {
        s
    }
}

/// The bytes carry a leading minus sign.
pub open spec fn sign_negative(s: Seq<u8>) -> bool {
    s.len() > 0 && s[0] == 45
}

/// The bytes spell a decimal integer: an optional sign and at least one
/// digit.
pub open spec fn is_int_literal(s: Seq<u8>) -> bool {
    sign_body(s).len() > 0 && all_digits(sign_body(s))
}

/// The signed value the bytes spell.
pub open spec fn int_value(s: Seq<u8>) -> int {
    if sign_negative(s) {
        -digits_val(sign_body(s))
    } else {
        digits_val(sign_body(s))
    }
}

/// The bytes parse as an `i64`: an integer literal whose value fits.
pub open spec fn parses_as_i64(s: Seq<u8>) -> bool {
    is_int_literal(s) && i64::MIN <= int_value(s) <= i64::MAX
}

/// Digit values never shrink when digits are appended.
proof fn lemma_digits_val_monotonic(s: Seq<u8>, i: int)
    requires
        0 <= i <= s.len(),
        all_digits(s),
    ensures
        digits_val(s) >= digits_val(s.take(i)),
        digits_val(s) >= 0,
    decreases s.len() - i,
{
    lemma_digits_val_nonneg(s);
    if i < s.len() {
        lemma_digits_val_step(s, i);
        lemma_digits_val_monotonic(s, i + 1);
        lemma_digits_val_nonneg(s.take(i));
    } else {
        assert(s.take(i) =~= s);
    }
}

/// Digit values are never negative.
proof fn lemma_digits_val_nonneg(s: Seq<u8>)
    ensures
        digits_val(s) >= 0 || !all_digits(s),
    decreases s.len(),
{
    if s.len() > 0 {
        if all_digits(s) {
            assert(all_digits(s.drop_last()));
            lemma_digits_val_nonneg(s.drop_last());
        }
    }
}

/// Reading one more digit multiplies the prefix value by ten and adds it.
proof fn lemma_digits_val_step(s: Seq<u8>, i: int)
    requires
        0 <= i < s.len(),
    ensures
        digits_val(s.take(i + 1)) == digits_val(s.take(i)) * 10 + (s[i] - 48),
{
    assert(s.take(i + 1).drop_last() =~= s.take(i));
    assert(s.take(i + 1).last() == s[i]);
}

/// Read the digits of `s` starting at `from`, stopping with nothing when
/// the value would exceed `limit`.
fn digits_value_capped(s: &[u8], from: usize, limit: u64) -> (r: Option<u64>)
    requires
        from <= s@.len(),
        all_digits(s@.skip(from as int)),
    ensures
        match r {
            Some(v) => v == digits_val(s@.skip(from as int)) && v <= limit,
            None => digits_val(s@.skip(from as int)) > limit,
        },
{
    let ghost d = s@.skip(from as int);
    let n = s.len();
    let mut acc: u64 = 0;
    let mut i: usize = from;
    proof {
        assert(d.take(0) =~= Seq::<u8>::empty());
    }
    while i < n
        invariant
            from <= i <= n,
            n == s@.len(),
            d == s@.skip(from as int),
            all_digits(d),
            acc == digits_val(d.take(i - from)),
            acc <= limit,
            limit <= u64::MAX,
        decreases n - i,
    {
        let b = *vstd::slice::slice_index_get(s, i);
        proof {
            assert(d[i - from] == s@[i as int]);
            assert(is_digit(d[i - from]));
            lemma_digits_val_step(d, i - from);
        }
        let dig = (b - 48) as u64;
        if dig > limit {
            proof {
                lemma_digits_val_monotonic(d, i + 1 - from);
                lemma_digits_val_nonneg(d.take(i - from));
                assert(digits_val(d.take(i + 1 - from)) > limit);
            }
            return None;
        }
        if acc > (limit - dig) / 10 {
            proof {
                assert(acc * 10 + dig > limit) by (nonlinear_arith)
                    requires
                        acc > (limit - dig) / 10,
                        dig <= limit,
                        acc >= 0,
                ;
                lemma_digits_val_monotonic(d, i + 1 - from);
            }
            return None;
        }
        proof {
            assert(acc * 10 + dig <= limit) by (nonlinear_arith)
                requires
                    acc <= (limit - dig) / 10,
                    dig <= limit,
                    acc >= 0,
            ;
        }
        acc = acc * 10 + dig;
        i = i + 1;
    }
    proof {
        assert(d.take(n - from) =~= d);
    }
    Some(acc)
}

/// Every byte from `from` on is a digit, and there is at least one.
fn check_digits(s: &[u8], from: usize) -> (r: bool)
    requires
        from <= s@.len(),
    ensures
        r == (s@.skip(from as int).len() > 0 && all_digits(s@.skip(from as int))),
{
    let n = s.len();
    if from == n {
        return false;
    }
    let mut i: usize = from;
    while i < n
        invariant
            from <= i <= n,
            n == s@.len(),
            forall|j: int| from <= j < i ==> is_digit(#[trigger] s@[j]),
        decreases n - i,
    {
        let b = *vstd::slice::slice_index_get(s, i);
        if b < 48 || b > 57 {
            proof {
                assert(s@.skip(from as int)[i - from] == s@[i as int]);
            }
            return false;
        }
        i = i + 1;
    }
    proof {
        assert forall|j: int| 0 <= j < s@.skip(from as int).len() implies is_digit(
            #[trigger] s@.skip(from as int)[j],
        ) by {
            assert(s@.skip(from as int)[j] == s@[from + j]);
        }
    }
    true
}

/// Parse the bytes as a decimal `i64`: an optional sign and digits, with
/// the value in range.
pub fn parse_i64(s: &[u8]) -> (r: Option<i64>)
    ensures
        match r {
            Some(v) => parses_as_i64(s@) && v == int_value(s@),
            None => !parses_as_i64(s@),
        },
{
    let n = s.len();
    if n == 0 {
        return None;
    }
    let first = *vstd::slice::slice_index_get(s, 0);
    let from: usize = if first == 43 || first == 45 {
        1
    } else {
        0
    };
    let negative = first == 45;
    proof {
        assert(sign_body(s@) =~= s@.skip(from as int));
    }
    if !check_digits(s, from) {
        return None;
    }
    let limit: u64 = if negative {
        9223372036854775808
    } else {
        9223372036854775807
    };
    let capped = digits_value_capped(s, from, limit);
    match capped {
        None => {
            proof {
                if negative {
                    assert(int_value(s@) < i64::MIN);
                } else {
                    assert(int_value(s@) > i64::MAX);
                }
            }
            None
        },
        Some(v) => {
            if negative {
                if v == 9223372036854775808 {
                    Some(i64::MIN)
                } else {
                    Some(-(v as i64))
                }
            } else {
                Some(v as i64)
            }
        },
    }
}

/// The byte, lower-cased if it is an ASCII letter.
pub open spec fn ascii_lower(b: u8) -> u8 {
    if 65 <= b <= 90 {
        (b + 32) as u8
    } else {
        b
    }
}

/// The bytes spell `t` up to ASCII case.
pub open spec fn lower_is(s: Seq<u8>, t: Seq<u8>) -> bool {
    s.len() == t.len() && forall|i: int| 0 <= i < s.len() ==> ascii_lower(#[trigger] s[i]) == t[i]
}

/// The bytes spell `inf`, `infinity` or `nan` in any case.
pub open spec fn is_inf_nan(s: Seq<u8>) -> bool {
    ||| lower_is(s, seq![105u8, 110u8, 102u8])
    ||| lower_is(s, seq![105u8, 110u8, 102u8, 105u8, 110u8, 105u8, 116u8, 121u8])
    ||| lower_is(s, seq![110u8, 97u8, 110u8])
}

/// The index of the first `e` or `E`, or the length when there is none.
pub open spec fn first_exp_idx(s: Seq<u8>) -> int
    decreases s.len(),
{
    if s.len() == 0 {
        0
    } else if s[0] == 101 || s[0] == 69 {
        0
    } else {
        1 + first_exp_idx(s.drop_first())
    }
}

/// A mantissa: digits, a point with digits on at least one side, or both.
pub open spec fn mantissa_ok(m: Seq<u8>) -> bool {
    exists|i: int|
        0 <= i <= m.len() && #[trigger] point_split_ok(m, i)
}

/// Splitting the mantissa at `i`: either no point (with `i == m.len()`)
/// and at least one digit, or a point at `i` with digits around it.
pub open spec fn point_split_ok(m: Seq<u8>, i: int) -> bool {
    &&& 0 <= i <= m.len()
    &&& all_digits(m.take(i))
    &&& if i == m.len() {
        i > 0
    } else {
        m[i] == 46 && all_digits(m.skip(i + 1)) && (i > 0 || m.len() - i - 1 > 0)
    }
}

/// An exponent: an optional sign and at least one digit.
pub open spec fn exp_ok(t: Seq<u8>) -> bool {
    sign_body(t).len() > 0 && all_digits(sign_body(t))
}

/// A number: a mantissa, optionally followed by `e`/`E` and an exponent.
pub open spec fn number_ok(s: Seq<u8>) -> bool {
    if first_exp_idx(s) == s.len() {
        mantissa_ok(s)
    } else {
        mantissa_ok(s.take(first_exp_idx(s))) && exp_ok(s.skip(first_exp_idx(s) + 1))
    }
}

/// The bytes spell a floating-point literal as Rust's parser accepts it:
/// an optional sign, then `inf`, `infinity`, `nan` in any case, or a
/// number.
pub open spec fn is_float_literal(s: Seq<u8>) -> bool {
    is_inf_nan(sign_body(s)) || number_ok(sign_body(s))
}

/// Check a literal word up to ASCII case.
fn check_lower_is(s: &[u8], from: usize, t: &[u8]) -> (r: bool)
    requires
        from <= s@.len(),
    ensures
        r == lower_is(s@.skip(from as int), t@),
{
    let n = s.len();
    let m = t.len();
    if n - from != m {
        return false;
    }
    let mut i: usize = 0;
    while i < m
        invariant
            0 <= i <= m,
            m == t@.len(),
            n == s@.len(),
            from + m == n,
            forall|j: int| 0 <= j < i ==> ascii_lower(#[trigger] s@.skip(from as int)[j]) == t@[j],
        decreases m - i,
    {
        let mut b = *vstd::slice::slice_index_get(s, from + i);
        if b >= 65 && b <= 90 {
            b = b + 32;
        }
        if b != t[i] {
            proof {
                assert(s@.skip(from as int)[i as int] == s@[from + i]);
            }
            return false;
        }
        proof {
            assert(s@.skip(from as int)[i as int] == s@[from + i]);
        }
        i = i + 1;
    }
    true
}

/// Find the first `e` or `E` at or after `from`.
fn find_exp(s: &[u8], from: usize) -> (r: usize)
    requires
        from <= s@.len(),
    ensures
        from <= r <= s@.len(),
        r - from == first_exp_idx(s@.skip(from as int)),
{
    let n = s.len();
    let mut i: usize = from;
    while i < n
        invariant
            from <= i <= n,
            n == s@.len(),
            forall|j: int| from <= j < i ==> s@[j] != 101 && s@[j] != 69,
        decreases n - i,
    {
        let b = *vstd::slice::slice_index_get(s, i);
        if b == 101 || b == 69 {
            proof {
                lemma_first_exp(s@.skip(from as int), i - from);
            }
            return i;
        }
        i = i + 1;
    }
    proof {
        lemma_first_exp(s@.skip(from as int), n - from);
    }
    n
}

/// Where nothing before `i` is an exponent letter and `i` is one or the
/// end, `i` is the first exponent letter index.
proof fn lemma_first_exp(s: Seq<u8>, i: int)
    requires
        0 <= i <= s.len(),
        forall|j: int| 0 <= j < i ==> s[j] != 101 && #[trigger] s[j] != 69,
        i < s.len() ==> s[i] == 101 || s[i] == 69,
    ensures
        first_exp_idx(s) == i,
    decreases i,
{
    if i == 0 {
    } else {
        assert(s[0] != 101 && s[0] != 69);
        assert forall|j: int| 0 <= j < i - 1 implies s.drop_first()[j] != 101 && #[trigger] s
            .drop_first()[j] != 69 by {
            assert(s.drop_first()[j] == s[j + 1]);
        }
        if i < s.len() {
            assert(s.drop_first()[i - 1] == s[i]);
        }
        lemma_first_exp(s.drop_first(), i - 1);
    }
}

/// Check a mantissa between `from` and `to`.
fn check_mantissa(s: &[u8], from: usize, to: usize) -> (r: bool)
    requires
        from <= to <= s@.len(),
    ensures
        r == mantissa_ok(s@.subrange(from as int, to as int)),
{
    let ghost m = s@.subrange(from as int, to as int);
    let n = to;
    let mut i: usize = from;
    while i < n
        invariant
            from <= i <= n,
            n == to,
            to <= s@.len(),
            m == s@.subrange(from as int, to as int),
            forall|j: int| 0 <= j < i - from ==> is_digit(#[trigger] m[j]),
        decreases n - i,
    {
        let b = *vstd::slice::slice_index_get(s, i);
        proof {
            assert(m[i - from] == s@[i as int]);
        }
        if b == 46 {
            let digits_after = check_digits_range(s, i + 1, to);
            let rest_empty = i + 1 == to;
            let r = if rest_empty {
                i > from
            } else {
                digits_after
            };
            proof {
                assert forall|j: int| 0 <= j < i - from implies #[trigger] m.take(i - from)[j]
                    == m[j] by {}
                assert(m.take(i - from) =~= s@.subrange(from as int, i as int));
                assert(all_digits(m.take(i - from)));
                assert forall|j: int| 0 <= j < m.skip(i - from + 1).len() implies #[trigger] m.skip(
                    i - from + 1,
                )[j] == s@[i + 1 + j] by {
                    assert(m.skip(i - from + 1)[j] == m[i - from + 1 + j]);
                }
                assert(m.skip(i - from + 1) =~= s@.subrange(i + 1 as int, to as int));
                if r {
                    if rest_empty {
                        assert(m.skip(i - from + 1).len() == 0);
                        assert(all_digits(m.skip(i - from + 1)));
                    }
                    assert(point_split_ok(m, i - from));
                    assert(mantissa_ok(m));
                } else {
                    assert forall|k: int| 0 <= k <= m.len() implies !point_split_ok(m, k) by {
                        if point_split_ok(m, k) {
                            if k < i - from {
                                assert(m[k] == 46);
                                assert(is_digit(m[k]));
                            } else if k == i - from {
                                if rest_empty {
                                    assert(i == from);
                                    assert(m.len() - k - 1 == 0);
                                } else {
                                    assert(m.skip(k + 1).len() > 0);
                                    assert(all_digits(m.skip(k + 1)));
                                    assert(!digits_after);
                                }
                            } else {
                                assert(m.take(k)[i - from] == m[i - from]);
                                assert(is_digit(m[i - from]));
                            }
                        }
                    }
                    assert(!mantissa_ok(m));
                }
            }
            return r;
        }
        if b < 48 || b > 57 {
            proof {
                assert forall|k: int| 0 <= k <= m.len() implies !point_split_ok(m, k) by {
                    if point_split_ok(m, k) {
                        if k > i - from {
                            assert(m.take(k)[i - from] == m[i - from]);
                            assert(is_digit(m[i - from]));
                        } else if k == i - from {
                            assert(m[k] == 46);
                        } else {
                            assert(m[k] == 46);
                            assert(is_digit(m[k]));
                        }
                    }
                }
                assert(!mantissa_ok(m));
            }
            return false;
        }
        i = i + 1;
    }
    let r = to > from;
    proof {
        if r {
            assert forall|j: int| 0 <= j < m.len() implies #[trigger] m.take(m.len() as int)[j]
                == m[j] by {}
            assert(m.take(m.len() as int) =~= m);
            assert(all_digits(m.take(m.len() as int)));
            assert(point_split_ok(m, m.len() as int));
            assert(mantissa_ok(m));
        } else {
            assert(m.len() == 0);
            assert forall|k: int| 0 <= k <= m.len() implies !point_split_ok(m, k) by {}
            assert(!mantissa_ok(m));
        }
    }
    r
}

/// Every byte in `[from, to)` is a digit, and there is at least one.
fn check_digits_range(s: &[u8], from: usize, to: usize) -> (r: bool)
    requires
        from <= s@.len(),
        to <= s@.len(),
    ensures
        from <= to ==> r == (s@.subrange(from as int, to as int).len() > 0 && all_digits(
            s@.subrange(from as int, to as int),
        )),
        from > to ==> r == false,
{
    if from >= to {
        return false;
    }
    let mut i: usize = from;
    while i < to
        invariant
            from <= i <= to,
            to <= s@.len(),
            forall|j: int| from <= j < i ==> is_digit(#[trigger] s@[j]),
        decreases to - i,
    {
        let b = *vstd::slice::slice_index_get(s, i);
        if b < 48 || b > 57 {
            proof {
                assert(s@.subrange(from as int, to as int)[i - from] == s@[i as int]);
            }
            return false;
        }
        i = i + 1;
    }
    proof {
        assert forall|j: int| 0 <= j < to - from implies is_digit(
            #[trigger] s@.subrange(from as int, to as int)[j],
        ) by {
            assert(s@.subrange(from as int, to as int)[j] == s@[from + j]);
        }
    }
    true
}

/// The bytes spell a floating-point literal.
pub fn is_float(s: &[u8]) -> (r: bool)
    ensures
        r == is_float_literal(s@),
{
    let n = s.len();
    let from: usize = if n > 0 {
        let first = *vstd::slice::slice_index_get(s, 0);
        if first == 43 || first == 45 {
            1
        } else {
            0
        }
    } else {
        0
    };
    proof {
        assert(sign_body(s@) =~= s@.skip(from as int));
    }
    let word = [105u8, 110u8, 102u8];
    if check_lower_is(s, from, word.as_slice()) {
        proof {
            assert(word@ =~= seq![105u8, 110u8, 102u8]);
        }
        return true;
    }
    let word = [105u8, 110u8, 102u8, 105u8, 110u8, 105u8, 116u8, 121u8];
    if check_lower_is(s, from, word.as_slice()) {
        proof {
            assert(word@ =~= seq![105u8, 110u8, 102u8, 105u8, 110u8, 105u8, 116u8, 121u8]);
        }
        return true;
    }
    let word = [110u8, 97u8, 110u8];
    if check_lower_is(s, from, word.as_slice()) {
        proof {
            assert(word@ =~= seq![110u8, 97u8, 110u8]);
        }
        return true;
    }
    let ghost body = s@.skip(from as int);
    let e = find_exp(s, from);
    if e == n {
        let r = check_mantissa(s, from, n);
        proof {
            assert(body.take((e - from) as int) =~= s@.subrange(from as int, e as int));
            assert(first_exp_idx(body) == body.len());
            assert(s@.subrange(from as int, n as int) =~= body);
            assert(!is_inf_nan(body));
        }
        r
    } else {
        let mant = check_mantissa(s, from, e);
        if !mant {
            proof {
                assert(body.take((e - from) as int) =~= s@.subrange(from as int, e as int));
                assert(!is_inf_nan(body));
            }
            return false;
        }
        let exp_from: usize = if e + 1 < n {
            let c = *vstd::slice::slice_index_get(s, e + 1);
            if c == 43 || c == 45 {
                e + 2
            } else {
                e + 1
            }
        } else {
            e + 1
        };
        let r = check_digits(s, exp_from);
        proof {
            assert(body.take((e - from) as int) =~= s@.subrange(from as int, e as int));
            let exppart = body.skip((e - from + 1) as int);
            assert forall|j: int| 0 <= j < exppart.len() implies exppart[j] == s@[e + 1 + j] by {
                assert(exppart[j] == body[e - from + 1 + j]);
            }
            assert(exppart =~= s@.skip(e + 1 as int));
            assert(sign_body(exppart) =~= s@.skip(exp_from as int));
            assert(!is_inf_nan(body));
        }
        r
    }
}

} // verus!
