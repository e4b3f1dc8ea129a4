//! Predicates over cell values.
//!
//! A filter is a recursive condition evaluated against a cell's bytes:
//! byte comparisons, substring tests, a regular-expression leaf, and the
//! boolean combinators.  A filter set names per-column filters together
//! with a timestamp window and a version cap, and is applied to a row
//! scan's output.

use vstd::prelude::*;

use crate::bytes::{bytes_cmp, bytes_eq, contains_subsequence, ends_with_bytes, lex_lt,
    spec_contains, spec_ends_with, spec_starts_with, starts_with_bytes};

verus! {

/// What `Regex::is_match` answers for a pattern and a value: a function
/// of the two alone.  An invalid pattern or a value that is not UTF-8
/// matches nothing.
pub uninterp spec fn regex_match_of(pattern: Seq<char>, value: Seq<u8>) -> bool;

/// Relies on regex::Regex::new and regex::Regex::is_match: deterministic
/// in the pattern and the value; a pattern that does not compile or a
/// value that is not UTF-8 yields no match.
#[verifier::external_body]
fn regex_match(pattern: &str, value: &[u8]) -> (r: bool)
    ensures
        r == regex_match_of(pattern@, value@),
{
    match core::str::from_utf8(value) {
        Ok(text) => match regex::Regex::new(pattern) {
            Ok(re) => re.is_match(text),
            Err(_) => false,
        },
        Err(_) => false,
    }
}

/// A predicate over a cell's bytes.
#[derive(Debug)]
pub enum Filter {
    /// The value equals the operand.
    Equal(Vec<u8>),
    /// The value differs from the operand.
    NotEqual(Vec<u8>),
    /// The value is lexicographically greater than the operand.
    GreaterThan(Vec<u8>),
    /// The value is greater than or equal to the operand.
    GreaterThanOrEqual(Vec<u8>),
    /// The value is lexicographically less than the operand.
    LessThan(Vec<u8>),
    /// The value is less than or equal to the operand.
    LessThanOrEqual(Vec<u8>),
    /// The operand occurs in the value as a contiguous run of bytes.
    Contains(Vec<u8>),
    /// The value starts with the operand.
    StartsWith(Vec<u8>),
    /// The value ends with the operand.
    EndsWith(Vec<u8>),
    /// The value, read as UTF-8, matches the pattern; not UTF-8 or an
    /// invalid pattern never matches.
    Regex(String),
    /// Every listed filter matches; an empty list always matches.
    And(Vec<Filter>),
    /// Some listed filter matches; an empty list never matches.
    Or(Vec<Filter>),
    /// The inner filter does not match.
    Not(Box<Filter>),
}

/// What a filter says of a value.
pub open spec fn spec_matches(f: Filter, value: Seq<u8>) -> bool
    decreases f,
{
    match f {
        Filter::Equal(t) => value == t@,
        Filter::NotEqual(t) => value != t@,
        Filter::GreaterThan(t) => lex_lt(t@, value),
        Filter::GreaterThanOrEqual(t) => !lex_lt(value, t@),
        Filter::LessThan(t) => lex_lt(value, t@),
        Filter::LessThanOrEqual(t) => !lex_lt(t@, value),
        Filter::Contains(t) => spec_contains(value, t@),
        Filter::StartsWith(t) => spec_starts_with(value, t@),
        Filter::EndsWith(t) => spec_ends_with(value, t@),
        Filter::Regex(p) => regex_match_of(p@, value),
        Filter::And(fs) => forall|i: int|
            0 <= i < fs@.len() ==> spec_matches(#[trigger] fs@[i], value),
        Filter::Or(fs) => exists|i: int|
            0 <= i < fs@.len() && spec_matches(#[trigger] fs@[i], value),
        Filter::Not(inner) => !spec_matches(*inner, value),
    }
}

impl Filter {
    /// Apply the filter to a value.
    pub fn matches(&self, value: &[u8]) -> (r: bool)
        ensures
            r == spec_matches(*self, value@),
        decreases *self,
    {
        match self {
            Filter::Equal(t) => bytes_eq(value, t.as_slice()),
            Filter::NotEqual(t) => !bytes_eq(value, t.as_slice()),
            Filter::GreaterThan(t) => bytes_cmp(value, t.as_slice()) == 1,
            Filter::GreaterThanOrEqual(t) => bytes_cmp(value, t.as_slice()) != -1,
            Filter::LessThan(t) => bytes_cmp(value, t.as_slice()) == -1,
            Filter::LessThanOrEqual(t) => bytes_cmp(value, t.as_slice()) != 1,
            Filter::Contains(t) => contains_subsequence(value, t.as_slice()),
            Filter::StartsWith(t) => starts_with_bytes(value, t.as_slice()),
            Filter::EndsWith(t) => ends_with_bytes(value, t.as_slice()),
            Filter::Regex(p) => regex_match(p.as_str(), value),
            Filter::And(fs) => {
                let n = fs.len();
                let mut i: usize = 0;
                while i < n
                    invariant
                        0 <= i <= n,
                        n == fs@.len(),
                        *self == Filter::And(*fs),
                        forall|j: int| 0 <= j < i ==> spec_matches(#[trigger] fs@[j], value@),
                    decreases n - i,
                {
                    proof {
                        assert((*self)->And_0 == *fs);
                        assert(decreases_to!(*self => (*self)->And_0@[i as int]));
                    }
                    if !fs[i].matches(value) {
                        return false;
                    }
                    i = i + 1;
                }
                true
            },
            Filter::Or(fs) => {
                let n = fs.len();
                let mut i: usize = 0;
                while i < n
                    invariant
                        0 <= i <= n,
                        n == fs@.len(),
                        *self == Filter::Or(*fs),
                        forall|j: int| 0 <= j < i ==> !spec_matches(#[trigger] fs@[j], value@),
                    decreases n - i,
                {
                    proof {
                        assert((*self)->Or_0 == *fs);
                        assert(decreases_to!(*self => (*self)->Or_0@[i as int]));
                    }
                    if fs[i].matches(value) {
                        return true;
                    }
                    i = i + 1;
                }
                false
            },
            Filter::Not(inner) => !inner.matches(value),
        }
    }
}

/// Negating twice gives the original filter's answer, on every value.
pub proof fn lemma_not_not(h: Filter, value: Seq<u8>)
    ensures
        h matches Filter::Not(g) ==> ((*g) matches Filter::Not(f) ==> spec_matches(h, value)
            == spec_matches(*f, value)),
{
    match h {
        Filter::Not(g) => {
            assert(spec_matches(h, value) == !spec_matches(*g, value));
            match *g {
                Filter::Not(f) => {
                    assert(spec_matches(*g, value) == !spec_matches(*f, value));
                },
                _ => {},
            }
        },
        _ => {},
    }
}

/// A conjunction of nothing matches every value; a disjunction of
/// nothing matches none.
pub proof fn lemma_empty_combinators(f: Filter, value: Seq<u8>)
    ensures
        f matches Filter::And(fs) && fs@.len() == 0 ==> spec_matches(f, value),
        f matches Filter::Or(fs) && fs@.len() == 0 ==> !spec_matches(f, value),
{
}

/// One column's filter within a filter set.
#[derive(Debug)]
pub struct ColumnFilter {
    pub column: Vec<u8>,
    pub filter: Filter,
}

/// Per-column filters with a timestamp window and a version cap, applied
/// to a row scan.
#[derive(Debug)]
pub struct FilterSet {
    pub column_filters: Vec<ColumnFilter>,
    pub timestamp_range: Option<(Option<u64>, Option<u64>)>,
    pub max_versions: Option<usize>,
}

/// What the set's timestamp window says of a timestamp.
pub open spec fn spec_ts_matches(fs: FilterSet, ts: u64) -> bool {
    match fs.timestamp_range {
        None => true,
        Some((mn, mx)) => (match mn {
            Some(lo) => ts >= lo,
            None => true,
        }) && (match mx {
            Some(hi) => ts <= hi,
            None => true,
        }),
    }
}

impl FilterSet {
    /// A set with no column filters, no timestamp window and no cap.
    pub fn new() -> (r: FilterSet)
        ensures
            r.column_filters@.len() == 0,
            r.timestamp_range is None,
            r.max_versions is None,
    {
        FilterSet { column_filters: Vec::new(), timestamp_range: None, max_versions: None }
    }

    /// Add one column's filter.
    pub fn add_column_filter(&mut self, column: Vec<u8>, filter: Filter)
        ensures
            final(self).column_filters@ == old(self).column_filters@.push(
                ColumnFilter { column, filter },
            ),
            final(self).timestamp_range == old(self).timestamp_range,
            final(self).max_versions == old(self).max_versions,
    {
        self.column_filters.push(ColumnFilter { column, filter });
    }

    /// Restrict versions to the inclusive timestamp window.
    pub fn with_timestamp_range(&mut self, min: Option<u64>, max: Option<u64>)
        ensures
            final(self).timestamp_range == Some((min, max)),
            final(self).column_filters == old(self).column_filters,
            final(self).max_versions == old(self).max_versions,
    {
        self.timestamp_range = Some((min, max));
    }

    /// Cap the number of versions a scan returns per column.
    pub fn with_max_versions(&mut self, max_versions: usize)
        ensures
            final(self).max_versions == Some(max_versions),
            final(self).column_filters == old(self).column_filters,
            final(self).timestamp_range == old(self).timestamp_range,
    {
        self.max_versions = Some(max_versions);
    }

    /// Whether the timestamp lies in the set's window.
    pub fn timestamp_matches(&self, timestamp: u64) -> (r: bool)
        ensures
            r == spec_ts_matches(*self, timestamp),
    {
        match self.timestamp_range {
            None => true,
            Some((mn, mx)) => {
                let lo_ok = match mn {
                    Some(lo) => timestamp >= lo,
                    None => true,
                };
                let hi_ok = match mx {
                    Some(hi) => timestamp <= hi,
                    None => true,
                };
                lo_ok && hi_ok
            },
        }
    }
}

impl Default for FilterSet {
    /// The empty set: no column filters, no window, no cap.
    fn default() -> (r: FilterSet)
        ensures
            r.column_filters@.len() == 0,
            r.timestamp_range is None,
            r.max_versions is None,
    {
        FilterSet::new()
    }
}

} // verus!
