//! Per-column aggregations over scan output.
//!
//! An aggregation names a column and one of count, sum, average, minimum
//! or maximum.  Sums read the values as decimal integers; when a value
//! only parses as a floating-point literal the integer sum gives way to a
//! floating-point sum, which — like averages — is handed back as the raw
//! values for the caller to finish, since this crate holds no
//! floating-point arithmetic.  A value that is not numeric at all, or not
//! UTF-8, turns the whole application into a single in-band error entry,
//! as does a sum or average over such a value.

use vstd::prelude::*;
use vstd::utf8::valid_utf8;

use crate::bytes::{bytes_cmp, bytes_eq, lex_le};
use crate::numeric::{int_value, is_float_literal, parses_as_i64};
use crate::types::clone_bytes;

verus! {

/// Relies on str::from_utf8: it succeeds exactly on valid UTF-8.
#[verifier::external_body]
fn utf8_ok(b: &[u8]) -> (r: bool)
    ensures
        r == valid_utf8(b@),
{
    core::str::from_utf8(b).is_ok()
}

/// The kind of aggregation to perform on a column.
#[derive(Debug, Clone, Copy, PartialEq, Eq, Structural)]
pub enum AggregationType {
    /// The number of versions.
    Count,
    /// The sum of the values read as numbers.
    Sum,
    /// The mean of the values read as numbers.
    Average,
    /// The lexicographically smallest value.
    Min,
    /// The lexicographically largest value.
    Max,
}

/// One aggregation: a column and what to compute over it.
#[derive(Debug, Clone)]
pub struct Aggregation {
    pub column: Vec<u8>,
    pub aggregation_type: AggregationType,
}

/// Model of one aggregation.
pub struct AggModel {
    pub column: Seq<u8>,
    pub typ: AggregationType,
}

impl View for Aggregation {
    type V = AggModel;

    open spec fn view(&self) -> AggModel {
        AggModel { column: self.column@, typ: self.aggregation_type }
    }
}

/// The outcome of one aggregation.  Floating-point outcomes carry the raw
/// values; the caller computes the float sum or mean from them.
#[derive(Debug, Clone, PartialEq, Eq)]
pub enum AggregationResult {
    /// Number of versions.
    Count(u64),
    /// Integer sum, saturated at the `i64` bounds.
    Sum(i64),
    /// The values summed only parse as floating point; here they are,
    /// for the caller's floating-point sum.
    SumFloat(Vec<Vec<u8>>),
    /// The values to average, all numeric, for the caller's
    /// floating-point mean.
    Average(Vec<Vec<u8>>),
    /// Lexicographically smallest value.
    Min(Vec<u8>),
    /// Lexicographically largest value.
    Max(Vec<u8>),
    /// What went wrong, reported in band.
    Error(String),
}

/// Model of an aggregation outcome.
pub enum AggResultModel {
    Count(u64),
    Sum(i64),
    SumFloat(Seq<Seq<u8>>),
    Average(Seq<Seq<u8>>),
    Min(Seq<u8>),
    Max(Seq<u8>),
    Error(Seq<char>),
}

impl View for AggregationResult {
    type V = AggResultModel;

    open spec fn view(&self) -> AggResultModel {
        match self {
            AggregationResult::Count(n) => AggResultModel::Count(*n),
            AggregationResult::Sum(n) => AggResultModel::Sum(*n),
            AggregationResult::SumFloat(vs) => AggResultModel::SumFloat(raws_model(vs@)),
            AggregationResult::Average(vs) => AggResultModel::Average(raws_model(vs@)),
            AggregationResult::Min(v) => AggResultModel::Min(v@),
            AggregationResult::Max(v) => AggResultModel::Max(v@),
            AggregationResult::Error(m) => AggResultModel::Error(m@),
        }
    }
}

/// Model of a version list: the timestamps and value bytes.
pub open spec fn vals_model(v: Seq<(u64, Vec<u8>)>) -> Seq<(u64, Seq<u8>)> {
    v.map_values(|q: (u64, Vec<u8>)| (q.0, q.1@))
}

/// Model of a column-to-versions association list.
pub open spec fn columns_model(v: Seq<(Vec<u8>, Vec<(u64, Vec<u8>)>)>) -> Seq<
    (Seq<u8>, Seq<(u64, Seq<u8>)>),
> {
    v.map_values(|p: (Vec<u8>, Vec<(u64, Vec<u8>)>)| (p.0@, vals_model(p.1@)))
}

/// The version list of the first entry for `col`, if any.
pub open spec fn assoc_find(
    cols: Seq<(Seq<u8>, Seq<(u64, Seq<u8>)>)>,
    col: Seq<u8>,
) -> Option<Seq<(u64, Seq<u8>)>>
    decreases cols.len(),
{
    if cols.len() == 0 {
        None
    } else if cols[0].0 == col {
        Some(cols[0].1)
    } else {
        assoc_find(cols.drop_first(), col)
    }
}

/// The value bytes of a version list, in order.
pub open spec fn bytes_of(vs: Seq<(u64, Seq<u8>)>) -> Seq<Seq<u8>> {
    vs.map_values(|q: (u64, Seq<u8>)| q.1)
}

/// Model of a list of byte strings.
pub open spec fn raws_model(v: Seq<Vec<u8>>) -> Seq<Seq<u8>> {
    v.map_values(|b: Vec<u8>| b@)
}

/// How a left-to-right scan of values to sum ends.
pub enum SumScan {
    /// All values so far parse as integers; their exact sum.
    Int(int),
    /// Some value only parses as floating point.
    Fl,
    /// A value is not UTF-8.
    BadUtf8,
    /// A value is UTF-8 but not numeric.
    NonNumeric,
}

/// Combine what a prefix contributed with how the rest scans: errors from
/// the rest pass through, a float anywhere forces a float outcome.
pub open spec fn sum_combine(pre: int, fl: bool, rest: SumScan) -> SumScan {
    match rest {
        SumScan::Int(n) => if fl {
            SumScan::Fl
        } else {
            SumScan::Int(pre + n)
        },
        SumScan::Fl => SumScan::Fl,
        SumScan::BadUtf8 => SumScan::BadUtf8,
        SumScan::NonNumeric => SumScan::NonNumeric,
    }
}

/// Scan values to sum, left to right: the first bad value decides the
/// error, a float-only value forces a float outcome, otherwise the exact
/// integer sum results.
pub open spec fn sum_scan(bs: Seq<Seq<u8>>) -> SumScan
    decreases bs.len(),
{
    if bs.len() == 0 {
        SumScan::Int(0)
    } else if !valid_utf8(bs[0]) {
        SumScan::BadUtf8
    } else if parses_as_i64(bs[0]) {
        sum_combine(int_value(bs[0]), false, sum_scan(bs.drop_first()))
    } else if is_float_literal(bs[0]) {
        sum_combine(0, true, sum_scan(bs.drop_first()))
    } else {
        SumScan::NonNumeric
    }
}

/// How a left-to-right scan of values to average ends.
pub enum AvgScan {
    /// Every value is numeric.
    Numeric,
    /// A value is not UTF-8.
    BadUtf8,
    /// A value is UTF-8 but not numeric.
    NonNumeric,
}

/// Scan values to average, left to right; the first bad value decides.
pub open spec fn avg_scan(bs: Seq<Seq<u8>>) -> AvgScan
    decreases bs.len(),
{
    if bs.len() == 0 {
        AvgScan::Numeric
    } else if !valid_utf8(bs[0]) {
        AvgScan::BadUtf8
    } else if !is_float_literal(bs[0]) {
        AvgScan::NonNumeric
    } else {
        avg_scan(bs.drop_first())
    }
}

/// Clamp an exact sum to the `i64` range.
pub open spec fn sat64(n: int) -> i64 {
    if n > i64::MAX {
        i64::MAX
    } else if n < i64::MIN {
        i64::MIN
    } else {
        n as i64
    }
}

/// The smallest value, scanning left to right.
pub open spec fn lex_min(bs: Seq<Seq<u8>>) -> Seq<u8>
    recommends
        bs.len() > 0,
    decreases bs.len(),
{
    if bs.len() <= 1 {
        bs[0]
    } else {
        let prior = lex_min(bs.drop_last());
        if lex_le(prior, bs.last()) {
            prior
        } else {
            bs.last()
        }
    }
}

/// The largest value, scanning left to right.
pub open spec fn lex_max(bs: Seq<Seq<u8>>) -> Seq<u8>
    recommends
        bs.len() > 0,
    decreases bs.len(),
{
    if bs.len() <= 1 {
        bs[0]
    } else {
        let prior = lex_max(bs.drop_last());
        if lex_le(prior, bs.last()) {
            bs.last()
        } else {
            prior
        }
    }
}

/// What one aggregation yields on a version list.
pub open spec fn agg_values(typ: AggregationType, vs: Seq<(u64, Seq<u8>)>) -> AggResultModel {
    match typ {
        AggregationType::Count => AggResultModel::Count(vs.len() as u64),
        AggregationType::Sum => match sum_scan(bytes_of(vs)) {
            SumScan::Int(n) => AggResultModel::Sum(sat64(n)),
            SumScan::Fl => AggResultModel::SumFloat(bytes_of(vs)),
            SumScan::BadUtf8 => AggResultModel::Error("Invalid UTF-8 in value"@),
            SumScan::NonNumeric => AggResultModel::Error("Non-numeric value found"@),
        },
        AggregationType::Average => if vs.len() == 0 {
            AggResultModel::Error("No values to average"@)
        } else {
            match avg_scan(bytes_of(vs)) {
                AvgScan::Numeric => AggResultModel::Average(bytes_of(vs)),
                AvgScan::BadUtf8 => AggResultModel::Error("Invalid UTF-8 in value"@),
                AvgScan::NonNumeric => AggResultModel::Error("Non-numeric value found"@),
            }
        },
        AggregationType::Min => if vs.len() == 0 {
            AggResultModel::Error("No values to find minimum"@)
        } else {
            AggResultModel::Min(lex_min(bytes_of(vs)))
        },
        AggregationType::Max => if vs.len() == 0 {
            AggResultModel::Error("No values to find maximum"@)
        } else {
            AggResultModel::Max(lex_max(bytes_of(vs)))
        },
    }
}

/// What one aggregation yields against the scanned columns.
pub open spec fn agg_cell(
    a: AggModel,
    cols: Seq<(Seq<u8>, Seq<(u64, Seq<u8>)>)>,
) -> AggResultModel {
    match assoc_find(cols, a.column) {
        None => AggResultModel::Error("Column not found"@),
        Some(vs) => agg_values(a.typ, vs),
    }
}

/// A sum or average hit a value that is not numeric or not UTF-8; such a
/// failure ends the whole application with a single error entry.
pub open spec fn agg_fatal(a: AggModel, cols: Seq<(Seq<u8>, Seq<(u64, Seq<u8>)>)>) -> bool {
    match assoc_find(cols, a.column) {
        None => false,
        Some(vs) => match a.typ {
            AggregationType::Sum => sum_scan(bytes_of(vs)) matches SumScan::BadUtf8 || sum_scan(
                bytes_of(vs),
            ) matches SumScan::NonNumeric,
            AggregationType::Average => vs.len() > 0 && !(avg_scan(bytes_of(vs))
                matches AvgScan::Numeric),
            _ => false,
        },
    }
}

/// The first aggregation whose scan fails fatally, or the count of
/// aggregations when none does.
pub open spec fn first_fatal(
    aggs: Seq<AggModel>,
    cols: Seq<(Seq<u8>, Seq<(u64, Seq<u8>)>)>,
) -> int
    decreases aggs.len(),
{
    if aggs.len() == 0 {
        0
    } else if agg_fatal(aggs[0], cols) {
        0
    } else {
        1 + first_fatal(aggs.drop_first(), cols)
    }
}

/// What applying a list of aggregations yields: one entry per
/// aggregation in order, unless a fatal scan cuts the application down to
/// that single error entry.
pub open spec fn apply_all(
    aggs: Seq<AggModel>,
    cols: Seq<(Seq<u8>, Seq<(u64, Seq<u8>)>)>,
) -> Seq<(Seq<u8>, AggResultModel)> {
    Seq::new(aggs.len(), |i: int| (aggs[i].column, agg_cell(aggs[i], cols)))
}

pub open spec fn apply_spec(
    aggs: Seq<AggModel>,
    cols: Seq<(Seq<u8>, Seq<(u64, Seq<u8>)>)>,
) -> Seq<(Seq<u8>, AggResultModel)> {
    let ff = first_fatal(aggs, cols);
    if ff < aggs.len() {
        seq![(aggs[ff].column, agg_cell(aggs[ff], cols))]
    } else {
        apply_all(aggs, cols)
    }
}

/// The first fatal index never passes the end of the list.
pub proof fn lemma_first_fatal_bounds(
    aggs: Seq<AggModel>,
    cols: Seq<(Seq<u8>, Seq<(u64, Seq<u8>)>)>,
)
    ensures
        0 <= first_fatal(aggs, cols) <= aggs.len(),
    decreases aggs.len(),
{
    if aggs.len() > 0 && !agg_fatal(aggs[0], cols) {
        lemma_first_fatal_bounds(aggs.drop_first(), cols);
    }
}

/// Applying aggregations yields an entry per aggregation, or the single
/// error entry: something whenever anything was asked, nothing when
/// nothing was.
pub proof fn lemma_apply_spec_len(
    aggs: Seq<AggModel>,
    cols: Seq<(Seq<u8>, Seq<(u64, Seq<u8>)>)>,
)
    ensures
        aggs.len() == 0 ==> apply_spec(aggs, cols).len() == 0,
        aggs.len() > 0 ==> apply_spec(aggs, cols).len() > 0,
{
    lemma_first_fatal_bounds(aggs, cols);
}

/// Model of the result list.
pub open spec fn results_model(v: Seq<(Vec<u8>, AggregationResult)>) -> Seq<
    (Seq<u8>, AggResultModel),
> {
    v.map_values(|p: (Vec<u8>, AggregationResult)| (p.0@, p.1@))
}

/// A named list of aggregations to run together.
#[derive(Debug, Clone)]
pub struct AggregationSet {
    pub aggregations: Vec<Aggregation>,
}

/// Model of an aggregation list.
pub open spec fn aggs_model(v: Seq<Aggregation>) -> Seq<AggModel> {
    v.map_values(|a: Aggregation| a@)
}

impl AggregationSet {
    /// An empty set.
    pub fn new() -> (r: AggregationSet)
        ensures
            r.aggregations@.len() == 0,
    {
        AggregationSet { aggregations: Vec::new() }
    }

    /// Add one aggregation.
    pub fn add_aggregation(&mut self, column: Vec<u8>, aggregation_type: AggregationType)
        ensures
            final(self).aggregations@ == old(self).aggregations@.push(
                Aggregation { column, aggregation_type },
            ),
    {
        self.aggregations.push(Aggregation { column, aggregation_type });
    }

    /// Run every aggregation against the scanned columns.  Results come
    /// back per column in aggregation order; a fatal scan cuts the whole
    /// application down to its single error entry.
    pub fn apply(&self, values: &Vec<(Vec<u8>, Vec<(u64, Vec<u8>)>)>) -> (r: Vec<
        (Vec<u8>, AggregationResult),
    >)
        ensures
            results_model(r@) == apply_spec(aggs_model(self.aggregations@), columns_model(values@)),
    {
        let ghost aggs = aggs_model(self.aggregations@);
        let ghost cols = columns_model(values@);
        let n = self.aggregations.len();
        let mut out: Vec<(Vec<u8>, AggregationResult)> = Vec::new();
        let mut i: usize = 0;
        proof {
            assert(results_model(out@) =~= Seq::<(Seq<u8>, AggResultModel)>::empty());
        }
        while i < n
            invariant
                0 <= i <= n,
                n == self.aggregations@.len(),
                aggs == aggs_model(self.aggregations@),
                cols == columns_model(values@),
                forall|j: int| 0 <= j < i ==> !agg_fatal(#[trigger] aggs[j], cols),
                out@.len() == i,
                results_model(out@) == apply_all(aggs.take(i as int), cols),
            decreases n - i,
        {
            let ghost out0 = out@;
            let agg = &self.aggregations[i];
            let (res, fatal) = eval_agg(agg, values, Ghost(cols));
            if fatal {
                let mut only: Vec<(Vec<u8>, AggregationResult)> = Vec::new();
                only.push((clone_bytes(&agg.column), res));
                proof {
                    lemma_first_fatal_at(aggs, cols, i as int);
                    assert(results_model(only@) =~= seq![
                        (aggs[i as int].column, agg_cell(aggs[i as int], cols)),
                    ]);
                }
                return only;
            }
            let ghost resv = res@;
            let cb = clone_bytes(&agg.column);
            out.push((cb, res));
            proof {
                assert forall|k: int| 0 <= k < i + 1 implies #[trigger] results_model(out@)[k]
                    == apply_all(aggs.take(i + 1), cols)[k] by {
                    assert(aggs.take(i + 1)[k] == aggs[k]);
                    if k < i {
                        assert(out@[k] == out0[k]);
                        assert(results_model(out0)[k] == apply_all(aggs.take(i as int), cols)[k]);
                        assert(aggs.take(i as int)[k] == aggs[k]);
                    } else {
                        assert(out@[k].0@ == aggs[i as int].column);
                        assert(out@[k].1@ == resv);
                    }
                }
                assert(results_model(out@) =~= apply_all(aggs.take(i + 1), cols));
            }
            i = i + 1;
        }
        proof {
            lemma_first_fatal_none(aggs, cols);
            assert(aggs.take(n as int) =~= aggs);
            assert(results_model(out@) =~= apply_spec(aggs, cols));
        }
        out
    }
}

/// Where nothing before `i` is fatal and `i` is, `i` is the first fatal
/// index.
proof fn lemma_first_fatal_at(
    aggs: Seq<AggModel>,
    cols: Seq<(Seq<u8>, Seq<(u64, Seq<u8>)>)>,
    i: int,
)
    requires
        0 <= i < aggs.len(),
        forall|j: int| 0 <= j < i ==> !agg_fatal(#[trigger] aggs[j], cols),
        agg_fatal(aggs[i], cols),
    ensures
        first_fatal(aggs, cols) == i,
    decreases i,
{
    if i > 0 {
        assert forall|j: int| 0 <= j < i - 1 implies !agg_fatal(
            #[trigger] aggs.drop_first()[j],
            cols,
        ) by {
            assert(aggs.drop_first()[j] == aggs[j + 1]);
        }
        assert(aggs.drop_first()[i - 1] == aggs[i]);
        lemma_first_fatal_at(aggs.drop_first(), cols, i - 1);
    }
}

/// Where nothing is fatal, the first fatal index is the length.
proof fn lemma_first_fatal_none(aggs: Seq<AggModel>, cols: Seq<(Seq<u8>, Seq<(u64, Seq<u8>)>)>)
    requires
        forall|j: int| 0 <= j < aggs.len() ==> !agg_fatal(#[trigger] aggs[j], cols),
    ensures
        first_fatal(aggs, cols) == aggs.len(),
    decreases aggs.len(),
{
    if aggs.len() > 0 {
        assert forall|j: int| 0 <= j < aggs.drop_first().len() implies !agg_fatal(
            #[trigger] aggs.drop_first()[j],
            cols,
        ) by {
            assert(aggs.drop_first()[j] == aggs[j + 1]);
        }
        lemma_first_fatal_none(aggs.drop_first(), cols);
    }
}

/// Find the version list of the first entry for `column`.
fn assoc_lookup<'a>(
    values: &'a Vec<(Vec<u8>, Vec<(u64, Vec<u8>)>)>,
    column: &[u8],
    cols: Ghost<Seq<(Seq<u8>, Seq<(u64, Seq<u8>)>)>>,
) -> (r: Option<&'a Vec<(u64, Vec<u8>)>>)
    requires
        cols@ == columns_model(values@),
    ensures
        match r {
            Some(vs) => assoc_find(cols@, column@) == Some(vals_model(vs@)),
            None => assoc_find(cols@, column@) is None,
        },
{
    let n = values.len();
    let mut i: usize = 0;
    proof {
        assert(cols@.skip(0) =~= cols@);
    }
    while i < n
        invariant
            0 <= i <= n,
            n == values@.len(),
            cols@ == columns_model(values@),
            assoc_find(cols@, column@) == assoc_find(cols@.skip(i as int), column@),
        decreases n - i,
    {
        proof {
            assert(cols@.skip(i as int)[0] == cols@[i as int]);
            assert(cols@.skip(i as int).drop_first() =~= cols@.skip(i + 1));
        }
        if bytes_eq(values[i].0.as_slice(), column) {
            return Some(&values[i].1);
        }
        i = i + 1;
    }
    proof {
        assert(cols@.skip(n as int) =~= Seq::<(Seq<u8>, Seq<(u64, Seq<u8>)>)>::empty());
    }
    None
}

/// Evaluate one aggregation; the flag says the scan failed fatally.
fn eval_agg(
    agg: &Aggregation,
    values: &Vec<(Vec<u8>, Vec<(u64, Vec<u8>)>)>,
    cols: Ghost<Seq<(Seq<u8>, Seq<(u64, Seq<u8>)>)>>,
) -> (r: (AggregationResult, bool))
    requires
        cols@ == columns_model(values@),
    ensures
        r.0@ == agg_cell(agg@, cols@),
        r.1 == agg_fatal(agg@, cols@),
{
    let found = assoc_lookup(values, agg.column.as_slice(), cols);
    match found {
        None => (AggregationResult::Error("Column not found".to_owned()), false),
        Some(vs) => {
            let ghost vsm = vals_model(vs@);
            match agg.aggregation_type {
                AggregationType::Count => (AggregationResult::Count(vs.len() as u64), false),
                AggregationType::Sum => eval_sum(vs, Ghost(vsm)),
                AggregationType::Average => eval_average(vs, Ghost(vsm)),
                AggregationType::Min => (eval_min(vs, Ghost(vsm)), false),
                AggregationType::Max => (eval_max(vs, Ghost(vsm)), false),
            }
        },
    }
}

/// The scanned prefix facts a sum loop carries.
proof fn lemma_sum_scan_step(bs: Seq<Seq<u8>>, i: int)
    requires
        0 <= i < bs.len(),
    ensures
        bs.skip(i)[0] == bs[i],
        bs.skip(i).drop_first() =~= bs.skip(i + 1),
{
    assert(bs.skip(i).drop_first() =~= bs.skip(i + 1));
}

/// Sum the values of a version list.
fn eval_sum(vs: &Vec<(u64, Vec<u8>)>, vsm: Ghost<Seq<(u64, Seq<u8>)>>) -> (r: (
    AggregationResult,
    bool,
))
    requires
        vsm@ == vals_model(vs@),
    ensures
        r.0@ == agg_values(AggregationType::Sum, vsm@),
        r.1 == (sum_scan(bytes_of(vsm@)) matches SumScan::BadUtf8 || sum_scan(bytes_of(vsm@))
            matches SumScan::NonNumeric),
{
    let ghost bs = bytes_of(vsm@);
    let n = vs.len();
    let mut acc: i128 = 0;
    let mut fl: bool = false;
    let mut i: usize = 0;
    proof {
        assert(bs.skip(0) =~= bs);
        assert(bs.len() == n);
    }
    while i < n
        invariant
            0 <= i <= n,
            n == vs@.len(),
            vsm@ == vals_model(vs@),
            bs == bytes_of(vsm@),
            bs.len() == n,
            -0x8000_0000_0000_0000i128 * (i as i128) <= acc <= 0x7FFF_FFFF_FFFF_FFFFi128 * (
            i as i128),
            sum_scan(bs) == sum_combine(acc as int, fl, sum_scan(bs.skip(i as int))),
        decreases n - i,
    {
        let v = &vs[i].1;
        proof {
            lemma_sum_scan_step(bs, i as int);
            assert(bs[i as int] == v@);
        }
        if !utf8_ok(v.as_slice()) {
            return (AggregationResult::Error("Invalid UTF-8 in value".to_owned()), true);
        }
        let parsed = crate::numeric::parse_i64(v.as_slice());
        match parsed {
            Some(x) => {
                proof {
                    assert((i + 1) as i128 * 0x7FFF_FFFF_FFFF_FFFFi128 == i as i128
                        * 0x7FFF_FFFF_FFFF_FFFFi128 + 0x7FFF_FFFF_FFFF_FFFFi128)
                        by (nonlinear_arith);
                    assert((i + 1) as i128 * -0x8000_0000_0000_0000i128 == i as i128
                        * -0x8000_0000_0000_0000i128 + -0x8000_0000_0000_0000i128)
                        by (nonlinear_arith);
                }
                acc = acc + (x as i128);
            },
            None => {
                if crate::numeric::is_float(v.as_slice()) {
                    fl = true;
                } else {
                    return (
                        AggregationResult::Error("Non-numeric value found".to_owned()),
                        true,
                    );
                }
            },
        }
        i = i + 1;
    }
    proof {
        assert(bs.skip(n as int) =~= Seq::<Seq<u8>>::empty());
    }
    if fl {
        let mut raw: Vec<Vec<u8>> = Vec::new();
        let mut j: usize = 0;
        proof {
            assert(raws_model(raw@) =~= bs.take(0));
        }
        while j < n
            invariant
                0 <= j <= n,
                n == vs@.len(),
                vsm@ == vals_model(vs@),
                bs == bytes_of(vsm@),
                bs.len() == n,
                raw@.len() == j,
                raws_model(raw@) == bs.take(j as int),
            decreases n - j,
        {
            let ghost raw0 = raw@;
            let cl = clone_bytes(&vs[j].1);
            raw.push(cl);
            proof {
                assert(bs[j as int] == vs@[j as int].1@);
                assert forall|k: int| 0 <= k < j + 1 implies #[trigger] raws_model(raw@)[k]
                    == bs.take(j + 1)[k] by {
                    if k < j {
                        assert(raw@[k] == raw0[k]);
                        assert(raws_model(raw0)[k] == bs.take(j as int)[k]);
                    } else {
                        assert(raw@[k]@ == vs@[j as int].1@);
                    }
                }
                assert(raws_model(raw@) =~= bs.take(j + 1));
            }
            j = j + 1;
        }
        proof {
            assert(bs.take(n as int) =~= bs);
        }
        (AggregationResult::SumFloat(raw), false)
    } else {
        let clamped: i64 = if acc > 0x7FFF_FFFF_FFFF_FFFFi128 {
            i64::MAX
        } else if acc < -0x8000_0000_0000_0000i128 {
            i64::MIN
        } else {
            acc as i64
        };
        (AggregationResult::Sum(clamped), false)
    }
}

/// Check the values of a version list are all numeric and hand them back
/// for the caller's mean.
fn eval_average(vs: &Vec<(u64, Vec<u8>)>, vsm: Ghost<Seq<(u64, Seq<u8>)>>) -> (r: (
    AggregationResult,
    bool,
))
    requires
        vsm@ == vals_model(vs@),
    ensures
        r.0@ == agg_values(AggregationType::Average, vsm@),
        r.1 == (vsm@.len() > 0 && !(avg_scan(bytes_of(vsm@)) matches AvgScan::Numeric)),
{
    let ghost bs = bytes_of(vsm@);
    let n = vs.len();
    if n == 0 {
        return (AggregationResult::Error("No values to average".to_owned()), false);
    }
    let mut i: usize = 0;
    proof {
        assert(bs.skip(0) =~= bs);
        assert(bs.len() == n);
    }
    while i < n
        invariant
            0 <= i <= n,
            n == vs@.len(),
            vsm@ == vals_model(vs@),
            bs == bytes_of(vsm@),
            bs.len() == n,
            avg_scan(bs) == avg_scan(bs.skip(i as int)),
        decreases n - i,
    {
        let v = &vs[i].1;
        proof {
            lemma_sum_scan_step(bs, i as int);
            assert(bs[i as int] == v@);
        }
        if !utf8_ok(v.as_slice()) {
            return (AggregationResult::Error("Invalid UTF-8 in value".to_owned()), true);
        }
        if !crate::numeric::is_float(v.as_slice()) {
            return (AggregationResult::Error("Non-numeric value found".to_owned()), true);
        }
        i = i + 1;
    }
    proof {
        assert(bs.skip(n as int) =~= Seq::<Seq<u8>>::empty());
    }
    let mut raw: Vec<Vec<u8>> = Vec::new();
    let mut j: usize = 0;
    proof {
        assert(raws_model(raw@) =~= bs.take(0));
    }
    while j < n
        invariant
            0 <= j <= n,
            n == vs@.len(),
            vsm@ == vals_model(vs@),
            bs == bytes_of(vsm@),
            bs.len() == n,
            raw@.len() == j,
            raws_model(raw@) == bs.take(j as int),
        decreases n - j,
    {
        let ghost raw0 = raw@;
        let cl = clone_bytes(&vs[j].1);
        raw.push(cl);
        proof {
            assert(bs[j as int] == vs@[j as int].1@);
            assert forall|k: int| 0 <= k < j + 1 implies #[trigger] raws_model(raw@)[k]
                == bs.take(j + 1)[k] by {
                if k < j {
                    assert(raw@[k] == raw0[k]);
                    assert(raws_model(raw0)[k] == bs.take(j as int)[k]);
                } else {
                    assert(raw@[k]@ == vs@[j as int].1@);
                }
            }
            assert(raws_model(raw@) =~= bs.take(j + 1));
        }
        j = j + 1;
    }
    proof {
        assert(bs.take(n as int) =~= bs);
    }
    (AggregationResult::Average(raw), false)
}

/// The lexicographically smallest value of a non-empty version list.
fn eval_min(vs: &Vec<(u64, Vec<u8>)>, vsm: Ghost<Seq<(u64, Seq<u8>)>>) -> (r: AggregationResult)
    requires
        vsm@ == vals_model(vs@),
    ensures
        r@ == agg_values(AggregationType::Min, vsm@),
{
    let ghost bs = bytes_of(vsm@);
    let n = vs.len();
    if n == 0 {
        return AggregationResult::Error("No values to find minimum".to_owned());
    }
    let mut best = clone_bytes(&vs[0].1);
    let mut i: usize = 1;
    proof {
        assert(bs.len() == n);
        assert(bs.take(1).len() == 1);
        assert(bs.take(1)[0] == bs[0]);
        assert(bs[0] == vs@[0].1@);
    }
    while i < n
        invariant
            1 <= i <= n,
            n == vs@.len(),
            vsm@ == vals_model(vs@),
            bs == bytes_of(vsm@),
            bs.len() == n,
            best@ == lex_min(bs.take(i as int)),
        decreases n - i,
    {
        proof {
            assert(bs.take(i + 1).drop_last() =~= bs.take(i as int));
            assert(bs.take(i + 1).last() == bs[i as int]);
            assert(bs[i as int] == vs@[i as int].1@);
            crate::bytes::lemma_lex_trichotomy(best@, vs@[i as int].1@);
        }
        if bytes_cmp(vs[i].1.as_slice(), best.as_slice()) == -1 {
            best = clone_bytes(&vs[i].1);
        }
        i = i + 1;
    }
    proof {
        assert(bs.take(n as int) =~= bs);
    }
    AggregationResult::Min(best)
}

/// The lexicographically largest value of a non-empty version list.
fn eval_max(vs: &Vec<(u64, Vec<u8>)>, vsm: Ghost<Seq<(u64, Seq<u8>)>>) -> (r: AggregationResult)
    requires
        vsm@ == vals_model(vs@),
    ensures
        r@ == agg_values(AggregationType::Max, vsm@),
{
    let ghost bs = bytes_of(vsm@);
    let n = vs.len();
    if n == 0 {
        return AggregationResult::Error("No values to find maximum".to_owned());
    }
    let mut best = clone_bytes(&vs[0].1);
    let mut i: usize = 1;
    proof {
        assert(bs.len() == n);
        assert(bs.take(1).len() == 1);
        assert(bs.take(1)[0] == bs[0]);
        assert(bs[0] == vs@[0].1@);
    }
    while i < n
        invariant
            1 <= i <= n,
            n == vs@.len(),
            vsm@ == vals_model(vs@),
            bs == bytes_of(vsm@),
            bs.len() == n,
            best@ == lex_max(bs.take(i as int)),
        decreases n - i,
    {
        proof {
            assert(bs.take(i + 1).drop_last() =~= bs.take(i as int));
            assert(bs.take(i + 1).last() == bs[i as int]);
            assert(bs[i as int] == vs@[i as int].1@);
            crate::bytes::lemma_lex_trichotomy(best@, vs@[i as int].1@);
        }
        if bytes_cmp(vs[i].1.as_slice(), best.as_slice()) == 1 {
            best = clone_bytes(&vs[i].1);
        }
        i = i + 1;
    }
    proof {
        assert(bs.take(n as int) =~= bs);
    }
    AggregationResult::Max(best)
}

impl Default for AggregationSet {
    /// The empty set.
    fn default() -> (r: AggregationSet)
        ensures
            r.aggregations@.len() == 0,
    {
        AggregationSet::new()
    }
}

} // verus!
