//! Parsing of requested column names: the bare single-column form, and the
//! quantile form `base[q1,q2,...]` with integer quantile points, validated
//! once per export request.

use vstd::prelude::*;
use crate::columns::{ColumnSpec, MultiMetric, SingleMetric};

verus! {

/// Why a requested column could not be parsed or accepted.
#[derive(Clone, Copy, PartialEq, Eq, Debug, Structural)]
pub enum ConfigError {
    /// A quantile request opened a bracket it never closed.
    UnterminatedQuantiles,
    /// A quantile point was not an integer.
    InvalidQuantile,
    /// A quantile point fell outside `0 ..= 100`.
    QuantileOutOfRange,
    /// No single-valued metric carries the requested name.
    UnknownColumn,
    /// No multi-valued metric carries the requested base name.
    UnknownMultiColumn,
    /// The requested column reads the unspent-output set, but tracking was
    /// not enabled for the run.
    UtxoTrackingRequired,
}

/// Compares two strings by their characters.
pub fn str_eq(a: &str, b: &str) -> (r: bool)
    ensures
        r == (a@ == b@),
{
    let alen = a.unicode_len();
    let blen = b.unicode_len();
    if alen != blen {
        proof {
            assert(a@.len() != b@.len());
        }
        return false;
    }
    let mut i: usize = 0;
    while i < alen
        invariant
            i <= alen,
            alen == a@.len() && alen == b@.len(),
            forall|j: int| 0 <= j < i ==> a@[j] == b@[j],
        decreases alen - i,
    {
        if a.get_char(i) != b.get_char(i) {
            return false;
        }
        i = i + 1;
    }
    proof {
        assert(a@ =~= b@);
    }
    true
}

/// The single-valued metric a column name requests, if any.
pub open spec fn spec_single_metric_of(name: Seq<char>) -> Option<SingleMetric> {
    if name == "height"@ {
        Some(SingleMetric::Height)
    } else if name == "timestamp"@ {
        Some(SingleMetric::Timestamp)
    } else if name == "tx_count"@ {
        Some(SingleMetric::TxCount)
    } else if name == "fee_avg"@ {
        Some(SingleMetric::FeeAvg)
    } else if name == "block_size"@ {
        Some(SingleMetric::BlockSize)
    } else if name == "utxo_size"@ {
        Some(SingleMetric::UtxoSize)
    } else if name == "op_return_count"@ {
        Some(SingleMetric::OpReturnCount)
    } else if name == "op_return_bytes"@ {
        Some(SingleMetric::OpReturnBytes)
    } else if name == "op_return_gt40"@ {
        Some(SingleMetric::OpReturnGt40)
    } else if name == "op_return_gt80"@ {
        Some(SingleMetric::OpReturnGt80)
    } else {
        None
    }
}

/// Looks a column name up in the single-valued metric registry.
pub fn single_metric_of_name(name: &str) -> (r: Option<SingleMetric>)
    ensures
        r == spec_single_metric_of(name@),
{
    if str_eq(name, "height") {
        Some(SingleMetric::Height)
    } else if str_eq(name, "timestamp") {
        Some(SingleMetric::Timestamp)
    } else if str_eq(name, "tx_count") {
        Some(SingleMetric::TxCount)
    } else if str_eq(name, "fee_avg") {
        Some(SingleMetric::FeeAvg)
    } else if str_eq(name, "block_size") {
        Some(SingleMetric::BlockSize)
    } else if str_eq(name, "utxo_size") {
        Some(SingleMetric::UtxoSize)
    } else if str_eq(name, "op_return_count") {
        Some(SingleMetric::OpReturnCount)
    } else if str_eq(name, "op_return_bytes") {
        Some(SingleMetric::OpReturnBytes)
    } else if str_eq(name, "op_return_gt40") {
        Some(SingleMetric::OpReturnGt40)
    } else if str_eq(name, "op_return_gt80") {
        Some(SingleMetric::OpReturnGt80)
    } else {
        None
    }
}

/// The multi-valued metric a base name requests, if any.
pub open spec fn spec_multi_metric_of(name: Seq<char>) -> Option<MultiMetric> {
    if name == "tx_size"@ {
        Some(MultiMetric::TxSize)
    } else if name == "fee_rates"@ {
        Some(MultiMetric::FeeRates)
    } else {
        None
    }
}

/// Looks a base name up in the multi-valued metric registry.
pub fn multi_metric_of_name(name: &str) -> (r: Option<MultiMetric>)
    ensures
        r == spec_multi_metric_of(name@),
{
    if str_eq(name, "tx_size") {
        Some(MultiMetric::TxSize)
    } else if str_eq(name, "fee_rates") {
        Some(MultiMetric::FeeRates)
    } else {
        None
    }
}

/// Whether a metric name reads the unspent-output set and so demands that
/// tracking be enabled for the run.
pub fn column_requires_utxo(column_name: &str) -> (r: bool)
    ensures
        r == (column_name@ == "fee_rates"@ || column_name@ == "utxo_size"@),
{
    str_eq(column_name, "fee_rates") || str_eq(column_name, "utxo_size")
}

/// The index of the first `[` in `s`, or its length when there is none.
pub open spec fn spec_bracket_pos(s: Seq<char>) -> nat
    decreases s.len(),
{
    if s.len() == 0 {
        0
    } else if s[0] == '[' {
        0
    } else {
        1 + spec_bracket_pos(s.drop_first())
    }
}

/// What the bracket position promises: nothing before it is a bracket, and
/// it points at one unless it is the length.
pub proof fn lemma_bracket_pos(s: Seq<char>)
    ensures
        spec_bracket_pos(s) <= s.len(),
        forall|k: int| 0 <= k < spec_bracket_pos(s) ==> s[k] != '[',
        spec_bracket_pos(s) < s.len() ==> s[spec_bracket_pos(s) as int] == '[',
    decreases s.len(),
{
    if s.len() > 0 && s[0] != '[' {
        lemma_bracket_pos(s.drop_first());
        assert forall|k: int| 0 <= k < spec_bracket_pos(s) implies s[k] != '[' by {
            if k > 0 {
                assert(s.drop_first()[k - 1] == s[k]);
            }
        }
    }
}

/// The index of the first `,` in `s`, or its length when there is none.
pub open spec fn spec_comma_pos(s: Seq<char>) -> nat
    decreases s.len(),
{
    if s.len() == 0 {
        0
    } else if s[0] == ',' {
        0
    } else {
        1 + spec_comma_pos(s.drop_first())
    }
}

/// What the comma position promises.
pub proof fn lemma_comma_pos(s: Seq<char>)
    ensures
        spec_comma_pos(s) <= s.len(),
        forall|k: int| 0 <= k < spec_comma_pos(s) ==> s[k] != ',',
        spec_comma_pos(s) < s.len() ==> s[spec_comma_pos(s) as int] == ',',
    decreases s.len(),
{
    if s.len() > 0 && s[0] != ',' {
        lemma_comma_pos(s.drop_first());
        assert forall|k: int| 0 <= k < spec_comma_pos(s) implies s[k] != ',' by {
            if k > 0 {
                assert(s.drop_first()[k - 1] == s[k]);
            }
        }
    }
}

/// `s` without its leading spaces.
pub open spec fn spec_trim_front(s: Seq<char>) -> Seq<char>
    decreases s.len(),
{
    if s.len() > 0 && s[0] == ' ' {
        spec_trim_front(s.drop_first())
    } else {
        s
    }
}

/// `s` without its trailing spaces.
pub open spec fn spec_trim_back(s: Seq<char>) -> Seq<char>
    decreases s.len(),
{
    if s.len() > 0 && s.last() == ' ' {
        spec_trim_back(s.drop_last())
    } else {
        s
    }
}

/// `s` without leading and trailing spaces.
pub open spec fn spec_trim(s: Seq<char>) -> Seq<char> {
    spec_trim_back(spec_trim_front(s))
}

proof fn lemma_trim_front_skip(s: Seq<char>, a: int)
    requires
        0 <= a <= s.len(),
        forall|k: int| 0 <= k < a ==> s[k] == ' ',
        a < s.len() ==> s[a] != ' ',
    ensures
        spec_trim_front(s) =~= s.skip(a),
    decreases a,
{
    if a == 0 {
        assert(s.skip(0) =~= s);
    } else {
        assert(s[0] == ' ');
        assert forall|k: int| 0 <= k < a - 1 implies s.drop_first()[k] == ' ' by {
            assert(s.drop_first()[k] == s[k + 1]);
        }
        if a - 1 < s.drop_first().len() {
            assert(s.drop_first()[a - 1] == s[a]);
        }
        lemma_trim_front_skip(s.drop_first(), a - 1);
        assert(s.drop_first().skip(a - 1) =~= s.skip(a));
    }
}

proof fn lemma_trim_back_take(s: Seq<char>, b: int)
    requires
        0 <= b <= s.len(),
        forall|k: int| b <= k < s.len() ==> s[k] == ' ',
        b > 0 ==> s[b - 1] != ' ',
    ensures
        spec_trim_back(s) =~= s.take(b),
    decreases s.len() - b,
{
    if b == s.len() {
        if s.len() > 0 && s.last() == ' ' {
            assert(false);
        }
        assert(s.take(b) =~= s);
    } else {
        assert(s.last() == ' ');
        lemma_trim_back_take(s.drop_last(), b);
        assert(s.drop_last().take(b) =~= s.take(b));
    }
}

/// The decimal value of a digit run.
pub open spec fn spec_digits_value(ds: Seq<char>) -> int
    decreases ds.len(),
{
    if ds.len() == 0 {
        0
    } else {
        spec_digits_value(ds.drop_last()) * 10 + (ds.last() as int - 48)
    }
}

/// Whether every character of `ds` is a decimal digit.
pub open spec fn spec_all_digits(ds: Seq<char>) -> bool {
    forall|k: int| 0 <= k < ds.len() ==> 48 <= (#[trigger] ds[k]) as int <= 57
}

/// What one quantile segment parses to: its trimmed text as an optionally
/// negated digit run, or no number at all.
pub open spec fn spec_parse_point(seg: Seq<char>) -> Option<int> {
    let t = spec_trim(seg);
    if t.len() == 0 {
        None
    } else if t[0] == '-' {
        let ds = t.drop_first();
        if ds.len() > 0 && spec_all_digits(ds) {
            Some(-spec_digits_value(ds))
        } else {
            None
        }
    } else {
        if spec_all_digits(t) {
            Some(spec_digits_value(t))
        } else {
            None
        }
    }
}

/// The numbers of a comma-separated quantile list, or the parse failure the
/// leftmost malformed segment owes.
pub open spec fn spec_parse_values(s: Seq<char>) -> Result<Seq<int>, ConfigError>
    decreases s.len(),
{
    let p = spec_comma_pos(s);
    if p >= s.len() {
        match spec_parse_point(s) {
            None => Err(ConfigError::InvalidQuantile),
            Some(v) => Ok(seq![v]),
        }
    } else {
        match spec_parse_point(s.take(p as int)) {
            None => Err(ConfigError::InvalidQuantile),
            Some(v) => match spec_parse_values(s.skip(p + 1int)) {
                Err(e) => Err(e),
                Ok(rest) => Ok(seq![v] + rest),
            },
        }
    }
}

/// Whether some parsed point leaves `0 ..= 100`.
pub open spec fn spec_some_out_of_range(vs: Seq<int>) -> bool {
    exists|k: int| 0 <= k < vs.len() && !(0 <= #[trigger] vs[k] <= 100)
}

/// What a quantile list owes: its numbers when they all parse and sit in
/// `0 ..= 100`; a malformed segment outranks a range violation.
pub open spec fn spec_parse_quantiles(s: Seq<char>) -> Result<Seq<int>, ConfigError> {
    match spec_parse_values(s) {
        Err(e) => Err(e),
        Ok(vs) => if spec_some_out_of_range(vs) {
            Err(ConfigError::QuantileOutOfRange)
        } else {
            Ok(vs)
        },
    }
}

/// Parses one quantile segment of `s`, the characters `from .. to`: spaces
/// are trimmed, an optional minus sign is honoured, and the rest must be
/// decimal digits. The value is reported saturated at 101, which the range
/// check cannot tell apart from the exact value.
fn parse_point_range(s: &str, from: usize, to: usize) -> (r: Option<(bool, u64)>)
    requires
        from <= to <= s@.len(),
    ensures
        r is Some <==> spec_parse_point(s@.subrange(from as int, to as int)) is Some,
        r matches Some((neg, sat)) ==> spec_point_matches(
            (neg, sat),
            spec_parse_point(s@.subrange(from as int, to as int))->Some_0,
        ),
{
    let ghost seg = s@.subrange(from as int, to as int);
    let mut a = from;
    while a < to && s.get_char(a) == ' '
        invariant
            from <= a <= to <= s@.len(),
            forall|k: int| from <= k < a ==> s@[k] == ' ',
        decreases to - a,
    {
        a = a + 1;
    }
    let mut b = to;
    while b > a && s.get_char(b - 1) == ' '
        invariant
            a <= b <= to,
            to <= s@.len(),
            forall|k: int| b <= k < to ==> s@[k] == ' ',
        decreases b,
    {
        b = b - 1;
    }
    proof {
        assert forall|k: int| 0 <= k < a - from implies seg[k] == ' ' by {
            assert(seg[k] == s@[from + k]);
        }
        if a < to {
            assert(seg[a - from] == s@[a as int]);
        }
        lemma_trim_front_skip(seg, a - from);
        let front = seg.skip(a - from);
        assert forall|k: int| b - a <= k < front.len() implies front[k] == ' ' by {
            assert(front[k] == s@[a + k]);
        }
        if b > a {
            assert(front[b - a - 1] == s@[b - 1]);
        }
        lemma_trim_back_take(front, b - a);
        assert(spec_trim(seg) =~= s@.subrange(a as int, b as int));
    }
    let ghost t = spec_trim(seg);
    if a == b {
        return None;
    }
    proof {
        assert(t[0] == s@[a as int]);
    }
    let neg = s.get_char(a) == '-';
    let d0 = if neg {
        a + 1
    } else {
        a
    };
    proof {
        if neg {
            assert(t.drop_first() =~= s@.subrange(d0 as int, b as int));
        } else {
            assert(t =~= s@.subrange(d0 as int, b as int));
        }
    }
    if d0 == b {
        return None;
    }
    let ghost ds = s@.subrange(d0 as int, b as int);
    let mut sat: u64 = 0;
    let mut i = d0;
    while i < b
        invariant
            d0 <= i <= b <= s@.len(),
            from <= a <= to <= s@.len(),
            a < b <= to,
            seg == s@.subrange(from as int, to as int),
            t == spec_trim(seg),
            t =~= s@.subrange(a as int, b as int),
            neg == (t[0] == '-'),
            d0 == (if neg {
                a + 1
            } else {
                a as int
            }),
            neg ==> t.drop_first() =~= ds,
            !neg ==> t =~= ds,
            ds == s@.subrange(d0 as int, b as int),
            spec_all_digits(ds.take(i - d0)),
            sat == (if spec_digits_value(ds.take(i - d0)) > 100 {
                101int
            } else {
                spec_digits_value(ds.take(i - d0))
            }),
        decreases b - i,
    {
        let c = s.get_char(i);
        let cv = c as u32;
        if cv < 48 || cv > 57 {
            proof {
                assert(ds[i - d0] == s@[i as int]);
                assert(!spec_all_digits(ds));
            }
            return None;
        }
        proof {
            assert(ds.take(i - d0 + 1).drop_last() =~= ds.take(i - d0));
            assert(ds.take(i - d0 + 1).last() == ds[i - d0]);
            assert(ds[i - d0] == s@[i as int]);
        }
        let d = (cv - 48) as u64;
        let next = sat * 10 + d;
        sat = if next > 100 {
            101
        } else {
            next
        };
        i = i + 1;
    }
    proof {
        assert(ds.take(b - d0) =~= ds);
        lemma_digits_value_nonneg(ds);
    }
    // A lone minus sign before zero still names zero.
    let neg = neg && sat != 0;
    Some((neg, sat))
}

/// A digit run names a non-negative number.
proof fn lemma_digits_value_nonneg(ds: Seq<char>)
    requires
        spec_all_digits(ds),
    ensures
        spec_digits_value(ds) >= 0,
    decreases ds.len(),
{
    if ds.len() > 0 {
        assert(spec_all_digits(ds.drop_last()));
        lemma_digits_value_nonneg(ds.drop_last());
    }
}

/// Whether a saturated parsed point faithfully stands for the number `v`:
/// the sign is right, in-range values are exact, and anything above 100
/// saturates to 101 — which the range check cannot tell apart.
pub open spec fn spec_point_matches(p: (bool, u64), v: int) -> bool {
    &&& p.0 == (v < 0)
    &&& (0 <= v <= 100 ==> p.1 == v)
    &&& (v > 100 ==> p.1 == 101)
}

/// Parses a comma-separated quantile list: every segment must be an integer
/// and every value must sit in `0 ..= 100`.
#[verifier::rlimit(100)]
#[verifier::spinoff_prover]
pub fn parse_quantile_list(s: &str) -> (r: Result<Vec<u64>, ConfigError>)
    ensures
        spec_parse_quantiles(s@) == (match r {
            Ok(v) => Ok::<Seq<int>, ConfigError>(v@.map_values(|q: u64| q as int)),
            Err(e) => Err::<Seq<int>, ConfigError>(e),
        }),
        r matches Ok(v) ==> forall|i: int| 0 <= i < v@.len() ==> #[trigger] v@[i] <= 100,
{
    let len = s.unicode_len();
    let mut points: Vec<(bool, u64)> = Vec::new();
    let ghost whole = s@;
    let mut start: usize = 0;
    proof {
        assert(whole.skip(0) =~= whole);
    }
    loop
        invariant_except_break
            (match spec_parse_values(whole.skip(start as int)) {
                Ok(rest) => spec_parse_values(whole) matches Ok(vs) && vs.len() == points@.len()
                    + rest.len() && (forall|k: int|
                    0 <= k < points@.len() ==> spec_point_matches(
                        #[trigger] points@[k],
                        vs[k],
                    )) && vs.skip(points@.len() as int) =~= rest,
                Err(e) => spec_parse_values(whole) == Err::<Seq<int>, ConfigError>(e),
            }),
        invariant
            start <= len,
            len == whole.len(),
            whole == s@,
        ensures
            spec_parse_values(whole) matches Ok(vs) && vs.len() == points@.len() && (forall|
                k: int,
            |
                0 <= k < points@.len() ==> spec_point_matches(#[trigger] points@[k], vs[k])),
        decreases len - start + 1,
    {
        let ghost rem = whole.skip(start as int);
        // Find the end of this segment.
        let mut c = start;
        while c < len && s.get_char(c) != ','
            invariant
                start <= c <= len,
                len == whole.len(),
                whole == s@,
                forall|k: int| start <= k < c ==> whole[k] != ',',
            decreases len - c,
        {
            c = c + 1;
        }
        proof {
            lemma_comma_pos(rem);
            assert forall|k: int| 0 <= k < c - start implies rem[k] != ',' by {
                assert(rem[k] == whole[start + k]);
            }
            if c < len {
                assert(rem[c - start] == whole[c as int]);
            }
            assert(spec_comma_pos(rem) == c - start) by {
                let p = spec_comma_pos(rem) as int;
                if p < c - start {
                    assert(rem[p] != ',');
                } else if p > c - start {
                    assert(c - start < rem.len());
                }
            }
            assert(rem.take(c - start) =~= whole.subrange(start as int, c as int));
        }
        let point = match parse_point_range(s, start, c) {
            Some(p) => p,
            None => {
                proof {
                    if c == len {
                        assert(rem.take(c - start) =~= rem);
                    }
                }
                return Err(ConfigError::InvalidQuantile);
            },
        };
        let ghost old_points = points@;
        points.push(point);
        if c == len {
            proof {
                assert(rem.take(c - start) =~= rem);
                let v = spec_parse_point(rem)->Some_0;
                assert(spec_parse_values(rem) == Ok::<Seq<int>, ConfigError>(seq![v]));
                let vs = spec_parse_values(whole)->Ok_0;
                assert(vs.skip(old_points.len() as int) =~= seq![v]);
                assert(vs.skip(old_points.len() as int)[0] == v);
                assert(vs[old_points.len() as int] == v);
            }
            break ;
        }
        proof {
            let v = spec_parse_point(rem.take(c - start))->Some_0;
            assert(rem.skip((c - start) + 1) =~= whole.skip(c + 1));
            match spec_parse_values(whole.skip(c + 1)) {
                Ok(rest2) => {
                    assert(spec_parse_values(rem) == Ok::<Seq<int>, ConfigError>(
                        seq![v] + rest2,
                    ));
                    let vs = spec_parse_values(whole)->Ok_0;
                    assert(vs.skip(old_points.len() as int) =~= seq![v] + rest2);
                    assert(vs.skip(old_points.len() as int)[0] == v);
                    assert(vs[old_points.len() as int] == v);
                    assert forall|q: int|
                        0 <= q < vs.skip(points@.len() as int).len() implies vs.skip(
                        points@.len() as int,
                    )[q] == rest2[q] by {
                        assert(vs.skip(old_points.len() as int)[q + 1] == (seq![v] + rest2)[q
                            + 1]);
                    }
                    assert(vs.skip(points@.len() as int) =~= rest2);
                },
                Err(e) => {
                    assert(spec_parse_values(rem) == Err::<Seq<int>, ConfigError>(e));
                },
            }
        }
        start = c + 1;
    }
    // Range-check every parsed point.
    let mut out: Vec<u64> = Vec::new();
    let mut i: usize = 0;
    while i < points.len()
        invariant
            i <= points@.len(),
            whole == s@,
            spec_parse_values(whole) matches Ok(vs) && vs.len() == points@.len() && (forall|
                k: int,
            |
                0 <= k < points@.len() ==> spec_point_matches(#[trigger] points@[k], vs[k])),
            forall|k: int|
                0 <= k < i ==> !points@[k].0 && (#[trigger] points@[k]).1 <= 100,
            out@.len() == i,
            forall|k: int| 0 <= k < i ==> #[trigger] out@[k] == points@[k].1,
        decreases points@.len() - i,
    {
        let (neg, sat) = points[i];
        if neg || sat > 100 {
            proof {
                let vs = spec_parse_values(whole)->Ok_0;
                assert(spec_point_matches(points@[i as int], vs[i as int]));
                assert(!(0 <= vs[i as int] <= 100));
                assert(spec_some_out_of_range(vs));
            }
            return Err(ConfigError::QuantileOutOfRange);
        }
        out.push(sat);
        i = i + 1;
    }
    proof {
        let vs = spec_parse_values(whole)->Ok_0;
        assert forall|k: int| 0 <= k < vs.len() implies 0 <= #[trigger] vs[k] <= 100 by {
            assert(spec_point_matches(points@[k], vs[k]));
        }
        assert(!spec_some_out_of_range(vs));
        assert forall|k: int| 0 <= k < vs.len() implies out@.map_values(|q: u64| q as int)[k]
            == vs[k] by {
            assert(spec_point_matches(points@[k], vs[k]));
        }
        assert(out@.map_values(|q: u64| q as int) =~= vs);
    }
    Ok(out)
}

/// The mathematical content of a parsed column request.
pub enum SpecColumn {
    /// A single-valued column: its name and metric.
    Single(Seq<char>, SingleMetric),
    /// A quantile column: its base name, its points, and its metric.
    Multi(Seq<char>, Seq<int>, MultiMetric),
}

/// The mathematical content of a [`ColumnSpec`].
pub open spec fn spec_column_view(cs: ColumnSpec) -> SpecColumn {
    match cs {
        ColumnSpec::Single { name, metric } => SpecColumn::Single(name@, metric),
        ColumnSpec::Multi { name, quantiles, metric } => SpecColumn::Multi(
            name@,
            quantiles@.map_values(|q: u64| q as int),
            metric,
        ),
    }
}

/// What a requested column parses to: a bare name is a single-valued
/// metric; a name followed by a bracketed quantile list is a multi-valued
/// metric, whose bracket must close at the very end and whose list must be
/// sound before the base name is even looked up.
pub open spec fn spec_parse_column(s: Seq<char>) -> Result<SpecColumn, ConfigError> {
    let b = spec_bracket_pos(s);
    if b >= s.len() {
        match spec_single_metric_of(s) {
            Some(m) => Ok(SpecColumn::Single(s, m)),
            None => Err(ConfigError::UnknownColumn),
        }
    } else if s.last() != ']' {
        Err(ConfigError::UnterminatedQuantiles)
    } else {
        match spec_parse_quantiles(s.subrange(b + 1int, s.len() - 1)) {
            Err(e) => Err(e),
            Ok(qs) => match spec_multi_metric_of(s.take(b as int)) {
                Some(m) => Ok(SpecColumn::Multi(s.take(b as int), qs, m)),
                None => Err(ConfigError::UnknownMultiColumn),
            },
        }
    }
}

/// Parses one requested column: either a bare single-valued metric name, or
/// `base[q1,q2,...]` naming a multi-valued metric with its quantile points.
pub fn parse_column_spec(column_input: &str) -> (r: Result<ColumnSpec, ConfigError>)
    ensures
        spec_parse_column(column_input@) == (match r {
            Ok(cs) => Ok::<SpecColumn, ConfigError>(spec_column_view(cs)),
            Err(e) => Err::<SpecColumn, ConfigError>(e),
        }),
        r matches Ok(cs) ==> (cs matches ColumnSpec::Multi { quantiles, .. } ==> forall|j: int|
            0 <= j < quantiles@.len() ==> #[trigger] quantiles@[j] <= 100),
{
    let ghost s = column_input@;
    let len = column_input.unicode_len();
    let mut b: usize = 0;
    while b < len && column_input.get_char(b) != '['
        invariant
            b <= len,
            len == s.len(),
            s == column_input@,
            forall|k: int| 0 <= k < b ==> s[k] != '[',
        decreases len - b,
    {
        b = b + 1;
    }
    proof {
        lemma_bracket_pos(s);
        assert(b == spec_bracket_pos(s)) by {
            let p = spec_bracket_pos(s) as int;
            if p < b {
                assert(s[p] != '[');
            } else if p > b {
                assert(b < s.len());
            }
        }
    }
    if b == len {
        match single_metric_of_name(column_input) {
            Some(m) => Ok(ColumnSpec::Single { name: column_input.to_owned(), metric: m }),
            None => Err(ConfigError::UnknownColumn),
        }
    } else {
        if column_input.get_char(len - 1) != ']' {
            return Err(ConfigError::UnterminatedQuantiles);
        }
        proof {
            assert(s[b as int] == '[');
            assert(b != len - 1);
        }
        let base = column_input.substring_char(0, b);
        let inner = column_input.substring_char(b + 1, len - 1);
        proof {
            assert(base@ =~= s.take(b as int));
            assert(inner@ =~= s.subrange(b + 1, s.len() - 1));
        }
        let quantiles = match parse_quantile_list(inner) {
            Ok(q) => q,
            Err(e) => {
                return Err(e);
            },
        };
        match multi_metric_of_name(base) {
            Some(m) => Ok(ColumnSpec::Multi { name: base.to_owned(), quantiles, metric: m }),
            None => Err(ConfigError::UnknownMultiColumn),
        }
    }
}

/// The requested base name: everything before the first bracket.
pub open spec fn spec_base_name(s: Seq<char>) -> Seq<char> {
    s.take(spec_bracket_pos(s) as int)
}

/// Rejects, before any block is read, a request whose columns read the
/// unspent-output set while tracking is not enabled for the run.
pub fn validate_columns(columns: &Vec<String>, utxo_enabled: bool) -> (r: Result<(), ConfigError>)
    ensures
        r is Ok <==> (utxo_enabled || forall|i: int|
            0 <= i < columns@.len() ==> {
                let base = spec_base_name(#[trigger] columns@[i]@);
                base != "fee_rates"@ && base != "utxo_size"@
            }),
        r matches Err(e) ==> e == ConfigError::UtxoTrackingRequired,
{
    if utxo_enabled {
        return Ok(());
    }
    let mut i: usize = 0;
    while i < columns.len()
        invariant
            i <= columns@.len(),
            !utxo_enabled,
            forall|k: int|
                0 <= k < i ==> {
                    let base = spec_base_name(#[trigger] columns@[k]@);
                    base != "fee_rates"@ && base != "utxo_size"@
                },
        decreases columns@.len() - i,
    {
        let col = &columns[i];
        let ghost s = col@;
        let len = col.as_str().unicode_len();
        let mut b: usize = 0;
        while b < len && col.as_str().get_char(b) != '['
            invariant
                b <= len,
                len == s.len(),
                s == col@,
                col == &columns[i as int],
                i < columns@.len(),
                forall|k: int| 0 <= k < b ==> s[k] != '[',
            decreases len - b,
        {
            b = b + 1;
        }
        proof {
            lemma_bracket_pos(s);
            assert(b == spec_bracket_pos(s)) by {
                let p = spec_bracket_pos(s) as int;
                if p < b {
                    assert(s[p] != '[');
                } else if p > b {
                    assert(b < s.len());
                }
            }
        }
        let base = col.as_str().substring_char(0, b);
        proof {
            assert(base@ =~= spec_base_name(columns@[i as int]@));
        }
        if column_requires_utxo(base) {
            proof {
                if forall|k: int|
                    0 <= k < columns@.len() ==> {
                        let base2 = spec_base_name(#[trigger] columns@[k]@);
                        base2 != "fee_rates"@ && base2 != "utxo_size"@
                    } {
                    assert(spec_base_name(columns@[i as int]@) != "fee_rates"@
                        && spec_base_name(columns@[i as int]@) != "utxo_size"@);
                    assert(false);
                }
            }
            return Err(ConfigError::UtxoTrackingRequired);
        }
        i = i + 1;
    }
    Ok(())
}

/// The decimal digit character for `d`.
pub open spec fn spec_digit_char(d: int) -> char {
    "0123456789"@[d]
}

/// The decimal spelling of a non-negative number.
pub open spec fn spec_decimal(n: int) -> Seq<char>
    decreases n,
{
    if n < 10 {
        seq![spec_digit_char(if n < 0 {
            0
        } else {
            n
        })]
    } else {
        spec_decimal(n / 10).push(spec_digit_char(n % 10))
    }
}

/// Spells a number in decimal.
pub fn u64_to_string(n: u64) -> (r: String)
    ensures
        r@ =~= spec_decimal(n as int),
    decreases n,
{
    let digits = "0123456789";
    proof {
        reveal_strlit("0123456789");
    }
    let d = (n % 10) as usize;
    let ds = digits.substring_char(d, d + 1);
    proof {
        assert(ds@ =~= seq![spec_digit_char(n as int % 10)]);
    }
    if n < 10 {
        ds.to_owned()
    } else {
        let mut s = u64_to_string(n / 10);
        s.append(ds);
        s
    }
}

/// The expanded output column names: a single column keeps its name, and a
/// quantile column yields `base_q` once per requested point.
pub open spec fn spec_expanded_names(specs: Seq<ColumnSpec>) -> Seq<Seq<char>>
    decreases specs.len(),
{
    if specs.len() == 0 {
        Seq::empty()
    } else {
        spec_expanded_names(specs.drop_last()) + (match specs.last() {
            ColumnSpec::Single { name, .. } => seq![name@],
            ColumnSpec::Multi { name, quantiles, .. } => Seq::new(
                quantiles@.len(),
                |j: int| name@ + seq!['_'] + spec_decimal(quantiles@[j] as int),
            ),
        })
    }
}

/// Expands the requested columns into one output column name each: a
/// quantile column becomes `base_q` per requested point.
pub fn expand_column_names(specs: &Vec<ColumnSpec>) -> (r: Vec<String>)
    ensures
        r@.map_values(|s: String| s@) == spec_expanded_names(specs@),
{
    let mut out: Vec<String> = Vec::new();
    let mut i: usize = 0;
    proof {
        assert(specs@.take(0) =~= Seq::<ColumnSpec>::empty());
        assert(out@.map_values(|s: String| s@) =~= Seq::<Seq<char>>::empty());
    }
    while i < specs.len()
        invariant
            i <= specs@.len(),
            out@.map_values(|s: String| s@) =~= spec_expanded_names(specs@.take(i as int)),
        decreases specs@.len() - i,
    {
        proof {
            assert(specs@.take(i + 1).drop_last() =~= specs@.take(i as int));
            assert(specs@.take(i + 1).last() == specs@[i as int]);
        }
        let ghost out_pre = out@;
        match &specs[i] {
            ColumnSpec::Single { name, .. } => {
                out.push(name.clone());
                proof {
                    assert(out@.map_values(|s: String| s@) =~= out_pre.map_values(
                        |s: String| s@,
                    ).push(out@.last()@));
                }
            },
            ColumnSpec::Multi { name, quantiles, .. } => {
                let ghost namev = name@;
                let ghost qsv = quantiles@;
                let ghost expected = Seq::new(
                    qsv.len(),
                    |j: int| namev + seq!['_'] + spec_decimal(qsv[j] as int),
                );
                let mut j: usize = 0;
                while j < quantiles.len()
                    invariant
                        j <= qsv.len(),
                        namev == name@,
                        qsv == quantiles@,
                        expected == Seq::new(
                            qsv.len(),
                            |jj: int| namev + seq!['_'] + spec_decimal(qsv[jj] as int),
                        ),
                        out@.map_values(|s: String| s@) =~= out_pre.map_values(|s: String| s@)
                            + expected.take(j as int),
                    decreases qsv.len() - j,
                {
                    let mut col = name.clone();
                    col.append("_");
                    let num = u64_to_string(quantiles[j]);
                    col.append(num.as_str());
                    proof {
                        reveal_strlit("_");
                        assert("_"@ =~= seq!['_']);
                        assert(col@ =~= namev + seq!['_'] + spec_decimal(qsv[j as int] as int));
                    }
                    let ghost before = out@;
                    out.push(col);
                    proof {
                        assert(out@.map_values(|s: String| s@) =~= before.map_values(
                            |s: String| s@,
                        ).push(out@.last()@));
                        assert(expected.take(j + 1) =~= expected.take(j as int).push(
                            expected[j as int],
                        ));
                    }
                    j = j + 1;
                }
                proof {
                    assert(expected.take(expected.len() as int) =~= expected);
                }
            },
        }
        i = i + 1;
    }
    proof {
        assert(specs@.take(specs@.len() as int) =~= specs@);
    }
    out
}

} // verus!
