//! Statistics per station, kept in a hash table from station names.

use vstd::prelude::*;
use crate::summary::{Summary, combine, merge, merge_fits, record, record_fits, summary_fits, tally};
use crate::text::{lemma_ascii_valid_utf8, utf8_str, utf8_string};
use vstd::utf8::{encode_utf8, valid_utf8};
use crate::order::{bytes_lt, lemma_lex_lt_asymmetric, lemma_lex_lt_irreflexive, lemma_lex_lt_total, lemma_lex_lt_transitive, lex_lt};
use crate::table::{StationTable, table_contents, table_entries, table_get, table_get_mut, table_insert, table_into_entries, table_with_capacity};

verus! {

/// Minimum, maximum, sum and number of the measurements of one station,
/// in tenths of a degree.
#[derive(Clone, Debug)]
pub struct StationStats {
    pub min: i16,
    pub max: i16,
    pub sum: i32,
    pub count: usize,
}

impl View for StationStats {
    type V = Summary;

    open spec fn view(&self) -> Summary {
        Summary { min: self.min as int, max: self.max as int, sum: self.sum as int, count: self.count as nat }
    }
}

/// The statistics of every station seen so far.
pub struct StationStatsMap(StationTable);

/// There are at most 10,000 distinct stations; the table is made that large.
const STATS_CAPACITY: usize = 10_000;

/// The statistics of a station, taken as its summary.
pub open spec fn summary_of(s: StationStats) -> Summary {
    s@
}

impl View for StationStatsMap {
    type V = Map<Seq<u8>, Summary>;

    closed spec fn view(&self) -> Map<Seq<u8>, Summary> {
        table_contents(self.0).map_values(|s: StationStats| summary_of(s))
    }
}

impl StationStatsMap {
    /// Every summary in the table fits the machine types of `StationStats`.
    pub proof fn lemma_summaries_fit(&self)
        ensures
            forall|k: Seq<u8>| self@.contains_key(k) ==> summary_fits(#[trigger] self@[k]),
    {
        assert forall|k: Seq<u8>| self@.contains_key(k) implies summary_fits(#[trigger] self@[k]) by {
            let st = table_contents(self.0)[k];
            assert(self@[k] == summary_of(st));
        }
    }

    /// An empty table.
    pub fn new() -> (m: Self)
        ensures
            m@ == Map::<Seq<u8>, Summary>::empty(),
    {
        let m = StationStatsMap(table_with_capacity(STATS_CAPACITY));
        assert(m@ =~= Map::<Seq<u8>, Summary>::empty());
        m
    }

    /// Records the measurement `value` of `station_name` when its summary
    /// stays within the machine types, and says whether it did; otherwise
    /// leaves the table unchanged.
    pub fn try_update(&mut self, station_name: &[u8], value: i16) -> (ok: bool)
        ensures
            ok == record_fits(old(self)@, station_name@, value as int),
            ok ==> final(self)@ == record(old(self)@, station_name@, value as int),
            !ok ==> final(self)@ == old(self)@,
    {
        let ghost before = table_contents(self.0);
        match table_get_mut(&mut self.0, station_name) {
            Some(stats) => {
                let new_sum = stats.sum.checked_add(value as i32);
                match new_sum {
                    Some(sum) => {
                        if stats.count == usize::MAX {
                            assert(table_contents(self.0) =~= before);
                            return false;
                        }
                        stats.min = if value < stats.min { value } else { stats.min };
                        stats.max = if value > stats.max { value } else { stats.max };
                        stats.sum = sum;
                        stats.count = stats.count + 1;
                        assert(self@ =~= record(old(self)@, station_name@, value as int));
                        true
                    },
                    None => {
                        assert(table_contents(self.0) =~= before);
                        false
                    },
                }
            },
            None => {
                let key = vstd::slice::slice_to_vec(station_name);
                table_insert(&mut self.0, key, StationStats { min: value, max: value, sum: value as i32, count: 1 });
                assert(self@ =~= record(old(self)@, station_name@, value as int));
                true
            },
        }
    }

    /// Whether recording `value` for `station_name` keeps its summary
    /// within the machine types.
    pub fn can_record(&self, station_name: &[u8], value: i16) -> (ok: bool)
        ensures
            ok == record_fits(self@, station_name@, value as int),
    {
        match table_get(&self.0, station_name) {
            Some(stats) => {
                let sum = stats.sum as i64 + value as i64;
                sum >= i32::MIN as i64 && sum <= i32::MAX as i64 && stats.count < usize::MAX
            },
            None => true,
        }
    }

    /// The names and statistics of all stations, each once, in an order
    /// that is left open.
    pub fn into_entries(self) -> (v: Vec<(Vec<u8>, StationStats)>)
        ensures
            forall|i: int| 0 <= i < v.len() ==> #[trigger] self@.contains_key(v[i].0@) && self@[v[i].0@] == v[i].1@,
            forall|i: int, j: int| 0 <= i < j < v.len() ==> v[i].0@ != v[j].0@,
            forall|k: Seq<u8>| #[trigger] self@.contains_key(k) ==> exists|i: int| 0 <= i < v.len() && v[i].0@ == k,
    {
        let ghost contents = table_contents(self.0);
        let v = table_into_entries(self.0);
        proof {
            assert forall|k: Seq<u8>| #[trigger] self@.contains_key(k) implies exists|i: int| 0 <= i < v.len() && v[i].0@ == k by {
                assert(contents.contains_key(k));
            }
        }
        v
    }

    /// Records the measurement `value` of `station_name`.
    pub fn update(&mut self, station_name: &[u8], value: i16)
        requires
            record_fits(old(self)@, station_name@, value as int),
        ensures
            final(self)@ == record(old(self)@, station_name@, value as int),
    {
        let _ = self.try_update(station_name, value);
    }

    /// Adds the statistics of `other` to these: stations found in both have
    /// their statistics combined, the others are copied.
    #[verifier::rlimit(30)]
    pub fn extend(&mut self, other: &StationStatsMap)
        requires
            merge_fits(old(self)@, other@),
        ensures
            final(self)@ == merge(old(self)@, other@),
    {
        let entries = table_entries(&other.0);
        let n = entries.len();
        let ghost start = self@;
        let ghost theirs = other@;
        for i in 0..n
            invariant
                n == entries@.len(),
                start == old(self)@,
                theirs == other@,
                merge_fits(start, theirs),
                forall|a: int| 0 <= a < n ==> table_contents(other.0).contains_key(#[trigger] entries@[a].0@)
                    && table_contents(other.0)[entries@[a].0@] == *entries@[a].1,
                forall|a: int, b: int| 0 <= a < b < n ==> entries@[a].0@ != entries@[b].0@,
                self@ == merge(start, theirs.restrict(seen_keys(entries@, i as int))),
        {
            let name = entries[i].0;
            let stats = entries[i].1;
            let ghost k = name@;
            let ghost before = self@;
            proof {
                assert(theirs.contains_key(k));
                assert(theirs[k] == stats@);
                assert(!seen_keys(entries@, i as int).contains(k)) by {
                    if seen_keys(entries@, i as int).contains(k) {
                        let a = choose|a: int| 0 <= a < i && entries@[a].0@ == k;
                        assert(entries@[a].0@ != entries@[i as int].0@);
                    }
                }
                assert(before.contains_key(k) == start.contains_key(k));
                assert(before.contains_key(k) ==> before[k] == start[k]);
            }
            match table_get_mut(&mut self.0, name.as_slice()) {
                Some(existing) => {
                    proof {
                        assert(summary_fits(combine(start[k], theirs[k])));
                    }
                    existing.min = if stats.min < existing.min { stats.min } else { existing.min };
                    existing.max = if stats.max > existing.max { stats.max } else { existing.max };
                    existing.sum = existing.sum + stats.sum;
                    existing.count = existing.count + stats.count;
                    assert(self@ =~= before.insert(k, combine(before[k], theirs[k])));
                },
                None => {
                    let key = vstd::slice::slice_to_vec(name.as_slice());
                    table_insert(&mut self.0, key, StationStats { min: stats.min, max: stats.max, sum: stats.sum, count: stats.count });
                    assert(self@ =~= before.insert(k, theirs[k]));
                },
            }
            assert(seen_keys(entries@, i + 1) =~= seen_keys(entries@, i as int).insert(k));
            assert(self@ =~= merge(start, theirs.restrict(seen_keys(entries@, i + 1))));
        }
        proof {
            assert(seen_keys(entries@, n as int) =~= theirs.dom()) by {
                assert forall|k: Seq<u8>| theirs.contains_key(k) implies #[trigger] seen_keys(entries@, n as int).contains(k) by {
                    assert(table_contents(other.0).contains_key(k));
                }
            }
            assert(theirs.restrict(seen_keys(entries@, n as int)) =~= theirs);
        }
    }

    /// Whether `extend` with `other` keeps every combined summary within
    /// the machine types.
    pub fn can_extend(&self, other: &StationStatsMap) -> (ok: bool)
        ensures
            ok == merge_fits(self@, other@),
    {
        let entries = table_entries(&other.0);
        let n = entries.len();
        for i in 0..n
            invariant
                n == entries@.len(),
                forall|a: int| 0 <= a < n ==> table_contents(other.0).contains_key(#[trigger] entries@[a].0@)
                    && table_contents(other.0)[entries@[a].0@] == *entries@[a].1,
                forall|a: int| 0 <= a < i ==> #[trigger] pair_fits(self@, other@, entries@[a].0@),
        {
            let name = entries[i].0;
            let stats = entries[i].1;
            match table_get(&self.0, name.as_slice()) {
                Some(mine) => {
                    if !combination_fits(mine, stats) {
                        assert(!pair_fits(self@, other@, name@));
                        return false;
                    }
                },
                None => {},
            }
            assert(pair_fits(self@, other@, entries@[i as int].0@));
        }
        proof {
            assert forall|k: Seq<u8>| self@.contains_key(k) && other@.contains_key(k) implies summary_fits(
                #[trigger] combine(self@[k], other@[k]),
            ) by {
                assert(table_contents(other.0).contains_key(k));
                let a = choose|a: int| 0 <= a < n && entries@[a].0@ == k;
                assert(pair_fits(self@, other@, entries@[a].0@));
            }
        }
        true
    }
}

/// The keys among the first `i` entries.
pub open spec fn seen_keys(entries: Seq<(&Vec<u8>, &StationStats)>, i: int) -> Set<Seq<u8>> {
    Set::new(|k: Seq<u8>| exists|a: int| 0 <= a < i && entries[a].0@ == k)
}

/// Whether the summaries of `k` in both tables, where it is in both,
/// combine within the machine types.
pub open spec fn pair_fits(a: Map<Seq<u8>, Summary>, b: Map<Seq<u8>, Summary>, k: Seq<u8>) -> bool {
    a.contains_key(k) && b.contains_key(k) ==> summary_fits(combine(a[k], b[k]))
}

/// Whether the combination of two statistics stays within the machine types.
fn combination_fits(a: &StationStats, b: &StationStats) -> (ok: bool)
    ensures
        ok == summary_fits(combine(a@, b@)),
{
    let sum = a.sum as i64 + b.sum as i64;
    sum >= i32::MIN as i64 && sum <= i32::MAX as i64 && b.count <= usize::MAX - a.count
}


/// `a / b` rounded toward zero, as Rust divides integers (for `b > 0`).
pub open spec fn trunc_div(a: int, b: int) -> int {
    if a >= 0 {
        a / b
    } else {
        -((-a) / b)
    }
}

/// The remainder of `trunc_div`, which has the sign of `a`.
pub open spec fn trunc_rem(a: int, b: int) -> int {
    a - b * trunc_div(a, b)
}

/// The mean `sum / count` rounded to the nearest integer, halves rounded up.
pub open spec fn rounded_mean(sum: int, count: int) -> int {
    (2 * sum + count) / (2 * count)
}

/// Whether `average` can compute the mean of `sum` over `count` within
/// its machine types: `count` is positive and fits in `i32`, the truncated
/// quotient and the rounded mean fit in `i16`, and twice the remainder
/// fits in `i32`.
pub open spec fn mean_computable(sum: int, count: int) -> bool {
    &&& 1 <= count <= i32::MAX
    &&& i16::MIN <= trunc_div(sum, count) <= i16::MAX
    &&& i32::MIN <= 2 * trunc_rem(sum, count) <= i32::MAX
    &&& i16::MIN <= rounded_mean(sum, count) <= i16::MAX
}

/// The truncated quotient and remainder, and how the rounding adjusts them.
proof fn lemma_rounding(s: int, c: int, q: int, r: int)
    requires
        c >= 1,
        s == q * c + r,
        s >= 0 ==> 0 <= r < c,
        s < 0 ==> -c < r <= 0,
    ensures
        trunc_div(s, c) == q,
        trunc_rem(s, c) == r,
        rounded_mean(s, c) == q + (if 2 * r >= c { 1int } else if 2 * r < -c { -1int } else { 0int }),
{
    if s >= 0 {
        vstd::arithmetic::div_mod::lemma_fundamental_div_mod_converse(s, c, q, r);
    } else {
        assert(-s == (-q) * c + (-r)) by (nonlinear_arith)
            requires
                s == q * c + r,
        ;
        vstd::arithmetic::div_mod::lemma_fundamental_div_mod_converse(-s, c, -q, -r);
    }
    assert(trunc_div(s, c) == q);
    assert(s - c * q == r) by (nonlinear_arith)
        requires
            s == q * c + r,
    ;
    if 2 * r >= c {
        assert(2 * s + c == (q + 1) * (2 * c) + (2 * r - c)) by (nonlinear_arith)
            requires
                s == q * c + r,
        ;
        vstd::arithmetic::div_mod::lemma_fundamental_div_mod_converse(2 * s + c, 2 * c, q + 1, 2 * r - c);
    } else if 2 * r < -c {
        assert(2 * s + c == (q - 1) * (2 * c) + (2 * r + 3 * c)) by (nonlinear_arith)
            requires
                s == q * c + r,
        ;
        vstd::arithmetic::div_mod::lemma_fundamental_div_mod_converse(2 * s + c, 2 * c, q - 1, 2 * r + 3 * c);
    } else {
        assert(2 * s + c == q * (2 * c) + (2 * r + c)) by (nonlinear_arith)
            requires
                s == q * c + r,
        ;
        vstd::arithmetic::div_mod::lemma_fundamental_div_mod_converse(2 * s + c, 2 * c, q, 2 * r + c);
    }
}

/// Quotient and remainder of `sum` by `count`, both rounded toward zero.
fn truncated_division(sum: i32, count: usize) -> (res: (i64, i64))
    requires
        1 <= count <= i32::MAX,
    ensures
        sum as int == res.0 * count + res.1,
        sum >= 0 ==> 0 <= res.1 < count,
        sum < 0 ==> -(count as int) < res.1 <= 0,
        trunc_div(sum as int, count as int) == res.0,
        trunc_rem(sum as int, count as int) == res.1,
        -(i32::MAX as int) - 1 <= res.0 <= i32::MAX,
{
    let c = count as u64;
    let negative = sum < 0;
    let t: u64 = if negative { (-(sum as i64)) as u64 } else { sum as u64 };
    let uq = t / c;
    let ur = t % c;
    proof {
        vstd::arithmetic::div_mod::lemma_fundamental_div_mod(t as int, c as int);
        assert(uq <= t) by (nonlinear_arith)
            requires
                t == c * uq + ur,
                c >= 1,
                ur >= 0,
                uq >= 0,
        ;
    }
    let q: i64 = if negative { -(uq as i64) } else { uq as i64 };
    let r: i64 = if negative { -(ur as i64) } else { ur as i64 };
    proof {
        assert(sum as int == q * count + r) by (nonlinear_arith)
            requires
                t == c * uq + ur,
                c == count,
                negative ==> t == -sum && q == -uq && r == -ur,
                !negative ==> t == sum && q == uq && r == ur,
        ;
        lemma_rounding(sum as int, count as int, q as int, r as int);
    }
    (q, r)
}

/// The mean of `count` measurements that sum to `sum`, rounded to the
/// nearest tenth with halves rounded up.
pub fn average(sum: i32, count: usize) -> (avg: i16)
    requires
        mean_computable(sum as int, count as int),
    ensures
        avg == rounded_mean(sum as int, count as int),
{
    let (q, r) = truncated_division(sum, count);
    proof {
        lemma_rounding(sum as int, count as int, q as int, r as int);
    }
    let mut avg: i16 = q as i16;
    let c = count as i64;
    if 2 * r >= c {
        avg = avg + 1;
    }
    if 2 * r < -c {
        avg = avg - 1;
    }
    avg
}

/// Whether `average(sum, count)` can be computed.
pub fn can_average(sum: i32, count: usize) -> (ok: bool)
    ensures
        ok == mean_computable(sum as int, count as int),
{
    if count < 1 || count > i32::MAX as usize {
        return false;
    }
    let (q, r) = truncated_division(sum, count);
    proof {
        lemma_rounding(sum as int, count as int, q as int, r as int);
    }
    let c = count as i64;
    let rounded: i64 = if 2 * r >= c { q + 1 } else if 2 * r < -c { q - 1 } else { q };
    q >= i16::MIN as i64 && q <= i16::MAX as i64 && 2 * r >= i32::MIN as i64 && 2 * r <= i32::MAX as i64
        && rounded >= i16::MIN as i64 && rounded <= i16::MAX as i64
}


/// The decimal digits of `n`, most significant first, without leading zeros.
pub open spec fn decimal_digits(n: nat) -> Seq<u8>
    decreases n,
{
    if n < 10 {
        seq![(48 + n) as u8]
    } else {
        decimal_digits(n / 10).push((48 + n % 10) as u8)
    }
}

/// The absolute value of `v`.
pub open spec fn abs_value(v: int) -> int {
    if v < 0 {
        -v
    } else {
        v
    }
}

/// A value in tenths written as a decimal with one fractional digit, such
/// as `-12.3`, `0.5` or `-0.7`.
pub open spec fn render_decimal(v: int) -> Seq<u8> {
    (if v < 0 {
        seq![45u8]
    } else {
        Seq::<u8>::empty()
    }) + decimal_digits((abs_value(v) / 10) as nat) + seq![46u8, (48 + abs_value(v) % 10) as u8]
}

/// Every byte of `decimal_digits(n)` is an ASCII digit.
pub proof fn lemma_decimal_digits_ascii(n: nat)
    ensures
        forall|i: int| 0 <= i < decimal_digits(n).len() ==> 48 <= #[trigger] decimal_digits(n)[i] <= 57,
    decreases n,
{
    if n >= 10 {
        lemma_decimal_digits_ascii(n / 10);
        let d = decimal_digits(n / 10);
        assert(0 <= n % 10 < 10);
        assert(decimal_digits(n) == d.push((48 + n % 10) as u8));
        assert forall|i: int| 0 <= i < decimal_digits(n).len() implies 48 <= #[trigger] decimal_digits(n)[i] <= 57 by {
            if i < d.len() {
                assert(decimal_digits(n)[i] == d[i]);
            }
        }
    }
}

/// Every byte of `render_decimal(v)` is ASCII.
pub proof fn lemma_render_decimal_ascii(v: int)
    ensures
        forall|i: int| 0 <= i < render_decimal(v).len() ==> #[trigger] render_decimal(v)[i] < 128,
{
    lemma_decimal_digits_ascii((abs_value(v) / 10) as nat);
}

/// Appends `decimal_digits(n)` to `out`.
fn push_digits(out: &mut Vec<u8>, n: u16)
    ensures
        final(out)@ == old(out)@ + decimal_digits(n as nat),
    decreases n,
{
    if n < 10 {
        out.push(48 + n as u8);
    } else {
        push_digits(out, n / 10);
        out.push(48 + (n % 10) as u8);
    }
}

/// A temperature in tenths of a degree, shown with one fractional digit.
pub struct DecimalValue(pub i16);

impl DecimalValue {
    /// Appends the decimal form of the value to `out`.
    pub fn write_to(&self, out: &mut Vec<u8>)
        requires
            self.0 > i16::MIN,
        ensures
            final(out)@ == old(out)@ + render_decimal(self.0 as int),
    {
        let raw = self.0;
        if raw < 0 {
            out.push(45);
        }
        let abs: u16 = if raw < 0 { (-(raw as i32)) as u16 } else { raw as u16 };
        push_digits(out, abs / 10);
        out.push(46);
        out.push(48 + (abs % 10) as u8);
        assert(final(out)@ =~= old(out)@ + render_decimal(self.0 as int));
    }

    /// The decimal form of the value, such as `-12.3`.
    pub fn to_string(&self) -> (s: String)
        requires
            self.0 > i16::MIN,
        ensures
            encode_utf8(s@) == render_decimal(self.0 as int),
    {
        let mut out: Vec<u8> = Vec::new();
        self.write_to(&mut out);
        proof {
            assert(out@ =~= render_decimal(self.0 as int));
            lemma_render_decimal_ascii(self.0 as int);
            lemma_ascii_valid_utf8(out@);
        }
        match utf8_string(out) {
            Some(s) => s,
            None => String::new(),
        }
    }
}


/// One line of the report: station name (its bytes), minimum, rounded mean
/// and maximum, in tenths.
pub open spec fn row_view(e: (&str, DecimalValue, DecimalValue, DecimalValue)) -> (Seq<u8>, int, int, int) {
    (encode_utf8(e.0@), (e.1).0 as int, (e.2).0 as int, (e.3).0 as int)
}

/// `name=min/mean/max`.
pub open spec fn render_row(r: (Seq<u8>, int, int, int)) -> Seq<u8> {
    r.0 + seq![61u8] + render_decimal(r.1) + seq![47u8] + render_decimal(r.2) + seq![47u8] + render_decimal(r.3)
}

/// The rows, separated by `, `.
pub open spec fn render_rows(rows: Seq<(Seq<u8>, int, int, int)>) -> Seq<u8>
    decreases rows.len(),
{
    if rows.len() == 0 {
        Seq::empty()
    } else if rows.len() == 1 {
        render_row(rows[0])
    } else {
        render_rows(rows.drop_last()) + seq![44u8, 32u8] + render_row(rows.last())
    }
}

/// One row alone is rendered as that row; no rows, as nothing.
pub proof fn lemma_render_rows_single(r: (Seq<u8>, int, int, int))
    ensures
        render_rows(seq![r]) == render_row(r),
        render_rows(Seq::<(Seq<u8>, int, int, int)>::empty()) == Seq::<u8>::empty(),
{
}

/// The rendering of two non-empty runs of rows, one after the other, is
/// the rendering of the first, `, `, and the rendering of the second:
/// every row is rendered, in order, once.
pub proof fn lemma_render_rows_join(a: Seq<(Seq<u8>, int, int, int)>, b: Seq<(Seq<u8>, int, int, int)>)
    requires
        a.len() > 0,
        b.len() > 0,
    ensures
        render_rows(a + b) == render_rows(a) + seq![44u8, 32u8] + render_rows(b),
    decreases b.len(),
{
    let ab = a + b;
    assert(ab.last() == b.last());
    if b.len() == 1 {
        assert(ab.drop_last() =~= a);
        assert(render_rows(b) == render_row(b[0]));
    } else {
        let b0 = b.drop_last();
        assert(ab.drop_last() =~= a + b0);
        lemma_render_rows_join(a, b0);
        assert(render_rows(ab) == render_rows(a + b0) + seq![44u8, 32u8] + render_row(b.last()));
        assert(render_rows(b) == render_rows(b0) + seq![44u8, 32u8] + render_row(b.last()));
        assert(render_rows(ab) =~= render_rows(a) + seq![44u8, 32u8] + render_rows(b));
    }
}

/// How long a rendering of rows is: the lengths of the rows, and two bytes
/// of separator between each two of them.
pub open spec fn rows_length(rows: Seq<(Seq<u8>, int, int, int)>) -> int
    decreases rows.len(),
{
    if rows.len() == 0 {
        0
    } else {
        rows_length(rows.drop_last()) + render_row(rows.last()).len() + if rows.len() > 1 { 2int } else { 0int }
    }
}

/// The rendering of rows holds every row: its length is the sum of the
/// lengths of the rows and of the separators between them.
pub proof fn lemma_render_rows_length(rows: Seq<(Seq<u8>, int, int, int)>)
    ensures
        render_rows(rows).len() == rows_length(rows),
    decreases rows.len(),
{
    if rows.len() == 1 {
        assert(rows.last() == rows[0]);
        assert(rows_length(rows.drop_last()) == 0);
    } else if rows.len() > 1 {
        lemma_render_rows_length(rows.drop_last());
    }
}

/// The whole report: `{` the rows `}` and a line break.
pub open spec fn render_report(rows: Seq<(Seq<u8>, int, int, int)>) -> Seq<u8> {
    seq![123u8] + render_rows(rows) + seq![125u8, 10u8]
}

/// Whether none of the values of the rows is `i16::MIN`, which has no
/// decimal form here.
pub open spec fn rows_printable(rows: Seq<(Seq<u8>, int, int, int)>) -> bool {
    forall|i: int| 0 <= i < rows.len() ==> #[trigger] printable_row(rows[i])
}

/// Whether none of the values of a row is `i16::MIN`.
pub open spec fn printable_row(r: (Seq<u8>, int, int, int)) -> bool {
    r.1 > i16::MIN && r.2 > i16::MIN && r.3 > i16::MIN
}

/// `rows` is the report of table `m`: one row per station, in increasing
/// byte order of the names, each with the station's minimum, rounded mean
/// and maximum.
pub open spec fn is_report_of(m: Map<Seq<u8>, Summary>, rows: Seq<(Seq<u8>, int, int, int)>) -> bool {
    &&& sorted_by_name(rows)
    &&& forall|i: int| 0 <= i < rows.len() ==> #[trigger] row_of(m, rows[i])
    &&& forall|k: Seq<u8>| #[trigger] m.contains_key(k) ==> exists|i: int| 0 <= i < rows.len() && rows[i].0 == k
}

/// `r` is the row of its station in `m`.
pub open spec fn row_of(m: Map<Seq<u8>, Summary>, r: (Seq<u8>, int, int, int)) -> bool {
    &&& m.contains_key(r.0)
    &&& r.1 == m[r.0].min
    &&& r.2 == rounded_mean(m[r.0].sum, m[r.0].count as int)
    &&& r.3 == m[r.0].max
}

/// Why a report could not be made.
#[derive(Debug)]
pub enum ReportError {
    /// A station name is not valid UTF-8.
    InvalidStationName,
}

/// The per-station results, sorted by station name.
pub struct Report<'a>(Vec<(&'a str, DecimalValue, DecimalValue, DecimalValue)>);

impl<'a> View for Report<'a> {
    type V = Seq<(Seq<u8>, int, int, int)>;

    closed spec fn view(&self) -> Seq<(Seq<u8>, int, int, int)> {
        rows_view(self.0@)
    }
}

/// Every byte of a row is valid UTF-8 when its name is.
proof fn lemma_render_row_valid(r: (Seq<u8>, int, int, int))
    requires
        valid_utf8(r.0),
    ensures
        valid_utf8(render_row(r)),
{
    lemma_render_decimal_ascii(r.1);
    lemma_render_decimal_ascii(r.2);
    lemma_render_decimal_ascii(r.3);
    lemma_ascii_valid_utf8(render_decimal(r.1));
    lemma_ascii_valid_utf8(render_decimal(r.2));
    lemma_ascii_valid_utf8(render_decimal(r.3));
    lemma_ascii_valid_utf8(seq![61u8]);
    lemma_ascii_valid_utf8(seq![47u8]);
    let p1 = r.0 + seq![61u8];
    vstd::utf8::valid_utf8_concat(r.0, seq![61u8]);
    let p2 = p1 + render_decimal(r.1);
    vstd::utf8::valid_utf8_concat(p1, render_decimal(r.1));
    let p3 = p2 + seq![47u8];
    vstd::utf8::valid_utf8_concat(p2, seq![47u8]);
    let p4 = p3 + render_decimal(r.2);
    vstd::utf8::valid_utf8_concat(p3, render_decimal(r.2));
    let p5 = p4 + seq![47u8];
    vstd::utf8::valid_utf8_concat(p4, seq![47u8]);
    vstd::utf8::valid_utf8_concat(p5, render_decimal(r.3));
}

/// The rendered rows are valid UTF-8 when every name is.
proof fn lemma_render_rows_valid(rows: Seq<(Seq<u8>, int, int, int)>)
    requires
        forall|i: int| 0 <= i < rows.len() ==> valid_utf8(#[trigger] rows[i].0),
    ensures
        valid_utf8(render_rows(rows)),
    decreases rows.len(),
{
    broadcast use vstd::utf8::valid_utf8_concat;

    if rows.len() == 0 {
        lemma_ascii_valid_utf8(Seq::<u8>::empty());
    } else if rows.len() == 1 {
        lemma_render_row_valid(rows[0]);
    } else {
        lemma_render_rows_valid(rows.drop_last());
        lemma_render_row_valid(rows.last());
        lemma_ascii_valid_utf8(seq![44u8, 32u8]);
        let head = render_rows(rows.drop_last());
        vstd::utf8::valid_utf8_concat(head, seq![44u8, 32u8]);
        vstd::utf8::valid_utf8_concat(head + seq![44u8, 32u8], render_row(rows.last()));
    }
}

/// Appends one row, as `name=min/mean/max`, to `out`.
fn write_row(out: &mut Vec<u8>, row: &(&str, DecimalValue, DecimalValue, DecimalValue))
    requires
        printable_row(row_view(*row)),
    ensures
        final(out)@ == old(out)@ + render_row(row_view(*row)),
{
    out.extend_from_slice(row.0.as_bytes());
    out.push(61);
    row.1.write_to(out);
    out.push(47);
    row.2.write_to(out);
    out.push(47);
    row.3.write_to(out);
    assert(final(out)@ =~= old(out)@ + render_row(row_view(*row)));
}

impl<'a> Report<'a> {
    /// Appends the report, as `{name=min/mean/max, ...}` and a line
    /// break, to `out`.
    #[verifier::rlimit(30)]
    pub fn write_to(&self, out: &mut Vec<u8>)
        requires
            rows_printable(self@),
        ensures
            final(out)@ == old(out)@ + render_report(self@),
    {
        let ghost rows = self@;
        out.push(123);
        let n = self.0.len();
        for i in 0..n
            invariant
                n == self.0@.len(),
                rows == self@,
                rows.len() == n,
                rows_printable(rows),
                out@ == old(out)@ + seq![123u8] + render_rows(rows.take(i as int)),
        {
            let row = &self.0[i];
            assert(row_view(*row) == rows[i as int]);
            assert(printable_row(rows[i as int]));
            if i > 0 {
                out.push(44);
                out.push(32);
            }
            write_row(out, row);
            proof {
                let t = rows.take(i + 1);
                assert(t.drop_last() =~= rows.take(i as int));
                assert(t.last() == rows[i as int]);
                if i == 0 {
                    assert(rows.take(0) =~= Seq::<(Seq<u8>, int, int, int)>::empty());
                }
                assert(out@ =~= old(out)@ + seq![123u8] + render_rows(t));
            }
        }
        out.push(125);
        out.push(10);
        assert(rows.take(n as int) =~= rows);
        assert(out@ =~= old(out)@ + render_report(rows));
    }

    /// Whether every value of the report has a decimal form, that is, none
    /// is `i16::MIN`.
    pub fn is_printable(&self) -> (ok: bool)
        ensures
            ok == rows_printable(self@),
    {
        let n = self.0.len();
        for i in 0..n
            invariant
                n == self@.len(),
                forall|j: int| 0 <= j < i ==> #[trigger] printable_row(self@[j]),
        {
            let row = &self.0[i];
            assert(row_view(*row) == self@[i as int]);
            if row.1.0 == i16::MIN || row.2.0 == i16::MIN || row.3.0 == i16::MIN {
                assert(!printable_row(self@[i as int]));
                return false;
            }
        }
        true
    }

    /// The number of rows, one per station.
    pub fn len(&self) -> (n: usize)
        ensures
            n == self@.len(),
    {
        self.0.len()
    }

    /// The report as text, as `{name=min/mean/max, ...}` and a line break.
    pub fn to_string(&self) -> (s: String)
        requires
            rows_printable(self@),
        ensures
            encode_utf8(s@) == render_report(self@),
    {
        let mut out: Vec<u8> = Vec::new();
        self.write_to(&mut out);
        proof {
            let rows = self@;
            assert forall|i: int| 0 <= i < rows.len() implies valid_utf8(#[trigger] rows[i].0) by {
                assert(rows[i].0 == encode_utf8(self.0@[i].0@));
                vstd::utf8::encode_utf8_valid_utf8(self.0@[i].0@);
            }
            lemma_render_rows_valid(rows);
            lemma_ascii_valid_utf8(seq![123u8]);
            lemma_ascii_valid_utf8(seq![125u8, 10u8]);
            vstd::utf8::valid_utf8_concat(seq![123u8], render_rows(rows));
            vstd::utf8::valid_utf8_concat(seq![123u8] + render_rows(rows), seq![125u8, 10u8]);
            assert(out@ =~= render_report(rows));
        }
        match utf8_string(out) {
            Some(s) => s,
            None => String::new(),
        }
    }
}


/// The rows of a vector of report entries.
pub open spec fn rows_view(v: Seq<(&str, DecimalValue, DecimalValue, DecimalValue)>) -> Seq<(Seq<u8>, int, int, int)> {
    v.map_values(|e: (&str, DecimalValue, DecimalValue, DecimalValue)| row_view(e))
}

/// The names of `rows` increase strictly in byte order.
pub open spec fn sorted_by_name(rows: Seq<(Seq<u8>, int, int, int)>) -> bool {
    forall|i: int, j: int| 0 <= i < j < rows.len() ==> lex_lt(#[trigger] rows[i].0, #[trigger] rows[j].0)
}

/// Some row of `rows` is named `k`.
pub open spec fn row_named(rows: Seq<(Seq<u8>, int, int, int)>, k: Seq<u8>) -> bool {
    exists|j: int| 0 <= j < rows.len() && rows[j].0 == k
}

/// Some of the first `i` entries has the key `k`.
pub open spec fn name_seen(entries: Seq<(&Vec<u8>, &StationStats)>, i: int, k: Seq<u8>) -> bool {
    exists|a: int| 0 <= a < i && entries[a].0@ == k
}

/// Inserting a row at the place where its name belongs keeps the rows sorted.
proof fn lemma_insert_sorted(rows: Seq<(Seq<u8>, int, int, int)>, pos: int, r: (Seq<u8>, int, int, int))
    requires
        sorted_by_name(rows),
        0 <= pos <= rows.len(),
        forall|j: int| 0 <= j < pos ==> lex_lt(#[trigger] rows[j].0, r.0),
        forall|j: int| pos <= j < rows.len() ==> lex_lt(r.0, #[trigger] rows[j].0),
    ensures
        sorted_by_name(rows.insert(pos, r)),
{
    let s = rows.insert(pos, r);
    assert forall|i: int, j: int| 0 <= i < j < s.len() implies lex_lt(#[trigger] s[i].0, #[trigger] s[j].0) by {
        if j < pos {
            assert(s[i] == rows[i] && s[j] == rows[j]);
        } else if j == pos {
            assert(s[i] == rows[i]);
        } else if i < pos {
            assert(s[i] == rows[i] && s[j] == rows[j - 1]);
            lemma_lex_lt_transitive(rows[i].0, r.0, rows[j - 1].0);
        } else if i == pos {
            assert(s[j] == rows[j - 1]);
        } else {
            assert(s[i] == rows[i - 1] && s[j] == rows[j - 1]);
        }
    }
}

/// Where a new name belongs among sorted rows that do not hold it.
fn insertion_point(rows: &Vec<(&str, DecimalValue, DecimalValue, DecimalValue)>, name: &[u8]) -> (pos: usize)
    requires
        sorted_by_name(rows_view(rows@)),
        forall|j: int| 0 <= j < rows@.len() ==> #[trigger] rows_view(rows@)[j].0 != name@,
    ensures
        pos <= rows@.len(),
        forall|j: int| 0 <= j < pos ==> lex_lt(#[trigger] rows_view(rows@)[j].0, name@),
        forall|j: int| pos <= j < rows@.len() ==> lex_lt(name@, #[trigger] rows_view(rows@)[j].0),
{
    let ghost rv = rows_view(rows@);
    let mut lo: usize = 0;
    let mut hi: usize = rows.len();
    while lo < hi
        invariant
            rv == rows_view(rows@),
            rv.len() == rows@.len(),
            sorted_by_name(rv),
            forall|j: int| 0 <= j < rv.len() ==> #[trigger] rv[j].0 != name@,
            lo <= hi <= rows@.len(),
            forall|j: int| 0 <= j < lo ==> lex_lt(#[trigger] rv[j].0, name@),
            forall|j: int| hi <= j < rv.len() ==> lex_lt(name@, #[trigger] rv[j].0),
        decreases hi - lo,
    {
        let mid = lo + (hi - lo) / 2;
        let probe = rows[mid].0.as_bytes();
        assert(probe@ == rv[mid as int].0);
        if bytes_lt(probe, name) {
            assert forall|j: int| 0 <= j < mid + 1 implies lex_lt(#[trigger] rv[j].0, name@) by {
                if j < mid {
                    lemma_lex_lt_transitive(rv[j].0, rv[mid as int].0, name@);
                }
            }
            lo = mid + 1;
        } else {
            proof {
                lemma_lex_lt_total(rv[mid as int].0, name@);
            }
            assert forall|j: int| mid <= j < rv.len() implies lex_lt(name@, #[trigger] rv[j].0) by {
                if j > mid {
                    lemma_lex_lt_transitive(name@, rv[mid as int].0, rv[j].0);
                }
            }
            hi = mid;
        }
    }
    lo
}

impl StationStatsMap {
    /// The report of these statistics: one row per station with its
    /// minimum, rounded mean and maximum, sorted by station name; an error
    /// when a station name is not valid UTF-8.
    #[verifier::rlimit(30)]
    pub fn report(&self) -> (res: Result<Report<'_>, ReportError>)
        requires
            forall|k: Seq<u8>| #[trigger] self@.contains_key(k) ==> mean_computable(self@[k].sum, self@[k].count as int),
        ensures
            res is Ok <==> forall|k: Seq<u8>| #[trigger] self@.contains_key(k) ==> valid_utf8(k),
            res matches Ok(r) ==> is_report_of(self@, r@),
    {
        let entries = table_entries(&self.0);
        let n = entries.len();
        let ghost m = self@;
        let mut rows: Vec<(&str, DecimalValue, DecimalValue, DecimalValue)> = Vec::new();
        for i in 0..n
            invariant
                n == entries@.len(),
                m == self@,
                forall|k: Seq<u8>| #[trigger] m.contains_key(k) ==> mean_computable(m[k].sum, m[k].count as int),
                forall|a: int| 0 <= a < n ==> table_contents(self.0).contains_key(#[trigger] entries@[a].0@)
                    && table_contents(self.0)[entries@[a].0@] == *entries@[a].1,
                forall|a: int, b: int| 0 <= a < b < n ==> entries@[a].0@ != entries@[b].0@,
                forall|a: int| 0 <= a < i ==> valid_utf8(#[trigger] entries@[a].0@),
                sorted_by_name(rows_view(rows@)),
                forall|j: int| 0 <= j < rows@.len() ==> #[trigger] row_of(m, rows_view(rows@)[j]),
                forall|j: int| 0 <= j < rows@.len() ==> name_seen(entries@, i as int, #[trigger] rows_view(rows@)[j].0),
                forall|a: int| 0 <= a < i ==> row_named(rows_view(rows@), #[trigger] entries@[a].0@),
        {
            let name = entries[i].0;
            let stats = entries[i].1;
            let ghost k = name@;
            assert(m.contains_key(k) && m[k] == stats@);
            let s = match utf8_str(name.as_slice()) {
                Some(s) => s,
                None => {
                    assert(m.contains_key(k) && !valid_utf8(k));
                    return Err(ReportError::InvalidStationName);
                },
            };
            let avg = average(stats.sum, stats.count);
            let row = (s, DecimalValue(stats.min), DecimalValue(avg), DecimalValue(stats.max));
            let ghost rv = rows_view(rows@);
            assert(row_view(row).0 == k);
            assert forall|j: int| 0 <= j < rows@.len() implies #[trigger] rows_view(rows@)[j].0 != name@ by {
                assert(name_seen(entries@, i as int, rv[j].0));
                let a = choose|a: int| 0 <= a < i && entries@[a].0@ == rv[j].0;
                assert(entries@[a].0@ != entries@[i as int].0@);
            }
            let pos = insertion_point(&rows, s.as_bytes());
            rows.insert(pos, row);
            proof {
                assert(rows_view(rows@) =~= rv.insert(pos as int, row_view(row)));
                lemma_insert_sorted(rv, pos as int, row_view(row));
                let nv = rows_view(rows@);
                assert forall|j: int| 0 <= j < rows@.len() implies #[trigger] row_of(m, nv[j]) by {
                    if j < pos {
                        assert(nv[j] == rv[j]);
                    } else if j > pos {
                        assert(nv[j] == rv[j - 1]);
                    }
                }
                assert forall|j: int| 0 <= j < rows@.len() implies name_seen(entries@, i + 1, #[trigger] nv[j].0) by {
                    if j != pos {
                        let jj = if j < pos { j } else { j - 1 };
                        assert(nv[j] == rv[jj]);
                        assert(name_seen(entries@, i as int, rv[jj].0));
                        let a = choose|a: int| 0 <= a < i && entries@[a].0@ == rv[jj].0;
                        assert(0 <= a < i + 1 && entries@[a].0@ == nv[j].0);
                    } else {
                        assert(entries@[i as int].0@ == nv[j].0);
                    }
                }
                assert forall|a: int| 0 <= a < i + 1 implies row_named(nv, #[trigger] entries@[a].0@) by {
                    if a < i {
                        assert(row_named(rv, entries@[a].0@));
                        let j = choose|j: int| 0 <= j < rv.len() && rv[j].0 == entries@[a].0@;
                        if j < pos {
                            assert(nv[j] == rv[j]);
                        } else {
                            assert(nv[j + 1] == rv[j]);
                        }
                    } else {
                        assert(nv[pos as int].0 == entries@[a].0@);
                    }
                }
            }
        }
        let report = Report(rows);
        proof {
            assert(report@ == rows_view(rows@));
            assert forall|key: Seq<u8>| #[trigger] m.contains_key(key) implies valid_utf8(key) && exists|j: int| 0 <= j < report@.len() && report@[j].0 == key by {
                assert(table_contents(self.0).contains_key(key));
                let a = choose|a: int| 0 <= a < n && entries@[a].0@ == key;
                assert(row_named(rows_view(rows@), entries@[a].0@));
            }
        }
        Ok(report)
    }

    /// Whether `report` can compute the mean of every station.
    pub fn can_report(&self) -> (ok: bool)
        ensures
            ok == forall|k: Seq<u8>| #[trigger] self@.contains_key(k) ==> mean_computable(self@[k].sum, self@[k].count as int),
    {
        let entries = table_entries(&self.0);
        let n = entries.len();
        for i in 0..n
            invariant
                n == entries@.len(),
                forall|a: int| 0 <= a < n ==> table_contents(self.0).contains_key(#[trigger] entries@[a].0@)
                    && table_contents(self.0)[entries@[a].0@] == *entries@[a].1,
                forall|a: int| 0 <= a < i ==> mean_computable(self@[#[trigger] entries@[a].0@].sum, self@[entries@[a].0@].count as int),
        {
            let stats = entries[i].1;
            assert(self@[entries@[i as int].0@] == stats@);
            if !can_average(stats.sum, stats.count) {
                assert(self@.contains_key(entries@[i as int].0@));
                return false;
            }
        }
        proof {
            assert forall|k: Seq<u8>| #[trigger] self@.contains_key(k) implies mean_computable(self@[k].sum, self@[k].count as int) by {
                assert(table_contents(self.0).contains_key(k));
                let a = choose|a: int| 0 <= a < n && entries@[a].0@ == k;
                assert(mean_computable(self@[entries@[a].0@].sum, self@[entries@[a].0@].count as int));
            }
        }
        true
    }
}


/// A table has only one report: the report does not depend on the order in
/// which the hash table hands out its entries.
pub proof fn lemma_report_unique(
    m: Map<Seq<u8>, Summary>,
    r1: Seq<(Seq<u8>, int, int, int)>,
    r2: Seq<(Seq<u8>, int, int, int)>,
)
    requires
        is_report_of(m, r1),
        is_report_of(m, r2),
    ensures
        r1 == r2,
    decreases r1.len(),
{
    if r1.len() == 0 {
        if r2.len() > 0 {
            assert(row_of(m, r2[0]));
            assert(m.contains_key(r2[0].0));
        }
        assert(r1 =~= r2);
    } else {
        assert(row_of(m, r1[0]));
        let k = r1[0].0;
        assert(m.contains_key(k));
        let j = choose|j: int| 0 <= j < r2.len() && r2[j].0 == k;
        assert(row_of(m, r2[0]));
        let l = choose|l: int| 0 <= l < r1.len() && r1[l].0 == r2[0].0;
        if j > 0 {
            assert(lex_lt(r2[0].0, r2[j].0));
            if l > 0 {
                assert(lex_lt(r1[0].0, r1[l].0));
                lemma_lex_lt_asymmetric(r2[0].0, k);
            } else {
                lemma_lex_lt_irreflexive(k);
            }
        }
        assert(r1[0] == r2[0]);
        let m2 = m.remove(k);
        let s1 = r1.drop_first();
        let s2 = r2.drop_first();
        lemma_report_drop_first(m, r1);
        lemma_report_drop_first(m, r2);
        lemma_report_unique(m2, s1, s2);
        assert(r1 =~= seq![r1[0]] + s1);
        assert(r2 =~= seq![r2[0]] + s2);
    }
}

/// Without its first row, a report is the report of the table without that
/// row's station.
proof fn lemma_report_drop_first(m: Map<Seq<u8>, Summary>, r: Seq<(Seq<u8>, int, int, int)>)
    requires
        is_report_of(m, r),
        r.len() > 0,
    ensures
        is_report_of(m.remove(r[0].0), r.drop_first()),
{
    let k = r[0].0;
    let m2 = m.remove(k);
    let s = r.drop_first();
    assert forall|i: int, j: int| 0 <= i < j < s.len() implies lex_lt(#[trigger] s[i].0, #[trigger] s[j].0) by {
        assert(s[i] == r[i + 1] && s[j] == r[j + 1]);
    }
    assert forall|i: int| 0 <= i < s.len() implies #[trigger] row_of(m2, s[i]) by {
        assert(s[i] == r[i + 1]);
        assert(row_of(m, r[i + 1]));
        assert(lex_lt(r[0].0, r[i + 1].0));
        if r[i + 1].0 == k {
            lemma_lex_lt_irreflexive(k);
        }
    }
    assert forall|key: Seq<u8>| #[trigger] m2.contains_key(key) implies exists|i: int| 0 <= i < s.len() && s[i].0 == key by {
        assert(m.contains_key(key));
        let i = choose|i: int| 0 <= i < r.len() && r[i].0 == key;
        assert(i != 0);
        assert(s[i - 1] == r[i]);
    }
}


/// A temperature of at most three digits, written in the decimal form of
/// the report, reads back as the same temperature, whatever follows it.
pub proof fn lemma_render_then_parse(v: int, rest: Seq<u8>)
    requires
        -999 <= v <= 999,
    ensures
        crate::value::spec_parse_value(render_decimal(v) + rest) == Some((v, rest)),
{
    reveal(crate::value::spec_parse_value);
    let a = abs_value(v);
    let ip = a / 10;
    let f = a % 10;
    let d = render_decimal(v) + rest;
    if ip < 10 {
        assert(decimal_digits(ip as nat) == seq![(48 + ip) as u8]);
        if v < 0 {
            assert(render_decimal(v) =~= seq![45u8, (48 + ip) as u8, 46u8, (48 + f) as u8]);
            assert(d.skip(4) =~= rest);
        } else {
            assert(render_decimal(v) =~= seq![(48 + ip) as u8, 46u8, (48 + f) as u8]);
            assert(d.skip(3) =~= rest);
        }
    } else {
        let hi = ip / 10;
        let lo = ip % 10;
        assert(hi < 10);
        assert(decimal_digits(hi as nat) == seq![(48 + hi) as u8]);
        assert(decimal_digits(ip as nat) =~= seq![(48 + hi) as u8, (48 + lo) as u8]);
        if v < 0 {
            assert(render_decimal(v) =~= seq![45u8, (48 + hi) as u8, (48 + lo) as u8, 46u8, (48 + f) as u8]);
            assert(d.skip(5) =~= rest);
        } else {
            assert(render_decimal(v) =~= seq![(48 + hi) as u8, (48 + lo) as u8, 46u8, (48 + f) as u8]);
            assert(d.skip(4) =~= rest);
        }
    }
}


/// A rounded mean of values between `lo` and `hi` lies between them too.
pub proof fn lemma_rounded_mean_between(sum: int, count: int, lo: int, hi: int)
    requires
        count >= 1,
        lo * count <= sum <= hi * count,
    ensures
        lo <= rounded_mean(sum, count) <= hi,
{
    let x = 2 * sum + count;
    let d = 2 * count;
    vstd::arithmetic::div_mod::lemma_fundamental_div_mod(x, d);
    let q = x / d;
    let r = x % d;
    assert(0 <= r < d);
    assert(lo <= q) by (nonlinear_arith)
        requires
            x == d * q + r,
            0 <= r < d,
            d == 2 * count,
            x == 2 * sum + count,
            lo * count <= sum,
            count >= 1,
    ;
    assert(q <= hi) by (nonlinear_arith)
        requires
            x == d * q + r,
            0 <= r < d,
            d == 2 * count,
            x == 2 * sum + count,
            sum <= hi * count,
            count >= 1,
    ;
}

/// In the table of any records, the rounded mean of every station lies
/// between its minimum and its maximum.
pub proof fn lemma_tally_mean_between(rs: Seq<(Seq<u8>, int)>, k: Seq<u8>)
    requires
        tally(rs).contains_key(k),
    ensures
        tally(rs)[k].min <= rounded_mean(tally(rs)[k].sum, tally(rs)[k].count as int) <= tally(rs)[k].max,
{
    crate::summary::lemma_tally_nonempty(rs, k);
    crate::summary::lemma_tally_sum_bounds(rs, k);
    lemma_rounded_mean_between(tally(rs)[k].sum, tally(rs)[k].count as int, tally(rs)[k].min, tally(rs)[k].max);
}

} // verus!
