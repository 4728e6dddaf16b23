//! The mathematical model of the statistics: what is known of one station
//! after some measurements, and of all stations after a sequence of lines.

use vstd::prelude::*;

verus! {

/// What is kept of the measurements of one station: their minimum,
/// maximum, sum and number, as unbounded integers.
pub struct Summary {
    pub min: int,
    pub max: int,
    pub sum: int,
    pub count: nat,
}

/// The summary of a single measurement.
pub open spec fn single(v: int) -> Summary {
    Summary { min: v, max: v, sum: v, count: 1 }
}

/// The summary of the measurements of `a` and `b` together.
pub open spec fn combine(a: Summary, b: Summary) -> Summary {
    Summary {
        min: if a.min <= b.min { a.min } else { b.min },
        max: if a.max >= b.max { a.max } else { b.max },
        sum: a.sum + b.sum,
        count: a.count + b.count,
    }
}

/// The table after one more measurement `v` of station `name`.
pub open spec fn record(m: Map<Seq<u8>, Summary>, name: Seq<u8>, v: int) -> Map<Seq<u8>, Summary> {
    if m.contains_key(name) {
        m.insert(name, combine(m[name], single(v)))
    } else {
        m.insert(name, single(v))
    }
}

/// The table of a sequence of `(station, measurement)` records, taken in order.
pub open spec fn tally(rs: Seq<(Seq<u8>, int)>) -> Map<Seq<u8>, Summary>
    decreases rs.len(),
{
    if rs.len() == 0 {
        Map::empty()
    } else {
        record(tally(rs.drop_last()), rs.last().0, rs.last().1)
    }
}

/// The table of the measurements of two tables together: stations in both
/// have their summaries combined.
pub open spec fn merge(a: Map<Seq<u8>, Summary>, b: Map<Seq<u8>, Summary>) -> Map<Seq<u8>, Summary> {
    Map::new(
        |k: Seq<u8>| a.contains_key(k) || b.contains_key(k),
        |k: Seq<u8>|
            if a.contains_key(k) && b.contains_key(k) {
                combine(a[k], b[k])
            } else if a.contains_key(k) {
                a[k]
            } else {
                b[k]
            },
    )
}

/// Whether a summary can be held in a `StationStats`: minimum and maximum
/// in `i16`, sum in `i32`, count in `usize`.
pub open spec fn summary_fits(s: Summary) -> bool {
    &&& i16::MIN <= s.min <= i16::MAX
    &&& i16::MIN <= s.max <= i16::MAX
    &&& i32::MIN <= s.sum <= i32::MAX
    &&& s.count <= usize::MAX
}

/// Whether recording `v` for `name` in `m` keeps that station's summary
/// within the machine types.
pub open spec fn record_fits(m: Map<Seq<u8>, Summary>, name: Seq<u8>, v: int) -> bool {
    summary_fits(record(m, name, v)[name])
}

/// Whether every step of tallying `rs` in order stays within the machine
/// types.
pub open spec fn tally_fits(rs: Seq<(Seq<u8>, int)>) -> bool {
    forall|k: int| 0 <= k < rs.len() ==> #[trigger] record_fits(tally(rs.take(k)), rs[k].0, rs[k].1)
}

/// Whether merging `a` and `b` keeps every combined summary within the
/// machine types.
pub open spec fn merge_fits(a: Map<Seq<u8>, Summary>, b: Map<Seq<u8>, Summary>) -> bool {
    forall|k: Seq<u8>| a.contains_key(k) && b.contains_key(k) ==> summary_fits(#[trigger] combine(a[k], b[k]))
}

/// Summaries can be combined in any grouping.
pub proof fn lemma_combine_associative(a: Summary, b: Summary, c: Summary)
    ensures
        combine(combine(a, b), c) == combine(a, combine(b, c)),
{
}

/// Summaries can be combined in any order.
pub proof fn lemma_combine_commutative(a: Summary, b: Summary)
    ensures
        combine(a, b) == combine(b, a),
{
}

/// Merging with an empty table changes nothing.
pub proof fn lemma_merge_empty(a: Map<Seq<u8>, Summary>)
    ensures
        merge(a, Map::empty()) == a,
        merge(Map::empty(), a) == a,
{
    assert(merge(a, Map::empty()) =~= a);
    assert(merge(Map::empty(), a) =~= a);
}

/// Tables can be merged in any order.
pub proof fn lemma_merge_commutative(a: Map<Seq<u8>, Summary>, b: Map<Seq<u8>, Summary>)
    ensures
        merge(a, b) == merge(b, a),
{
    assert(merge(a, b) =~= merge(b, a));
}

/// Tables can be merged in any grouping.
pub proof fn lemma_merge_associative(
    a: Map<Seq<u8>, Summary>,
    b: Map<Seq<u8>, Summary>,
    c: Map<Seq<u8>, Summary>,
)
    ensures
        merge(merge(a, b), c) == merge(a, merge(b, c)),
{
    assert(merge(merge(a, b), c) =~= merge(a, merge(b, c)));
}

/// Recording after a merge is recording into the second table, then merging.
pub proof fn lemma_record_merge(a: Map<Seq<u8>, Summary>, b: Map<Seq<u8>, Summary>, name: Seq<u8>, v: int)
    ensures
        record(merge(a, b), name, v) == merge(a, record(b, name, v)),
{
    assert(record(merge(a, b), name, v) =~= merge(a, record(b, name, v)));
}

/// The table of two sequences of records, one after the other, is the
/// merge of their tables: the records may be split into chunks, each chunk
/// tallied on its own, and the tables merged.
pub proof fn lemma_tally_append(xs: Seq<(Seq<u8>, int)>, ys: Seq<(Seq<u8>, int)>)
    ensures
        tally(xs + ys) == merge(tally(xs), tally(ys)),
    decreases ys.len(),
{
    if ys.len() == 0 {
        assert(xs + ys =~= xs);
        lemma_merge_empty(tally(xs));
    } else {
        let ys0 = ys.drop_last();
        lemma_tally_append(xs, ys0);
        assert((xs + ys).drop_last() =~= xs + ys0);
        assert((xs + ys).last() == ys.last());
        lemma_record_merge(tally(xs), tally(ys0), ys.last().0, ys.last().1);
    }
}

/// The table of a sequence of records does not depend on the order of
/// its parts.
pub proof fn lemma_tally_swap(xs: Seq<(Seq<u8>, int)>, ys: Seq<(Seq<u8>, int)>)
    ensures
        tally(xs + ys) == tally(ys + xs),
{
    lemma_tally_append(xs, ys);
    lemma_tally_append(ys, xs);
    lemma_merge_commutative(tally(xs), tally(ys));
}

/// Every station in the table of `rs` has a summary of at least one
/// measurement, whose minimum is at most its maximum.
pub proof fn lemma_tally_nonempty(rs: Seq<(Seq<u8>, int)>, k: Seq<u8>)
    requires
        tally(rs).contains_key(k),
    ensures
        tally(rs)[k].count >= 1,
        tally(rs)[k].min <= tally(rs)[k].max,
    decreases rs.len(),
{
    if rs.len() > 0 {
        let r = rs.last();
        if k != r.0 {
            lemma_tally_nonempty(rs.drop_last(), k);
        } else if tally(rs.drop_last()).contains_key(k) {
            lemma_tally_nonempty(rs.drop_last(), k);
        }
    }
}


/// The sum of a station's measurements lies between `count` times its
/// minimum and `count` times its maximum.
pub proof fn lemma_tally_sum_bounds(rs: Seq<(Seq<u8>, int)>, k: Seq<u8>)
    requires
        tally(rs).contains_key(k),
    ensures
        tally(rs)[k].min * tally(rs)[k].count <= tally(rs)[k].sum <= tally(rs)[k].max * tally(rs)[k].count,
    decreases rs.len(),
{
    if rs.len() > 0 {
        let r = rs.last();
        let prev = tally(rs.drop_last());
        if k != r.0 || prev.contains_key(k) {
            lemma_tally_sum_bounds(rs.drop_last(), k);
        }
        if k == r.0 && !prev.contains_key(k) {
            let t = tally(rs)[k];
            assert(t == single(r.1));
            assert(t.min * t.count == r.1) by (nonlinear_arith)
                requires
                    t.min == r.1,
                    t.count == 1,
            ;
            assert(t.max * t.count == r.1) by (nonlinear_arith)
                requires
                    t.max == r.1,
                    t.count == 1,
            ;
        }
        if k != r.0 {
            assert(tally(rs)[k] == prev[k]);
        }
        if k == r.0 && prev.contains_key(k) {
            let s = prev[k];
            let t = tally(rs)[k];
            assert(t == combine(s, single(r.1)));
            assert(t.min * t.count <= t.sum <= t.max * t.count) by (nonlinear_arith)
                requires
                    s.min * s.count <= s.sum <= s.max * s.count,
                    t.min <= s.min,
                    t.min <= r.1,
                    t.max >= s.max,
                    t.max >= r.1,
                    t.sum == s.sum + r.1,
                    t.count == s.count + 1,
                    s.count >= 0,
            ;
        }
    }
}


/// How many of the records `rs` are of station `k`.
pub open spec fn count_of(rs: Seq<(Seq<u8>, int)>, k: Seq<u8>) -> nat
    decreases rs.len(),
{
    if rs.len() == 0 {
        0
    } else {
        count_of(rs.drop_last(), k) + if rs.last().0 == k { 1nat } else { 0nat }
    }
}

/// The sum of the measurements of station `k` among the records `rs`.
pub open spec fn sum_of(rs: Seq<(Seq<u8>, int)>, k: Seq<u8>) -> int
    decreases rs.len(),
{
    if rs.len() == 0 {
        0
    } else {
        sum_of(rs.drop_last(), k) + if rs.last().0 == k { rs.last().1 } else { 0 }
    }
}

/// The table of a sequence of records, as recording them one by one into
/// an empty table builds it, holds exactly the stations that occur in the
/// records. The summary of each is the least and the greatest of its
/// measurements, their sum and their number.
pub proof fn lemma_tally_closed_form(rs: Seq<(Seq<u8>, int)>, k: Seq<u8>)
    ensures
        tally(rs).contains_key(k) <==> exists|i: int| 0 <= i < rs.len() && (#[trigger] rs[i]).0 == k,
        !tally(rs).contains_key(k) ==> count_of(rs, k) == 0 && sum_of(rs, k) == 0,
        tally(rs).contains_key(k) ==> {
            let s = tally(rs)[k];
            &&& s.count == count_of(rs, k)
            &&& s.sum == sum_of(rs, k)
            &&& forall|i: int| 0 <= i < rs.len() && (#[trigger] rs[i]).0 == k ==> s.min <= rs[i].1 <= s.max
            &&& exists|i: int| 0 <= i < rs.len() && (#[trigger] rs[i]).0 == k && rs[i].1 == s.min
            &&& exists|i: int| 0 <= i < rs.len() && (#[trigger] rs[i]).0 == k && rs[i].1 == s.max
        },
    decreases rs.len(),
{
    if rs.len() > 0 {
        let p = rs.drop_last();
        let r = rs.last();
        let last = rs.len() - 1;
        lemma_tally_closed_form(p, k);
        assert(rs[last] == r);
        assert(forall|i: int| 0 <= i < p.len() ==> #[trigger] rs[i] == p[i]);
        if k == r.0 {
            if tally(p).contains_key(k) {
                let a = tally(p)[k];
                let s = tally(rs)[k];
                assert(s == combine(a, single(r.1)));
                let wmin = choose|i: int| 0 <= i < p.len() && (#[trigger] p[i]).0 == k && p[i].1 == a.min;
                let wmax = choose|i: int| 0 <= i < p.len() && (#[trigger] p[i]).0 == k && p[i].1 == a.max;
                if s.min == a.min {
                    assert(rs[wmin].0 == k && rs[wmin].1 == s.min);
                } else {
                    assert(rs[last].0 == k && rs[last].1 == s.min);
                }
                if s.max == a.max {
                    assert(rs[wmax].0 == k && rs[wmax].1 == s.max);
                } else {
                    assert(rs[last].0 == k && rs[last].1 == s.max);
                }
                assert forall|i: int| 0 <= i < rs.len() && (#[trigger] rs[i]).0 == k implies s.min <= rs[i].1 <= s.max by {
                    if i < last {
                        assert(p[i].0 == k);
                    }
                }
            } else {
                let s = tally(rs)[k];
                assert(s == single(r.1));
                assert(rs[last].0 == k);
                assert forall|i: int| 0 <= i < rs.len() && (#[trigger] rs[i]).0 == k implies s.min <= rs[i].1 <= s.max by {
                    if i < last {
                        assert(p[i].0 == k);
                    }
                }
            }
        } else {
            assert(tally(rs).contains_key(k) == tally(p).contains_key(k));
            if tally(p).contains_key(k) {
                assert(tally(rs)[k] == tally(p)[k]);
                let a = tally(p)[k];
                let wmin = choose|i: int| 0 <= i < p.len() && (#[trigger] p[i]).0 == k && p[i].1 == a.min;
                let wmax = choose|i: int| 0 <= i < p.len() && (#[trigger] p[i]).0 == k && p[i].1 == a.max;
                assert(rs[wmin].0 == k && rs[wmin].1 == a.min);
                assert(rs[wmax].0 == k && rs[wmax].1 == a.max);
                assert forall|i: int| 0 <= i < rs.len() && (#[trigger] rs[i]).0 == k implies a.min <= rs[i].1 <= a.max by {
                    assert(i < last);
                    assert(p[i].0 == k);
                }
            }
            if exists|i: int| 0 <= i < rs.len() && (#[trigger] rs[i]).0 == k {
                let w = choose|i: int| 0 <= i < rs.len() && (#[trigger] rs[i]).0 == k;
                assert(w < last);
                assert(p[w].0 == k);
            }
            if exists|i: int| 0 <= i < p.len() && (#[trigger] p[i]).0 == k {
                let w = choose|i: int| 0 <= i < p.len() && (#[trigger] p[i]).0 == k;
                assert(rs[w].0 == k);
            }
        }
    }
}

} // verus!
