//! Processing the measurements file: splitting it into chunks at line
//! boundaries, turning each chunk into per-station statistics, and the
//! report of the merged statistics.

use vstd::prelude::*;
use crate::search::{first_index_of, position};
use crate::station_name::{self, spec_parse_name};
use crate::stats::StationStatsMap;
use crate::summary::{Summary, lemma_merge_empty, lemma_tally_append, merge, merge_fits, record_fits, tally, tally_fits};
use crate::value::{self, spec_parse_value};

verus! {

/// Position of the first `needle` in `haystack`.
pub fn memchr(needle: u8, haystack: &[u8]) -> (res: Option<usize>)
    ensures
        match res {
            Some(i) => first_index_of(haystack@, needle) == Some(i as int),
            None => first_index_of(haystack@, needle) is None,
        },
{
    position(needle, haystack)
}

/// `d` without a line break at its start.
pub open spec fn spec_strip_newline(d: Seq<u8>) -> Seq<u8> {
    if d.len() > 0 && d[0] == 10 {
        d.drop_first()
    } else {
        d
    }
}

/// `d` without a line break at its start.
pub fn strip_newline(d: &[u8]) -> (res: &[u8])
    ensures
        res@ == spec_strip_newline(d@),
{
    if d.len() > 0 && d[0] == 10 {
        &d[1..d.len()]
    } else {
        d
    }
}

/// What is wrong with a line.
#[derive(Debug, PartialEq, Eq, Structural)]
pub enum LineFault {
    /// No `;` after the first byte among the first bytes of the line, or
    /// a line of fewer than two bytes.
    NoSemicolon,
    /// No temperature after the `;`.
    NoValue,
}

/// The line at the start of `d`: its station name, its temperature and
/// what follows its line break; or what is wrong with it, with the bytes
/// from where the problem was found.
#[verifier::opaque]
pub open spec fn spec_parse_line(d: Seq<u8>) -> Result<(Seq<u8>, int, Seq<u8>), (LineFault, Seq<u8>)> {
    match spec_parse_name(d) {
        None => Err((LineFault::NoSemicolon, d)),
        Some((name, rest)) => match spec_parse_value(rest) {
            None => Err((LineFault::NoValue, rest)),
            Some((v, r)) => Ok((name, v, spec_strip_newline(r))),
        },
    }
}

/// The records of the lines of `d`, in order, up to the first faulty line,
/// and that line's fault if there is one.
#[verifier::opaque]
pub open spec fn scan(d: Seq<u8>) -> (Seq<(Seq<u8>, int)>, Option<(LineFault, Seq<u8>)>)
    decreases d.len(),
{
    if d.len() == 0 {
        (Seq::empty(), None)
    } else {
        match spec_parse_line(d) {
            Err(f) => (Seq::empty(), Some(f)),
            Ok((name, v, rest)) => if rest.len() < d.len() {
                (seq![(name, v)] + scan(rest).0, scan(rest).1)
            } else {
                (Seq::empty(), None)
            },
        }
    }
}

/// A parsed line is shorter than what it was parsed from.
pub proof fn lemma_parse_line_shrinks(d: Seq<u8>)
    ensures
        spec_parse_line(d) matches Ok((name, v, rest)) ==> rest.len() < d.len(),
{
    reveal(spec_parse_line);
    if let Some((name, rest)) = spec_parse_name(d) {
        crate::station_name::lemma_parse_name_shape(d);
        if spec_parse_value(rest) is Some {
            crate::value::lemma_parse_value_shape(rest);
        }
    }
}

/// Why a chunk could not be processed.
#[derive(Debug)]
pub enum ChunkError {
    /// A line is faulty; `at` is the offset in the chunk of the bytes from
    /// where the fault was found.
    Invalid { fault: LineFault, at: usize },
    /// Recording line number `line` (counted from 0) would take its
    /// station's sum or count beyond the machine types.
    Overflow { line: usize },
}

/// Parses the line at the start of `d`: its station name, temperature and
/// what follows its line break; or its fault, with the offset in `d` of
/// the bytes from where the fault was found.
pub fn parse_line(d: &[u8]) -> (res: Result<(&[u8], i16, &[u8]), (LineFault, usize)>)
    ensures
        match res {
            Ok((name, v, rest)) => spec_parse_line(d@) == Ok::<(Seq<u8>, int, Seq<u8>), (LineFault, Seq<u8>)>((name@, v as int, rest@))
                && rest@ == d@.skip(d@.len() - rest@.len()) && rest@.len() < d@.len(),
            Err((fault, at)) => at <= d@.len() && spec_parse_line(d@) == Err::<(Seq<u8>, int, Seq<u8>), (LineFault, Seq<u8>)>((fault, d@.skip(at as int))),
        },
{
    reveal(spec_parse_line);
    let (name, rest) = match station_name::parse(d) {
        Some(p) => p,
        None => {
            assert(d@.skip(0) =~= d@);
            return Err((LineFault::NoSemicolon, 0));
        },
    };
    proof {
        crate::station_name::lemma_parse_name_shape(d@);
    }
    let (value, rest2) = match value::parse(rest) {
        Some(p) => p,
        None => {
            let at = d.len() - rest.len();
            assert(rest@ =~= d@.skip(at as int));
            return Err((LineFault::NoValue, at));
        },
    };
    let rest3 = strip_newline(rest2);
    proof {
        crate::value::lemma_parse_value_shape(rest@);
        assert(rest2@ =~= d@.skip(d@.len() - rest2@.len()));
        lemma_parse_line_shrinks(d@);
        assert(rest3@ =~= d@.skip(d@.len() - rest3@.len()));
    }
    Ok((name, value, rest3))
}

/// Scanning a line that parses gives its record, then the records of the
/// rest.
proof fn lemma_scan_step(d: Seq<u8>)
    requires
        d.len() > 0,
        spec_parse_line(d) is Ok,
    ensures
        ({
            let (name, v, rest) = spec_parse_line(d)->Ok_0;
            scan(d) == (seq![(name, v)] + scan(rest).0, scan(rest).1)
        }),
{
    lemma_parse_line_shrinks(d);
    reveal(scan);
}

/// Scanning a faulty line gives no records and its fault.
proof fn lemma_scan_fault(d: Seq<u8>)
    requires
        d.len() > 0,
        spec_parse_line(d) is Err,
    ensures
        scan(d) == (Seq::<(Seq<u8>, int)>::empty(), Some(spec_parse_line(d)->Err_0)),
{
    reveal(scan);
}

/// Scanning nothing gives nothing.
proof fn lemma_scan_empty(d: Seq<u8>)
    requires
        d.len() == 0,
    ensures
        scan(d) == (Seq::<(Seq<u8>, int)>::empty(), None::<(LineFault, Seq<u8>)>),
{
    reveal(scan);
}

/// Recording one more line whose step fits keeps every step fitting.
proof fn lemma_tally_fits_push(done: Seq<(Seq<u8>, int)>, rec: (Seq<u8>, int))
    requires
        tally_fits(done),
        record_fits(tally(done), rec.0, rec.1),
    ensures
        tally_fits(done.push(rec)),
{
    let next = done.push(rec);
    assert(next.take(done.len() as int) =~= done);
    assert forall|k: int| 0 <= k < next.len() implies #[trigger] record_fits(tally(next.take(k)), next[k].0, next[k].1) by {
        if k < done.len() {
            assert(next.take(k) =~= done.take(k));
            assert(next[k] == done[k]);
        }
    }
}

/// The statistics of the lines of `input_data` and the number of lines.
#[verifier::rlimit(40)]
pub fn process(input_data: &[u8]) -> (res: Result<(StationStatsMap, usize), ChunkError>)
    ensures
        match res {
            Ok((stats, lines)) => {
                &&& scan(input_data@).1 is None
                &&& tally_fits(scan(input_data@).0)
                &&& stats@ == tally(scan(input_data@).0)
                &&& lines == scan(input_data@).0.len()
            },
            Err(ChunkError::Invalid { fault, at }) => {
                &&& tally_fits(scan(input_data@).0)
                &&& at <= input_data@.len()
                &&& scan(input_data@).1 == Some((fault, input_data@.skip(at as int)))
            },
            Err(ChunkError::Overflow { line }) => {
                let rs = scan(input_data@).0;
                &&& line < rs.len()
                &&& tally_fits(rs.take(line as int))
                &&& !record_fits(tally(rs.take(line as int)), rs[line as int].0, rs[line as int].1)
            },
        },
{
    let ghost orig = input_data@;
    let mut data = input_data;
    let mut stats = StationStatsMap::new();
    let mut count: usize = 0;
    let ghost mut done: Seq<(Seq<u8>, int)> = Seq::empty();
    assert(orig.skip(0) =~= orig);
    assert(done + scan(data@).0 =~= scan(data@).0);
    while data.len() > 0
        invariant
            orig == input_data@,
            data@.len() <= orig.len(),
            data@ == orig.skip(orig.len() - data@.len()),
            scan(orig) == (done + scan(data@).0, scan(data@).1),
            tally_fits(done),
            stats@ == tally(done),
            count == done.len(),
            count <= orig.len() - data@.len(),
        decreases data@.len(),
    {
        let off = input_data.len() - data.len();
        let (name, value, rest) = match parse_line(data) {
            Ok(p) => p,
            Err((fault, at)) => {
                proof {
                    lemma_scan_fault(data@);
                }
                assert(done + Seq::<(Seq<u8>, int)>::empty() =~= done);
                assert(data@.skip(at as int) =~= orig.skip(off + at));
                return Err(ChunkError::Invalid { fault, at: off + at });
            },
        };
        let ghost rec = (name@, value as int);
        let ghost next = done.push(rec);
        proof {
            lemma_scan_step(data@);
            assert(done + (seq![rec] + scan(rest@).0) =~= next + scan(rest@).0);
        }
        if !stats.try_update(name, value) {
            proof {
                assert(scan(orig).0.take(count as int) =~= done);
                assert(scan(orig).0[count as int] == rec);
            }
            return Err(ChunkError::Overflow { line: count });
        }
        proof {
            lemma_tally_fits_push(done, rec);
            assert(next.drop_last() =~= done);
            assert(rest@ =~= orig.skip(orig.len() - rest@.len()));
        }
        data = rest;
        count = count + 1;
        proof {
            done = next;
        }
    }
    proof {
        lemma_scan_empty(data@);
        assert(done + Seq::<(Seq<u8>, int)>::empty() =~= done);
    }
    Ok((stats, count))
}

/// The size of a chunk when `len` bytes are split into `count` chunks:
/// `len / count` rounded up.
pub open spec fn chunk_size(len: int, count: int) -> int {
    len / count + if len % count == 0 { 0int } else { 1int }
}

/// `e` ends a chunk whose tentative end is `t` in `d`: it is one past the
/// first line break at or after `t`, or the end of `d` when there is none.
pub open spec fn line_end_after(d: Seq<u8>, t: int, e: int) -> bool {
    ||| (e == d.len() && forall|j: int| t <= j < d.len() ==> d[j] != 10)
    ||| (t < e <= d.len() && d[e - 1] == 10 && forall|j: int| t <= j < e - 1 ==> d[j] != 10)
}

/// The smaller of `a` and `b`.
pub open spec fn min_int(a: int, b: int) -> int {
    if a <= b {
        a
    } else {
        b
    }
}

/// `bounds` splits `d` into `count` chunks as the file reader does: each
/// chunk starts where the previous one ended (the first at 0) and runs to
/// the end of the line in which its start plus the chunk size falls.
pub open spec fn is_chunking(d: Seq<u8>, count: int, bounds: Seq<(usize, usize)>) -> bool {
    &&& bounds.len() == count
    &&& forall|i: int| 0 <= i < count ==> #[trigger] bounds[i].0 == if i == 0 { 0 } else { bounds[i - 1].1 as int }
    &&& forall|i: int| 0 <= i < count ==> #[trigger] bounds[i].0 <= bounds[i].1 <= d.len()
    &&& forall|i: int| 0 <= i < count ==> line_end_after(d, min_int(#[trigger] bounds[i].0 + chunk_size(d.len() as int, count), d.len() as int), bounds[i].1 as int)
}

/// `count` chunks of `chunk_size` bytes cover `len` bytes.
proof fn lemma_chunks_cover(len: int, count: int)
    requires
        len >= 0,
        count >= 1,
    ensures
        count * chunk_size(len, count) >= len,
        0 <= chunk_size(len, count) <= len,
{
    vstd::arithmetic::div_mod::lemma_fundamental_div_mod(len, count);
    let q = len / count;
    let r = len % count;
    assert(0 <= r < count);
    assert(count * chunk_size(len, count) >= len) by (nonlinear_arith)
        requires
            len == count * q + r,
            0 <= r < count,
            chunk_size(len, count) == q + if r == 0 { 0int } else { 1int },
    ;
    assert(q <= len) by (nonlinear_arith)
        requires
            len == count * q + r,
            0 <= r,
            count >= 1,
            len >= 0,
    ;
    if r != 0 {
        assert(count >= 2);
        assert(q + 1 <= len) by (nonlinear_arith)
            requires
                len == count * q + r,
                0 < r < count,
                count >= 2,
                q >= 0,
        ;
    }
}

/// Splits `data` into `count` chunks that end at line breaks, for `count`
/// workers. Every chunk starts where the previous one ended, and the last
/// one ends at the end of `data`: the chunks cover `data` exactly.
#[verifier::rlimit(30)]
pub fn chunk_bounds(data: &[u8], count: usize) -> (bounds: Vec<(usize, usize)>)
    requires
        count >= 1,
    ensures
        is_chunking(data@, count as int, bounds@),
        bounds@[count - 1].1 == data@.len(),
{
    let len = data.len();
    proof {
        lemma_chunks_cover(len as int, count as int);
    }
    let chunk_size = len / count + if len % count == 0 { 0 } else { 1 };
    let ghost cs = chunk_size as int;
    let mut bounds: Vec<(usize, usize)> = Vec::new();
    let mut previous_end: usize = 0;
    let ghost mut target: int = 0;
    assert(0 * cs == 0) by (nonlinear_arith);
    for i in 0..count
        invariant
            len == data@.len(),
            cs == chunk_size,
            cs == crate::challenge::chunk_size(len as int, count as int),
            bounds@.len() == i,
            previous_end <= len,
            i == 0 ==> previous_end == 0,
            i > 0 ==> previous_end == bounds@[i - 1].1,
            target == i * cs,
            previous_end >= min_int(target, len as int),
            forall|j: int| 0 <= j < i ==> #[trigger] bounds@[j].0 == if j == 0 { 0 } else { bounds@[j - 1].1 as int },
            forall|j: int| 0 <= j < i ==> #[trigger] bounds@[j].0 <= bounds@[j].1 <= len,
            forall|j: int| 0 <= j < i ==> line_end_after(data@, min_int(#[trigger] bounds@[j].0 + cs, len as int), bounds@[j].1 as int),
    {
        let start = previous_end;
        let tentative_end = if chunk_size <= len - start { start + chunk_size } else { len };
        let tail = &data[tentative_end..len];
        let end = match memchr(10, tail) {
            Some(idx) => {
                proof {
                    crate::search::lemma_first_index_of_spec(tail@, 10);
                    assert forall|j: int| tentative_end <= j < tentative_end + idx implies data@[j] != 10 by {
                        assert(data@[j] == tail@[j - tentative_end]);
                    }
                    assert(data@[tentative_end + idx] == tail@[idx as int]);
                }
                tentative_end + idx + 1
            },
            None => {
                proof {
                    crate::search::lemma_first_index_of_spec(tail@, 10);
                    assert forall|j: int| tentative_end <= j < len implies data@[j] != 10 by {
                        assert(data@[j] == tail@[j - tentative_end]);
                    }
                }
                len
            },
        };
        bounds.push((start, end));
        proof {
            assert((i + 1) * cs == i * cs + cs) by (nonlinear_arith);
            target = target + cs;
            assert(bounds@[i as int] == (start, end));
            assert(start <= tentative_end <= end <= len);
            assert(bounds@[i as int].0 <= bounds@[i as int].1 <= len);
        }
        previous_end = end;
    }
    proof {
        assert(count * cs >= len);
        assert(bounds@.len() == count);
    }
    bounds
}

/// A line that parses reads the same when more bytes follow it, provided
/// its line break, or what follows it, is part of it.
#[verifier::rlimit(30)]
pub proof fn lemma_parse_line_extend(d: Seq<u8>, x: Seq<u8>)
    requires
        spec_parse_line(d) is Ok,
        spec_parse_line(d)->Ok_0.2.len() > 0 || (d.len() > 0 && d.last() == 10),
    ensures
        ({
            let (n, v, rest) = spec_parse_line(d)->Ok_0;
            &&& spec_parse_line(d + x) == Ok::<(Seq<u8>, int, Seq<u8>), (LineFault, Seq<u8>)>((n, v, rest + x))
            &&& rest.len() < d.len()
            &&& rest == d.skip(d.len() - rest.len())
        }),
{
    reveal(spec_parse_line);
    crate::station_name::lemma_parse_name_extend(d, x);
    let (n, s) = spec_parse_name(d)->Some_0;
    assert(spec_parse_name(d + x) == Some((n, s + x)));
    assert(spec_parse_value(s) is Some);
    crate::value::lemma_parse_value_shape(s);
    let (v, t) = spec_parse_value(s)->Some_0;
    let rest = spec_strip_newline(t);
    assert(spec_parse_line(d) == Ok::<(Seq<u8>, int, Seq<u8>), (LineFault, Seq<u8>)>((n, v, rest)));
    assert(t.len() > 0) by {
        if t.len() == 0 {
            assert(rest.len() == 0);
            assert(s.last() == d.last());
            assert(s[s.len() - t.len() - 1] == d.last());
        }
    }
    lemma_extend_tail(d, x, n, s, v, t);
}

/// The last steps of `lemma_parse_line_extend`, once name and value are read.
proof fn lemma_extend_tail(d: Seq<u8>, x: Seq<u8>, n: Seq<u8>, s: Seq<u8>, v: int, t: Seq<u8>)
    requires
        spec_parse_name(d) == Some((n, s)),
        spec_parse_name(d + x) == Some((n, s + x)),
        n.len() < d.len(),
        s == d.skip(n.len() as int + 1),
        spec_parse_value(s) == Some((v, t)),
        t.len() > 0,
    ensures
        spec_parse_line(d + x) == Ok::<(Seq<u8>, int, Seq<u8>), (LineFault, Seq<u8>)>((n, v, spec_strip_newline(t) + x)),
        spec_strip_newline(t).len() < d.len(),
        spec_strip_newline(t) == d.skip(d.len() - spec_strip_newline(t).len()),
{
    reveal(spec_parse_line);
    crate::value::lemma_parse_value_extend(s, x);
    assert(spec_parse_value(s + x) == Some((v, t + x)));
    if t[0] == 10 {
        assert((t + x).drop_first() =~= t.drop_first() + x);
    }
    assert(spec_strip_newline(t + x) == spec_strip_newline(t) + x);
    assert(t =~= d.skip(d.len() - t.len()));
    if t[0] == 10 {
        assert(t.drop_first() =~= d.skip(d.len() - t.drop_first().len()));
    }
}

/// Scanning bytes that end with a complete line, then more bytes, gives the
/// records of the first bytes, then those of the others.
#[verifier::rlimit(30)]
pub proof fn lemma_scan_append(d1: Seq<u8>, d2: Seq<u8>)
    requires
        scan(d1).1 is None,
        d1.len() == 0 || d1.last() == 10,
    ensures
        scan(d1 + d2) == (scan(d1).0 + scan(d2).0, scan(d2).1),
    decreases d1.len(),
{
    if d1.len() == 0 {
        assert(d1 + d2 =~= d2);
        lemma_scan_empty(d1);
        assert(scan(d1).0 + scan(d2).0 =~= scan(d2).0);
    } else {
        if spec_parse_line(d1) is Err {
            lemma_scan_fault(d1);
        }
        let (n, v, rest) = spec_parse_line(d1)->Ok_0;
        lemma_parse_line_extend(d1, d2);
        lemma_scan_step(d1);
        lemma_scan_step(d1 + d2);
        if rest.len() > 0 {
            assert(rest.last() == d1.last());
        }
        lemma_scan_append(rest, d2);
        assert(seq![(n, v)] + (scan(rest).0 + scan(d2).0) =~= (seq![(n, v)] + scan(rest).0) + scan(d2).0);
    }
}

/// The chunks, one after the other.
pub open spec fn concat_chunks(cs: Seq<Seq<u8>>) -> Seq<u8>
    decreases cs.len(),
{
    if cs.len() == 0 {
        Seq::empty()
    } else {
        concat_chunks(cs.drop_last()) + cs.last()
    }
}

/// The merge of the tables, in order, starting from an empty table.
pub open spec fn merge_tables(ts: Seq<Map<Seq<u8>, Summary>>) -> Map<Seq<u8>, Summary>
    decreases ts.len(),
{
    if ts.len() == 0 {
        Map::empty()
    } else {
        merge(merge_tables(ts.drop_last()), ts.last())
    }
}

/// The table of each chunk on its own.
pub open spec fn chunk_tables(cs: Seq<Seq<u8>>) -> Seq<Map<Seq<u8>, Summary>> {
    cs.map_values(|c: Seq<u8>| tally(scan(c).0))
}

/// Every chunk that some later non-empty chunk follows is empty or ends
/// with a line break.
pub open spec fn breaks_at_lines(cs: Seq<Seq<u8>>) -> bool {
    forall|i: int, j: int|
        0 <= i < j < cs.len() && (#[trigger] cs[j]).len() > 0 ==> (#[trigger] cs[i]).len() == 0 || cs[i].last() == 10
}

/// Chunks before a non-empty chunk end, together, with a line break.
proof fn lemma_concat_ends_with_break(cs: Seq<Seq<u8>>, m: int, j: int)
    requires
        breaks_at_lines(cs),
        0 <= m <= j < cs.len(),
        cs[j].len() > 0,
    ensures
        concat_chunks(cs.take(m)).len() == 0 || concat_chunks(cs.take(m)).last() == 10,
    decreases m,
{
    if m > 0 {
        lemma_concat_ends_with_break(cs, m - 1, j);
        assert(cs.take(m).drop_last() =~= cs.take(m - 1));
        assert(cs.take(m).last() == cs[m - 1]);
        assert(cs[m - 1].len() == 0 || cs[m - 1].last() == 10);
    }
}

/// When every chunk scans without a fault and the chunks break at lines,
/// the whole scans without a fault, and its table is the merge of the
/// tables of the chunks: the chunks may be processed apart, in any number
/// of workers, and their statistics merged.
#[verifier::rlimit(30)]
pub proof fn lemma_chunked_processing(cs: Seq<Seq<u8>>)
    requires
        breaks_at_lines(cs),
        forall|i: int| 0 <= i < cs.len() ==> (#[trigger] scan(cs[i])).1 is None,
    ensures
        scan(concat_chunks(cs)).1 is None,
        tally(scan(concat_chunks(cs)).0) == merge_tables(chunk_tables(cs)),
    decreases cs.len(),
{
    if cs.len() == 0 {
        lemma_scan_empty(concat_chunks(cs));
    } else {
        let init = cs.drop_last();
        let c = cs.last();
        assert(breaks_at_lines(init)) by {
            assert forall|i: int, j: int| 0 <= i < j < init.len() && (#[trigger] init[j]).len() > 0 implies (#[trigger] init[i]).len() == 0 || init[i].last() == 10 by {
                assert(init[i] == cs[i] && init[j] == cs[j]);
            }
        }
        assert forall|i: int| 0 <= i < init.len() implies (#[trigger] scan(init[i])).1 is None by {
            assert(init[i] == cs[i]);
        }
        lemma_chunked_processing(init);
        assert(scan(cs[cs.len() - 1]).1 is None);
        assert(chunk_tables(cs).drop_last() =~= chunk_tables(init));
        let a = concat_chunks(init);
        if c.len() == 0 {
            assert(a + c =~= a);
            lemma_scan_empty(c);
            lemma_merge_empty(tally(scan(a).0));
        } else {
            lemma_concat_ends_with_break(cs, cs.len() - 1, cs.len() - 1);
            assert(cs.take(cs.len() - 1) =~= init);
            lemma_scan_append(a, c);
            lemma_tally_append(scan(a).0, scan(c).0);
        }
    }
}

/// The chunks that `bounds` cuts out of `d`.
pub open spec fn chunks_of(d: Seq<u8>, bounds: Seq<(usize, usize)>) -> Seq<Seq<u8>> {
    Seq::new(bounds.len(), |i: int| d.subrange(bounds[i].0 as int, bounds[i].1 as int))
}

/// Chunk bounds never go back.
proof fn lemma_chunking_monotonic(d: Seq<u8>, count: int, bounds: Seq<(usize, usize)>, i: int, j: int)
    requires
        is_chunking(d, count, bounds),
        0 <= i < j < count,
    ensures
        bounds[i].1 <= bounds[j].0,
    decreases j - i,
{
    assert(bounds[j].0 == bounds[j - 1].1);
    if i < j - 1 {
        lemma_chunking_monotonic(d, count, bounds, i, j - 1);
    }
}

/// The first chunks cut by `bounds` make up `d` up to the end of the last of them.
proof fn lemma_chunking_prefix(d: Seq<u8>, count: int, bounds: Seq<(usize, usize)>, m: int)
    requires
        is_chunking(d, count, bounds),
        1 <= m <= count,
    ensures
        concat_chunks(chunks_of(d, bounds).take(m)) == d.take(bounds[m - 1].1 as int),
    decreases m,
{
    let cs = chunks_of(d, bounds);
    assert(cs.take(m).last() == cs[m - 1]);
    if m == 1 {
        assert(cs.take(1).drop_last() =~= Seq::<Seq<u8>>::empty());
        assert(concat_chunks(cs.take(1)) == concat_chunks(cs.take(1).drop_last()) + cs.take(1).last());
        assert(bounds[0].0 == 0);
        assert(cs[0] == d.subrange(0, bounds[0].1 as int));
        assert(concat_chunks(cs.take(1)) =~= d.take(bounds[0].1 as int));
    } else {
        lemma_chunking_prefix(d, count, bounds, m - 1);
        assert(cs.take(m).drop_last() =~= cs.take(m - 1));
        assert(bounds[m - 1].0 == bounds[m - 2].1);
        assert(concat_chunks(cs.take(m)) =~= d.take(bounds[m - 1].1 as int));
    }
}

/// The chunks of `chunk_bounds` make up the whole input and break at lines.
pub proof fn lemma_chunking_splits_lines(d: Seq<u8>, count: int, bounds: Seq<(usize, usize)>)
    requires
        is_chunking(d, count, bounds),
        count >= 1,
        bounds[count - 1].1 == d.len(),
    ensures
        concat_chunks(chunks_of(d, bounds)) == d,
        breaks_at_lines(chunks_of(d, bounds)),
{
    let cs = chunks_of(d, bounds);
    lemma_chunking_prefix(d, count, bounds, count);
    assert(cs.take(count) =~= cs);
    assert(d.take(d.len() as int) =~= d);
    assert forall|i: int, j: int| 0 <= i < j < cs.len() && (#[trigger] cs[j]).len() > 0 implies (#[trigger] cs[i]).len() == 0 || cs[i].last() == 10 by {
        lemma_chunking_monotonic(d, count, bounds, i, j);
        assert(bounds[i].0 <= bounds[i].1 <= d.len());
        assert(line_end_after(d, min_int(bounds[i].0 + chunk_size(d.len() as int, count), d.len() as int), bounds[i].1 as int));
        if cs[i].len() > 0 && bounds[i].1 < d.len() {
            assert(cs[i].last() == d[bounds[i].1 - 1]);
        }
    }
}

/// Processing the chunks of `chunk_bounds` apart and merging their tables
/// gives the table of the whole input, when every chunk scans without a
/// fault.
pub proof fn lemma_chunk_bounds_processing(d: Seq<u8>, count: int, bounds: Seq<(usize, usize)>)
    requires
        is_chunking(d, count, bounds),
        count >= 1,
        bounds[count - 1].1 == d.len(),
        forall|i: int| 0 <= i < count ==> (#[trigger] scan(chunks_of(d, bounds)[i])).1 is None,
    ensures
        scan(d).1 is None,
        tally(scan(d).0) == merge_tables(chunk_tables(chunks_of(d, bounds))),
{
    lemma_chunking_splits_lines(d, count, bounds);
    lemma_chunked_processing(chunks_of(d, bounds));
}

/// No station name among the records `rs` holds a line break.
pub open spec fn names_unbroken(rs: Seq<(Seq<u8>, int)>) -> bool {
    forall|i: int, j: int| 0 <= i < rs.len() && 0 <= j < rs[i].0.len() ==> #[trigger] rs[i].0[j] != 10
}

/// A line read from `p` followed by `x`, that reads no byte of `x`, reads
/// the same from `p` alone; what is left of `p` is an end of `p`.
proof fn lemma_parse_line_prefix(p: Seq<u8>, x: Seq<u8>)
    requires
        spec_parse_line(p + x) is Ok,
        spec_parse_line(p + x)->Ok_0.2.len() >= x.len(),
    ensures
        ({
            let (n, v, rest) = spec_parse_line(p + x)->Ok_0;
            let r1 = rest.take(rest.len() - x.len());
            &&& spec_parse_line(p) == Ok::<(Seq<u8>, int, Seq<u8>), (LineFault, Seq<u8>)>((n, v, r1))
            &&& rest == r1 + x
            &&& r1 == p.skip(p.len() - r1.len())
        }),
{
    reveal(spec_parse_line);
    let y = p + x;
    let (n, r) = spec_parse_name(y)->Some_0;
    crate::station_name::lemma_parse_name_shape(y);
    crate::value::lemma_parse_value_shape(r);
    let (v, t) = spec_parse_value(r)->Some_0;
    let rest = spec_strip_newline(t);
    assert(t.len() >= x.len());
    assert(n.len() < p.len());
    crate::station_name::lemma_parse_name_prefix(p, x);
    let rp = p.skip(n.len() as int + 1);
    assert(r == rp + x);
    crate::value::lemma_parse_value_prefix(rp, x);
    let tp = t.take(t.len() - x.len());
    assert(spec_parse_value(rp) == Some((v, tp)));
    crate::value::lemma_parse_value_shape(rp);
    assert(tp == rp.skip(rp.len() - tp.len()));
    assert(tp =~= p.skip(p.len() - tp.len()));
    if tp.len() > 0 {
        if tp[0] == 10 {
            assert((tp + x).drop_first() =~= tp.drop_first() + x);
            assert(tp.drop_first() =~= p.skip(p.len() - tp.drop_first().len()));
        }
        assert(spec_strip_newline(t) == spec_strip_newline(tp) + x);
    } else {
        assert(t =~= x);
        assert(spec_strip_newline(tp) =~= tp);
        assert(spec_strip_newline(t) =~= spec_strip_newline(tp) + x);
    }
    assert(rest.take(rest.len() - x.len()) =~= spec_strip_newline(tp));
}

/// A line whose station name holds no line break holds none before its
/// last byte.
proof fn lemma_line_unbroken(d: Seq<u8>)
    requires
        spec_parse_line(d) is Ok,
        forall|j: int| 0 <= j < spec_parse_line(d)->Ok_0.0.len() ==> spec_parse_line(d)->Ok_0.0[j] != 10,
    ensures
        forall|j: int| 0 <= j < d.len() - spec_parse_line(d)->Ok_0.2.len() - 1 ==> d[j] != 10,
{
    reveal(spec_parse_line);
    let (n, r) = spec_parse_name(d)->Some_0;
    crate::station_name::lemma_parse_name_shape(d);
    crate::value::lemma_parse_value_shape(r);
    crate::value::lemma_parse_value_no_break(r);
    let (v, t) = spec_parse_value(r)->Some_0;
    let rest = spec_strip_newline(t);
    assert(rest.len() + 1 >= t.len());
    assert(r.len() == d.len() - n.len() - 1);
    assert forall|j: int| 0 <= j < d.len() - rest.len() - 1 implies d[j] != 10 by {
        if j < n.len() {
            assert(spec_parse_line(d)->Ok_0.0 == n);
            assert(spec_parse_line(d)->Ok_0.0[j] != 10);
            assert(d[j] == n[j]);
        } else if j > n.len() {
            let k = j - n.len() - 1;
            assert(0 <= k < r.len() - t.len());
            assert(r[k] != 10);
            assert(d[j] == r[k]);
        } else {
            assert(d[j] == 59);
        }
    }
}

/// Scanning a fault-free input whose station names hold no line break,
/// cut after a line break, scans the first part without a fault.
proof fn lemma_scan_prefix(d1: Seq<u8>, d2: Seq<u8>)
    requires
        scan(d1 + d2).1 is None,
        names_unbroken(scan(d1 + d2).0),
        d1.len() == 0 || d1.last() == 10,
    ensures
        scan(d1).1 is None,
    decreases d1.len(),
{
    if d1.len() == 0 {
        lemma_scan_empty(d1);
    } else {
        let d = d1 + d2;
        if spec_parse_line(d) is Err {
            lemma_scan_fault(d);
        }
        let (n, v, rest) = spec_parse_line(d)->Ok_0;
        lemma_scan_step(d);
        assert(scan(d).0[0] == (n, v));
        assert forall|j: int| 0 <= j < n.len() implies n[j] != 10 by {
            assert(scan(d).0[0].0[j] != 10);
        }
        lemma_line_unbroken(d);
        if rest.len() < d2.len() {
            assert(d[d1.len() - 1] == d1.last());
        }
        lemma_parse_line_prefix(d1, d2);
        let r1 = rest.take(rest.len() - d2.len());
        lemma_parse_line_shrinks(d1);
        if r1.len() > 0 {
            assert(r1.last() == d1.last());
        }
        assert forall|i: int, j: int| 0 <= i < scan(r1 + d2).0.len() && 0 <= j < scan(r1 + d2).0[i].0.len() implies #[trigger] scan(r1 + d2).0[i].0[j] != 10 by {
            assert(scan(r1 + d2).0[i] == scan(d).0[i + 1]);
        }
        lemma_scan_prefix(r1, d2);
        lemma_scan_step(d1);
    }
}

/// Scanning a fault-free input whose station names hold no line break,
/// cut after a line break, gives the records of the first part, then
/// those of the second, and no fault in either.
pub proof fn lemma_scan_split(d1: Seq<u8>, d2: Seq<u8>)
    requires
        scan(d1 + d2).1 is None,
        names_unbroken(scan(d1 + d2).0),
        d1.len() == 0 || d1.last() == 10,
    ensures
        scan(d1).1 is None,
        scan(d2).1 is None,
        scan(d1 + d2).0 == scan(d1).0 + scan(d2).0,
        names_unbroken(scan(d1).0),
        names_unbroken(scan(d2).0),
{
    lemma_scan_prefix(d1, d2);
    lemma_scan_append(d1, d2);
    let a = scan(d1).0;
    let b = scan(d2).0;
    assert forall|i: int, j: int| 0 <= i < a.len() && 0 <= j < a[i].0.len() implies #[trigger] a[i].0[j] != 10 by {
        assert((a + b)[i] == a[i]);
    }
    assert forall|i: int, j: int| 0 <= i < b.len() && 0 <= j < b[i].0.len() implies #[trigger] b[i].0[j] != 10 by {
        assert((a + b)[i + a.len()] == b[i]);
    }
}

/// One chunk of `chunk_bounds` over a fault-free input whose station names
/// hold no line break scans without a fault.
proof fn lemma_chunk_fault_free(d: Seq<u8>, count: int, bounds: Seq<(usize, usize)>, i: int)
    requires
        is_chunking(d, count, bounds),
        0 <= i < count,
        scan(d).1 is None,
        names_unbroken(scan(d).0),
    ensures
        scan(chunks_of(d, bounds)[i]).1 is None,
{
    let s = bounds[i].0 as int;
    let e = bounds[i].1 as int;
    let c = chunks_of(d, bounds)[i];
    assert(c == d.subrange(s, e));
    assert(s <= e <= d.len());
    if s == e {
        lemma_scan_empty(c);
    } else {
        if i > 0 {
            assert(bounds[i].0 == bounds[i - 1].1);
            assert(line_end_after(d, min_int(bounds[i - 1].0 + chunk_size(d.len() as int, count), d.len() as int), bounds[i - 1].1 as int));
        }
        let a = d.take(s);
        let r = d.skip(s);
        assert(d =~= a + r);
        if s > 0 {
            assert(a.last() == d[s - 1]);
        }
        lemma_scan_split(a, r);
        assert(line_end_after(d, min_int(bounds[i].0 + chunk_size(d.len() as int, count), d.len() as int), e));
        let b = d.skip(e);
        assert(r =~= c + b);
        if e == d.len() {
            assert(c =~= r);
        } else {
            assert(c.last() == d[e - 1]);
            lemma_scan_split(c, b);
        }
    }
}

/// When the whole input scans without a fault and no station name holds a
/// line break, every chunk of `chunk_bounds` scans without a fault, and
/// merging the tables of the chunks gives the table of the whole input.
pub proof fn lemma_chunk_bounds_whole(d: Seq<u8>, count: int, bounds: Seq<(usize, usize)>)
    requires
        is_chunking(d, count, bounds),
        count >= 1,
        bounds[count - 1].1 == d.len(),
        scan(d).1 is None,
        names_unbroken(scan(d).0),
    ensures
        forall|i: int| 0 <= i < count ==> (#[trigger] scan(chunks_of(d, bounds)[i])).1 is None,
        merge_tables(chunk_tables(chunks_of(d, bounds))) == tally(scan(d).0),
{
    assert forall|i: int| 0 <= i < count implies (#[trigger] scan(chunks_of(d, bounds)[i])).1 is None by {
        lemma_chunk_fault_free(d, count, bounds, i);
    }
    lemma_chunk_bounds_processing(d, count, bounds);
}

/// The merged table of the chunks does not depend on how many chunks the
/// input is split into, when it scans without a fault and no station name
/// holds a line break.
pub proof fn lemma_chunk_count_irrelevant(
    d: Seq<u8>,
    count1: int,
    bounds1: Seq<(usize, usize)>,
    count2: int,
    bounds2: Seq<(usize, usize)>,
)
    requires
        is_chunking(d, count1, bounds1),
        count1 >= 1,
        bounds1[count1 - 1].1 == d.len(),
        is_chunking(d, count2, bounds2),
        count2 >= 1,
        bounds2[count2 - 1].1 == d.len(),
        scan(d).1 is None,
        names_unbroken(scan(d).0),
    ensures
        merge_tables(chunk_tables(chunks_of(d, bounds1))) == merge_tables(chunk_tables(chunks_of(d, bounds2))),
{
    lemma_chunk_bounds_whole(d, count1, bounds1);
    lemma_chunk_bounds_whole(d, count2, bounds2);
}

/// The tables of the statistics, in order.
pub open spec fn stats_views(parts: Seq<StationStatsMap>) -> Seq<Map<Seq<u8>, Summary>> {
    parts.map_values(|p: StationStatsMap| p@)
}

/// Whether merging the tables in order keeps every combined summary within
/// the machine types.
pub open spec fn merges_fit(ts: Seq<Map<Seq<u8>, Summary>>) -> bool {
    forall|k: int| 0 <= k < ts.len() ==> #[trigger] merge_fits(merge_tables(ts.take(k)), ts[k])
}

/// Merges the statistics of the chunks, in order, into one table; `None`
/// when a combined sum or count would go beyond the machine types.
pub fn merge_chunk_stats(parts: &Vec<StationStatsMap>) -> (res: Option<StationStatsMap>)
    ensures
        match res {
            Some(m) => merges_fit(stats_views(parts@)) && m@ == merge_tables(stats_views(parts@)),
            None => !merges_fit(stats_views(parts@)),
        },
{
    let ghost ts = stats_views(parts@);
    let mut total = StationStatsMap::new();
    let n = parts.len();
    assert(ts.take(0) =~= Seq::<Map<Seq<u8>, Summary>>::empty());
    for i in 0..n
        invariant
            n == parts@.len(),
            ts == stats_views(parts@),
            total@ == merge_tables(ts.take(i as int)),
            forall|k: int| 0 <= k < i ==> #[trigger] merge_fits(merge_tables(ts.take(k)), ts[k]),
    {
        let part = &parts[i];
        assert(ts[i as int] == part@);
        if !total.can_extend(part) {
            return None;
        }
        total.extend(part);
        assert(ts.take(i + 1).drop_last() =~= ts.take(i as int));
        assert(ts.take(i + 1).last() == ts[i as int]);
    }
    assert(ts.take(n as int) =~= ts);
    Some(total)
}

} // verus!
