//! A line processor fed with pieces of input: lines split across two
//! pieces are kept in a buffer until the rest of the line arrives.

use vstd::prelude::*;
use crate::search::first_index_of;
use crate::challenge::concat_chunks;
use crate::stats::{StationStatsMap, abs_value, decimal_digits, render_decimal};
use crate::summary::{Summary, lemma_merge_associative, lemma_merge_empty, lemma_record_merge, lemma_tally_append, merge, record, record_fits, tally};

verus! {

/// `memchr::memchr`: claims that the result is the index of the first
/// `needle` in `haystack`, and `None` exactly when there is none.
#[verifier::external_body]
fn memchr_first(needle: u8, haystack: &[u8]) -> (res: Option<usize>)
    ensures
        match res {
            Some(i) => first_index_of(haystack@, needle) == Some(i as int),
            None => first_index_of(haystack@, needle) is None,
        },
{
    memchr::memchr(needle, haystack)
}

/// Reading a temperature byte by byte up to the line break: a `-`
/// anywhere makes it negative, `.` is skipped, every other byte is a digit
/// appended to `acc`. The value and what follows the line break, or `None`
/// when the bytes end first.
pub open spec fn spec_scan_value(d: Seq<u8>, negative: bool, acc: int) -> Option<(int, Seq<u8>)>
    decreases d.len(),
{
    if d.len() == 0 {
        None
    } else if d[0] == 45 {
        spec_scan_value(d.drop_first(), true, acc)
    } else if d[0] == 46 {
        spec_scan_value(d.drop_first(), negative, acc)
    } else if d[0] == 10 {
        Some((if negative { -acc } else { acc }, d.drop_first()))
    } else {
        spec_scan_value(d.drop_first(), negative, acc * 10 + (d[0] - 48))
    }
}

/// Whether reading a temperature from `d` meets only digits, `-` and `.`
/// before the line break or the end, with every partial value within
/// `i16`.
pub open spec fn scan_value_ok(d: Seq<u8>, acc: int) -> bool
    decreases d.len(),
{
    if d.len() == 0 {
        true
    } else if d[0] == 45 || d[0] == 46 {
        scan_value_ok(d.drop_first(), acc)
    } else if d[0] == 10 {
        true
    } else {
        &&& 48 <= d[0] <= 57
        &&& acc * 10 + (d[0] - 48) <= i16::MAX
        &&& scan_value_ok(d.drop_first(), acc * 10 + (d[0] - 48))
    }
}

/// Reads a temperature up to its line break; returns it with the bytes
/// after the line break, or `None` when there is no line break.
pub fn parse_value(d: &[u8]) -> (res: Option<(i16, &[u8])>)
    requires
        scan_value_ok(d@, 0),
    ensures
        match res {
            Some((v, rest)) => spec_scan_value(d@, false, 0) == Some((v as int, rest@)),
            None => spec_scan_value(d@, false, 0) is None,
        },
{
    let mut left = d;
    let mut negative = false;
    let mut result: i16 = 0;
    while left.len() > 0
        invariant
            spec_scan_value(d@, false, 0) == spec_scan_value(left@, negative, result as int),
            scan_value_ok(left@, result as int),
            0 <= result,
        decreases left@.len(),
    {
        let c = left[0];
        let rest = &left[1..left.len()];
        let ghost cur = left@;
        assert(rest@ =~= cur.drop_first());
        assert(cur[0] == c);
        left = rest;
        if c == 45 {
            negative = true;
        } else if c == 46 {
        } else if c == 10 {
            if negative {
                result = -result;
            }
            return Some((result, rest));
        } else {
            result = result * 10 + (c - 48) as i16;
        }
    }
    None
}

/// Splits `input_data` at its first `ch`: the bytes before it and after it.
pub fn split_at_char(input_data: &[u8], ch: u8) -> (res: Option<(&[u8], &[u8])>)
    ensures
        match res {
            Some((before, after)) => match first_index_of(input_data@, ch) {
                Some(i) => before@ == input_data@.take(i) && after@ == input_data@.skip(i + 1),
                None => false,
            },
            None => first_index_of(input_data@, ch) is None,
        },
{
    let n = input_data.len();
    match memchr_first(ch, input_data) {
        Some(idx) => {
            proof {
                crate::search::lemma_first_index_of_spec(input_data@, ch);
            }
            assert(idx < n);
            Some((&input_data[0..idx], &input_data[idx + 1..n]))
        },
        None => None,
    }
}

/// The record at the start of `d`: the name before the first `;` anywhere
/// in `d`, the temperature after it, and what follows its line break; or
/// `None` when there is no `;` or no line break after it.
pub open spec fn spec_split_record(d: Seq<u8>) -> Option<(Seq<u8>, int, Seq<u8>)> {
    match first_index_of(d, 59) {
        None => None,
        Some(i) => match spec_scan_value(d.skip(i + 1), false, 0) {
            None => None,
            Some((v, r)) => Some((d.take(i), v, r)),
        },
    }
}

/// Whether reading the record at the start of `d` meets no invalid byte
/// in its temperature.
pub open spec fn record_readable(d: Seq<u8>) -> bool {
    match first_index_of(d, 59) {
        None => true,
        Some(i) => scan_value_ok(d.skip(i + 1), 0),
    }
}

/// Reads the record at the start of `input_data`.
pub fn _process(input_data: &[u8]) -> (res: Option<(&[u8], i16, &[u8])>)
    requires
        record_readable(input_data@),
    ensures
        match res {
            Some((name, v, rest)) => spec_split_record(input_data@) == Some((name@, v as int, rest@)),
            None => spec_split_record(input_data@) is None,
        },
{
    let (station_name, rest) = match split_at_char(input_data, 59) {
        Some(p) => p,
        None => return None,
    };
    let (value, rest) = match parse_value(rest) {
        Some(p) => p,
        None => return None,
    };
    Some((station_name, value, rest))
}

/// What a line processor knows: the statistics so far, the start of a
/// line that has not ended yet, and the number of lines read.
pub struct ProcessorState {
    pub stats: Map<Seq<u8>, Summary>,
    pub buffer: Seq<u8>,
    pub count: nat,
}

/// Whether one call of `process` with `input` in state `st` meets neither
/// an invalid byte, nor a stitched line that does not read as exactly one
/// record, nor a sum or count beyond the machine types.
pub open spec fn step_ok(st: ProcessorState, input: Seq<u8>) -> bool {
    if st.buffer.len() > 0 {
        match first_index_of(input, 10) {
            None => true,
            Some(idx) => {
                let line = st.buffer + input.take(idx + 1);
                &&& record_readable(line)
                &&& spec_split_record(line) matches Some((n, v, r)) && r.len() == 0 && record_fits(st.stats, n, v)
                    && st.count < usize::MAX
            },
        }
    } else {
        &&& record_readable(input)
        &&& spec_split_record(input) matches Some((n, v, r)) ==> record_fits(st.stats, n, v) && st.count < usize::MAX
    }
}

/// The state after one call of `process` with `input` in state `st`, and
/// the input that is left.
pub open spec fn step(st: ProcessorState, input: Seq<u8>) -> (ProcessorState, Seq<u8>) {
    if st.buffer.len() > 0 {
        match first_index_of(input, 10) {
            None => (ProcessorState { stats: st.stats, buffer: st.buffer + input, count: st.count }, Seq::empty()),
            Some(idx) => {
                let line = st.buffer + input.take(idx + 1);
                let (n, v, r) = spec_split_record(line)->Some_0;
                (
                    ProcessorState { stats: record(st.stats, n, v), buffer: Seq::empty(), count: st.count + 1 },
                    input.skip(idx + 1),
                )
            },
        }
    } else {
        match spec_split_record(input) {
            None => (ProcessorState { stats: st.stats, buffer: st.buffer + input, count: st.count }, Seq::empty()),
            Some((n, v, r)) => (ProcessorState { stats: record(st.stats, n, v), buffer: st.buffer, count: st.count + 1 }, r),
        }
    }
}

/// Reads records from pieces of input, keeping the start of a line that
/// runs past the end of a piece until the next piece completes it.
pub struct LineProcessor {
    stats: StationStatsMap,
    buffer: Vec<u8>,
    count: usize,
}

impl View for LineProcessor {
    type V = ProcessorState;

    closed spec fn view(&self) -> ProcessorState {
        ProcessorState { stats: self.stats@, buffer: self.buffer@, count: self.count as nat }
    }
}

impl LineProcessor {
    /// A processor with no statistics, no pending line and no lines read.
    pub fn new() -> (p: Self)
        ensures
            p@ == (ProcessorState { stats: Map::empty(), buffer: Seq::empty(), count: 0 }),
    {
        LineProcessor { stats: StationStatsMap::new(), buffer: Vec::with_capacity(128), count: 0 }
    }

    /// Reads one record from `input_data`, or completes the pending line
    /// with it, and returns the input that is left.
    pub fn process<'a>(&mut self, input_data: &'a [u8]) -> (rest: &'a [u8])
        requires
            step_ok(old(self)@, input_data@),
        ensures
            (final(self)@, rest@) == step(old(self)@, input_data@),
    {
        let n = input_data.len();
        if self.buffer.len() > 0 {
            let idx = match crate::search::position(10, input_data) {
                Some(idx) => idx,
                None => {
                    self.buffer.extend_from_slice(input_data);
                    assert(self.buffer@ =~= old(self).buffer@ + input_data@);
                    return &input_data[n..n];
                },
            };
            let line = &input_data[0..idx + 1];
            self.buffer.extend_from_slice(line);
            assert(self.buffer@ =~= old(self).buffer@ + input_data@.take(idx + 1));
            match _process(self.buffer.as_slice()) {
                Some((station_name, value, _result)) => {
                    self.count = self.count + 1;
                    self.stats.update(station_name, value);
                },
                None => {
                    assert(false);
                },
            }
            self.buffer.clear();
            assert(input_data@.subrange(idx + 1, n as int) =~= input_data@.skip(idx + 1));
            return &input_data[idx + 1..n];
        }
        match _process(input_data) {
            Some((station_name, value, rest)) => {
                self.count = self.count + 1;
                self.stats.update(station_name, value);
                rest
            },
            None => {
                self.buffer.extend_from_slice(input_data);
                assert(self.buffer@ =~= old(self).buffer@ + input_data@);
                &input_data[n..n]
            },
        }
    }

    /// The statistics, the pending start of a line and the number of lines
    /// read.
    pub fn into_parts(self) -> (parts: (StationStatsMap, Vec<u8>, usize))
        ensures
            parts.0@ == self@.stats,
            parts.1@ == self@.buffer,
            parts.2 == self@.count,
    {
        (self.stats, self.buffer, self.count)
    }
}

/// Whether reading a temperature from `d` meets no invalid byte and no
/// partial value beyond `i16`.
pub fn value_readable(d: &[u8]) -> (ok: bool)
    ensures
        ok == scan_value_ok(d@, 0),
{
    let mut left = d;
    let mut acc: i16 = 0;
    while left.len() > 0
        invariant
            scan_value_ok(d@, 0) == scan_value_ok(left@, acc as int),
            0 <= acc,
        decreases left@.len(),
    {
        let c = left[0];
        let rest = &left[1..left.len()];
        let ghost cur = left@;
        assert(rest@ =~= cur.drop_first());
        assert(cur[0] == c);
        left = rest;
        if c == 45 || c == 46 {
        } else if c == 10 {
            return true;
        } else {
            if c < 48 || c > 57 {
                return false;
            }
            let digit = (c - 48) as i16;
            if acc > (i16::MAX - digit) / 10 {
                assert(acc * 10 + digit > i16::MAX) by (nonlinear_arith)
                    requires
                        acc > (i16::MAX - digit) / 10,
                        0 <= digit <= 9,
                ;
                return false;
            }
            assert(acc * 10 + digit <= i16::MAX) by (nonlinear_arith)
                requires
                    acc <= (i16::MAX - digit) / 10,
                    0 <= digit <= 9,
            ;
            acc = acc * 10 + digit;
        }
    }
    true
}

/// Whether reading the record at the start of `d` meets no invalid byte.
pub fn readable(d: &[u8]) -> (ok: bool)
    ensures
        ok == record_readable(d@),
{
    match split_at_char(d, 59) {
        Some((_, after)) => value_readable(after),
        None => true,
    }
}

impl LineProcessor {
    /// Whether `process` can take `input_data` in the current state.
    pub fn can_process(&self, input_data: &[u8]) -> (ok: bool)
        ensures
            ok == step_ok(self@, input_data@),
    {
        let n = input_data.len();
        if self.buffer.len() > 0 {
            match crate::search::position(10, input_data) {
                None => true,
                Some(idx) => {
                    assert(idx < n);
                    let mut line = self.buffer.clone();
                    line.extend_from_slice(&input_data[0..idx + 1]);
                    assert(line@ =~= self.buffer@ + input_data@.take(idx + 1));
                    if !readable(line.as_slice()) {
                        return false;
                    }
                    match _process(line.as_slice()) {
                        Some((name, value, rest)) => rest.len() == 0 && self.stats.can_record(name, value)
                            && self.count < usize::MAX,
                        None => false,
                    }
                },
            }
        } else {
            if !readable(input_data) {
                return false;
            }
            match _process(input_data) {
                Some((name, value, _rest)) => self.stats.can_record(name, value) && self.count < usize::MAX,
                None => true,
            }
        }
    }
}

/// What reading a temperature leaves is a proper suffix of what it read.
pub proof fn lemma_scan_value_shrinks(d: Seq<u8>, negative: bool, acc: int)
    ensures
        spec_scan_value(d, negative, acc) matches Some((v, r)) ==> r.len() < d.len() && r == d.skip(d.len() - r.len()),
    decreases d.len(),
{
    if d.len() > 0 {
        let next_acc = if d[0] == 45 || d[0] == 46 { acc } else { acc * 10 + (d[0] - 48) };
        let next_neg = if d[0] == 45 { true } else { negative };
        lemma_scan_value_shrinks(d.drop_first(), next_neg, next_acc);
        if let Some((v, r)) = spec_scan_value(d, negative, acc) {
            if d[0] == 10 {
                assert(r =~= d.skip(1));
            } else {
                assert(d.drop_first().skip(d.drop_first().len() - r.len()) =~= d.skip(d.len() - r.len()));
            }
        }
    }
}

/// One step on non-empty input leaves less input.
pub proof fn lemma_step_shrinks(st: ProcessorState, input: Seq<u8>)
    requires
        input.len() > 0,
    ensures
        step(st, input).1.len() < input.len(),
{
    if st.buffer.len() == 0 {
        if let Some(i) = first_index_of(input, 59) {
            crate::search::lemma_first_index_of_spec(input, 59);
            lemma_scan_value_shrinks(input.skip(i + 1), false, 0);
        }
    } else {
        crate::search::lemma_first_index_of_spec(input, 10);
    }
}

/// The state after feeding `input` one step at a time, until nothing is
/// left or a step cannot be taken.
#[verifier::opaque]
pub open spec fn feed(st: ProcessorState, input: Seq<u8>) -> ProcessorState
    decreases input.len(),
{
    if input.len() == 0 || !step_ok(st, input) {
        st
    } else {
        let (next, rest) = step(st, input);
        if rest.len() < input.len() {
            feed(next, rest)
        } else {
            next
        }
    }
}

/// Whether every step of feeding `input` can be taken.
#[verifier::opaque]
pub open spec fn feed_ok(st: ProcessorState, input: Seq<u8>) -> bool
    decreases input.len(),
{
    if input.len() == 0 {
        true
    } else {
        let (next, rest) = step(st, input);
        step_ok(st, input) && (rest.len() < input.len() ==> feed_ok(next, rest))
    }
}

/// Feeding nothing changes nothing.
pub proof fn lemma_feed_empty(st: ProcessorState)
    ensures
        feed(st, Seq::empty()) == st,
        feed_ok(st, Seq::empty()),
{
    reveal(feed);
    reveal(feed_ok);
}

/// Feeding non-empty input is one step, then feeding what is left, when
/// the step can be taken; otherwise feeding stops at once.
pub proof fn lemma_feed_step(st: ProcessorState, input: Seq<u8>)
    requires
        input.len() > 0,
    ensures
        step_ok(st, input) ==> feed(st, input) == feed(step(st, input).0, step(st, input).1),
        !step_ok(st, input) ==> feed(st, input) == st,
        feed_ok(st, input) == (step_ok(st, input) && feed_ok(step(st, input).0, step(st, input).1)),
{
    lemma_step_shrinks(st, input);
    reveal(feed);
    reveal(feed_ok);
}

impl LineProcessor {
    /// Feeds all of `data`, one step at a time, until nothing is left;
    /// stops with `false` at the first step that cannot be taken, the
    /// processor then holding what the steps before it made.
    pub fn process_all(&mut self, data: &[u8]) -> (ok: bool)
        ensures
            ok == feed_ok(old(self)@, data@),
            final(self)@ == feed(old(self)@, data@),
    {
        let mut slice = data;
        while slice.len() > 0
            invariant
                feed_ok(old(self)@, data@) == feed_ok(self@, slice@),
                feed(old(self)@, data@) == feed(self@, slice@),
            decreases slice@.len(),
        {
            proof {
                lemma_feed_step(self@, slice@);
                lemma_step_shrinks(self@, slice@);
            }
            if !self.can_process(slice) {
                return false;
            }
            slice = self.process(slice);
        }
        proof {
            assert(slice@ =~= Seq::<u8>::empty());
            lemma_feed_empty(self@);
        }
        true
    }
}


/// A line `name;value` and its line break, from the name and the bytes of
/// the temperature.
pub open spec fn line_text(l: (Seq<u8>, Seq<u8>)) -> Seq<u8> {
    l.0 + seq![59u8] + l.1 + seq![10u8]
}

/// The lines, one after the other.
pub open spec fn lines_text(ls: Seq<(Seq<u8>, Seq<u8>)>) -> Seq<u8>
    decreases ls.len(),
{
    if ls.len() == 0 {
        Seq::empty()
    } else {
        line_text(ls[0]) + lines_text(ls.drop_first())
    }
}

/// A well-formed line: the name holds no `;` and no line break, and the
/// temperature holds no line break and reads without an invalid byte.
pub open spec fn well_formed_line(l: (Seq<u8>, Seq<u8>)) -> bool {
    &&& forall|i: int| 0 <= i < l.0.len() ==> #[trigger] l.0[i] != 59 && l.0[i] != 10
    &&& forall|i: int| 0 <= i < l.1.len() ==> #[trigger] l.1[i] != 10
    &&& scan_value_ok(l.1 + seq![10u8], 0)
}

/// The temperature of a line.
pub open spec fn line_value(l: (Seq<u8>, Seq<u8>)) -> int {
    spec_scan_value(l.1 + seq![10u8], false, 0)->Some_0.0
}

/// The state after recording the lines one by one.
pub open spec fn after_lines(st: ProcessorState, ls: Seq<(Seq<u8>, Seq<u8>)>) -> ProcessorState
    decreases ls.len(),
{
    if ls.len() == 0 {
        st
    } else {
        after_lines(
            ProcessorState { stats: record(st.stats, ls[0].0, line_value(ls[0])), buffer: st.buffer, count: st.count + 1 },
            ls.drop_first(),
        )
    }
}

/// Whether recording the lines one by one keeps every sum and count within
/// the machine types.
pub open spec fn lines_fit(st: ProcessorState, ls: Seq<(Seq<u8>, Seq<u8>)>) -> bool
    decreases ls.len(),
{
    ls.len() == 0 || {
        &&& record_fits(st.stats, ls[0].0, line_value(ls[0]))
        &&& st.count < usize::MAX
        &&& lines_fit(
            ProcessorState { stats: record(st.stats, ls[0].0, line_value(ls[0])), buffer: st.buffer, count: st.count + 1 },
            ls.drop_first(),
        )
    }
}

/// Reading a temperature that ends with a line break is not changed by
/// what follows the line break.
proof fn lemma_scan_through_break(vb: Seq<u8>, y: Seq<u8>, negative: bool, acc: int)
    requires
        forall|i: int| 0 <= i < vb.len() ==> #[trigger] vb[i] != 10,
    ensures
        spec_scan_value(vb + seq![10u8] + y, negative, acc) == Some((spec_scan_value(vb + seq![10u8], negative, acc)->Some_0.0, y)),
        spec_scan_value(vb + seq![10u8], negative, acc) is Some,
        spec_scan_value(vb + seq![10u8], negative, acc)->Some_0.1.len() == 0,
        scan_value_ok(vb + seq![10u8] + y, acc) == scan_value_ok(vb + seq![10u8], acc),
    decreases vb.len(),
{
    let a = vb + seq![10u8];
    let b = a + y;
    if vb.len() == 0 {
        assert(a =~= seq![10u8]);
        assert(b.drop_first() =~= y);
        assert(a.drop_first() =~= Seq::<u8>::empty());
    } else {
        let rest = vb.drop_first();
        assert forall|i: int| 0 <= i < rest.len() implies #[trigger] rest[i] != 10 by {
            assert(rest[i] == vb[i + 1]);
        }
        assert(a.drop_first() =~= rest + seq![10u8]);
        assert(b.drop_first() =~= rest + seq![10u8] + y);
        assert(a[0] == vb[0] && b[0] == vb[0]);
        let next_acc = if vb[0] == 45 || vb[0] == 46 { acc } else { acc * 10 + (vb[0] - 48) };
        let next_neg = if vb[0] == 45 { true } else { negative };
        lemma_scan_through_break(rest, y, next_neg, next_acc);
    }
}

/// Reading a temperature from bytes that hold no line break finds none;
/// and a readable temperature stays readable when cut short.
proof fn lemma_scan_prefix(vb: Seq<u8>, k: int, negative: bool, acc: int)
    requires
        forall|i: int| 0 <= i < vb.len() ==> #[trigger] vb[i] != 10,
        0 <= k <= vb.len(),
        scan_value_ok(vb + seq![10u8], acc),
    ensures
        spec_scan_value(vb.take(k), negative, acc) is None,
        scan_value_ok(vb.take(k), acc),
    decreases k,
{
    if k > 0 {
        let rest = vb.drop_first();
        assert forall|i: int| 0 <= i < rest.len() implies #[trigger] rest[i] != 10 by {
            assert(rest[i] == vb[i + 1]);
        }
        assert((vb + seq![10u8]).drop_first() =~= rest + seq![10u8]);
        assert(vb.take(k).drop_first() =~= rest.take(k - 1));
        assert(vb.take(k)[0] == vb[0]);
        let next_acc = if vb[0] == 45 || vb[0] == 46 { acc } else { acc * 10 + (vb[0] - 48) };
        let next_neg = if vb[0] == 45 { true } else { negative };
        lemma_scan_prefix(rest, k - 1, next_neg, next_acc);
    }
}

/// In a well-formed line followed by anything, the first `;` ends the name.
proof fn lemma_first_semicolon(l: (Seq<u8>, Seq<u8>), y: Seq<u8>)
    requires
        well_formed_line(l),
    ensures
        first_index_of(line_text(l) + y, 59) == Some(l.0.len() as int),
        (line_text(l) + y).take(l.0.len() as int) == l.0,
        (line_text(l) + y).skip(l.0.len() as int + 1) == l.1 + seq![10u8] + y,
{
    let s = line_text(l) + y;
    assert forall|j: int| 0 <= j < l.0.len() implies s[j] != 59 by {
        assert(s[j] == l.0[j]);
    }
    crate::search::lemma_first_index_of_found(s, 59, l.0.len() as int);
    assert(s.take(l.0.len() as int) =~= l.0);
    assert(s.skip(l.0.len() as int + 1) =~= l.1 + seq![10u8] + y);
}

/// A well-formed line followed by anything is read as its record, with
/// what follows left.
proof fn lemma_split_line(l: (Seq<u8>, Seq<u8>), y: Seq<u8>)
    requires
        well_formed_line(l),
    ensures
        spec_split_record(line_text(l) + y) == Some((l.0, line_value(l), y)),
        record_readable(line_text(l) + y),
{
    lemma_first_semicolon(l, y);
    lemma_scan_through_break(l.1, y, false, 0);
}

/// Whole lines, then anything: feeding them is recording the lines, then
/// feeding what follows.
#[verifier::rlimit(30)]
pub proof fn lemma_feed_lines(st: ProcessorState, ls: Seq<(Seq<u8>, Seq<u8>)>, x: Seq<u8>)
    requires
        st.buffer.len() == 0,
        forall|i: int| 0 <= i < ls.len() ==> well_formed_line(#[trigger] ls[i]),
        lines_fit(st, ls),
    ensures
        feed(st, lines_text(ls) + x) == feed(after_lines(st, ls), x),
        feed_ok(st, lines_text(ls) + x) == feed_ok(after_lines(st, ls), x),
        after_lines(st, ls).buffer.len() == 0,
    decreases ls.len(),
{
    if ls.len() == 0 {
        assert(lines_text(ls) + x =~= x);
    } else {
        let l = ls[0];
        let rest = ls.drop_first();
        let y = lines_text(rest) + x;
        let input = lines_text(ls) + x;
        assert(input =~= line_text(l) + y);
        lemma_split_line(l, y);
        lemma_feed_step(st, input);
        let st1 = ProcessorState { stats: record(st.stats, l.0, line_value(l)), buffer: st.buffer, count: st.count + 1 };
        assert(step(st, input) == (st1, y));
        assert(step_ok(st, input));
        assert(y.len() < input.len());
        assert forall|i: int| 0 <= i < rest.len() implies well_formed_line(#[trigger] rest[i]) by {
            assert(rest[i] == ls[i + 1]);
        }
        lemma_feed_lines(st1, rest, x);
    }
}

/// The start of a well-formed line, cut before its line break, holds no
/// complete record and reads without an invalid byte.
proof fn lemma_partial_line_record(l: (Seq<u8>, Seq<u8>), j: int)
    requires
        well_formed_line(l),
        0 < j < line_text(l).len(),
    ensures
        spec_split_record(line_text(l).take(j)) is None,
        record_readable(line_text(l).take(j)),
{
    let p = line_text(l).take(j);
    let n = l.0.len() as int;
    if j <= n {
        assert forall|i: int| 0 <= i < p.len() implies p[i] != 59 by {
            assert(p[i] == l.0[i]);
        }
        crate::search::lemma_first_index_of_spec(p, 59);
    } else {
        assert forall|i: int| 0 <= i < n implies p[i] != 59 by {
            assert(p[i] == l.0[i]);
        }
        crate::search::lemma_first_index_of_found(p, 59, n);
        let k = j - n - 1;
        assert(p.skip(n + 1) =~= l.1.take(k));
        lemma_scan_prefix(l.1, k, false, 0);
    }
}

/// Feeding the start of a well-formed line, cut before its line break,
/// keeps it as the pending line.
#[verifier::rlimit(30)]
proof fn lemma_feed_partial_line(st: ProcessorState, l: (Seq<u8>, Seq<u8>), j: int)
    requires
        st.buffer.len() == 0,
        well_formed_line(l),
        0 < j < line_text(l).len(),
    ensures
        feed_ok(st, line_text(l).take(j)),
        feed(st, line_text(l).take(j)) == (ProcessorState { stats: st.stats, buffer: line_text(l).take(j), count: st.count }),
{
    let p = line_text(l).take(j);
    lemma_partial_line_record(l, j);
    assert(st.buffer + p =~= p);
    let next = ProcessorState { stats: st.stats, buffer: p, count: st.count };
    assert(step(st, p) == (next, Seq::<u8>::empty()));
    assert(step_ok(st, p));
    lemma_feed_step(st, p);
    lemma_feed_empty(next);
}

/// In the rest of a well-formed line, cut before its line break, and
/// anything after it, the first line break is the line's own.
proof fn lemma_rest_of_line_break(l: (Seq<u8>, Seq<u8>), j: int, y: Seq<u8>)
    requires
        well_formed_line(l),
        0 < j < line_text(l).len(),
    ensures
        first_index_of(line_text(l).skip(j) + y, 10) == Some(line_text(l).len() - j - 1),
        line_text(l).take(j) + (line_text(l).skip(j) + y).take(line_text(l).len() - j) == line_text(l),
        (line_text(l).skip(j) + y).skip(line_text(l).len() - j) == y,
{
    let t = line_text(l);
    let input = t.skip(j) + y;
    let idx = t.len() - j - 1;
    assert forall|i: int| 0 <= i < idx implies input[i] != 10 by {
        let q = i + j;
        assert(input[i] == t[q]);
        if q < l.0.len() {
            assert(t[q] == l.0[q]);
        } else if q > l.0.len() {
            assert(t[q] == l.1[q - l.0.len() - 1]);
        }
    }
    assert(input[idx] == 10);
    crate::search::lemma_first_index_of_found(input, 10, idx);
    assert(t.take(j) + input.take(idx + 1) =~= t);
    assert(input.skip(idx + 1) =~= y);
}

/// With the start of a well-formed line pending, feeding the rest of the
/// line and anything after it records the line, then feeds what follows.
#[verifier::rlimit(30)]
proof fn lemma_feed_rest_of_line(st: ProcessorState, l: (Seq<u8>, Seq<u8>), j: int, y: Seq<u8>)
    requires
        well_formed_line(l),
        0 < j < line_text(l).len(),
        st.buffer == line_text(l).take(j),
        record_fits(st.stats, l.0, line_value(l)),
        st.count < usize::MAX,
    ensures
        ({
            let st1 = ProcessorState { stats: record(st.stats, l.0, line_value(l)), buffer: Seq::empty(), count: st.count + 1 };
            &&& feed(st, line_text(l).skip(j) + y) == feed(st1, y)
            &&& feed_ok(st, line_text(l).skip(j) + y) == feed_ok(st1, y)
        }),
{
    let t = line_text(l);
    let input = t.skip(j) + y;
    lemma_rest_of_line_break(l, j, y);
    assert(t =~= line_text(l) + Seq::<u8>::empty());
    lemma_split_line(l, Seq::<u8>::empty());
    let st1 = ProcessorState { stats: record(st.stats, l.0, line_value(l)), buffer: Seq::empty(), count: st.count + 1 };
    assert(step(st, input) == (st1, y));
    assert(step_ok(st, input));
    lemma_feed_step(st, input);
}

/// Feeding well-formed lines in two pieces, cut anywhere, takes every step
/// and ends in the same state as feeding them whole, with no pending line:
/// a line cut between two pieces is recorded once it is complete.
#[verifier::rlimit(30)]
pub proof fn lemma_pieces_as_whole(st: ProcessorState, ls: Seq<(Seq<u8>, Seq<u8>)>, c: int)
    requires
        st.buffer.len() == 0,
        forall|i: int| 0 <= i < ls.len() ==> well_formed_line(#[trigger] ls[i]),
        lines_fit(st, ls),
        0 <= c <= lines_text(ls).len(),
    ensures
        feed_ok(st, lines_text(ls)),
        feed_ok(st, lines_text(ls).take(c)),
        feed_ok(feed(st, lines_text(ls).take(c)), lines_text(ls).skip(c)),
        feed(feed(st, lines_text(ls).take(c)), lines_text(ls).skip(c)) == feed(st, lines_text(ls)),
        feed(st, lines_text(ls)).buffer.len() == 0,
    decreases ls.len(),
{
    let text = lines_text(ls);
    lemma_feed_lines(st, ls, Seq::empty());
    assert(text + Seq::<u8>::empty() =~= text);
    let fin = after_lines(st, ls);
    lemma_feed_empty(fin);
    if c == 0 {
        assert(text.take(0) =~= Seq::<u8>::empty());
        assert(text.skip(0) =~= text);
        lemma_feed_empty(st);
    } else {
        let l = ls[0];
        let rest = ls.drop_first();
        let t = line_text(l);
        let st1 = ProcessorState { stats: record(st.stats, l.0, line_value(l)), buffer: st.buffer, count: st.count + 1 };
        assert forall|i: int| 0 <= i < rest.len() implies well_formed_line(#[trigger] rest[i]) by {
            assert(rest[i] == ls[i + 1]);
        }
        assert(text =~= t + lines_text(rest));
        if c >= t.len() {
            let c2 = c - t.len();
            let z = lines_text(rest).take(c2);
            assert(text.take(c) =~= t + z);
            assert(text.skip(c) =~= lines_text(rest).skip(c2));
            let one = seq![l];
            let none = Seq::<(Seq<u8>, Seq<u8>)>::empty();
            assert(one.drop_first() =~= none);
            assert(one[0] == l);
            assert(lines_text(none) == Seq::<u8>::empty());
            assert(after_lines(st1, none) == st1);
            assert(lines_text(one) == line_text(l) + lines_text(none));
            assert(lines_text(one) =~= t);
            assert(lines_fit(st1, Seq::<(Seq<u8>, Seq<u8>)>::empty()));
            assert(lines_fit(st, one));
            assert(after_lines(st, one) == st1);
            lemma_feed_lines(st, one, z);
            assert(lines_text(one) + z =~= t + z);
            lemma_pieces_as_whole(st1, rest, c2);
            lemma_feed_lines(st1, rest, Seq::empty());
            assert(lines_text(rest) + Seq::<u8>::empty() =~= lines_text(rest));
            lemma_feed_empty(after_lines(st1, rest));
        } else {
            assert(text.take(c) =~= t.take(c));
            assert(text.skip(c) =~= t.skip(c) + lines_text(rest));
            lemma_feed_partial_line(st, l, c);
            let mid = ProcessorState { stats: st.stats, buffer: t.take(c), count: st.count };
            lemma_feed_rest_of_line(mid, l, c, lines_text(rest));
            let st1e = ProcessorState { stats: record(st.stats, l.0, line_value(l)), buffer: Seq::empty(), count: st.count + 1 };
            assert(st1e == st1) by {
                assert(st.buffer =~= Seq::<u8>::empty());
            }
            lemma_feed_lines(st1, rest, Seq::empty());
            assert(lines_text(rest) + Seq::<u8>::empty() =~= lines_text(rest));
            lemma_feed_empty(after_lines(st1, rest));
        }
    }
}


/// The records of the lines.
pub open spec fn line_records(ls: Seq<(Seq<u8>, Seq<u8>)>) -> Seq<(Seq<u8>, int)> {
    ls.map_values(|l: (Seq<u8>, Seq<u8>)| (l.0, line_value(l)))
}

/// Recording the lines one by one merges the table of their records into
/// the statistics.
pub proof fn lemma_after_lines_stats(st: ProcessorState, ls: Seq<(Seq<u8>, Seq<u8>)>)
    ensures
        after_lines(st, ls).stats == merge(st.stats, tally(line_records(ls))),
        after_lines(st, ls).buffer == st.buffer,
        after_lines(st, ls).count == st.count + ls.len(),
    decreases ls.len(),
{
    let recs = line_records(ls);
    if ls.len() == 0 {
        assert(recs =~= Seq::<(Seq<u8>, int)>::empty());
        lemma_merge_empty(st.stats);
    } else {
        let l = ls[0];
        let r = (l.0, line_value(l));
        let st1 = ProcessorState { stats: record(st.stats, l.0, line_value(l)), buffer: st.buffer, count: st.count + 1 };
        let rest = ls.drop_first();
        lemma_after_lines_stats(st1, rest);
        let one = seq![r];
        assert(recs =~= one + line_records(rest));
        lemma_tally_append(one, line_records(rest));
        assert(one.drop_last() =~= Seq::<(Seq<u8>, int)>::empty());
        assert(tally(Seq::<(Seq<u8>, int)>::empty()) == Map::<Seq<u8>, Summary>::empty());
        assert(one.last() == r);
        assert(tally(one) == record(Map::<Seq<u8>, Summary>::empty(), r.0, r.1));
        lemma_merge_empty(st.stats);
        lemma_record_merge(st.stats, Map::empty(), r.0, r.1);
        lemma_merge_associative(st.stats, tally(one), tally(line_records(rest)));
    }
}

/// Feeding well-formed lines to a new processor, whole or in two pieces
/// cut anywhere, gives the table of their records and no pending line.
pub proof fn lemma_feed_new_processor(ls: Seq<(Seq<u8>, Seq<u8>)>, c: int)
    requires
        forall|i: int| 0 <= i < ls.len() ==> well_formed_line(#[trigger] ls[i]),
        lines_fit(ProcessorState { stats: Map::empty(), buffer: Seq::empty(), count: 0 }, ls),
        0 <= c <= lines_text(ls).len(),
    ensures
        ({
            let st = ProcessorState { stats: Map::empty(), buffer: Seq::empty(), count: 0 };
            let text = lines_text(ls);
            &&& feed_ok(st, text.take(c))
            &&& feed_ok(feed(st, text.take(c)), text.skip(c))
            &&& feed(feed(st, text.take(c)), text.skip(c)).stats == tally(line_records(ls))
            &&& feed(feed(st, text.take(c)), text.skip(c)).buffer.len() == 0
            &&& feed(feed(st, text.take(c)), text.skip(c)).count == ls.len()
        }),
{
    let st = ProcessorState { stats: Map::empty(), buffer: Seq::empty(), count: 0 };
    lemma_pieces_as_whole(st, ls, c);
    lemma_feed_lines(st, ls, Seq::empty());
    assert(lines_text(ls) + Seq::<u8>::empty() =~= lines_text(ls));
    lemma_feed_empty(after_lines(st, ls));
    lemma_after_lines_stats(st, ls);
    lemma_merge_empty(tally(line_records(ls)));
}


/// The last three bytes of a written temperature, `.F` and the line break,
/// read after `acc` tenths-to-be: the value `acc * 10 + F`, negated when
/// a `-` was met.
proof fn lemma_scan_fraction(f: int, negative: bool, acc: int)
    requires
        0 <= f <= 9,
        0 <= acc <= 99,
    ensures
        scan_value_ok(seq![46u8, (48 + f) as u8, 10u8], acc),
        spec_scan_value(seq![46u8, (48 + f) as u8, 10u8], negative, acc)
            == Some((if negative { -(acc * 10 + f) } else { acc * 10 + f }, Seq::<u8>::empty())),
{
    let t = seq![46u8, (48 + f) as u8, 10u8];
    reveal_with_fuel(spec_scan_value, 4);
    reveal_with_fuel(scan_value_ok, 4);
    assert(t.drop_first() =~= seq![(48 + f) as u8, 10u8]);
    assert(t.drop_first().drop_first() =~= seq![10u8]);
    assert(seq![10u8].drop_first() =~= Seq::<u8>::empty());
}

/// The digits of a whole number of degrees below 100, then `.F` and the
/// line break, read as that many tenths plus `F`.
proof fn lemma_scan_degrees(q: int, f: int, negative: bool)
    requires
        0 <= q <= 99,
        0 <= f <= 9,
    ensures
        scan_value_ok(decimal_digits(q as nat) + seq![46u8, (48 + f) as u8, 10u8], 0),
        spec_scan_value(decimal_digits(q as nat) + seq![46u8, (48 + f) as u8, 10u8], negative, 0)
            == Some((if negative { -(q * 10 + f) } else { q * 10 + f }, Seq::<u8>::empty())),
{
    let t = seq![46u8, (48 + f) as u8, 10u8];
    let d = decimal_digits(q as nat) + t;
    reveal_with_fuel(spec_scan_value, 3);
    reveal_with_fuel(scan_value_ok, 3);
    if q < 10 {
        assert(decimal_digits(q as nat) == seq![(48 + q) as u8]);
        assert(d.drop_first() =~= t);
        assert(d[0] == (48 + q) as u8);
        lemma_scan_fraction(f, negative, q);
    } else {
        let hi = q / 10;
        let lo = q % 10;
        assert(decimal_digits(hi as nat) == seq![(48 + hi) as u8]);
        assert(decimal_digits(q as nat) == seq![(48 + hi) as u8, (48 + lo) as u8]);
        assert(d[0] == (48 + hi) as u8);
        assert(d.drop_first() =~= seq![(48 + lo) as u8] + t);
        assert(d.drop_first()[0] == (48 + lo) as u8);
        assert(d.drop_first().drop_first() =~= t);
        assert(hi * 10 + lo == q);
        lemma_scan_fraction(f, negative, q);
    }
}

/// Every temperature from -99.9 to 99.9 in its decimal form (`-DD.F`,
/// `-D.F`, `DD.F` or `D.F`), followed by a line break and anything, reads
/// without an invalid byte as that value, and leaves what follows the
/// line break.
pub proof fn lemma_scan_rendered(v: int, rest: Seq<u8>)
    requires
        -999 <= v <= 999,
    ensures
        scan_value_ok(render_decimal(v) + seq![10u8] + rest, 0),
        spec_scan_value(render_decimal(v) + seq![10u8] + rest, false, 0) == Some((v, rest)),
{
    let a = abs_value(v);
    let q = a / 10;
    let f = a % 10;
    let t = seq![46u8, (48 + f) as u8, 10u8];
    let body = decimal_digits(q as nat) + t;
    lemma_scan_degrees(q, f, v < 0);
    let vb = render_decimal(v);
    crate::stats::lemma_decimal_digits_ascii(q as nat);
    let dd = decimal_digits(q as nat);
    assert forall|i: int| 0 <= i < vb.len() implies #[trigger] vb[i] != 10 by {
        if v < 0 {
            if 1 <= i < 1 + dd.len() {
                assert(vb[i] == dd[i - 1]);
            }
        } else {
            if i < dd.len() {
                assert(vb[i] == dd[i]);
            }
        }
    }
    if v < 0 {
        assert(vb + seq![10u8] =~= seq![45u8] + body);
        assert((seq![45u8] + body).drop_first() =~= body);
    } else {
        assert(vb + seq![10u8] =~= body);
    }
    lemma_scan_through_break(vb, rest, false, 0);
}

/// A line whose name holds no `;` and no line break, and whose temperature
/// is the decimal form of a value from -99.9 to 99.9, is well formed, and
/// its temperature is that value.
pub proof fn lemma_rendered_line(name: Seq<u8>, v: int)
    requires
        -999 <= v <= 999,
        forall|i: int| 0 <= i < name.len() ==> #[trigger] name[i] != 59 && name[i] != 10,
    ensures
        well_formed_line((name, render_decimal(v))),
        line_value((name, render_decimal(v))) == v,
{
    lemma_scan_rendered(v, Seq::empty());
    assert(render_decimal(v) + seq![10u8] + Seq::<u8>::empty() =~= render_decimal(v) + seq![10u8]);
    let vb = render_decimal(v);
    crate::stats::lemma_decimal_digits_ascii((abs_value(v) / 10) as nat);
    let dd = decimal_digits((abs_value(v) / 10) as nat);
    assert forall|i: int| 0 <= i < vb.len() implies #[trigger] vb[i] != 10 by {
        if v < 0 {
            if 1 <= i < 1 + dd.len() {
                assert(vb[i] == dd[i - 1]);
            }
        } else {
            if i < dd.len() {
                assert(vb[i] == dd[i]);
            }
        }
    }
}


/// With the start of a well-formed line pending, feeding more of the line,
/// still short of its line break, adds it to the pending line.
#[verifier::rlimit(30)]
proof fn lemma_feed_partial_more(st: ProcessorState, l: (Seq<u8>, Seq<u8>), c1: int, c2: int)
    requires
        well_formed_line(l),
        0 < c1 < c2 < line_text(l).len(),
        st.buffer == line_text(l).take(c1),
    ensures
        feed_ok(st, line_text(l).subrange(c1, c2)),
        feed(st, line_text(l).subrange(c1, c2)) == (ProcessorState { stats: st.stats, buffer: line_text(l).take(c2), count: st.count }),
{
    let t = line_text(l);
    let input = t.subrange(c1, c2);
    assert forall|i: int| 0 <= i < input.len() implies input[i] != 10 by {
        let q = i + c1;
        assert(input[i] == t[q]);
        if q < l.0.len() {
            assert(t[q] == l.0[q]);
        } else if q > l.0.len() {
            assert(t[q] == l.1[q - l.0.len() - 1]);
        }
    }
    crate::search::lemma_first_index_of_spec(input, 10);
    assert(st.buffer + input =~= t.take(c2));
    let next = ProcessorState { stats: st.stats, buffer: t.take(c2), count: st.count };
    assert(step(st, input) == (next, Seq::<u8>::empty()));
    assert(step_ok(st, input));
    lemma_feed_step(st, input);
    lemma_feed_empty(next);
}

/// Feeding the first line of well-formed lines, then anything, is
/// recording it, then feeding what follows.
proof fn lemma_feed_first_line(st: ProcessorState, ls: Seq<(Seq<u8>, Seq<u8>)>, z: Seq<u8>)
    requires
        st.buffer.len() == 0,
        ls.len() > 0,
        well_formed_line(ls[0]),
        lines_fit(st, ls),
    ensures
        ({
            let st1 = ProcessorState { stats: record(st.stats, ls[0].0, line_value(ls[0])), buffer: st.buffer, count: st.count + 1 };
            &&& feed(st, line_text(ls[0]) + z) == feed(st1, z)
            &&& feed_ok(st, line_text(ls[0]) + z) == feed_ok(st1, z)
            &&& lines_fit(st1, ls.drop_first())
        }),
{
    let l = ls[0];
    let st1 = ProcessorState { stats: record(st.stats, l.0, line_value(l)), buffer: st.buffer, count: st.count + 1 };
    let one = seq![l];
    let none = Seq::<(Seq<u8>, Seq<u8>)>::empty();
    assert(one.drop_first() =~= none);
    assert(one[0] == l);
    assert(lines_text(none) == Seq::<u8>::empty());
    assert(after_lines(st1, none) == st1);
    assert(lines_text(one) == line_text(l) + lines_text(none));
    assert(lines_text(one) =~= line_text(l));
    assert(lines_fit(st1, none));
    assert(lines_fit(st, one));
    assert(after_lines(st, one) == st1);
    lemma_feed_lines(st, one, z);
}

/// Feeding well-formed lines up to any point `c1`, then on to any later
/// point `c2`, takes every step and ends where feeding them up to `c2` in
/// one piece ends: where the input is cut makes no difference.
#[verifier::rlimit(40)]
pub proof fn lemma_feed_between(st: ProcessorState, ls: Seq<(Seq<u8>, Seq<u8>)>, c1: int, c2: int)
    requires
        st.buffer.len() == 0,
        forall|i: int| 0 <= i < ls.len() ==> well_formed_line(#[trigger] ls[i]),
        lines_fit(st, ls),
        0 <= c1 <= c2 <= lines_text(ls).len(),
    ensures
        feed_ok(st, lines_text(ls).take(c2)),
        feed_ok(feed(st, lines_text(ls).take(c1)), lines_text(ls).subrange(c1, c2)),
        feed(feed(st, lines_text(ls).take(c1)), lines_text(ls).subrange(c1, c2)) == feed(st, lines_text(ls).take(c2)),
    decreases ls.len(),
{
    let text = lines_text(ls);
    lemma_pieces_as_whole(st, ls, c2);
    if c1 == c2 {
        assert(text.subrange(c1, c2) =~= Seq::<u8>::empty());
        lemma_feed_empty(feed(st, text.take(c1)));
    } else if c1 == 0 {
        assert(text.take(0) =~= Seq::<u8>::empty());
        lemma_feed_empty(st);
        assert(text.subrange(0, c2) =~= text.take(c2));
    } else {
        let l = ls[0];
        let rest = ls.drop_first();
        let t = line_text(l);
        let r = lines_text(rest);
        let big = t.len() as int;
        let st1 = ProcessorState { stats: record(st.stats, l.0, line_value(l)), buffer: st.buffer, count: st.count + 1 };
        assert(text =~= t + r);
        assert forall|i: int| 0 <= i < rest.len() implies well_formed_line(#[trigger] rest[i]) by {
            assert(rest[i] == ls[i + 1]);
        }
        lemma_feed_first_line(st, ls, r.take(c2 - big));
        if c1 >= big {
            lemma_feed_first_line(st, ls, r.take(c1 - big));
            assert(text.take(c1) =~= t + r.take(c1 - big));
            assert(text.take(c2) =~= t + r.take(c2 - big));
            assert(text.subrange(c1, c2) =~= r.subrange(c1 - big, c2 - big));
            lemma_feed_between(st1, rest, c1 - big, c2 - big);
        } else {
            assert(text.take(c1) =~= t.take(c1));
            lemma_feed_partial_line(st, l, c1);
            let mid = ProcessorState { stats: st.stats, buffer: t.take(c1), count: st.count };
            if c2 >= big {
                assert(text.subrange(c1, c2) =~= t.skip(c1) + r.take(c2 - big));
                assert(text.take(c2) =~= t + r.take(c2 - big));
                lemma_feed_rest_of_line(mid, l, c1, r.take(c2 - big));
                let st1e = ProcessorState { stats: record(st.stats, l.0, line_value(l)), buffer: Seq::empty(), count: st.count + 1 };
                assert(st1e == st1) by {
                    assert(st.buffer =~= Seq::<u8>::empty());
                }
            } else {
                assert(text.subrange(c1, c2) =~= t.subrange(c1, c2));
                assert(text.take(c2) =~= t.take(c2));
                lemma_feed_partial_more(mid, l, c1, c2);
                lemma_feed_partial_line(st, l, c2);
            }
        }
    }
}

/// Feeding the pieces one after the other, each as far as it goes.
pub open spec fn feed_pieces(st: ProcessorState, ps: Seq<Seq<u8>>) -> ProcessorState
    decreases ps.len(),
{
    if ps.len() == 0 {
        st
    } else {
        feed(feed_pieces(st, ps.drop_last()), ps.last())
    }
}

/// Whether every step of feeding the pieces one after the other can be
/// taken.
pub open spec fn pieces_ok(st: ProcessorState, ps: Seq<Seq<u8>>) -> bool
    decreases ps.len(),
{
    ps.len() == 0 || (pieces_ok(st, ps.drop_last()) && feed_ok(feed_pieces(st, ps.drop_last()), ps.last()))
}

/// Feeding pieces that make up the start of well-formed lines is feeding
/// that start in one piece.
proof fn lemma_feed_pieces_prefix(st: ProcessorState, ls: Seq<(Seq<u8>, Seq<u8>)>, ps: Seq<Seq<u8>>)
    requires
        st.buffer.len() == 0,
        forall|i: int| 0 <= i < ls.len() ==> well_formed_line(#[trigger] ls[i]),
        lines_fit(st, ls),
        concat_chunks(ps).len() <= lines_text(ls).len(),
        concat_chunks(ps) == lines_text(ls).take(concat_chunks(ps).len() as int),
    ensures
        pieces_ok(st, ps),
        feed_pieces(st, ps) == feed(st, lines_text(ls).take(concat_chunks(ps).len() as int)),
    decreases ps.len(),
{
    let text = lines_text(ls);
    if ps.len() == 0 {
        assert(text.take(0) =~= Seq::<u8>::empty());
        lemma_feed_empty(st);
    } else {
        let init = ps.drop_last();
        let last = ps.last();
        let c1 = concat_chunks(init).len() as int;
        let c2 = concat_chunks(ps).len() as int;
        assert(concat_chunks(ps) == concat_chunks(init) + last);
        assert(concat_chunks(init) =~= text.take(c1)) by {
            assert(concat_chunks(init) =~= concat_chunks(ps).take(c1));
        }
        assert(last =~= text.subrange(c1, c2)) by {
            assert(last =~= concat_chunks(ps).skip(c1));
        }
        lemma_feed_pieces_prefix(st, ls, init);
        lemma_feed_between(st, ls, c1, c2);
    }
}

/// Feeding well-formed lines cut into any number of pieces, cut anywhere,
/// takes every step and ends in the same state as feeding them whole, with
/// no pending line: a line cut across several pieces is stitched together
/// and recorded once it is complete.
pub proof fn lemma_feed_in_pieces(st: ProcessorState, ls: Seq<(Seq<u8>, Seq<u8>)>, ps: Seq<Seq<u8>>)
    requires
        st.buffer.len() == 0,
        forall|i: int| 0 <= i < ls.len() ==> well_formed_line(#[trigger] ls[i]),
        lines_fit(st, ls),
        concat_chunks(ps) == lines_text(ls),
    ensures
        pieces_ok(st, ps),
        feed_ok(st, lines_text(ls)),
        feed_pieces(st, ps) == feed(st, lines_text(ls)),
        feed_pieces(st, ps).buffer.len() == 0,
{
    let text = lines_text(ls);
    assert(text.take(text.len() as int) =~= text);
    lemma_feed_pieces_prefix(st, ls, ps);
    lemma_pieces_as_whole(st, ls, 0);
}

/// Feeding well-formed lines to a new processor in any number of pieces
/// gives the table of their records, one line counted for each, and no
/// pending line.
pub proof fn lemma_new_processor_in_pieces(ls: Seq<(Seq<u8>, Seq<u8>)>, ps: Seq<Seq<u8>>)
    requires
        forall|i: int| 0 <= i < ls.len() ==> well_formed_line(#[trigger] ls[i]),
        lines_fit(ProcessorState { stats: Map::empty(), buffer: Seq::empty(), count: 0 }, ls),
        concat_chunks(ps) == lines_text(ls),
    ensures
        ({
            let st = ProcessorState { stats: Map::empty(), buffer: Seq::empty(), count: 0 };
            &&& pieces_ok(st, ps)
            &&& feed_pieces(st, ps).stats == tally(line_records(ls))
            &&& feed_pieces(st, ps).buffer.len() == 0
            &&& feed_pieces(st, ps).count == ls.len()
        }),
{
    let st = ProcessorState { stats: Map::empty(), buffer: Seq::empty(), count: 0 };
    lemma_feed_in_pieces(st, ls, ps);
    let text = lines_text(ls);
    lemma_feed_new_processor(ls, text.len() as int);
    assert(text.take(text.len() as int) =~= text);
    assert(text.skip(text.len() as int) =~= Seq::<u8>::empty());
    lemma_feed_empty(feed(st, text));
}


/// The lines `name;T` of the records, each temperature `T` written in its
/// decimal form.
pub open spec fn rendered_lines(recs: Seq<(Seq<u8>, int)>) -> Seq<(Seq<u8>, Seq<u8>)> {
    recs.map_values(|r: (Seq<u8>, int)| (r.0, render_decimal(r.1)))
}

/// Feeding a new processor the lines of records whose names hold no `;`
/// and no line break and whose temperatures lie from -99.9 to 99.9,
/// written in decimal form (negative ones with their `-`), in any number
/// of pieces, takes every step and records exactly those records.
pub proof fn lemma_feed_rendered(recs: Seq<(Seq<u8>, int)>, ps: Seq<Seq<u8>>)
    requires
        forall|i: int, j: int| 0 <= i < recs.len() && 0 <= j < recs[i].0.len() ==> #[trigger] recs[i].0[j] != 59 && recs[i].0[j] != 10,
        forall|i: int| 0 <= i < recs.len() ==> -999 <= #[trigger] recs[i].1 <= 999,
        lines_fit(ProcessorState { stats: Map::empty(), buffer: Seq::empty(), count: 0 }, rendered_lines(recs)),
        concat_chunks(ps) == lines_text(rendered_lines(recs)),
    ensures
        ({
            let st = ProcessorState { stats: Map::empty(), buffer: Seq::empty(), count: 0 };
            &&& pieces_ok(st, ps)
            &&& feed_pieces(st, ps).stats == tally(recs)
            &&& feed_pieces(st, ps).count == recs.len()
            &&& feed_pieces(st, ps).buffer.len() == 0
        }),
{
    let ls = rendered_lines(recs);
    assert forall|i: int| 0 <= i < ls.len() implies well_formed_line(#[trigger] ls[i]) by {
        let r = recs[i];
        assert(ls[i] == (r.0, render_decimal(r.1)));
        assert(forall|j: int| 0 <= j < r.0.len() ==> #[trigger] r.0[j] != 59 && r.0[j] != 10) by {
            assert forall|j: int| 0 <= j < r.0.len() implies #[trigger] r.0[j] != 59 && r.0[j] != 10 by {
                assert(recs[i].0[j] != 59 && recs[i].0[j] != 10);
            }
        }
        lemma_rendered_line(r.0, r.1);
    }
    assert forall|i: int| 0 <= i < ls.len() implies #[trigger] line_records(ls)[i] == recs[i] by {
        let r = recs[i];
        assert(ls[i] == (r.0, render_decimal(r.1)));
        let nm = r.0;
        assert(forall|j: int| 0 <= j < nm.len() ==> #[trigger] nm[j] != 59 && nm[j] != 10) by {
            assert forall|j: int| 0 <= j < nm.len() implies #[trigger] nm[j] != 59 && nm[j] != 10 by {
                assert(recs[i].0[j] != 59 && recs[i].0[j] != 10);
            }
        }
        lemma_rendered_line(r.0, r.1);
    }
    assert(line_records(ls) =~= recs);
    lemma_new_processor_in_pieces(ls, ps);
}

} // verus!
