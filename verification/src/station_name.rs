//! The station name at the start of a line: the bytes before the first `;`.

use vstd::prelude::*;
use crate::search::{first_index_of, position};

verus! {

/// The longest station name; the `;` must come within one byte more.
pub const MAX_LENGTH: usize = 100;

/// Where to look for the `;` in `line`: its first `MAX_LENGTH + 1` bytes.
pub open spec fn search_window(line: Seq<u8>) -> Seq<u8> {
    if line.len() <= MAX_LENGTH + 1 {
        line
    } else {
        line.take(MAX_LENGTH + 1)
    }
}

/// A line of fewer than two bytes has no name. Otherwise the station name
/// is everything before the first `;` among the first `MAX_LENGTH + 1`
/// bytes, and the rest is everything after that `;`. Station names are
/// between 1 and `MAX_LENGTH` bytes long: a line that starts with `;`, or
/// has no `;` among those bytes, has no name.
#[verifier::opaque]
pub open spec fn spec_parse_name(line: Seq<u8>) -> Option<(Seq<u8>, Seq<u8>)> {
    if line.len() < 2 {
        None
    } else {
        match first_index_of(search_window(line), 59) {
            Some(i) => if i == 0 {
                None
            } else {
                Some((line.take(i), line.skip(i + 1)))
            },
            None => None,
        }
    }
}

/// Splits `line` at its first `;`, returning the station name before it
/// and the bytes after it. Station names are between 1 and 100 bytes long,
/// so the `;` is looked for in the first 101 bytes only, and a line that
/// starts with `;` has no name.
pub fn parse(line: &[u8]) -> (res: Option<(&[u8], &[u8])>)
    ensures
        match res {
            Some((name, rest)) => {
                &&& spec_parse_name(line@) == Some((name@, rest@))
                &&& 1 <= name@.len() <= MAX_LENGTH
                &&& forall|j: int| 0 <= j < name@.len() ==> name@[j] != 59
                &&& line@ == name@ + seq![59u8] + rest@
            },
            None => spec_parse_name(line@) is None,
        },
{
    let n = line.len();
    if n < 2 {
        proof {
            lemma_short_line(line@);
        }
        return None;
    }
    let end = if n < MAX_LENGTH + 1 { n } else { MAX_LENGTH + 1 };
    let window = &line[0..end];
    proof {
        lemma_window(line@, window@);
    }
    match position(59, window) {
        Some(idx) => {
            if idx == 0 {
                return None;
            }
            proof {
                lemma_parse_name_shape(line@);
            }
            let res = split_around(line, idx);
            proof {
                assert(line@ =~= res.0@ + seq![59u8] + res.1@);
            }
            Some(res)
        },
        None => None,
    }
}

/// The bytes of `line` before index `i`, and those after it.
fn split_around(line: &[u8], i: usize) -> (res: (&[u8], &[u8]))
    requires
        i < line@.len(),
    ensures
        res.0@ == line@.take(i as int),
        res.1@ == line@.skip(i + 1),
{
    let n = line.len();
    let name = &line[0..i];
    let rest = &line[i + 1..n];
    assert(name@ =~= line@.take(i as int));
    assert(rest@ =~= line@.skip(i + 1));
    (name, rest)
}

/// A line of fewer than two bytes has no name.
proof fn lemma_short_line(line: Seq<u8>)
    requires
        line.len() < 2,
    ensures
        spec_parse_name(line) is None,
{
    reveal(spec_parse_name);
}

/// For a line of at least two bytes, `w` is its search window, and the
/// `;` found there gives the name.
proof fn lemma_window(line: Seq<u8>, w: Seq<u8>)
    requires
        line.len() >= 2,
        w == line.subrange(0, if line.len() < MAX_LENGTH + 1 { line.len() as int } else { MAX_LENGTH + 1 }),
    ensures
        w.len() <= MAX_LENGTH + 1,
        spec_parse_name(line) == match first_index_of(w, 59) {
            Some(i) => if i == 0 {
                None
            } else {
                Some((line.take(i), line.skip(i + 1)))
            },
            None => None,
        },
{
    reveal(spec_parse_name);
    assert(w =~= search_window(line));
}

/// A name found in `s` is found the same way in `s` followed by anything;
/// it ends at a `;` of `s`, and the rest is what follows that `;`.
pub proof fn lemma_parse_name_extend(s: Seq<u8>, x: Seq<u8>)
    requires
        spec_parse_name(s) is Some,
    ensures
        ({
            let (n, r) = spec_parse_name(s)->Some_0;
            &&& spec_parse_name(s + x) == Some((n, r + x))
            &&& n.len() < s.len()
            &&& s[n.len() as int] == 59
            &&& r == s.skip(n.len() as int + 1)
        }),
{
    reveal(spec_parse_name);
    let w = search_window(s);
    let y = s + x;
    let wy = search_window(y);
    crate::search::lemma_first_index_of_spec(w, 59);
    let i = crate::search::first_index_of(w, 59)->Some_0;
    assert(forall|j: int| 0 <= j < w.len() ==> wy[j] == w[j]);
    crate::search::lemma_first_index_of_found(wy, 59, i);
    assert(y.take(i) =~= s.take(i));
    assert(y.skip(i + 1) =~= s.skip(i + 1) + x);
}

/// A name found in `p` followed by `x`, whose `;` lies in `p`, is found
/// the same way in `p` alone.
pub proof fn lemma_parse_name_prefix(p: Seq<u8>, x: Seq<u8>)
    requires
        spec_parse_name(p + x) is Some,
        spec_parse_name(p + x)->Some_0.0.len() < p.len(),
    ensures
        ({
            let (n, r) = spec_parse_name(p + x)->Some_0;
            &&& spec_parse_name(p) == Some((n, p.skip(n.len() as int + 1)))
            &&& r == p.skip(n.len() as int + 1) + x
        }),
{
    reveal(spec_parse_name);
    let y = p + x;
    let wy = search_window(y);
    let w = search_window(p);
    crate::search::lemma_first_index_of_spec(wy, 59);
    let i = crate::search::first_index_of(wy, 59)->Some_0;
    assert(i < p.len());
    assert(i < w.len());
    assert(forall|j: int| 0 <= j < w.len() ==> w[j] == wy[j]);
    crate::search::lemma_first_index_of_found(w, 59, i);
    assert(y.take(i) =~= p.take(i));
    assert(y.skip(i + 1) =~= p.skip(i + 1) + x);
}

/// A name found in `s` is between 1 and `MAX_LENGTH` bytes long, holds no
/// `;`, and ends at a `;` of `s`; the rest is what follows it.
pub proof fn lemma_parse_name_shape(s: Seq<u8>)
    requires
        spec_parse_name(s) is Some,
    ensures
        ({
            let (n, r) = spec_parse_name(s)->Some_0;
            &&& 1 <= n.len() <= MAX_LENGTH
            &&& forall|j: int| 0 <= j < n.len() ==> n[j] != 59
            &&& n.len() < s.len()
            &&& n == s.take(n.len() as int)
            &&& s[n.len() as int] == 59
            &&& r == s.skip(n.len() as int + 1)
        }),
{
    reveal(spec_parse_name);
    crate::search::lemma_first_index_of_spec(search_window(s), 59);
}

} // verus!
