//! Parsing of a temperature written with exactly one fractional digit,
//! such as `-12.3` or `4.5`, into tenths of a degree.

use vstd::prelude::*;

verus! {

/// The value of an ASCII decimal digit, if `b` is one.
pub open spec fn digit_value(b: u8) -> Option<int> {
    if 48 <= b && b <= 57 {
        Some(b - 48)
    } else {
        None
    }
}

/// `d0 d1 . f0` read as tenths: `100 * d0 + 10 * d1 + f0`, when all three are digits.
pub open spec fn spec_calculate_value(d0: u8, d1: u8, f0: u8) -> Option<int> {
    match (digit_value(d0), digit_value(d1), digit_value(f0)) {
        (Some(a), Some(b), Some(c)) => Some(100 * a + 10 * b + c),
        _ => None,
    }
}

/// Negates the value of a successful parse, keeping the rest.
pub open spec fn negate_parsed(r: Option<int>, rest: Seq<u8>) -> Option<(int, Seq<u8>)> {
    match r {
        Some(v) => Some((-v, rest)),
        None => None,
    }
}

/// Keeps the value of a successful parse, with the rest.
pub open spec fn keep_parsed(r: Option<int>, rest: Seq<u8>) -> Option<(int, Seq<u8>)> {
    match r {
        Some(v) => Some((v, rest)),
        None => None,
    }
}

/// The four accepted shapes, tried in this order:
/// `-DD.F`, `-D.F`, `DD.F`, `D.F`. The first shape whose punctuation matches
/// decides: when its digits are not digits the parse fails.
#[verifier::opaque]
pub open spec fn spec_parse_value(d: Seq<u8>) -> Option<(int, Seq<u8>)> {
    if d.len() >= 5 && d[0] == 45 && d[3] == 46 {
        negate_parsed(spec_calculate_value(d[1], d[2], d[4]), d.skip(5))
    } else if d.len() >= 4 && d[0] == 45 && d[2] == 46 {
        negate_parsed(spec_calculate_value(48, d[1], d[3]), d.skip(4))
    } else if d.len() >= 4 && d[2] == 46 {
        keep_parsed(spec_calculate_value(d[0], d[1], d[3]), d.skip(4))
    } else if d.len() >= 3 && d[1] == 46 {
        keep_parsed(spec_calculate_value(48, d[0], d[2]), d.skip(3))
    } else {
        None
    }
}

fn calculate_value(d0: u8, d1: u8, f0: u8) -> (res: Option<i16>)
    ensures
        match res {
            Some(v) => spec_calculate_value(d0, d1, f0) == Some(v as int),
            None => spec_calculate_value(d0, d1, f0) is None,
        },
{
    if d0 < 48 || d1 < 48 || f0 < 48 {
        return None;
    }
    let d0 = d0 - 48;
    let d1 = d1 - 48;
    let f0 = f0 - 48;
    if d0 > 9 || d1 > 9 || f0 > 9 {
        return None;
    }
    Some((d0 as i16) * 100 + (d1 as i16) * 10 + (f0 as i16))
}

/// Parses a temperature at the start of `d`; returns it in tenths of a
/// degree together with the bytes that follow it.
pub fn parse(d: &[u8]) -> (res: Option<(i16, &[u8])>)
    ensures
        match res {
            Some((v, rest)) => spec_parse_value(d@) == Some((v as int, rest@)),
            None => spec_parse_value(d@) is None,
        },
{
    reveal(spec_parse_value);
    let n = d.len();
    if n >= 5 && d[0] == 45 && d[3] == 46 {
        match calculate_value(d[1], d[2], d[4]) {
            Some(v) => Some((-v, &d[5..n])),
            None => None,
        }
    } else if n >= 4 && d[0] == 45 && d[2] == 46 {
        match calculate_value(48, d[1], d[3]) {
            Some(v) => Some((-v, &d[4..n])),
            None => None,
        }
    } else if n >= 4 && d[2] == 46 {
        match calculate_value(d[0], d[1], d[3]) {
            Some(v) => Some((v, &d[4..n])),
            None => None,
        }
    } else if n >= 3 && d[1] == 46 {
        match calculate_value(48, d[0], d[2]) {
            Some(v) => Some((v, &d[3..n])),
            None => None,
        }
    } else {
        None
    }
}


/// A parse that stops before the end of `s` reads the same from `s`
/// followed by anything; what it reads ends with a digit.
pub proof fn lemma_parse_value_extend(s: Seq<u8>, x: Seq<u8>)
    requires
        spec_parse_value(s) is Some,
        spec_parse_value(s)->Some_0.1.len() > 0,
    ensures
        ({
            let (v, t) = spec_parse_value(s)->Some_0;
            &&& spec_parse_value(s + x) == Some((v, t + x))
            &&& t.len() < s.len()
            &&& t == s.skip(s.len() - t.len())
            &&& digit_value(s[s.len() - t.len() - 1]) is Some
        }),
{
    reveal(spec_parse_value);
    let y = s + x;
    assert(forall|i: int| 0 <= i < s.len() ==> y[i] == s[i]);
    if s.len() >= 5 && s[0] == 45 && s[3] == 46 {
        assert(y.skip(5) =~= s.skip(5) + x);
    } else if s.len() >= 4 && s[0] == 45 && s[2] == 46 {
        assert(y.skip(4) =~= s.skip(4) + x);
    } else if s.len() >= 4 && s[2] == 46 {
        assert(y.skip(4) =~= s.skip(4) + x);
    } else {
        assert(y.skip(3) =~= s.skip(3) + x);
    }
}


/// What a parse leaves is what follows a digit of `s`.
pub proof fn lemma_parse_value_shape(s: Seq<u8>)
    requires
        spec_parse_value(s) is Some,
    ensures
        ({
            let (v, t) = spec_parse_value(s)->Some_0;
            &&& t.len() < s.len()
            &&& t == s.skip(s.len() - t.len())
            &&& digit_value(s[s.len() - t.len() - 1]) is Some
        }),
{
    reveal(spec_parse_value);
}


/// A parse of `p` followed by `x` that reads no byte of `x` reads the same
/// from `p` alone.
pub proof fn lemma_parse_value_prefix(p: Seq<u8>, x: Seq<u8>)
    requires
        spec_parse_value(p + x) is Some,
        spec_parse_value(p + x)->Some_0.1.len() >= x.len(),
    ensures
        ({
            let (v, t) = spec_parse_value(p + x)->Some_0;
            &&& spec_parse_value(p) == Some((v, t.take(t.len() - x.len())))
            &&& t == t.take(t.len() - x.len()) + x
        }),
{
    reveal(spec_parse_value);
    let y = p + x;
    assert(forall|i: int| 0 <= i < p.len() ==> y[i] == p[i]);
    if y.len() >= 5 && y[0] == 45 && y[3] == 46 {
        let t = y.skip(5);
        assert(p.len() >= 5);
        assert(t.take(t.len() - x.len()) =~= p.skip(5));
        assert(t =~= p.skip(5) + x);
    } else if y.len() >= 4 && y[0] == 45 && y[2] == 46 {
        let t = y.skip(4);
        assert(p.len() >= 4);
        assert(t.take(t.len() - x.len()) =~= p.skip(4));
        assert(t =~= p.skip(4) + x);
    } else if y.len() >= 4 && y[2] == 46 {
        let t = y.skip(4);
        assert(p.len() >= 4);
        assert(t.take(t.len() - x.len()) =~= p.skip(4));
        assert(t =~= p.skip(4) + x);
    } else {
        let t = y.skip(3);
        assert(p.len() >= 3);
        assert(t.take(t.len() - x.len()) =~= p.skip(3));
        assert(t =~= p.skip(3) + x);
    }
}

/// What a parse reads holds no line break: only `-`, `.` and digits.
pub proof fn lemma_parse_value_no_break(s: Seq<u8>)
    requires
        spec_parse_value(s) is Some,
    ensures
        forall|j: int| 0 <= j < s.len() - spec_parse_value(s)->Some_0.1.len() ==> s[j] != 10,
{
    reveal(spec_parse_value);
}

} // verus!
