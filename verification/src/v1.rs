//! Line handling of the first, text-based reader: a line is split at its
//! first `;`, and the temperature is read as an integer once every `.` is
//! removed from it.

use vstd::prelude::*;
use vstd::string::StrSliceExecFns;
use crate::stats::{StationStatsMap, abs_value, decimal_digits, render_decimal};
use crate::summary::{record, record_fits};

verus! {

/// `s` without any `.`.
pub open spec fn remove_dots(s: Seq<char>) -> Seq<char>
    decreases s.len(),
{
    if s.len() == 0 {
        Seq::empty()
    } else if s.last() == '.' {
        remove_dots(s.drop_last())
    } else {
        remove_dots(s.drop_last()).push(s.last())
    }
}

/// Whether `c` is one of `0` to `9`.
pub open spec fn is_ascii_digit(c: char) -> bool {
    '0' <= c && c <= '9'
}

/// The number that the decimal digits `ds` write.
pub open spec fn digits_value(ds: Seq<char>) -> int
    decreases ds.len(),
{
    if ds.len() == 0 {
        0
    } else {
        digits_value(ds.drop_last()) * 10 + (ds.last() as int - 48)
    }
}

/// `t` read as an `i16` the way Rust reads integers: an optional `+` or
/// `-`, then at least one decimal digit and nothing else, and a value
/// within `i16`.
pub open spec fn spec_parse_i16(t: Seq<char>) -> Option<int> {
    let negative = t.len() > 0 && t[0] == '-';
    let ds = unsigned_part(t);
    if ds.len() == 0 || !all_digits(ds) {
        None
    } else {
        let v = if negative { -digits_value(ds) } else { digits_value(ds) };
        if i16::MIN <= v <= i16::MAX {
            Some(v)
        } else {
            None
        }
    }
}

/// `t` without its leading sign, if it has one.
pub open spec fn unsigned_part(t: Seq<char>) -> Seq<char> {
    if t.len() > 0 && (t[0] == '-' || t[0] == '+') {
        t.drop_first()
    } else {
        t
    }
}

/// Whether every character of `ds` is a decimal digit.
pub open spec fn all_digits(ds: Seq<char>) -> bool {
    forall|i: int| 0 <= i < ds.len() ==> is_ascii_digit(#[trigger] ds[i])
}

/// More digits never write a smaller number.
proof fn lemma_digits_value_grows(ds: Seq<char>, i: int, j: int)
    requires
        0 <= i <= j <= ds.len(),
        forall|k: int| 0 <= k < ds.len() ==> is_ascii_digit(#[trigger] ds[k]),
    ensures
        digits_value(ds.take(i)) <= digits_value(ds.take(j)),
        0 <= digits_value(ds.take(i)),
    decreases j,
{
    if j > 0 {
        if i < j {
            lemma_digits_value_grows(ds, i, j - 1);
        } else {
            lemma_digits_value_grows(ds, i - 1, j - 1);
        }
        assert(ds.take(j).drop_last() =~= ds.take(j - 1));
        assert(ds.take(j).last() == ds[j - 1]);
        assert(is_ascii_digit(ds[j - 1]));
    }
}

/// The temperature is not an integer once its dots are removed.
#[derive(Debug)]
pub struct InvalidValue;

/// Reads `t` as an `i16`.
fn parse_i16(t: &Vec<char>) -> (res: Option<i16>)
    ensures
        match res {
            Some(v) => spec_parse_i16(t@) == Some(v as int),
            None => spec_parse_i16(t@) is None,
        },
{
    let n = t.len();
    if n == 0 {
        return None;
    }
    let negative = t[0] == '-';
    let start: usize = if t[0] == '-' || t[0] == '+' { 1 } else { 0 };
    let ghost ds = unsigned_part(t@);
    assert(ds =~= t@.subrange(start as int, n as int));
    if start == n {
        return None;
    }
    let mut acc: u32 = 0;
    let mut i: usize = start;
    while i < n
        invariant
            start <= i <= n,
            n == t@.len(),
            ds == t@.subrange(start as int, n as int),
            ds == unsigned_part(t@),
            acc as int == digits_value(ds.take(i - start)),
            acc <= 32768,
            forall|k: int| 0 <= k < i - start ==> is_ascii_digit(#[trigger] ds[k]),
        decreases n - i,
    {
        let c = t[i];
        assert(ds[i - start] == c);
        if !(c >= '0' && c <= '9') {
            assert(!is_ascii_digit(ds[i - start]));
            assert(!all_digits(ds));
            return None;
        }
        let next = acc * 10 + (c as u32 - 48);
        assert(ds.take(i - start + 1).drop_last() =~= ds.take(i - start));
        assert(ds.take(i - start + 1).last() == c);
        if next > 32768 {
            proof {
                if all_digits(ds) {
                    lemma_digits_value_grows(ds, i - start + 1, ds.len() as int);
                    assert(ds.take(ds.len() as int) =~= ds);
                    assert(digits_value(ds) > 32768);
                }
                assert(spec_parse_i16(t@) is None);
            }
            return None;
        }
        acc = next;
        i = i + 1;
    }
    assert(ds.take(n - start) =~= ds);
    assert(all_digits(ds));
    let v: i32 = if negative { -(acc as i32) } else { acc as i32 };
    if v < -32768 || v > 32767 {
        return None;
    }
    Some(v as i16)
}

/// Reads a temperature such as `-12.3` as an integer number of tenths: the
/// `.` are removed and what is left is read as an `i16`.
pub fn parse_value(s: &str) -> (res: Result<i16, InvalidValue>)
    ensures
        match res {
            Ok(v) => spec_parse_i16(remove_dots(s@)) == Some(v as int),
            Err(_) => spec_parse_i16(remove_dots(s@)) is None,
        },
{
    let n = s.unicode_len();
    let mut t: Vec<char> = Vec::new();
    for i in 0..n
        invariant
            n == s@.len(),
            t@ == remove_dots(s@.take(i as int)),
    {
        let c = s.get_char(i);
        assert(s@.take(i + 1).drop_last() =~= s@.take(i as int));
        assert(s@.take(i + 1).last() == c);
        if c != '.' {
            t.push(c);
        }
    }
    assert(s@.take(n as int) =~= s@);
    match parse_i16(&t) {
        Some(v) => Ok(v),
        None => Err(InvalidValue),
    }
}

/// The smallest index at which `s` holds `c`, if it holds it at all.
pub open spec fn first_char_index(s: Seq<char>, c: char) -> Option<int> {
    if exists|i: int| 0 <= i < s.len() && s[i] == c {
        Some(choose|i: int| 0 <= i < s.len() && s[i] == c && forall|j: int| 0 <= j < i ==> s[j] != c)
    } else {
        None
    }
}

/// Splits `line` at its first `;`: the text before it and after it.
pub fn split_line(line: &str) -> (res: Option<(&str, &str)>)
    ensures
        match res {
            Some((name, value)) => match first_char_index(line@, ';') {
                Some(i) => name@ == line@.take(i) && value@ == line@.skip(i + 1),
                None => false,
            },
            None => first_char_index(line@, ';') is None,
        },
{
    let n = line.unicode_len();
    let mut i: usize = 0;
    while i < n
        invariant
            n == line@.len(),
            i <= n,
            forall|j: int| 0 <= j < i ==> line@[j] != ';',
        decreases n - i,
    {
        if line.get_char(i) == ';' {
            proof {
                let s = line@;
                assert(exists|k: int| 0 <= k < s.len() && s[k] == ';');
                let k = choose|k: int| 0 <= k < s.len() && s[k] == ';' && forall|j: int| 0 <= j < k ==> s[j] != ';';
                assert(exists|k: int| 0 <= k < s.len() && s[k] == ';' && forall|j: int| 0 <= j < k ==> s[j] != ';') by {
                    assert(0 <= i < s.len() && s[i as int] == ';' && forall|j: int| 0 <= j < i ==> s[j] != ';');
                }
                if k < i {
                    assert(s[k] != ';');
                }
                if i < k {
                    assert(s[i as int] != ';');
                }
            }
            let name = line.substring_char(0, i);
            let value = line.substring_char(i + 1, n);
            assert(name@ =~= line@.take(i as int));
            assert(value@ =~= line@.skip(i + 1));
            return Some((name, value));
        }
        i = i + 1;
    }
    None
}

/// Why a line could not be recorded.
#[derive(Debug)]
pub enum LineError {
    /// The line has no `;`.
    InvalidLine,
    /// The temperature is not an integer once its dots are removed.
    InvalidValue,
    /// Recording the line would take its station's sum or count beyond the
    /// machine types.
    Overflow,
}

/// The station name and temperature of a line, if it has them.
pub open spec fn spec_line_record(line: Seq<char>) -> Option<(Seq<char>, int)> {
    match first_char_index(line, ';') {
        None => None,
        Some(i) => match spec_parse_i16(remove_dots(line.skip(i + 1))) {
            None => None,
            Some(v) => Some((line.take(i), v)),
        },
    }
}

/// Records the measurement of `line` in `stats`, whose name is the text
/// before the first `;` and whose temperature is the text after it.
pub fn record_line(stats: &mut StationStatsMap, line: &str) -> (res: Result<(), LineError>)
    ensures
        match res {
            Ok(()) => spec_line_record(line@) matches Some((name, v))
                && record_fits(old(stats)@, vstd::utf8::encode_utf8(name), v)
                && final(stats)@ == record(old(stats)@, vstd::utf8::encode_utf8(name), v),
            Err(LineError::InvalidLine) => first_char_index(line@, ';') is None && final(stats)@ == old(stats)@,
            Err(LineError::InvalidValue) => first_char_index(line@, ';') is Some && spec_line_record(line@) is None
                && final(stats)@ == old(stats)@,
            Err(LineError::Overflow) => spec_line_record(line@) matches Some((name, v))
                && !record_fits(old(stats)@, vstd::utf8::encode_utf8(name), v) && final(stats)@ == old(stats)@,
        },
{
    let (name, value) = match split_line(line) {
        Some(p) => p,
        None => return Err(LineError::InvalidLine),
    };
    let v = match parse_value(value) {
        Ok(v) => v,
        Err(_) => return Err(LineError::InvalidValue),
    };
    if stats.try_update(name.as_bytes(), v) {
        Ok(())
    } else {
        Err(LineError::Overflow)
    }
}


/// Bytes taken as the characters of the same code.
pub open spec fn ascii_chars(b: Seq<u8>) -> Seq<char> {
    b.map_values(|x: u8| x as char)
}

/// Removing the dots of two strings one after the other removes them from
/// each.
proof fn lemma_remove_dots_append(a: Seq<char>, b: Seq<char>)
    ensures
        remove_dots(a + b) == remove_dots(a) + remove_dots(b),
    decreases b.len(),
{
    if b.len() == 0 {
        assert(a + b =~= a);
        assert(remove_dots(a) + remove_dots(b) =~= remove_dots(a));
    } else {
        assert((a + b).drop_last() =~= a + b.drop_last());
        assert((a + b).last() == b.last());
        lemma_remove_dots_append(a, b.drop_last());
        if b.last() != '.' {
            assert(remove_dots(a) + remove_dots(b) =~= (remove_dots(a) + remove_dots(b.drop_last())).push(b.last()));
        }
    }
}

/// A string without dots loses nothing when its dots are removed.
proof fn lemma_remove_dots_none(s: Seq<char>)
    requires
        forall|i: int| 0 <= i < s.len() ==> s[i] != '.',
    ensures
        remove_dots(s) == s,
    decreases s.len(),
{
    if s.len() > 0 {
        assert(s.last() == s[s.len() - 1]);
        lemma_remove_dots_none(s.drop_last());
        assert(s.drop_last().push(s.last()) =~= s);
    }
}

/// Decimal digits, with or without a sign in front, are read as the number
/// they write, when it fits in an `i16`.
pub proof fn lemma_parse_i16_digits(ds: Seq<char>)
    requires
        ds.len() > 0,
        all_digits(ds),
    ensures
        0 <= digits_value(ds),
        digits_value(ds) <= i16::MAX ==> spec_parse_i16(ds) == Some(digits_value(ds)),
        digits_value(ds) <= i16::MAX ==> spec_parse_i16(seq!['+'] + ds) == Some(digits_value(ds)),
        digits_value(ds) <= 32768 ==> spec_parse_i16(seq!['-'] + ds) == Some(-digits_value(ds)),
{
    lemma_digits_value_grows(ds, 0, ds.len() as int);
    assert(ds.take(ds.len() as int) =~= ds);
    assert(is_ascii_digit(ds[0]));
    assert((seq!['+'] + ds).drop_first() =~= ds);
    assert((seq!['-'] + ds).drop_first() =~= ds);
}

/// Every temperature from -99.9 to 99.9 in its decimal form is read back,
/// once its dot is removed, as its number of tenths: `0.0` as 0, `-1.0`
/// as -10, `12.3` as 123.
pub proof fn lemma_parse_rendered(v: int)
    requires
        -999 <= v <= 999,
    ensures
        spec_parse_i16(remove_dots(ascii_chars(render_decimal(v)))) == Some(v),
{
    let a = abs_value(v);
    let q = a / 10;
    let f = a % 10;
    let dd = decimal_digits(q as nat);
    let digits: Seq<char> = if q < 10 {
        seq![(48 + q) as u8 as char]
    } else {
        seq![(48 + q / 10) as u8 as char, (48 + q % 10) as u8 as char]
    };
    if q < 10 {
        assert(dd == seq![(48 + q) as u8]);
    } else {
        assert(decimal_digits((q / 10) as nat) == seq![(48 + q / 10) as u8]);
        assert(dd == seq![(48 + q / 10) as u8, (48 + q % 10) as u8]);
    }
    assert(ascii_chars(dd) =~= digits);
    let sign: Seq<char> = if v < 0 { seq!['-'] } else { Seq::empty() };
    let last = (48 + f) as u8 as char;
    let rendered = render_decimal(v);
    assert(ascii_chars(rendered) =~= sign + digits + seq!['.'] + seq![last]);
    let x = sign + digits;
    assert(forall|i: int| 0 <= i < x.len() ==> x[i] != '.');
    lemma_remove_dots_none(x);
    lemma_remove_dots_none(seq![last]);
    lemma_remove_dots_append(x + seq!['.'], seq![last]);
    lemma_remove_dots_append(x, seq!['.']);
    assert(seq!['.'].drop_last() =~= Seq::<char>::empty());
    assert(seq!['.'].last() == '.');
    assert(remove_dots(Seq::<char>::empty()) =~= Seq::<char>::empty());
    assert(remove_dots(seq!['.']) =~= Seq::<char>::empty());
    let ds = digits + seq![last];
    assert(remove_dots(ascii_chars(rendered)) =~= sign + ds);
    assert(all_digits(ds));
    assert(ds.drop_last() =~= digits);
    assert(((48 + q) as u8 as char) as int == 48 + q);
    assert(digits_value(Seq::<char>::empty()) == 0);
    if q < 10 {
        assert(digits.drop_last() =~= Seq::<char>::empty());
        assert(digits.last() == (48 + q) as u8 as char);
        assert(digits_value(digits) == q);
    } else {
        let hi = (48 + q / 10) as u8 as char;
        let lo = (48 + q % 10) as u8 as char;
        assert(hi as int == 48 + q / 10);
        assert(lo as int == 48 + q % 10);
        let one = seq![hi];
        assert(digits.drop_last() =~= one);
        assert(digits.last() == lo);
        assert(one.drop_last() =~= Seq::<char>::empty());
        assert(one.last() == hi);
        assert(digits_value(one) == q / 10);
        assert(digits_value(digits) == q);
    }
    assert(digits_value(ds) == a);
    lemma_parse_i16_digits(ds);
    if v >= 0 {
        assert(sign + ds =~= ds);
    }
}

} // verus!
