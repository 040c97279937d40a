//! Extrapolating sequences of readings by repeated differences.
use vstd::prelude::*;
use vstd::string::StringSliceAdditionalSpecFns;
use crate::text::{content_lines, int_value, is_int_text, lines_of, rows_view, split_words, words, parse_i64};

verus! {

/// Differences of neighbouring elements.
pub open spec fn diffs(s: Seq<int>) -> Seq<int> {
    if s.len() == 0 {
        Seq::empty()
    } else {
        Seq::new((s.len() - 1) as nat, |i: int| s[i + 1] - s[i])
    }
}

pub open spec fn all_zero(s: Seq<int>) -> bool {
    forall|i: int| 0 <= i < s.len() ==> s[i] == 0
}

pub open spec fn in_i64(v: int) -> bool {
    i64::MIN <= v <= i64::MAX
}

/// The value that continues `s`: zero for a sequence of zeros, else the last
/// element plus the value that continues its differences.
pub open spec fn next_value(s: Seq<int>) -> int
    decreases s.len(),
{
    if all_zero(s) {
        0
    } else {
        s.last() + next_value(diffs(s))
    }
}

/// The value that precedes `s`, by the same rule.
pub open spec fn prev_value(s: Seq<int>) -> int
    decreases s.len(),
{
    if all_zero(s) {
        0
    } else {
        s[0] - prev_value(diffs(s))
    }
}

/// Every difference at every level, and every partial result, fits in an
/// `i64` when extrapolating forwards (`forward`) or backwards.
pub open spec fn fits(s: Seq<int>, forward: bool) -> bool
    decreases s.len(),
{
    if all_zero(s) {
        true
    } else {
        &&& forall|i: int| 0 <= i < diffs(s).len() ==> in_i64(#[trigger] diffs(s)[i])
        &&& fits(diffs(s), forward)
        &&& in_i64(if forward { next_value(s) } else { prev_value(s) })
    }
}

pub open spec fn ints(s: Seq<i64>) -> Seq<int> {
    Seq::new(s.len(), |i: int| s[i] as int)
}

/// Continues `s` forwards (`forward`) or backwards; `None` when a value on
/// the way leaves the `i64` range.
pub fn extrapolate(s: &Vec<i64>, forward: bool) -> (r: Option<i64>)
    ensures
        r is Some <==> fits(ints(s@), forward),
        r is Some ==> r.unwrap() == if forward {
            next_value(ints(s@))
        } else {
            prev_value(ints(s@))
        },
    decreases s@.len(),
{
    let ghost v = ints(s@);
    let mut zero = true;
    let mut i: usize = 0;
    while i < s.len()
        invariant
            i <= s@.len(),
            v == ints(s@),
            zero == forall|j: int| 0 <= j < i ==> v[j] == 0,
        decreases s@.len() - i,
    {
        assert(v[i as int] == s@[i as int] as int);
        if s[i] != 0 {
            zero = false;
        }
        i += 1;
    }
    if zero {
        return Some(0);
    }
    assert(s@.len() > 0);
    let mut d: Vec<i64> = Vec::new();
    let mut k: usize = 0;
    while k < s.len() - 1
        invariant
            k <= s@.len() - 1,
            s@.len() > 0,
            v == ints(s@),
            d@.len() == k,
            forall|j: int| 0 <= j < k ==> d@[j] as int == diffs(v)[j],
        decreases s@.len() - k,
    {
        let a = s[k] as i128;
        let b = s[k + 1] as i128;
        let x = b - a;
        if x < i64::MIN as i128 || x > i64::MAX as i128 {
            assert(!in_i64(diffs(v)[k as int]));
            return None;
        }
        d.push(x as i64);
        k += 1;
    }
    assert(ints(d@) =~= diffs(v));
    assert(forall|j: int| 0 <= j < diffs(v).len() ==> in_i64(#[trigger] diffs(v)[j])) by {
        assert forall|j: int| 0 <= j < diffs(v).len() implies in_i64(#[trigger] diffs(v)[j]) by {
            assert(d@[j] as int == diffs(v)[j]);
        }
    }
    match extrapolate(&d, forward) {
        None => None,
        Some(inner) => {
            let x: i128 = if forward {
                s[s.len() - 1] as i128 + inner as i128
            } else {
                s[0] as i128 - inner as i128
            };
            if x < i64::MIN as i128 || x > i64::MAX as i128 {
                None
            } else {
                Some(x as i64)
            }
        },
    }
}

/// The readings on a line: its words, each an integer.
pub open spec fn line_ok(l: Seq<u8>) -> bool {
    forall|k: int|
        0 <= k < words(l).len() ==> is_int_text(#[trigger] words(l)[k]) && in_i64(int_value(words(l)[k]))
            && int_value(words(l)[k]) != i64::MIN
}

pub open spec fn readings(l: Seq<u8>) -> Seq<int> {
    Seq::new(words(l).len(), |k: int| int_value(words(l)[k]))
}

/// Sum of the extrapolated values of the first `n` lines.
pub open spec fn sum_extrapolated(ls: Seq<Seq<u8>>, n: nat, forward: bool) -> int
    decreases n,
{
    if n == 0 {
        0
    } else {
        sum_extrapolated(ls, (n - 1) as nat, forward) + if forward {
            next_value(readings(ls[n - 1]))
        } else {
            prev_value(readings(ls[n - 1]))
        }
    }
}

/// Reads the integers of a line.
pub fn parse_readings(l: &[u8]) -> (r: Option<Vec<i64>>)
    ensures
        r is Some <==> line_ok(l@),
        r is Some ==> ints(r.unwrap()@) == readings(l@),
{
    let ws = split_words(l);
    let mut out: Vec<i64> = Vec::new();
    let mut k: usize = 0;
    while k < ws.len()
        invariant
            k <= ws@.len(),
            rows_view(ws@) == words(l@),
            out@.len() == k,
            forall|j: int| 0 <= j < k ==> (out@[j] as int) == int_value(words(l@)[j]),
            forall|j: int|
                0 <= j < k ==> is_int_text(#[trigger] words(l@)[j]) && in_i64(int_value(words(l@)[j]))
                    && int_value(words(l@)[j]) != i64::MIN,
        decreases ws@.len() - k,
    {
        assert(ws@[k as int]@ == words(l@)[k as int]);
        match parse_i64(ws[k].as_slice()) {
            None => {
                assert(!line_ok(l@)) by {
                    assert(!(is_int_text(words(l@)[k as int]) && in_i64(int_value(words(l@)[k as int]))
                        && int_value(words(l@)[k as int]) != i64::MIN));
                }
                return None;
            },
            Some(v) => {
                out.push(v);
            },
        }
        k += 1;
    }
    assert(ints(out@) == readings(l@));
    Some(out)
}

/// Sum over the lines of `input` of the value that continues (`forward`)
/// or precedes each line's readings. `None` when a line holds something
/// else than integers, or a value on the way leaves the `i64` range.
pub fn sum_of_extrapolations(input: &str, forward: bool) -> (r: Option<i64>)
    ensures
        (forall|i: int|
            0 <= i < content_lines(input.spec_bytes()).len() ==> line_ok(
                #[trigger] content_lines(input.spec_bytes())[i],
            )) || r is None,
        r is Some ==> r.unwrap() == sum_extrapolated(
            content_lines(input.spec_bytes()),
            content_lines(input.spec_bytes()).len(),
            forward,
        ),
        r is None ==> lines_fail(content_lines(input.spec_bytes()), forward) || !in_i64(
            sum_extrapolated(content_lines(input.spec_bytes()), content_lines(input.spec_bytes()).len(), forward),
        ),
{
    let lines = lines_of(input);
    let ghost ls = content_lines(input.spec_bytes());
    let mut acc: i128 = 0;
    let mut i: usize = 0;
    while i < lines.len()
        invariant
            i <= lines@.len(),
            rows_view(lines@) == ls,
            ls == content_lines(input.spec_bytes()),
            forall|j: int| 0 <= j < i ==> line_ok(#[trigger] ls[j]),
            acc == sum_extrapolated(ls, i as nat, forward),
            -(i * 0x8000_0000_0000_0000) <= acc <= i * 0x7fff_ffff_ffff_ffff,
        decreases lines@.len() - i,
    {
        assert(lines@[i as int]@ == ls[i as int]);
        let nums = match parse_readings(lines[i].as_slice()) {
            None => {
                assert(!line_ok(ls[i as int]));
                return None;
            },
            Some(n) => n,
        };
        let v = match extrapolate(&nums, forward) {
            None => {
                assert(!fits(readings(ls[i as int]), forward));
                return None;
            },
            Some(v) => v,
        };
        assert((i + 1) * 0x8000_0000_0000_0000 <= 0x1_0000_0000_0000_0000 * 0x8000_0000_0000_0000) by (nonlinear_arith)
            requires i + 1 <= 0x1_0000_0000_0000_0000;
        acc = acc + v as i128;
        i += 1;
    }
    if acc < i64::MIN as i128 || acc > i64::MAX as i128 {
        return None;
    }
    Some(acc as i64)
}

/// Some line holds something else than integers, or extrapolating it
/// leaves the `i64` range.
pub open spec fn lines_fail(ls: Seq<Seq<u8>>, forward: bool) -> bool {
    exists|i: int| 0 <= i < ls.len() && (!line_ok(#[trigger] ls[i]) || !fits(readings(ls[i]), forward))
}

/// Sum of the next values of every line's readings.
pub fn part1(input: &str) -> (r: Option<i64>)
    ensures
        r is Some ==> r.unwrap() == sum_extrapolated(
            content_lines(input.spec_bytes()),
            content_lines(input.spec_bytes()).len(),
            true,
        ),
        r is None ==> lines_fail(content_lines(input.spec_bytes()), true) || !in_i64(
            sum_extrapolated(content_lines(input.spec_bytes()), content_lines(input.spec_bytes()).len(), true),
        ),
{
    sum_of_extrapolations(input, true)
}

/// Sum of the values that precede every line's readings.
pub fn part2(input: &str) -> (r: Option<i64>)
    ensures
        r is Some ==> r.unwrap() == sum_extrapolated(
            content_lines(input.spec_bytes()),
            content_lines(input.spec_bytes()).len(),
            false,
        ),
        r is None ==> lines_fail(content_lines(input.spec_bytes()), false) || !in_i64(
            sum_extrapolated(content_lines(input.spec_bytes()), content_lines(input.spec_bytes()).len(), false),
        ),
{
    sum_of_extrapolations(input, false)
}

} // verus!
