//! Calibration values: the first and last digit of each line, where a digit
//! may also be spelled out as a word.
use vstd::prelude::*;
use vstd::string::StringSliceAdditionalSpecFns;
use crate::text::{content_lines, is_digit, lines_of, rows_view};

verus! {

/// The English word for digit `d` (one to nine).
pub open spec fn digit_word(d: nat) -> Seq<u8> {
    if d == 1 {
        seq![111u8, 110, 101]
    } else if d == 2 {
        seq![116u8, 119, 111]
    } else if d == 3 {
        seq![116u8, 104, 114, 101, 101]
    } else if d == 4 {
        seq![102u8, 111, 117, 114]
    } else if d == 5 {
        seq![102u8, 105, 118, 101]
    } else if d == 6 {
        seq![115u8, 105, 120]
    } else if d == 7 {
        seq![115u8, 101, 118, 101, 110]
    } else if d == 8 {
        seq![101u8, 105, 103, 104, 116]
    } else {
        seq![110u8, 105, 110, 101]
    }
}

/// `w` is written in `l` starting at position `i`.
pub open spec fn word_at(l: Seq<u8>, i: int, w: Seq<u8>) -> bool {
    0 <= i && i + w.len() <= l.len() && l.subrange(i, i + w.len()) == w
}

/// The first digit from `d` to nine whose word starts at position `i`.
pub open spec fn spelled_from(l: Seq<u8>, i: int, d: nat) -> Option<nat>
    decreases 10 - d,
{
    if d > 9 {
        None
    } else if word_at(l, i, digit_word(d)) {
        Some(d)
    } else {
        spelled_from(l, i, d + 1)
    }
}

/// The digit written at position `i`, as a numeral or, when `spelled`, as a
/// word.
pub open spec fn digit_at(l: Seq<u8>, i: int, spelled: bool) -> Option<nat> {
    if is_digit(l[i]) {
        Some((l[i] - 48) as nat)
    } else if spelled {
        spelled_from(l, i, 1)
    } else {
        None
    }
}

/// The first digit at a position from `i` on.
pub open spec fn first_digit(l: Seq<u8>, i: int, spelled: bool) -> Option<nat>
    decreases l.len() - i,
{
    if i < 0 || i >= l.len() {
        None
    } else {
        match digit_at(l, i, spelled) {
            Some(d) => Some(d),
            None => first_digit(l, i + 1, spelled),
        }
    }
}

/// The last digit at a position below `i`.
pub open spec fn last_digit(l: Seq<u8>, i: int, spelled: bool) -> Option<nat>
    decreases i,
{
    if i <= 0 || i > l.len() {
        None
    } else {
        match digit_at(l, i - 1, spelled) {
            Some(d) => Some(d),
            None => last_digit(l, i - 1, spelled),
        }
    }
}

/// The line's calibration value: its first digit then its last, read as a
/// two-digit number.
pub open spec fn line_value(l: Seq<u8>, spelled: bool) -> nat {
    first_digit(l, 0, spelled).unwrap() * 10 + last_digit(l, l.len() as int, spelled).unwrap()
}

pub open spec fn has_digit(l: Seq<u8>, spelled: bool) -> bool {
    first_digit(l, 0, spelled) is Some
}

pub open spec fn sum_values(ls: Seq<Seq<u8>>, n: nat, spelled: bool) -> nat
    decreases n,
{
    if n == 0 {
        0
    } else {
        sum_values(ls, (n - 1) as nat, spelled) + line_value(ls[n - 1], spelled)
    }
}

/// Sums over more lines are never smaller.
pub proof fn lemma_sum_values_grows(ls: Seq<Seq<u8>>, i: nat, n: nat, spelled: bool)
    requires
        i <= n,
    ensures
        sum_values(ls, i, spelled) <= sum_values(ls, n, spelled),
    decreases n - i,
{
    if i < n {
        lemma_sum_values_grows(ls, i, (n - 1) as nat, spelled);
    }
}

fn word_bytes(d: u8) -> (r: Vec<u8>)
    requires
        1 <= d <= 9,
    ensures
        r@ == digit_word(d as nat),
{
    let r = if d == 1 {
        vec![111u8, 110, 101]
    } else if d == 2 {
        vec![116u8, 119, 111]
    } else if d == 3 {
        vec![116u8, 104, 114, 101, 101]
    } else if d == 4 {
        vec![102u8, 111, 117, 114]
    } else if d == 5 {
        vec![102u8, 105, 118, 101]
    } else if d == 6 {
        vec![115u8, 105, 120]
    } else if d == 7 {
        vec![115u8, 101, 118, 101, 110]
    } else if d == 8 {
        vec![101u8, 105, 103, 104, 116]
    } else {
        vec![110u8, 105, 110, 101]
    };
    assert(r@ == digit_word(d as nat));
    r
}

/// Whether `w` is written in `l` at position `i`.
fn matches_at(l: &[u8], i: usize, w: &Vec<u8>) -> (r: bool)
    ensures
        r == word_at(l@, i as int, w@),
{
    if i > l.len() || w.len() > l.len() - i {
        return false;
    }
    let rest = crate::text::slice_from(l, i);
    let mut k: usize = 0;
    while k < w.len()
        invariant
            k <= w@.len(),
            i <= l@.len(),
            i + w@.len() <= l@.len(),
            rest@ == l@.subrange(i as int, l@.len() as int),
            forall|j: int| 0 <= j < k ==> l@[i + j] == w@[j],
        decreases w@.len() - k,
    {
        if rest[k] != w[k] {
            assert(l@.subrange(i as int, i + w@.len())[k as int] != w@[k as int]);
            return false;
        }
        k += 1;
    }
    assert(l@.subrange(i as int, i + w@.len()) == w@);
    true
}

/// The digit written at position `i`.
pub fn digit_at_exec(l: &[u8], i: usize, spelled: bool) -> (r: Option<u8>)
    requires
        i < l@.len(),
    ensures
        r is Some <==> digit_at(l@, i as int, spelled) is Some,
        r is Some ==> r.unwrap() as nat == digit_at(l@, i as int, spelled).unwrap() && r.unwrap() <= 9,
{
    if 48 <= l[i] && l[i] <= 57 {
        return Some(l[i] - 48);
    }
    if !spelled {
        return None;
    }
    let mut d: u8 = 1;
    while d <= 9
        invariant
            1 <= d <= 10,
            spelled,
            i < l@.len(),
            !is_digit(l@[i as int]),
            spelled_from(l@, i as int, 1) == spelled_from(l@, i as int, d as nat),
        decreases 10 - d,
    {
        let w = word_bytes(d);
        if matches_at(l, i, &w) {
            assert(spelled_from(l@, i as int, d as nat) == Some(d as nat));
            return Some(d);
        }
        d += 1;
    }
    None
}

/// The line's calibration value; `None` when it holds no digit.
pub fn line_value_exec(l: &[u8], spelled: bool) -> (r: Option<u64>)
    ensures
        r is Some <==> has_digit(l@, spelled),
        r is Some ==> r.unwrap() == line_value(l@, spelled) && r.unwrap() <= 99,
{
    let mut i: usize = 0;
    let mut first: Option<u8> = None;
    while i < l.len() && first.is_none()
        invariant
            i <= l@.len(),
            first is None ==> first_digit(l@, 0, spelled) == first_digit(l@, i as int, spelled),
            first is Some ==> i < l@.len() && first_digit(l@, 0, spelled) == Some(first.unwrap() as nat)
                && digit_at(l@, i as int, spelled) is Some && first.unwrap() <= 9,
        decreases l@.len() - i + if first is None { 1int } else { 0int },
    {
        match digit_at_exec(l, i, spelled) {
            Some(d) => {
                first = Some(d);
            },
            None => {
                i += 1;
            },
        }
    }
    let f = match first {
        None => {
            return None;
        },
        Some(f) => f,
    };
    assert(has_digit(l@, spelled));
    let mut j: usize = l.len();
    let mut last: Option<u8> = None;
    proof {
        lemma_last_exists(l@, i as int, spelled);
    }
    while j > 0 && last.is_none()
        invariant
            j <= l@.len(),
            last is None ==> last_digit(l@, l@.len() as int, spelled) == last_digit(l@, j as int, spelled),
            last is None ==> last_digit(l@, j as int, spelled) is Some,
            last is Some ==> last_digit(l@, l@.len() as int, spelled) == Some(last.unwrap() as nat)
                && last.unwrap() <= 9,
        decreases j + if last is None { 1int } else { 0int },
    {
        match digit_at_exec(l, j - 1, spelled) {
            Some(d) => {
                last = Some(d);
            },
            None => {
                j -= 1;
            },
        }
    }
    let last = match last {
        None => {
            return None;
        },
        Some(d) => d,
    };
    Some(f as u64 * 10 + last as u64)
}

proof fn lemma_last_exists(l: Seq<u8>, i: int, spelled: bool)
    requires
        0 <= i < l.len(),
        digit_at(l, i, spelled) is Some,
    ensures
        last_digit(l, l.len() as int, spelled) is Some,
{
    lemma_last_from(l, i, l.len() as int, spelled);
}

proof fn lemma_last_from(l: Seq<u8>, i: int, j: int, spelled: bool)
    requires
        0 <= i < j <= l.len(),
        digit_at(l, i, spelled) is Some,
    ensures
        last_digit(l, j, spelled) is Some,
    decreases j,
{
    if digit_at(l, j - 1, spelled) is None {
        lemma_last_from(l, i, j - 1, spelled);
    }
}

/// Sum of the calibration values of the lines of `input`; `None` when a line
/// holds no digit or the sum exceeds `u64::MAX`.
pub fn sum_calibration(input: &str, spelled: bool) -> (r: Option<u64>)
    ensures
        (forall|i: int|
            0 <= i < content_lines(input.spec_bytes()).len() ==> has_digit(
                #[trigger] content_lines(input.spec_bytes())[i],
                spelled,
            )) || r is None,
        r is Some ==> r.unwrap() == sum_values(
            content_lines(input.spec_bytes()),
            content_lines(input.spec_bytes()).len(),
            spelled,
        ),
        r is None ==> (exists|i: int|
            0 <= i < content_lines(input.spec_bytes()).len() && !has_digit(
                #[trigger] content_lines(input.spec_bytes())[i],
                spelled,
            )) || sum_values(content_lines(input.spec_bytes()), content_lines(input.spec_bytes()).len(), spelled)
            > u64::MAX,
{
    let lines = lines_of(input);
    let ghost ls = content_lines(input.spec_bytes());
    let mut acc: u64 = 0;
    let mut i: usize = 0;
    while i < lines.len()
        invariant
            i <= lines@.len(),
            rows_view(lines@) == ls,
            ls == content_lines(input.spec_bytes()),
            forall|j: int| 0 <= j < i ==> has_digit(#[trigger] ls[j], spelled),
            acc == sum_values(ls, i as nat, spelled),
        decreases lines@.len() - i,
    {
        assert(lines@[i as int]@ == ls[i as int]);
        let v = match line_value_exec(lines[i].as_slice(), spelled) {
            None => {
                assert(!has_digit(ls[i as int], spelled));
                return None;
            },
            Some(v) => v,
        };
        if acc > u64::MAX - v {
            proof {
                lemma_sum_values_grows(ls, (i + 1) as nat, ls.len(), spelled);
            }
            return None;
        }
        acc = acc + v;
        i += 1;
    }
    Some(acc)
}

/// Sum of the values made of numeral digits.
pub fn part1(input: &str) -> (r: Option<u64>)
    ensures
        r is Some ==> r.unwrap() == sum_values(
            content_lines(input.spec_bytes()),
            content_lines(input.spec_bytes()).len(),
            false,
        ),
        r is None ==> (exists|i: int|
            0 <= i < content_lines(input.spec_bytes()).len() && !has_digit(
                #[trigger] content_lines(input.spec_bytes())[i],
                false,
            )) || sum_values(content_lines(input.spec_bytes()), content_lines(input.spec_bytes()).len(), false)
            > u64::MAX,
{
    sum_calibration(input, false)
}

/// Sum of the values where digits may be spelled out.
pub fn part2(input: &str) -> (r: Option<u64>)
    ensures
        r is Some ==> r.unwrap() == sum_values(
            content_lines(input.spec_bytes()),
            content_lines(input.spec_bytes()).len(),
            true,
        ),
        r is None ==> (exists|i: int|
            0 <= i < content_lines(input.spec_bytes()).len() && !has_digit(
                #[trigger] content_lines(input.spec_bytes())[i],
                true,
            )) || sum_values(content_lines(input.spec_bytes()), content_lines(input.spec_bytes()).len(), true)
            > u64::MAX,
{
    sum_calibration(input, true)
}

} // verus!
