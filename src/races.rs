//! Boat races: how many ways to hold the button beat the record.
use vstd::prelude::*;
use vstd::string::StringSliceAdditionalSpecFns;
use crate::text::{all_digits, content_lines, dec_value, lines_of, parse_u64, rows_view, split_words, words};

verus! {

/// Number of hold times `h` with `1 <= h < end` that travel farther than
/// `record` in a race of `time`.
pub open spec fn ways_below(time: nat, record: nat, end: nat) -> nat
    decreases end,
{
    if end <= 1 {
        0
    } else {
        ways_below(time, record, (end - 1) as nat) + if (time - (end - 1)) * (end - 1) > record {
            1nat
        } else {
            0nat
        }
    }
}

/// Winning hold times from one up to, not including, `time - 1`.
pub open spec fn ways(time: nat, record: nat) -> nat {
    if time < 2 {
        0
    } else {
        ways_below(time, record, (time - 1) as nat)
    }
}

/// Counts the winning hold times of a race.
pub fn count_ways(time: u64, record: u64) -> (r: u64)
    ensures
        r == ways(time as nat, record as nat),
{
    if time < 2 {
        return 0;
    }
    let mut n: u64 = 0;
    let mut h: u64 = 1;
    while h < time - 1
        invariant
            2 <= time,
            1 <= h <= time - 1,
            n == ways_below(time as nat, record as nat, h as nat),
            n <= h,
        decreases time - h,
    {
        assert((time - h) as int * h as int <= u64::MAX as int * u64::MAX as int) by (nonlinear_arith)
            requires time - h <= u64::MAX, h <= u64::MAX, time - h >= 0, h >= 0;
        assert(u64::MAX as int * u64::MAX as int <= u128::MAX);
        let go = (time - h) as u128 * h as u128;
        assert(go == (time - h) * h);
        assert((time - h) * h <= time * time) by (nonlinear_arith)
            requires h <= time;
        if go > record as u128 {
            n += 1;
        }
        h += 1;
    }
    n
}

pub open spec fn time_label() -> Seq<u8> {
    seq![84u8, 105, 109, 101, 58]
}

pub open spec fn distance_label() -> Seq<u8> {
    seq![68u8, 105, 115, 116, 97, 110, 99, 101, 58]
}

/// `l` is `label` followed by numbers, all separated by spaces.
pub open spec fn row_ok(l: Seq<u8>, label: Seq<u8>) -> bool {
    let w = words(l);
    &&& w.len() >= 2
    &&& w[0] == label
    &&& forall|k: int| 1 <= k < w.len() ==> all_digits(#[trigger] w[k]) && dec_value(w[k]) <= u64::MAX
}

/// The numbers of a row.
pub open spec fn row_numbers(l: Seq<u8>) -> Seq<nat> {
    Seq::new((words(l).len() - 1) as nat, |k: int| dec_value(words(l)[k + 1]))
}

/// The digits of a row's numbers written one after the other.
pub open spec fn row_digits(w: Seq<Seq<u8>>, n: nat) -> Seq<u8>
    decreases n,
{
    if n <= 1 {
        Seq::empty()
    } else {
        row_digits(w, (n - 1) as nat) + w[n - 1]
    }
}

/// The text is a time row then a distance row.
pub open spec fn sheet_ok(text: Seq<u8>) -> bool {
    let ls = content_lines(text);
    ls.len() == 2 && row_ok(ls[0], time_label()) && row_ok(ls[1], distance_label())
}

/// Product over the races (times paired with distances in order, as far as
/// both rows go) of the number of ways to win.
pub open spec fn product_of_ways(times: Seq<nat>, records: Seq<nat>, n: nat) -> nat
    decreases n,
{
    if n == 0 {
        1
    } else {
        product_of_ways(times, records, (n - 1) as nat) * ways(times[n - 1], records[n - 1])
    }
}

proof fn lemma_product_zero(times: Seq<nat>, records: Seq<nat>, n: nat, j: nat)
    requires
        j < n,
        ways(times[j as int], records[j as int]) == 0,
    ensures
        product_of_ways(times, records, n) == 0,
    decreases n,
{
    let w = ways(times[n - 1], records[n - 1]);
    let p = product_of_ways(times, records, (n - 1) as nat);
    if j < n - 1 {
        lemma_product_zero(times, records, (n - 1) as nat, j);
        assert(p * w == 0) by (nonlinear_arith)
            requires p == 0;
    } else {
        assert(p * w == 0) by (nonlinear_arith)
            requires w == 0;
    }
}

proof fn lemma_product_grows(times: Seq<nat>, records: Seq<nat>, i: nat, n: nat)
    requires
        i <= n,
        forall|j: int| 0 <= j < n ==> #[trigger] ways(times[j], records[j]) >= 1,
    ensures
        product_of_ways(times, records, i) <= product_of_ways(times, records, n),
    decreases n - i,
{
    if i < n {
        lemma_product_grows(times, records, i, (n - 1) as nat);
        let p = product_of_ways(times, records, (n - 1) as nat);
        let w = ways(times[n - 1], records[n - 1]);
        assert(p <= p * w) by (nonlinear_arith)
            requires w >= 1;
    }
}

fn words_equal(a: &Vec<u8>, b: &Vec<u8>) -> (r: bool)
    ensures
        r == (a@ == b@),
{
    crate::circuit::bytes_eq(a.as_slice(), b.as_slice())
}

/// Reads a row of numbers after `label`.
pub fn parse_row(l: &[u8], label: &Vec<u8>) -> (r: Option<Vec<u64>>)
    ensures
        r is Some <==> row_ok(l@, label@),
        r is Some ==> r.unwrap()@.len() == row_numbers(l@).len() && forall|k: int|
            0 <= k < r.unwrap()@.len() ==> r.unwrap()@[k] as nat == #[trigger] row_numbers(l@)[k],
{
    let w = split_words(l);
    if w.len() < 2 {
        return None;
    }
    assert(w@[0]@ == words(l@)[0]);
    if !words_equal(&w[0], label) {
        return None;
    }
    let mut out: Vec<u64> = Vec::new();
    let mut k: usize = 1;
    while k < w.len()
        invariant
            1 <= k <= w@.len(),
            rows_view(w@) == words(l@),
            out@.len() == k - 1,
            forall|j: int| 1 <= j < k ==> all_digits(#[trigger] words(l@)[j]) && dec_value(words(l@)[j]) <= u64::MAX,
            forall|j: int| 0 <= j < k - 1 ==> out@[j] as nat == #[trigger] dec_value(words(l@)[j + 1]),
        decreases w@.len() - k,
    {
        assert(w@[k as int]@ == words(l@)[k as int]);
        match parse_u64(w[k].as_slice()) {
            None => {
                proof {
                    crate::text::lemma_words_nonempty(l@);
                    assert(!(all_digits(words(l@)[k as int]) && dec_value(words(l@)[k as int]) <= u64::MAX));
                }
                return None;
            },
            Some(v) => {
                out.push(v);
            },
        }
        k += 1;
    }
    Some(out)
}

/// The number written by all digits of a row after its label; `None` when
/// it exceeds `u64::MAX`.
pub fn row_as_one_number(l: &[u8]) -> (r: Option<u64>)
    requires
        words(l@).len() >= 2,
        forall|k: int| 1 <= k < words(l@).len() ==> all_digits(#[trigger] words(l@)[k]),
    ensures
        r is Some <==> dec_value(row_digits(words(l@), words(l@).len())) <= u64::MAX,
        r is Some ==> r.unwrap() == dec_value(row_digits(words(l@), words(l@).len())),
{
    let w = split_words(l);
    let mut digits: Vec<u8> = Vec::new();
    let mut k: usize = 1;
    while k < w.len()
        invariant
            1 <= k <= w@.len(),
            rows_view(w@) == words(l@),
            digits@ == row_digits(words(l@), k as nat),
        decreases w@.len() - k,
    {
        let piece = &w[k];
        assert(piece@ == words(l@)[k as int]);
        let mut i: usize = 0;
        let ghost start = digits@;
        while i < piece.len()
            invariant
                i <= piece@.len(),
                digits@ == start + piece@.take(i as int),
            decreases piece@.len() - i,
        {
            digits.push(piece[i]);
            i += 1;
            assert(digits@ == start + piece@.take(i as int));
        }
        assert(piece@.take(piece@.len() as int) == piece@);
        k += 1;
    }
    proof {
        crate::text::lemma_words_nonempty(l@);
        assert(words(l@)[1].len() > 0);
        lemma_row_digits_all(words(l@), words(l@).len());
    }
    match parse_u64(digits.as_slice()) {
        None => None,
        Some(v) => Some(v),
    }
}

proof fn lemma_row_digits_all(w: Seq<Seq<u8>>, n: nat)
    requires
        n <= w.len(),
        n >= 2,
        forall|k: int| 1 <= k < w.len() ==> all_digits(#[trigger] w[k]),
    ensures
        all_digits(row_digits(w, n)),
        row_digits(w, n).len() > 0 || w[1].len() == 0,
    decreases n,
{
    if n > 2 {
        lemma_row_digits_all(w, (n - 1) as nat);
        let a = row_digits(w, (n - 1) as nat);
        assert(all_digits(w[n - 1]));
        assert forall|i: int| 0 <= i < (a + w[n - 1]).len() implies crate::text::is_digit(#[trigger] (a + w[n - 1])[i]) by {
            if i < a.len() {
                assert((a + w[n - 1])[i] == a[i]);
            } else {
                assert((a + w[n - 1])[i] == w[n - 1][i - a.len()]);
            }
        }
    } else {
        assert(row_digits(w, 1) == Seq::<u8>::empty());
        assert(row_digits(w, 2) == Seq::<u8>::empty() + w[1]);
        assert(Seq::<u8>::empty() + w[1] == w[1]);
    }
}

/// Product over the races of the number of ways to win; `None` when the
/// sheet is malformed or the product exceeds `u64::MAX`.
pub fn part1(input: &str) -> (r: Option<u64>)
    ensures
        !sheet_ok(input.spec_bytes()) ==> r is None,
        r is Some ==> ({
            let ls = content_lines(input.spec_bytes());
            let t = row_numbers(ls[0]);
            let d = row_numbers(ls[1]);
            r.unwrap() == product_of_ways(t, d, if t.len() < d.len() { t.len() } else { d.len() })
        }),
        r is None ==> !sheet_ok(input.spec_bytes()) || ({
            let ls = content_lines(input.spec_bytes());
            let t = row_numbers(ls[0]);
            let d = row_numbers(ls[1]);
            product_of_ways(t, d, if t.len() < d.len() { t.len() } else { d.len() }) > u64::MAX
        }),
{
    let lines = lines_of(input);
    let ghost ls = content_lines(input.spec_bytes());
    if lines.len() != 2 {
        return None;
    }
    assert(lines@[0]@ == ls[0] && lines@[1]@ == ls[1]);
    let tl: Vec<u8> = vec![84u8, 105, 109, 101, 58];
    let dl: Vec<u8> = vec![68u8, 105, 115, 116, 97, 110, 99, 101, 58];
    let times = match parse_row(lines[0].as_slice(), &tl) {
        None => {
            return None;
        },
        Some(t) => t,
    };
    let records = match parse_row(lines[1].as_slice(), &dl) {
        None => {
            return None;
        },
        Some(d) => d,
    };
    let ghost t = row_numbers(ls[0]);
    let ghost d = row_numbers(ls[1]);
    let n = if times.len() < records.len() {
        times.len()
    } else {
        records.len()
    };
    assert(sheet_ok(input.spec_bytes()));
    let mut z: usize = 0;
    while z < n
        invariant
            z <= n,
            ls == content_lines(input.spec_bytes()),
            sheet_ok(input.spec_bytes()),
            t == row_numbers(ls[0]),
            d == row_numbers(ls[1]),
            n == (if t.len() < d.len() { t.len() } else { d.len() }),
            n <= times@.len(),
            n <= records@.len(),
            times@.len() == t.len(),
            records@.len() == d.len(),
            forall|k: int| 0 <= k < times@.len() ==> times@[k] as nat == #[trigger] t[k],
            forall|k: int| 0 <= k < records@.len() ==> records@[k] as nat == #[trigger] d[k],
            forall|j: int| 0 <= j < z ==> #[trigger] ways(t[j], d[j]) >= 1,
        decreases n - z,
    {
        assert(times@[z as int] as nat == t[z as int]);
        assert(records@[z as int] as nat == d[z as int]);
        if count_ways(times[z], records[z]) == 0 {
            proof {
                lemma_product_zero(t, d, n as nat, z as nat);
            }
            return Some(0);
        }
        z += 1;
    }
    let mut acc: u64 = 1;
    let mut i: usize = 0;
    while i < n
        invariant
            i <= n,
            ls == content_lines(input.spec_bytes()),
            sheet_ok(input.spec_bytes()),
            t == row_numbers(ls[0]),
            d == row_numbers(ls[1]),
            n == (if t.len() < d.len() { t.len() } else { d.len() }),
            forall|j: int| 0 <= j < n ==> #[trigger] ways(t[j], d[j]) >= 1,
            n <= times@.len(),
            n <= records@.len(),
            times@.len() == t.len(),
            records@.len() == d.len(),
            forall|k: int| 0 <= k < times@.len() ==> times@[k] as nat == #[trigger] t[k],
            forall|k: int| 0 <= k < records@.len() ==> records@[k] as nat == #[trigger] d[k],
            acc == product_of_ways(t, d, i as nat),
        decreases n - i,
    {
        assert(times@[i as int] as nat == t[i as int]);
        assert(records@[i as int] as nat == d[i as int]);
        let w = count_ways(times[i], records[i]);
        if w != 0 && acc > u64::MAX / w {
            proof {
                assert(acc * w > u64::MAX) by (nonlinear_arith)
                    requires w >= 1, acc > u64::MAX / w;
                lemma_product_grows(t, d, (i + 1) as nat, n as nat);
            }
            return None;
        }
        assert(acc * w <= u64::MAX) by (nonlinear_arith)
            requires w == 0 || acc <= u64::MAX / w;
        acc = acc * w;
        i += 1;
    }
    Some(acc)
}

/// Ways to win the single race whose time and distance are the rows'
/// digits written together; `None` when the sheet is malformed or a number
/// exceeds `u64::MAX`.
pub fn part2(input: &str) -> (r: Option<u64>)
    ensures
        !sheet_ok(input.spec_bytes()) ==> r is None,
        r is None ==> !sheet_ok(input.spec_bytes()) || ({
            let ls = content_lines(input.spec_bytes());
            dec_value(row_digits(words(ls[0]), words(ls[0]).len())) > u64::MAX || dec_value(
                row_digits(words(ls[1]), words(ls[1]).len()),
            ) > u64::MAX
        }),
        r is Some ==> ({
            let ls = content_lines(input.spec_bytes());
            r.unwrap() == ways(
                dec_value(row_digits(words(ls[0]), words(ls[0]).len())),
                dec_value(row_digits(words(ls[1]), words(ls[1]).len())),
            )
        }),
{
    let lines = lines_of(input);
    let ghost ls = content_lines(input.spec_bytes());
    if lines.len() != 2 {
        return None;
    }
    assert(lines@[0]@ == ls[0] && lines@[1]@ == ls[1]);
    let tl: Vec<u8> = vec![84u8, 105, 109, 101, 58];
    let dl: Vec<u8> = vec![68u8, 105, 115, 116, 97, 110, 99, 101, 58];
    if parse_row(lines[0].as_slice(), &tl).is_none() || parse_row(lines[1].as_slice(), &dl).is_none() {
        return None;
    }
    let time = match row_as_one_number(lines[0].as_slice()) {
        None => {
            return None;
        },
        Some(v) => v,
    };
    let record = match row_as_one_number(lines[1].as_slice()) {
        None => {
            return None;
        },
        Some(v) => v,
    };
    Some(count_ways(time, record))
}

} // verus!
