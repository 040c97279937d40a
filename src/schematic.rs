//! An engine schematic: numbers next to symbols, and gears next to exactly
//! two numbers.
use vstd::prelude::*;
use vstd::string::StringSliceAdditionalSpecFns;
use crate::text::{content_lines, dec_value, is_digit, lines_of, parse_u64, rows_view};

verus! {

/// A symbol: neither a digit nor `.`; nothing outside the grid is one.
pub open spec fn sym(g: Seq<Seq<u8>>, r: int, c: int) -> bool {
    0 <= r < g.len() && 0 <= c < g[r].len() && !is_digit(g[r][c]) && g[r][c] != 46
}

/// A number's first digit is at `c`.
pub open spec fn num_start(row: Seq<u8>, c: int) -> bool {
    0 <= c < row.len() && is_digit(row[c]) && (c == 0 || !is_digit(row[c - 1]))
}

/// The position after the digits that start at `c`.
pub open spec fn run_end(row: Seq<u8>, c: int) -> int
    decreases row.len() - c,
{
    if 0 <= c < row.len() && is_digit(row[c]) {
        run_end(row, c + 1)
    } else {
        c
    }
}

pub open spec fn num_value(row: Seq<u8>, c: int) -> nat {
    dec_value(row.subrange(c, run_end(row, c)))
}

/// Some symbol touches the digits of row `r` from `s` to before `e`,
/// diagonals included.
pub open spec fn adjacent(g: Seq<Seq<u8>>, r: int, s: int, e: int) -> bool {
    exists|rr: int, cc: int| r - 1 <= rr <= r + 1 && s - 1 <= cc <= e && #[trigger] sym(g, rr, cc)
}

/// Sum of the part numbers of row `r` that start before column `k`.
pub open spec fn row_parts(g: Seq<Seq<u8>>, r: int, k: int) -> nat
    decreases k,
{
    if k <= 0 {
        0
    } else {
        row_parts(g, r, k - 1) + if num_start(g[r], k - 1) && adjacent(g, r, k - 1, run_end(g[r], k - 1)) {
            num_value(g[r], k - 1)
        } else {
            0
        }
    }
}

pub open spec fn parts_sum(g: Seq<Seq<u8>>, n: int) -> nat
    decreases n,
{
    if n <= 0 {
        0
    } else {
        parts_sum(g, n - 1) + row_parts(g, n - 1, g[n - 1].len() as int)
    }
}

/// Values of the numbers of `row` starting before `k` whose span, widened by
/// one on each side, covers column `c`.
pub open spec fn touching(row: Seq<u8>, c: int, k: int) -> Seq<nat>
    decreases k,
{
    if k <= 0 {
        Seq::empty()
    } else {
        let prev = touching(row, c, k - 1);
        let s = k - 1;
        if num_start(row, s) && s - 1 <= c <= run_end(row, s) {
            prev.push(num_value(row, s))
        } else {
            prev
        }
    }
}

pub open spec fn touch_row(g: Seq<Seq<u8>>, rr: int, c: int) -> Seq<nat> {
    if 0 <= rr < g.len() {
        touching(g[rr], c, g[rr].len() as int)
    } else {
        Seq::empty()
    }
}

/// The numbers next to the cell at row `r`, column `c`.
pub open spec fn neighbours(g: Seq<Seq<u8>>, r: int, c: int) -> Seq<nat> {
    touch_row(g, r - 1, c) + touch_row(g, r, c) + touch_row(g, r + 1, c)
}

/// A `*` next to exactly two numbers gives their product.
pub open spec fn ratio(g: Seq<Seq<u8>>, r: int, c: int) -> nat {
    let ns = neighbours(g, r, c);
    if g[r][c] == 42 && ns.len() == 2 {
        ns[0] * ns[1]
    } else {
        0
    }
}

pub open spec fn row_ratios(g: Seq<Seq<u8>>, r: int, k: int) -> nat
    decreases k,
{
    if k <= 0 {
        0
    } else {
        row_ratios(g, r, k - 1) + ratio(g, r, k - 1)
    }
}

pub open spec fn ratios_sum(g: Seq<Seq<u8>>, n: int) -> nat
    decreases n,
{
    if n <= 0 {
        0
    } else {
        ratios_sum(g, n - 1) + row_ratios(g, n - 1, g[n - 1].len() as int)
    }
}

/// Every number of the grid fits in a `u64`.
pub open spec fn numbers_fit(g: Seq<Seq<u8>>) -> bool {
    forall|r: int, c: int| 0 <= r < g.len() && #[trigger] num_start(g[r], c) ==> num_value(g[r], c) <= u64::MAX
}

fn is_digit_exec(b: u8) -> (r: bool)
    ensures
        r == is_digit(b),
{
    48 <= b && b <= 57
}

/// The position after the digits that start at `c`.
pub fn run_end_exec(row: &Vec<u8>, c: usize) -> (r: usize)
    requires
        c <= row@.len(),
    ensures
        r as int == run_end(row@, c as int),
        c <= r <= row@.len(),
{
    let mut e = c;
    while e < row.len() && is_digit_exec(row[e])
        invariant
            c <= e <= row@.len(),
            run_end(row@, c as int) == run_end(row@, e as int),
        decreases row@.len() - e,
    {
        e += 1;
    }
    e
}

fn sym_exec(g: &Vec<Vec<u8>>, r: usize, c: usize) -> (b: bool)
    ensures
        b == sym(rows_view(g@), r as int, c as int),
{
    if r < g.len() && c < g[r].len() {
        assert(rows_view(g@)[r as int] == g@[r as int]@);
        !is_digit_exec(g[r][c]) && g[r][c] != 46
    } else {
        false
    }
}

/// Whether a symbol touches the digits of row `r` from `s` to before `e`.
pub fn adjacent_exec(g: &Vec<Vec<u8>>, r: usize, s: usize, e: usize) -> (b: bool)
    requires
        r < g@.len(),
        s <= e,
        e < usize::MAX,
    ensures
        b == adjacent(rows_view(g@), r as int, s as int, e as int),
{
    let ghost gv = rows_view(g@);
    let h = g.len();
    let c0: usize = if s == 0 {
        0
    } else {
        s - 1
    };
    let mut t: usize = 0;
    while t < 3
        invariant
            t <= 3,
            r < g@.len(),
            h == g@.len(),
            gv == rows_view(g@),
            c0 == (if s == 0 { 0 } else { s - 1 }),
            s <= e < usize::MAX,
            forall|x: int, y: int| r - 1 <= x < r - 1 + t && s - 1 <= y <= e ==> !#[trigger] sym(gv, x, y),
        decreases 3 - t,
    {
        let inside = if t == 0 {
            r > 0
        } else if t == 1 {
            true
        } else {
            r + 1 < h
        };
        if inside {
            let rr = if t == 0 {
                r - 1
            } else if t == 1 {
                r
            } else {
                r + 1
            };
            let mut cc = c0;
            while cc <= e
                invariant
                    c0 <= cc <= e + 1,
                    t < 3,
                    rr == r + t - 1,
                    r < g@.len(),
                    gv == rows_view(g@),
                    c0 == (if s == 0 { 0 } else { s - 1 }),
                    s <= e < usize::MAX,
                    forall|x: int, y: int| r - 1 <= x < r - 1 + t && s - 1 <= y <= e ==> !#[trigger] sym(gv, x, y),
                    forall|y: int| s - 1 <= y < cc ==> !#[trigger] sym(gv, rr as int, y),
                decreases e + 1 - cc,
            {
                if sym_exec(g, rr, cc) {
                    assert(sym(gv, rr as int, cc as int));
                    assert(adjacent(gv, r as int, s as int, e as int));
                    return true;
                }
                cc += 1;
            }
        }
        proof {
            assert forall|x: int, y: int| r - 1 <= x < r - 1 + t + 1 && s - 1 <= y <= e implies !#[trigger] sym(gv, x, y) by {
                if x == r - 1 + t {
                    if !inside {
                        assert(x < 0 || x >= gv.len());
                    }
                }
            }
        }
        t += 1;
    }
    false
}

pub open spec fn grid_of(text: Seq<u8>) -> Seq<Seq<u8>> {
    content_lines(text)
}

/// Sum of the part numbers of row `r`; `None` when one exceeds `u64::MAX`
/// or the sum does.
fn row_parts_exec(g: &Vec<Vec<u8>>, r: usize) -> (res: Option<u64>)
    requires
        r < g@.len(),
    ensures
        res is Some ==> res.unwrap() == row_parts(rows_view(g@), r as int, g@[r as int]@.len() as int),
{
    let ghost gv = rows_view(g@);
    let row = &g[r];
    assert(gv[r as int] == row@);
    let mut acc: u64 = 0;
    let mut c: usize = 0;
    while c < row.len()
        invariant
            c <= row@.len(),
            r < g@.len(),
            gv == rows_view(g@),
            gv[r as int] == row@,
            acc == row_parts(gv, r as int, c as int),
        decreases row@.len() - c,
    {
        let start = is_digit_exec(row[c]) && (c == 0 || !is_digit_exec(row[c - 1]));
        assert(start == num_start(row@, c as int));
        if start {
            let e = run_end_exec(row, c);
            if e == usize::MAX {
                return None;
            }
            if adjacent_exec(g, r, c, e) {
                let (head, _) = row.as_slice().split_at(e);
                let (_, digits) = head.split_at(c);
                assert(digits@ == row@.subrange(c as int, e as int));
                let v = match parse_u64(digits) {
                    None => {
                        return None;
                    },
                    Some(v) => v,
                };
                if acc > u64::MAX - v {
                    return None;
                }
                acc = acc + v;
            }
        }
        c += 1;
    }
    Some(acc)
}

/// Sum of the numbers next to a symbol; `None` when a sum or a number
/// exceeds `u64::MAX`.
pub fn part1(input: &str) -> (r: Option<u64>)
    ensures
        r is Some ==> r.unwrap() == parts_sum(grid_of(input.spec_bytes()), grid_of(input.spec_bytes()).len() as int),
{
    let g = lines_of(input);
    let ghost gv = rows_view(g@);
    let mut acc: u64 = 0;
    let mut r: usize = 0;
    while r < g.len()
        invariant
            r <= g@.len(),
            gv == rows_view(g@),
            gv == grid_of(input.spec_bytes()),
            acc == parts_sum(gv, r as int),
        decreases g@.len() - r,
    {
        let v = match row_parts_exec(&g, r) {
            None => {
                return None;
            },
            Some(v) => v,
        };
        assert(gv[r as int].len() == g@[r as int]@.len());
        if acc > u64::MAX - v {
            return None;
        }
        acc = acc + v;
        r += 1;
    }
    Some(acc)
}

/// Values of the numbers of row `rr` next to column `c`.
fn touching_exec(g: &Vec<Vec<u8>>, rr: usize, c: usize) -> (res: Option<Vec<u64>>)
    requires
        rr < g@.len(),
    ensures
        res is Some ==> res.unwrap()@.len() == touch_row(rows_view(g@), rr as int, c as int).len() && forall|i: int|
            0 <= i < res.unwrap()@.len() ==> res.unwrap()@[i] as nat == #[trigger] touch_row(
                rows_view(g@),
                rr as int,
                c as int,
            )[i],
{
    let ghost gv = rows_view(g@);
    let row = &g[rr];
    assert(gv[rr as int] == row@);
    let mut out: Vec<u64> = Vec::new();
    let mut k: usize = 0;
    while k < row.len()
        invariant
            k <= row@.len(),
            gv == rows_view(g@),
            gv[rr as int] == row@,
            out@.len() == touching(row@, c as int, k as int).len(),
            forall|i: int| 0 <= i < out@.len() ==> out@[i] as nat == #[trigger] touching(row@, c as int, k as int)[i],
        decreases row@.len() - k,
    {
        let start = is_digit_exec(row[k]) && (k == 0 || !is_digit_exec(row[k - 1]));
        assert(start == num_start(row@, k as int));
        if start {
            let e = run_end_exec(row, k);
            if (k == 0 || k - 1 <= c) && c <= e {
                let (head, _) = row.as_slice().split_at(e);
                let (_, digits) = head.split_at(k);
                assert(digits@ == row@.subrange(k as int, e as int));
                let v = match parse_u64(digits) {
                    None => {
                        return None;
                    },
                    Some(v) => v,
                };
                out.push(v);
            }
        }
        k += 1;
    }
    Some(out)
}

pub open spec fn nats(s: Seq<u64>) -> Seq<nat> {
    Seq::new(s.len(), |i: int| s[i] as nat)
}

/// Values of the numbers of row `above - 1` next to column `c` (none for a
/// row outside the grid).
fn touch_row_exec(g: &Vec<Vec<u8>>, above: usize, c: usize) -> (res: Option<Vec<u64>>)
    ensures
        res is Some ==> nats(res.unwrap()@) == touch_row(rows_view(g@), above - 1, c as int),
{
    if above == 0 || above - 1 >= g.len() {
        return Some(Vec::new());
    }
    match touching_exec(g, above - 1, c) {
        None => None,
        Some(v) => {
            assert(nats(v@) =~= touch_row(rows_view(g@), above - 1, c as int));
            Some(v)
        },
    }
}

fn append_all(dst: &mut Vec<u64>, src: &Vec<u64>)
    ensures
        final(dst)@ == old(dst)@ + src@,
{
    let mut i: usize = 0;
    let ghost start = dst@;
    while i < src.len()
        invariant
            i <= src@.len(),
            start == old(dst)@,
            dst@ == start + src@.take(i as int),
        decreases src@.len() - i,
    {
        dst.push(src[i]);
        i += 1;
        assert(dst@ == start + src@.take(i as int));
    }
    assert(src@.take(src@.len() as int) == src@);
}

/// The gear ratio of the cell at row `r`, column `c`.
fn ratio_exec(g: &Vec<Vec<u8>>, r: usize, c: usize) -> (res: Option<u64>)
    requires
        r < g@.len(),
        c < g@[r as int]@.len(),
    ensures
        res is Some ==> res.unwrap() == ratio(rows_view(g@), r as int, c as int),
{
    let ghost gv = rows_view(g@);
    assert(gv[r as int] == g@[r as int]@);
    if g[r][c] != 42 {
        return Some(0);
    }
    let mut ns = match touch_row_exec(g, r, c) {
        None => {
            return None;
        },
        Some(v) => v,
    };
    let h = g.len();
    let mid = match touch_row_exec(g, r + 1, c) {
        None => {
            return None;
        },
        Some(v) => v,
    };
    let below = if r + 1 < h {
        match touch_row_exec(g, r + 2, c) {
            None => {
                return None;
            },
            Some(v) => v,
        }
    } else {
        assert(touch_row(gv, r + 1, c as int) == Seq::<nat>::empty());
        let v: Vec<u64> = Vec::new();
        assert(nats(v@) =~= Seq::<nat>::empty());
        v
    };
    let ghost a = ns@;
    append_all(&mut ns, &mid);
    append_all(&mut ns, &below);
    assert(nats(ns@) =~= nats(a) + nats(mid@) + nats(below@));
    assert(nats(ns@) == neighbours(gv, r as int, c as int));
    if ns.len() != 2 {
        return Some(0);
    }
    assert(ns@[0] as nat == neighbours(gv, r as int, c as int)[0]);
    assert(ns@[1] as nat == neighbours(gv, r as int, c as int)[1]);
    assert(ns[0] as int * ns[1] as int <= u64::MAX as int * u64::MAX as int) by (nonlinear_arith)
        requires ns[0] <= u64::MAX, ns[1] <= u64::MAX, ns[0] >= 0, ns[1] >= 0;
    assert(u64::MAX as int * u64::MAX as int <= u128::MAX);
    let p = ns[0] as u128 * ns[1] as u128;
    if p > u64::MAX as u128 {
        return None;
    }
    Some(p as u64)
}

/// Sum of the gear ratios; `None` when a number, a ratio or the sum
/// exceeds `u64::MAX`.
pub fn part2(input: &str) -> (r: Option<u64>)
    ensures
        r is Some ==> r.unwrap() == ratios_sum(grid_of(input.spec_bytes()), grid_of(input.spec_bytes()).len() as int),
{
    let g = lines_of(input);
    let ghost gv = rows_view(g@);
    let mut acc: u64 = 0;
    let mut r: usize = 0;
    while r < g.len()
        invariant
            r <= g@.len(),
            gv == rows_view(g@),
            gv == grid_of(input.spec_bytes()),
            acc == ratios_sum(gv, r as int),
        decreases g@.len() - r,
    {
        let mut row_acc: u64 = 0;
        let mut c: usize = 0;
        assert(gv[r as int] == g@[r as int]@);
        while c < g[r].len()
            invariant
                r < g@.len(),
                c <= g@[r as int]@.len(),
                gv == rows_view(g@),
                gv[r as int] == g@[r as int]@,
                row_acc == row_ratios(gv, r as int, c as int),
            decreases g@[r as int]@.len() - c,
        {
            let v = match ratio_exec(&g, r, c) {
                None => {
                    return None;
                },
                Some(v) => v,
            };
            if row_acc > u64::MAX - v {
                return None;
            }
            row_acc = row_acc + v;
            c += 1;
        }
        if acc > u64::MAX - row_acc {
            return None;
        }
        acc = acc + row_acc;
        r += 1;
    }
    Some(acc)
}

} // verus!
