//! Lines of reflection in patterns of ash and rocks, exact or with one
//! smudge.
use vstd::prelude::*;
use vstd::string::StringSliceAdditionalSpecFns;
use crate::text::{content_lines, lines_of, rows_view};

verus! {

/// Positions below `n` where two rows differ.
pub open spec fn row_diff(a: Seq<u8>, b: Seq<u8>, n: nat) -> nat
    decreases n,
{
    if n == 0 {
        0
    } else {
        row_diff(a, b, (n - 1) as nat) + if a[n - 1] != b[n - 1] {
            1nat
        } else {
            0nat
        }
    }
}

/// Rows below `n` where columns `c` and `d` differ.
pub open spec fn col_diff(p: Seq<Seq<u8>>, c: int, d: int, n: nat) -> nat
    decreases n,
{
    if n == 0 {
        0
    } else {
        col_diff(p, c, d, (n - 1) as nat) + if p[n - 1][c] != p[n - 1][d] {
            1nat
        } else {
            0nat
        }
    }
}

pub open spec fn min(a: int, b: int) -> int {
    if a < b {
        a
    } else {
        b
    }
}

/// Differences between the first `m` pairs of rows mirrored about the line
/// below row `k`.
pub open spec fn rows_mirror_diff(p: Seq<Seq<u8>>, k: int, m: nat) -> nat
    decreases m,
{
    if m == 0 {
        0
    } else {
        rows_mirror_diff(p, k, (m - 1) as nat) + row_diff(p[k - (m - 1)], p[k + m], p[0].len())
    }
}

/// Differences between the first `m` pairs of columns mirrored about the
/// line right of column `k`.
pub open spec fn cols_mirror_diff(p: Seq<Seq<u8>>, k: int, m: nat) -> nat
    decreases m,
{
    if m == 0 {
        0
    } else {
        cols_mirror_diff(p, k, (m - 1) as nat) + col_diff(p, k - (m - 1), k + m, p.len())
    }
}

/// All differences across the horizontal line below row `k`.
pub open spec fn row_line_diff(p: Seq<Seq<u8>>, k: int) -> nat {
    rows_mirror_diff(p, k, min(k + 1, p.len() - k - 1) as nat)
}

/// All differences across the vertical line right of column `k`.
pub open spec fn col_line_diff(p: Seq<Seq<u8>>, k: int) -> nat {
    cols_mirror_diff(p, k, min(k + 1, p[0].len() - k - 1) as nat)
}

/// A non-empty pattern whose rows all have the same non-zero width, at
/// most a hundred thousand rows and columns.
pub open spec fn pattern_ok(p: Seq<Seq<u8>>) -> bool {
    &&& 0 < p.len() <= 100000
    &&& 0 < p[0].len() <= 100000
    &&& forall|r: int| 0 <= r < p.len() ==> (#[trigger] p[r]).len() == p[0].len()
}

/// The last horizontal line below a row under `k` with exactly `s`
/// differences across it.
pub open spec fn last_row_line(p: Seq<Seq<u8>>, s: nat, k: int) -> Option<int>
    decreases k,
{
    if k <= 0 {
        None
    } else if row_line_diff(p, k - 1) == s {
        Some(k - 1)
    } else {
        last_row_line(p, s, k - 1)
    }
}

/// The last vertical line right of a column under `k` with exactly `s`
/// differences across it.
pub open spec fn last_col_line(p: Seq<Seq<u8>>, s: nat, k: int) -> Option<int>
    decreases k,
{
    if k <= 0 {
        None
    } else if col_line_diff(p, k - 1) == s {
        Some(k - 1)
    } else {
        last_col_line(p, s, k - 1)
    }
}

/// A hundred times the rows above the horizontal line with `s` differences,
/// if there is one; else the columns left of such a vertical line; else 0.
pub open spec fn pattern_score(p: Seq<Seq<u8>>, s: nat) -> nat {
    match last_row_line(p, s, p.len() - 1) {
        Some(k) => (100 * (k + 1)) as nat,
        None => match last_col_line(p, s, p[0].len() - 1) {
            Some(k) => (k + 1) as nat,
            None => 0,
        },
    }
}

fn row_diff_exec(a: &Vec<u8>, b: &Vec<u8>, n: usize) -> (r: u64)
    requires
        n <= a@.len(),
        n <= b@.len(),
    ensures
        r == row_diff(a@, b@, n as nat),
        r <= n,
{
    let mut c: u64 = 0;
    let mut i: usize = 0;
    while i < n
        invariant
            i <= n <= a@.len(),
            n <= b@.len(),
            c == row_diff(a@, b@, i as nat),
            c <= i,
        decreases n - i,
    {
        if a[i] != b[i] {
            c += 1;
        }
        i += 1;
    }
    c
}

fn col_diff_exec(p: &Vec<Vec<u8>>, c: usize, d: usize) -> (r: u64)
    requires
        pattern_ok(rows_view(p@)),
        c < rows_view(p@)[0].len(),
        d < rows_view(p@)[0].len(),
    ensures
        r == col_diff(rows_view(p@), c as int, d as int, p@.len()),
        r <= p@.len(),
{
    let ghost pv = rows_view(p@);
    let mut n: u64 = 0;
    let mut r: usize = 0;
    while r < p.len()
        invariant
            r <= p@.len(),
            pv == rows_view(p@),
            pattern_ok(pv),
            c < pv[0].len(),
            d < pv[0].len(),
            n == col_diff(pv, c as int, d as int, r as nat),
            n <= r,
        decreases p@.len() - r,
    {
        assert(pv[r as int].len() == pv[0].len());
        if p[r][c] != p[r][d] {
            n += 1;
        }
        r += 1;
    }
    n
}

/// Differences across the horizontal line below row `k`.
pub fn row_line_diff_exec(p: &Vec<Vec<u8>>, k: usize) -> (r: u64)
    requires
        pattern_ok(rows_view(p@)),
        k + 1 < p@.len(),
    ensures
        r == row_line_diff(rows_view(p@), k as int),
{
    let ghost pv = rows_view(p@);
    let w = p[0].len();
    let h = p.len();
    let below = h - k - 1;
    let m = if k < below {
        k + 1
    } else {
        below
    };
    let mut t: u64 = 0;
    let mut j: usize = 0;
    while j < m
        invariant
            j <= m,
            m == min(k + 1, pv.len() - k - 1),
            pv == rows_view(p@),
            pattern_ok(pv),
            w == pv[0].len(),
            h == p@.len(),
            k + 1 < p@.len(),
            t == rows_mirror_diff(pv, k as int, j as nat),
            t <= j * w,
        decreases m - j,
    {
        assert(pv[k - j].len() == w && pv[k + j + 1].len() == w);
        let d = row_diff_exec(&p[k - j], &p[k + j + 1], w);
        assert(t + d <= (j + 1) * w) by (nonlinear_arith)
            requires t <= j * w, d <= w;
        assert((j + 1) * w <= 100000 * 100000) by (nonlinear_arith)
            requires j + 1 <= 100000, w <= 100000, j >= 0;
        t = t + d;
        j += 1;
    }
    t
}

/// Differences across the vertical line right of column `k`.
pub fn col_line_diff_exec(p: &Vec<Vec<u8>>, k: usize) -> (r: u64)
    requires
        pattern_ok(rows_view(p@)),
        k + 1 < rows_view(p@)[0].len(),
    ensures
        r == col_line_diff(rows_view(p@), k as int),
{
    let ghost pv = rows_view(p@);
    let w = p[0].len();
    let h = p.len();
    let right = w - k - 1;
    let m = if k < right {
        k + 1
    } else {
        right
    };
    let mut t: u64 = 0;
    let mut j: usize = 0;
    while j < m
        invariant
            j <= m,
            m == min(k + 1, pv[0].len() - k - 1),
            pv == rows_view(p@),
            pattern_ok(pv),
            w == pv[0].len(),
            h == pv.len(),
            t == cols_mirror_diff(pv, k as int, j as nat),
            t <= j * h,
        decreases m - j,
    {
        let d = col_diff_exec(p, k - j, k + j + 1);
        assert(t + d <= (j + 1) * h) by (nonlinear_arith)
            requires t <= j * h, d <= h;
        assert((j + 1) * h <= 100000 * 100000) by (nonlinear_arith)
            requires j + 1 <= 100000, h <= 100000, j >= 0;
        t = t + d;
        j += 1;
    }
    t
}

/// The pattern's score for lines with exactly `smudges` differences.
pub fn score(p: &Vec<Vec<u8>>, smudges: u64) -> (r: u64)
    requires
        pattern_ok(rows_view(p@)),
    ensures
        r == pattern_score(rows_view(p@), smudges as nat),
{
    let ghost pv = rows_view(p@);
    let mut k: usize = p.len() - 1;
    while k > 0
        invariant
            k < p@.len(),
            pv == rows_view(p@),
            pattern_ok(pv),
            last_row_line(pv, smudges as nat, pv.len() - 1) == last_row_line(pv, smudges as nat, k as int),
        decreases k,
    {
        if row_line_diff_exec(p, k - 1) == smudges {
            return 100 * k as u64;
        }
        k -= 1;
    }
    let w = p[0].len();
    let mut k: usize = w - 1;
    while k > 0
        invariant
            k < pv[0].len(),
            w == pv[0].len(),
            pv == rows_view(p@),
            pattern_ok(pv),
            last_row_line(pv, smudges as nat, pv.len() - 1) is None,
            last_col_line(pv, smudges as nat, w - 1) == last_col_line(pv, smudges as nat, k as int),
        decreases k,
    {
        if col_line_diff_exec(p, k - 1) == smudges {
            return k as u64;
        }
        k -= 1;
    }
    0
}

/// Patterns are runs of non-empty lines; each empty line closes one.
pub open spec fn groups(ls: Seq<Seq<u8>>, n: nat) -> Seq<Seq<Seq<u8>>>
    decreases n,
{
    if n == 0 {
        seq![Seq::<Seq<u8>>::empty()]
    } else {
        let g = groups(ls, (n - 1) as nat);
        if ls[n - 1].len() == 0 {
            g.push(Seq::empty())
        } else {
            g.update(g.len() - 1, g.last().push(ls[n - 1]))
        }
    }
}

pub proof fn lemma_groups_nonempty(ls: Seq<Seq<u8>>, n: nat)
    ensures
        groups(ls, n).len() >= 1,
    decreases n,
{
    if n > 0 {
        lemma_groups_nonempty(ls, (n - 1) as nat);
    }
}

pub open spec fn patterns_of(text: Seq<u8>) -> Seq<Seq<Seq<u8>>> {
    groups(content_lines(text), content_lines(text).len())
}

/// Every pattern is empty (a doubled blank line) or well formed and short
/// enough.
pub open spec fn patterns_ok(ps: Seq<Seq<Seq<u8>>>) -> bool {
    forall|i: int| 0 <= i < ps.len() ==> (#[trigger] ps[i]).len() == 0 || pattern_ok(ps[i])
}

pub open spec fn sum_scores(ps: Seq<Seq<Seq<u8>>>, s: nat, n: nat) -> nat
    decreases n,
{
    if n == 0 {
        0
    } else {
        sum_scores(ps, s, (n - 1) as nat) + if ps[n - 1].len() == 0 {
            0
        } else {
            pattern_score(ps[n - 1], s)
        }
    }
}

/// The patterns of `input`.
pub fn parse_patterns(input: &str) -> (r: Vec<Vec<Vec<u8>>>)
    ensures
        r@.len() == patterns_of(input.spec_bytes()).len(),
        forall|i: int| 0 <= i < r@.len() ==> rows_view((#[trigger] r@[i])@) == patterns_of(input.spec_bytes())[i],
{
    let lines = lines_of(input);
    let ghost ls = content_lines(input.spec_bytes());
    let mut out: Vec<Vec<Vec<u8>>> = Vec::new();
    let mut cur: Vec<Vec<u8>> = Vec::new();
    let mut i: usize = 0;
    while i < lines.len()
        invariant
            i <= lines@.len(),
            rows_view(lines@) == ls,
            out@.len() + 1 == groups(ls, i as nat).len(),
            forall|j: int| 0 <= j < out@.len() ==> rows_view((#[trigger] out@[j])@) == groups(ls, i as nat)[j],
            rows_view(cur@) == groups(ls, i as nat).last(),
        decreases lines@.len() - i,
    {
        assert(lines@[i as int]@ == ls[i as int]);
        let ghost g = groups(ls, i as nat);
        proof {
            lemma_groups_nonempty(ls, i as nat);
        }
        if lines[i].len() == 0 {
            out.push(cur);
            cur = Vec::new();
            assert(rows_view(cur@) =~= Seq::<Seq<u8>>::empty());
        } else {
            let ghost before = cur@;
            cur.push(crate::circuit::copy_bytes(lines[i].as_slice()));
            assert(rows_view(cur@) =~= rows_view(before).push(ls[i as int]));
        }
        i += 1;
    }
    out.push(cur);
    proof {
        lemma_groups_nonempty(ls, i as nat);
        assert(lines@.len() == ls.len());
    }
    out
}

proof fn lemma_sum_scores_grow(ps: Seq<Seq<Seq<u8>>>, s: nat, i: nat, n: nat)
    requires
        i <= n,
    ensures
        sum_scores(ps, s, i) <= sum_scores(ps, s, n),
    decreases n - i,
{
    if i < n {
        lemma_sum_scores_grow(ps, s, i, (n - 1) as nat);
    }
}

/// Sum of the pattern scores for lines with exactly `smudges` differences;
/// `None` when a pattern is ragged, too tall, or the sum exceeds
/// `u64::MAX`.
pub fn summarize(input: &str, smudges: u64) -> (r: Option<u64>)
    ensures
        patterns_ok(patterns_of(input.spec_bytes())) || r is None,
        r is None ==> !patterns_ok(patterns_of(input.spec_bytes())) || sum_scores(
            patterns_of(input.spec_bytes()),
            smudges as nat,
            patterns_of(input.spec_bytes()).len(),
        ) > u64::MAX,
        r is Some ==> r.unwrap() == sum_scores(
            patterns_of(input.spec_bytes()),
            smudges as nat,
            patterns_of(input.spec_bytes()).len(),
        ),
{
    let ps = parse_patterns(input);
    let ghost pv = patterns_of(input.spec_bytes());
    let mut acc: u64 = 0;
    let mut i: usize = 0;
    while i < ps.len()
        invariant
            i <= ps@.len(),
            ps@.len() == pv.len(),
            pv == patterns_of(input.spec_bytes()),
            forall|j: int| 0 <= j < ps@.len() ==> rows_view((#[trigger] ps@[j])@) == pv[j],
            forall|j: int| 0 <= j < i ==> (#[trigger] pv[j]).len() == 0 || pattern_ok(pv[j]),
            acc == sum_scores(pv, smudges as nat, i as nat),
        decreases ps@.len() - i,
    {
        let p = &ps[i];
        assert(rows_view(p@) == pv[i as int]);
        let v: u64 = if p.len() == 0 {
            0
        } else {
            if p.len() > 100000 || p[0].len() == 0 || p[0].len() > 100000 {
                assert(rows_view(p@)[0] == p@[0]@);
                assert(!pattern_ok(pv[i as int]));
                return None;
            }
            let w = p[0].len();
            let mut r: usize = 0;
            while r < p.len()
                invariant
                    r <= p@.len(),
                    i < pv.len(),
                    p@.len() > 0,
                    pv == patterns_of(input.spec_bytes()),
                    rows_view(p@) == pv[i as int],
                    w == rows_view(p@)[0].len(),
                    forall|t: int| 0 <= t < r ==> (#[trigger] rows_view(p@)[t]).len() == w,
                decreases p@.len() - r,
            {
                if p[r].len() != w {
                    assert(rows_view(p@)[r as int] == p@[r as int]@);
                    assert(!pattern_ok(pv[i as int]));
                    return None;
                }
                r += 1;
            }
            score(p, smudges)
        };
        if acc > u64::MAX - v {
            proof {
                lemma_sum_scores_grow(pv, smudges as nat, (i + 1) as nat, pv.len());
            }
            return None;
        }
        acc = acc + v;
        i += 1;
    }
    Some(acc)
}

/// Summary of the exact lines of reflection.
pub fn part1(input: &str) -> (r: Option<u64>)
    ensures
        r is Some ==> r.unwrap() == sum_scores(patterns_of(input.spec_bytes()), 0, patterns_of(input.spec_bytes()).len()),
        r is None ==> !patterns_ok(patterns_of(input.spec_bytes())) || sum_scores(
            patterns_of(input.spec_bytes()),
            0,
            patterns_of(input.spec_bytes()).len(),
        ) > u64::MAX,
{
    summarize(input, 0)
}

/// Summary of the lines of reflection that need one smudge cleaned.
pub fn part2(input: &str) -> (r: Option<u64>)
    ensures
        r is Some ==> r.unwrap() == sum_scores(patterns_of(input.spec_bytes()), 1, patterns_of(input.spec_bytes()).len()),
        r is None ==> !patterns_ok(patterns_of(input.spec_bytes())) || sum_scores(
            patterns_of(input.spec_bytes()),
            1,
            patterns_of(input.spec_bytes()).len(),
        ) > u64::MAX,
{
    summarize(input, 1)
}

} // verus!
