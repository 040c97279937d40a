//! Distances between galaxies in an image whose empty rows and columns
//! have grown.
use vstd::prelude::*;
use vstd::string::StringSliceAdditionalSpecFns;
use crate::text::{content_lines, lines_of, rows_view};

verus! {

pub open spec fn is_galaxy(b: u8) -> bool {
    b == 35
}

/// A non-empty rectangle of `.` and `#`, at most a thousand each way.
pub open spec fn image_ok(g: Seq<Seq<u8>>) -> bool {
    &&& 0 < g.len() <= 1000
    &&& 0 < g[0].len() <= 1000
    &&& forall|r: int| 0 <= r < g.len() ==> (#[trigger] g[r]).len() == g[0].len()
    &&& forall|r: int, c: int| 0 <= r < g.len() && 0 <= c < g[r].len() ==> (#[trigger] g[r][c] == 35 || g[r][c] == 46)
}

pub open spec fn row_empty(g: Seq<Seq<u8>>, r: int) -> bool {
    forall|c: int| 0 <= c < g[r].len() ==> !is_galaxy(#[trigger] g[r][c])
}

pub open spec fn col_empty(g: Seq<Seq<u8>>, c: int) -> bool {
    forall|r: int| 0 <= r < g.len() ==> !is_galaxy(#[trigger] g[r][c])
}

/// Empty rows above row `r`.
pub open spec fn empty_rows_before(g: Seq<Seq<u8>>, r: nat) -> nat
    decreases r,
{
    if r == 0 {
        0
    } else {
        empty_rows_before(g, (r - 1) as nat) + if row_empty(g, r - 1) {
            1nat
        } else {
            0nat
        }
    }
}

/// Empty columns left of column `c`.
pub open spec fn empty_cols_before(g: Seq<Seq<u8>>, c: nat) -> nat
    decreases c,
{
    if c == 0 {
        0
    } else {
        empty_cols_before(g, (c - 1) as nat) + if col_empty(g, c - 1) {
            1nat
        } else {
            0nat
        }
    }
}

/// Galaxies of row `r` left of column `c`, left to right.
pub open spec fn row_galaxies(g: Seq<Seq<u8>>, r: nat, c: nat) -> Seq<(nat, nat)>
    decreases c,
{
    if c == 0 {
        Seq::empty()
    } else {
        let prev = row_galaxies(g, r, (c - 1) as nat);
        if is_galaxy(g[r as int][c - 1]) {
            prev.push((r, (c - 1) as nat))
        } else {
            prev
        }
    }
}

/// Galaxies of the rows above `r`, row by row.
pub open spec fn galaxies(g: Seq<Seq<u8>>, r: nat) -> Seq<(nat, nat)>
    decreases r,
{
    if r == 0 {
        Seq::empty()
    } else {
        galaxies(g, (r - 1) as nat) + row_galaxies(g, (r - 1) as nat, g[r - 1].len())
    }
}

/// Where a galaxy lies once every empty row and column is `factor` wide.
pub open spec fn grown(g: Seq<Seq<u8>>, factor: nat, p: (nat, nat)) -> (int, int) {
    (
        p.0 + (factor - 1) * empty_rows_before(g, p.0),
        p.1 + (factor - 1) * empty_cols_before(g, p.1),
    )
}

pub open spec fn dist(a: (int, int), b: (int, int)) -> int {
    (if a.0 < b.0 { b.0 - a.0 } else { a.0 - b.0 }) + (if a.1 < b.1 { b.1 - a.1 } else { a.1 - b.1 })
}

/// Sum of the distances from galaxy `j` to the galaxies before `i`.
pub open spec fn to_earlier(g: Seq<Seq<u8>>, f: nat, gs: Seq<(nat, nat)>, j: int, i: nat) -> int
    decreases i,
{
    if i == 0 {
        0
    } else {
        to_earlier(g, f, gs, j, (i - 1) as nat) + dist(grown(g, f, gs[i - 1]), grown(g, f, gs[j]))
    }
}

/// Sum of the distances over the pairs among the first `n` galaxies.
pub open spec fn pair_sum(g: Seq<Seq<u8>>, f: nat, gs: Seq<(nat, nat)>, n: nat) -> int
    decreases n,
{
    if n == 0 {
        0
    } else {
        pair_sum(g, f, gs, (n - 1) as nat) + to_earlier(g, f, gs, n - 1, (n - 1) as nat)
    }
}

/// Reads an image.
pub fn parse_image(input: &str) -> (r: Option<Vec<Vec<u8>>>)
    ensures
        r is Some <==> image_ok(content_lines(input.spec_bytes())),
        r is Some ==> rows_view(r.unwrap()@) == content_lines(input.spec_bytes()),
{
    let g = lines_of(input);
    let ghost gv = rows_view(g@);
    if g.len() == 0 || g.len() > 1000 {
        return None;
    }
    assert(gv[0] == g@[0]@);
    let w = g[0].len();
    if w == 0 || w > 1000 {
        return None;
    }
    let mut r: usize = 0;
    while r < g.len()
        invariant
            r <= g@.len(),
            gv == rows_view(g@),
            gv == content_lines(input.spec_bytes()),
            0 < g@.len() <= 1000,
            w == gv[0].len(),
            0 < w <= 1000,
            forall|t: int| 0 <= t < r ==> (#[trigger] gv[t]).len() == w,
            forall|t: int, c: int| 0 <= t < r && 0 <= c < gv[t].len() ==> (#[trigger] gv[t][c] == 35 || gv[t][c] == 46),
        decreases g@.len() - r,
    {
        assert(gv[r as int] == g@[r as int]@);
        if g[r].len() != w {
            assert(gv[r as int].len() != gv[0].len());
            return None;
        }
        let mut c: usize = 0;
        while c < w
            invariant
                c <= w,
                r < g@.len(),
                gv == rows_view(g@),
                gv == content_lines(input.spec_bytes()),
                gv[r as int] == g@[r as int]@,
                gv[r as int].len() == w,
                forall|u: int| 0 <= u < c ==> (#[trigger] gv[r as int][u] == 35 || gv[r as int][u] == 46),
            decreases w - c,
        {
            let x = g[r][c];
            if x != 35 && x != 46 {
                assert(!(gv[r as int][c as int] == 35 || gv[r as int][c as int] == 46));
                return None;
            }
            c += 1;
        }
        r += 1;
    }
    Some(g)
}

/// `counts[i]` is the number of empty rows above row `i` (`rows`) or empty
/// columns left of column `i`, for `i` up to the size.
fn empty_before(g: &Vec<Vec<u8>>, rows: bool) -> (counts: Vec<u64>)
    requires
        image_ok(rows_view(g@)),
    ensures
        counts@.len() == (if rows { g@.len() } else { g@[0]@.len() }) + 1,
        forall|i: int|
            0 <= i < counts@.len() ==> #[trigger] counts@[i] == if rows {
                empty_rows_before(rows_view(g@), i as nat)
            } else {
                empty_cols_before(rows_view(g@), i as nat)
            },
        forall|i: int| 0 <= i < counts@.len() ==> #[trigger] counts@[i] <= i,
{
    let ghost gv = rows_view(g@);
    let h = g.len();
    assert(gv[0] == g@[0]@);
    let w = g[0].len();
    let n = if rows {
        h
    } else {
        w
    };
    let mut counts: Vec<u64> = Vec::new();
    counts.push(0);
    let mut i: usize = 0;
    while i < n
        invariant
            i <= n,
            n == (if rows { h } else { w }),
            h == gv.len(),
            w == gv[0].len(),
            gv == rows_view(g@),
            image_ok(gv),
            counts@.len() == i + 1,
            n <= 1000,
            forall|t: int| 0 <= t <= i ==> #[trigger] counts@[t] == if rows {
                empty_rows_before(gv, t as nat)
            } else {
                empty_cols_before(gv, t as nat)
            },
            forall|t: int| 0 <= t <= i ==> #[trigger] counts@[t] <= t,
        decreases n - i,
    {
        let mut empty = true;
        let mut k: usize = 0;
        let other = if rows {
            w
        } else {
            h
        };
        while k < other
            invariant
                k <= other,
                other == (if rows { w } else { h }),
                i < n,
                n == (if rows { h } else { w }),
                h == gv.len(),
                w == gv[0].len(),
                gv == rows_view(g@),
                image_ok(gv),
                empty == (if rows {
                    forall|c: int| 0 <= c < k ==> !is_galaxy(#[trigger] gv[i as int][c])
                } else {
                    forall|r: int| 0 <= r < k ==> !is_galaxy(#[trigger] gv[r][i as int])
                }),
            decreases other - k,
        {
            let (rr, cc) = if rows {
                (i, k)
            } else {
                (k, i)
            };
            assert(gv[rr as int] == g@[rr as int]@);
            assert(gv[rr as int].len() == w);
            if g[rr][cc] == 35 {
                empty = false;
            }
            k += 1;
        }
        assert(rows ==> gv[i as int].len() == w);
        let last = counts[i];
        counts.push(if empty {
            last + 1
        } else {
            last
        });
        i += 1;
    }
    counts
}

/// The galaxies, row by row, left to right.
fn find_galaxies(g: &Vec<Vec<u8>>) -> (r: Vec<(usize, usize)>)
    requires
        image_ok(rows_view(g@)),
    ensures
        r@.len() == galaxies(rows_view(g@), g@.len() as nat).len(),
        forall|i: int|
            0 <= i < r@.len() ==> (#[trigger] r@[i]).0 as nat == galaxies(rows_view(g@), g@.len() as nat)[i].0 && r@[i].1 as nat
                == galaxies(rows_view(g@), g@.len() as nat)[i].1,
        forall|i: int| 0 <= i < r@.len() ==> (#[trigger] r@[i]).0 < g@.len() && r@[i].1 < g@[0]@.len(),
{
    let ghost gv = rows_view(g@);
    assert(gv[0] == g@[0]@);
    let mut out: Vec<(usize, usize)> = Vec::new();
    let mut r: usize = 0;
    while r < g.len()
        invariant
            r <= g@.len(),
            gv == rows_view(g@),
            image_ok(gv),
            gv[0] == g@[0]@,
            forall|i: int| 0 <= i < out@.len() ==> (#[trigger] out@[i]).0 < g@.len() && out@[i].1 < g@[0]@.len(),
            out@.len() == galaxies(gv, r as nat).len(),
            forall|i: int|
                0 <= i < out@.len() ==> (#[trigger] out@[i]).0 as nat == galaxies(gv, r as nat)[i].0 && out@[i].1 as nat
                    == galaxies(gv, r as nat)[i].1,
        decreases g@.len() - r,
    {
        assert(gv[r as int] == g@[r as int]@);
        let ghost base = galaxies(gv, r as nat);
        let ghost start = out@;
        let mut c: usize = 0;
        while c < g[r].len()
            invariant
                r < g@.len(),
                c <= g@[r as int]@.len(),
                gv == rows_view(g@),
                image_ok(gv),
                gv[0] == g@[0]@,
                gv[r as int] == g@[r as int]@,
                forall|i: int| 0 <= i < out@.len() ==> (#[trigger] out@[i]).0 < g@.len() && out@[i].1 < g@[0]@.len(),
                out@.len() == base.len() + row_galaxies(gv, r as nat, c as nat).len(),
                forall|i: int| 0 <= i < base.len() ==> #[trigger] out@[i] == start[i],
                start.len() == base.len(),
                forall|i: int|
                    0 <= i < start.len() ==> (#[trigger] start[i]).0 as nat == base[i].0 && start[i].1 as nat == base[i].1,
                forall|i: int|
                    0 <= i < row_galaxies(gv, r as nat, c as nat).len() ==> (#[trigger] out@[base.len() + i]).0 as nat
                        == row_galaxies(gv, r as nat, c as nat)[i].0 && out@[base.len() + i].1 as nat == row_galaxies(
                        gv,
                        r as nat,
                        c as nat,
                    )[i].1,
            decreases g@[r as int]@.len() - c,
        {
            if g[r][c] == 35 {
                out.push((r, c));
            }
            c += 1;
        }
        proof {
            let all = galaxies(gv, (r + 1) as nat);
            let row = row_galaxies(gv, r as nat, g@[r as int]@.len() as nat);
            assert(all == base + row);
            assert forall|i: int| 0 <= i < out@.len() implies (#[trigger] out@[i]).0 as nat == all[i].0 && out@[i].1 as nat
                == all[i].1 by {
                if i < base.len() {
                    assert(out@[i] == start[i]);
                } else {
                    assert(out@[base.len() + (i - base.len())] == out@[i]);
                }
            }
        }
        r += 1;
    }
    out
}

fn grow(p: usize, f1: u64, e: u64) -> (r: u128)
    requires
        p < 1000,
        e <= p,
    ensures
        r == p + f1 * e,
        r <= 1000 * 0x1_0000_0000_0000_0000,
{
    assert(f1 * e <= 0x1_0000_0000_0000_0000 * 999) by (nonlinear_arith)
        requires f1 < 0x1_0000_0000_0000_0000, e <= 999;
    p as u128 + f1 as u128 * e as u128
}

proof fn lemma_to_earlier_nonneg(g: Seq<Seq<u8>>, f: nat, gs: Seq<(nat, nat)>, j: int, n: nat)
    ensures
        0 <= to_earlier(g, f, gs, j, n),
    decreases n,
{
    if n > 0 {
        lemma_to_earlier_nonneg(g, f, gs, j, (n - 1) as nat);
    }
}

proof fn lemma_to_earlier_grows(g: Seq<Seq<u8>>, f: nat, gs: Seq<(nat, nat)>, j: int, i: nat, n: nat)
    requires
        i <= n,
    ensures
        0 <= to_earlier(g, f, gs, j, i) <= to_earlier(g, f, gs, j, n),
    decreases n - i,
{
    lemma_to_earlier_nonneg(g, f, gs, j, i);
    if i < n {
        lemma_to_earlier_grows(g, f, gs, j, i, (n - 1) as nat);
    }
}

proof fn lemma_pair_sum_nonneg(g: Seq<Seq<u8>>, f: nat, gs: Seq<(nat, nat)>, n: nat)
    ensures
        0 <= pair_sum(g, f, gs, n),
    decreases n,
{
    if n > 0 {
        lemma_pair_sum_nonneg(g, f, gs, (n - 1) as nat);
        lemma_to_earlier_nonneg(g, f, gs, n - 1, (n - 1) as nat);
    }
}

proof fn lemma_pair_sum_grows(g: Seq<Seq<u8>>, f: nat, gs: Seq<(nat, nat)>, m: nat, n: nat)
    requires
        m <= n,
    ensures
        0 <= pair_sum(g, f, gs, m) <= pair_sum(g, f, gs, n),
    decreases n - m,
{
    lemma_pair_sum_nonneg(g, f, gs, m);
    if m < n {
        lemma_pair_sum_grows(g, f, gs, m, (n - 1) as nat);
        lemma_to_earlier_nonneg(g, f, gs, n - 1, (n - 1) as nat);
    }
}

/// Sum of the distances between all pairs of galaxies once every empty row
/// and column is `factor` wide; `None` when the text is not an image or
/// the sum exceeds `u64::MAX`.
pub fn solve(input: &str, factor: u64) -> (r: Option<u64>)
    requires
        1 <= factor,
    ensures
        !image_ok(content_lines(input.spec_bytes())) ==> r is None,
        r is None ==> !image_ok(content_lines(input.spec_bytes())) || ({
            let g = content_lines(input.spec_bytes());
            pair_sum(g, factor as nat, galaxies(g, g.len()), galaxies(g, g.len()).len()) > u64::MAX
        }),
        r is Some ==> ({
            let g = content_lines(input.spec_bytes());
            r.unwrap() == pair_sum(g, factor as nat, galaxies(g, g.len()), galaxies(g, g.len()).len())
        }),
{
    let g = match parse_image(input) {
        None => {
            return None;
        },
        Some(g) => g,
    };
    let ghost gv = rows_view(g@);
    let er = empty_before(&g, true);
    let ec = empty_before(&g, false);
    let gs = find_galaxies(&g);
    let ghost gal = galaxies(gv, g@.len() as nat);
    assert(gv[0] == g@[0]@);
    let f1 = factor - 1;
    let mut acc: u64 = 0;
    let mut j: usize = 0;
    while j < gs.len()
        invariant
            j <= gs@.len(),
            gv == rows_view(g@),
            gv == content_lines(input.spec_bytes()),
            image_ok(gv),
            gal == galaxies(gv, g@.len() as nat),
            gs@.len() == gal.len(),
            forall|i: int| 0 <= i < gs@.len() ==> (#[trigger] gs@[i]).0 as nat == gal[i].0 && gs@[i].1 as nat == gal[i].1,
            forall|i: int| 0 <= i < gs@.len() ==> (#[trigger] gs@[i]).0 < g@.len() && gs@[i].1 < gv[0].len(),
            er@.len() == g@.len() + 1,
            ec@.len() == gv[0].len() + 1,
            forall|i: int| 0 <= i < er@.len() ==> #[trigger] er@[i] == empty_rows_before(gv, i as nat) && er@[i] <= i,
            forall|i: int| 0 <= i < ec@.len() ==> #[trigger] ec@[i] == empty_cols_before(gv, i as nat) && ec@[i] <= i,
            f1 + 1 == factor,
            acc == pair_sum(gv, factor as nat, gal, j as nat),
        decreases gs@.len() - j,
    {
        let (rj, cj) = gs[j];
        let yj = grow(rj, f1, er[rj]);
        let xj = grow(cj, f1, ec[cj]);
        let mut i: usize = 0;
        let mut part: u64 = 0;
        assert(yj == grown(gv, factor as nat, gal[j as int]).0 && xj == grown(gv, factor as nat, gal[j as int]).1);
        while i < j
            invariant
                i <= j < gs@.len(),
                gs@.len() == gal.len(),
                forall|t: int| 0 <= t < gs@.len() ==> (#[trigger] gs@[t]).0 as nat == gal[t].0 && gs@[t].1 as nat == gal[t].1,
                forall|t: int| 0 <= t < gs@.len() ==> (#[trigger] gs@[t]).0 < gv.len() && gs@[t].1 < gv[0].len(),
                image_ok(gv),
                er@.len() == gv.len() + 1,
                ec@.len() == gv[0].len() + 1,
                forall|t: int| 0 <= t < er@.len() ==> #[trigger] er@[t] == empty_rows_before(gv, t as nat) && er@[t] <= t,
                forall|t: int| 0 <= t < ec@.len() ==> #[trigger] ec@[t] == empty_cols_before(gv, t as nat) && ec@[t] <= t,
                f1 + 1 == factor,
                gal == galaxies(gv, gv.len()),
                gv == content_lines(input.spec_bytes()),
                acc == pair_sum(gv, factor as nat, gal, j as nat),
                yj == grown(gv, factor as nat, gal[j as int]).0,
                xj == grown(gv, factor as nat, gal[j as int]).1,
                yj <= 1000 * 0x1_0000_0000_0000_0000,
                xj <= 1000 * 0x1_0000_0000_0000_0000,
                part == to_earlier(gv, factor as nat, gal, j as int, i as nat),
            decreases j - i,
        {
            let (ri, ci) = gs[i];
            let yi = grow(ri, f1, er[ri]);
            let xi = grow(ci, f1, ec[ci]);
            let dy = if yi < yj {
                yj - yi
            } else {
                yi - yj
            };
            let dx = if xi < xj {
                xj - xi
            } else {
                xi - xj
            };
            assert(dist(grown(gv, factor as nat, gal[i as int]), grown(gv, factor as nat, gal[j as int])) == dy + dx);
            if dy + dx > (u64::MAX - part) as u128 {
                proof {
                    assert(to_earlier(gv, factor as nat, gal, j as int, (i + 1) as nat) == part + dy + dx);
                    assert(pair_sum(gv, factor as nat, gal, (j + 1) as nat) == pair_sum(gv, factor as nat, gal, j as nat)
                        + to_earlier(gv, factor as nat, gal, j as int, j as nat));
                    lemma_to_earlier_grows(gv, factor as nat, gal, j as int, (i + 1) as nat, j as nat);
                    lemma_pair_sum_grows(gv, factor as nat, gal, 0, j as nat);
                    lemma_pair_sum_grows(gv, factor as nat, gal, (j + 1) as nat, gal.len());
                }
                return None;
            }
            part = part + (dy + dx) as u64;
            i += 1;
        }
        if acc > u64::MAX - part {
            proof {
                lemma_pair_sum_grows(gv, factor as nat, gal, (j + 1) as nat, gal.len());
            }
            return None;
        }
        acc = acc + part;
        j += 1;
    }
    Some(acc)
}

/// Sum of the distances when empty rows and columns are twice as wide.
pub fn part1(input: &str) -> (r: Option<u64>)
    ensures
        !image_ok(content_lines(input.spec_bytes())) ==> r is None,
        r is Some ==> ({
            let g = content_lines(input.spec_bytes());
            r.unwrap() == pair_sum(g, 2, galaxies(g, g.len()), galaxies(g, g.len()).len())
        }),
        r is None ==> !image_ok(content_lines(input.spec_bytes())) || ({
            let g = content_lines(input.spec_bytes());
            pair_sum(g, 2, galaxies(g, g.len()), galaxies(g, g.len()).len()) > u64::MAX
        }),
{
    solve(input, 2)
}

/// Sum of the distances when empty rows and columns are a million wide.
pub fn part2(input: &str) -> (r: Option<u64>)
    ensures
        !image_ok(content_lines(input.spec_bytes())) ==> r is None,
        r is Some ==> ({
            let g = content_lines(input.spec_bytes());
            r.unwrap() == pair_sum(g, 1000000, galaxies(g, g.len()), galaxies(g, g.len()).len())
        }),
        r is None ==> !image_ok(content_lines(input.spec_bytes())) || ({
            let g = content_lines(input.spec_bytes());
            pair_sum(g, 1000000, galaxies(g, g.len()), galaxies(g, g.len()).len()) > u64::MAX
        }),
{
    solve(input, 1000000)
}

} // verus!
