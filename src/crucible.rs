//! The least heat lost moving a crucible across a city, never more than
//! three blocks straight and never reversing.
use vstd::prelude::*;
use vstd::string::StringSliceAdditionalSpecFns;
use crate::text::{content_lines, lines_of, rows_view};

verus! {

/// A non-empty rectangle of digits, at most a hundred and fifty each way.
pub open spec fn city_ok(g: Seq<Seq<u8>>) -> bool {
    &&& 0 < g.len() <= 150
    &&& 0 < g[0].len() <= 150
    &&& forall|r: int| 0 <= r < g.len() ==> (#[trigger] g[r]).len() == g[0].len()
    &&& forall|r: int, c: int| 0 <= r < g.len() && 0 <= c < g[r].len() ==> 48 <= #[trigger] g[r][c] <= 57
}

pub open spec fn dr(d: int) -> int {
    if d == 0 {
        -1
    } else if d == 2 {
        1
    } else {
        0
    }
}

pub open spec fn dc(d: int) -> int {
    if d == 1 {
        1
    } else if d == 3 {
        -1
    } else {
        0
    }
}

pub open spec fn inside(g: Seq<Seq<u8>>, r: int, c: int) -> bool {
    0 <= r < g.len() && 0 <= c < g[0].len()
}

pub open spec fn heat(g: Seq<Seq<u8>>, r: int, c: int) -> nat {
    (g[r][c] - 48) as nat
}

pub open spec fn omin(a: Option<nat>, b: Option<nat>) -> Option<nat> {
    match (a, b) {
        (Some(x), Some(y)) => Some(if x < y { x } else { y }),
        (Some(x), None) => Some(x),
        (None, _) => b,
    }
}

pub open spec fn oadd(a: Option<nat>, x: nat) -> Option<nat> {
    match a {
        Some(v) => Some(v + x),
        None => None,
    }
}

/// Entry `k` of a tile: arrived heading `k / 3` (0 up, 1 right, 2 down,
/// 3 left) after `k % 3 + 1` blocks in that heading.
pub open spec fn at(t: Seq<Seq<Seq<Option<nat>>>>, g: Seq<Seq<u8>>, r: int, c: int, k: int) -> Option<nat> {
    if inside(g, r, c) {
        t[r][c][k]
    } else {
        None
    }
}

/// The least heat of reaching entry `k` of tile (`r`, `c`) by one more
/// move from an entry of table `t`.
pub open spec fn via(t: Seq<Seq<Seq<Option<nat>>>>, g: Seq<Seq<u8>>, r: int, c: int, k: int) -> Option<nat> {
    let d = k / 3;
    let pr = r - dr(d);
    let pc = c - dc(d);
    if k % 3 > 0 {
        oadd(at(t, g, pr, pc, k - 1), heat(g, r, c))
    } else {
        let a = (d + 1) % 4;
        let b = (d + 3) % 4;
        oadd(
            omin(
                omin(omin(at(t, g, pr, pc, a * 3), at(t, g, pr, pc, a * 3 + 1)), at(t, g, pr, pc, a * 3 + 2)),
                omin(omin(at(t, g, pr, pc, b * 3), at(t, g, pr, pc, b * 3 + 1)), at(t, g, pr, pc, b * 3 + 2)),
            ),
            heat(g, r, c),
        )
    }
}

/// One round of relaxation.
pub open spec fn relax(t: Seq<Seq<Seq<Option<nat>>>>, g: Seq<Seq<u8>>) -> Seq<Seq<Seq<Option<nat>>>> {
    Seq::new(
        g.len(),
        |r: int| Seq::new(g[0].len(), |c: int| Seq::new(12, |k: int| omin(t[r][c][k], via(t, g, r, c, k)))),
    )
}

/// After the first move from the top-left tile: right or down.
pub open spec fn first(g: Seq<Seq<u8>>) -> Seq<Seq<Seq<Option<nat>>>> {
    Seq::new(
        g.len(),
        |r: int|
            Seq::new(
                g[0].len(),
                |c: int|
                    Seq::new(
                        12,
                        |k: int|
                            if (r == 0 && c == 1 && k == 3) || (r == 1 && c == 0 && k == 6) {
                                Some(heat(g, r, c))
                            } else {
                                None
                            },
                    ),
            ),
    )
}

/// Least heats after `m` further rounds.
pub open spec fn table(g: Seq<Seq<u8>>, m: nat) -> Seq<Seq<Seq<Option<nat>>>>
    decreases m,
{
    if m == 0 {
        first(g)
    } else {
        relax(table(g, (m - 1) as nat), g)
    }
}

/// The least over the first `k` entries of a tile.
pub open spec fn least(e: Seq<Option<nat>>, k: nat) -> Option<nat>
    decreases k,
{
    if k == 0 {
        None
    } else {
        omin(least(e, (k - 1) as nat), e[k - 1])
    }
}

pub open spec fn oview(a: Option<u64>) -> Option<nat> {
    match a {
        Some(v) => Some(v as nat),
        None => None,
    }
}

pub open spec fn cell_view(v: Seq<Option<u64>>) -> Seq<Option<nat>> {
    Seq::new(v.len(), |k: int| oview(v[k]))
}

pub open spec fn tview(t: Seq<Vec<Vec<Option<u64>>>>) -> Seq<Seq<Seq<Option<nat>>>> {
    Seq::new(t.len(), |r: int| Seq::new(t[r]@.len(), |c: int| cell_view(t[r]@[c]@)))
}

pub open spec fn small(a: Option<u64>, b: nat) -> bool {
    match a {
        Some(v) => v <= b,
        None => true,
    }
}

/// The table has a cell of twelve entries per tile, all at most `b`.
pub open spec fn shaped(t: Seq<Vec<Vec<Option<u64>>>>, h: int, w: int, b: nat) -> bool {
    &&& t.len() == h
    &&& forall|r: int| 0 <= r < h ==> (#[trigger] t[r])@.len() == w
    &&& forall|r: int, c: int| 0 <= r < h && 0 <= c < w ==> (#[trigger] t[r]@[c])@.len() == 12
    &&& forall|r: int, c: int, k: int| 0 <= r < h && 0 <= c < w && 0 <= k < 12 ==> small(#[trigger] t[r]@[c]@[k], b)
}

fn omin_exec(a: Option<u64>, b: Option<u64>) -> (r: Option<u64>)
    ensures
        oview(r) == omin(oview(a), oview(b)),
        r is Some ==> (a is Some && r.unwrap() == a.unwrap()) || (b is Some && r.unwrap() == b.unwrap()),
{
    match (a, b) {
        (Some(x), Some(y)) => Some(if x < y {
            x
        } else {
            y
        }),
        (Some(x), None) => Some(x),
        (None, _) => b,
    }
}

/// Entry `k` of tile (`r`, `c`) of the table, if the tile is on the map
/// (`r1`, `c1` are one more than the tile's row and column).
fn at_exec(t: &Vec<Vec<Vec<Option<u64>>>>, r1: usize, c1: usize, k: usize, h: usize, w: usize, Ghost(b): Ghost<nat>) -> (res: Option<u64>)
    requires
        shaped(t@, h as int, w as int, b),
        k < 12,
        r1 <= h + 1,
        c1 <= w + 1,
    ensures
        oview(res) == (if 1 <= r1 <= h && 1 <= c1 <= w { tview(t@)[r1 - 1][c1 - 1][k as int] } else { None }),
        small(res, b),
{
    if r1 == 0 || c1 == 0 || r1 > h || c1 > w {
        return None;
    }
    assert(t@[r1 - 1]@[c1 - 1]@.len() == 12);
    assert(small(t@[r1 - 1]@[c1 - 1]@[k as int], b));
    t[r1 - 1][c1 - 1][k]
}


/// One entry of the next round: entry `k` of tile (`r`, `c`).
fn entry_exec(t: &Vec<Vec<Vec<Option<u64>>>>, g: &Vec<Vec<u8>>, r: usize, c: usize, k: usize, Ghost(b): Ghost<nat>) -> (res: Option<u64>)
    requires
        city_ok(rows_view(g@)),
        shaped(t@, g@.len() as int, rows_view(g@)[0].len() as int, b),
        b <= 10000000,
        r < g@.len(),
        c < rows_view(g@)[0].len(),
        k < 12,
    ensures
        oview(res) == omin(tview(t@)[r as int][c as int][k as int], via(tview(t@), rows_view(g@), r as int, c as int, k as int)),
        small(res, b + 9),
{
    let ghost gv = rows_view(g@);
    let ghost tv = tview(t@);
    let h = g.len();
    assert(gv[0] == g@[0]@);
    let w = g[0].len();
    assert(gv[r as int] == g@[r as int]@);
    assert(gv[r as int].len() == w);
    let hv = (g[r][c] - 48) as u64;
    assert(hv as nat == heat(gv, r as int, c as int));
    let d = k / 3;
    let r1 = if d == 0 {
        r + 2
    } else if d == 2 {
        r
    } else {
        r + 1
    };
    let c1 = if d == 1 {
        c
    } else if d == 3 {
        c + 2
    } else {
        c + 1
    };
    assert(r1 - 1 == r - dr(d as int) && c1 - 1 == c - dc(d as int));
    assert(1 <= r1 <= h && 1 <= c1 <= w <==> inside(gv, r - dr(d as int), c - dc(d as int)));
    let arrive: Option<u64> = if k % 3 > 0 {
        at_exec(t, r1, c1, k - 1, h, w, Ghost(b))
    } else {
        let a = (d + 1) % 4;
        let e = (d + 3) % 4;
        let m1 = omin_exec(
            omin_exec(at_exec(t, r1, c1, a * 3, h, w, Ghost(b)), at_exec(t, r1, c1, a * 3 + 1, h, w, Ghost(b))),
            at_exec(t, r1, c1, a * 3 + 2, h, w, Ghost(b)),
        );
        let m2 = omin_exec(
            omin_exec(at_exec(t, r1, c1, e * 3, h, w, Ghost(b)), at_exec(t, r1, c1, e * 3 + 1, h, w, Ghost(b))),
            at_exec(t, r1, c1, e * 3 + 2, h, w, Ghost(b)),
        );
        omin_exec(m1, m2)
    };
    assert(small(arrive, b));
    let via_v: Option<u64> = match arrive {
        Some(v) => Some(v + hv),
        None => None,
    };
    assert(oview(via_v) == via(tv, gv, r as int, c as int, k as int));
    assert(t@[r as int]@[c as int]@.len() == 12);
    let cur = t[r][c][k];
    assert(oview(cur) == tv[r as int][c as int][k as int]);
    assert(small(cur, b));
    omin_exec(cur, via_v)
}

/// One round of relaxation.
fn relax_exec(t: &Vec<Vec<Vec<Option<u64>>>>, g: &Vec<Vec<u8>>, Ghost(b): Ghost<nat>) -> (res: Vec<Vec<Vec<Option<u64>>>>)
    requires
        city_ok(rows_view(g@)),
        shaped(t@, g@.len() as int, rows_view(g@)[0].len() as int, b),
        b <= 10000000,
    ensures
        tview(res@) == relax(tview(t@), rows_view(g@)),
        shaped(res@, g@.len() as int, rows_view(g@)[0].len() as int, b + 9),
{
    let ghost gv = rows_view(g@);
    let ghost tv = tview(t@);
    let ghost nt = relax(tv, gv);
    let h = g.len();
    assert(gv[0] == g@[0]@);
    let w = g[0].len();
    let mut out: Vec<Vec<Vec<Option<u64>>>> = Vec::new();
    let mut r: usize = 0;
    while r < h
        invariant
            r <= h,
            h == gv.len(),
            w == gv[0].len(),
            gv == rows_view(g@),
            tv == tview(t@),
            nt == relax(tv, gv),
            city_ok(gv),
            shaped(t@, h as int, w as int, b),
            b <= 10000000,
            out@.len() == r,
            forall|a: int| 0 <= a < r ==> (#[trigger] out@[a])@.len() == w,
            forall|a: int, c: int| 0 <= a < r && 0 <= c < w ==> (#[trigger] out@[a]@[c])@.len() == 12,
            forall|a: int, c: int| 0 <= a < r && 0 <= c < w ==> cell_view((#[trigger] out@[a]@[c])@) == nt[a][c],
            forall|a: int, c: int, k: int| 0 <= a < r && 0 <= c < w && 0 <= k < 12 ==> small(#[trigger] out@[a]@[c]@[k], b + 9),
        decreases h - r,
    {
        let mut row: Vec<Vec<Option<u64>>> = Vec::new();
        let mut c: usize = 0;
        while c < w
            invariant
                c <= w,
                r < h,
                h == gv.len(),
                w == gv[0].len(),
                gv == rows_view(g@),
                tv == tview(t@),
                nt == relax(tv, gv),
                city_ok(gv),
                shaped(t@, h as int, w as int, b),
                b <= 10000000,
                row@.len() == c,
                forall|x: int| 0 <= x < c ==> (#[trigger] row@[x])@.len() == 12,
                forall|x: int| 0 <= x < c ==> cell_view((#[trigger] row@[x])@) == nt[r as int][x],
                forall|x: int, k: int| 0 <= x < c && 0 <= k < 12 ==> small(#[trigger] row@[x]@[k], b + 9),
            decreases w - c,
        {
            let mut cell: Vec<Option<u64>> = Vec::new();
            let mut k: usize = 0;
            while k < 12
                invariant
                    k <= 12,
                    r < h,
                    c < w,
                    h == gv.len(),
                    w == gv[0].len(),
                    gv == rows_view(g@),
                    tv == tview(t@),
                    city_ok(gv),
                    shaped(t@, h as int, w as int, b),
                    b <= 10000000,
                    cell@.len() == k,
                    forall|j: int| 0 <= j < k ==> oview(#[trigger] cell@[j]) == omin(tv[r as int][c as int][j], via(tv, gv, r as int, c as int, j)),
                    forall|j: int| 0 <= j < k ==> small(#[trigger] cell@[j], b + 9),
                decreases 12 - k,
            {
                let v = entry_exec(t, g, r, c, k, Ghost(b));
                cell.push(v);
                k += 1;
            }
            assert(cell_view(cell@) =~= nt[r as int][c as int]);
            row.push(cell);
            c += 1;
        }
        out.push(row);
        r += 1;
    }
    assert(tview(out@) =~= nt) by {
        assert forall|a: int| 0 <= a < h implies tview(out@)[a] =~= nt[a] by {
            assert forall|c: int| 0 <= c < w implies tview(out@)[a][c] == nt[a][c] by {}
        }
    }
    out
}


proof fn lemma_table_stays(g: Seq<Seq<u8>>, m: nat, n: nat)
    requires
        m <= n,
        table(g, m + 1) == table(g, m),
    ensures
        table(g, n) == table(g, m),
    decreases n - m,
{
    if m < n {
        lemma_table_stays(g, m, (n - 1) as nat);
    }
}

fn same_table(a: &Vec<Vec<Vec<Option<u64>>>>, b: &Vec<Vec<Vec<Option<u64>>>>, h: usize, w: usize, Ghost(x): Ghost<nat>, Ghost(y): Ghost<nat>) -> (r: bool)
    requires
        shaped(a@, h as int, w as int, x),
        shaped(b@, h as int, w as int, y),
    ensures
        r == (tview(a@) == tview(b@)),
{
    let mut i: usize = 0;
    while i < h
        invariant
            i <= h,
            shaped(a@, h as int, w as int, x),
            shaped(b@, h as int, w as int, y),
            forall|p: int, q: int| 0 <= p < i && 0 <= q < w ==> cell_view(#[trigger] a@[p]@[q]@) == cell_view(b@[p]@[q]@),
        decreases h - i,
    {
        let mut j: usize = 0;
        while j < w
            invariant
                j <= w,
                i < h,
                shaped(a@, h as int, w as int, x),
                shaped(b@, h as int, w as int, y),
                forall|p: int, q: int| 0 <= p < i && 0 <= q < w ==> cell_view(#[trigger] a@[p]@[q]@) == cell_view(b@[p]@[q]@),
                forall|q: int| 0 <= q < j ==> cell_view(#[trigger] a@[i as int]@[q]@) == cell_view(b@[i as int]@[q]@),
            decreases w - j,
        {
            assert(a@[i as int]@[j as int]@.len() == 12 && b@[i as int]@[j as int]@.len() == 12);
            let mut k: usize = 0;
            while k < 12
                invariant
                    k <= 12,
                    i < h,
                    j < w,
                    shaped(a@, h as int, w as int, x),
                    shaped(b@, h as int, w as int, y),
                    a@[i as int]@[j as int]@.len() == 12,
                    b@[i as int]@[j as int]@.len() == 12,
                    forall|z: int| 0 <= z < k ==> #[trigger] a@[i as int]@[j as int]@[z] == b@[i as int]@[j as int]@[z],
                decreases 12 - k,
            {
                if a[i][j][k] != b[i][j][k] {
                    assert(cell_view(a@[i as int]@[j as int]@)[k as int] != cell_view(b@[i as int]@[j as int]@)[k as int]);
                    assert(tview(a@)[i as int][j as int] != tview(b@)[i as int][j as int]);
                    return false;
                }
                k += 1;
            }
            assert(cell_view(a@[i as int]@[j as int]@) =~= cell_view(b@[i as int]@[j as int]@));
            j += 1;
        }
        i += 1;
    }
    assert(tview(a@) =~= tview(b@)) by {
        assert forall|p: int| 0 <= p < h implies tview(a@)[p] =~= tview(b@)[p] by {}
    }
    true
}

/// Reads a city map of digits.
pub fn parse_city(input: &str) -> (r: Option<Vec<Vec<u8>>>)
    ensures
        r is Some <==> city_ok(content_lines(input.spec_bytes())),
        r is Some ==> rows_view(r.unwrap()@) == content_lines(input.spec_bytes()),
{
    let g = lines_of(input);
    let ghost gv = rows_view(g@);
    if g.len() == 0 || g.len() > 150 {
        return None;
    }
    assert(gv[0] == g@[0]@);
    let w = g[0].len();
    if w == 0 || w > 150 {
        return None;
    }
    let mut r: usize = 0;
    while r < g.len()
        invariant
            r <= g@.len(),
            gv == rows_view(g@),
            gv == content_lines(input.spec_bytes()),
            0 < g@.len() <= 150,
            w == gv[0].len(),
            0 < w <= 150,
            forall|t: int| 0 <= t < r ==> (#[trigger] gv[t]).len() == w,
            forall|t: int, c: int| 0 <= t < r && 0 <= c < gv[t].len() ==> 48 <= #[trigger] gv[t][c] <= 57,
        decreases g@.len() - r,
    {
        assert(gv[r as int] == g@[r as int]@);
        if g[r].len() != w {
            assert(gv[r as int].len() != gv[0].len());
            return None;
        }
        let mut c: usize = 0;
        while c < w
            invariant
                c <= w,
                r < g@.len(),
                gv == rows_view(g@),
                gv == content_lines(input.spec_bytes()),
                gv[r as int] == g@[r as int]@,
                gv[r as int].len() == w,
                forall|u: int| 0 <= u < c ==> 48 <= #[trigger] gv[r as int][u] <= 57,
            decreases w - c,
        {
            let x = g[r][c];
            if x < 48 || x > 57 {
                assert(!(48 <= gv[r as int][c as int] <= 57));
                return None;
            }
            c += 1;
        }
        r += 1;
    }
    Some(g)
}

/// The least heat lost reaching the bottom-right block from the top-left
/// one, with relaxation rounds enough to visit every heading of every
/// block; `None` when the text is not a map or the end cannot be reached.
pub fn part1(input: &str) -> (r: Option<u64>)
    ensures
        r is Some <==> (city_ok(content_lines(input.spec_bytes())) && ({
            let g = content_lines(input.spec_bytes());
            least(table(g, (g.len() * g[0].len() * 12) as nat)[g.len() - 1][g[0].len() - 1], 12) is Some
        })),
        r is Some ==> ({
            let g = content_lines(input.spec_bytes());
            Some(r.unwrap() as nat) == least(table(g, (g.len() * g[0].len() * 12) as nat)[g.len() - 1][g[0].len() - 1], 12)
        }),
{
    let g = match parse_city(input) {
        None => {
            return None;
        },
        Some(g) => g,
    };
    let ghost gv = rows_view(g@);
    let h = g.len();
    assert(gv[0] == g@[0]@);
    let w = g[0].len();
    let mut t: Vec<Vec<Vec<Option<u64>>>> = Vec::new();
    let mut r: usize = 0;
    while r < h
        invariant
            r <= h,
            h == gv.len(),
            w == gv[0].len(),
            gv == rows_view(g@),
            city_ok(gv),
            t@.len() == r,
            forall|a: int| 0 <= a < r ==> (#[trigger] t@[a])@.len() == w,
            forall|a: int, c: int| 0 <= a < r && 0 <= c < w ==> (#[trigger] t@[a]@[c])@.len() == 12,
            forall|a: int, c: int| 0 <= a < r && 0 <= c < w ==> cell_view((#[trigger] t@[a]@[c])@) == first(gv)[a][c],
            forall|a: int, c: int, k: int| 0 <= a < r && 0 <= c < w && 0 <= k < 12 ==> small(#[trigger] t@[a]@[c]@[k], 9),
        decreases h - r,
    {
        assert(gv[r as int] == g@[r as int]@);
        let mut row: Vec<Vec<Option<u64>>> = Vec::new();
        let mut c: usize = 0;
        while c < w
            invariant
                c <= w,
                r < h,
                h == gv.len(),
                w == gv[0].len(),
                gv == rows_view(g@),
                gv[r as int] == g@[r as int]@,
                city_ok(gv),
                row@.len() == c,
                forall|x: int| 0 <= x < c ==> (#[trigger] row@[x])@.len() == 12,
                forall|x: int| 0 <= x < c ==> cell_view((#[trigger] row@[x])@) == first(gv)[r as int][x],
                forall|x: int, k: int| 0 <= x < c && 0 <= k < 12 ==> small(#[trigger] row@[x]@[k], 9),
            decreases w - c,
        {
            let hv = (g[r][c] - 48) as u64;
            let mut cell: Vec<Option<u64>> = Vec::new();
            let mut k: usize = 0;
            while k < 12
                invariant
                    k <= 12,
                    r < h,
                    c < w,
                    gv == rows_view(g@),
                    gv[r as int] == g@[r as int]@,
                    hv as nat == heat(gv, r as int, c as int),
                    hv <= 9,
                    h == gv.len(),
                    w == gv[0].len(),
                    cell@.len() == k,
                    forall|j: int| 0 <= j < k ==> oview(#[trigger] cell@[j]) == first(gv)[r as int][c as int][j],
                    forall|j: int| 0 <= j < k ==> small(#[trigger] cell@[j], 9),
                decreases 12 - k,
            {
                if (r == 0 && c == 1 && k == 3) || (r == 1 && c == 0 && k == 6) {
                    cell.push(Some(hv));
                } else {
                    cell.push(None);
                }
                k += 1;
            }
            assert(cell_view(cell@) =~= first(gv)[r as int][c as int]);
            row.push(cell);
            c += 1;
        }
        t.push(row);
        r += 1;
    }
    assert(tview(t@) =~= first(gv)) by {
        assert forall|a: int| 0 <= a < h implies tview(t@)[a] =~= first(gv)[a] by {}
    }
    assert(h * w * 12 <= 270000) by (nonlinear_arith)
        requires h <= 150, w <= 150;
    let rounds = h * w * 12;
    let mut m: usize = 0;
    let mut done = false;
    let ghost mut b: nat = 9;
    while m < rounds && !done
        invariant
            m <= rounds <= 270000,
            rounds == h * w * 12,
            h == gv.len(),
            w == gv[0].len(),
            gv == rows_view(g@),
            city_ok(gv),
            b == 9 * (m + 1),
            shaped(t@, h as int, w as int, b),
            tview(t@) == table(gv, m as nat),
            done ==> table(gv, (m + 1) as nat) == table(gv, m as nat),
        decreases rounds - m + if done { 0int } else { 1int },
    {
        let next = relax_exec(&t, &g, Ghost(b));
        if same_table(&next, &t, h, w, Ghost(b + 9), Ghost(b)) {
            done = true;
        } else {
            t = next;
            m += 1;
            proof {
                b = b + 9;
            }
        }
    }
    proof {
        if done {
            lemma_table_stays(gv, m as nat, rounds as nat);
        }
    }
    assert(t@[h - 1]@[w - 1]@.len() == 12);
    let cell = &t[h - 1][w - 1];
    let mut best: Option<u64> = None;
    let mut k: usize = 0;
    while k < 12
        invariant
            k <= 12,
            cell@.len() == 12,
            oview(best) == least(cell_view(cell@), k as nat),
        decreases 12 - k,
    {
        best = omin_exec(best, cell[k]);
        k += 1;
    }
    assert(cell_view(cell@) == tview(t@)[h - 1][w - 1]);
    best
}

} // verus!
