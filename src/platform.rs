//! Round rocks rolling on a tilted platform, and the load they put on its
//! north side after many spin cycles.
use vstd::prelude::*;
use vstd::string::StringSliceAdditionalSpecFns;
use crate::text::{content_lines, lines_of, rows_view};

verus! {

pub open spec fn rounded() -> u8 {
    79
}

pub open spec fn cube() -> u8 {
    35
}

pub open spec fn empty() -> u8 {
    46
}

/// A column rolled towards its start, and the first free place in its last
/// stretch after a cube rock.
pub open spec fn roll(s: Seq<u8>) -> (Seq<u8>, nat)
    decreases s.len(),
{
    if s.len() == 0 {
        (Seq::empty(), 0)
    } else {
        let (t, free) = roll(s.drop_last());
        let x = s.last();
        if x == cube() {
            (t.push(cube()), t.len() + 1)
        } else if x == rounded() {
            (t.push(empty()).update(free as int, rounded()), free + 1)
        } else {
            (t.push(empty()), free)
        }
    }
}

proof fn lemma_roll_len(s: Seq<u8>)
    ensures
        roll(s).0.len() == s.len(),
        roll(s).1 <= s.len(),
    decreases s.len(),
{
    if s.len() > 0 {
        lemma_roll_len(s.drop_last());
    }
}

/// Column `c` of a grid, top to bottom.
pub open spec fn column(g: Seq<Seq<u8>>, c: int) -> Seq<u8> {
    Seq::new(g.len(), |r: int| g[r][c])
}

/// Every rock rolled north.
pub open spec fn tilt(g: Seq<Seq<u8>>) -> Seq<Seq<u8>> {
    Seq::new(g.len(), |r: int| Seq::new(g[0].len(), |c: int| roll(column(g, c)).0[r]))
}

/// The grid turned a quarter clockwise.
pub open spec fn rotate(g: Seq<Seq<u8>>) -> Seq<Seq<u8>> {
    Seq::new(g[0].len(), |r: int| Seq::new(g.len(), |c: int| g[g.len() - 1 - c][r]))
}

/// Four times: tilt north, then turn clockwise.
pub open spec fn spin(g: Seq<Seq<u8>>) -> Seq<Seq<u8>> {
    rotate(tilt(rotate(tilt(rotate(tilt(rotate(tilt(g))))))))
}

/// The grid after `k` spin cycles.
pub open spec fn spins(g: Seq<Seq<u8>>, k: nat) -> Seq<Seq<u8>>
    decreases k,
{
    if k == 0 {
        g
    } else {
        spin(spins(g, (k - 1) as nat))
    }
}

/// A non-empty rectangle, at most a thousand each way.
pub open spec fn rect(g: Seq<Seq<u8>>) -> bool {
    &&& 0 < g.len() <= 1000
    &&& 0 < g[0].len() <= 1000
    &&& forall|r: int| 0 <= r < g.len() ==> (#[trigger] g[r]).len() == g[0].len()
}

/// Load of the rounded rocks of rows below `n`: each weighs the number of
/// rows from it to the south edge.
pub open spec fn load_rows(g: Seq<Seq<u8>>, n: nat) -> nat
    decreases n,
{
    if n == 0 {
        0
    } else {
        load_rows(g, (n - 1) as nat) + count_rounded(g[n - 1], g[n - 1].len()) * (g.len() - (n - 1)) as nat
    }
}

pub open spec fn count_rounded(row: Seq<u8>, n: nat) -> nat
    decreases n,
{
    if n == 0 {
        0
    } else {
        count_rounded(row, (n - 1) as nat) + if row[n - 1] == rounded() {
            1nat
        } else {
            0nat
        }
    }
}

pub open spec fn grid_view(g: Seq<Vec<u8>>) -> Seq<Seq<u8>> {
    rows_view(g)
}

/// Rolls every rock north.
pub fn tilt_north(g: &Vec<Vec<u8>>) -> (r: Vec<Vec<u8>>)
    requires
        rect(rows_view(g@)),
    ensures
        rows_view(r@) == tilt(rows_view(g@)),
        rect(rows_view(r@)),
{
    let ghost gv = rows_view(g@);
    let h = g.len();
    let w = g[0].len();
    let mut out: Vec<Vec<u8>> = Vec::new();
    let mut r: usize = 0;
    while r < h
        invariant
            r <= h,
            h == gv.len(),
            gv == rows_view(g@),
            rect(gv),
            w == gv[0].len(),
            out@.len() == r,
            forall|t: int| 0 <= t < r ==> (#[trigger] out@[t])@ == gv[t],
        decreases h - r,
    {
        assert(gv[r as int] == g@[r as int]@);
        out.push(crate::circuit::copy_bytes(g[r].as_slice()));
        r += 1;
    }
    let mut c: usize = 0;
    while c < w
        invariant
            c <= w,
            h == gv.len(),
            gv == rows_view(g@),
            rect(gv),
            w == gv[0].len(),
            out@.len() == h,
            forall|t: int| 0 <= t < h ==> (#[trigger] out@[t])@.len() == w,
            forall|t: int, u: int| 0 <= t < h && c <= u < w ==> #[trigger] out@[t]@[u] == gv[t][u],
            forall|t: int, u: int| 0 <= t < h && 0 <= u < c ==> #[trigger] out@[t]@[u] == roll(column(gv, u)).0[t],
        decreases w - c,
    {
        let ghost col = column(gv, c as int);
        let mut free: usize = 0;
        let mut r: usize = 0;
        while r < h
            invariant
                r <= h,
                c < w,
                h == gv.len(),
                gv == rows_view(g@),
                rect(gv),
                w == gv[0].len(),
                col == column(gv, c as int),
                out@.len() == h,
                forall|t: int| 0 <= t < h ==> (#[trigger] out@[t])@.len() == w,
                forall|t: int, u: int| 0 <= t < h && c < u < w ==> #[trigger] out@[t]@[u] == gv[t][u],
                forall|t: int, u: int| 0 <= t < h && 0 <= u < c ==> #[trigger] out@[t]@[u] == roll(column(gv, u)).0[t],
                forall|t: int| r <= t < h ==> (#[trigger] out@[t])@[c as int] == gv[t][c as int],
                free as nat == roll(col.take(r as int)).1,
                forall|t: int| 0 <= t < r ==> (#[trigger] out@[t])@[c as int] == roll(col.take(r as int)).0[t],
            decreases h - r,
        {
            proof {
                lemma_roll_len(col.take(r as int));
                assert(col.take(r + 1).drop_last() == col.take(r as int));
            }
            let ghost before = out@;
            assert(gv[r as int] == g@[r as int]@);
            assert(gv[r as int].len() == w);
            let x = g[r][c];
            assert(x == col[r as int]);
            if x == 35 {
                out[r].set(c, 35);
                free = r + 1;
            } else if x == 79 {
                out[r].set(c, 46);
                out[free].set(c, 79);
                free = free + 1;
            } else {
                out[r].set(c, 46);
            }
            proof {
                let (t0, f0) = roll(col.take(r as int));
                assert forall|t: int| 0 <= t < h implies (#[trigger] out@[t])@.len() == w by {
                    assert(out@[t]@.len() == before[t]@.len());
                }
                assert forall|t: int, u: int| 0 <= t < h && c < u < w implies #[trigger] out@[t]@[u] == gv[t][u] by {
                    assert(out@[t]@[u] == before[t]@[u]);
                }
                assert forall|t: int, u: int| 0 <= t < h && 0 <= u < c implies #[trigger] out@[t]@[u] == roll(column(gv, u)).0[t] by {
                    assert(out@[t]@[u] == before[t]@[u]);
                }
                assert forall|t: int| r + 1 <= t < h implies (#[trigger] out@[t])@[c as int] == gv[t][c as int] by {
                    assert(out@[t]@[c as int] == before[t]@[c as int]);
                }
                assert forall|t: int| 0 <= t < r + 1 implies (#[trigger] out@[t])@[c as int] == roll(col.take(r + 1)).0[t] by {
                    if t < r && t != f0 {
                        assert(out@[t]@[c as int] == before[t]@[c as int]);
                    }
                }
            }
            r += 1;
        }
        proof {
            assert(col.take(h as int) == col);
            assert forall|t: int, u: int| 0 <= t < h && 0 <= u < c + 1 implies #[trigger] out@[t]@[u] == roll(column(gv, u)).0[t] by {
                if u == c {
                    assert(column(gv, u) == col);
                }
            }
        }
        c += 1;
    }
    proof {
        lemma_roll_len(column(gv, 0));
        assert forall|t: int| 0 <= t < h implies rows_view(out@)[t] == tilt(gv)[t] by {
            assert(rows_view(out@)[t] =~= tilt(gv)[t]);
        }
        assert(rows_view(out@) =~= tilt(gv));
    }
    out
}


/// Turns the grid a quarter clockwise.
pub fn rotate_cw(g: &Vec<Vec<u8>>) -> (r: Vec<Vec<u8>>)
    requires
        rect(rows_view(g@)),
    ensures
        rows_view(r@) == rotate(rows_view(g@)),
        rect(rows_view(r@)),
{
    let ghost gv = rows_view(g@);
    let h = g.len();
    let w = g[0].len();
    let mut out: Vec<Vec<u8>> = Vec::new();
    let mut r: usize = 0;
    while r < w
        invariant
            r <= w,
            h == gv.len(),
            w == gv[0].len(),
            gv == rows_view(g@),
            rect(gv),
            out@.len() == r,
            forall|t: int| 0 <= t < r ==> (#[trigger] out@[t])@ == rotate(gv)[t],
        decreases w - r,
    {
        let mut row: Vec<u8> = Vec::new();
        let mut c: usize = 0;
        while c < h
            invariant
                c <= h,
                r < w,
                h == gv.len(),
                w == gv[0].len(),
                gv == rows_view(g@),
                rect(gv),
                row@.len() == c,
                forall|u: int| 0 <= u < c ==> #[trigger] row@[u] == gv[h - 1 - u][r as int],
            decreases h - c,
        {
            assert(gv[h - 1 - c] == g@[h - 1 - c]@);
            assert(gv[h - 1 - c].len() == w);
            row.push(g[h - 1 - c][r]);
            c += 1;
        }
        assert(row@ =~= rotate(gv)[r as int]);
        out.push(row);
        r += 1;
    }
    assert(rows_view(out@) =~= rotate(gv));
    out
}

/// One spin cycle: four times tilt north and turn clockwise.
pub fn spin_cycle(g: &Vec<Vec<u8>>) -> (r: Vec<Vec<u8>>)
    requires
        rect(rows_view(g@)),
    ensures
        rows_view(r@) == spin(rows_view(g@)),
        rect(rows_view(r@)),
{
    let a = rotate_cw(&tilt_north(g));
    let b = rotate_cw(&tilt_north(&a));
    let c = rotate_cw(&tilt_north(&b));
    rotate_cw(&tilt_north(&c))
}

/// Load on the north side.
pub fn north_load(g: &Vec<Vec<u8>>) -> (r: u64)
    requires
        rect(rows_view(g@)),
    ensures
        r == load_rows(rows_view(g@), g@.len() as nat),
{
    let ghost gv = rows_view(g@);
    let h = g.len();
    let mut acc: u64 = 0;
    let mut r: usize = 0;
    while r < h
        invariant
            r <= h,
            h == gv.len(),
            gv == rows_view(g@),
            rect(gv),
            acc == load_rows(gv, r as nat),
            acc <= r * 1000 * 1000,
        decreases h - r,
    {
        let row = &g[r];
        assert(gv[r as int] == row@);
        let mut n: u64 = 0;
        let mut c: usize = 0;
        while c < row.len()
            invariant
                c <= row@.len(),
                row@.len() <= 1000,
                n == count_rounded(row@, c as nat),
                n <= c,
            decreases row@.len() - c,
        {
            if row[c] == 79 {
                n += 1;
            }
            c += 1;
        }
        assert(n * (h - r) <= 1000 * 1000) by (nonlinear_arith)
            requires n <= 1000, h - r <= 1000, h >= r;
        acc = acc + n * ((h - r) as u64);
        r += 1;
    }
    acc
}

pub open spec fn is_tile(b: u8) -> bool {
    b == rounded() || b == cube() || b == empty()
}

/// The grid of a text: only `O`, `#` and `.`.
pub open spec fn grid_ok(g: Seq<Seq<u8>>) -> bool {
    &&& rect(g)
    &&& forall|r: int, c: int| 0 <= r < g.len() && 0 <= c < g[r].len() ==> is_tile(#[trigger] g[r][c])
}

/// Reads a platform.
pub fn parse_platform(input: &str) -> (r: Option<Vec<Vec<u8>>>)
    ensures
        r is Some <==> grid_ok(content_lines(input.spec_bytes())),
        r is Some ==> rows_view(r.unwrap()@) == content_lines(input.spec_bytes()),
{
    let g = lines_of(input);
    let ghost gv = rows_view(g@);
    if g.len() == 0 || g.len() > 1000 {
        return None;
    }
    assert(gv[0] == g@[0]@);
    if g[0].len() == 0 || g[0].len() > 1000 {
        return None;
    }
    let w = g[0].len();
    let mut r: usize = 0;
    while r < g.len()
        invariant
            r <= g@.len(),
            gv == rows_view(g@),
            gv == content_lines(input.spec_bytes()),
            0 < g@.len() <= 1000,
            w == gv[0].len(),
            0 < w <= 1000,
            forall|t: int| 0 <= t < r ==> (#[trigger] gv[t]).len() == w,
            forall|t: int, c: int| 0 <= t < r && 0 <= c < gv[t].len() ==> is_tile(#[trigger] gv[t][c]),
        decreases g@.len() - r,
    {
        assert(gv[r as int] == g@[r as int]@);
        if g[r].len() != w {
            assert(gv[r as int].len() != gv[0].len());
            return None;
        }
        let mut c: usize = 0;
        while c < w
            invariant
                c <= w,
                r < g@.len(),
                gv == rows_view(g@),
                gv == content_lines(input.spec_bytes()),
                gv[r as int].len() == w,
                forall|u: int| 0 <= u < c ==> is_tile(#[trigger] gv[r as int][u]),
            decreases w - c,
        {
            let x = g[r][c];
            assert(gv[r as int][c as int] == x);
            if x != 79 && x != 35 && x != 46 {
                assert(!is_tile(gv[r as int][c as int]));
                return None;
            }
            c += 1;
        }
        r += 1;
    }
    Some(g)
}

/// Load on the north side after every rock rolled north; `None` when the
/// text is not a platform.
pub fn part1(input: &str) -> (r: Option<u64>)
    ensures
        r is Some <==> grid_ok(content_lines(input.spec_bytes())),
        r is Some ==> r.unwrap() == load_rows(
            tilt(content_lines(input.spec_bytes())),
            content_lines(input.spec_bytes()).len(),
        ),
{
    let g = match parse_platform(input) {
        None => {
            return None;
        },
        Some(g) => g,
    };
    let t = tilt_north(&g);
    Some(north_load(&t))
}

/// Spin cycles asked for by the second question.
pub const TARGET_SPINS: u64 = 1000000000;

/// Most spin cycles simulated while looking for a repeated arrangement.
pub const MAX_SPINS: u64 = 100000;

pub proof fn lemma_spins_add(g: Seq<Seq<u8>>, a: nat, k: nat)
    ensures
        spins(g, a + k) == spins(spins(g, a), k),
    decreases k,
{
    if k > 0 {
        lemma_spins_add(g, a, (k - 1) as nat);
        assert(spins(g, a + k) == spin(spins(g, (a + k - 1) as nat)));
    }
}

/// Once an arrangement repeats, the arrangements repeat with that period.
pub proof fn lemma_spins_periodic(g: Seq<Seq<u8>>, j: nat, p: nat, q: nat, m: nat)
    requires
        p > 0,
        spins(g, j) == spins(g, j + p),
    ensures
        spins(g, j + q * p + m) == spins(g, j + m),
    decreases q,
{
    if q > 0 {
        let rest = ((q - 1) * p + m) as nat;
        lemma_spins_periodic(g, j, p, (q - 1) as nat, m);
        assert(j + q * p + m == (j + p) + rest) by (nonlinear_arith)
            requires q > 0, rest == (q - 1) * p + m;
        lemma_spins_add(g, j + p, rest);
        lemma_spins_add(g, j, rest);
        assert(spins(g, (j + p) + rest) == spins(spins(g, j + p), rest));
        assert(spins(g, j + rest) == spins(spins(g, j), rest));
        assert(j + rest == j + (q - 1) * p + m);
        assert(spins(g, j + q * p + m) == spins(g, (j + p) + rest));
        assert(spins(spins(g, j + p), rest) == spins(spins(g, j), rest));
        assert(spins(g, j + rest) == spins(g, j + m));
    } else {
        assert(q * p == 0) by (nonlinear_arith)
            requires q == 0;
    }
}

fn grids_equal(a: &Vec<Vec<u8>>, b: &Vec<Vec<u8>>) -> (r: bool)
    ensures
        r == (rows_view(a@) == rows_view(b@)),
{
    if a.len() != b.len() {
        assert(rows_view(a@).len() != rows_view(b@).len());
        return false;
    }
    let mut i: usize = 0;
    while i < a.len()
        invariant
            i <= a@.len(),
            a@.len() == b@.len(),
            forall|t: int| 0 <= t < i ==> a@[t]@ == b@[t]@,
        decreases a@.len() - i,
    {
        if !crate::circuit::bytes_eq(a[i].as_slice(), b[i].as_slice()) {
            assert(rows_view(a@)[i as int] != rows_view(b@)[i as int]);
            return false;
        }
        i += 1;
    }
    assert(rows_view(a@) =~= rows_view(b@));
    true
}

/// Load on the north side after a billion spin cycles, found from the
/// first arrangement that repeats; `None` when the text is not a platform
/// or no arrangement repeats within `MAX_SPINS` cycles.
pub fn part2(input: &str) -> (r: Option<u64>)
    ensures
        !grid_ok(content_lines(input.spec_bytes())) ==> r is None,
        r is None ==> !grid_ok(content_lines(input.spec_bytes())) || forall|a: nat, b: nat|
            a < b <= MAX_SPINS ==> #[trigger] spins(content_lines(input.spec_bytes()), a) != #[trigger] spins(
                content_lines(input.spec_bytes()),
                b,
            ),
        r is Some ==> ({
            let g = content_lines(input.spec_bytes());
            let last = spins(g, TARGET_SPINS as nat);
            r.unwrap() == load_rows(last, last.len())
        }),
{
    let g = match parse_platform(input) {
        None => {
            return None;
        },
        Some(g) => g,
    };
    let ghost g0 = rows_view(g@);
    let mut states: Vec<Vec<Vec<u8>>> = Vec::new();
    let mut cur = spin_cycle(&g);
    assert(spins(g0, 1) == spin(spins(g0, 0)));
    states.push(g);
    let mut n: u64 = 1;
    while n <= MAX_SPINS
        invariant
            1 <= n <= MAX_SPINS + 1,
            g0 == content_lines(input.spec_bytes()),
            grid_ok(g0),
            states@.len() == n,
            forall|k: int| 0 <= k < n ==> rows_view((#[trigger] states@[k])@) == spins(g0, k as nat) && rect(
                rows_view(states@[k]@),
            ),
            rows_view(cur@) == spins(g0, n as nat),
            rect(rows_view(cur@)),
            forall|a: nat, b: nat| a < b < n ==> #[trigger] spins(g0, a) != #[trigger] spins(g0, b),
        decreases MAX_SPINS + 1 - n,
    {
        let mut j: usize = 0;
        while j < states.len()
            invariant
                j <= states@.len(),
                states@.len() == n,
                n <= MAX_SPINS,
                g0 == content_lines(input.spec_bytes()),
                grid_ok(g0),
                forall|k: int| 0 <= k < n ==> rows_view((#[trigger] states@[k])@) == spins(g0, k as nat) && rect(
                    rows_view(states@[k]@),
                ),
                rows_view(cur@) == spins(g0, n as nat),
                forall|a: nat, b: nat| a < b < n ==> #[trigger] spins(g0, a) != #[trigger] spins(g0, b),
                forall|a: nat| a < j ==> #[trigger] spins(g0, a) != spins(g0, n as nat),
            decreases states@.len() - j,
        {
            if grids_equal(&states[j], &cur) {
                let p = n - j as u64;
                let rem = (TARGET_SPINS - j as u64) % p;
                let idx = j as u64 + rem;
                proof {
                    let q = ((TARGET_SPINS - j) / (p as int)) as nat;
                    assert(TARGET_SPINS == j + q * p + rem) by (nonlinear_arith)
                        requires p > 0, q == (TARGET_SPINS - j) / (p as int), rem == (TARGET_SPINS - j) % (p as int), j <= TARGET_SPINS;
                    assert(spins(g0, j as nat) == spins(g0, (j + p) as nat));
                    lemma_spins_periodic(g0, j as nat, p as nat, q, rem as nat);
                }
                assert(idx < n);
                assert(spins(g0, TARGET_SPINS as nat) == spins(g0, idx as nat));
                let last = &states[idx as usize];
                return Some(north_load(last));
            }
            assert(spins(g0, j as nat) != spins(g0, n as nat));
            j += 1;
        }
        let next = spin_cycle(&cur);
        states.push(cur);
        cur = next;
        n += 1;
    }
    None
}

} // verus!
