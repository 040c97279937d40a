//! Garden plots an elf can stand on after an exact number of steps.
use vstd::prelude::*;
use vstd::string::StringSliceAdditionalSpecFns;
use crate::text::{content_lines, lines_of, rows_view};

verus! {

/// A non-empty rectangle, at most a thousand each way.
pub open spec fn rect(g: Seq<Seq<u8>>) -> bool {
    &&& 0 < g.len() <= 1000
    &&& 0 < g[0].len() <= 1000
    &&& forall|r: int| 0 <= r < g.len() ==> (#[trigger] g[r]).len() == g[0].len()
}

pub open spec fn marked(m: Seq<Seq<bool>>, r: int, c: int) -> bool {
    0 <= r < m.len() && 0 <= c < m[r].len() && m[r][c]
}

/// A plot (not rock) inside the map.
pub open spec fn plot(g: Seq<Seq<u8>>, r: int, c: int) -> bool {
    0 <= r < g.len() && 0 <= c < g[r].len() && g[r][c] != 35
}

/// Places reachable in exactly `k` steps from `(sr, sc)`, as a grid of
/// flags.
pub open spec fn reach(g: Seq<Seq<u8>>, sr: int, sc: int, k: nat) -> Seq<Seq<bool>>
    decreases k,
{
    if k == 0 {
        Seq::new(g.len(), |r: int| Seq::new(g[0].len(), |c: int| r == sr && c == sc))
    } else {
        stepped(g, reach(g, sr, sc, (k - 1) as nat))
    }
}

/// The plots next to a flagged place.
pub open spec fn stepped(g: Seq<Seq<u8>>, prev: Seq<Seq<bool>>) -> Seq<Seq<bool>> {
    Seq::new(
        g.len(),
        |r: int|
            Seq::new(
                g[0].len(),
                |c: int|
                    plot(g, r, c) && (marked(prev, r - 1, c) || marked(prev, r + 1, c) || marked(prev, r, c - 1)
                        || marked(prev, r, c + 1)),
            ),
    )
}

pub open spec fn count_row(row: Seq<bool>, n: nat) -> nat
    decreases n,
{
    if n == 0 {
        0
    } else {
        count_row(row, (n - 1) as nat) + if row[n - 1] {
            1nat
        } else {
            0nat
        }
    }
}

pub open spec fn count_marked(m: Seq<Seq<bool>>, n: nat) -> nat
    decreases n,
{
    if n == 0 {
        0
    } else {
        count_marked(m, (n - 1) as nat) + count_row(m[n - 1], m[n - 1].len())
    }
}

pub open spec fn flags_view(m: Seq<Vec<bool>>) -> Seq<Seq<bool>> {
    Seq::new(m.len(), |i: int| m[i]@)
}

fn marked_exec(m: &Vec<Vec<bool>>, r: usize, c: usize, dr: u8, dc: u8) -> (b: bool)
    requires
        dr <= 2,
        dc <= 2,
    ensures
        b == marked(flags_view(m@), r + dr - 1, c + dc - 1),
{
    let h = m.len();
    let rr: usize;
    if dr == 0 {
        if r == 0 {
            return false;
        }
        rr = r - 1;
    } else if dr == 1 {
        rr = r;
    } else {
        if r >= h {
            return false;
        }
        rr = r + 1;
    }
    if rr >= h {
        return false;
    }
    let w = m[rr].len();
    assert(flags_view(m@)[rr as int] == m@[rr as int]@);
    let cc: usize;
    if dc == 0 {
        if c == 0 {
            return false;
        }
        cc = c - 1;
    } else if dc == 1 {
        cc = c;
    } else {
        if c >= w {
            return false;
        }
        cc = c + 1;
    }
    if cc >= w {
        return false;
    }
    m[rr][cc]
}

/// One step: every plot next to a marked place.
pub fn step(g: &Vec<Vec<u8>>, m: &Vec<Vec<bool>>) -> (r: Vec<Vec<bool>>)
    requires
        rect(rows_view(g@)),
    ensures
        flags_view(r@) == stepped(rows_view(g@), flags_view(m@)),
{
    let ghost gv = rows_view(g@);
    let ghost mv = flags_view(m@);
    let h = g.len();
    assert(gv[0] == g@[0]@);
    let w = g[0].len();
    let mut out: Vec<Vec<bool>> = Vec::new();
    let mut r: usize = 0;
    while r < h
        invariant
            r <= h,
            h == g@.len(),
            h == gv.len(),
            w == gv[0].len(),
            gv == rows_view(g@),
            mv == flags_view(m@),
            rect(gv),
            out@.len() == r,
            forall|t: int| 0 <= t < r ==> (#[trigger] out@[t])@ == stepped(gv, mv)[t],
        decreases h - r,
    {
        assert(gv[r as int] == g@[r as int]@);
        assert(gv[r as int].len() == w);
        let mut row: Vec<bool> = Vec::new();
        let mut c: usize = 0;
        while c < w
            invariant
                c <= w,
                r < h,
                h == gv.len(),
                w == gv[0].len(),
                gv == rows_view(g@),
                mv == flags_view(m@),
                gv[r as int] == g@[r as int]@,
                gv[r as int].len() == w,
                row@.len() == c,
                forall|u: int| 0 <= u < c ==> #[trigger] row@[u] == stepped(gv, mv)[r as int][u],
            decreases w - c,
        {
            let open = g[r][c] != 35;
            assert(open == plot(gv, r as int, c as int));
            let v = open && (marked_exec(m, r, c, 0, 1) || marked_exec(m, r, c, 2, 1) || marked_exec(m, r, c, 1, 0)
                || marked_exec(m, r, c, 1, 2));
            row.push(v);
            c += 1;
        }
        assert(row@ =~= stepped(gv, mv)[r as int]);
        out.push(row);
        r += 1;
    }
    assert(flags_view(out@) =~= stepped(gv, mv));
    out
}

/// Where the start `S` is: the first one, row by row.
pub fn find_start(g: &Vec<Vec<u8>>) -> (r: Option<(usize, usize)>)
    ensures
        r is Some ==> r.unwrap().0 < g@.len() && r.unwrap().1 < g@[r.unwrap().0 as int]@.len()
            && g@[r.unwrap().0 as int]@[r.unwrap().1 as int] == 83,
        r is None ==> forall|a: int, b: int| 0 <= a < g@.len() && 0 <= b < g@[a]@.len() ==> #[trigger] g@[a]@[b] != 83,
{
    let mut r: usize = 0;
    while r < g.len()
        invariant
            r <= g@.len(),
            forall|a: int, b: int| 0 <= a < r && 0 <= b < g@[a]@.len() ==> #[trigger] g@[a]@[b] != 83,
        decreases g@.len() - r,
    {
        let mut c: usize = 0;
        while c < g[r].len()
            invariant
                r < g@.len(),
                c <= g@[r as int]@.len(),
                forall|a: int, b: int| 0 <= a < r && 0 <= b < g@[a]@.len() ==> #[trigger] g@[a]@[b] != 83,
                forall|b: int| 0 <= b < c ==> #[trigger] g@[r as int]@[b] != 83,
            decreases g@[r as int]@.len() - c,
        {
            if g[r][c] == 83 {
                return Some((r, c));
            }
            c += 1;
        }
        r += 1;
    }
    None
}

/// How many places are flagged.
pub fn count_flags(m: &Vec<Vec<bool>>) -> (r: u64)
    requires
        m@.len() <= 1000,
        forall|i: int| 0 <= i < m@.len() ==> (#[trigger] m@[i])@.len() <= 1000,
    ensures
        r == count_marked(flags_view(m@), m@.len() as nat),
{
    let ghost mv = flags_view(m@);
    let mut acc: u64 = 0;
    let mut r: usize = 0;
    while r < m.len()
        invariant
            r <= m@.len() <= 1000,
            mv == flags_view(m@),
            forall|i: int| 0 <= i < m@.len() ==> (#[trigger] m@[i])@.len() <= 1000,
            acc == count_marked(mv, r as nat),
            acc <= r * 1000,
        decreases m@.len() - r,
    {
        let row = &m[r];
        assert(mv[r as int] == row@);
        let mut n: u64 = 0;
        let mut c: usize = 0;
        while c < row.len()
            invariant
                c <= row@.len() <= 1000,
                n == count_row(row@, c as nat),
                n <= c,
            decreases row@.len() - c,
        {
            if row[c] {
                n += 1;
            }
            c += 1;
        }
        acc = acc + n;
        r += 1;
    }
    acc
}

pub open spec fn is_start(g: Seq<Seq<u8>>, r: int, c: int) -> bool {
    0 <= r < g.len() && 0 <= c < g[r].len() && g[r][c] == 83
}

/// The garden: a rectangle with a start.
pub open spec fn garden_ok(g: Seq<Seq<u8>>) -> bool {
    rect(g) && exists|a: int, b: int| 0 <= a < g.len() && 0 <= b < g[a].len() && #[trigger] g[a][b] == 83
}

/// Plots reachable in exactly `steps` steps from the start, staying on the
/// map; `None` when the text is not a rectangle with a start.
pub fn part1(input: &str, steps: usize) -> (r: Option<u64>)
    ensures
        r is Some <==> garden_ok(content_lines(input.spec_bytes())),
        r is Some ==> exists|sr: int, sc: int|
            #[trigger] is_start(content_lines(input.spec_bytes()), sr, sc) && r.unwrap() == count_marked(
                reach(content_lines(input.spec_bytes()), sr, sc, steps as nat),
                content_lines(input.spec_bytes()).len(),
            ),
{
    let g = lines_of(input);
    let ghost gv = rows_view(g@);
    if g.len() == 0 || g.len() > 1000 {
        return None;
    }
    assert(gv[0] == g@[0]@);
    let w = g[0].len();
    if w == 0 || w > 1000 {
        return None;
    }
    let mut r: usize = 0;
    while r < g.len()
        invariant
            r <= g@.len(),
            gv == rows_view(g@),
            gv == content_lines(input.spec_bytes()),
            w == gv[0].len(),
            forall|t: int| 0 <= t < r ==> (#[trigger] gv[t]).len() == w,
        decreases g@.len() - r,
    {
        assert(gv[r as int] == g@[r as int]@);
        if g[r].len() != w {
            assert(gv[r as int].len() != gv[0].len());
            return None;
        }
        r += 1;
    }
    assert(rect(gv));
    let (sr, sc) = match find_start(&g) {
        None => {
            proof {
                assert forall|a: int, b: int| 0 <= a < gv.len() && 0 <= b < gv[a].len() implies #[trigger] gv[a][b] != 83 by {
                    assert(gv[a] == g@[a]@);
                }
            }
            return None;
        },
        Some(p) => p,
    };
    assert(gv[sr as int] == g@[sr as int]@);
    let h = g.len();
    let mut m: Vec<Vec<bool>> = Vec::new();
    let mut t: usize = 0;
    while t < h
        invariant
            t <= h,
            h == g@.len(),
            gv == rows_view(g@),
            w == gv[0].len(),
            m@.len() == t,
            forall|i: int| 0 <= i < t ==> (#[trigger] m@[i])@ == reach(gv, sr as int, sc as int, 0)[i],
        decreases h - t,
    {
        let mut row: Vec<bool> = Vec::new();
        let mut c: usize = 0;
        while c < w
            invariant
                c <= w,
                t < h,
                h == gv.len(),
                w == gv[0].len(),
                row@.len() == c,
                forall|u: int| 0 <= u < c ==> #[trigger] row@[u] == reach(gv, sr as int, sc as int, 0)[t as int][u],
            decreases w - c,
        {
            row.push(t == sr && c == sc);
            c += 1;
        }
        assert(row@ =~= reach(gv, sr as int, sc as int, 0)[t as int]);
        m.push(row);
        t += 1;
    }
    assert(flags_view(m@) =~= reach(gv, sr as int, sc as int, 0));
    let mut k: usize = 0;
    while k < steps
        invariant
            k <= steps,
            gv == rows_view(g@),
            gv == content_lines(input.spec_bytes()),
            rect(gv),
            flags_view(m@) == reach(gv, sr as int, sc as int, k as nat),
        decreases steps - k,
    {
        assert(g@[0]@ == gv[0]);
        m = step(&g, &m);
        k += 1;
    }
    proof {
        lemma_reach_shape(gv, sr as int, sc as int, k as nat);
        assert forall|i: int| 0 <= i < m@.len() implies (#[trigger] m@[i])@.len() <= 1000 by {
            assert(flags_view(m@)[i] == m@[i]@);
        }
    }
    let n = count_flags(&m);
    assert(gv[sr as int][sc as int] == 83);
    assert(is_start(gv, sr as int, sc as int));
    Some(n)
}

proof fn lemma_reach_shape(g: Seq<Seq<u8>>, sr: int, sc: int, k: nat)
    requires
        rect(g),
    ensures
        reach(g, sr, sc, k).len() == g.len(),
        forall|i: int| 0 <= i < g.len() ==> (#[trigger] reach(g, sr, sc, k)[i]).len() == g[0].len(),
{
}

} // verus!
