//! A loop of pipes through a field: how far its farthest point is from the
//! start, and how many tiles it encloses.
use vstd::prelude::*;
use vstd::string::StringSliceAdditionalSpecFns;
use crate::text::{content_lines, lines_of, rows_view};

verus! {

/// A non-empty rectangle, at most a thousand each way.
pub open spec fn rect(g: Seq<Seq<u8>>) -> bool {
    &&& 0 < g.len() <= 1000
    &&& 0 < g[0].len() <= 1000
    &&& forall|r: int| 0 <= r < g.len() ==> (#[trigger] g[r]).len() == g[0].len()
}

/// The way a pipe tile turns a walk entering it heading `d` (0 up,
/// 1 right, 2 down, 3 left); 4 when the tile does not take it.
pub open spec fn turn(t: u8, d: nat) -> nat {
    if t == 124 && (d == 0 || d == 2) {
        d
    } else if t == 45 && (d == 1 || d == 3) {
        d
    } else if t == 76 && d == 2 {
        1
    } else if t == 76 && d == 3 {
        0
    } else if t == 74 && d == 2 {
        3
    } else if t == 74 && d == 1 {
        0
    } else if t == 55 && d == 0 {
        3
    } else if t == 55 && d == 1 {
        2
    } else if t == 70 && d == 0 {
        1
    } else if t == 70 && d == 3 {
        2
    } else {
        4
    }
}

fn turn_exec(t: u8, d: u8) -> (r: u8)
    requires
        d < 4,
    ensures
        r as nat == turn(t, d as nat),
{
    if t == 124 && (d == 0 || d == 2) {
        d
    } else if t == 45 && (d == 1 || d == 3) {
        d
    } else if t == 76 && d == 2 {
        1
    } else if t == 76 && d == 3 {
        0
    } else if t == 74 && d == 2 {
        3
    } else if t == 74 && d == 1 {
        0
    } else if t == 55 && d == 0 {
        3
    } else if t == 55 && d == 1 {
        2
    } else if t == 70 && d == 0 {
        1
    } else if t == 70 && d == 3 {
        2
    } else {
        4
    }
}

pub open spec fn dr(d: nat) -> int {
    if d == 0 {
        -1
    } else if d == 2 {
        1
    } else {
        0
    }
}

pub open spec fn dc(d: nat) -> int {
    if d == 1 {
        1
    } else if d == 3 {
        -1
    } else {
        0
    }
}

pub open spec fn inside(g: Seq<Seq<u8>>, r: int, c: int) -> bool {
    0 <= r < g.len() && 0 <= c < g[0].len()
}

pub open spec fn is_start(g: Seq<Seq<u8>>, r: int, c: int) -> bool {
    inside(g, r, c) && g[r][c] == 83
}

/// Walking from (`r`, `c`) heading `d` may go on: the next tile is in the
/// field and is the start or a pipe that takes the walk.
pub open spec fn can_go(g: Seq<Seq<u8>>, r: int, c: int, d: nat) -> bool {
    let nr = r + dr(d);
    let nc = c + dc(d);
    inside(g, nr, nc) && (g[nr][nc] == 83 || turn(g[nr][nc], d) < 4)
}

/// The walk after `k` steps from (`sr`, `sc`) heading `d0`: position and
/// heading, or `None` once it has left the pipes.
pub open spec fn walk(g: Seq<Seq<u8>>, sr: int, sc: int, d0: nat, k: nat) -> Option<(int, int, nat)>
    decreases k,
{
    if k == 0 {
        Some((sr, sc, d0))
    } else {
        match walk(g, sr, sc, d0, (k - 1) as nat) {
            Some((r, c, d)) => if can_go(g, r, c, d) {
                let nr = r + dr(d);
                let nc = c + dc(d);
                Some((nr, nc, if g[nr][nc] == 83 { d } else { turn(g[nr][nc], d) }))
            } else {
                None
            },
            None => None,
        }
    }
}

/// Twice the signed area swept by the first `k` steps of the walk.
pub open spec fn swept(g: Seq<Seq<u8>>, sr: int, sc: int, d0: nat, k: nat) -> int
    decreases k,
{
    if k == 0 {
        0
    } else {
        let a = walk(g, sr, sc, d0, (k - 1) as nat).unwrap();
        let b = walk(g, sr, sc, d0, k).unwrap();
        swept(g, sr, sc, d0, (k - 1) as nat) + a.0 * b.1 - a.1 * b.0
    }
}

/// The walk first comes back to the start after `n` steps.
pub open spec fn loop_of(g: Seq<Seq<u8>>, sr: int, sc: int, d0: nat, n: nat) -> bool {
    &&& n >= 1
    &&& walk(g, sr, sc, d0, n) is Some
    &&& walk(g, sr, sc, d0, n).unwrap().0 == sr
    &&& walk(g, sr, sc, d0, n).unwrap().1 == sc
    &&& forall|k: nat|
        1 <= k < n ==> !(#[trigger] walk(g, sr, sc, d0, k).unwrap().0 == sr && walk(g, sr, sc, d0, k).unwrap().1 == sc)
}

/// The first heading, in the order up, right, down, left, in which a walk
/// from the start can go.
pub open spec fn first_heading(g: Seq<Seq<u8>>, sr: int, sc: int) -> nat {
    if can_go(g, sr, sc, 0) {
        0
    } else if can_go(g, sr, sc, 1) {
        1
    } else if can_go(g, sr, sc, 2) {
        2
    } else if can_go(g, sr, sc, 3) {
        3
    } else {
        4
    }
}

proof fn lemma_walk_none_stays(g: Seq<Seq<u8>>, sr: int, sc: int, d0: nat, j: nat, k: nat)
    requires
        j <= k,
        walk(g, sr, sc, d0, j) is None,
    ensures
        walk(g, sr, sc, d0, k) is None,
    decreases k - j,
{
    if j < k {
        lemma_walk_none_stays(g, sr, sc, d0, j, (k - 1) as nat);
    }
}

/// No walk from the start heading `d0` comes back to it within `m` steps.
pub open spec fn no_loop_within(g: Seq<Seq<u8>>, sr: int, sc: int, d0: nat, m: nat) -> bool {
    forall|n: nat| n <= m ==> !#[trigger] loop_of(g, sr, sc, d0, n)
}

/// A walk around the loop from the start: its length and twice its signed
/// area; `None` when the walk leaves the pipes or does not come back within
/// `max_steps`.
pub fn walk_loop(g: &Vec<Vec<u8>>, sr: usize, sc: usize, d0: u8, max_steps: usize) -> (res: Option<(u64, i128)>)
    requires
        rect(rows_view(g@)),
        is_start(rows_view(g@), sr as int, sc as int),
        d0 < 4,
        max_steps <= 1000000,
    ensures
        res is Some ==> loop_of(rows_view(g@), sr as int, sc as int, d0 as nat, res.unwrap().0 as nat) && res.unwrap().1
            == swept(rows_view(g@), sr as int, sc as int, d0 as nat, res.unwrap().0 as nat),
        res is None ==> no_loop_within(rows_view(g@), sr as int, sc as int, d0 as nat, max_steps as nat),
{
    let ghost gv = rows_view(g@);
    let h = g.len();
    assert(gv[0] == g@[0]@);
    let w = g[0].len();
    let mut r = sr;
    let mut c = sc;
    let mut d = d0;
    let mut k: usize = 0;
    let mut area: i128 = 0;
    while k < max_steps
        invariant
            k <= max_steps <= 1000000,
            h == gv.len(),
            w == gv[0].len(),
            gv == rows_view(g@),
            rect(gv),
            is_start(gv, sr as int, sc as int),
            r < h,
            c < w,
            d < 4,
            walk(gv, sr as int, sc as int, d0 as nat, k as nat) == Some((r as int, c as int, d as nat)),
            area == swept(gv, sr as int, sc as int, d0 as nat, k as nat),
            -(k * 2000000) <= area <= k * 2000000,
            forall|j: nat|
                1 <= j <= k ==> !(#[trigger] walk(gv, sr as int, sc as int, d0 as nat, j).unwrap().0 == sr && walk(
                    gv,
                    sr as int,
                    sc as int,
                    d0 as nat,
                    j,
                ).unwrap().1 == sc),
        decreases max_steps - k,
    {
        let (nr, nc): (usize, usize) = if d == 0 {
            if r == 0 {
                proof {
                assert(walk(gv, sr as int, sc as int, d0 as nat, (k + 1) as nat) is None);
                assert forall|m: nat| m <= max_steps implies !#[trigger] loop_of(gv, sr as int, sc as int, d0 as nat, m) by {
                    if m > k {
                        lemma_walk_none_stays(gv, sr as int, sc as int, d0 as nat, (k + 1) as nat, m);
                    }
                }
            }
            return None;
            }
            (r - 1, c)
        } else if d == 2 {
            if r + 1 >= h {
                proof {
                assert(walk(gv, sr as int, sc as int, d0 as nat, (k + 1) as nat) is None);
                assert forall|m: nat| m <= max_steps implies !#[trigger] loop_of(gv, sr as int, sc as int, d0 as nat, m) by {
                    if m > k {
                        lemma_walk_none_stays(gv, sr as int, sc as int, d0 as nat, (k + 1) as nat, m);
                    }
                }
            }
            return None;
            }
            (r + 1, c)
        } else if d == 1 {
            if c + 1 >= w {
                proof {
                assert(walk(gv, sr as int, sc as int, d0 as nat, (k + 1) as nat) is None);
                assert forall|m: nat| m <= max_steps implies !#[trigger] loop_of(gv, sr as int, sc as int, d0 as nat, m) by {
                    if m > k {
                        lemma_walk_none_stays(gv, sr as int, sc as int, d0 as nat, (k + 1) as nat, m);
                    }
                }
            }
            return None;
            }
            (r, c + 1)
        } else {
            if c == 0 {
                proof {
                assert(walk(gv, sr as int, sc as int, d0 as nat, (k + 1) as nat) is None);
                assert forall|m: nat| m <= max_steps implies !#[trigger] loop_of(gv, sr as int, sc as int, d0 as nat, m) by {
                    if m > k {
                        lemma_walk_none_stays(gv, sr as int, sc as int, d0 as nat, (k + 1) as nat, m);
                    }
                }
            }
            return None;
            }
            (r, c - 1)
        };
        assert(nr == r + dr(d as nat) && nc == c + dc(d as nat));
        assert(gv[nr as int] == g@[nr as int]@);
        assert(gv[nr as int].len() == w);
        let t = g[nr][nc];
        let nd = if t == 83 {
            d
        } else {
            turn_exec(t, d)
        };
        if nd >= 4 {
            proof {
                assert(!can_go(gv, r as int, c as int, d as nat));
                assert(walk(gv, sr as int, sc as int, d0 as nat, (k + 1) as nat) is None);
                assert forall|m: nat| m <= max_steps implies !#[trigger] loop_of(gv, sr as int, sc as int, d0 as nat, m) by {
                    if m > k {
                        lemma_walk_none_stays(gv, sr as int, sc as int, d0 as nat, (k + 1) as nat, m);
                    }
                }
            }
            return None;
        }
        assert(can_go(gv, r as int, c as int, d as nat));
        assert(walk(gv, sr as int, sc as int, d0 as nat, (k + 1) as nat) == Some((nr as int, nc as int, nd as nat)));
        assert(0 <= r as int * nc as int <= 1000000) by (nonlinear_arith)
            requires r < 1000, nc < 1000;
        assert(0 <= c as int * nr as int <= 1000000) by (nonlinear_arith)
            requires c < 1000, nr < 1000;
        area = area + (r as i128 * nc as i128 - c as i128 * nr as i128);
        r = nr;
        c = nc;
        d = nd;
        k += 1;
        if r == sr && c == sc {
            return Some((k as u64, area));
        }
    }
    proof {
        assert forall|m: nat| m <= max_steps implies !#[trigger] loop_of(gv, sr as int, sc as int, d0 as nat, m) by {
            if loop_of(gv, sr as int, sc as int, d0 as nat, m) {
                assert(1 <= m <= k);
            }
        }
    }
    None
}

/// Where the start is, and the field is a rectangle.
pub open spec fn field_ok(g: Seq<Seq<u8>>) -> bool {
    rect(g) && exists|r: int, c: int| #[trigger] is_start(g, r, c)
}

/// The walk from start (`sr`, `sc`) finds no way out, or does not come back
/// within a step per tile.
pub open spec fn loop_fails(g: Seq<Seq<u8>>, sr: int, sc: int) -> bool {
    first_heading(g, sr, sc) == 4 || no_loop_within(g, sr, sc, first_heading(g, sr, sc), (g.len() * g[0].len()) as nat)
}

/// The loop through the start of `input`: the start, the heading it is
/// walked in, its length and twice its signed area.
pub fn find_loop(input: &str) -> (res: Option<(usize, usize, u8, u64, i128)>)
    ensures
        !field_ok(content_lines(input.spec_bytes())) ==> res is None,
        res is None ==> !field_ok(content_lines(input.spec_bytes())) || exists|sr: int, sc: int|
            #[trigger] is_start(content_lines(input.spec_bytes()), sr, sc) && loop_fails(content_lines(input.spec_bytes()), sr, sc),
        res is Some ==> ({
            let g = content_lines(input.spec_bytes());
            let (sr, sc, d0, n, a) = res.unwrap();
            &&& is_start(g, sr as int, sc as int)
            &&& d0 as nat == first_heading(g, sr as int, sc as int)
            &&& loop_of(g, sr as int, sc as int, d0 as nat, n as nat)
            &&& a == swept(g, sr as int, sc as int, d0 as nat, n as nat)
        }),
{
    let g = lines_of(input);
    let ghost gv = rows_view(g@);
    if g.len() == 0 || g.len() > 1000 {
        return None;
    }
    assert(gv[0] == g@[0]@);
    let w = g[0].len();
    if w == 0 || w > 1000 {
        return None;
    }
    let mut r: usize = 0;
    let mut found: Option<(usize, usize)> = None;
    while r < g.len()
        invariant
            r <= g@.len(),
            gv == rows_view(g@),
            gv == content_lines(input.spec_bytes()),
            w == gv[0].len(),
            forall|t: int| 0 <= t < r ==> (#[trigger] gv[t]).len() == w,
            found is Some ==> gv[found.unwrap().0 as int][found.unwrap().1 as int] == 83,
            found is Some ==> found.unwrap().0 < r && found.unwrap().1 < w,
            found is None ==> forall|a: int, b: int| 0 <= a < r && 0 <= b < w ==> #[trigger] gv[a][b] != 83,
        decreases g@.len() - r,
    {
        assert(gv[r as int] == g@[r as int]@);
        if g[r].len() != w {
            assert(gv[r as int].len() != gv[0].len());
            assert(!rect(gv));
            return None;
        }
        if found.is_none() {
            let mut c: usize = 0;
            while c < w && g[r][c] != 83
                invariant
                    c <= w,
                    r < g@.len(),
                    gv[r as int] == g@[r as int]@,
                    gv[r as int].len() == w,
                    found is None,
                    forall|b: int| 0 <= b < c ==> #[trigger] gv[r as int][b] != 83,
                decreases w - c,
            {
                c += 1;
            }
            if c < w {
                assert(gv[r as int][c as int] == 83);
                found = Some((r, c));
            }
        }
        r += 1;
    }
    let (sr, sc) = match found {
        None => {
            proof {
                assert forall|a: int, b: int| #[trigger] is_start(gv, a, b) implies false by {
                    assert(gv[a][b] != 83);
                }
            }
            return None;
        },
        Some(p) => p,
    };
    assert(rect(gv));
    assert(is_start(gv, sr as int, sc as int));
    let h = g.len();
    let d0: u8 = if heading_ok(&g, sr, sc, 0) {
        0
    } else if heading_ok(&g, sr, sc, 1) {
        1
    } else if heading_ok(&g, sr, sc, 2) {
        2
    } else if heading_ok(&g, sr, sc, 3) {
        3
    } else {
        assert(first_heading(gv, sr as int, sc as int) == 4);
        assert(loop_fails(gv, sr as int, sc as int));
        return None;
    };
    assert(d0 as nat == first_heading(gv, sr as int, sc as int));
    assert(h * w <= 1000000) by (nonlinear_arith)
        requires h <= 1000, w <= 1000;
    match walk_loop(&g, sr, sc, d0, h * w) {
        None => {
            assert(loop_fails(gv, sr as int, sc as int));
            None
        },
        Some((n, a)) => Some((sr, sc, d0, n, a)),
    }
}

/// Whether a walk at (`r`, `c`) can head `d`.
fn heading_ok(g: &Vec<Vec<u8>>, r: usize, c: usize, d: u8) -> (b: bool)
    requires
        rect(rows_view(g@)),
        r < g@.len(),
        c < rows_view(g@)[0].len(),
        d < 4,
    ensures
        b == can_go(rows_view(g@), r as int, c as int, d as nat),
{
    let ghost gv = rows_view(g@);
    let h = g.len();
    assert(gv[0] == g@[0]@);
    let w = g[0].len();
    let (nr, nc): (usize, usize) = if d == 0 {
        if r == 0 {
            return false;
        }
        (r - 1, c)
    } else if d == 2 {
        if r + 1 >= h {
            return false;
        }
        (r + 1, c)
    } else if d == 1 {
        if c + 1 >= w {
            return false;
        }
        (r, c + 1)
    } else {
        if c == 0 {
            return false;
        }
        (r, c - 1)
    };
    assert(gv[nr as int] == g@[nr as int]@);
    assert(gv[nr as int].len() == w);
    let t = g[nr][nc];
    t == 83 || turn_exec(t, d) < 4
}

/// Steps from the start to the point of the loop farthest from it: half
/// the loop's length; `None` when the text is not a field with a start on a
/// loop.
pub fn part1(input: &str) -> (r: Option<u64>)
    ensures
        !field_ok(content_lines(input.spec_bytes())) ==> r is None,
        r is None ==> !field_ok(content_lines(input.spec_bytes())) || exists|sr: int, sc: int|
            #[trigger] is_start(content_lines(input.spec_bytes()), sr, sc) && loop_fails(content_lines(input.spec_bytes()), sr, sc),
        r is Some ==> exists|sr: int, sc: int, n: nat|
            #[trigger] loop_of(content_lines(input.spec_bytes()), sr, sc, first_heading(content_lines(input.spec_bytes()), sr, sc), n)
                && is_start(content_lines(input.spec_bytes()), sr, sc) && r.unwrap() == n / 2,
{
    match find_loop(input) {
        None => None,
        Some((sr, sc, d0, n, _)) => Some(n / 2),
    }
}

pub open spec fn abs(v: int) -> int {
    if v < 0 {
        -v
    } else {
        v
    }
}

/// Tiles enclosed by the loop, by Pick's theorem from its area and length;
/// `None` when the text is not a field with a start on a loop.
pub fn part2(input: &str) -> (r: Option<u64>)
    ensures
        !field_ok(content_lines(input.spec_bytes())) ==> r is None,
        r is None ==> !field_ok(content_lines(input.spec_bytes())) || (exists|sr: int, sc: int|
            #[trigger] is_start(content_lines(input.spec_bytes()), sr, sc) && loop_fails(content_lines(input.spec_bytes()), sr, sc))
            || exists|sr: int, sc: int, n: nat|
            #[trigger] loop_of(content_lines(input.spec_bytes()), sr, sc, first_heading(content_lines(input.spec_bytes()), sr, sc), n)
                && is_start(content_lines(input.spec_bytes()), sr, sc) && !(0 <= abs(
                swept(content_lines(input.spec_bytes()), sr, sc, first_heading(content_lines(input.spec_bytes()), sr, sc), n),
            ) / 2 - n / 2 + 1 <= u64::MAX && swept(content_lines(input.spec_bytes()), sr, sc, first_heading(content_lines(input.spec_bytes()), sr, sc), n) >= -1000000000000000000),
        r is Some ==> exists|sr: int, sc: int, n: nat|
            #[trigger] loop_of(content_lines(input.spec_bytes()), sr, sc, first_heading(content_lines(input.spec_bytes()), sr, sc), n)
                && is_start(content_lines(input.spec_bytes()), sr, sc) && r.unwrap() == abs(
                swept(content_lines(input.spec_bytes()), sr, sc, first_heading(content_lines(input.spec_bytes()), sr, sc), n),
            ) / 2 - n / 2 + 1,
{
    match find_loop(input) {
        None => None,
        Some((sr, sc, d0, n, a)) => {
            if a < -1000000000000000000 {
                return None;
            }
            let twice = if a < 0 {
                -a
            } else {
                a
            };
            let inner = twice / 2 - (n / 2) as i128 + 1;
            if inner < 0 || inner > u64::MAX as i128 {
                return None;
            }
            Some(inner as u64)
        },
    }
}

} // verus!
