//! The longest hike through a map of paths and forest, never stepping on a
//! tile twice, with steep slopes taken downhill only or as plain path.
use vstd::prelude::*;
use vstd::string::StringSliceAdditionalSpecFns;
use crate::text::{content_lines, lines_of, rows_view};

verus! {

/// A non-empty rectangle, at most a thousand each way.
pub open spec fn rect(g: Seq<Seq<u8>>) -> bool {
    &&& 0 < g.len() <= 1000
    &&& 0 < g[0].len() <= 1000
    &&& forall|r: int| 0 <= r < g.len() ==> (#[trigger] g[r]).len() == g[0].len()
}

pub open spec fn dr(d: nat) -> int {
    if d == 0 {
        -1
    } else if d == 2 {
        1
    } else {
        0
    }
}

pub open spec fn dc(d: nat) -> int {
    if d == 1 {
        1
    } else if d == 3 {
        -1
    } else {
        0
    }
}

/// A slope tile lets a hike leave it only downhill.
pub open spec fn leaves(t: u8, d: nat) -> bool {
    if t == 94 {
        d == 0
    } else if t == 62 {
        d == 1
    } else if t == 118 {
        d == 2
    } else if t == 60 {
        d == 3
    } else {
        true
    }
}

/// From (`r`, `c`) the hike may step heading `d` onto a tile it has not
/// been on; with `slopes`, slopes are only left downhill.
pub open spec fn step_ok(g: Seq<Seq<u8>>, vis: Seq<Seq<bool>>, r: int, c: int, d: nat, slopes: bool) -> bool {
    let nr = r + dr(d);
    let nc = c + dc(d);
    &&& 0 <= nr < g.len()
    &&& 0 <= nc < g[0].len()
    &&& g[nr][nc] != 35
    &&& !vis[nr][nc]
    &&& (!slopes || leaves(g[r][c], d))
}

pub open spec fn mark(vis: Seq<Seq<bool>>, r: int, c: int) -> Seq<Seq<bool>> {
    vis.update(r, vis[r].update(c, true))
}

/// Steps of the longest hike from (`r`, `c`) to (`tr`, `tc`) over tiles not
/// in `vis`, of at most `fuel` steps; -1 when there is none.
pub open spec fn longest(g: Seq<Seq<u8>>, vis: Seq<Seq<bool>>, r: int, c: int, tr: int, tc: int, slopes: bool, fuel: nat) -> int
    decreases fuel, 5nat,
{
    if r == tr && c == tc {
        0
    } else {
        best(g, vis, r, c, tr, tc, slopes, fuel, 0)
    }
}

/// The longest such hike whose first step heads `d` or a later direction.
pub open spec fn best(g: Seq<Seq<u8>>, vis: Seq<Seq<bool>>, r: int, c: int, tr: int, tc: int, slopes: bool, fuel: nat, d: nat) -> int
    decreases fuel, 4 - d,
{
    if d >= 4 {
        -1
    } else {
        let rest = best(g, vis, r, c, tr, tc, slopes, fuel, d + 1);
        if fuel > 0 && step_ok(g, vis, r, c, d, slopes) {
            let nr = r + dr(d);
            let nc = c + dc(d);
            let sub = longest(g, mark(vis, nr, nc), nr, nc, tr, tc, slopes, (fuel - 1) as nat);
            if sub >= 0 && sub + 1 > rest {
                sub + 1
            } else {
                rest
            }
        } else {
            rest
        }
    }
}

pub open spec fn flags_view(v: Seq<Vec<bool>>) -> Seq<Seq<bool>> {
    Seq::new(v.len(), |i: int| v[i]@)
}

pub open spec fn same_shape(vis: Seq<Vec<bool>>, h: int, w: int) -> bool {
    vis.len() == h && forall|i: int| 0 <= i < h ==> (#[trigger] vis[i])@.len() == w
}

fn leaves_exec(t: u8, d: u8) -> (b: bool)
    ensures
        b == leaves(t, d as nat),
{
    if t == 94 {
        d == 0
    } else if t == 62 {
        d == 1
    } else if t == 118 {
        d == 2
    } else if t == 60 {
        d == 3
    } else {
        true
    }
}

/// The longest hike, as `longest` and `best` describe it, from heading `d`
/// on (`d` of 4 or more: from the tile itself).
fn search(
    g: &Vec<Vec<u8>>,
    vis: &mut Vec<Vec<bool>>,
    r: usize,
    c: usize,
    tr: usize,
    tc: usize,
    slopes: bool,
    fuel: usize,
    d: u8,
    whole: bool,
) -> (res: i64)
    requires
        rect(rows_view(g@)),
        same_shape(old(vis)@, g@.len() as int, rows_view(g@)[0].len() as int),
        r < g@.len(),
        c < rows_view(g@)[0].len(),
        d <= 4,
        fuel <= 1000000,
    ensures
        flags_view(final(vis)@) == flags_view(old(vis)@),
        same_shape(final(vis)@, g@.len() as int, rows_view(g@)[0].len() as int),
        res == if whole {
            longest(rows_view(g@), flags_view(old(vis)@), r as int, c as int, tr as int, tc as int, slopes, fuel as nat)
        } else {
            best(rows_view(g@), flags_view(old(vis)@), r as int, c as int, tr as int, tc as int, slopes, fuel as nat, d as nat)
        },
        -1 <= res <= fuel,
    decreases fuel, if whole { 5int } else { 4 - d },
{
    let ghost gv = rows_view(g@);
    let ghost v0 = flags_view(vis@);
    if whole {
        if r == tr && c == tc {
            return 0;
        }
        return search(g, vis, r, c, tr, tc, slopes, fuel, 0, false);
    }
    if d >= 4 {
        return -1;
    }
    let rest = search(g, vis, r, c, tr, tc, slopes, fuel, d + 1, false);
    if fuel == 0 {
        return rest;
    }
    let h = g.len();
    assert(gv[0] == g@[0]@);
    let w = g[0].len();
    let (ok, nr, nc): (bool, usize, usize) = if d == 0 {
        if r == 0 {
            (false, r, c)
        } else {
            (true, r - 1, c)
        }
    } else if d == 2 {
        if r + 1 >= h {
            (false, r, c)
        } else {
            (true, r + 1, c)
        }
    } else if d == 1 {
        if c + 1 >= w {
            (false, r, c)
        } else {
            (true, r, c + 1)
        }
    } else {
        if c == 0 {
            (false, r, c)
        } else {
            (true, r, c - 1)
        }
    };
    if !ok {
        return rest;
    }
    assert(nr == r + dr(d as nat) && nc == c + dc(d as nat));
    assert(gv[nr as int] == g@[nr as int]@ && gv[r as int] == g@[r as int]@);
    assert(vis@[nr as int]@.len() == w);
    assert(v0[nr as int] == vis@[nr as int]@);
    let can = g[nr][nc] != 35 && !vis[nr][nc] && (!slopes || leaves_exec(g[r][c], d));
    if !can {
        return rest;
    }
    let ghost before = vis@;
    vis[nr].set(nc, true);
    proof {
        assert(flags_view(vis@) =~= mark(v0, nr as int, nc as int));
        assert forall|i: int| 0 <= i < h implies (#[trigger] vis@[i])@.len() == w by {
            if i != nr {
                assert(vis@[i] == before[i]);
            }
        }
    }
    let sub = search(g, vis, nr, nc, tr, tc, slopes, fuel - 1, 0, true);
    let ghost mid = vis@;
    vis[nr].set(nc, false);
    proof {
        assert(flags_view(vis@) =~= v0) by {
            assert forall|i: int| 0 <= i < h implies flags_view(vis@)[i] =~= v0[i] by {
                if i != nr {
                    assert(vis@[i] == mid[i]);
                    assert(flags_view(mid)[i] == mark(v0, nr as int, nc as int)[i]);
                } else {
                    assert(flags_view(mid)[i] == mark(v0, nr as int, nc as int)[i]);
                }
            }
        }
        assert forall|i: int| 0 <= i < h implies (#[trigger] vis@[i])@.len() == w by {
            if i != nr {
                assert(vis@[i] == mid[i]);
            }
        }
    }
    if sub >= 0 && sub + 1 > rest {
        sub + 1
    } else {
        rest
    }
}

/// The hike's start: the one path tile of the top row; its end: the one of
/// the bottom row (the first, if there are more).
pub open spec fn first_path(row: Seq<u8>, k: nat) -> int
    decreases row.len() - k,
{
    if k >= row.len() {
        -1
    } else if row[k as int] == 46 {
        k as int
    } else {
        first_path(row, k + 1)
    }
}

fn first_path_exec(row: &Vec<u8>) -> (r: Option<usize>)
    ensures
        r is Some ==> r.unwrap() as int == first_path(row@, 0) && r.unwrap() < row@.len(),
        r is None ==> first_path(row@, 0) == -1,
{
    let mut k: usize = 0;
    while k < row.len()
        invariant
            k <= row@.len(),
            first_path(row@, 0) == first_path(row@, k as nat),
        decreases row@.len() - k,
    {
        if row[k] == 46 {
            return Some(k);
        }
        k += 1;
    }
    None
}

/// A rectangular map with a path tile in its top and in its bottom row.
pub open spec fn map_ok(g: Seq<Seq<u8>>) -> bool {
    rect(g) && first_path(g[0], 0) >= 0 && first_path(g[g.len() - 1], 0) >= 0
}

/// Steps of the longest hike from the top row's first path tile to the
/// bottom row's (-1 when there is none).
pub open spec fn hike_len(g: Seq<Seq<u8>>, slopes: bool) -> int {
    let sc = first_path(g[0], 0);
    let tc = first_path(g[g.len() - 1], 0);
    let vis = Seq::new(g.len(), |i: int| Seq::new(g[0].len(), |j: int| i == 0 && j == sc));
    longest(g, vis, 0, sc, g.len() - 1, tc, slopes, (g.len() * g[0].len()) as nat)
}

/// Steps of the longest hike from the top row's path tile to the bottom
/// row's; `None` when the text is not a rectangular map with those tiles,
/// or there is no such hike.
pub fn longest_hike(input: &str, slopes: bool) -> (res: Option<u64>)
    ensures
        res is Some <==> (map_ok(content_lines(input.spec_bytes())) && hike_len(content_lines(input.spec_bytes()), slopes) >= 0),
        res is Some ==> res.unwrap() == hike_len(content_lines(input.spec_bytes()), slopes),
{
    let g = lines_of(input);
    let ghost gv = rows_view(g@);
    if g.len() == 0 || g.len() > 1000 {
        return None;
    }
    assert(gv[0] == g@[0]@);
    let w = g[0].len();
    if w == 0 || w > 1000 {
        return None;
    }
    let mut r: usize = 0;
    while r < g.len()
        invariant
            r <= g@.len(),
            gv == rows_view(g@),
            gv == content_lines(input.spec_bytes()),
            w == gv[0].len(),
            forall|t: int| 0 <= t < r ==> (#[trigger] gv[t]).len() == w,
        decreases g@.len() - r,
    {
        assert(gv[r as int] == g@[r as int]@);
        if g[r].len() != w {
            assert(gv[r as int].len() != gv[0].len());
            return None;
        }
        r += 1;
    }
    assert(rect(gv));
    let h = g.len();
    let sc = match first_path_exec(&g[0]) {
        None => {
            return None;
        },
        Some(c) => c,
    };
    assert(gv[h - 1] == g@[h - 1]@);
    let tc = match first_path_exec(&g[h - 1]) {
        None => {
            return None;
        },
        Some(c) => c,
    };
    let mut vis: Vec<Vec<bool>> = Vec::new();
    let mut i: usize = 0;
    while i < h
        invariant
            i <= h,
            vis@.len() == i,
            forall|t: int| 0 <= t < i ==> (#[trigger] vis@[t])@.len() == w,
            forall|t: int| 0 <= t < i ==> #[trigger] flags_view(vis@)[t] == Seq::new(w as nat, |j: int| t == 0 && j == sc),
        decreases h - i,
    {
        let mut row: Vec<bool> = Vec::new();
        let mut j: usize = 0;
        while j < w
            invariant
                j <= w,
                row@.len() == j,
                forall|u: int| 0 <= u < j ==> #[trigger] row@[u] == (i == 0 && u == sc),
            decreases w - j,
        {
            row.push(i == 0 && j == sc);
            j += 1;
        }
        assert(row@ =~= Seq::new(w as nat, |j: int| i == 0 && j == sc));
        let ghost before = vis@;
        vis.push(row);
        proof {
            assert forall|t: int| 0 <= t < i + 1 implies #[trigger] flags_view(vis@)[t] == Seq::new(w as nat, |j: int| t == 0 && j == sc) by {
                if t < i {
                    assert(vis@[t] == before[t]);
                    assert(flags_view(before)[t] == flags_view(vis@)[t]);
                }
            }
        }
        i += 1;
    }
    assert(flags_view(vis@) =~= Seq::new(gv.len(), |i: int| Seq::new(gv[0].len(), |j: int| i == 0 && j == sc)));
    assert(h * w <= 1000000) by (nonlinear_arith)
        requires h <= 1000, w <= 1000;
    let res = search(&g, &mut vis, 0, sc, h - 1, tc, slopes, h * w, 0, true);
    if res < 0 {
        return None;
    }
    Some(res as u64)
}

/// The longest hike going down slopes only.
pub fn part1(input: &str) -> (res: Option<u64>)
    ensures
        res is Some <==> (map_ok(content_lines(input.spec_bytes())) && hike_len(content_lines(input.spec_bytes()), true) >= 0),
        res is Some ==> res.unwrap() == hike_len(content_lines(input.spec_bytes()), true),
{
    longest_hike(input, true)
}

/// The longest hike treating slopes as plain path.
pub fn part2(input: &str) -> (res: Option<u64>)
    ensures
        res is Some <==> (map_ok(content_lines(input.spec_bytes())) && hike_len(content_lines(input.spec_bytes()), false) >= 0),
        res is Some ==> res.unwrap() == hike_len(content_lines(input.spec_bytes()), false),
{
    longest_hike(input, false)
}

} // verus!
