//! A beam of light through a grid of mirrors and splitters: the tiles it
//! energizes.
use vstd::prelude::*;
use vstd::string::StringSliceAdditionalSpecFns;
use crate::text::{content_lines, lines_of, rows_view};

verus! {

/// A beam entering tile (`r`, `c`) heading `d`: 0 up, 1 right, 2 down,
/// 3 left.
pub struct Beam {
    pub r: usize,
    pub c: usize,
    pub d: u8,
}

/// A non-empty rectangle of `.`, `/`, `\`, `|` and `-`, at most a
/// thousand each way.
pub open spec fn grid_ok(g: Seq<Seq<u8>>) -> bool {
    &&& 0 < g.len() <= 1000
    &&& 0 < g[0].len() <= 1000
    &&& forall|r: int| 0 <= r < g.len() ==> (#[trigger] g[r]).len() == g[0].len()
}

/// Directions a beam heading `d` leaves a tile in.
pub open spec fn outs(t: u8, d: nat) -> Seq<nat> {
    if t == 47 {
        seq![if d == 0 { 1nat } else if d == 1 { 0nat } else if d == 2 { 3nat } else { 2nat }]
    } else if t == 92 {
        seq![if d == 0 { 3nat } else if d == 1 { 2nat } else if d == 2 { 1nat } else { 0nat }]
    } else if t == 124 && (d == 1 || d == 3) {
        seq![0nat, 2nat]
    } else if t == 45 && (d == 0 || d == 2) {
        seq![1nat, 3nat]
    } else {
        seq![d]
    }
}

pub open spec fn dr(d: nat) -> int {
    if d == 0 {
        -1
    } else if d == 2 {
        1
    } else {
        0
    }
}

pub open spec fn dc(d: nat) -> int {
    if d == 1 {
        1
    } else if d == 3 {
        -1
    } else {
        0
    }
}

pub open spec fn inside(g: Seq<Seq<u8>>, s: (int, int, nat)) -> bool {
    0 <= s.0 < g.len() && 0 <= s.1 < g[0].len() && s.2 < 4
}

/// The beam `b` moves on from `a`.
pub open spec fn follows(g: Seq<Seq<u8>>, a: (int, int, nat), b: (int, int, nat)) -> bool {
    &&& inside(g, a)
    &&& inside(g, b)
    &&& exists|k: int|
        0 <= k < outs(g[a.0][a.1], a.2).len() && #[trigger] outs(g[a.0][a.1], a.2)[k] == b.2 && b.0 == a.0 + dr(b.2)
            && b.1 == a.1 + dc(b.2)
}

/// `p` is a path of the beam from `start`.
pub open spec fn is_path(g: Seq<Seq<u8>>, start: (int, int, nat), p: Seq<(int, int, nat)>) -> bool {
    &&& p.len() > 0
    &&& p[0] == start
    &&& inside(g, start)
    &&& forall|i: int| 0 <= i < p.len() - 1 ==> follows(g, #[trigger] p[i], p[i + 1])
}

pub open spec fn reachable(g: Seq<Seq<u8>>, start: (int, int, nat), s: (int, int, nat)) -> bool {
    exists|p: Seq<(int, int, nat)>| #[trigger] is_path(g, start, p) && p.last() == s
}

/// Some beam from `start` reaches tile (`r`, `c`).
pub open spec fn lit(g: Seq<Seq<u8>>, start: (int, int, nat), r: int, c: int) -> bool {
    exists|d: nat| d < 4 && #[trigger] reachable(g, start, (r, c, d))
}

pub open spec fn lit_in_row(g: Seq<Seq<u8>>, start: (int, int, nat), r: int, n: nat) -> nat
    decreases n,
{
    if n == 0 {
        0
    } else {
        lit_in_row(g, start, r, (n - 1) as nat) + if lit(g, start, r, n - 1) {
            1nat
        } else {
            0nat
        }
    }
}

/// Tiles energized in the first `n` rows.
pub open spec fn energized(g: Seq<Seq<u8>>, start: (int, int, nat), n: nat) -> nat
    decreases n,
{
    if n == 0 {
        0
    } else {
        energized(g, start, (n - 1) as nat) + lit_in_row(g, start, n - 1, g[0].len())
    }
}

/// The tile a beam at `s` reaches when it leaves heading `o`.
pub open spec fn succ(s: (int, int, nat), o: nat) -> (int, int, nat) {
    (s.0 + dr(o), s.1 + dc(o), o)
}

pub open spec fn state_of(b: Beam) -> (int, int, nat) {
    (b.r as int, b.c as int, b.d as nat)
}

pub open spec fn seen_at(seen: Seq<Vec<Vec<bool>>>, s: (int, int, nat)) -> bool {
    0 <= s.0 < seen.len() && 0 <= s.1 < seen[s.0]@.len() && s.2 < seen[s.0]@[s.1]@.len() && seen[s.0]@[s.1]@[
        s.2 as int]
}

/// Every beam that follows `s` has been seen.
pub open spec fn closed_at(g: Seq<Seq<u8>>, seen: Seq<Vec<Vec<bool>>>, s: (int, int, nat)) -> bool {
    forall|t: (int, int, nat)| #[trigger] follows(g, s, t) ==> seen_at(seen, t)
}

/// `seen` has a flag per tile of an `h` by `w` grid and per direction.
pub open spec fn shaped(seen: Seq<Vec<Vec<bool>>>, h: int, w: int) -> bool {
    &&& seen.len() == h
    &&& forall|t: int| 0 <= t < h ==> (#[trigger] seen[t])@.len() == w
    &&& forall|t: int, u: int| 0 <= t < h && 0 <= u < w ==> (#[trigger] seen[t]@[u])@.len() == 4
}

/// Flags the beam (`r`, `c`, `d`); pushes it on `stack` when it was not
/// flagged before.
fn mark(seen: &mut Vec<Vec<Vec<bool>>>, stack: &mut Vec<Beam>, r: usize, c: usize, d: u8, h: usize, w: usize) -> (fresh: bool)
    requires
        shaped(old(seen)@, h as int, w as int),
        r < h,
        c < w,
        d < 4,
    ensures
        shaped(final(seen)@, h as int, w as int),
        fresh == !seen_at(old(seen)@, (r as int, c as int, d as nat)),
        forall|x: (int, int, nat)|
            #[trigger] seen_at(final(seen)@, x) <==> (seen_at(old(seen)@, x) || x == (r as int, c as int, d as nat)),
        fresh ==> final(stack)@ == old(stack)@.push(Beam { r, c, d }),
        !fresh ==> final(stack)@ == old(stack)@,
{
    let ghost before = seen@;
    assert(before[r as int]@[c as int]@.len() == 4);
    if seen[r][c][d as usize] {
        return false;
    }
    seen[r][c].set(d as usize, true);
    proof {
        assert forall|x: (int, int, nat)| #[trigger] seen_at(seen@, x) <==> (seen_at(before, x) || x == (r as int, c as int, d as nat)) by {
            if 0 <= x.0 < h && x.0 != r {
                assert(seen@[x.0] == before[x.0]);
            } else if x.0 == r && 0 <= x.1 < w && x.1 != c {
                assert(seen@[x.0]@[x.1] == before[x.0]@[x.1]);
            }
        }
        assert forall|t: int| 0 <= t < h implies (#[trigger] seen@[t])@.len() == w by {
            if t != r {
                assert(seen@[t] == before[t]);
            }
        }
        assert forall|t: int, u: int| 0 <= t < h && 0 <= u < w implies (#[trigger] seen@[t]@[u])@.len() == 4 by {
            if t != r {
                assert(seen@[t] == before[t]);
            } else if u != c {
                assert(seen@[t]@[u] == before[t]@[u]);
            }
        }
    }
    stack.push(Beam { r, c, d });
    true
}

fn out_dirs(t: u8, d: u8) -> (r: Vec<u8>)
    requires
        d < 4,
    ensures
        r@.len() == outs(t, d as nat).len(),
        forall|k: int| 0 <= k < r@.len() ==> #[trigger] r@[k] as nat == outs(t, d as nat)[k] && r@[k] < 4,
{
    let mut r: Vec<u8> = Vec::new();
    if t == 47 {
        r.push(if d == 0 { 1 } else if d == 1 { 0 } else if d == 2 { 3 } else { 2 });
    } else if t == 92 {
        r.push(if d == 0 { 3 } else if d == 1 { 2 } else if d == 2 { 1 } else { 0 });
    } else if t == 124 && (d == 1 || d == 3) {
        r.push(0);
        r.push(2);
    } else if t == 45 && (d == 0 || d == 2) {
        r.push(1);
        r.push(3);
    } else {
        r.push(d);
    }
    r
}

proof fn lemma_closed_reaches(
    g: Seq<Seq<u8>>,
    seen: Seq<Vec<Vec<bool>>>,
    start: (int, int, nat),
    p: Seq<(int, int, nat)>,
    i: int,
)
    requires
        is_path(g, start, p),
        seen_at(seen, start),
        forall|s: (int, int, nat)| #[trigger] seen_at(seen, s) ==> closed_at(g, seen, s),
        0 <= i < p.len(),
    ensures
        seen_at(seen, p[i]),
    decreases i,
{
    if i > 0 {
        lemma_closed_reaches(g, seen, start, p, i - 1);
        assert(follows(g, p[i - 1], p[i]));
        assert(closed_at(g, seen, p[i - 1]));
    }
}

/// Tiles energized by a beam entering at `start`; `None` when `start` is
/// outside the grid, or the search runs out of its step budget.
pub fn light(g: &Vec<Vec<u8>>, start: Beam) -> (res: Option<u64>)
    requires
        grid_ok(rows_view(g@)),
    ensures
        res is Some ==> res.unwrap() == energized(rows_view(g@), state_of(start), g@.len() as nat),
{
    let ghost gv = rows_view(g@);
    let ghost st = state_of(start);
    let h = g.len();
    assert(gv[0] == g@[0]@);
    let w = g[0].len();
    if start.r >= h || start.c >= w || start.d >= 4 {
        return None;
    }
    let mut seen: Vec<Vec<Vec<bool>>> = Vec::new();
    let mut r: usize = 0;
    while r < h
        invariant
            r <= h,
            seen@.len() == r,
            forall|t: int| 0 <= t < r ==> (#[trigger] seen@[t])@.len() == w,
            forall|t: int, u: int| 0 <= t < r && 0 <= u < w ==> (#[trigger] seen@[t]@[u])@.len() == 4,
            forall|s: (int, int, nat)| !#[trigger] seen_at(seen@, s),
        decreases h - r,
    {
        let mut row: Vec<Vec<bool>> = Vec::new();
        let mut c: usize = 0;
        while c < w
            invariant
                c <= w,
                row@.len() == c,
                forall|u: int| 0 <= u < c ==> (#[trigger] row@[u])@.len() == 4,
                forall|u: int, d: int| 0 <= u < c && 0 <= d < 4 ==> !(#[trigger] row@[u]@[d]),
            decreases w - c,
        {
            row.push(vec![false, false, false, false]);
            c += 1;
        }
        let ghost before = seen@;
        seen.push(row);
        proof {
            assert forall|s: (int, int, nat)| !#[trigger] seen_at(seen@, s) by {
                if 0 <= s.0 < r {
                    assert(seen@[s.0] == before[s.0]);
                    assert(!seen_at(before, s));
                }
            }
        }
        r += 1;
    }
    let mut stack: Vec<Beam> = Vec::new();
    mark(&mut seen, &mut stack, start.r, start.c, start.d, h, w);
    proof {
        assert(seen_at(seen@, st));
        let p0 = seq![st];
        assert(is_path(gv, st, p0));
        assert(reachable(gv, st, st));
        assert(state_of(stack@[0]) == st);
    }
    assert(4 * h * w <= 4000000) by (nonlinear_arith)
        requires h <= 1000, w <= 1000;
    let mut fuel: usize = 4 * h * w + 1;
    while stack.len() > 0
        invariant
            h == gv.len(),
            w == gv[0].len(),
            gv == rows_view(g@),
            grid_ok(gv),
            inside(gv, st),
            shaped(seen@, h as int, w as int),
            seen_at(seen@, st),
            forall|s: (int, int, nat)| #[trigger] seen_at(seen@, s) ==> inside(gv, s) && reachable(gv, st, s),
            forall|s: (int, int, nat)|
                #[trigger] seen_at(seen@, s) ==> (exists|k: int| 0 <= k < stack@.len() && state_of(#[trigger] stack@[k]) == s)
                    || closed_at(gv, seen@, s),
            forall|k: int| 0 <= k < stack@.len() ==> #[trigger] seen_at(seen@, state_of(stack@[k])),
        decreases fuel,
    {
        if fuel == 0 {
            return None;
        }
        fuel -= 1;
        let ghost stack0 = stack@;
        let b = stack.pop().unwrap();
        let ghost s = state_of(b);
        let ghost seen0 = seen@;
        proof {
            assert(stack0[stack0.len() - 1] == b);
            assert(seen_at(seen@, s));
            assert(inside(gv, s));
            assert(reachable(gv, st, s));
            assert forall|x: (int, int, nat)| #[trigger] seen_at(seen@, x) implies (exists|j: int| 0 <= j < stack@.len() && state_of(#[trigger] stack@[j]) == x)
                || closed_at(gv, seen0, x) || x == s by {
                if exists|k: int| 0 <= k < stack0.len() && state_of(#[trigger] stack0[k]) == x {
                    let k = choose|k: int| 0 <= k < stack0.len() && state_of(#[trigger] stack0[k]) == x;
                    if k < stack0.len() - 1 {
                        assert(stack@[k] == stack0[k]);
                    }
                }
            }
            assert forall|j: int| 0 <= j < stack@.len() implies #[trigger] seen_at(seen@, state_of(stack@[j])) by {
                assert(stack@[j] == stack0[j]);
            }
        }
        assert(gv[b.r as int] == g@[b.r as int]@);
        let tile = g[b.r][b.c];
        let dirs = out_dirs(tile, b.d);
        let mut k: usize = 0;
        while k < dirs.len()
            invariant
                k <= dirs@.len(),
                h == gv.len(),
                w == gv[0].len(),
                grid_ok(gv),
                inside(gv, st),
                inside(gv, s),
                reachable(gv, st, s),
                s == state_of(b),
                tile == gv[s.0][s.1],
                dirs@.len() == outs(tile, s.2).len(),
                forall|j: int| 0 <= j < dirs@.len() ==> #[trigger] dirs@[j] as nat == outs(tile, s.2)[j] && dirs@[j] < 4,
                shaped(seen@, h as int, w as int),
                seen_at(seen@, st),
                forall|x: (int, int, nat)| #[trigger] seen_at(seen0, x) ==> seen_at(seen@, x),
                forall|x: (int, int, nat)| #[trigger] seen_at(seen@, x) ==> inside(gv, x) && reachable(gv, st, x),
                forall|x: (int, int, nat)|
                    #[trigger] seen_at(seen@, x) ==> (exists|j: int| 0 <= j < stack@.len() && state_of(#[trigger] stack@[j]) == x)
                        || closed_at(gv, seen0, x) || x == s,
                forall|j: int| 0 <= j < stack@.len() ==> #[trigger] seen_at(seen@, state_of(stack@[j])),
                forall|j: int|
                    0 <= j < k && inside(gv, succ(s, #[trigger] outs(tile, s.2)[j])) ==> seen_at(
                        seen@,
                        succ(s, outs(tile, s.2)[j]),
                    ),
            decreases dirs@.len() - k,
        {
            let o = dirs[k];
            let ghost t = succ(s, o as nat);
            let mut ok = true;
            let mut nr: usize = b.r;
            let mut nc: usize = b.c;
            if o == 0 {
                if b.r == 0 {
                    ok = false;
                } else {
                    nr = b.r - 1;
                }
            } else if o == 2 {
                if b.r + 1 >= h {
                    ok = false;
                } else {
                    nr = b.r + 1;
                }
            } else if o == 1 {
                if b.c + 1 >= w {
                    ok = false;
                } else {
                    nc = b.c + 1;
                }
            } else {
                if b.c == 0 {
                    ok = false;
                } else {
                    nc = b.c - 1;
                }
            }
            assert(ok ==> t == (nr as int, nc as int, o as nat) && inside(gv, t));
            assert(!ok ==> !inside(gv, t));
            if ok {
                let ghost before = seen@;
                let ghost stack1 = stack@;
                let fresh = mark(&mut seen, &mut stack, nr, nc, o, h, w);
                proof {
                    assert(follows(gv, s, t)) by {
                        assert(outs(gv[s.0][s.1], s.2)[k as int] == t.2);
                    }
                    let p = choose|p: Seq<(int, int, nat)>| #[trigger] is_path(gv, st, p) && p.last() == s;
                    let p2 = p.push(t);
                    assert forall|i: int| 0 <= i < p2.len() - 1 implies follows(gv, #[trigger] p2[i], p2[i + 1]) by {
                        if i < p.len() - 1 {
                            assert(p2[i] == p[i] && p2[i + 1] == p[i + 1]);
                        } else {
                            assert(p2[i] == p.last());
                            assert(p2[i + 1] == t);
                        }
                    }
                    assert(is_path(gv, st, p2));
                    assert(p2.last() == t);
                    assert(reachable(gv, st, t));
                    if fresh {
                        assert(state_of(stack@[stack@.len() - 1]) == t);
                    }
                    assert forall|j: int| 0 <= j < stack@.len() implies #[trigger] seen_at(seen@, state_of(stack@[j])) by {
                        if j < stack1.len() {
                            assert(stack@[j] == stack1[j]);
                        }
                    }
                    assert forall|x: (int, int, nat)| #[trigger] seen_at(seen@, x) implies (exists|j: int| 0 <= j < stack@.len() && state_of(#[trigger] stack@[j]) == x)
                        || closed_at(gv, seen0, x) || x == s by {
                        if !seen_at(before, x) {
                            assert(x == t);
                            assert(fresh);
                            assert(state_of(stack@[stack@.len() - 1]) == x);
                        } else if exists|j: int| 0 <= j < stack1.len() && state_of(#[trigger] stack1[j]) == x {
                            let j = choose|j: int| 0 <= j < stack1.len() && state_of(#[trigger] stack1[j]) == x;
                            assert(stack@[j] == stack1[j]);
                        }
                    }
                }
            }
            proof {
                assert(outs(tile, s.2)[k as int] == o as nat);
            }
            k += 1;
        }
        proof {
            assert(closed_at(gv, seen@, s)) by {
                assert forall|t: (int, int, nat)| #[trigger] follows(gv, s, t) implies seen_at(seen@, t) by {
                    let j = choose|j: int| 0 <= j < outs(gv[s.0][s.1], s.2).len() && #[trigger] outs(gv[s.0][s.1], s.2)[j] == t.2
                        && t.0 == s.0 + dr(t.2) && t.1 == s.1 + dc(t.2);
                    assert(t == succ(s, outs(tile, s.2)[j]));
                }
            }
            assert forall|x: (int, int, nat)| #[trigger] seen_at(seen@, x) implies (exists|j: int| 0 <= j < stack@.len() && state_of(#[trigger] stack@[j]) == x)
                || closed_at(gv, seen@, x) by {
                if x != s && !(exists|j: int| 0 <= j < stack@.len() && state_of(#[trigger] stack@[j]) == x) {
                    assert(closed_at(gv, seen0, x));
                    assert forall|t: (int, int, nat)| #[trigger] follows(gv, x, t) implies seen_at(seen@, t) by {
                        assert(seen_at(seen0, t));
                    }
                }
            }
        }
    }
    proof {
        assert forall|x: (int, int, nat)| #[trigger] seen_at(seen@, x) implies closed_at(gv, seen@, x) by {}
        assert forall|x: (int, int, nat)| #[trigger] reachable(gv, st, x) implies seen_at(seen@, x) by {
            let p = choose|p: Seq<(int, int, nat)>| #[trigger] is_path(gv, st, p) && p.last() == x;
            lemma_closed_reaches(gv, seen@, st, p, p.len() - 1);
        }
    }
    count_lit(&seen, h, w, Ghost(gv), Ghost(st))
}

fn count_lit(seen: &Vec<Vec<Vec<bool>>>, h: usize, w: usize, Ghost(gv): Ghost<Seq<Seq<u8>>>, Ghost(st): Ghost<(int, int, nat)>) -> (r: Option<u64>)
    requires
        h == gv.len(),
        w == gv[0].len(),
        grid_ok(gv),
        shaped(seen@, h as int, w as int),
        forall|x: (int, int, nat)| #[trigger] seen_at(seen@, x) ==> reachable(gv, st, x),
        forall|x: (int, int, nat)| #[trigger] reachable(gv, st, x) ==> seen_at(seen@, x),
    ensures
        r is Some ==> r.unwrap() == energized(gv, st, h as nat),
{
    let mut acc: u64 = 0;
    let mut r: usize = 0;
    while r < h
        invariant
            r <= h,
            h == gv.len(),
            w == gv[0].len(),
            grid_ok(gv),
            shaped(seen@, h as int, w as int),
            forall|x: (int, int, nat)| #[trigger] seen_at(seen@, x) ==> reachable(gv, st, x),
            forall|x: (int, int, nat)| #[trigger] reachable(gv, st, x) ==> seen_at(seen@, x),
            acc == energized(gv, st, r as nat),
            acc <= r * 1000,
        decreases h - r,
    {
        let mut n: u64 = 0;
        let mut c: usize = 0;
        while c < w
            invariant
                c <= w,
                r < h,
                h == gv.len(),
                w == gv[0].len(),
                grid_ok(gv),
                shaped(seen@, h as int, w as int),
                forall|x: (int, int, nat)| #[trigger] seen_at(seen@, x) ==> reachable(gv, st, x),
                forall|x: (int, int, nat)| #[trigger] reachable(gv, st, x) ==> seen_at(seen@, x),
                n == lit_in_row(gv, st, r as int, c as nat),
                n <= c,
            decreases w - c,
        {
            assert(seen@[r as int]@[c as int]@.len() == 4);
            let cell = &seen[r][c];
            let any = cell[0] || cell[1] || cell[2] || cell[3];
            proof {
                if any {
                    let d: nat = if cell@[0] { 0 } else if cell@[1] { 1 } else if cell@[2] { 2 } else { 3 };
                    assert(seen_at(seen@, (r as int, c as int, d)));
                    assert(lit(gv, st, r as int, c as int));
                } else {
                    assert forall|d: nat| d < 4 implies !#[trigger] reachable(gv, st, (r as int, c as int, d)) by {
                        if reachable(gv, st, (r as int, c as int, d)) {
                            assert(seen_at(seen@, (r as int, c as int, d)));
                        }
                    }
                }
            }
            if any {
                n += 1;
            }
            c += 1;
        }
        acc = acc + n;
        r += 1;
    }
    Some(acc)
}


/// Reads a grid; `None` unless it is a non-empty rectangle of at most a
/// thousand rows and columns.
pub fn parse_grid(input: &str) -> (r: Option<Vec<Vec<u8>>>)
    ensures
        r is Some <==> grid_ok(content_lines(input.spec_bytes())),
        r is Some ==> rows_view(r.unwrap()@) == content_lines(input.spec_bytes()),
{
    let g = lines_of(input);
    let ghost gv = rows_view(g@);
    if g.len() == 0 || g.len() > 1000 {
        return None;
    }
    assert(gv[0] == g@[0]@);
    let w = g[0].len();
    if w == 0 || w > 1000 {
        return None;
    }
    let mut r: usize = 0;
    while r < g.len()
        invariant
            r <= g@.len(),
            gv == rows_view(g@),
            gv == content_lines(input.spec_bytes()),
            0 < g@.len() <= 1000,
            w == gv[0].len(),
            0 < w <= 1000,
            forall|t: int| 0 <= t < r ==> (#[trigger] gv[t]).len() == w,
        decreases g@.len() - r,
    {
        assert(gv[r as int] == g@[r as int]@);
        if g[r].len() != w {
            assert(gv[r as int].len() != gv[0].len());
            return None;
        }
        r += 1;
    }
    Some(g)
}

/// Tiles energized by the beam entering the top-left tile heading right;
/// `None` when the text is not a grid.
pub fn part1(input: &str) -> (r: Option<u64>)
    ensures
        !grid_ok(content_lines(input.spec_bytes())) ==> r is None,
        r is Some ==> r.unwrap() == energized(
            content_lines(input.spec_bytes()),
            (0, 0, 1),
            content_lines(input.spec_bytes()).len(),
        ),
{
    let g = match parse_grid(input) {
        None => {
            return None;
        },
        Some(g) => g,
    };
    light(&g, Beam { r: 0, c: 0, d: 1 })
}

/// Every beam entering from an edge: down from the top row, up from the
/// bottom row, right from the left column, left from the right column.
pub open spec fn edge_start(h: int, w: int, i: int) -> (int, int, nat) {
    if i < w {
        (0, i, 2)
    } else if i < 2 * w {
        (h - 1, i - w, 0)
    } else if i < 2 * w + h {
        (i - 2 * w, 0, 1)
    } else {
        (i - 2 * w - h, w - 1, 3)
    }
}

/// The most tiles energized by the first `n` edge beams.
pub open spec fn best_edge(g: Seq<Seq<u8>>, n: nat) -> nat
    decreases n,
{
    if n == 0 {
        0
    } else {
        let prev = best_edge(g, (n - 1) as nat);
        let here = energized(g, edge_start(g.len() as int, g[0].len() as int, n - 1), g.len());
        if here > prev {
            here
        } else {
            prev
        }
    }
}

/// The most tiles any beam entering from an edge energizes; `None` when the
/// text is not a grid or a search runs out of its step budget.
pub fn part2(input: &str) -> (r: Option<u64>)
    ensures
        !grid_ok(content_lines(input.spec_bytes())) ==> r is None,
        r is Some ==> ({
            let g = content_lines(input.spec_bytes());
            r.unwrap() == best_edge(g, (2 * g[0].len() + 2 * g.len()) as nat)
        }),
{
    let g = match parse_grid(input) {
        None => {
            return None;
        },
        Some(g) => g,
    };
    let ghost gv = rows_view(g@);
    let h = g.len();
    assert(gv[0] == g@[0]@);
    let w = g[0].len();
    let n = 2 * w + 2 * h;
    let mut best: u64 = 0;
    let mut i: usize = 0;
    while i < n
        invariant
            i <= n,
            n == 2 * w + 2 * h,
            h == gv.len(),
            w == gv[0].len(),
            gv == rows_view(g@),
            gv == content_lines(input.spec_bytes()),
            grid_ok(gv),
            best == best_edge(gv, i as nat),
        decreases n - i,
    {
        let b = if i < w {
            Beam { r: 0, c: i, d: 2 }
        } else if i < 2 * w {
            Beam { r: h - 1, c: i - w, d: 0 }
        } else if i < 2 * w + h {
            Beam { r: i - 2 * w, c: 0, d: 1 }
        } else {
            Beam { r: i - 2 * w - h, c: w - 1, d: 3 }
        };
        assert(state_of(b) == edge_start(h as int, w as int, i as int));
        let here = match light(&g, b) {
            None => {
                return None;
            },
            Some(v) => v,
        };
        if here > best {
            best = here;
        }
        i += 1;
    }
    Some(best)
}

} // verus!
