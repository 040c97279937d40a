//! Bricks of sand falling into a pile: which can be taken away safely, and
//! how many others fall when one is.
use vstd::prelude::*;
use vstd::string::StringSliceAdditionalSpecFns;
use crate::text::{all_digits, content_lines, dec_value, lines_of, parse_u64, rows_view, split_bytes, split_on};

verus! {

/// A brick filling the cubes from (`x1`, `y1`, `z1`) to (`x2`, `y2`, `z2`)
/// inclusive.
#[derive(Clone, Copy, PartialEq, Eq, Structural, Debug)]
pub struct Brick {
    pub x1: u64,
    pub y1: u64,
    pub z1: u64,
    pub x2: u64,
    pub y2: u64,
    pub z2: u64,
}

/// Corners in order, at or above the ground, and not absurdly high.
pub open spec fn brick_ok(b: Brick) -> bool {
    b.x1 <= b.x2 && b.y1 <= b.y2 && 1 <= b.z1 <= b.z2 <= 1000000000
}

pub open spec fn bricks_ok(bs: Seq<Brick>) -> bool {
    forall|i: int| 0 <= i < bs.len() ==> brick_ok(#[trigger] bs[i])
}

/// Seen from above, the two bricks share a cell.
pub open spec fn overlap(a: Brick, b: Brick) -> bool {
    a.x1 <= b.x2 && b.x1 <= a.x2 && a.y1 <= b.y2 && b.y1 <= a.y2
}

/// The highest top, among the first `n` bricks other than `i`, of those
/// under brick `i` (0 when none is).
pub open spec fn top_below(bs: Seq<Brick>, i: int, n: nat) -> nat
    decreases n,
{
    if n == 0 {
        0
    } else {
        let prev = top_below(bs, i, (n - 1) as nat);
        let j = n - 1;
        if j != i && overlap(bs[i], bs[j]) && bs[j].z2 < bs[i].z1 && bs[j].z2 > prev {
            bs[j].z2 as nat
        } else {
            prev
        }
    }
}

/// Brick `i` dropped onto what lies under it.
pub open spec fn dropped(bs: Seq<Brick>, i: int) -> Brick {
    let z = top_below(bs, i, bs.len()) + 1;
    let b = bs[i];
    Brick { z1: z as u64, z2: (b.z2 - (b.z1 - z)) as u64, ..b }
}

/// The bricks after dropping the first `k`, one after the other.
pub open spec fn pass(bs: Seq<Brick>, k: nat) -> Seq<Brick>
    decreases k,
{
    if k == 0 {
        bs
    } else {
        let prev = pass(bs, (k - 1) as nat);
        prev.update(k - 1, dropped(prev, k - 1))
    }
}

/// The pile once a pass moves nothing, within `fuel` passes.
pub open spec fn settled(bs: Seq<Brick>, fuel: nat) -> Option<Seq<Brick>>
    decreases fuel,
{
    let next = pass(bs, bs.len());
    if next == bs {
        Some(bs)
    } else if fuel == 0 {
        None
    } else {
        settled(next, (fuel - 1) as nat)
    }
}

/// Brick `a` holds up brick `b`.
pub open spec fn supports(bs: Seq<Brick>, a: int, b: int) -> bool {
    a != b && overlap(bs[a], bs[b]) && bs[a].z2 + 1 == bs[b].z1
}

/// Every brick that `a` holds up is held up by another brick too.
pub open spec fn removable(bs: Seq<Brick>, a: int) -> bool {
    forall|b: int|
        0 <= b < bs.len() && #[trigger] supports(bs, a, b) ==> exists|c: int|
            0 <= c < bs.len() && c != a && #[trigger] supports(bs, c, b)
}

pub open spec fn count_removable(bs: Seq<Brick>, n: nat) -> nat
    decreases n,
{
    if n == 0 {
        0
    } else {
        count_removable(bs, (n - 1) as nat) + if removable(bs, n - 1) {
            1nat
        } else {
            0nat
        }
    }
}

fn overlap_exec(a: &Brick, b: &Brick) -> (r: bool)
    ensures
        r == overlap(*a, *b),
{
    a.x1 <= b.x2 && b.x1 <= a.x2 && a.y1 <= b.y2 && b.y1 <= a.y2
}

/// Drops brick `i` onto what lies under it.
fn drop_one(bs: &mut Vec<Brick>, i: usize)
    requires
        i < old(bs)@.len(),
        bricks_ok(old(bs)@),
    ensures
        final(bs)@ == old(bs)@.update(i as int, dropped(old(bs)@, i as int)),
        bricks_ok(final(bs)@),
{
    let ghost v = bs@;
    let mut top: u64 = 0;
    let mut j: usize = 0;
    while j < bs.len()
        invariant
            j <= bs@.len(),
            bs@ == v,
            i < v.len(),
            bricks_ok(v),
            top == top_below(v, i as int, j as nat),
            top < v[i as int].z1,
        decreases bs@.len() - j,
    {
        let b = bs[j];
        if j != i && overlap_exec(&bs[i], &b) && b.z2 < bs[i].z1 && b.z2 > top {
            top = b.z2;
        }
        j += 1;
    }
    let b = bs[i];
    let z = top + 1;
    let nb = Brick { z1: z, z2: b.z2 - (b.z1 - z), ..b };
    assert(nb == dropped(v, i as int));
    bs.set(i, nb);
    assert(brick_ok(bs@[i as int]));
    assert forall|t: int| 0 <= t < bs@.len() implies brick_ok(#[trigger] bs@[t]) by {
        if t != i {
            assert(bs@[t] == v[t]);
        }
    }
}

/// Drops every brick once, in order; tells whether any moved.
fn pass_exec(bs: &mut Vec<Brick>) -> (moved: bool)
    requires
        bricks_ok(old(bs)@),
    ensures
        final(bs)@ == pass(old(bs)@, old(bs)@.len()),
        bricks_ok(final(bs)@),
        moved == (final(bs)@ != old(bs)@),
{
    let ghost v = bs@;
    let mut moved = false;
    let mut k: usize = 0;
    while k < bs.len()
        invariant
            k <= bs@.len(),
            bs@.len() == v.len(),
            bricks_ok(bs@),
            bs@ == pass(v, k as nat),
            moved == exists|t: int| 0 <= t < k && bs@[t] != v[t],
            forall|t: int| k <= t < v.len() ==> bs@[t] == v[t],
        decreases bs@.len() - k,
    {
        let before = bs[k];
        let ghost prev = bs@;
        drop_one(bs, k);
        if bs[k] != before {
            moved = true;
        }
        proof {
            if bs@[k as int] != before {
                assert(bs@[k as int] != v[k as int]);
            }
            assert forall|t: int| 0 <= t < k implies bs@[t] == prev[t] by {}
        }
        k += 1;
    }
    proof {
        if !moved {
            assert(bs@ =~= v);
        }
    }
    moved
}

/// Lets every brick fall until the pile is still; `None` when more than
/// `fuel` passes move something.
pub fn settle(bs: &mut Vec<Brick>, fuel: usize) -> (ok: bool)
    requires
        bricks_ok(old(bs)@),
    ensures
        ok ==> settled(old(bs)@, fuel as nat) == Some(final(bs)@),
        !ok ==> settled(old(bs)@, fuel as nat) is None,
        bricks_ok(final(bs)@),
    decreases fuel,
{
    let ghost v = bs@;
    let moved = pass_exec(bs);
    if !moved {
        return true;
    }
    if fuel == 0 {
        return false;
    }
    settle(bs, fuel - 1)
}


fn supports_exec(bs: &Vec<Brick>, a: usize, b: usize) -> (r: bool)
    requires
        a < bs@.len(),
        b < bs@.len(),
        bricks_ok(bs@),
    ensures
        r == supports(bs@, a as int, b as int),
{
    a != b && overlap_exec(&bs[a], &bs[b]) && bs[a].z2 + 1 == bs[b].z1
}

/// For each brick, the bricks holding it up.
fn supporters(bs: &Vec<Brick>) -> (r: Vec<Vec<usize>>)
    requires
        bricks_ok(bs@),
    ensures
        r@.len() == bs@.len(),
        forall|b: int, c: usize|
            0 <= b < bs@.len() ==> (#[trigger] r@[b]@.contains(c) <==> (c < bs@.len() && supports(bs@, c as int, b))),
{
    let n = bs.len();
    let mut out: Vec<Vec<usize>> = Vec::new();
    let mut b: usize = 0;
    while b < n
        invariant
            b <= n == bs@.len(),
            bricks_ok(bs@),
            out@.len() == b,
            forall|t: int, c: usize|
                0 <= t < b ==> (#[trigger] out@[t]@.contains(c) <==> (c < bs@.len() && supports(bs@, c as int, t))),
        decreases n - b,
    {
        let mut list: Vec<usize> = Vec::new();
        let mut c: usize = 0;
        while c < n
            invariant
                c <= n == bs@.len(),
                b < n,
                bricks_ok(bs@),
                forall|x: usize| list@.contains(x) <==> (x < c && supports(bs@, x as int, b as int)),
            decreases n - c,
        {
            let ghost before = list@;
            if supports_exec(bs, c, b) {
                list.push(c);
            }
            proof {
                assert forall|x: usize| list@.contains(x) <==> (x < c + 1 && supports(bs@, x as int, b as int)) by {
                    if list@.contains(x) && x != c {
                        let w = choose|w: int| 0 <= w < list@.len() && list@[w] == x;
                        assert(before[w] == x);
                    }
                    if before.contains(x) {
                        let w = choose|w: int| 0 <= w < before.len() && before[w] == x;
                        assert(list@[w] == x);
                    }
                    if x == c && supports(bs@, x as int, b as int) {
                        assert(list@[before.len() as int] == x);
                    }
                }
            }
            c += 1;
        }
        out.push(list);
        b += 1;
    }
    out
}

/// How many bricks can be taken away without another falling.
pub fn count_removable_exec(bs: &Vec<Brick>) -> (r: u64)
    requires
        bricks_ok(bs@),
    ensures
        r == count_removable(bs@, bs@.len()),
{
    let n = bs.len();
    let sup = supporters(bs);
    let mut count: u64 = 0;
    let mut a: usize = 0;
    while a < n
        invariant
            a <= n == bs@.len(),
            bricks_ok(bs@),
            sup@.len() == n,
            forall|b: int, c: usize|
                0 <= b < bs@.len() ==> (#[trigger] sup@[b]@.contains(c) <==> (c < bs@.len() && supports(bs@, c as int, b))),
            count == count_removable(bs@, a as nat),
            count <= a,
        decreases n - a,
    {
        let mut ok = true;
        let mut b: usize = 0;
        while b < n
            invariant
                b <= n == bs@.len(),
                a < n,
                bricks_ok(bs@),
                sup@.len() == n,
                forall|bb: int, c: usize|
                    0 <= bb < bs@.len() ==> (#[trigger] sup@[bb]@.contains(c) <==> (c < bs@.len() && supports(bs@, c as int, bb))),
                ok == forall|t: int|
                    0 <= t < b && #[trigger] supports(bs@, a as int, t) ==> exists|c: int|
                        0 <= c < bs@.len() && c != a && #[trigger] supports(bs@, c, t),
            decreases n - b,
        {
            if supports_exec(bs, a, b) {
                let list = &sup[b];
                let mut other = false;
                let mut k: usize = 0;
                while k < list.len()
                    invariant
                        k <= list@.len(),
                        b < n == bs@.len(),
                        a < n,
                        list@ == sup@[b as int]@,
                        forall|c: usize| list@.contains(c) <==> (c < bs@.len() && supports(bs@, c as int, b as int)),
                        other == exists|j: int| 0 <= j < k && list@[j] != a,
                    decreases list@.len() - k,
                {
                    if list[k] != a {
                        other = true;
                    }
                    k += 1;
                }
                proof {
                    if other {
                        let j = choose|j: int| 0 <= j < k && list@[j] != a;
                        assert(list@.contains(list@[j]));
                        assert(supports(bs@, list@[j] as int, b as int));
                    } else {
                        assert forall|c: int| 0 <= c < bs@.len() && c != a implies !#[trigger] supports(bs@, c, b as int) by {
                            if supports(bs@, c, b as int) {
                                assert(list@.contains(c as usize));
                                let j = choose|j: int| 0 <= j < list@.len() && list@[j] == c as usize;
                            }
                        }
                    }
                }
                if !other {
                    ok = false;
                }
            }
            b += 1;
        }
        if ok {
            count += 1;
        }
        a += 1;
    }
    count
}

/// Brick `b` falls once the bricks flagged in `f` are gone: it is off the
/// ground and every brick holding it up, at least one, is flagged.
pub open spec fn falls_with(bs: Seq<Brick>, f: Seq<bool>, b: int) -> bool {
    &&& bs[b].z1 > 1
    &&& exists|c: int| 0 <= c < bs.len() && f[c] && #[trigger] supports(bs, c, b)
    &&& forall|c: int| 0 <= c < bs.len() && #[trigger] supports(bs, c, b) ==> f[c]
}

pub open spec fn fall_step(bs: Seq<Brick>, f: Seq<bool>) -> Seq<bool> {
    Seq::new(bs.len(), |b: int| f[b] || falls_with(bs, f, b))
}

/// Bricks gone after `k` rounds of falling once brick `a` is taken away.
pub open spec fn gone(bs: Seq<Brick>, a: int, k: nat) -> Seq<bool>
    decreases k,
{
    if k == 0 {
        Seq::new(bs.len(), |b: int| b == a)
    } else {
        fall_step(bs, gone(bs, a, (k - 1) as nat))
    }
}

pub open spec fn count_true(f: Seq<bool>, n: nat) -> nat
    decreases n,
{
    if n == 0 {
        0
    } else {
        count_true(f, (n - 1) as nat) + if f[n - 1] {
            1nat
        } else {
            0nat
        }
    }
}

/// Other bricks that fall when brick `a` is taken away.
pub open spec fn chain(bs: Seq<Brick>, a: int) -> int {
    count_true(gone(bs, a, bs.len()), bs.len()) - 1
}

pub open spec fn chain_sum(bs: Seq<Brick>, n: nat) -> int
    decreases n,
{
    if n == 0 {
        0
    } else {
        chain_sum(bs, (n - 1) as nat) + chain(bs, n - 1)
    }
}

proof fn lemma_gone_stays(bs: Seq<Brick>, a: int, k: nat, m: nat)
    requires
        k <= m,
        gone(bs, a, k + 1) == gone(bs, a, k),
    ensures
        gone(bs, a, m) == gone(bs, a, k),
    decreases m - k,
{
    if k < m {
        lemma_gone_stays(bs, a, k, (m - 1) as nat);
    }
}

/// One round of falling.
fn fall_round(bs: &Vec<Brick>, sup: &Vec<Vec<usize>>, f: &Vec<bool>) -> (r: Vec<bool>)
    requires
        bricks_ok(bs@),
        f@.len() == bs@.len(),
        sup@.len() == bs@.len(),
        forall|b: int, c: usize|
            0 <= b < bs@.len() ==> (#[trigger] sup@[b]@.contains(c) <==> (c < bs@.len() && supports(bs@, c as int, b))),
    ensures
        r@ == fall_step(bs@, f@),
{
    let n = bs.len();
    let mut out: Vec<bool> = Vec::new();
    let mut b: usize = 0;
    while b < n
        invariant
            b <= n == bs@.len(),
            f@.len() == n,
            sup@.len() == n,
            forall|bb: int, c: usize|
                0 <= bb < bs@.len() ==> (#[trigger] sup@[bb]@.contains(c) <==> (c < bs@.len() && supports(bs@, c as int, bb))),
            out@.len() == b,
            forall|t: int| 0 <= t < b ==> #[trigger] out@[t] == fall_step(bs@, f@)[t],
        decreases n - b,
    {
        let list = &sup[b];
        let mut any = false;
        let mut all = true;
        let mut k: usize = 0;
        while k < list.len()
            invariant
                k <= list@.len(),
                b < n == bs@.len(),
                f@.len() == n,
                list@ == sup@[b as int]@,
                forall|c: usize| list@.contains(c) <==> (c < bs@.len() && supports(bs@, c as int, b as int)),
                any == exists|j: int| 0 <= j < k && f@[list@[j] as int],
                all == forall|j: int| 0 <= j < k ==> f@[#[trigger] list@[j] as int],
            decreases list@.len() - k,
        {
            let c = list[k];
            assert(list@.contains(c));
            if f[c] {
                any = true;
            } else {
                all = false;
            }
            k += 1;
        }
        let v = f[b] || (bs[b].z1 > 1 && any && all);
        proof {
            assert(any == exists|c: int| 0 <= c < bs@.len() && f@[c] && #[trigger] supports(bs@, c, b as int)) by {
                if any {
                    let j = choose|j: int| 0 <= j < k && f@[list@[j] as int];
                    assert(list@.contains(list@[j]));
                    assert(supports(bs@, list@[j] as int, b as int));
                }
                if exists|c: int| 0 <= c < bs@.len() && f@[c] && #[trigger] supports(bs@, c, b as int) {
                    let c = choose|c: int| 0 <= c < bs@.len() && f@[c] && #[trigger] supports(bs@, c, b as int);
                    assert(list@.contains(c as usize));
                    let j = choose|j: int| 0 <= j < list@.len() && list@[j] == c as usize;
                }
            }
            assert(all == forall|c: int| 0 <= c < bs@.len() && #[trigger] supports(bs@, c, b as int) ==> f@[c]) by {
                if all {
                    assert forall|c: int| 0 <= c < bs@.len() && #[trigger] supports(bs@, c, b as int) implies f@[c] by {
                        assert(list@.contains(c as usize));
                        let j = choose|j: int| 0 <= j < list@.len() && list@[j] == c as usize;
                    }
                } else {
                    let j = choose|j: int| 0 <= j < k && !f@[#[trigger] list@[j] as int];
                    assert(list@.contains(list@[j]));
                    assert(supports(bs@, list@[j] as int, b as int));
                }
            }
        }
        out.push(v);
        b += 1;
    }
    assert(out@ =~= fall_step(bs@, f@));
    out
}

fn count_flags(f: &Vec<bool>) -> (r: u64)
    ensures
        r == count_true(f@, f@.len()),
        r <= f@.len(),
{
    let mut n: u64 = 0;
    let mut i: usize = 0;
    while i < f.len()
        invariant
            i <= f@.len(),
            n == count_true(f@, i as nat),
            n <= i,
        decreases f@.len() - i,
    {
        if f[i] {
            n += 1;
        }
        i += 1;
    }
    n
}

/// Sum over the bricks of how many others fall when it is taken away.
proof fn lemma_chain_sum_grows(bs: Seq<Brick>, i: nat, n: nat)
    requires
        i <= n <= bs.len(),
    ensures
        chain_sum(bs, i) <= chain_sum(bs, n),
    decreases n - i,
{
    if i < n {
        lemma_chain_sum_grows(bs, i, (n - 1) as nat);
        lemma_gone_keeps(bs, n - 1, bs.len());
        lemma_count_true_positive(gone(bs, n - 1, bs.len()), bs.len(), (n - 1) as nat);
    }
}

pub fn chain_total(bs: &Vec<Brick>) -> (r: Option<u64>)
    requires
        bricks_ok(bs@),
    ensures
        r is Some ==> r.unwrap() == chain_sum(bs@, bs@.len()),
        r is None ==> chain_sum(bs@, bs@.len()) > u64::MAX,
{
    let n = bs.len();
    let sup = supporters(bs);
    let mut total: u64 = 0;
    let mut a: usize = 0;
    while a < n
        invariant
            a <= n == bs@.len(),
            bricks_ok(bs@),
            sup@.len() == n,
            forall|b: int, c: usize|
                0 <= b < bs@.len() ==> (#[trigger] sup@[b]@.contains(c) <==> (c < bs@.len() && supports(bs@, c as int, b))),
            total == chain_sum(bs@, a as nat),
        decreases n - a,
    {
        let mut f: Vec<bool> = Vec::new();
        let mut t: usize = 0;
        while t < n
            invariant
                t <= n,
                f@.len() == t,
                forall|u: int| 0 <= u < t ==> #[trigger] f@[u] == (u == a),
            decreases n - t,
        {
            f.push(t == a);
            t += 1;
        }
        assert(f@ =~= gone(bs@, a as int, 0));
        let mut k: usize = 0;
        let mut still = false;
        while k < n && !still
            invariant
                k <= n == bs@.len(),
                bricks_ok(bs@),
                sup@.len() == n,
                forall|b: int, c: usize|
                    0 <= b < bs@.len() ==> (#[trigger] sup@[b]@.contains(c) <==> (c < bs@.len() && supports(bs@, c as int, b))),
                f@ == gone(bs@, a as int, k as nat),
                still ==> gone(bs@, a as int, (k + 1) as nat) == gone(bs@, a as int, k as nat),
            decreases n - k + if still { 0int } else { 1int },
        {
            let next = fall_round(bs, &sup, &f);
            let mut same = true;
            let mut i: usize = 0;
            while i < n
                invariant
                    i <= n,
                    next@.len() == n,
                    f@.len() == n,
                    same == forall|j: int| 0 <= j < i ==> next@[j] == f@[j],
                decreases n - i,
            {
                if next[i] != f[i] {
                    same = false;
                }
                i += 1;
            }
            if same {
                assert(next@ =~= f@);
                still = true;
            } else {
                f = next;
                k += 1;
            }
        }
        proof {
            if still {
                lemma_gone_stays(bs@, a as int, k as nat, n as nat);
            }
        }
        let c = count_flags(&f);
        assert(f@[a as int]) by {
            lemma_gone_keeps(bs@, a as int, k as nat);
        }
        proof {
            lemma_count_true_positive(f@, f@.len(), a as nat);
        }
        let fallen = c - 1;
        if total > u64::MAX - fallen {
            proof {
                lemma_chain_sum_grows(bs@, (a + 1) as nat, n as nat);
            }
            return None;
        }
        total = total + fallen;
        a += 1;
    }
    Some(total)
}

proof fn lemma_gone_keeps(bs: Seq<Brick>, a: int, k: nat)
    requires
        0 <= a < bs.len(),
    ensures
        gone(bs, a, k).len() == bs.len(),
        gone(bs, a, k)[a],
    decreases k,
{
    if k > 0 {
        lemma_gone_keeps(bs, a, (k - 1) as nat);
    }
}

proof fn lemma_count_true_positive(f: Seq<bool>, n: nat, a: nat)
    requires
        a < n <= f.len(),
        f[a as int],
    ensures
        count_true(f, n) >= 1,
    decreases n,
{
    if a < n - 1 {
        lemma_count_true_positive(f, (n - 1) as nat, a);
    }
}


/// `x,y,z~x,y,z`: a brick's two corners.
pub open spec fn corner_ok(p: Seq<u8>) -> bool {
    let n = split_on(p, 44);
    n.len() == 3 && forall|k: int| 0 <= k < 3 ==> (#[trigger] n[k]).len() > 0 && all_digits(n[k]) && dec_value(n[k])
        <= 1000000000
}

pub open spec fn corner(p: Seq<u8>, k: int) -> u64 {
    dec_value(split_on(p, 44)[k]) as u64
}

pub open spec fn brick_of(l: Seq<u8>) -> Brick {
    let h = split_on(l, 126);
    Brick {
        x1: corner(h[0], 0),
        y1: corner(h[0], 1),
        z1: corner(h[0], 2),
        x2: corner(h[1], 0),
        y2: corner(h[1], 1),
        z2: corner(h[1], 2),
    }
}

pub open spec fn brick_line_ok(l: Seq<u8>) -> bool {
    let h = split_on(l, 126);
    h.len() == 2 && corner_ok(h[0]) && corner_ok(h[1]) && brick_ok(brick_of(l))
}

fn parse_corner(p: &Vec<u8>) -> (r: Option<(u64, u64, u64)>)
    ensures
        r is Some <==> corner_ok(p@),
        r is Some ==> r.unwrap() == (corner(p@, 0), corner(p@, 1), corner(p@, 2)),
{
    let n = split_bytes(p.as_slice(), 44);
    if n.len() != 3 {
        return None;
    }
    let mut v: Vec<u64> = Vec::new();
    let mut k: usize = 0;
    while k < 3
        invariant
            k <= 3,
            n@.len() == 3,
            rows_view(n@) == split_on(p@, 44),
            v@.len() == k,
            forall|t: int| 0 <= t < k ==> (#[trigger] split_on(p@, 44)[t]).len() > 0 && all_digits(split_on(p@, 44)[t])
                && dec_value(split_on(p@, 44)[t]) <= 1000000000,
            forall|t: int| 0 <= t < k ==> #[trigger] v@[t] == corner(p@, t),
        decreases 3 - k,
    {
        assert(n@[k as int]@ == split_on(p@, 44)[k as int]);
        match parse_u64(n[k].as_slice()) {
            None => {
                return None;
            },
            Some(x) => {
                if x > 1000000000 {
                    return None;
                }
                v.push(x);
            },
        }
        k += 1;
    }
    Some((v[0], v[1], v[2]))
}

/// Reads the bricks of `input`; `None` when a line is not a brick.
pub fn parse_bricks(input: &str) -> (r: Option<Vec<Brick>>)
    ensures
        r is Some <==> forall|i: int|
            0 <= i < content_lines(input.spec_bytes()).len() ==> brick_line_ok(#[trigger] content_lines(input.spec_bytes())[i]),
        r is Some ==> r.unwrap()@ == Seq::new(
            content_lines(input.spec_bytes()).len(),
            |i: int| brick_of(content_lines(input.spec_bytes())[i]),
        ),
{
    let lines = lines_of(input);
    let ghost ls = content_lines(input.spec_bytes());
    let mut out: Vec<Brick> = Vec::new();
    let mut i: usize = 0;
    while i < lines.len()
        invariant
            i <= lines@.len(),
            rows_view(lines@) == ls,
            ls == content_lines(input.spec_bytes()),
            out@.len() == i,
            forall|j: int| 0 <= j < i ==> brick_line_ok(#[trigger] ls[j]),
            forall|j: int| 0 <= j < i ==> #[trigger] out@[j] == brick_of(ls[j]),
        decreases lines@.len() - i,
    {
        assert(lines@[i as int]@ == ls[i as int]);
        let halves = split_bytes(lines[i].as_slice(), 126);
        if halves.len() != 2 {
            return None;
        }
        assert(halves@[0]@ == split_on(ls[i as int], 126)[0] && halves@[1]@ == split_on(ls[i as int], 126)[1]);
        let a = match parse_corner(&halves[0]) {
            None => {
                return None;
            },
            Some(a) => a,
        };
        let b = match parse_corner(&halves[1]) {
            None => {
                return None;
            },
            Some(b) => b,
        };
        let brick = Brick { x1: a.0, y1: a.1, z1: a.2, x2: b.0, y2: b.1, z2: b.2 };
        assert(brick == brick_of(ls[i as int]));
        if !(brick.x1 <= brick.x2 && brick.y1 <= brick.y2 && 1 <= brick.z1 && brick.z1 <= brick.z2) {
            return None;
        }
        out.push(brick);
        i += 1;
    }
    assert(out@ =~= Seq::new(ls.len(), |i: int| brick_of(ls[i])));
    Some(out)
}

/// Most passes of falling before the pile is given up as unsettled.
pub const MAX_PASSES: usize = 100000;

/// The pile of `input` once settled; `None` when the text is not bricks or
/// the pile is still moving after `MAX_PASSES` passes.
/// The bricks that the lines of `text` describe.
pub open spec fn bricks_of(text: Seq<u8>) -> Seq<Brick> {
    Seq::new(content_lines(text).len(), |i: int| brick_of(content_lines(text)[i]))
}

/// Every line of `text` describes a brick.
pub open spec fn bricks_text_ok(text: Seq<u8>) -> bool {
    forall|i: int| 0 <= i < content_lines(text).len() ==> brick_line_ok(#[trigger] content_lines(text)[i])
}

pub fn settled_pile(input: &str) -> (r: Option<Vec<Brick>>)
    ensures
        r is None ==> !bricks_text_ok(input.spec_bytes()) || settled(bricks_of(input.spec_bytes()), MAX_PASSES as nat) is None,
        r is Some ==> bricks_ok(r.unwrap()@) && settled(
            Seq::new(
                content_lines(input.spec_bytes()).len(),
                |i: int| brick_of(content_lines(input.spec_bytes())[i]),
            ),
            MAX_PASSES as nat,
        ) == Some(r.unwrap()@),
{
    let mut bs = match parse_bricks(input) {
        None => {
            return None;
        },
        Some(b) => b,
    };
    assert(bricks_ok(bs@)) by {
        let ls = content_lines(input.spec_bytes());
        assert forall|i: int| 0 <= i < bs@.len() implies brick_ok(#[trigger] bs@[i]) by {
            assert(brick_line_ok(ls[i]));
        }
    }
    if settle(&mut bs, MAX_PASSES) {
        Some(bs)
    } else {
        None
    }
}

/// Bricks of the settled pile that can be taken away alone without any
/// other falling.
pub fn part1(input: &str) -> (r: Option<u64>)
    ensures
        r is Some ==> exists|pile: Seq<Brick>|
            settled(
                Seq::new(
                    content_lines(input.spec_bytes()).len(),
                    |i: int| brick_of(content_lines(input.spec_bytes())[i]),
                ),
                MAX_PASSES as nat,
            ) == Some(pile) && r.unwrap() == #[trigger] count_removable(pile, pile.len()),
        r is None ==> !bricks_text_ok(input.spec_bytes()) || settled(bricks_of(input.spec_bytes()), MAX_PASSES as nat) is None,
{
    let pile = match settled_pile(input) {
        None => {
            return None;
        },
        Some(p) => p,
    };
    Some(count_removable_exec(&pile))
}

/// Sum over the bricks of the settled pile of how many others fall when it
/// is taken away.
pub fn part2(input: &str) -> (r: Option<u64>)
    ensures
        r is Some ==> exists|pile: Seq<Brick>|
            settled(
                Seq::new(
                    content_lines(input.spec_bytes()).len(),
                    |i: int| brick_of(content_lines(input.spec_bytes())[i]),
                ),
                MAX_PASSES as nat,
            ) == Some(pile) && r.unwrap() == #[trigger] chain_sum(pile, pile.len()),
        r is None ==> !bricks_text_ok(input.spec_bytes()) || match settled(bricks_of(input.spec_bytes()), MAX_PASSES as nat) {
            None => true,
            Some(pile) => chain_sum(pile, pile.len()) > u64::MAX,
        },
{
    let pile = match settled_pile(input) {
        None => {
            return None;
        },
        Some(p) => p,
    };
    chain_total(&pile)
}

} // verus!
