//! Rows of hot springs, some damaged, some unknown: how many ways the
//! unknowns can be filled in to match the damaged groups listed.
use vstd::prelude::*;
use vstd::string::StringSliceAdditionalSpecFns;
use crate::text::{all_digits, content_lines, dec_value, lines_of, parse_u64, rows_view, split_bytes, split_on, split_words, words};

verus! {

pub open spec fn operational() -> u8 {
    46
}

pub open spec fn damaged() -> u8 {
    35
}

pub open spec fn unknown() -> u8 {
    63
}

/// `n` springs from `i` on lie in the row and may all be damaged.
pub open spec fn fits(s: Seq<u8>, i: int, n: int) -> bool {
    &&& 0 <= i
    &&& i + n <= s.len()
    &&& forall|k: int| i <= k < i + n ==> #[trigger] s[k] != operational()
}

/// Where the search goes on after a group of `n` placed at `i`: past the
/// spring that must end the group.
pub open spec fn after_group(s: Seq<u8>, i: int, n: int) -> int {
    if i + n >= s.len() {
        s.len() as int
    } else {
        i + n + 1
    }
}

/// A group of `n` damaged springs may start at `i`.
pub open spec fn can_place(s: Seq<u8>, i: int, n: int) -> bool {
    &&& n > 0
    &&& fits(s, i, n)
    &&& (i + n == s.len() || s[i + n] != damaged())
}

/// Ways to fill in the springs from `i` on so that the damaged groups are
/// exactly groups `j` onwards.
pub open spec fn ways(s: Seq<u8>, g: Seq<nat>, i: int, j: int) -> nat
    decreases s.len() - i,
{
    if i < 0 || i >= s.len() {
        if j == g.len() {
            1
        } else {
            0
        }
    } else {
        let skip = if s[i] != damaged() {
            ways(s, g, i + 1, j)
        } else {
            0
        };
        let take = if s[i] != operational() && 0 <= j < g.len() && can_place(s, i, g[j] as int) {
            ways(s, g, after_group(s, i, g[j] as int), j + 1)
        } else {
            0
        };
        skip + take
    }
}

/// `s` repeated `k` times, joined by unknown springs.
pub open spec fn unfold_springs(s: Seq<u8>, k: nat) -> Seq<u8>
    decreases k,
{
    if k <= 1 {
        s
    } else {
        unfold_springs(s, (k - 1) as nat) + seq![unknown()] + s
    }
}

/// `g` repeated `k` times.
pub open spec fn unfold_groups(g: Seq<nat>, k: nat) -> Seq<nat>
    decreases k,
{
    if k <= 1 {
        g
    } else {
        unfold_groups(g, (k - 1) as nat) + g
    }
}

pub open spec fn nats(v: Seq<u64>) -> Seq<nat> {
    Seq::new(v.len(), |i: int| v[i] as nat)
}

fn can_place_exec(s: &Vec<u8>, i: usize, n: u64) -> (r: bool)
    requires
        i <= s@.len(),
    ensures
        r == can_place(s@, i as int, n as int),
{
    if n == 0 || n > (s.len() - i) as u64 {
        return false;
    }
    let m = n as usize;
    assert(m as int == n as int);
    assert(m as int <= s@.len() - i);
    let end = i + m;
    let mut k: usize = i;
    while k < end
        invariant
            i <= k <= end,
            end == i + m,
            m as int == n as int,
            end <= s@.len(),
            forall|t: int| i <= t < k ==> #[trigger] s@[t] != operational(),
        decreases end - k,
    {
        if s[k] == 46 {
            assert(s@[k as int] == operational());
            assert(!fits(s@, i as int, n as int));
            return false;
        }
        k += 1;
    }
    end == s.len() || s[end] != 35
}

/// Counts the arrangements of a row; `None` when a count exceeds
/// `u64::MAX`.
pub fn count_arrangements(s: &Vec<u8>, g: &Vec<u64>) -> (r: Option<u64>)
    ensures
        r is Some ==> r.unwrap() == ways(s@, nats(g@), 0, 0),
        r is None ==> s@.len() == usize::MAX || g@.len() == usize::MAX || exists|i: int, j: int|
            0 <= i <= s@.len() && 0 <= j <= g@.len() && #[trigger] ways(s@, nats(g@), i, j) > u64::MAX,
{
    let len = s.len();
    let gl = g.len();
    if len == usize::MAX || gl == usize::MAX {
        return None;
    }
    let ghost gs = nats(g@);
    let mut table: Vec<Vec<u64>> = Vec::new();
    let mut i: usize = 0;
    while i <= len
        invariant
            i <= len + 1,
            len == s@.len(),
            len < usize::MAX,
            gl < usize::MAX,
            gl == g@.len(),
            table@.len() == i,
            forall|t: int| 0 <= t < i ==> (#[trigger] table@[t])@.len() == gl + 1,
        decreases len + 1 - i,
    {
        let mut row: Vec<u64> = Vec::new();
        let mut j: usize = 0;
        while j <= gl
            invariant
                j <= gl + 1,
                gl < usize::MAX,
                row@.len() == j,
            decreases gl + 1 - j,
        {
            row.push(0);
            j += 1;
        }
        table.push(row);
        i += 1;
    }
    let mut j: usize = 0;
    while j <= gl
        invariant
            j <= gl + 1,
            len == s@.len(),
            gl == g@.len(),
            gl < usize::MAX,
            gs == nats(g@),
            table@.len() == len + 1,
            forall|t: int| 0 <= t <= len ==> (#[trigger] table@[t])@.len() == gl + 1,
            forall|u: int| 0 <= u < j ==> table@[len as int]@[u] == ways(s@, gs, len as int, u),
        decreases gl + 1 - j,
    {
        let v: u64 = if j == gl {
            1
        } else {
            0
        };
        table[len].set(j, v);
        proof {
            assert forall|t: int| 0 <= t <= len implies (#[trigger] table@[t])@.len() == gl + 1 by {}
        }
        j += 1;
    }
    let mut i: usize = len;
    while i > 0
        invariant
            i <= len,
            len == s@.len(),
            gl == g@.len(),
            gl < usize::MAX,
            gs == nats(g@),
            table@.len() == len + 1,
            forall|t: int| 0 <= t <= len ==> (#[trigger] table@[t])@.len() == gl + 1,
            forall|t: int, u: int| i <= t <= len && 0 <= u <= gl ==> #[trigger] table@[t]@[u] == ways(s@, gs, t, u),
        decreases i,
    {
        let row_i = i - 1;
        let mut j: usize = 0;
        while j <= gl
            invariant
                j <= gl + 1,
                gl < usize::MAX,
                row_i + 1 == i,
                i <= len,
                len == s@.len(),
                gl == g@.len(),
                gs == nats(g@),
                table@.len() == len + 1,
                forall|t: int| 0 <= t <= len ==> (#[trigger] table@[t])@.len() == gl + 1,
                forall|t: int, u: int| i <= t <= len && 0 <= u <= gl ==> #[trigger] table@[t]@[u] == ways(s@, gs, t, u),
                forall|u: int| 0 <= u < j ==> #[trigger] table@[row_i as int]@[u] == ways(s@, gs, row_i as int, u),
            decreases gl + 1 - j,
        {
            let c = s[row_i];
            let skip: u64 = if c != 35 {
                table[i][j]
            } else {
                0
            };
            let mut take: u64 = 0;
            if c != 46 && j < gl {
                assert(gs[j as int] == g@[j as int] as nat);
                if can_place_exec(s, row_i, g[j]) {
                    let n = g[j] as usize;
                    let next = if row_i + n >= len {
                        len
                    } else {
                        row_i + n + 1
                    };
                    take = table[next][j + 1];
                }
            }
            if skip > u64::MAX - take {
                assert(ways(s@, gs, row_i as int, j as int) == skip + take);
                return None;
            }
            let ghost before = table@;
            table[row_i].set(j, skip + take);
            proof {
                assert forall|t: int| 0 <= t <= len implies (#[trigger] table@[t])@.len() == gl + 1 by {
                    if t != row_i {
                        assert(table@[t] == before[t]);
                    }
                }
                assert forall|t: int, u: int| i <= t <= len && 0 <= u <= gl implies #[trigger] table@[t]@[u] == ways(s@, gs, t, u) by {
                    assert(table@[t] == before[t]);
                }
                assert forall|u: int| 0 <= u < j + 1 implies #[trigger] table@[row_i as int]@[u] == ways(s@, gs, row_i as int, u) by {
                    if u < j {
                        assert(table@[row_i as int]@[u] == before[row_i as int]@[u]);
                    }
                }
            }
            j += 1;
        }
        i -= 1;
    }
    Some(table[0][0])
}

/// `<springs> <n>,<n>,...`: springs of `.`, `#` and `?`, groups of at least
/// one.
pub open spec fn line_ok(l: Seq<u8>) -> bool {
    let w = words(l);
    let nums = split_on(w[1], 44);
    &&& w.len() == 2
    &&& forall|k: int| 0 <= k < w[0].len() ==> (#[trigger] w[0][k] == operational() || w[0][k] == damaged()
        || w[0][k] == unknown())
    &&& forall|k: int|
        0 <= k < nums.len() ==> (#[trigger] nums[k]).len() > 0 && all_digits(nums[k]) && 0 < dec_value(nums[k])
            <= u64::MAX
}

pub open spec fn line_springs(l: Seq<u8>) -> Seq<u8> {
    words(l)[0]
}

pub open spec fn line_groups(l: Seq<u8>) -> Seq<nat> {
    let nums = split_on(words(l)[1], 44);
    Seq::new(nums.len(), |k: int| dec_value(nums[k]))
}

/// Reads a row.
pub fn parse_row(l: &[u8]) -> (r: Option<(Vec<u8>, Vec<u64>)>)
    ensures
        r is Some <==> line_ok(l@),
        r is Some ==> r.unwrap().0@ == line_springs(l@) && nats(r.unwrap().1@) == line_groups(l@),
{
    let w = split_words(l);
    let ghost wv = words(l@);
    if w.len() != 2 {
        return None;
    }
    assert(w@[0]@ == wv[0] && w@[1]@ == wv[1]);
    let springs = &w[0];
    let mut k: usize = 0;
    while k < springs.len()
        invariant
            k <= springs@.len(),
            wv == words(l@),
            wv.len() == 2,
            springs@ == wv[0],
            forall|t: int| 0 <= t < k ==> (#[trigger] wv[0][t] == operational() || wv[0][t] == damaged() || wv[0][t]
                == unknown()),
        decreases springs@.len() - k,
    {
        let c = springs[k];
        if c != 46 && c != 35 && c != 63 {
            assert(!(wv[0][k as int] == operational() || wv[0][k as int] == damaged() || wv[0][k as int] == unknown()));
            return None;
        }
        k += 1;
    }
    let nums = split_bytes(w[1].as_slice(), 44);
    let ghost nv = split_on(wv[1], 44);
    let mut groups: Vec<u64> = Vec::new();
    let mut k: usize = 0;
    while k < nums.len()
        invariant
            k <= nums@.len(),
            wv == words(l@),
            wv.len() == 2,
            forall|t: int| 0 <= t < wv[0].len() ==> (#[trigger] wv[0][t] == operational() || wv[0][t] == damaged()
                || wv[0][t] == unknown()),
            rows_view(nums@) == nv,
            nv == split_on(wv[1], 44),
            groups@.len() == k,
            forall|t: int|
                0 <= t < k ==> (#[trigger] nv[t]).len() > 0 && all_digits(nv[t]) && 0 < dec_value(nv[t]) <= u64::MAX,
            forall|t: int| 0 <= t < k ==> #[trigger] groups@[t] as nat == dec_value(nv[t]),
        decreases nums@.len() - k,
    {
        assert(nums@[k as int]@ == nv[k as int]);
        match parse_u64(nums[k].as_slice()) {
            None => {
                return None;
            },
            Some(v) => {
                if v == 0 {
                    return None;
                }
                groups.push(v);
            },
        }
        k += 1;
    }
    assert(nats(groups@) =~= line_groups(l@));
    Some((crate::circuit::copy_bytes(springs.as_slice()), groups))
}

/// The row repeated `k` times: springs joined by unknowns, groups one after
/// the other.
pub fn unfold(springs: &Vec<u8>, groups: &Vec<u64>, k: usize) -> (r: (Vec<u8>, Vec<u64>))
    requires
        k >= 1,
    ensures
        r.0@ == unfold_springs(springs@, k as nat),
        nats(r.1@) == unfold_groups(nats(groups@), k as nat),
{
    let mut s = crate::circuit::copy_bytes(springs.as_slice());
    let mut g: Vec<u64> = Vec::new();
    let mut t: usize = 0;
    while t < groups.len()
        invariant
            t <= groups@.len(),
            g@ == groups@.take(t as int),
        decreases groups@.len() - t,
    {
        g.push(groups[t]);
        t += 1;
        assert(g@ == groups@.take(t as int));
    }
    assert(groups@.take(groups@.len() as int) == groups@);
    assert(nats(g@) == unfold_groups(nats(groups@), 1));
    let mut n: usize = 1;
    while n < k
        invariant
            1 <= n <= k,
            s@ == unfold_springs(springs@, n as nat),
            nats(g@) == unfold_groups(nats(groups@), n as nat),
        decreases k - n,
    {
        let ghost s0 = s@;
        let ghost g0 = g@;
        s.push(63);
        let mut i: usize = 0;
        while i < springs.len()
            invariant
                i <= springs@.len(),
                s@ == s0.push(63) + springs@.take(i as int),
            decreases springs@.len() - i,
        {
            s.push(springs[i]);
            i += 1;
            assert(s@ == s0.push(63) + springs@.take(i as int));
        }
        assert(springs@.take(springs@.len() as int) == springs@);
        assert(s0.push(63) == s0 + seq![unknown()]);
        let mut i: usize = 0;
        while i < groups.len()
            invariant
                i <= groups@.len(),
                g@ == g0 + groups@.take(i as int),
            decreases groups@.len() - i,
        {
            g.push(groups[i]);
            i += 1;
            assert(g@ == g0 + groups@.take(i as int));
        }
        assert(g@ == g0 + groups@);
        assert(nats(g@) =~= nats(g0) + nats(groups@));
        n += 1;
    }
    (s, g)
}

pub open spec fn sum_ways(ls: Seq<Seq<u8>>, k: nat, n: nat) -> nat
    decreases n,
{
    if n == 0 {
        0
    } else {
        sum_ways(ls, k, (n - 1) as nat) + ways(
            unfold_springs(line_springs(ls[n - 1]), k),
            unfold_groups(line_groups(ls[n - 1]), k),
            0,
            0,
        )
    }
}

/// Counting the arrangements of line `l`, repeated `k` times, overflows:
/// some count on the way exceeds `u64::MAX`.
pub open spec fn count_fails(l: Seq<u8>, k: nat) -> bool {
    let s = unfold_springs(line_springs(l), k);
    let g = unfold_groups(line_groups(l), k);
    s.len() == usize::MAX || g.len() == usize::MAX || exists|i: int, j: int|
        0 <= i <= s.len() && 0 <= j <= g.len() && #[trigger] ways(s, g, i, j) > u64::MAX
}

proof fn lemma_sum_ways_grows(ls: Seq<Seq<u8>>, k: nat, i: nat, n: nat)
    requires
        i <= n,
    ensures
        sum_ways(ls, k, i) <= sum_ways(ls, k, n),
    decreases n - i,
{
    if i < n {
        lemma_sum_ways_grows(ls, k, i, (n - 1) as nat);
    }
}

/// Sum over the rows, each repeated `k` times, of their arrangements;
/// `None` when a row is malformed or a count exceeds `u64::MAX`.
pub fn total_arrangements(input: &str, k: usize) -> (r: Option<u64>)
    requires
        k >= 1,
    ensures
        (forall|i: int|
            0 <= i < content_lines(input.spec_bytes()).len() ==> line_ok(
                #[trigger] content_lines(input.spec_bytes())[i],
            )) || r is None,
        r is Some ==> r.unwrap() == sum_ways(
            content_lines(input.spec_bytes()),
            k as nat,
            content_lines(input.spec_bytes()).len(),
        ),
        r is None ==> (exists|i: int|
            0 <= i < content_lines(input.spec_bytes()).len() && (!line_ok(#[trigger] content_lines(input.spec_bytes())[i])
                || count_fails(content_lines(input.spec_bytes())[i], k as nat))) || sum_ways(
            content_lines(input.spec_bytes()),
            k as nat,
            content_lines(input.spec_bytes()).len(),
        ) > u64::MAX,
{
    let lines = lines_of(input);
    let ghost ls = content_lines(input.spec_bytes());
    let mut acc: u64 = 0;
    let mut i: usize = 0;
    while i < lines.len()
        invariant
            i <= lines@.len(),
            k >= 1,
            rows_view(lines@) == ls,
            ls == content_lines(input.spec_bytes()),
            forall|j: int| 0 <= j < i ==> line_ok(#[trigger] ls[j]),
            acc == sum_ways(ls, k as nat, i as nat),
        decreases lines@.len() - i,
    {
        assert(lines@[i as int]@ == ls[i as int]);
        let (s, g) = match parse_row(lines[i].as_slice()) {
            None => {
                assert(!line_ok(ls[i as int]));
                return None;
            },
            Some(row) => row,
        };
        let (us, ug) = unfold(&s, &g, k);
        let v = match count_arrangements(&us, &ug) {
            None => {
                proof {
                    assert(ug@.len() == nats(ug@).len());
                    assert(count_fails(ls[i as int], k as nat));
                }
                return None;
            },
            Some(v) => v,
        };
        if acc > u64::MAX - v {
            proof {
                lemma_sum_ways_grows(ls, k as nat, (i + 1) as nat, ls.len());
            }
            return None;
        }
        acc = acc + v;
        i += 1;
    }
    Some(acc)
}

/// Sum of the arrangements of the rows as written.
pub fn part1(input: &str) -> (r: Option<u64>)
    ensures
        r is Some ==> r.unwrap() == sum_ways(content_lines(input.spec_bytes()), 1, content_lines(input.spec_bytes()).len()),
        r is None ==> (exists|i: int|
            0 <= i < content_lines(input.spec_bytes()).len() && (!line_ok(#[trigger] content_lines(input.spec_bytes())[i])
                || count_fails(content_lines(input.spec_bytes())[i], 1))) || sum_ways(
            content_lines(input.spec_bytes()),
            1,
            content_lines(input.spec_bytes()).len(),
        ) > u64::MAX,
{
    total_arrangements(input, 1)
}

/// Sum of the arrangements of the rows unfolded five times.
pub fn part2(input: &str) -> (r: Option<u64>)
    ensures
        r is Some ==> r.unwrap() == sum_ways(content_lines(input.spec_bytes()), 5, content_lines(input.spec_bytes()).len()),
        r is None ==> (exists|i: int|
            0 <= i < content_lines(input.spec_bytes()).len() && (!line_ok(#[trigger] content_lines(input.spec_bytes())[i])
                || count_fails(content_lines(input.spec_bytes())[i], 5))) || sum_ways(
            content_lines(input.spec_bytes()),
            5,
            content_lines(input.spec_bytes()).len(),
        ) > u64::MAX,
{
    total_arrangements(input, 5)
}

} // verus!
