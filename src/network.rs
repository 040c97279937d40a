//! Walking a network of left/right nodes by a repeated list of turns, and
//! the step count at which several walks end together.
use vstd::prelude::*;
use vstd::string::StringSliceAdditionalSpecFns;
use crate::arith::{all_positive, is_lcm_of, lcm_all, multiple_of_all};
use crate::circuit::{bytes_eq, copy_bytes, distinct_names, find_name};
use crate::text::{content_lines, lines_of, rows_view, split_words, words};

verus! {

/// Nodes `0..names.len()`; node `i` leads to `left[i]` on `L` and to
/// `right[i]` on `R`.
pub struct Network {
    pub turns: Vec<u8>,
    pub names: Vec<Vec<u8>>,
    pub left: Vec<usize>,
    pub right: Vec<usize>,
}

impl Network {
    pub open spec fn wf(&self) -> bool {
        &&& self.turns@.len() > 0
        &&& forall|i: int| 0 <= i < self.turns@.len() ==> (#[trigger] self.turns@[i] == 76 || self.turns@[i] == 82)
        &&& self.left@.len() == self.names@.len()
        &&& self.right@.len() == self.names@.len()
        &&& forall|i: int| 0 <= i < self.left@.len() ==> #[trigger] self.left@[i] < self.names@.len()
        &&& forall|i: int| 0 <= i < self.right@.len() ==> #[trigger] self.right@[i] < self.names@.len()
    }

    /// The node reached from `start` after `k` steps.
    pub open spec fn node_after(&self, start: usize, k: nat) -> usize
        decreases k,
    {
        if k == 0 {
            start
        } else {
            let prev = self.node_after(start, (k - 1) as nat);
            if self.turns@[(k - 1) % self.turns@.len() as int] == 76 {
                self.left@[prev as int]
            } else {
                self.right@[prev as int]
            }
        }
    }

    /// Node `n`'s name ends in `Z` (`any_z`), or is `ZZZ`.
    pub open spec fn is_goal(&self, n: usize, any_z: bool) -> bool {
        let name = self.names@[n as int]@;
        if any_z {
            name.len() > 0 && name.last() == 90
        } else {
            name == seq![90u8, 90, 90]
        }
    }

    /// A walk from `start` first reaches a goal after `k` steps.
    pub open spec fn first_goal(&self, start: usize, any_z: bool, k: nat) -> bool {
        &&& self.is_goal(self.node_after(start, k), any_z)
        &&& forall|j: nat| j < k ==> !#[trigger] self.is_goal(self.node_after(start, j), any_z)
    }

    proof fn lemma_node_in_range(&self, start: usize, k: nat)
        requires
            self.wf(),
            start < self.names@.len(),
        ensures
            self.node_after(start, k) < self.names@.len(),
        decreases k,
    {
        if k > 0 {
            self.lemma_node_in_range(start, (k - 1) as nat);
        }
    }

    pub fn is_goal_exec(&self, n: usize, any_z: bool) -> (r: bool)
        requires
            n < self.names@.len(),
        ensures
            r == self.is_goal(n, any_z),
    {
        let name = &self.names[n];
        if any_z {
            name.len() > 0 && name[name.len() - 1] == 90
        } else {
            let zzz: Vec<u8> = vec![90u8, 90, 90];
            bytes_eq(name.as_slice(), zzz.as_slice())
        }
    }

    /// Steps from `start` to the first goal; `None` when none is reached
    /// within `max_steps`.
    pub fn steps_to_goal(&self, start: usize, any_z: bool, max_steps: u64) -> (r: Option<u64>)
        requires
            self.wf(),
            start < self.names@.len(),
        ensures
            r is Some ==> self.first_goal(start, any_z, r.unwrap() as nat) && r.unwrap() <= max_steps,
            r is None ==> forall|j: nat| j <= max_steps ==> !#[trigger] self.is_goal(self.node_after(start, j), any_z),
    {
        let mut cur = start;
        let mut k: u64 = 0;
        loop
            invariant
                self.wf(),
                start < self.names@.len(),
                k <= max_steps,
                cur == self.node_after(start, k as nat),
                cur < self.names@.len(),
                forall|j: nat| j < k ==> !#[trigger] self.is_goal(self.node_after(start, j), any_z),
            decreases max_steps - k,
        {
            if self.is_goal_exec(cur, any_z) {
                return Some(k);
            }
            if k == max_steps {
                return None;
            }
            let t = self.turns[(k % (self.turns.len() as u64)) as usize];
            assert(self.turns@[(k as int) % self.turns@.len() as int] == t);
            cur = if t == 76 {
                self.left[cur]
            } else {
                self.right[cur]
            };
            k += 1;
        }
    }
}

pub open spec fn eq_sign() -> Seq<u8> {
    seq![61u8]
}

/// `NAME = (LEFT, RIGHT)`
pub open spec fn node_ok(l: Seq<u8>) -> bool {
    let w = words(l);
    &&& w.len() == 4
    &&& w[1] == eq_sign()
    &&& w[2].len() >= 3
    &&& w[2][0] == 40
    &&& w[2].last() == 44
    &&& w[3].len() >= 2
    &&& w[3].last() == 41
}

pub open spec fn node_name(l: Seq<u8>) -> Seq<u8> {
    words(l)[0]
}

pub open spec fn node_left(l: Seq<u8>) -> Seq<u8> {
    words(l)[2].subrange(1, words(l)[2].len() - 1)
}

pub open spec fn node_right(l: Seq<u8>) -> Seq<u8> {
    words(l)[3].drop_last()
}

/// The network that the node lines `nodes` declare, with turns `turns`.
pub open spec fn declares(net: Network, turns: Seq<u8>, nodes: Seq<Seq<u8>>) -> bool {
    let names = rows_view(net.names@);
    &&& net.wf()
    &&& net.turns@ == turns
    &&& names.len() == nodes.len()
    &&& forall|i: int, j: int| 0 <= i < j < names.len() ==> names[i] != names[j]
    &&& forall|i: int|
        0 <= i < nodes.len() ==> {
            &&& names[i] == node_name(#[trigger] nodes[i])
            &&& names[net.left@[i] as int] == node_left(nodes[i])
            &&& names[net.right@[i] as int] == node_right(nodes[i])
        }
}

/// Turns, a blank line, then one node per line, every name declared once
/// and every child declared.
pub open spec fn text_ok(text: Seq<u8>) -> bool {
    let ls = content_lines(text);
    &&& ls.len() >= 2
    &&& ls[0].len() > 0
    &&& forall|i: int| 0 <= i < ls[0].len() ==> (#[trigger] ls[0][i] == 76 || ls[0][i] == 82)
    &&& ls[1].len() == 0
    &&& forall|i: int| 2 <= i < ls.len() ==> node_ok(#[trigger] ls[i])
}

fn sub_bytes(v: &Vec<u8>, from: usize, to: usize) -> (r: Vec<u8>)
    requires
        from <= to <= v@.len(),
    ensures
        r@ == v@.subrange(from as int, to as int),
{
    let mut r: Vec<u8> = Vec::new();
    let mut i: usize = from;
    while i < to
        invariant
            from <= i <= to <= v@.len(),
            r@ == v@.subrange(from as int, i as int),
        decreases to - i,
    {
        r.push(v[i]);
        i += 1;
        assert(r@ == v@.subrange(from as int, i as int));
    }
    r
}

/// Reads a network; `None` when the text is malformed, a name is declared
/// twice, or a child is never declared.
pub fn parse_network(input: &str) -> (r: Option<Network>)
    ensures
        !text_ok(input.spec_bytes()) ==> r is None,
        r is Some ==> ({
            let ls = content_lines(input.spec_bytes());
            declares(r.unwrap(), ls[0], ls.subrange(2, ls.len() as int))
        }),
{
    let lines = lines_of(input);
    let ghost ls = content_lines(input.spec_bytes());
    if lines.len() < 2 || lines[0].len() == 0 || lines[1].len() != 0 {
        return None;
    }
    assert(lines@[0]@ == ls[0] && lines@[1]@ == ls[1]);
    let mut i: usize = 0;
    while i < lines[0].len()
        invariant
            lines@.len() >= 2,
            i <= lines@[0]@.len(),
            lines@[0]@ == ls[0],
            forall|j: int| 0 <= j < i ==> (#[trigger] ls[0][j] == 76 || ls[0][j] == 82),
        decreases lines@[0]@.len() - i,
    {
        if lines[0][i] != 76 && lines[0][i] != 82 {
            return None;
        }
        i += 1;
    }
    let turns = copy_bytes(lines[0].as_slice());
    let ghost nodes = ls.subrange(2, ls.len() as int);
    let mut names: Vec<Vec<u8>> = Vec::new();
    let mut lefts: Vec<Vec<u8>> = Vec::new();
    let mut rights: Vec<Vec<u8>> = Vec::new();
    let mut k: usize = 2;
    while k < lines.len()
        invariant
            2 <= k <= lines@.len(),
            rows_view(lines@) == ls,
            nodes == ls.subrange(2, ls.len() as int),
            names@.len() == k - 2,
            lefts@.len() == k - 2,
            rights@.len() == k - 2,
            distinct_names(names@),
            forall|j: int| 2 <= j < k ==> node_ok(#[trigger] ls[j]),
            forall|j: int| 0 <= j < k - 2 ==> (#[trigger] names@[j])@ == node_name(nodes[j]),
            forall|j: int| 0 <= j < k - 2 ==> (#[trigger] lefts@[j])@ == node_left(nodes[j]),
            forall|j: int| 0 <= j < k - 2 ==> (#[trigger] rights@[j])@ == node_right(nodes[j]),
        decreases lines@.len() - k,
    {
        assert(lines@[k as int]@ == ls[k as int]);
        assert(nodes[k - 2] == ls[k as int]);
        let w = split_words(lines[k].as_slice());
        let ghost wv = words(ls[k as int]);
        if w.len() != 4 {
            return None;
        }
        assert(w@[0]@ == wv[0] && w@[1]@ == wv[1] && w@[2]@ == wv[2] && w@[3]@ == wv[3]);
        let eq: Vec<u8> = vec![61u8];
        assert(eq@ == eq_sign());
        if !bytes_eq(w[1].as_slice(), eq.as_slice()) || w[2].len() < 3 || w[2][0] != 40 || w[2][w[2].len() - 1] != 44
            || w[3].len() < 2 || w[3][w[3].len() - 1] != 41 {
            return None;
        }
        assert(node_ok(ls[k as int]));
        match find_name(&names, w[0].as_slice()) {
            Some(j) => {
                return None;
            },
            None => {},
        }
        let ghost before = names@;
        names.push(copy_bytes(w[0].as_slice()));
        proof {
            assert forall|a: int, b: int| 0 <= a < b < names@.len() implies names@[a]@ != names@[b]@ by {
                if b == before.len() {
                    assert(before[a]@ != w@[0]@);
                } else {
                    assert(before[a]@ != before[b]@);
                }
            }
        }
        lefts.push(sub_bytes(&w[2], 1, w[2].len() - 1));
        rights.push(sub_bytes(&w[3], 0, w[3].len() - 1));
        k += 1;
    }
    let n = names.len();
    let mut left: Vec<usize> = Vec::new();
    let mut right: Vec<usize> = Vec::new();
    let mut j: usize = 0;
    while j < n
        invariant
            j <= n == names@.len() == lefts@.len() == rights@.len(),
            left@.len() == j,
            right@.len() == j,
            forall|t: int| 0 <= t < j ==> (#[trigger] left@[t]) < n && names@[left@[t] as int]@ == lefts@[t]@,
            forall|t: int| 0 <= t < j ==> (#[trigger] right@[t]) < n && names@[right@[t] as int]@ == rights@[t]@,
        decreases n - j,
    {
        let l = match find_name(&names, lefts[j].as_slice()) {
            None => {
                return None;
            },
            Some(l) => l,
        };
        let r = match find_name(&names, rights[j].as_slice()) {
            None => {
                return None;
            },
            Some(r) => r,
        };
        left.push(l);
        right.push(r);
        j += 1;
    }
    let net = Network { turns, names, left, right };
    proof {
        let names_v = rows_view(net.names@);
        assert forall|a: int, b: int| 0 <= a < b < names_v.len() implies names_v[a] != names_v[b] by {
            assert(net.names@[a]@ != net.names@[b]@);
        }
        assert forall|t: int| 0 <= t < net.turns@.len() implies (#[trigger] net.turns@[t] == 76 || net.turns@[t] == 82) by {
            assert(net.turns@[t] == ls[0][t]);
        }
    }
    Some(net)
}

/// Steps until every walk that starts on a node whose name ends in `A` is,
/// at the same step, on a node whose name ends in `Z`, taking each walk's
/// first such step as its period: the least common multiple of those.
/// `None` when the text declares no network, a walk reaches no such node
/// within `max_steps`, or the multiple exceeds `u64::MAX`.
pub fn ghost_steps(input: &str, max_steps: u64) -> (r: Option<u64>)
    ensures
        !text_ok(input.spec_bytes()) ==> r is None,
        r is Some ==> exists|net: Network, starts: Seq<usize>, ps: Seq<u64>|
            #[trigger] declares(
                net,
                content_lines(input.spec_bytes())[0],
                content_lines(input.spec_bytes()).subrange(2, content_lines(input.spec_bytes()).len() as int),
            ) && #[trigger] starts_are(net, starts) && ps.len() == starts.len() && (forall|k: int|
                0 <= k < ps.len() ==> #[trigger] net.first_goal(starts[k], true, ps[k] as nat)) && #[trigger] is_lcm_of(
                ps,
                r.unwrap() as int,
            ),
{
    let net = match parse_network(input) {
        None => {
            return None;
        },
        Some(n) => n,
    };
    let mut starts: Vec<usize> = Vec::new();
    let mut i: usize = 0;
    while i < net.names.len()
        invariant
            i <= net.names@.len(),
            forall|t: int| 0 <= t < starts@.len() ==> (#[trigger] starts@[t]) < i,
            forall|x: usize| starts@.contains(x) <==> (x < i && #[trigger] ends_with_a(net.names@[x as int]@)),
            forall|a: int, b: int| 0 <= a < b < starts@.len() ==> starts@[a] < starts@[b],
        decreases net.names@.len() - i,
    {
        let name = &net.names[i];
        let ghost before = starts@;
        if name.len() > 0 && name[name.len() - 1] == 65 {
            starts.push(i);
            proof {
                assert forall|x: usize| starts@.contains(x) <==> (x < i + 1 && #[trigger] ends_with_a(net.names@[x as int]@)) by {
                    if starts@.contains(x) && x != i {
                        let w = choose|w: int| 0 <= w < starts@.len() && starts@[w] == x;
                        assert(before[w] == x);
                    }
                    if before.contains(x) {
                        let w = choose|w: int| 0 <= w < before.len() && before[w] == x;
                        assert(starts@[w] == x);
                    }
                    if x == i {
                        assert(starts@[before.len() as int] == x);
                    }
                }
            }
        }
        i += 1;
    }
    let mut ps: Vec<u64> = Vec::new();
    let mut k: usize = 0;
    while k < starts.len()
        invariant
            k <= starts@.len(),
            net.wf(),
            forall|t: int| 0 <= t < starts@.len() ==> (#[trigger] starts@[t]) < net.names@.len(),
            ps@.len() == k,
            forall|t: int| 0 <= t < k ==> #[trigger] net.first_goal(starts@[t], true, ps@[t] as nat),
        decreases starts@.len() - k,
    {
        match net.steps_to_goal(starts[k], true, max_steps) {
            None => {
                return None;
            },
            Some(s) => {
                ps.push(s);
            },
        }
        k += 1;
    }
    let mut all_pos = true;
    let mut t: usize = 0;
    while t < ps.len()
        invariant
            t <= ps@.len(),
            all_pos == forall|u: int| 0 <= u < t ==> #[trigger] ps@[u] > 0,
        decreases ps@.len() - t,
    {
        if ps[t] == 0 {
            all_pos = false;
        }
        t += 1;
    }
    if !all_pos {
        return None;
    }
    let r = lcm_all(&ps);
    proof {
        if r is Some {
            assert(starts_are(net, starts@));
        }
    }
    r
}

pub open spec fn ends_with_a(name: Seq<u8>) -> bool {
    name.len() > 0 && name.last() == 65
}

/// `starts` lists, in increasing order, the nodes whose name ends in `A`.
pub open spec fn starts_are(net: Network, starts: Seq<usize>) -> bool {
    &&& forall|a: int, b: int| 0 <= a < b < starts.len() ==> starts[a] < starts[b]
    &&& forall|x: usize| starts.contains(x) <==> (x < net.names@.len() && #[trigger] ends_with_a(net.names@[x as int]@))
}

/// Most steps a walk may take before it is given up.
pub const MAX_STEPS: u64 = 100000000;

/// Steps from `AAA` to `ZZZ`; `None` when the text declares no network,
/// `AAA` is missing, or `ZZZ` is not reached within `MAX_STEPS`.
pub fn part1(input: &str) -> (r: Option<u64>)
    ensures
        !text_ok(input.spec_bytes()) ==> r is None,
        r is Some ==> exists|net: Network, start: usize|
            #[trigger] declares(
                net,
                content_lines(input.spec_bytes())[0],
                content_lines(input.spec_bytes()).subrange(2, content_lines(input.spec_bytes()).len() as int),
            ) && start < net.names@.len() && net.names@[start as int]@ == seq![65u8, 65, 65] && #[trigger] net.first_goal(
                start,
                false,
                r.unwrap() as nat,
            ),
{
    let net = match parse_network(input) {
        None => {
            return None;
        },
        Some(n) => n,
    };
    let aaa: Vec<u8> = vec![65u8, 65, 65];
    let start = match find_name(&net.names, aaa.as_slice()) {
        None => {
            return None;
        },
        Some(s) => s,
    };
    net.steps_to_goal(start, false, MAX_STEPS)
}

/// Steps until all walks from the `..A` nodes stand on `..Z` nodes, by the
/// least common multiple of their first arrivals.
pub fn part2(input: &str) -> (r: Option<u64>)
    ensures
        !text_ok(input.spec_bytes()) ==> r is None,
        r is Some ==> exists|net: Network, starts: Seq<usize>, ps: Seq<u64>|
            #[trigger] declares(
                net,
                content_lines(input.spec_bytes())[0],
                content_lines(input.spec_bytes()).subrange(2, content_lines(input.spec_bytes()).len() as int),
            ) && #[trigger] starts_are(net, starts) && ps.len() == starts.len() && (forall|k: int|
                0 <= k < ps.len() ==> #[trigger] net.first_goal(starts[k], true, ps[k] as nat)) && #[trigger] is_lcm_of(
                ps,
                r.unwrap() as int,
            ),
{
    ghost_steps(input, MAX_STEPS)
}

} // verus!
