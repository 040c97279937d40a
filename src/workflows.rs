//! Machine parts sorted by workflows of rating rules: which parts are
//! accepted, and how many rating combinations would be.
use vstd::prelude::*;
use vstd::string::StringSliceAdditionalSpecFns;
use crate::circuit::{bytes_eq, copy_bytes, distinct_names, find_name};
use crate::mirrors::{parse_patterns, patterns_of};
use crate::text::{all_digits, dec_value, parse_u64, rows_view, split_bytes, split_on};

verus! {

/// Where a rule sends a part: accepted, rejected, or to workflow `i`.
#[derive(Clone, Copy, PartialEq, Eq, Structural, Debug)]
pub enum Target {
    Accept,
    Reject,
    Flow(usize),
}

/// If rating `cat` (0 x, 1 m, 2 a, 3 s) is greater (`greater`) or less than
/// `value`, go to `target`.
#[derive(Clone, Copy, PartialEq, Eq, Structural, Debug)]
pub struct Rule {
    pub cat: u8,
    pub greater: bool,
    pub value: u64,
    pub target: Target,
}

pub struct Workflow {
    pub rules: Vec<Rule>,
    pub fallback: Target,
}

pub open spec fn holds(r: Rule, part: Seq<u64>) -> bool {
    if r.greater {
        part[r.cat as int] > r.value
    } else {
        part[r.cat as int] < r.value
    }
}

/// The target of the first rule from `k` on that the part meets, else the
/// fallback.
pub open spec fn decide(rules: Seq<Rule>, fallback: Target, part: Seq<u64>, k: int) -> Target
    decreases rules.len() - k,
{
    if k < 0 || k >= rules.len() {
        fallback
    } else if holds(rules[k], part) {
        rules[k].target
    } else {
        decide(rules, fallback, part, k + 1)
    }
}

pub open spec fn flows_view(ws: Seq<Workflow>) -> Seq<(Seq<Rule>, Target)> {
    Seq::new(ws.len(), |i: int| (ws[i].rules@, ws[i].fallback))
}

/// Workflow `i`'s rules read ratings and its targets name workflows.
pub open spec fn flow_ok(fs: Seq<(Seq<Rule>, Target)>, i: int) -> bool {
    &&& forall|k: int|
        0 <= k < fs[i].0.len() ==> (#[trigger] fs[i].0[k]).cat < 4 && target_ok(fs[i].0[k].target, fs.len())
            && fs[i].0[k].value <= 0x1_0000_0000
    &&& target_ok(fs[i].1, fs.len())
}

/// Every rule's category is a rating and every target names a workflow.
pub open spec fn flows_ok(fs: Seq<(Seq<Rule>, Target)>) -> bool {
    forall|i: int| 0 <= i < fs.len() ==> #[trigger] flow_ok(fs, i)
}

pub open spec fn target_ok(t: Target, n: nat) -> bool {
    match t {
        Target::Flow(j) => j < n,
        _ => true,
    }
}

/// Whether a part starting at workflow `w` ends accepted, following at most
/// `fuel` more workflows (`None` when that is not enough).
pub open spec fn accepted(fs: Seq<(Seq<Rule>, Target)>, part: Seq<u64>, w: int, fuel: nat) -> Option<bool>
    decreases fuel,
{
    match decide(fs[w].0, fs[w].1, part, 0) {
        Target::Accept => Some(true),
        Target::Reject => Some(false),
        Target::Flow(j) => if fuel == 0 {
            None
        } else {
            accepted(fs, part, j as int, (fuel - 1) as nat)
        },
    }
}

/// The target of the first rule the part meets.
pub fn execute_workflow(wf: &Workflow, part: &Vec<u64>) -> (t: Target)
    requires
        part@.len() == 4,
        forall|k: int| 0 <= k < wf.rules@.len() ==> (#[trigger] wf.rules@[k]).cat < 4,
    ensures
        t == decide(wf.rules@, wf.fallback, part@, 0),
{
    let mut k: usize = 0;
    while k < wf.rules.len()
        invariant
            k <= wf.rules@.len(),
            part@.len() == 4,
            forall|j: int| 0 <= j < wf.rules@.len() ==> (#[trigger] wf.rules@[j]).cat < 4,
            decide(wf.rules@, wf.fallback, part@, 0) == decide(wf.rules@, wf.fallback, part@, k as int),
        decreases wf.rules@.len() - k,
    {
        let r = wf.rules[k];
        let v = part[r.cat as usize];
        let ok = if r.greater {
            v > r.value
        } else {
            v < r.value
        };
        if ok {
            return r.target;
        }
        k += 1;
    }
    wf.fallback
}

/// Whether the part starting at workflow `w` is accepted; `None` when it
/// passes through more than `fuel` further workflows.
pub fn is_accepted(ws: &Vec<Workflow>, part: &Vec<u64>, w: usize, fuel: usize) -> (r: Option<bool>)
    requires
        part@.len() == 4,
        w < ws@.len(),
        flows_ok(flows_view(ws@)),
    ensures
        r == accepted(flows_view(ws@), part@, w as int, fuel as nat),
    decreases fuel,
{
    assert(flows_view(ws@)[w as int] == (ws@[w as int].rules@, ws@[w as int].fallback));
    assert(flow_ok(flows_view(ws@), w as int));
    assert forall|k: int| 0 <= k < ws@[w as int].rules@.len() implies (#[trigger] ws@[w as int].rules@[k]).cat < 4 by {
        assert(flows_view(ws@)[w as int].0[k] == ws@[w as int].rules@[k]);
    }
    match execute_workflow(&ws[w], part) {
        Target::Accept => Some(true),
        Target::Reject => Some(false),
        Target::Flow(j) => {
            if fuel == 0 {
                None
            } else {
                proof {
                    lemma_decide_ok(flows_view(ws@), w as int, part@);
                }
                is_accepted(ws, part, j, fuel - 1)
            }
        },
    }
}

proof fn lemma_decide_ok(fs: Seq<(Seq<Rule>, Target)>, w: int, part: Seq<u64>)
    requires
        flows_ok(fs),
        0 <= w < fs.len(),
    ensures
        target_ok(decide(fs[w].0, fs[w].1, part, 0), fs.len()),
{
    lemma_decide_from_ok(fs, w, part, 0);
}

proof fn lemma_decide_from_ok(fs: Seq<(Seq<Rule>, Target)>, w: int, part: Seq<u64>, k: int)
    requires
        flows_ok(fs),
        0 <= w < fs.len(),
        0 <= k,
    ensures
        target_ok(decide(fs[w].0, fs[w].1, part, k), fs.len()),
    decreases fs[w].0.len() - k,
{
    assert(flow_ok(fs, w));
    assert(target_ok(fs[w].1, fs.len()));
    if k < fs[w].0.len() {
        assert(fs[w].0[k].cat < 4);
        if !holds(fs[w].0[k], part) {
            lemma_decide_from_ok(fs, w, part, k + 1);
        }
    }
}

pub open spec fn side(lo: int, hi: int) -> nat {
    if lo <= hi {
        (hi - lo + 1) as nat
    } else {
        0
    }
}

/// Rating combinations in the box from `lo` to `hi` (inclusive, per
/// category).
pub open spec fn volume(lo: Seq<int>, hi: Seq<int>) -> nat {
    side(lo[0], hi[0]) * side(lo[1], hi[1]) * side(lo[2], hi[2]) * side(lo[3], hi[3])
}

pub open spec fn max(a: int, b: int) -> int {
    if a > b {
        a
    } else {
        b
    }
}

pub open spec fn min(a: int, b: int) -> int {
    if a < b {
        a
    } else {
        b
    }
}

/// The part of the box on which the rule holds.
pub open spec fn cut_in(r: Rule, lo: Seq<int>, hi: Seq<int>) -> (Seq<int>, Seq<int>) {
    let c = r.cat as int;
    if r.greater {
        (lo.update(c, max(lo[c], r.value + 1)), hi)
    } else {
        (lo, hi.update(c, min(hi[c], r.value - 1)))
    }
}

/// The part of the box on which the rule fails.
pub open spec fn cut_out(r: Rule, lo: Seq<int>, hi: Seq<int>) -> (Seq<int>, Seq<int>) {
    let c = r.cat as int;
    if r.greater {
        (lo, hi.update(c, min(hi[c], r.value as int)))
    } else {
        (lo.update(c, max(lo[c], r.value as int)), hi)
    }
}

/// Combinations of the box that workflow `w`, from rule `k` on, ends up
/// accepting, following at most `fuel` more workflows (a branch that needs
/// more counts nothing).
pub open spec fn combos(fs: Seq<(Seq<Rule>, Target)>, w: int, k: int, lo: Seq<int>, hi: Seq<int>, fuel: nat) -> nat
    decreases fuel, fs[w].0.len() - k,
{
    if k < 0 || k >= fs[w].0.len() {
        match fs[w].1 {
            Target::Accept => volume(lo, hi),
            Target::Reject => 0,
            Target::Flow(j) => if fuel == 0 {
                0
            } else {
                combos(fs, j as int, 0, lo, hi, (fuel - 1) as nat)
            },
        }
    } else {
        let r = fs[w].0[k];
        let (li, hi_in) = cut_in(r, lo, hi);
        let (lo_out, ho) = cut_out(r, lo, hi);
        let here = match r.target {
            Target::Accept => volume(li, hi_in),
            Target::Reject => 0,
            Target::Flow(j) => if fuel == 0 {
                0
            } else {
                combos(fs, j as int, 0, li, hi_in, (fuel - 1) as nat)
            },
        };
        here + combos(fs, w, k + 1, lo_out, ho, fuel)
    }
}

pub open spec fn ints(v: Seq<i64>) -> Seq<int> {
    Seq::new(v.len(), |i: int| v[i] as int)
}

/// Box bounds stay within what an `i64` holds comfortably.
pub open spec fn small(v: Seq<i64>) -> bool {
    v.len() == 4 && forall|i: int| 0 <= i < 4 ==> -0x1_0000_0000_0000_0000 < #[trigger] (v[i] as int) < 0x1_0000_0000_0000_0000
}

fn side_exec(lo: i64, hi: i64) -> (r: u128)
    ensures
        r as nat == side(lo as int, hi as int),
{
    if lo <= hi {
        (hi as i128 - lo as i128 + 1) as u128
    } else {
        0
    }
}

fn volume_exec(lo: &Vec<i64>, hi: &Vec<i64>) -> (r: Option<u64>)
    requires
        lo@.len() == 4,
        hi@.len() == 4,
    ensures
        r is Some ==> r.unwrap() == volume(ints(lo@), ints(hi@)),
        r is None ==> volume(ints(lo@), ints(hi@)) > u64::MAX,
{
    let a = side_exec(lo[0], hi[0]);
    let b = side_exec(lo[1], hi[1]);
    let c = side_exec(lo[2], hi[2]);
    let d = side_exec(lo[3], hi[3]);
    let ghost v = volume(ints(lo@), ints(hi@));
    assert(v == a * b * c * d);
    if a == 0 || b == 0 || c == 0 || d == 0 {
        assert(v == 0) by (nonlinear_arith)
            requires v == a * b * c * d, a == 0 || b == 0 || c == 0 || d == 0;
        return Some(0);
    }
    let m = u64::MAX as u128;
    if a > m || b > m || c > m || d > m {
        assert(v >= a && v >= b && v >= c && v >= d) by (nonlinear_arith)
            requires v == a * b * c * d, a >= 1, b >= 1, c >= 1, d >= 1;
        return None;
    }
    assert(a * b <= m * m) by (nonlinear_arith)
        requires a <= m, b <= m;
    assert(m * m <= u128::MAX);
    let ab = a * b;
    if ab > m {
        assert(v >= ab) by (nonlinear_arith)
            requires v == ab * c * d, c >= 1, d >= 1, ab >= 0;
        return None;
    }
    assert(ab * c <= m * m) by (nonlinear_arith)
        requires ab <= m, c <= m;
    let abc = ab * c;
    if abc > m {
        assert(v >= abc) by (nonlinear_arith)
            requires v == abc * d, d >= 1, abc >= 0;
        return None;
    }
    assert(abc * d <= m * m) by (nonlinear_arith)
        requires abc <= m, d <= m;
    let abcd = abc * d;
    if abcd > m {
        return None;
    }
    Some(abcd as u64)
}

/// Some branch of the box, from rule `k` of workflow `w` on, needs more
/// than `fuel` further workflows.
pub open spec fn runs_dry(fs: Seq<(Seq<Rule>, Target)>, w: int, k: int, lo: Seq<int>, hi: Seq<int>, fuel: nat) -> bool
    decreases fuel, fs[w].0.len() - k,
{
    if k < 0 || k >= fs[w].0.len() {
        match fs[w].1 {
            Target::Flow(j) => if fuel == 0 {
                true
            } else {
                runs_dry(fs, j as int, 0, lo, hi, (fuel - 1) as nat)
            },
            _ => false,
        }
    } else {
        let r = fs[w].0[k];
        let (li, hi_in) = cut_in(r, lo, hi);
        let (lo_out, ho) = cut_out(r, lo, hi);
        let here = match r.target {
            Target::Flow(j) => if fuel == 0 {
                true
            } else {
                runs_dry(fs, j as int, 0, li, hi_in, (fuel - 1) as nat)
            },
            _ => false,
        };
        here || runs_dry(fs, w, k + 1, lo_out, ho, fuel)
    }
}

/// The accepted combinations, as `combos` counts them; `None` when some
/// branch needs more than `fuel` further workflows or a count exceeds
/// `u64::MAX`.
pub fn combos_exec(ws: &Vec<Workflow>, w: usize, k: usize, lo: Vec<i64>, hi: Vec<i64>, fuel: usize) -> (r: Option<u64>)
    requires
        w < ws@.len(),
        flows_ok(flows_view(ws@)),
        small(lo@),
        small(hi@),
    ensures
        r is Some ==> r.unwrap() == combos(flows_view(ws@), w as int, k as int, ints(lo@), ints(hi@), fuel as nat),
        r is None ==> runs_dry(flows_view(ws@), w as int, k as int, ints(lo@), ints(hi@), fuel as nat) || combos(
            flows_view(ws@),
            w as int,
            k as int,
            ints(lo@),
            ints(hi@),
            fuel as nat,
        ) > u64::MAX,
    decreases fuel, ws@[w as int].rules@.len() - k,
{
    let ghost fs = flows_view(ws@);
    assert(fs[w as int] == (ws@[w as int].rules@, ws@[w as int].fallback));
    assert(flow_ok(fs, w as int));
    let wf = &ws[w];
    if k >= wf.rules.len() {
        return match wf.fallback {
            Target::Accept => volume_exec(&lo, &hi),
            Target::Reject => Some(0),
            Target::Flow(j) => {
                if fuel == 0 {
                    None
                } else {
                    assert(target_ok(fs[w as int].1, fs.len()));
                    combos_exec(ws, j, 0, lo, hi, fuel - 1)
                }
            },
        };
    }
    let r = wf.rules[k];
    assert(fs[w as int].0[k as int] == r);
    assert(r.cat < 4 && target_ok(r.target, fs.len()) && r.value <= 0x1_0000_0000);
    let c = r.cat as usize;
    let v = r.value as i64;
    let mut li = lo.clone();
    let mut hin = hi.clone();
    let mut lout = lo.clone();
    let mut hout = hi.clone();
    assert(li@ == lo@ && hin@ == hi@ && lout@ == lo@ && hout@ == hi@);
    if r.greater {
        let m = if lo[c] > v + 1 {
            lo[c]
        } else {
            v + 1
        };
        li.set(c, m);
        let n = if hi[c] < v {
            hi[c]
        } else {
            v
        };
        hout.set(c, n);
    } else {
        let n = if hi[c] < v - 1 {
            hi[c]
        } else {
            v - 1
        };
        hin.set(c, n);
        let m = if lo[c] > v {
            lo[c]
        } else {
            v
        };
        lout.set(c, m);
    }
    proof {
        let (a, b) = cut_in(r, ints(lo@), ints(hi@));
        let (d, e) = cut_out(r, ints(lo@), ints(hi@));
        assert(ints(li@) =~= a);
        assert(ints(hin@) =~= b);
        assert(ints(lout@) =~= d);
        assert(ints(hout@) =~= e);
        assert(small(li@) && small(hin@) && small(lout@) && small(hout@));
    }
    let here = match r.target {
        Target::Accept => volume_exec(&li, &hin),
        Target::Reject => Some(0),
        Target::Flow(j) => {
            if fuel == 0 {
                None
            } else {
                combos_exec(ws, j, 0, li, hin, fuel - 1)
            }
        },
    };
    let ghost lov = ints(lo@);
    let ghost hiv = ints(hi@);
    let ghost total = combos(fs, w as int, k as int, lov, hiv, fuel as nat);
    let ghost here_spec = match r.target {
        Target::Accept => volume(ints(li@), ints(hin@)),
        Target::Reject => 0,
        Target::Flow(j) => if fuel == 0 {
            0
        } else {
            combos(fs, j as int, 0, ints(li@), ints(hin@), (fuel - 1) as nat)
        },
    };
    let ghost rest_spec = combos(fs, w as int, (k + 1) as int, ints(lout@), ints(hout@), fuel as nat);
    assert(total == here_spec + rest_spec);
    let here = match here {
        None => {
            return None;
        },
        Some(h) => h,
    };
    let rest = match combos_exec(ws, w, k + 1, lout, hout, fuel) {
        None => {
            return None;
        },
        Some(x) => x,
    };
    if here > u64::MAX - rest {
        return None;
    }
    Some(here + rest)
}


/// 0 for `x`, 1 for `m`, 2 for `a`, 3 for `s`, 4 otherwise.
pub open spec fn cat_code(b: u8) -> nat {
    if b == 120 {
        0
    } else if b == 109 {
        1
    } else if b == 97 {
        2
    } else if b == 115 {
        3
    } else {
        4
    }
}

fn cat_code_exec(b: u8) -> (r: u8)
    ensures
        r as nat == cat_code(b),
{
    if b == 120 {
        0
    } else if b == 109 {
        1
    } else if b == 97 {
        2
    } else if b == 115 {
        3
    } else {
        4
    }
}

pub open spec fn wf_name(l: Seq<u8>) -> Seq<u8> {
    split_on(l, 123)[0]
}

pub open spec fn wf_items(l: Seq<u8>) -> Seq<Seq<u8>> {
    split_on(split_on(l, 123)[1].drop_last(), 44)
}

pub open spec fn rule_rest(it: Seq<u8>) -> Seq<Seq<u8>> {
    split_on(it.subrange(2, it.len() as int), 58)
}

/// `<c><op><n>:<target>` with `c` a rating and `op` `<` or `>`.
pub open spec fn rule_ok(it: Seq<u8>) -> bool {
    &&& it.len() >= 4
    &&& cat_code(it[0]) < 4
    &&& (it[1] == 60 || it[1] == 62)
    &&& rule_rest(it).len() == 2
    &&& rule_rest(it)[0].len() > 0
    &&& all_digits(rule_rest(it)[0])
    &&& dec_value(rule_rest(it)[0]) <= 0x1_0000_0000
    &&& rule_rest(it)[1].len() > 0
}

/// `name{rule,...,fallback}`.
pub open spec fn wf_line_ok(l: Seq<u8>) -> bool {
    let halves = split_on(l, 123);
    &&& halves.len() == 2
    &&& halves[0].len() > 0
    &&& halves[1].len() > 0
    &&& halves[1].last() == 125
    &&& wf_items(l).last().len() > 0
    &&& forall|k: int| 0 <= k < wf_items(l).len() - 1 ==> rule_ok(#[trigger] wf_items(l)[k])
}

pub open spec fn accept_name() -> Seq<u8> {
    seq![65u8]
}

pub open spec fn reject_name() -> Seq<u8> {
    seq![82u8]
}

/// `t` is what the name `n` stands for among `names`.
pub open spec fn resolves(t: Target, n: Seq<u8>, names: Seq<Seq<u8>>) -> bool {
    match t {
        Target::Accept => n == accept_name(),
        Target::Reject => n == reject_name(),
        Target::Flow(j) => n != accept_name() && n != reject_name() && j < names.len() && names[j as int] == n,
    }
}

/// The workflows read from `ls`, named by `names`.
pub open spec fn reads(ws: Seq<Workflow>, names: Seq<Seq<u8>>, ls: Seq<Seq<u8>>) -> bool {
    &&& ws.len() == ls.len()
    &&& names.len() == ls.len()
    &&& forall|i: int|
        0 <= i < ls.len() ==> {
            let items = wf_items(#[trigger] ls[i]);
            &&& names[i] == wf_name(ls[i])
            &&& ws[i].rules@.len() == items.len() - 1
            &&& resolves(ws[i].fallback, items.last(), names)
            &&& forall|k: int|
                0 <= k < ws[i].rules@.len() ==> {
                    let r = #[trigger] ws[i].rules@[k];
                    &&& r.cat as nat == cat_code(items[k][0])
                    &&& r.greater == (items[k][1] == 62)
                    &&& r.value as nat == dec_value(rule_rest(items[k])[0])
                    &&& resolves(r.target, rule_rest(items[k])[1], names)
                }
        }
}

/// The name `n` is `A`, `R`, or the name of one of the workflow lines.
pub open spec fn known(n: Seq<u8>, ls: Seq<Seq<u8>>) -> bool {
    n == accept_name() || n == reject_name() || exists|j: int| 0 <= j < ls.len() && #[trigger] wf_name(ls[j]) == n
}

/// Every target that workflow line `i` names is known.
pub open spec fn targets_known(ls: Seq<Seq<u8>>, i: int) -> bool {
    let items = wf_items(ls[i]);
    &&& forall|k: int| 0 <= k < items.len() - 1 ==> known(rule_rest(#[trigger] items[k])[1], ls)
    &&& known(items.last(), ls)
}

/// The workflow lines are well formed, name distinct workflows, and only
/// send parts to known targets.
pub open spec fn workflows_ok(ls: Seq<Seq<u8>>) -> bool {
    &&& forall|i: int| 0 <= i < ls.len() ==> wf_line_ok(#[trigger] ls[i])
    &&& forall|i: int, j: int| 0 <= i < j < ls.len() ==> wf_name(#[trigger] ls[i]) != wf_name(#[trigger] ls[j])
    &&& forall|i: int| 0 <= i < ls.len() ==> #[trigger] targets_known(ls, i)
}

proof fn lemma_resolves_known(t: Target, n: Seq<u8>, names: Seq<Seq<u8>>, ls: Seq<Seq<u8>>)
    requires
        resolves(t, n, names),
        names.len() == ls.len(),
        forall|j: int| 0 <= j < ls.len() ==> #[trigger] names[j] == wf_name(ls[j]),
    ensures
        known(n, ls),
{
    if let Target::Flow(j) = t {
        assert(wf_name(ls[j as int]) == n);
    }
}

proof fn lemma_unknown(n: Seq<u8>, names: Seq<Vec<u8>>, ls: Seq<Seq<u8>>)
    requires
        n != accept_name(),
        n != reject_name(),
        forall|i: int| 0 <= i < names.len() ==> (#[trigger] names[i])@ != n,
        names.len() == ls.len(),
        forall|j: int| 0 <= j < ls.len() ==> (#[trigger] names[j])@ == wf_name(ls[j]),
    ensures
        !known(n, ls),
{
    if known(n, ls) {
        let j = choose|j: int| 0 <= j < ls.len() && #[trigger] wf_name(ls[j]) == n;
        assert(names[j]@ == n);
    }
}

fn resolve_target(n: &Vec<u8>, names: &Vec<Vec<u8>>) -> (r: Option<Target>)
    ensures
        r is None ==> n@ != accept_name() && n@ != reject_name() && forall|i: int|
            0 <= i < names@.len() ==> (#[trigger] names@[i])@ != n@,
        r is Some ==> resolves(r.unwrap(), n@, rows_view(names@)),
        r is Some ==> target_ok(r.unwrap(), names@.len()),
{
    let a: Vec<u8> = vec![65u8];
    let rj: Vec<u8> = vec![82u8];
    assert(a@ == accept_name() && rj@ == reject_name());
    if bytes_eq(n.as_slice(), a.as_slice()) {
        return Some(Target::Accept);
    }
    if bytes_eq(n.as_slice(), rj.as_slice()) {
        return Some(Target::Reject);
    }
    match find_name(names, n.as_slice()) {
        None => None,
        Some(j) => {
            assert(rows_view(names@)[j as int] == names@[j as int]@);
            Some(Target::Flow(j))
        },
    }
}

fn bytes_between(v: &Vec<u8>, from: usize, to: usize) -> (r: Vec<u8>)
    requires
        from <= to <= v@.len(),
    ensures
        r@ == v@.subrange(from as int, to as int),
{
    let mut r: Vec<u8> = Vec::new();
    let mut i: usize = from;
    while i < to
        invariant
            from <= i <= to <= v@.len(),
            r@ == v@.subrange(from as int, i as int),
        decreases to - i,
    {
        r.push(v[i]);
        i += 1;
        assert(r@ == v@.subrange(from as int, i as int));
    }
    r
}

/// Reads the workflow lines; `None` when one is malformed, a name is
/// declared twice, or a target names no workflow.
pub fn parse_workflows(lines: &Vec<Vec<u8>>) -> (r: Option<(Vec<Workflow>, Vec<Vec<u8>>)>)
    ensures
        r is Some <==> workflows_ok(rows_view(lines@)),
        r is Some ==> reads(r.unwrap().0@, rows_view(r.unwrap().1@), rows_view(lines@)),
        r is Some ==> flows_ok(flows_view(r.unwrap().0@)),
        r is Some ==> distinct_names(r.unwrap().1@),
{
    let ghost ls = rows_view(lines@);
    let mut names: Vec<Vec<u8>> = Vec::new();
    let mut bodies: Vec<Vec<Vec<u8>>> = Vec::new();
    let mut i: usize = 0;
    while i < lines.len()
        invariant
            i <= lines@.len(),
            ls == rows_view(lines@),
            names@.len() == i,
            bodies@.len() == i,
            distinct_names(names@),
            forall|j: int| 0 <= j < i ==> wf_line_ok(#[trigger] ls[j]),
            forall|j: int| 0 <= j < i ==> (#[trigger] names@[j])@ == wf_name(ls[j]),
            forall|j: int| 0 <= j < i ==> rows_view((#[trigger] bodies@[j])@) == wf_items(ls[j]),
        decreases lines@.len() - i,
    {
        let l = &lines[i];
        assert(l@ == ls[i as int]);
        let halves = split_bytes(l.as_slice(), 123);
        if halves.len() != 2 || halves[0].len() == 0 || halves[1].len() == 0 || halves[1][halves[1].len() - 1] != 125 {
            proof {
                if halves@.len() == 2 {
                    assert(halves@[0]@ == split_on(l@, 123)[0] && halves@[1]@ == split_on(l@, 123)[1]);
                }
                assert(!wf_line_ok(ls[i as int]));
            }
            return None;
        }
        assert(halves@[0]@ == split_on(l@, 123)[0] && halves@[1]@ == split_on(l@, 123)[1]);
        let (body, _) = halves[1].as_slice().split_at(halves[1].len() - 1);
        assert(body@ == split_on(l@, 123)[1].drop_last());
        let items = split_bytes(body, 44);
        proof {
            crate::text::lemma_split_nonempty(body@, 44);
        }
        if items[items.len() - 1].len() == 0 {
            assert(items@[items@.len() - 1]@ == wf_items(ls[i as int]).last());
            assert(!wf_line_ok(ls[i as int]));
            return None;
        }
        let mut k: usize = 0;
        while k < items.len() - 1
            invariant
                k < items@.len(),
                i < ls.len(),
                ls == rows_view(lines@),
                rows_view(items@) == wf_items(ls[i as int]),
                forall|t: int| 0 <= t < k ==> rule_ok(#[trigger] wf_items(ls[i as int])[t]),
            decreases items@.len() - k,
        {
            let it = &items[k];
            assert(it@ == wf_items(ls[i as int])[k as int]);
            if it.len() < 4 || cat_code_exec(it[0]) >= 4 || (it[1] != 60 && it[1] != 62) {
                assert(!rule_ok(wf_items(ls[i as int])[k as int]));
                assert(!wf_line_ok(ls[i as int]));
                return None;
            }
            let rest = bytes_between(it, 2, it.len());
            let parts = split_bytes(rest.as_slice(), 58);
            if parts.len() != 2 || parts[0].len() == 0 || parts[1].len() == 0 {
                proof {
                    if parts@.len() == 2 {
                        assert(parts@[0]@ == rule_rest(it@)[0] && parts@[1]@ == rule_rest(it@)[1]);
                    }
                    assert(!rule_ok(wf_items(ls[i as int])[k as int]));
                    assert(!wf_line_ok(ls[i as int]));
                }
                return None;
            }
            assert(parts@[0]@ == rule_rest(it@)[0] && parts@[1]@ == rule_rest(it@)[1]);
            match parse_u64(parts[0].as_slice()) {
                None => {
                    assert(!rule_ok(wf_items(ls[i as int])[k as int]));
                    assert(!wf_line_ok(ls[i as int]));
                    return None;
                },
                Some(v) => {
                    if v > 0x1_0000_0000 {
                        assert(!rule_ok(wf_items(ls[i as int])[k as int]));
                        assert(!wf_line_ok(ls[i as int]));
                        return None;
                    }
                },
            }
            k += 1;
        }
        match find_name(&names, halves[0].as_slice()) {
            Some(j) => {
                assert(wf_name(ls[j as int]) == wf_name(ls[i as int]));
                return None;
            },
            None => {},
        }
        let ghost before = names@;
        names.push(copy_bytes(halves[0].as_slice()));
        proof {
            assert forall|a: int, b: int| 0 <= a < b < names@.len() implies names@[a]@ != names@[b]@ by {
                if b == i {
                    assert(before[a]@ != halves@[0]@);
                } else {
                    assert(before[a]@ != before[b]@);
                }
            }
        }
        assert(wf_line_ok(ls[i as int]));
        bodies.push(items);
        i += 1;
    }
    let mut ws: Vec<Workflow> = Vec::new();
    let mut i: usize = 0;
    while i < bodies.len()
        invariant
            i <= bodies@.len(),
            ls == rows_view(lines@),
            distinct_names(names@),
            bodies@.len() == names@.len() == ls.len(),
            forall|j: int| 0 <= j < ls.len() ==> wf_line_ok(#[trigger] ls[j]),
            forall|j: int| 0 <= j < ls.len() ==> (#[trigger] names@[j])@ == wf_name(ls[j]),
            forall|j: int| 0 <= j < ls.len() ==> rows_view((#[trigger] bodies@[j])@) == wf_items(ls[j]),
            ws@.len() == i,
            forall|j: int|
                0 <= j < i ==> {
                    let items = wf_items(#[trigger] ls[j]);
                    &&& ws@[j].rules@.len() == items.len() - 1
                    &&& resolves(ws@[j].fallback, items.last(), rows_view(names@))
                    &&& target_ok(ws@[j].fallback, names@.len())
                    &&& forall|k: int|
                        0 <= k < ws@[j].rules@.len() ==> {
                            let r = #[trigger] ws@[j].rules@[k];
                            &&& r.cat as nat == cat_code(items[k][0])
                            &&& r.cat < 4
                            &&& r.greater == (items[k][1] == 62)
                            &&& r.value as nat == dec_value(rule_rest(items[k])[0])
                            &&& resolves(r.target, rule_rest(items[k])[1], rows_view(names@))
                            &&& target_ok(r.target, names@.len())
                        }
                },
        decreases bodies@.len() - i,
    {
        let items = &bodies[i];
        let ghost iv = wf_items(ls[i as int]);
        assert(rows_view(items@) == iv);
        assert(wf_line_ok(ls[i as int]));
        proof {
            crate::text::lemma_split_nonempty(split_on(ls[i as int], 123)[1].drop_last(), 44);
        }
        let mut rules: Vec<Rule> = Vec::new();
        let mut k: usize = 0;
        while k < items.len() - 1
            invariant
                k < items@.len(),
                i < ls.len(),
                ls == rows_view(lines@),
                iv == wf_items(ls[i as int]),
                names@.len() == ls.len(),
                forall|j: int| 0 <= j < ls.len() ==> (#[trigger] names@[j])@ == wf_name(ls[j]),
                rows_view(items@) == iv,
                forall|t: int| 0 <= t < iv.len() - 1 ==> rule_ok(#[trigger] iv[t]),
                rules@.len() == k,
                forall|t: int|
                    0 <= t < k ==> {
                        let r = #[trigger] rules@[t];
                        &&& r.cat as nat == cat_code(iv[t][0])
                        &&& r.cat < 4
                        &&& r.greater == (iv[t][1] == 62)
                        &&& r.value as nat == dec_value(rule_rest(iv[t])[0])
                        &&& resolves(r.target, rule_rest(iv[t])[1], rows_view(names@))
                        &&& target_ok(r.target, names@.len())
                    },
            decreases items@.len() - k,
        {
            let it = &items[k];
            assert(it@ == iv[k as int]);
            assert(rule_ok(iv[k as int]));
            let rest = bytes_between(it, 2, it.len());
            let parts = split_bytes(rest.as_slice(), 58);
            assert(parts@[0]@ == rule_rest(it@)[0] && parts@[1]@ == rule_rest(it@)[1]);
            let v = match parse_u64(parts[0].as_slice()) {
                None => {
                    return None;
                },
                Some(v) => v,
            };
            let t = match resolve_target(&parts[1], &names) {
                None => {
                    proof {
                        lemma_unknown(parts@[1]@, names@, ls);
                        assert(!targets_known(ls, i as int));
                    }
                    return None;
                },
                Some(t) => t,
            };
            rules.push(Rule { cat: cat_code_exec(it[0]), greater: it[1] == 62, value: v, target: t });
            k += 1;
        }
        assert(items@[items@.len() - 1]@ == iv.last());
        let fallback = match resolve_target(&items[items.len() - 1], &names) {
            None => {
                proof {
                    lemma_unknown(items@[items@.len() - 1]@, names@, ls);
                    assert(!targets_known(ls, i as int));
                }
                return None;
            },
            Some(t) => t,
        };
        let ghost ws0 = ws@;
        ws.push(Workflow { rules, fallback });
        proof {
            assert forall|j: int| 0 <= j < i + 1 implies {
                let items = wf_items(#[trigger] ls[j]);
                &&& ws@[j].rules@.len() == items.len() - 1
                &&& resolves(ws@[j].fallback, items.last(), rows_view(names@))
                &&& target_ok(ws@[j].fallback, names@.len())
                &&& forall|k: int|
                    0 <= k < ws@[j].rules@.len() ==> {
                        let r = #[trigger] ws@[j].rules@[k];
                        &&& r.cat as nat == cat_code(items[k][0])
                        &&& r.cat < 4
                        &&& r.greater == (items[k][1] == 62)
                        &&& r.value as nat == dec_value(rule_rest(items[k])[0])
                        &&& resolves(r.target, rule_rest(items[k])[1], rows_view(names@))
                        &&& target_ok(r.target, names@.len())
                    }
            } by {
                if j < i {
                    assert(ws@[j] == ws0[j]);
                } else {
                    assert(ws@[j].rules@ == rules@);
                    assert(ls[j] == ls[i as int]);
                }
            }
        }
        i += 1;
    }
    proof {
        let fs = flows_view(ws@);
        assert forall|i: int| 0 <= i < fs.len() implies #[trigger] flow_ok(fs, i) by {
            assert(fs[i] == (ws@[i].rules@, ws@[i].fallback));
            let items = wf_items(ls[i]);
            assert(target_ok(ws@[i].fallback, names@.len()));
            assert forall|k: int| 0 <= k < fs[i].0.len() implies (#[trigger] fs[i].0[k]).cat < 4 && target_ok(fs[i].0[k].target, fs.len()) by {
                assert(fs[i].0[k] == ws@[i].rules@[k]);
                let r = ws@[i].rules@[k];
                assert(r.cat < 4 && target_ok(r.target, names@.len()));
            }
        }
    }
    proof {
        let nm = rows_view(names@);
        assert forall|j: int| 0 <= j < ls.len() implies #[trigger] nm[j] == wf_name(ls[j]) by {
            assert(nm[j] == names@[j]@);
        }
        assert forall|i: int| 0 <= i < ls.len() implies #[trigger] targets_known(ls, i) by {
            let items = wf_items(ls[i]);
            assert forall|k: int| 0 <= k < items.len() - 1 implies known(rule_rest(#[trigger] items[k])[1], ls) by {
                let r = ws@[i].rules@[k];
                lemma_resolves_known(r.target, rule_rest(items[k])[1], nm, ls);
            }
            lemma_resolves_known(ws@[i].fallback, items.last(), nm, ls);
        }
        assert forall|a: int, b: int| 0 <= a < b < ls.len() implies wf_name(#[trigger] ls[a]) != wf_name(#[trigger] ls[b]) by {
            assert(names@[a]@ != names@[b]@);
        }
    }
    Some((ws, names))
}


pub open spec fn part_items(l: Seq<u8>) -> Seq<Seq<u8>> {
    split_on(l.subrange(1, l.len() - 1), 44)
}

/// `<c>=<n>` with `c` a rating.
pub open spec fn rating_ok(it: Seq<u8>) -> bool {
    &&& it.len() >= 3
    &&& cat_code(it[0]) < 4
    &&& it[1] == 61
    &&& all_digits(it.subrange(2, it.len() as int))
    &&& dec_value(it.subrange(2, it.len() as int)) <= 0x1_0000_0000
}

/// `{x=..,m=..,a=..,s=..}`.
pub open spec fn part_ok(l: Seq<u8>) -> bool {
    &&& l.len() >= 2
    &&& l[0] == 123
    &&& l.last() == 125
    &&& forall|k: int| 0 <= k < part_items(l).len() ==> rating_ok(#[trigger] part_items(l)[k])
}

/// Rating `c` as the last of the first `n` items that sets it (0 when none
/// does).
pub open spec fn rating_upto(items: Seq<Seq<u8>>, c: nat, n: nat) -> nat
    decreases n,
{
    if n == 0 {
        0
    } else if cat_code(items[n - 1][0]) == c {
        dec_value(items[n - 1].subrange(2, items[n - 1].len() as int))
    } else {
        rating_upto(items, c, (n - 1) as nat)
    }
}

pub open spec fn rating(l: Seq<u8>, c: nat) -> nat {
    rating_upto(part_items(l), c, part_items(l).len())
}

/// Reads a part's four ratings.
pub fn parse_part(l: &Vec<u8>) -> (r: Option<Vec<u64>>)
    ensures
        r is Some <==> part_ok(l@),
        r is Some ==> r.unwrap()@.len() == 4 && forall|c: int| 0 <= c < 4 ==> #[trigger] r.unwrap()@[c] as nat == rating(l@, c as nat),
        r is Some ==> forall|c: int| 0 <= c < 4 ==> #[trigger] r.unwrap()@[c] <= 0x1_0000_0000,
{
    if l.len() < 2 || l[0] != 123 || l[l.len() - 1] != 125 {
        return None;
    }
    let inner = bytes_between(l, 1, l.len() - 1);
    let items = split_bytes(inner.as_slice(), 44);
    let ghost iv = part_items(l@);
    assert(rows_view(items@) == iv);
    let mut vals: Vec<u64> = vec![0u64, 0, 0, 0];
    let mut k: usize = 0;
    while k < items.len()
        invariant
            k <= items@.len(),
            rows_view(items@) == iv,
            iv == part_items(l@),
            vals@.len() == 4,
            forall|t: int| 0 <= t < k ==> rating_ok(#[trigger] iv[t]),
            forall|c: int| 0 <= c < 4 ==> #[trigger] vals@[c] as nat == rating_upto(iv, c as nat, k as nat),
            forall|c: int| 0 <= c < 4 ==> #[trigger] vals@[c] <= 0x1_0000_0000,
        decreases items@.len() - k,
    {
        let it = &items[k];
        assert(it@ == iv[k as int]);
        if it.len() < 3 || cat_code_exec(it[0]) >= 4 || it[1] != 61 {
            return None;
        }
        let digits = bytes_between(it, 2, it.len());
        let v = match parse_u64(digits.as_slice()) {
            None => {
                return None;
            },
            Some(v) => v,
        };
        if v > 0x1_0000_0000 {
            return None;
        }
        let c = cat_code_exec(it[0]);
        let ghost before = vals@;
        vals.set(c as usize, v);
        proof {
            assert forall|cc: int| 0 <= cc < 4 implies #[trigger] vals@[cc] as nat == rating_upto(iv, cc as nat, (k + 1) as nat) by {
                if cc != c {
                    assert(vals@[cc] == before[cc]);
                }
            }
            assert forall|cc: int| 0 <= cc < 4 implies #[trigger] vals@[cc] <= 0x1_0000_0000 by {
                if cc != c {
                    assert(vals@[cc] == before[cc]);
                }
            }
        }
        k += 1;
    }
    Some(vals)
}

/// Sum of the ratings of the accepted parts among the first `n` lines.
pub open spec fn accepted_sum(fs: Seq<(Seq<Rule>, Target)>, start: int, fuel: nat, ps: Seq<Seq<u8>>, n: nat) -> nat
    decreases n,
{
    if n == 0 {
        0
    } else {
        let l = ps[n - 1];
        let part = Seq::new(4, |c: int| rating(l, c as nat) as u64);
        accepted_sum(fs, start, fuel, ps, (n - 1) as nat) + if accepted(fs, part, start, fuel) == Some(true) {
            rating(l, 0) + rating(l, 1) + rating(l, 2) + rating(l, 3)
        } else {
            0
        }
    }
}

pub open spec fn in_name() -> Seq<u8> {
    seq![105u8, 110]
}

/// The workflows and parts of `input`, and the workflow named `in`.
/// Workflows, a blank line, parts; the workflows are well formed and one
/// is named `in`.
pub open spec fn system_ok(text: Seq<u8>) -> bool {
    let bs = patterns_of(text);
    &&& bs.len() == 2
    &&& workflows_ok(bs[0])
    &&& exists|j: int| 0 <= j < bs[0].len() && #[trigger] wf_name(bs[0][j]) == in_name()
}

fn read_system(input: &str) -> (r: Option<(Vec<Workflow>, Vec<Vec<u8>>, usize, Vec<Vec<u8>>)>)
    ensures
        r is Some <==> system_ok(input.spec_bytes()),
        r is Some ==> ({
            let (ws, names, start, parts) = r.unwrap();
            let bs = patterns_of(input.spec_bytes());
            &&& bs.len() == 2
            &&& reads(ws@, rows_view(names@), bs[0])
            &&& flows_ok(flows_view(ws@))
            &&& start < ws@.len()
            &&& names@[start as int]@ == in_name()
            &&& rows_view(parts@) == bs[1]
        }),
{
    let bs = parse_patterns(input);
    let ghost bv = patterns_of(input.spec_bytes());
    if bs.len() != 2 {
        return None;
    }
    assert(rows_view(bs@[0]@) == bv[0] && rows_view(bs@[1]@) == bv[1]);
    let (ws, names) = match parse_workflows(&bs[0]) {
        None => {
            return None;
        },
        Some(p) => p,
    };
    let in_lit: Vec<u8> = vec![105u8, 110];
    assert(in_lit@ == in_name());
    let start = match find_name(&names, in_lit.as_slice()) {
        None => {
            proof {
                let ls = bv[0];
                if exists|j: int| 0 <= j < ls.len() && #[trigger] wf_name(ls[j]) == in_name() {
                    let j = choose|j: int| 0 <= j < ls.len() && #[trigger] wf_name(ls[j]) == in_name();
                    assert(rows_view(names@)[j] == names@[j]@);
                }
            }
            return None;
        },
        Some(s) => s,
    };
    proof {
        assert(rows_view(names@)[start as int] == names@[start as int]@);
        assert(wf_name(bv[0][start as int]) == in_name());
    }
    let mut parts: Vec<Vec<u8>> = Vec::new();
    let mut i: usize = 0;
    while i < bs[1].len()
        invariant
            bs@.len() == 2,
            i <= bs@[1]@.len(),
            parts@.len() == i,
            forall|t: int| 0 <= t < i ==> (#[trigger] parts@[t])@ == bs@[1]@[t]@,
        decreases bs@[1]@.len() - i,
    {
        parts.push(copy_bytes(bs[1][i].as_slice()));
        i += 1;
    }
    assert(rows_view(parts@) =~= bv[1]);
    assert(ws@.len() == names@.len());
    Some((ws, names, start, parts))
}

pub open spec fn part_of(l: Seq<u8>) -> Seq<u64> {
    Seq::new(4, |c: int| rating(l, c as nat) as u64)
}

/// What the first question gives: the sum of the ratings of the accepted
/// parts, or nothing when a part line is malformed, a part goes round a
/// cycle, or the sum exceeds `u64::MAX`.
pub open spec fn sorting_outcome(fs: Seq<(Seq<Rule>, Target)>, start: int, ps: Seq<Seq<u8>>, r: Option<u64>) -> bool {
    let sum = accepted_sum(fs, start, fs.len(), ps, ps.len());
    match r {
        Some(v) => v == sum,
        None => (exists|i: int| 0 <= i < ps.len() && !part_ok(#[trigger] ps[i])) || (exists|i: int|
            0 <= i < ps.len() && #[trigger] accepted(fs, part_of(ps[i]), start, fs.len()) is None) || sum > u64::MAX,
    }
}

/// What the second question gives: the accepted combinations, or nothing
/// when a branch goes round a cycle or the count exceeds `u64::MAX`.
pub open spec fn combos_outcome(fs: Seq<(Seq<Rule>, Target)>, start: int, r: Option<u64>) -> bool {
    let lo = seq![1int, 1, 1, 1];
    let hi = seq![4000int, 4000, 4000, 4000];
    match r {
        Some(v) => v == combos(fs, start, 0, lo, hi, fs.len()),
        None => runs_dry(fs, start, 0, lo, hi, fs.len()) || combos(fs, start, 0, lo, hi, fs.len()) > u64::MAX,
    }
}

proof fn lemma_accepted_sum_grows(fs: Seq<(Seq<Rule>, Target)>, start: int, fuel: nat, ps: Seq<Seq<u8>>, i: nat, n: nat)
    requires
        i <= n,
    ensures
        accepted_sum(fs, start, fuel, ps, i) <= accepted_sum(fs, start, fuel, ps, n),
    decreases n - i,
{
    if i < n {
        lemma_accepted_sum_grows(fs, start, fuel, ps, i, (n - 1) as nat);
    }
}

/// Sum of the ratings of the accepted parts; `None` when the text is
/// malformed, has no workflow `in`, a part is sent round a cycle, or the
/// sum exceeds `u64::MAX`.
pub fn part1(input: &str) -> (r: Option<u64>)
    ensures
        !system_ok(input.spec_bytes()) ==> r is None,
        system_ok(input.spec_bytes()) ==> exists|ws: Seq<Workflow>, names: Seq<Seq<u8>>, start: int|
            #[trigger] reads(ws, names, patterns_of(input.spec_bytes())[0]) && 0 <= start < names.len() && #[trigger] names[start]
                == in_name() && sorting_outcome(flows_view(ws), start, patterns_of(input.spec_bytes())[1], r),
{
    let (ws, names, start, parts) = match read_system(input) {
        None => {
            return None;
        },
        Some(s) => s,
    };
    let ghost pv = rows_view(parts@);
    let ghost fs = flows_view(ws@);
    let ghost nm = rows_view(names@);
    let ghost bs = patterns_of(input.spec_bytes());
    assert(nm[start as int] == names@[start as int]@);
    assert(fs.len() == ws@.len());
    let mut acc: u64 = 0;
    let mut i: usize = 0;
    while i < parts.len()
        invariant
            i <= parts@.len(),
            pv == rows_view(parts@),
            fs == flows_view(ws@),
            flows_ok(fs),
            start < ws@.len(),
            fs.len() == ws@.len(),
            bs == patterns_of(input.spec_bytes()),
            pv == bs[1],
            reads(ws@, nm, bs[0]),
            start < nm.len(),
            nm[start as int] == in_name(),
            acc == accepted_sum(fs, start as int, ws@.len(), pv, i as nat),
        decreases parts@.len() - i,
    {
        assert(parts@[i as int]@ == pv[i as int]);
        let part = match parse_part(&parts[i]) {
            None => {
                assert(!part_ok(pv[i as int]));
                assert(sorting_outcome(fs, start as int, pv, None));
                return None;
            },
            Some(p) => p,
        };
        assert(part@ =~= Seq::new(4, |c: int| rating(pv[i as int], c as nat) as u64));
        assert(part@[0] <= 0x1_0000_0000 && part@[1] <= 0x1_0000_0000 && part@[2] <= 0x1_0000_0000 && part@[3] <= 0x1_0000_0000);
        assert(part@ == part_of(pv[i as int]));
        let ok = match is_accepted(&ws, &part, start, ws.len()) {
            None => {
                assert(accepted(fs, part_of(pv[i as int]), start as int, fs.len()) is None);
                assert(sorting_outcome(fs, start as int, pv, None));
                return None;
            },
            Some(b) => b,
        };
        if ok {
            let v = part[0] + part[1] + part[2] + part[3];
            if acc > u64::MAX - v {
                proof {
                    lemma_accepted_sum_grows(fs, start as int, fs.len(), pv, (i + 1) as nat, pv.len());
                }
                assert(sorting_outcome(fs, start as int, pv, None));
                return None;
            }
            acc = acc + v;
        }
        i += 1;
    }
    assert(sorting_outcome(fs, start as int, pv, Some(acc)));
    Some(acc)
}

/// Rating combinations from 1 to 4000 each that workflow `in` accepts;
/// `None` when the text is malformed, has no workflow `in`, a branch goes
/// round a cycle, or the count exceeds `u64::MAX`.
pub fn part2(input: &str) -> (r: Option<u64>)
    ensures
        !system_ok(input.spec_bytes()) ==> r is None,
        system_ok(input.spec_bytes()) ==> exists|ws: Seq<Workflow>, names: Seq<Seq<u8>>, start: int|
            #[trigger] reads(ws, names, patterns_of(input.spec_bytes())[0]) && 0 <= start < names.len() && #[trigger] names[start]
                == in_name() && combos_outcome(flows_view(ws), start, r),
{
    let (ws, names, start, _) = match read_system(input) {
        None => {
            return None;
        },
        Some(s) => s,
    };
    let lo: Vec<i64> = vec![1i64, 1, 1, 1];
    let hi: Vec<i64> = vec![4000i64, 4000, 4000, 4000];
    assert(ints(lo@) =~= seq![1int, 1, 1, 1]);
    assert(ints(hi@) =~= seq![4000int, 4000, 4000, 4000]);
    let r = combos_exec(&ws, start, 0, lo, hi, ws.len());
    proof {
        let nm = rows_view(names@);
        assert(nm[start as int] == names@[start as int]@);
        assert(combos_outcome(flows_view(ws@), start as int, r));
    }
    r
}

} // verus!
