//! Reading a module network from text, wiring conjunction inputs, and the
//! two answers computed on it.
use vstd::prelude::*;
use crate::arith::{all_positive, is_lcm_of, lcm_all, multiple_of_all};
use crate::pulse::{
    is_on, knows_sender, quiescent, senders_known,
    Circuit, Kind, KindView, Module, ModuleView, after, first_low_at, no_low_within, shortcut_total,
};
use crate::text::{content_lines, lemma_split_nonempty, rows_view, split_bytes, split_on};
use vstd::string::StringSliceAdditionalSpecFns;

verus! {

pub open spec fn broadcaster_name() -> Seq<u8> {
    seq![98u8, 114, 111, 97, 100, 99, 97, 115, 116, 101, 114]
}

pub open spec fn arrow() -> Seq<u8> {
    seq![45u8, 62]
}

/// Kind of a declaration head: 1 for `%`, 2 for `&`, 0 for the broadcaster.
pub open spec fn head_kind(h: Seq<u8>) -> u8 {
    if h.len() > 0 && h[0] == 37 {
        1
    } else if h.len() > 0 && h[0] == 38 {
        2
    } else {
        0
    }
}

pub open spec fn head_name(h: Seq<u8>) -> Seq<u8> {
    if head_kind(h) == 0 {
        h
    } else {
        h.drop_first()
    }
}

pub open spec fn head_ok(h: Seq<u8>) -> bool {
    if head_kind(h) == 0 {
        h == broadcaster_name()
    } else {
        h.len() >= 2
    }
}

/// Output name written by token `k` (from 2 on) of a declaration.
pub open spec fn out_name(t: Seq<Seq<u8>>, k: int) -> Seq<u8> {
    if k < t.len() - 1 {
        t[k].drop_last()
    } else {
        t[k]
    }
}

/// Every output but the last ends in a comma, and no name is empty.
pub open spec fn out_ok(t: Seq<Seq<u8>>, k: int) -> bool {
    if k < t.len() - 1 {
        t[k].len() >= 2 && t[k].last() == 44
    } else {
        t[k].len() >= 1 && t[k].last() != 44
    }
}

/// `<head> -> <out>, <out>, ...`, with at least one output.
pub open spec fn line_ok(l: Seq<u8>) -> bool {
    let t = split_on(l, 32);
    &&& t.len() >= 3
    &&& t[1] == arrow()
    &&& head_ok(t[0])
    &&& forall|k: int| 2 <= k < t.len() ==> #[trigger] out_ok(t, k)
}

pub open spec fn line_kind(l: Seq<u8>) -> u8 {
    head_kind(split_on(l, 32)[0])
}

pub open spec fn line_name(l: Seq<u8>) -> Seq<u8> {
    head_name(split_on(l, 32)[0])
}

pub open spec fn line_outputs(l: Seq<u8>) -> Seq<Seq<u8>> {
    let t = split_on(l, 32);
    Seq::new((t.len() - 2) as nat, |k: int| out_name(t, k + 2))
}

/// The text declares a network: every line is well formed, no name is
/// declared twice, and the broadcaster is among them.
pub open spec fn text_ok(text: Seq<u8>) -> bool {
    let ls = content_lines(text);
    &&& forall|i: int| 0 <= i < ls.len() ==> line_ok(#[trigger] ls[i])
    &&& forall|i: int, j: int|
        0 <= i < j < ls.len() ==> line_name(#[trigger] ls[i]) != line_name(#[trigger] ls[j])
    &&& exists|i: int| 0 <= i < ls.len() && line_kind(#[trigger] ls[i]) == 0
}

pub open spec fn kind_code(k: KindView) -> u8 {
    match k {
        KindView::Broadcaster => 0,
        KindView::FlipFlop(_) => 1,
        KindView::Conjunction(_, _) => 2,
        KindView::Sink => 3,
    }
}

pub open spec fn conj_inputs(m: ModuleView) -> Seq<usize> {
    match m.kind {
        KindView::Conjunction(inputs, _) => inputs,
        _ => Seq::empty(),
    }
}

/// Module `j` is wired: a conjunction remembers exactly the modules that
/// send to it, once each, all low; a flip-flop is off.
pub open spec fn wired_at(ms: Seq<ModuleView>, j: int) -> bool {
    match ms[j].kind {
        KindView::Conjunction(inputs, memory) => {
            &&& inputs.no_duplicates()
            &&& memory.len() == inputs.len()
            &&& forall|t: int| 0 <= t < memory.len() ==> !memory[t]
            &&& forall|x: usize|
                inputs.contains(x) <==> (x < ms.len() && #[trigger] ms[x as int].outputs.contains(
                    j as usize,
                ))
        },
        _ => true,
    }
}

/// Every module is wired.
pub open spec fn inputs_wired(ms: Seq<ModuleView>) -> bool {
    forall|j: int| 0 <= j < ms.len() ==> #[trigger] wired_at(ms, j)
}

/// The network that `lines` declare: module `i` is the one declared by line
/// `i`, every name is distinct, and the modules after the declared ones
/// are the undeclared destinations, as sinks.
pub open spec fn declares(c: Circuit, lines: Seq<Seq<u8>>) -> bool {
    let ms = c.state();
    let names = rows_view(c.names@);
    &&& c.wf()
    &&& names.len() == ms.len()
    &&& lines.len() <= ms.len()
    &&& c.broadcaster < lines.len()
    &&& line_kind(lines[c.broadcaster as int]) == 0
    &&& forall|i: int, j: int| 0 <= i < j < names.len() ==> names[i] != names[j]
    &&& forall|i: int| 0 <= i < ms.len() ==> (#[trigger] ms[i]).id == i
    &&& forall|i: int, k: int|
        0 <= i < ms.len() && 0 <= k < ms[i].outputs.len() ==> #[trigger] ms[i].outputs[k] < ms.len()
    &&& forall|i: int|
        0 <= i < lines.len() ==> {
            &&& names[i] == line_name(#[trigger] lines[i])
            &&& kind_code(ms[i].kind) == line_kind(lines[i])
            &&& ms[i].outputs.len() == line_outputs(lines[i]).len()
            &&& forall|k: int|
                0 <= k < ms[i].outputs.len() ==> names[#[trigger] ms[i].outputs[k] as int]
                    == line_outputs(lines[i])[k]
        }
    &&& forall|i: int|
        lines.len() <= i < ms.len() ==> (#[trigger] ms[i]).kind == KindView::Sink
            && ms[i].outputs.len() == 0
    &&& inputs_wired(ms)
    &&& quiescent(ms)
}

/// Whether two byte strings are equal.
pub fn bytes_eq(a: &[u8], b: &[u8]) -> (r: bool)
    ensures
        r == (a@ == b@),
{
    if a.len() != b.len() {
        return false;
    }
    let mut i: usize = 0;
    while i < a.len()
        invariant
            i <= a@.len(),
            a@.len() == b@.len(),
            forall|j: int| 0 <= j < i ==> a@[j] == b@[j],
        decreases a@.len() - i,
    {
        if a[i] != b[i] {
            return false;
        }
        i += 1;
    }
    assert(a@ == b@);
    true
}

/// Position of `name` in `names`, if it is there.
pub fn find_name(names: &Vec<Vec<u8>>, name: &[u8]) -> (r: Option<usize>)
    ensures
        r is Some ==> r.unwrap() < names@.len() && names@[r.unwrap() as int]@ == name@,
        r is None ==> forall|i: int| 0 <= i < names@.len() ==> names@[i]@ != name@,
{
    let mut i: usize = 0;
    while i < names.len()
        invariant
            i <= names@.len(),
            forall|j: int| 0 <= j < i ==> names@[j]@ != name@,
        decreases names@.len() - i,
    {
        if bytes_eq(names[i].as_slice(), name) {
            return Some(i);
        }
        i += 1;
    }
    None
}

/// Reads one declaration line: kind (0 broadcaster, 1 flip-flop,
/// 2 conjunction), name and output names.
pub fn parse_line(l: &[u8]) -> (r: Option<(u8, Vec<u8>, Vec<Vec<u8>>)>)
    ensures
        r is Some <==> line_ok(l@),
        r is Some ==> r.unwrap().0 == line_kind(l@) && r.unwrap().1@ == line_name(l@) && rows_view(
            r.unwrap().2@,
        ) == line_outputs(l@),
{
    let t = split_bytes(l, 32);
    let ghost tv = split_on(l@, 32);
    if t.len() < 3 {
        return None;
    }
    assert(t@[1]@ == tv[1]);
    let arrow_lit: Vec<u8> = vec![45u8, 62];
    assert(arrow_lit@ == arrow());
    if !bytes_eq(t[1].as_slice(), arrow_lit.as_slice()) {
        return None;
    }
    let head = &t[0];
    assert(head@ == tv[0]);
    let kind: u8 = if head.len() > 0 && head[0] == 37 {
        1
    } else if head.len() > 0 && head[0] == 38 {
        2
    } else {
        0
    };
    assert(head_kind(tv[0]) == kind);
    let mut name: Vec<u8> = Vec::new();
    if kind == 0 {
        let lit: Vec<u8> = vec![98u8, 114, 111, 97, 100, 99, 97, 115, 116, 101, 114];
        assert(lit@ == broadcaster_name());
        if !bytes_eq(head.as_slice(), lit.as_slice()) {
            assert(!head_ok(tv[0]));
            return None;
        }
        let mut i: usize = 0;
        while i < head.len()
            invariant
                i <= head@.len(),
                name@ == head@.take(i as int),
            decreases head@.len() - i,
        {
            name.push(head[i]);
            i += 1;
            assert(name@ == head@.take(i as int));
        }
        assert(head@.take(head@.len() as int) == head@);
    } else {
        if head.len() < 2 {
            assert(!head_ok(tv[0]));
            return None;
        }
        let mut i: usize = 1;
        while i < head.len()
            invariant
                1 <= i <= head@.len(),
                name@ == head@.subrange(1, i as int),
            decreases head@.len() - i,
        {
            name.push(head[i]);
            i += 1;
            assert(name@ == head@.subrange(1, i as int));
        }
    }
    let mut outs: Vec<Vec<u8>> = Vec::new();
    let mut k: usize = 2;
    while k < t.len()
        invariant
            2 <= k <= t@.len(),
            rows_view(t@) == tv,
            tv == split_on(l@, 32),
            outs@.len() == k - 2,
            forall|j: int| 2 <= j < k ==> out_ok(tv, j),
            forall|j: int| 0 <= j < k - 2 ==> (#[trigger] outs@[j])@ == out_name(tv, j + 2),
        decreases t@.len() - k,
    {
        let tok = &t[k];
        assert(tok@ == tv[k as int]);
        let last = k + 1 == t.len();
        if last {
            if tok.len() < 1 || tok[tok.len() - 1] == 44 {
                assert(!out_ok(tv, k as int));
                return None;
            }
        } else {
            if tok.len() < 2 || tok[tok.len() - 1] != 44 {
                assert(!out_ok(tv, k as int));
                return None;
            }
        }
        let end: usize = if last {
            tok.len()
        } else {
            tok.len() - 1
        };
        let mut o: Vec<u8> = Vec::new();
        let mut i: usize = 0;
        while i < end
            invariant
                end <= tok@.len(),
                i <= end,
                o@ == tok@.take(i as int),
            decreases end - i,
        {
            o.push(tok[i]);
            i += 1;
            assert(o@ == tok@.take(i as int));
        }
        assert(o@ == out_name(tv, k as int));
        outs.push(o);
        k += 1;
    }
    assert(line_ok(l@));
    assert(rows_view(outs@) == line_outputs(l@));
    Some((kind, name, outs))
}


/// Whether `x` occurs in `v`.
pub fn contains_id(v: &Vec<usize>, x: usize) -> (r: bool)
    ensures
        r == v@.contains(x),
{
    let mut i: usize = 0;
    while i < v.len()
        invariant
            i <= v@.len(),
            forall|j: int| 0 <= j < i ==> v@[j] != x,
        decreases v@.len() - i,
    {
        if v[i] == x {
            assert(v@[i as int] == x);
            return true;
        }
        i += 1;
    }
    false
}

/// Structure that wiring inputs leaves alone.
pub open spec fn same_shape(a: ModuleView, b: ModuleView) -> bool {
    &&& a.id == b.id
    &&& a.outputs == b.outputs
    &&& kind_code(a.kind) == kind_code(b.kind)
}

/// Every conjunction starts with no inputs and every flip-flop off.
pub open spec fn unwired(ms: Seq<ModuleView>) -> bool {
    forall|j: int|
        0 <= j < ms.len() ==> match #[trigger] ms[j].kind {
            KindView::Conjunction(inputs, memory) => inputs.len() == 0 && memory.len() == 0,
                _ => true,
        }
}

pub open spec fn outputs_in_range(ms: Seq<ModuleView>) -> bool {
    forall|i: int, k: int|
        0 <= i < ms.len() && 0 <= k < ms[i].outputs.len() ==> #[trigger] ms[i].outputs[k] < ms.len()
}

/// Module `x` sends to `j`, counting modules before `i` and the first `k`
/// outputs of module `i`.
pub open spec fn sends_before(orig: Seq<ModuleView>, x: usize, j: usize, i: int, k: int) -> bool {
    (x < i && orig[x as int].outputs.contains(j)) || (x == i && orig[i].outputs.take(k).contains(j))
}

pub open spec fn wired_upto(m: ModuleView, orig: Seq<ModuleView>, j: usize, i: int, k: int) -> bool {
    match m.kind {
        KindView::Conjunction(inputs, memory) => {
            &&& inputs.no_duplicates()
            &&& memory.len() == inputs.len()
            &&& forall|t: int| 0 <= t < memory.len() ==> !memory[t]
            &&& forall|x: usize| inputs.contains(x) <==> #[trigger] sends_before(orig, x, j, i, k)
        },
        _ => true,
    }
}

impl Module {
    /// Adds `sender` to a conjunction's inputs, remembered low, unless it is
    /// there already; other kinds are left alone.
    pub fn register_input(&mut self, sender: usize)
        requires
            old(self).wf(),
        ensures
            final(self).wf(),
            same_shape(final(self)@, old(self)@),
            match old(self)@.kind {
                KindView::Conjunction(inputs, memory) => if inputs.contains(sender) {
                    final(self)@ == old(self)@
                } else {
                    final(self)@.kind == KindView::Conjunction(inputs.push(sender), memory.push(false))
                },
                _ => final(self)@ == old(self)@,
            },
    {
        match &mut self.kind {
            Kind::Conjunction { inputs, memory } => {
                if !contains_id(inputs, sender) {
                    inputs.push(sender);
                    memory.push(false);
                }
            },
            _ => {},
        }
    }
}

proof fn lemma_wired_step(m: ModuleView, m2: ModuleView, orig: Seq<ModuleView>, j: usize, jt: usize, i: int, k: int)
    requires
        0 <= i < orig.len(),
        0 <= k < orig[i].outputs.len(),
        jt == orig[i].outputs[k],
        wired_upto(m, orig, j, i, k),
        i <= usize::MAX,
        j != jt ==> m2 == m,
        j == jt ==> match m.kind {
            KindView::Conjunction(inputs, memory) => if inputs.contains(i as usize) {
                m2 == m
            } else {
                m2.kind == KindView::Conjunction(inputs.push(i as usize), memory.push(false))
            },
            _ => m2 == m,
        },
    ensures
        wired_upto(m2, orig, j, i, k + 1),
{
    let pre = orig[i].outputs.take(k);
    assert(orig[i].outputs.take(k + 1) == pre.push(jt));
    assert forall|x: usize| #[trigger] sends_before(orig, x, j, i, k + 1) <==> (sends_before(orig, x, j, i, k) || (
    x == i && j == jt)) by {
        if pre.push(jt).contains(j) && j != jt {
            let w = choose|w: int| 0 <= w < k + 1 && #[trigger] pre.push(jt)[w] == j;
            assert(pre[w] == j);
        }
        if pre.contains(j) {
            let w = choose|w: int| 0 <= w < k && #[trigger] pre[w] == j;
            assert(pre.push(jt)[w] == j);
        }
        if j == jt {
            assert(pre.push(jt)[k] == j);
        }
    }
    match m.kind {
        KindView::Conjunction(inputs, memory) => {
            if j == jt && !inputs.contains(i as usize) {
                let ins = inputs.push(i as usize);
                let mem = memory.push(false);
                assert forall|x: usize| ins.contains(x) <==> #[trigger] sends_before(orig, x, j, i, k + 1) by {
                    if ins.contains(x) && x != i {
                        let w = choose|w: int| 0 <= w < ins.len() && #[trigger] ins[w] == x;
                        assert(inputs[w] == x);
                    }
                    if inputs.contains(x) {
                        let w = choose|w: int| 0 <= w < inputs.len() && #[trigger] inputs[w] == x;
                        assert(ins[w] == x);
                    }
                    if x == i {
                        assert(ins[inputs.len() as int] == x);
                    }
                }
                assert forall|t: int| 0 <= t < mem.len() implies !mem[t] by {}
                assert(ins.no_duplicates()) by {
                    assert forall|a: int, b: int| 0 <= a < ins.len() && 0 <= b < ins.len() && a != b implies ins[a] != ins[b] by {
                        if a < inputs.len() && b < inputs.len() {
                            assert(inputs[a] != inputs[b]);
                        } else if a < inputs.len() {
                            assert(inputs.contains(inputs[a]));
                        } else {
                            assert(inputs.contains(inputs[b]));
                        }
                    }
                }
            }
        },
        _ => {},
    }
}

impl Module {
    /// Forgets a conjunction's inputs and memory; other kinds are left alone.
    pub fn clear_inputs(&mut self)
        requires
            old(self).wf(),
        ensures
            final(self).wf(),
            same_shape(final(self)@, old(self)@),
            is_on(final(self)@) == is_on(old(self)@),
            match old(self)@.kind {
                KindView::Conjunction(_, _) => final(self)@.kind == KindView::Conjunction(Seq::empty(), Seq::empty()),
                _ => final(self)@ == old(self)@,
            },
    {
        match &mut self.kind {
            Kind::Conjunction { inputs, memory } => {
                *inputs = Vec::new();
                *memory = Vec::new();
            },
            _ => {},
        }
    }
}

/// Seeds the memory of every conjunction with one low entry per module that
/// sends to it, replacing what it held before.
pub fn add_inputs(c: &mut Circuit)
    requires
        old(c).modules_wf(),
        outputs_in_range(old(c).state()),
    ensures
        final(c).modules_wf(),
        final(c).names == old(c).names,
        final(c).broadcaster == old(c).broadcaster,
        final(c).state().len() == old(c).state().len(),
        forall|i: int|
            0 <= i < old(c).state().len() ==> same_shape(#[trigger] final(c).state()[i], old(c).state()[i]),
        forall|i: int| 0 <= i < old(c).state().len() ==> is_on(#[trigger] final(c).state()[i]) == is_on(old(c).state()[i]),
        inputs_wired(final(c).state()),
{
    let ghost orig = c.state();
    let n = c.modules.len();
    let mut j: usize = 0;
    while j < n
        invariant
            j <= n == orig.len(),
            orig == old(c).state(),
            c.names == old(c).names,
            c.broadcaster == old(c).broadcaster,
            c.modules_wf(),
            c.state().len() == n,
            forall|x: int| 0 <= x < n ==> same_shape(#[trigger] c.state()[x], orig[x]),
            forall|x: int| 0 <= x < n ==> is_on(#[trigger] c.state()[x]) == is_on(orig[x]),
            forall|x: int| 0 <= x < j ==> match (#[trigger] c.state()[x]).kind {
                KindView::Conjunction(inputs, memory) => inputs.len() == 0 && memory.len() == 0,
                _ => true,
            },
        decreases n - j,
    {
        let ghost before = c.state();
        assert(c.modules@[j as int].wf());
        c.modules[j].clear_inputs();
        proof {
            assert forall|x: int| 0 <= x < n && x != j implies c.state()[x] == before[x] by {}
            assert forall|x: int| 0 <= x < n implies same_shape(#[trigger] c.state()[x], orig[x]) && is_on(c.state()[x]) == is_on(orig[x]) by {
                assert(same_shape(before[x], orig[x]) && is_on(before[x]) == is_on(orig[x]));
                if x != j {
                    assert(c.state()[x] == before[x]);
                }
            }
            assert forall|x: int| 0 <= x < j + 1 implies match (#[trigger] c.state()[x]).kind {
                KindView::Conjunction(inputs, memory) => inputs.len() == 0 && memory.len() == 0,
                _ => true,
            } by {
                if x != j {
                    assert(c.state()[x] == before[x]);
                }
            }
            assert forall|x: int| 0 <= x < n implies #[trigger] c.modules@[x].wf() by {
                if x != j {
                    assert(c.state()[x] == before[x]);
                    assert(before[x] == c.modules@[x]@);
                }
            }
        }
        j += 1;
    }
    proof {
        let ms = c.state();
        assert(outputs_in_range(ms)) by {
            assert forall|x: int, k: int| 0 <= x < ms.len() && 0 <= k < ms[x].outputs.len() implies #[trigger] ms[x].outputs[k] < ms.len() by {
                assert(same_shape(ms[x], orig[x]));
            }
        }
        assert(unwired(ms)) by {
            assert forall|x: int| 0 <= x < ms.len() implies match #[trigger] ms[x].kind {
                KindView::Conjunction(inputs, memory) => inputs.len() == 0 && memory.len() == 0,
                _ => true,
            } by {}
        }
    }
    let ghost mid = c.state();
    wire_inputs(c);
    proof {
        assert forall|i: int| 0 <= i < orig.len() implies same_shape(#[trigger] c.state()[i], orig[i]) by {
            assert(same_shape(c.state()[i], mid[i]));
            assert(same_shape(mid[i], orig[i]));
        }
        assert forall|i: int| 0 <= i < orig.len() implies is_on(#[trigger] c.state()[i]) == is_on(orig[i]) by {
            assert(is_on(c.state()[i]) == is_on(mid[i]));
            assert(is_on(mid[i]) == is_on(orig[i]));
        }
    }
}

/// Seeds the memory of every conjunction, none wired yet, with one low entry
/// per module that sends to it.
fn wire_inputs(c: &mut Circuit)
    requires
        old(c).modules_wf(),
        unwired(old(c).state()),
        outputs_in_range(old(c).state()),
    ensures
        final(c).modules_wf(),
        final(c).names == old(c).names,
        final(c).broadcaster == old(c).broadcaster,
        final(c).state().len() == old(c).state().len(),
        forall|i: int|
            0 <= i < old(c).state().len() ==> same_shape(#[trigger] final(c).state()[i], old(c).state()[i]),
        inputs_wired(final(c).state()),
        forall|i: int| 0 <= i < old(c).state().len() ==> is_on(#[trigger] final(c).state()[i]) == is_on(old(c).state()[i]),
{
    let ghost orig = c.state();
    let n = c.modules.len();
    proof {
        assert forall|j: int| 0 <= j < n implies wired_upto(#[trigger] c.state()[j], orig, j as usize, 0, 0) by {
            match c.state()[j].kind {
                KindView::Conjunction(inputs, memory) => {
                    assert(inputs.len() == 0);
                    assert forall|x: usize| inputs.contains(x) <==> #[trigger] sends_before(orig, x, j as usize, 0, 0) by {
                        assert(orig[0].outputs.take(0).len() == 0);
                    }
                },
                _ => {},
            }
        }
    }
    let mut i: usize = 0;
    while i < n
        invariant
            n == orig.len(),
            i <= n,
            c.modules_wf(),
            c.names == old(c).names,
            c.broadcaster == old(c).broadcaster,
            orig == old(c).state(),
            outputs_in_range(orig),
            c.state().len() == n,
            forall|x: int| 0 <= x < n ==> same_shape(#[trigger] c.state()[x], orig[x]),
            forall|x: int| 0 <= x < n ==> is_on(#[trigger] c.state()[x]) == is_on(orig[x]),
            forall|j: int| 0 <= j < n ==> wired_upto(#[trigger] c.state()[j], orig, j as usize, i as int, 0),
        decreases n - i,
    {
        assert(same_shape(c.state()[i as int], orig[i as int]));
        let len_i = c.modules[i].outputs.len();
        let mut k: usize = 0;
        while k < len_i
            invariant
                n == orig.len(),
                i < n,
                k <= len_i,
                len_i == orig[i as int].outputs.len(),
                c.modules_wf(),
                c.names == old(c).names,
                c.broadcaster == old(c).broadcaster,
                outputs_in_range(orig),
                c.state().len() == n,
                forall|x: int| 0 <= x < n ==> same_shape(#[trigger] c.state()[x], orig[x]),
                forall|x: int| 0 <= x < n ==> is_on(#[trigger] c.state()[x]) == is_on(orig[x]),
                forall|j: int| 0 <= j < n ==> wired_upto(#[trigger] c.state()[j], orig, j as usize, i as int, k as int),
            decreases len_i - k,
        {
            assert(same_shape(c.state()[i as int], orig[i as int]));
            let j = c.modules[i].outputs[k];
            assert(j == orig[i as int].outputs[k as int]);
            assert(j < n);
            let ghost before = c.state();
            assert(c.modules@[j as int].wf());
            c.modules[j].register_input(i);
            proof {
                assert forall|x: int| 0 <= x < n implies is_on(#[trigger] c.state()[x]) == is_on(orig[x]) by {
                    assert(is_on(before[x]) == is_on(orig[x]));
                    if x != j {
                        assert(c.state()[x] == before[x]);
                    } else {
                        assert(is_on(c.state()[x]) == is_on(before[x]));
                    }
                }
                assert forall|x: int| 0 <= x < n implies same_shape(#[trigger] c.state()[x], orig[x]) by {
                    if x != j {
                        assert(c.state()[x] == before[x]);
                    } else {
                        assert(same_shape(before[x], orig[x]));
                    }
                }
                assert forall|jj: int| 0 <= jj < n implies #[trigger] c.modules@[jj].wf() by {
                    if jj != j {
                        assert(c.state()[jj] == before[jj]);
                        assert(before[jj] == c.modules@[jj]@);
                    }
                }
                assert forall|jj: int| 0 <= jj < n implies wired_upto(#[trigger] c.state()[jj], orig, jj as usize, i as int, k + 1) by {
                    assert(wired_upto(before[jj], orig, jj as usize, i as int, k as int));
                    lemma_wired_step(before[jj], c.state()[jj], orig, jj as usize, j, i as int, k as int);
                }
            }
            k += 1;
        }
        proof {
            assert(orig[i as int].outputs.take(len_i as int) == orig[i as int].outputs);
            assert(orig[i as int].outputs.take(0).len() == 0);
            assert forall|j: int| 0 <= j < n implies wired_upto(#[trigger] c.state()[j], orig, j as usize, i + 1, 0) by {
                assert(wired_upto(c.state()[j], orig, j as usize, i as int, len_i as int));
                assert forall|x: usize| #[trigger] sends_before(orig, x, j as usize, i + 1, 0) == sends_before(orig, x, j as usize, i as int, len_i as int) by {}
            }
        }
        i += 1;
    }
    proof {
        let ms = c.state();
        assert forall|j: int| 0 <= j < n implies #[trigger] wired_at(ms, j) by {
            assert(wired_upto(ms[j], orig, j as usize, n as int, 0));
            match ms[j].kind {
                KindView::Conjunction(inputs, memory) => {
                    assert forall|x: usize| #[trigger] inputs.contains(x) implies (x < ms.len() && ms[x as int].outputs.contains(j as usize)) by {
                        assert(sends_before(orig, x, j as usize, n as int, 0));
                        if x < n {
                            assert(same_shape(ms[x as int], orig[x as int]));
                        } else if x == n {
                            assert(orig[n as int].outputs.take(0).len() == 0);
                        }
                    }
                    assert forall|x: usize| (x < ms.len() && #[trigger] ms[x as int].outputs.contains(j as usize)) implies inputs.contains(x) by {
                        assert(same_shape(ms[x as int], orig[x as int]));
                        assert(sends_before(orig, x, j as usize, n as int, 0));
                    }
                    assert(inputs.no_duplicates());
                    assert(memory.len() == inputs.len());
                    assert(forall|t: int| 0 <= t < memory.len() ==> !memory[t]);
                    assert(ms[j].kind == KindView::Conjunction(inputs, memory));
                    assert(forall|x: usize| inputs.contains(x) <==> (x < ms.len() && #[trigger] ms[x as int].outputs.contains(j as usize)));
                    assert(wired_at(ms, j));
                },
                _ => {
                    assert(wired_at(ms, j));
                },
            }
        }
    }
}


/// A copy of a byte string.
pub fn copy_bytes(v: &[u8]) -> (r: Vec<u8>)
    ensures
        r@ == v@,
{
    let mut r: Vec<u8> = Vec::new();
    let mut i: usize = 0;
    while i < v.len()
        invariant
            i <= v@.len(),
            r@ == v@.take(i as int),
        decreases v@.len() - i,
    {
        r.push(v[i]);
        i += 1;
        assert(r@ == v@.take(i as int));
    }
    assert(v@.take(v@.len() as int) == v@);
    r
}

pub open spec fn distinct_names(names: Seq<Vec<u8>>) -> bool {
    forall|a: int, b: int| 0 <= a < b < names.len() ==> names[a]@ != names[b]@
}

/// The module ids of `outs`, adding each name not yet known at the end of
/// `names`.
fn resolve(names: &mut Vec<Vec<u8>>, outs: &Vec<Vec<u8>>) -> (ids: Vec<usize>)
    requires
        distinct_names(old(names)@),
    ensures
        distinct_names(final(names)@),
        final(names)@.len() >= old(names)@.len(),
        forall|t: int| 0 <= t < old(names)@.len() ==> #[trigger] final(names)@[t] == old(names)@[t],
        ids@.len() == outs@.len(),
        forall|k: int|
            0 <= k < ids@.len() ==> #[trigger] ids@[k] < final(names)@.len() && final(names)@[ids@[k] as int]@
                == outs@[k]@,
{
    let mut ids: Vec<usize> = Vec::new();
    let mut k: usize = 0;
    while k < outs.len()
        invariant
            k <= outs@.len(),
            distinct_names(names@),
            names@.len() >= old(names)@.len(),
            forall|t: int| 0 <= t < old(names)@.len() ==> #[trigger] names@[t] == old(names)@[t],
            ids@.len() == k,
            forall|m: int| 0 <= m < k ==> #[trigger] ids@[m] < names@.len() && names@[ids@[m] as int]@ == outs@[m]@,
        decreases outs@.len() - k,
    {
        let o = &outs[k];
        match find_name(names, o.as_slice()) {
            Some(id) => {
                ids.push(id);
            },
            None => {
                let ghost before = names@;
                names.push(copy_bytes(o.as_slice()));
                proof {
                    assert forall|a: int, b: int| 0 <= a < b < names@.len() implies names@[a]@ != names@[b]@ by {
                        if b == before.len() {
                            assert(before[a]@ != o@);
                        } else {
                            assert(before[a]@ != before[b]@);
                        }
                    }
                }
                ids.push(names.len() - 1);
            },
        }
        k += 1;
    }
    ids
}

/// Reads a network: one line per module, `broadcaster -> a, b`, `%a -> b`
/// (flip-flop) or `&c -> a` (conjunction). Module `i` is the one declared
/// on line `i`; destinations that no line declares follow as sinks. The
/// conjunctions' inputs are wired. `None` when a line is malformed, a name
/// is declared twice, or the broadcaster is missing.
pub fn parse_circuit(input: &str) -> (r: Option<Circuit>)
    ensures
        r is Some <==> text_ok(input.spec_bytes()),
        r is Some ==> declares(r.unwrap(), content_lines(input.spec_bytes())),
{
    let text = input.as_bytes();
    let ghost ls = content_lines(text@);
    let mut lines = split_bytes(text, 10);
    proof {
        lemma_split_nonempty(text@, 10);
    }
    if lines[lines.len() - 1].len() == 0 {
        lines.pop();
    }
    assert(rows_view(lines@) == ls);
    let nl = lines.len();
    let mut kinds: Vec<u8> = Vec::new();
    let mut names: Vec<Vec<u8>> = Vec::new();
    let mut outs: Vec<Vec<Vec<u8>>> = Vec::new();
    let mut bcast: Option<usize> = None;
    let mut i: usize = 0;
    while i < nl
        invariant
            nl == lines@.len() == ls.len(),
            rows_view(lines@) == ls,
            ls == content_lines(input.spec_bytes()),
            i <= nl,
            kinds@.len() == i,
            names@.len() == i,
            outs@.len() == i,
            distinct_names(names@),
            forall|j: int| 0 <= j < i ==> line_ok(#[trigger] ls[j]),
            forall|j: int| 0 <= j < i ==> kinds@[j] == line_kind(#[trigger] ls[j]),
            forall|j: int| 0 <= j < i ==> names@[j]@ == line_name(#[trigger] ls[j]),
            forall|j: int| 0 <= j < i ==> rows_view(outs@[j]@) == line_outputs(#[trigger] ls[j]),
            bcast is Some ==> bcast.unwrap() < i && line_kind(ls[bcast.unwrap() as int]) == 0,
            bcast is None ==> forall|j: int| 0 <= j < i ==> line_kind(#[trigger] ls[j]) != 0,
        decreases nl - i,
    {
        assert(lines@[i as int]@ == ls[i as int]);
        match parse_line(lines[i].as_slice()) {
            None => {
                return None;
            },
            Some((k, name, o)) => {
                match find_name(&names, name.as_slice()) {
                    Some(j) => {
                        assert(line_name(ls[j as int]) == line_name(ls[i as int]));
                        return None;
                    },
                    None => {},
                }
                if k == 0 {
                    bcast = Some(i);
                }
                let ghost before = names@;
                kinds.push(k);
                names.push(name);
                outs.push(o);
                proof {
                    assert forall|a: int, b: int| 0 <= a < b < names@.len() implies names@[a]@ != names@[b]@ by {
                        if b == i {
                            assert(before[a]@ != names@[b]@);
                        } else {
                            assert(before[a]@ != before[b]@);
                        }
                    }
                }
            },
        }
        i += 1;
    }
    let b = match bcast {
        None => {
            return None;
        },
        Some(b) => b,
    };
    assert(text_ok(text@)) by {
        assert forall|x: int, y: int| 0 <= x < y < ls.len() implies line_name(#[trigger] ls[x]) != line_name(#[trigger] ls[y]) by {
            assert(names@[x]@ != names@[y]@);
        }
    }
    let mut modules: Vec<Module> = Vec::new();
    let mut m: usize = 0;
    while m < nl
        invariant
            nl == ls.len() == kinds@.len() == outs@.len(),
            nl <= names@.len(),
            m <= nl,
            modules@.len() == m,
            distinct_names(names@),
            forall|j: int| 0 <= j < nl ==> kinds@[j] == line_kind(#[trigger] ls[j]),
            forall|j: int| 0 <= j < nl ==> names@[j]@ == line_name(#[trigger] ls[j]),
            forall|j: int| 0 <= j < nl ==> rows_view(outs@[j]@) == line_outputs(#[trigger] ls[j]),
            forall|j: int| 0 <= j < nl ==> line_ok(#[trigger] ls[j]),
            forall|j: int|
                0 <= j < m ==> {
                    &&& (#[trigger] modules@[j])@.id == j
                    &&& modules@[j].wf()
                    &&& kind_code(modules@[j]@.kind) == line_kind(ls[j])
                    &&& modules@[j]@.outputs.len() == line_outputs(ls[j]).len()
                    &&& forall|k: int|
                        0 <= k < modules@[j]@.outputs.len() ==> #[trigger] modules@[j]@.outputs[k] < names@.len()
                            && names@[modules@[j]@.outputs[k] as int]@ == line_outputs(ls[j])[k]
                    &&& match modules@[j]@.kind {
                        KindView::Conjunction(inputs, memory) => inputs.len() == 0 && memory.len() == 0,
                        KindView::FlipFlop(on) => !on,
                        KindView::Sink => false,
                        _ => true,
                    }
                },
        decreases nl - m,
    {
        let ghost before = names@;
        let ids = resolve(&mut names, &outs[m]);
        proof {
            assert forall|j: int| 0 <= j < nl implies names@[j]@ == line_name(#[trigger] ls[j]) by {
                assert(names@[j] == before[j]);
            }
            assert forall|j: int, k: int| 0 <= j < m && 0 <= k < modules@[j]@.outputs.len() implies
                #[trigger] modules@[j]@.outputs[k] < names@.len() && names@[modules@[j]@.outputs[k] as int]@ == line_outputs(ls[j])[k] by {
                assert(names@[modules@[j]@.outputs[k] as int] == before[modules@[j]@.outputs[k] as int]);
            }
            assert(rows_view(outs@[m as int]@) == line_outputs(ls[m as int]));
            assert forall|k: int| 0 <= k < ids@.len() implies #[trigger] ids@[k] < names@.len()
                && names@[ids@[k] as int]@ == line_outputs(ls[m as int])[k] by {
                assert(outs@[m as int]@[k]@ == rows_view(outs@[m as int]@)[k]);
            }
        }
        let kind = if kinds[m] == 1 {
            Kind::FlipFlop { on: false }
        } else if kinds[m] == 2 {
            Kind::Conjunction { inputs: Vec::new(), memory: Vec::new() }
        } else {
            Kind::Broadcaster
        };
        assert(line_kind(ls[m as int]) <= 2);
        modules.push(Module { id: m, outputs: ids, kind });
        m += 1;
    }
    let total = names.len();
    while m < total
        invariant
            nl <= m <= total,
            total == names@.len(),
            modules@.len() == m,
            forall|j: int| nl <= j < m ==> (#[trigger] modules@[j])@.id == j && modules@[j]@.kind == KindView::Sink
                && modules@[j]@.outputs.len() == 0,
            forall|j: int|
                0 <= j < nl ==> {
                    &&& (#[trigger] modules@[j])@.id == j
                    &&& modules@[j].wf()
                    &&& kind_code(modules@[j]@.kind) == line_kind(ls[j])
                    &&& modules@[j]@.outputs.len() == line_outputs(ls[j]).len()
                    &&& forall|k: int|
                        0 <= k < modules@[j]@.outputs.len() ==> #[trigger] modules@[j]@.outputs[k] < names@.len()
                            && names@[modules@[j]@.outputs[k] as int]@ == line_outputs(ls[j])[k]
                    &&& match modules@[j]@.kind {
                        KindView::Conjunction(inputs, memory) => inputs.len() == 0 && memory.len() == 0,
                        KindView::FlipFlop(on) => !on,
                        KindView::Sink => false,
                        _ => true,
                    }
                },
        decreases total - m,
    {
        modules.push(Module { id: m, outputs: Vec::new(), kind: Kind::Sink });
        m += 1;
    }
    let mut c = Circuit { modules, names, broadcaster: b };
    proof {
        let ms = c.state();
        assert forall|j: int| 0 <= j < ms.len() implies #[trigger] c.modules@[j].wf() by {
            if j < nl {
                assert(c.modules@[j].wf());
            }
        }
        assert(unwired(ms)) by {
            assert forall|j: int| 0 <= j < ms.len() implies match #[trigger] ms[j].kind {
                KindView::Conjunction(inputs, memory) => inputs.len() == 0 && memory.len() == 0,
                _ => true,
            } by {
                assert(ms[j] == c.modules@[j]@);
            }
        }
        assert(outputs_in_range(ms)) by {
            assert forall|x: int, k: int| 0 <= x < ms.len() && 0 <= k < ms[x].outputs.len() implies #[trigger] ms[x].outputs[k] < ms.len() by {
                assert(ms[x] == c.modules@[x]@);
            }
        }
    }
    let ghost pre = c.state();
    wire_inputs(&mut c);
    proof {
        let ms = c.state();
        let names_v = rows_view(c.names@);
        assert forall|x: int| 0 <= x < ms.len() implies (#[trigger] ms[x]).id == x by {
            assert(same_shape(ms[x], pre[x]));
        }
        assert forall|a: int, bb: int| 0 <= a < bb < names_v.len() implies names_v[a] != names_v[bb] by {
            assert(c.names@[a]@ != c.names@[bb]@);
        }
        assert forall|x: int, k: int| 0 <= x < ms.len() && 0 <= k < ms[x].outputs.len() implies #[trigger] ms[x].outputs[k] < ms.len() by {
            assert(same_shape(ms[x], pre[x]));
        }
        assert forall|x: int| 0 <= x < ls.len() implies {
            &&& names_v[x] == line_name(#[trigger] ls[x])
            &&& kind_code(ms[x].kind) == line_kind(ls[x])
            &&& ms[x].outputs.len() == line_outputs(ls[x]).len()
            &&& forall|k: int|
                0 <= k < ms[x].outputs.len() ==> names_v[#[trigger] ms[x].outputs[k] as int]
                    == line_outputs(ls[x])[k]
        } by {
            assert(same_shape(ms[x], pre[x]));
        }
        assert forall|x: int| ls.len() <= x < ms.len() implies (#[trigger] ms[x]).kind == KindView::Sink
            && ms[x].outputs.len() == 0 by {
            assert(same_shape(ms[x], pre[x]));
        }
    }
    proof {
        let ms = c.state();
        assert(kind_code(ms[c.broadcaster as int].kind) == 0);
        assert forall|x: int, j: int|
            0 <= x < ms.len() && 0 <= j < ms.len() && (#[trigger] ms[x].outputs).contains(j as usize) implies knows_sender(
            #[trigger] ms[j],
            x as usize,
        ) by {
            assert(wired_at(ms, j));
        }
        assert(senders_known(ms, c.broadcaster));
        assert forall|i: int| 0 <= i < ms.len() implies !is_on(#[trigger] ms[i]) by {
            assert(is_on(ms[i]) == is_on(pre[i]));
        }
    }
    Some(c)
}


/// Button presses simulated for the pulse totals.
pub const TOTAL_PRESSES: usize = 1000;

/// Most button presses tried while waiting for the watched modules.
pub const MAX_WATCH_PRESSES: u64 = 1000000;

/// Module `x` sends to module `t`.
pub open spec fn feeds(ms: Seq<ModuleView>, x: int, t: usize) -> bool {
    0 <= x < ms.len() && ms[x].outputs.contains(t)
}

/// `r` lists, in increasing order, the modules that send to `t`.
pub open spec fn is_feeders(ms: Seq<ModuleView>, t: usize, r: Seq<usize>) -> bool {
    &&& forall|a: int, b: int| 0 <= a < b < r.len() ==> r[a] < r[b]
    &&& forall|x: usize| r.contains(x) <==> #[trigger] feeds(ms, x as int, t)
}

/// The modules that send to `t`, in increasing order.
pub fn feeders(c: &Circuit, t: usize) -> (r: Vec<usize>)
    ensures
        is_feeders(c.state(), t, r@),
{
    let ghost ms = c.state();
    let mut r: Vec<usize> = Vec::new();
    let mut x: usize = 0;
    while x < c.modules.len()
        invariant
            ms == c.state(),
            x <= ms.len(),
            forall|a: int, b: int| 0 <= a < b < r@.len() ==> r@[a] < r@[b],
            forall|a: int| 0 <= a < r@.len() ==> r@[a] < x,
            forall|y: usize| r@.contains(y) <==> (y < x && #[trigger] feeds(ms, y as int, t)),
        decreases ms.len() - x,
    {
        assert(c.modules@[x as int]@ == ms[x as int]);
        let ghost before = r@;
        if contains_id(&c.modules[x].outputs, t) {
            r.push(x);
            proof {
                assert forall|y: usize| r@.contains(y) <==> (y < x + 1 && #[trigger] feeds(ms, y as int, t)) by {
                    if r@.contains(y) && y != x {
                        let w = choose|w: int| 0 <= w < r@.len() && r@[w] == y;
                        assert(before[w] == y);
                    }
                    if before.contains(y) {
                        let w = choose|w: int| 0 <= w < before.len() && before[w] == y;
                        assert(r@[w] == y);
                    }
                    if y == x {
                        assert(r@[before.len() as int] == y);
                    }
                }
            }
        } else {
            proof {
                assert forall|y: usize| r@.contains(y) <==> (y < x + 1 && #[trigger] feeds(ms, y as int, t)) by {
                    if r@.contains(y) {
                        let w = choose|w: int| 0 <= w < r@.len() && r@[w] == y;
                        assert(r@[w] < x);
                    }
                }
            }
        }
        x += 1;
    }
    proof {
        assert forall|y: usize| r@.contains(y) <==> #[trigger] feeds(ms, y as int, t) by {
            if feeds(ms, y as int, t) {
                assert(y < ms.len());
            }
        }
    }
    r
}

/// Product of the high and the low pulse totals over `presses` presses, as
/// `Circuit::pulse_totals` reckons them; `None` when a simulated press
/// exceeds the pulse limit or the product exceeds `u64::MAX`.
pub fn pulse_product(c: &mut Circuit, presses: usize) -> (r: Option<u64>)
    requires
        old(c).wf(),
        presses >= 1,
    ensures
        r is Some <==> after(
            old(c).state(),
            old(c).broadcaster,
            crate::pulse::period(old(c).state(), old(c).broadcaster, presses as nat),
        ) is Some && shortcut_total(old(c).state(), old(c).broadcaster, presses as nat, true)
            * shortcut_total(old(c).state(), old(c).broadcaster, presses as nat, false) <= u64::MAX,
        r is Some ==> r.unwrap() == shortcut_total(old(c).state(), old(c).broadcaster, presses as nat, true)
            * shortcut_total(old(c).state(), old(c).broadcaster, presses as nat, false),
{
    match c.pulse_totals(presses) {
        None => None,
        Some((h, l)) => {
            if h > 0 && l > (u64::MAX as u128) / h {
                assert(h * l > u64::MAX) by (nonlinear_arith)
                    requires h > 0, l > (u64::MAX as u128) / h;
                None
            } else {
                assert(h * l <= u64::MAX) by (nonlinear_arith)
                    requires h == 0 || l <= (u64::MAX as u128) / h;
                Some((h * l) as u64)
            }
        },
    }
}

/// Watched module `k` first receives a low pulse during press `ps[k]`, for
/// every `k`.
pub open spec fn first_lows(ms: Seq<ModuleView>, b: usize, watches: Seq<usize>, ps: Seq<u64>) -> bool {
    &&& ps.len() == watches.len()
    &&& forall|k: int| 0 <= k < ps.len() ==> #[trigger] first_low_at(ms, b, watches[k], ps[k] as nat)
}

/// The first press after which every watched module has, at some press,
/// first received a low pulse in step: the least common multiple of the
/// presses at which each first does. `None` when some watched module gets no
/// low pulse within `max_presses`, a press exceeds the pulse limit, or the
/// multiple exceeds `u64::MAX`.
pub fn combined_period(c: &mut Circuit, watches: &Vec<usize>, max_presses: u64) -> (r: Option<u64>)
    requires
        old(c).wf(),
    ensures
        r is Some ==> exists|ps: Seq<u64>|
            first_lows(old(c).state(), old(c).broadcaster, watches@, ps) && #[trigger] is_lcm_of(
                ps,
                r.unwrap() as int,
            ),
        r is None ==> (exists|k: int|
            0 <= k < watches@.len() && #[trigger] no_low_within(
                old(c).state(),
                old(c).broadcaster,
                watches@[k],
                max_presses as nat,
            )) || exists|ps: Seq<u64>|
            first_lows(old(c).state(), old(c).broadcaster, watches@, ps) && forall|m: int|
                0 < m <= u64::MAX ==> !#[trigger] multiple_of_all(ps, m),
{
    let ghost s0 = c.state();
    let ghost b = c.broadcaster;
    match c.first_low_presses(watches, max_presses) {
        None => None,
        Some(ps) => {
            assert(first_lows(s0, b, watches@, ps@));
            assert(all_positive(ps@)) by {
                assert forall|k: int| 0 <= k < ps@.len() implies #[trigger] ps@[k] > 0 by {
                    assert(first_low_at(s0, b, watches@[k], ps@[k] as nat));
                }
            }
            let r = lcm_all(&ps);
            r
        },
    }
}

pub open spec fn rx_name() -> Seq<u8> {
    seq![114u8, 120]
}

/// What the first question gives on circuit `c`: the product of the
/// reckoned high and low totals when every simulated press completes and
/// the product fits in a `u64`, else nothing.
pub open spec fn product_outcome(c: Circuit, r: Option<u64>) -> bool {
    let ms = c.state();
    let b = c.broadcaster;
    let n = TOTAL_PRESSES as nat;
    let prod = shortcut_total(ms, b, n, true) * shortcut_total(ms, b, n, false);
    &&& (r is Some <==> (after(ms, b, crate::pulse::period(ms, b, n)) is Some && prod <= u64::MAX))
    &&& (r is Some ==> r.unwrap() == prod)
}

/// High/low pulse product after a thousand presses of the network that
/// `input` declares; `None` when the text declares none, or the count
/// fails as `pulse_product` says.
pub fn part1(input: &str) -> (r: Option<u64>)
    ensures
        !text_ok(input.spec_bytes()) ==> r is None,
        text_ok(input.spec_bytes()) ==> exists|c: Circuit|
            #[trigger] declares(c, content_lines(input.spec_bytes())) && product_outcome(c, r),
{
    match parse_circuit(input) {
        None => None,
        Some(mut c) => {
            let ghost c0 = c;
            assert(declares(c0, content_lines(input.spec_bytes())));
            let r = pulse_product(&mut c, TOTAL_PRESSES);
            assert(product_outcome(c0, r));
            r
        },
    }
}

/// Module `rx` of `c` is named `rx`.
pub open spec fn has_rx(c: Circuit, rx: usize) -> bool {
    rx < c.names@.len() && c.names@[rx as int]@ == rx_name()
}

/// `f` is the one module that sends to `rx`.
pub open spec fn sole_feeder(c: Circuit, rx: usize, f: usize) -> bool {
    &&& feeds(c.state(), f as int, rx)
    &&& forall|y: int| 0 <= y < c.state().len() && y != f ==> !feeds(c.state(), y, rx)
}

/// `watches` lists, in increasing order, the modules that send to the one
/// module that sends to `rx`.
pub open spec fn rx_watches(c: Circuit, watches: Seq<usize>) -> bool {
    exists|rx: usize, f: usize|
        {
            &&& has_rx(c, rx)
            &&& #[trigger] sole_feeder(c, rx, f)
            &&& is_feeders(c.state(), f, watches)
        }
}

/// The watched modules give no answer: one of them gets no low pulse within
/// `MAX_WATCH_PRESSES` presses, or no common multiple of their first
/// presses fits in a `u64`.
pub open spec fn watch_failure(c: Circuit, watches: Seq<usize>) -> bool {
    (exists|k: int|
        0 <= k < watches.len() && #[trigger] no_low_within(
            c.state(),
            c.broadcaster,
            watches[k],
            MAX_WATCH_PRESSES as nat,
        )) || exists|ps: Seq<u64>|
        first_lows(c.state(), c.broadcaster, watches, ps) && forall|m: int|
            0 < m <= u64::MAX ==> !#[trigger] multiple_of_all(ps, m)
}

/// What the second question gives on circuit `c`: the least common multiple
/// of the watched modules' first low presses, or nothing when no module is
/// named `rx`, `rx` has not exactly one sender, or the watched modules give
/// no answer.
pub open spec fn watch_outcome(c: Circuit, r: Option<u64>) -> bool {
    match r {
        Some(v) => exists|watches: Seq<usize>, ps: Seq<u64>|
            #[trigger] rx_watches(c, watches) && first_lows(c.state(), c.broadcaster, watches, ps) && #[trigger] is_lcm_of(
                ps,
                v as int,
            ),
        None => (forall|rx: usize| !#[trigger] has_rx(c, rx)) || (exists|rx: usize|
            #[trigger] has_rx(c, rx) && forall|f: usize| !#[trigger] sole_feeder(c, rx, f)) || exists|watches: Seq<usize>|
            #[trigger] rx_watches(c, watches) && watch_failure(c, watches),
    }
}

/// The press count at which every module sending to the one that feeds `rx`
/// has sent it a low pulse in step: the least common multiple of the
/// presses at which each first receives a low pulse. `None` when the text
/// declares no network, `rx` has not exactly one sender, or
/// `combined_period` fails.
pub fn part2(input: &str) -> (r: Option<u64>)
    ensures
        !text_ok(input.spec_bytes()) ==> r is None,
        text_ok(input.spec_bytes()) ==> exists|c: Circuit|
            #[trigger] declares(c, content_lines(input.spec_bytes())) && watch_outcome(c, r),
{
    let mut c = match parse_circuit(input) {
        None => {
            return None;
        },
        Some(c) => c,
    };
    let ghost c0 = c;
    assert(declares(c0, content_lines(input.spec_bytes())));
    let rx_lit: Vec<u8> = vec![114u8, 120];
    let rx = match find_name(&c.names, rx_lit.as_slice()) {
        None => {
            assert forall|rx: usize| !#[trigger] has_rx(c0, rx) by {}
            assert(watch_outcome(c0, None));
            return None;
        },
        Some(rx) => rx,
    };
    assert(has_rx(c0, rx));
    let senders = feeders(&c, rx);
    if senders.len() != 1 {
        proof {
            assert forall|f: usize| !#[trigger] sole_feeder(c0, rx, f) by {
                if sole_feeder(c0, rx, f) {
                    if senders@.len() == 0 {
                        assert(senders@.contains(f));
                    } else {
                        let a = senders@[0];
                        let b = senders@[1];
                        assert(senders@.contains(a) && senders@.contains(b));
                        assert(a < b);
                        assert(feeds(c0.state(), a as int, rx) && feeds(c0.state(), b as int, rx));
                        if f == a {
                            assert(!feeds(c0.state(), b as int, rx));
                        } else {
                            assert(!feeds(c0.state(), a as int, rx));
                        }
                    }
                }
            }
            assert(watch_outcome(c0, None));
        }
        return None;
    }
    let f = senders[0];
    proof {
        assert(senders@.contains(f));
        assert forall|y: int| 0 <= y < c.state().len() && y != f implies !feeds(c.state(), y, rx) by {
            if feeds(c.state(), y, rx) {
                assert(senders@.contains(y as usize));
            }
        }
        assert(sole_feeder(c0, rx, f));
    }
    let watches = feeders(&c, f);
    assert(rx_watches(c0, watches@));
    let r = combined_period(&mut c, &watches, MAX_WATCH_PRESSES);
    proof {
        if r is None {
            assert(watch_failure(c0, watches@));
        }
        assert(watch_outcome(c0, r));
    }
    r
}

} // verus!
