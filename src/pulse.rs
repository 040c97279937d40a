//! Pulse propagation through a network of broadcaster, flip-flop and
//! conjunction modules, kept in an arena indexed by module id.
use vstd::prelude::*;

verus! {

/// The most pulses a single button press may process before it is abandoned.
pub const PULSE_LIMIT: usize = 1000000;

/// Sender id of the pulse the button sends to the broadcaster.
pub const BUTTON: usize = usize::MAX;

#[derive(Clone, Copy, PartialEq, Eq, Structural, Debug)]
pub struct Pulse {
    pub from: usize,
    pub to: usize,
    pub high: bool,
}

#[derive(Debug)]
pub enum Kind {
    Broadcaster,
    FlipFlop { on: bool },
    /// `memory[j]` is the last level received from module `inputs[j]`.
    Conjunction { inputs: Vec<usize>, memory: Vec<bool> },
    /// A destination that is named but never declared; it absorbs pulses.
    Sink,
}

#[derive(Debug)]
pub struct Module {
    pub id: usize,
    pub outputs: Vec<usize>,
    pub kind: Kind,
}

pub enum KindView {
    Broadcaster,
    FlipFlop(bool),
    Conjunction(Seq<usize>, Seq<bool>),
    Sink,
}

pub struct ModuleView {
    pub id: usize,
    pub outputs: Seq<usize>,
    pub kind: KindView,
}

impl View for Module {
    type V = ModuleView;

    open spec fn view(&self) -> ModuleView {
        ModuleView {
            id: self.id,
            outputs: self.outputs@,
            kind: match self.kind {
                Kind::Broadcaster => KindView::Broadcaster,
                Kind::FlipFlop { on } => KindView::FlipFlop(on),
                Kind::Conjunction { inputs, memory } => KindView::Conjunction(inputs@, memory@),
                Kind::Sink => KindView::Sink,
            },
        }
    }
}

pub open spec fn view_wf(m: ModuleView) -> bool {
    match m.kind {
        KindView::Conjunction(inputs, memory) => inputs.len() == memory.len(),
        _ => true,
    }
}

impl Module {
    pub open spec fn wf(&self) -> bool {
        view_wf(self@)
    }
}

pub open spec fn all_high(memory: Seq<bool>) -> bool {
    forall|j: int| 0 <= j < memory.len() ==> #[trigger] memory[j]
}

/// Memory after a pulse of level `high` arrives from `sender`.
pub open spec fn remember(inputs: Seq<usize>, memory: Seq<bool>, sender: usize, high: bool) -> Seq<
    bool,
> {
    Seq::new(memory.len(), |j: int| if inputs[j] == sender { high } else { memory[j] })
}

/// The module after it receives a pulse, and the level it then sends to each
/// of its outputs (`None`: it sends nothing).
pub open spec fn receive(m: ModuleView, sender: usize, high: bool) -> (ModuleView, Option<bool>) {
    match m.kind {
        KindView::Broadcaster => (m, Some(high)),
        KindView::FlipFlop(on) => if high {
            (m, None)
        } else {
            (ModuleView { kind: KindView::FlipFlop(!on), ..m }, Some(!on))
        },
        KindView::Conjunction(inputs, memory) => {
            let mem = remember(inputs, memory, sender, high);
            (ModuleView { kind: KindView::Conjunction(inputs, mem), ..m }, Some(!all_high(mem)))
        },
        KindView::Sink => (m, None),
    }
}

/// One pulse of level `high` from `from` to each of `outputs`, in order.
pub open spec fn fan_out(from: usize, outputs: Seq<usize>, high: bool) -> Seq<Pulse> {
    Seq::new(outputs.len(), |k: int| Pulse { from, to: outputs[k], high })
}

/// The pulses a module sends after receiving one.
pub open spec fn emitted(m: ModuleView, sender: usize, high: bool) -> Seq<Pulse> {
    match receive(m, sender, high).1 {
        Some(level) => fan_out(m.id, m.outputs, level),
        None => Seq::empty(),
    }
}

impl Module {
    /// Delivers a pulse of level `high` from `sender`: updates the state by the
    /// module's rule and returns the pulses it sends, one per output in order.
    pub fn process(&mut self, sender: usize, high: bool) -> (out: Vec<Pulse>)
        requires
            old(self).wf(),
            knows_sender(old(self)@, sender),
        ensures
            final(self)@ == receive(old(self)@, sender, high).0,
            out@ == emitted(old(self)@, sender, high),
            final(self).wf(),
    {
        let level: bool;
        match &mut self.kind {
            Kind::Broadcaster => {
                level = high;
            },
            Kind::FlipFlop { on } => {
                if high {
                    return Vec::new();
                }
                *on = !*on;
                level = *on;
            },
            Kind::Conjunction { inputs, memory } => {
                let ghost mem0 = memory@;
                let mut j: usize = 0;
                while j < memory.len()
                    invariant
                        inputs@.len() == mem0.len(),
                        memory@.len() == mem0.len(),
                        j <= mem0.len(),
                        forall|t: int|
                            0 <= t < j ==> memory@[t] == (if inputs@[t] == sender {
                                high
                            } else {
                                mem0[t]
                            }),
                        forall|t: int| j <= t < mem0.len() ==> memory@[t] == mem0[t],
                    decreases mem0.len() - j,
                {
                    if inputs[j] == sender {
                        memory.set(j, high);
                    }
                    j += 1;
                }
                assert(memory@ == remember(inputs@, mem0, sender, high));
                let mut all: bool = true;
                let mut t: usize = 0;
                while t < memory.len()
                    invariant
                        t <= memory@.len(),
                        all == (forall|u: int| 0 <= u < t ==> #[trigger] memory@[u]),
                    decreases memory@.len() - t,
                {
                    if !memory[t] {
                        all = false;
                    }
                    t += 1;
                }
                level = !all;
            },
            Kind::Sink => {
                return Vec::new();
            },
        }
        let mut out: Vec<Pulse> = Vec::new();
        let mut k: usize = 0;
        while k < self.outputs.len()
            invariant
                k <= self.outputs@.len(),
                out@ == fan_out(self.id, self.outputs@, level).take(k as int),
            decreases self.outputs@.len() - k,
        {
            out.push(Pulse { from: self.id, to: self.outputs[k], high: level });
            k += 1;
            assert(out@ == fan_out(self.id, self.outputs@, level).take(k as int));
        }
        assert(out@ == fan_out(self.id, self.outputs@, level));
        out
    }
}


/// The arena's modules as a sequence of views.
pub open spec fn arena_view(ms: Seq<Module>) -> Seq<ModuleView> {
    Seq::new(ms.len(), |i: int| ms[i]@)
}

/// Delivers one pulse to the arena; a pulse addressed outside the arena is
/// absorbed.
pub open spec fn deliver(ms: Seq<ModuleView>, p: Pulse) -> (Seq<ModuleView>, Seq<Pulse>) {
    if p.to < ms.len() {
        (ms.update(p.to as int, receive(ms[p.to as int], p.from, p.high).0), emitted(ms[p.to as int], p.from, p.high))
    } else {
        (ms, Seq::empty())
    }
}

/// Processes `queue` first in, first out, appending what each delivery sends,
/// until the queue is empty; gives the final arena and every pulse processed,
/// in order, or `None` when more than `fuel` pulses would be needed.
pub open spec fn drain(ms: Seq<ModuleView>, queue: Seq<Pulse>, fuel: nat) -> Option<
    (Seq<ModuleView>, Seq<Pulse>),
>
    decreases fuel,
{
    if queue.len() == 0 {
        Some((ms, Seq::empty()))
    } else if fuel == 0 {
        None
    } else {
        let (next, sent) = deliver(ms, queue[0]);
        match drain(next, queue.drop_first() + sent, (fuel - 1) as nat) {
            Some((last, log)) => Some((last, seq![queue[0]] + log)),
            None => None,
        }
    }
}

/// A conjunction has `sender` among its inputs; other kinds hear anyone.
pub open spec fn knows_sender(m: ModuleView, sender: usize) -> bool {
    match m.kind {
        KindView::Conjunction(inputs, _) => inputs.contains(sender),
        _ => true,
    }
}

/// Module `i` is numbered `i` and sends only to modules of the arena; `b` is
/// the broadcaster; and each conjunction counts among its inputs every
/// module that sends to it.
pub open spec fn senders_known(ms: Seq<ModuleView>, b: usize) -> bool {
    &&& b < ms.len()
    &&& ms[b as int].kind is Broadcaster
    &&& forall|i: int| 0 <= i < ms.len() ==> (#[trigger] ms[i]).id == i
    &&& forall|x: int, j: int|
        0 <= x < ms.len() && 0 <= j < ms.len() && (#[trigger] ms[x].outputs).contains(j as usize) ==> knows_sender(
            #[trigger] ms[j],
            x as usize,
        )
}

/// The pulse comes from the button to the broadcaster, or from a module
/// that has its destination among its outputs.
pub open spec fn pulse_known(ms: Seq<ModuleView>, b: usize, p: Pulse) -> bool {
    (p.from == BUTTON && p.to == b) || (p.from < ms.len() && ms[p.from as int].outputs.contains(p.to))
}

/// One button press on arena `ms` whose broadcaster is `b`.
pub open spec fn press_spec(ms: Seq<ModuleView>, b: usize) -> Option<(Seq<ModuleView>, Seq<Pulse>)> {
    drain(ms, seq![Pulse { from: BUTTON, to: b, high: false }], PULSE_LIMIT as nat)
}

pub struct Circuit {
    pub modules: Vec<Module>,
    /// `names[i]` is the name of module `i`.
    pub names: Vec<Vec<u8>>,
    pub broadcaster: usize,
}

impl Circuit {
    pub open spec fn state(&self) -> Seq<ModuleView> {
        arena_view(self.modules@)
    }

    /// Every module is well formed.
    pub open spec fn modules_wf(&self) -> bool {
        forall|i: int| 0 <= i < self.modules@.len() ==> #[trigger] self.modules@[i].wf()
    }

    /// Every module is well formed, and every pulse a module can send to a
    /// conjunction comes from one of the conjunction's inputs.
    pub open spec fn wf(&self) -> bool {
        self.modules_wf() && senders_known(self.state(), self.broadcaster)
    }

    /// Presses the button once and processes pulses until none is left.
    /// Gives every pulse processed, the button's first, or `None` (state then
    /// unspecified) when the press needs more than `PULSE_LIMIT` pulses.
    pub fn press(&mut self) -> (r: Option<Vec<Pulse>>)
        requires
            old(self).wf(),
        ensures
            final(self).wf(),
            final(self).broadcaster == old(self).broadcaster,
            final(self).modules@.len() == old(self).modules@.len(),
            press_spec(old(self).state(), old(self).broadcaster) is Some <==> r is Some,
            r is Some ==> press_spec(old(self).state(), old(self).broadcaster) == Some(
                (final(self).state(), r.unwrap()@),
            ),
            r is Some ==> r.unwrap()@.len() <= PULSE_LIMIT,
    {
        let ghost s0 = self.state();
        let ghost b = self.broadcaster;
        let mut q: Vec<Pulse> = Vec::new();
        q.push(Pulse { from: BUTTON, to: self.broadcaster, high: false });
        let mut head: usize = 0;
        assert(q@.skip(0) == seq![Pulse { from: BUTTON, to: b, high: false }]);
        assert(q@.take(0) + q@.skip(0) == q@.skip(0));
        while head < q.len() && head < PULSE_LIMIT
            invariant
                self.wf(),
                self.broadcaster == b,
                self.modules@.len() == s0.len(),
                head <= q@.len(),
                head <= PULSE_LIMIT,
                forall|x: int| 0 <= x < s0.len() ==> (#[trigger] self.state()[x]).outputs == s0[x].outputs,
                forall|t: int| head <= t < q@.len() ==> pulse_known(s0, b, #[trigger] q@[t]),
                press_spec(s0, b) == (match drain(self.state(), q@.skip(head as int), (PULSE_LIMIT - head) as nat) {
                    Some((last, log)) => Some((last, q@.take(head as int) + log)),
                    None => None,
                }),
            decreases PULSE_LIMIT - head,
        {
            let p = q[head];
            let ghost cur = self.state();
            let ghost rest = q@.skip(head as int);
            let ghost (next, sent) = deliver(cur, p);
            assert(rest[0] == p);
            if p.to < self.modules.len() {
                proof {
                    assert(pulse_known(s0, b, q@[head as int]));
                    assert(self.modules@[p.to as int]@ == cur[p.to as int]);
                    if p.from != BUTTON || p.to != b {
                        assert(cur[p.from as int].outputs == s0[p.from as int].outputs);
                        assert(knows_sender(cur[p.to as int], p.from));
                    }
                }
                let ghost before = self.state();
                let out = self.modules[p.to].process(p.from, p.high);
                assert(out@ == sent);
                proof {
                    assert forall|x: int| 0 <= x < s0.len() implies (#[trigger] self.state()[x]).outputs == s0[x].outputs by {
                        if x != p.to {
                            assert(self.state()[x] == before[x]);
                        }
                    }
                    assert(senders_known(self.state(), b)) by {
                        let ms = self.state();
                        assert forall|i: int| 0 <= i < ms.len() implies (#[trigger] ms[i]).id == i by {
                            if i != p.to {
                                assert(ms[i] == before[i]);
                            }
                        }
                        assert forall|x: int, j: int|
                            0 <= x < ms.len() && 0 <= j < ms.len() && (#[trigger] ms[x].outputs).contains(j as usize) implies knows_sender(
                            #[trigger] ms[j],
                            x as usize,
                        ) by {
                            assert(ms[x].outputs == before[x].outputs) by {
                                if x != p.to {
                                    assert(ms[x] == before[x]);
                                }
                            }
                            if j != p.to {
                                assert(ms[j] == before[j]);
                            }
                        }
                        if b != p.to {
                            assert(ms[b as int] == before[b as int]);
                        }
                    }
                    assert forall|t: int| 0 <= t < out@.len() implies pulse_known(s0, b, #[trigger] out@[t]) by {
                        assert(before[p.to as int].id == p.to);
                        assert(out@[t].from == p.to);
                        assert(before[p.to as int].outputs.contains(out@[t].to)) by {
                            assert(before[p.to as int].outputs[t] == out@[t].to);
                        }
                        assert(before[p.to as int].outputs == s0[p.to as int].outputs);
                    }
                }
                let mut k: usize = 0;
                let ghost q1 = q@;
                while k < out.len()
                    invariant
                        k <= out@.len(),
                        q@ == q1 + out@.take(k as int),
                    decreases out@.len() - k,
                {
                    q.push(out[k]);
                    k += 1;
                    assert(q@ == q1 + out@.take(k as int));
                }
                assert(out@.take(out@.len() as int) == out@);
                assert(self.state() == next);
                assert(q@ == q1 + sent);
                assert forall|t: int| head + 1 <= t < q@.len() implies pulse_known(s0, b, #[trigger] q@[t]) by {
                    if t >= q1.len() {
                        assert(q@[t] == out@[t - q1.len()]);
                    } else {
                        assert(q@[t] == q1[t]);
                    }
                }
            } else {
                assert(sent == Seq::<Pulse>::empty());
                assert(q@ + sent == q@);
            }
            proof {
                let f = (PULSE_LIMIT - head) as nat;
                assert(q@.skip(head + 1) == rest.drop_first() + sent);
                assert(q@.take(head + 1) == q@.take(head as int).push(p));
                let inner = drain(next, rest.drop_first() + sent, (f - 1) as nat);
                if let Some((last, log)) = inner {
                    assert(q@.take(head as int) + (seq![p] + log) == q@.take(head + 1) + log);
                }
            }
            head += 1;
        }
        if head < q.len() {
            return None;
        }
        assert(q@.skip(head as int) == Seq::<Pulse>::empty());
        assert(q@.take(head as int) == q@);
        assert(q@ + Seq::<Pulse>::empty() == q@);
        Some(q)
    }
}


/// The arena after `k` presses, or `None` when one of them exceeds the limit.
pub open spec fn after(ms: Seq<ModuleView>, b: usize, k: nat) -> Option<Seq<ModuleView>>
    decreases k,
{
    if k == 0 {
        Some(ms)
    } else {
        match after(ms, b, (k - 1) as nat) {
            Some(prev) => match press_spec(prev, b) {
                Some((next, _)) => Some(next),
                None => None,
            },
            None => None,
        }
    }
}

/// The pulses processed during press number `k` (counting from one); meaningful
/// when `after(ms, b, k)` is `Some`.
pub open spec fn log_of(ms: Seq<ModuleView>, b: usize, k: nat) -> Seq<Pulse> {
    press_spec(after(ms, b, (k - 1) as nat).unwrap(), b).unwrap().1
}

/// How many pulses of `log` have level `high`.
pub open spec fn count_level(log: Seq<Pulse>, high: bool) -> nat
    decreases log.len(),
{
    if log.len() == 0 {
        0
    } else {
        count_level(log.drop_last(), high) + if log.last().high == high {
            1nat
        } else {
            0nat
        }
    }
}

/// Pulses of level `high` over the first `k` presses.
pub open spec fn total(ms: Seq<ModuleView>, b: usize, k: nat, high: bool) -> nat
    decreases k,
{
    if k == 0 {
        0
    } else {
        total(ms, b, (k - 1) as nat, high) + count_level(log_of(ms, b, k), high)
    }
}

pub open spec fn is_on(m: ModuleView) -> bool {
    match m.kind {
        KindView::FlipFlop(on) => on,
        _ => false,
    }
}

/// Every flip-flop is off.
pub open spec fn quiescent(ms: Seq<ModuleView>) -> bool {
    forall|i: int| 0 <= i < ms.len() ==> !is_on(#[trigger] ms[i])
}

/// The first press count from `k` on, below `n`, after which the arena is
/// quiescent; `n` when there is none.
pub open spec fn rest_from(ms: Seq<ModuleView>, b: usize, n: nat, k: nat) -> nat
    decreases n - k,
{
    if k >= n {
        n
    } else if quiescent(after(ms, b, k).unwrap()) {
        k
    } else {
        rest_from(ms, b, n, k + 1)
    }
}

/// The number of presses simulated before counting `n` presses by periods.
pub open spec fn period(ms: Seq<ModuleView>, b: usize, n: nat) -> nat {
    rest_from(ms, b, n, 1)
}

/// Pulses of level `high` over `n` presses, reckoned from the first
/// `period` presses as whole periods plus the start of a further one.
pub open spec fn shortcut_total(ms: Seq<ModuleView>, b: usize, n: nat, high: bool) -> nat {
    let p = period(ms, b, n);
    total(ms, b, p, high) * (n / p) + total(ms, b, n % p, high)
}

pub proof fn lemma_after_none_stays(ms: Seq<ModuleView>, b: usize, j: nat, k: nat)
    requires
        j <= k,
        after(ms, b, j) is None,
    ensures
        after(ms, b, k) is None,
    decreases k - j,
{
    if j < k {
        lemma_after_none_stays(ms, b, j, (k - 1) as nat);
    }
}

pub proof fn lemma_after_some_before(ms: Seq<ModuleView>, b: usize, j: nat, k: nat)
    requires
        j <= k,
        after(ms, b, k) is Some,
    ensures
        after(ms, b, j) is Some,
{
    if after(ms, b, j) is None {
        lemma_after_none_stays(ms, b, j, k);
    }
}

proof fn lemma_rest_skip(ms: Seq<ModuleView>, b: usize, n: nat, m: nat, k: nat)
    requires
        m <= k <= n,
        forall|j: nat| m <= j < k ==> !quiescent(#[trigger] after(ms, b, j).unwrap()),
    ensures
        rest_from(ms, b, n, m) == rest_from(ms, b, n, k),
    decreases k - m,
{
    if m < k {
        lemma_rest_skip(ms, b, n, m + 1, k);
    }
}

proof fn lemma_rest_bounds(ms: Seq<ModuleView>, b: usize, n: nat, k: nat)
    requires
        k <= n,
    ensures
        k <= rest_from(ms, b, n, k) <= n,
    decreases n - k,
{
    if k < n {
        lemma_rest_bounds(ms, b, n, k + 1);
    }
}

/// Sum of the first `m` tallies, of highs or of lows.
pub open spec fn tally_sum(t: Seq<(u64, u64)>, m: nat, high: bool) -> nat
    decreases m,
{
    if m == 0 {
        0
    } else {
        tally_sum(t, (m - 1) as nat, high) + if high {
            t[m - 1].0 as nat
        } else {
            t[m - 1].1 as nat
        }
    }
}

proof fn lemma_tally_sum_bound(t: Seq<(u64, u64)>, m: nat, high: bool)
    requires
        m <= t.len(),
        forall|j: int| 0 <= j < t.len() ==> (#[trigger] t[j]).0 <= PULSE_LIMIT && t[j].1 <= PULSE_LIMIT,
    ensures
        tally_sum(t, m, high) <= m * PULSE_LIMIT,
    decreases m,
{
    if m > 0 {
        lemma_tally_sum_bound(t, (m - 1) as nat, high);
    }
}

proof fn lemma_tally_sum_prefix(t: Seq<(u64, u64)>, u: Seq<(u64, u64)>, m: nat, high: bool)
    requires
        m <= t.len(),
        m <= u.len(),
        forall|j: int| 0 <= j < m ==> t[j] == u[j],
    ensures
        tally_sum(t, m, high) == tally_sum(u, m, high),
    decreases m,
{
    if m > 0 {
        lemma_tally_sum_prefix(t, u, (m - 1) as nat, high);
    }
}

/// Counts the high and the low pulses of a log.
pub fn tally(log: &Vec<Pulse>) -> (r: (u64, u64))
    requires
        log@.len() <= PULSE_LIMIT,
    ensures
        r.0 == count_level(log@, true),
        r.1 == count_level(log@, false),
        r.0 + r.1 == log@.len(),
{
    let mut highs: u64 = 0;
    let mut lows: u64 = 0;
    let mut i: usize = 0;
    while i < log.len()
        invariant
            i <= log@.len(),
            log@.len() <= PULSE_LIMIT,
            highs == count_level(log@.take(i as int), true),
            lows == count_level(log@.take(i as int), false),
            highs + lows == i,
        decreases log@.len() - i,
    {
        assert(log@.take(i + 1).drop_last() == log@.take(i as int));
        if log[i].high {
            highs += 1;
        } else {
            lows += 1;
        }
        i += 1;
    }
    assert(log@.take(log@.len() as int) == log@);
    (highs, lows)
}

/// Sum of the first `m` tallies.
fn sum_tallies(t: &Vec<(u64, u64)>, m: usize, high: bool) -> (r: u128)
    requires
        m <= t@.len(),
        forall|j: int| 0 <= j < t@.len() ==> (#[trigger] t@[j]).0 <= PULSE_LIMIT && t@[j].1 <= PULSE_LIMIT,
    ensures
        r == tally_sum(t@, m as nat, high),
        r <= m * PULSE_LIMIT,
{
    let mut acc: u128 = 0;
    let mut j: usize = 0;
    while j < m
        invariant
            j <= m <= t@.len(),
            forall|i: int| 0 <= i < t@.len() ==> (#[trigger] t@[i]).0 <= PULSE_LIMIT && t@[i].1 <= PULSE_LIMIT,
            acc == tally_sum(t@, j as nat, high),
        decreases m - j,
    {
        proof {
            lemma_tally_sum_bound(t@, j as nat, high);
            assert(j * PULSE_LIMIT <= usize::MAX as int * PULSE_LIMIT) by (nonlinear_arith)
                requires j <= usize::MAX;
        }
        if high {
            acc = acc + t[j].0 as u128;
        } else {
            acc = acc + t[j].1 as u128;
        }
        j += 1;
    }
    proof {
        lemma_tally_sum_bound(t@, m as nat, high);
    }
    acc
}

impl Circuit {
    /// Whether every flip-flop is off.
    pub fn is_quiescent(&self) -> (r: bool)
        ensures
            r == quiescent(self.state()),
    {
        let mut i: usize = 0;
        while i < self.modules.len()
            invariant
                i <= self.modules@.len(),
                forall|j: int| 0 <= j < i ==> !is_on(#[trigger] self.state()[j]),
            decreases self.modules@.len() - i,
        {
            if let Kind::FlipFlop { on } = &self.modules[i].kind {
                if *on {
                    assert(is_on(self.state()[i as int]));
                    return false;
                }
            }
            i += 1;
        }
        true
    }

    /// High and low pulse totals over `presses` presses. Presses are simulated
    /// until every flip-flop is off or `presses` is reached; the totals are
    /// then reckoned from the presses simulated, taken as one period.
    /// `None` when one of the simulated presses exceeds `PULSE_LIMIT`.
    pub fn pulse_totals(&mut self, presses: usize) -> (r: Option<(u128, u128)>)
        requires
            old(self).wf(),
            presses >= 1,
        ensures
            r is Some <==> after(
                old(self).state(),
                old(self).broadcaster,
                period(old(self).state(), old(self).broadcaster, presses as nat),
            ) is Some,
            r is Some ==> r.unwrap().0 == shortcut_total(
                old(self).state(),
                old(self).broadcaster,
                presses as nat,
                true,
            ),
            r is Some ==> r.unwrap().1 == shortcut_total(
                old(self).state(),
                old(self).broadcaster,
                presses as nat,
                false,
            ),
    {
        let ghost s0 = self.state();
        let ghost b = self.broadcaster;
        let ghost n = presses as nat;
        let mut tallies: Vec<(u64, u64)> = Vec::new();
        let mut k: usize = 0;
        let mut done: bool = false;
        while k < presses && !done
            invariant
                self.wf(),
                self.broadcaster == b,
                s0 == old(self).state(),
                b == old(self).broadcaster,
                1 <= n == presses,
                k <= presses,
                after(s0, b, k as nat) == Some(self.state()),
                tallies@.len() == k,
                forall|j: int| 0 <= j < k ==> (#[trigger] tallies@[j]).0 <= PULSE_LIMIT && tallies@[j].1 <= PULSE_LIMIT,
                forall|m: nat| m <= k ==> tally_sum(tallies@, m, true) == #[trigger] total(s0, b, m, true),
                forall|m: nat| m <= k ==> tally_sum(tallies@, m, false) == #[trigger] total(s0, b, m, false),
                forall|j: nat| 1 <= j < k ==> !quiescent(#[trigger] after(s0, b, j).unwrap()),
                done ==> k >= 1 && quiescent(self.state()),
                !done && k >= 1 ==> !quiescent(self.state()),
            decreases presses - k,
        {
            let ghost cur = self.state();
            let r = self.press();
            match r {
                None => {
                    proof {
                        assert(after(s0, b, (k + 1) as nat) is None);
                        if k >= 1 {
                            assert forall|j: nat| 1 <= j < k + 1 implies !quiescent(#[trigger] after(s0, b, j).unwrap()) by {
                                if j == k {
                                    assert(after(s0, b, j).unwrap() == cur);
                                }
                            }
                            lemma_rest_skip(s0, b, n, 1, (k + 1) as nat);
                        }
                        lemma_rest_bounds(s0, b, n, (k + 1) as nat);
                        lemma_rest_bounds(s0, b, n, 1);
                        lemma_after_none_stays(s0, b, (k + 1) as nat, period(s0, b, n));
                    }
                    return None;
                },
                Some(log) => {
                    let (h, l) = tally(&log);
                    let ghost t0 = tallies@;
                    tallies.push((h, l));
                    proof {
                        assert(after(s0, b, (k + 1) as nat) == Some(self.state()));
                        assert(log_of(s0, b, (k + 1) as nat) == log@);
                        assert forall|m: nat| m <= k + 1 implies tally_sum(tallies@, m, true) == #[trigger] total(s0, b, m, true) by {
                            lemma_tally_sum_prefix(tallies@, t0, if m <= k { m } else { k as nat }, true);
                            if m == k + 1 {
                                assert(total(s0, b, m, true) == total(s0, b, k as nat, true) + count_level(log@, true));
                                assert(tally_sum(tallies@, m, true) == tally_sum(tallies@, k as nat, true) + h);
                            }
                        }
                        assert forall|m: nat| m <= k + 1 implies tally_sum(tallies@, m, false) == #[trigger] total(s0, b, m, false) by {
                            lemma_tally_sum_prefix(tallies@, t0, if m <= k { m } else { k as nat }, false);
                            if m == k + 1 {
                                assert(total(s0, b, m, false) == total(s0, b, k as nat, false) + count_level(log@, false));
                                assert(tally_sum(tallies@, m, false) == tally_sum(tallies@, k as nat, false) + l);
                            }
                        }
                        assert forall|j: nat| 1 <= j < k + 1 implies !quiescent(#[trigger] after(s0, b, j).unwrap()) by {
                            if j == k {
                                assert(after(s0, b, j).unwrap() == cur);
                            }
                        }
                    }
                    k += 1;
                    done = self.is_quiescent();
                },
            }
        }
        proof {
            lemma_rest_skip(s0, b, n, 1, k as nat);
            assert(period(s0, b, n) == k);
        }
        let p = k;
        let cycles = presses / p;
        let left = presses % p;
        let high_period = sum_tallies(&tallies, p, true);
        let low_period = sum_tallies(&tallies, p, false);
        let high_left = sum_tallies(&tallies, left, true);
        let low_left = sum_tallies(&tallies, left, false);
        proof {
            assert(p * cycles <= presses) by (nonlinear_arith)
                requires p >= 1, cycles == presses / p;
            assert(high_period * cycles <= p * PULSE_LIMIT * cycles) by (nonlinear_arith)
                requires high_period <= p * PULSE_LIMIT;
            assert(low_period * cycles <= p * PULSE_LIMIT * cycles) by (nonlinear_arith)
                requires low_period <= p * PULSE_LIMIT;
            assert(p * PULSE_LIMIT * cycles <= presses * PULSE_LIMIT) by (nonlinear_arith)
                requires p * cycles <= presses;
            assert(presses * PULSE_LIMIT <= usize::MAX as int * PULSE_LIMIT) by (nonlinear_arith)
                requires presses <= usize::MAX;
        }
        let highs = high_period * (cycles as u128) + high_left;
        let lows = low_period * (cycles as u128) + low_left;
        Some((highs, lows))
    }
}


/// Some pulse of `log` is a low pulse addressed to `w`.
pub open spec fn receives_low(log: Seq<Pulse>, w: usize) -> bool {
    exists|i: int| 0 <= i < log.len() && (#[trigger] log[i]).to == w && !log[i].high
}

/// Press `k` is the first during which `w` receives a low pulse.
pub open spec fn first_low_at(ms: Seq<ModuleView>, b: usize, w: usize, k: nat) -> bool {
    &&& k >= 1
    &&& after(ms, b, k) is Some
    &&& receives_low(log_of(ms, b, k), w)
    &&& forall|j: nat| 1 <= j < k ==> !receives_low(#[trigger] log_of(ms, b, j), w)
}

/// No press among the first `n` that completes within the limit sends a low
/// pulse to `w`.
pub open spec fn no_low_within(ms: Seq<ModuleView>, b: usize, w: usize, n: nat) -> bool {
    forall|j: nat|
        1 <= j <= n ==> #[trigger] after(ms, b, j) is None || !receives_low(log_of(ms, b, j), w)
}

/// Whether some pulse of `log` is a low pulse addressed to `w`.
pub fn has_low_to(log: &Vec<Pulse>, w: usize) -> (r: bool)
    ensures
        r == receives_low(log@, w),
{
    let mut i: usize = 0;
    while i < log.len()
        invariant
            i <= log@.len(),
            forall|j: int| 0 <= j < i ==> !((#[trigger] log@[j]).to == w && !log@[j].high),
        decreases log@.len() - i,
    {
        if log[i].to == w && !log[i].high {
            return true;
        }
        i += 1;
    }
    false
}

impl Circuit {
    /// For each watched module, the first press (counting from one) during
    /// which it receives a low pulse. Presses the button at most
    /// `max_presses` times; `None` when some watched module received no low
    /// pulse by then, or a press exceeded `PULSE_LIMIT`.
    pub fn first_low_presses(&mut self, watches: &Vec<usize>, max_presses: u64) -> (r: Option<Vec<u64>>)
        requires
            old(self).wf(),
        ensures
            r is Some ==> r.unwrap()@.len() == watches@.len(),
            r is Some ==> forall|k: int|
                0 <= k < watches@.len() ==> 1 <= #[trigger] r.unwrap()@[k] <= max_presses
                    && first_low_at(old(self).state(), old(self).broadcaster, watches@[k], r.unwrap()@[k] as nat),
            r is None ==> exists|k: int|
                0 <= k < watches@.len() && #[trigger] no_low_within(
                    old(self).state(),
                    old(self).broadcaster,
                    watches@[k],
                    max_presses as nat,
                ),
    {
        let ghost s0 = self.state();
        let ghost b = self.broadcaster;
        let mut found: Vec<u64> = Vec::new();
        let mut k: usize = 0;
        while k < watches.len()
            invariant
                k <= watches@.len(),
                found@.len() == k,
                forall|t: int| 0 <= t < k ==> found@[t] == 0,
            decreases watches@.len() - k,
        {
            found.push(0);
            k += 1;
        }
        let mut missing: usize = watches.len();
        let mut presses: u64 = 0;
        if watches.len() > 0 {
            assert(found@[0] == 0);
        }
        while missing > 0 && presses < max_presses
            invariant
                self.wf(),
                self.broadcaster == b,
                s0 == old(self).state(),
                b == old(self).broadcaster,
                presses <= max_presses,
                after(s0, b, presses as nat) == Some(self.state()),
                found@.len() == watches@.len(),
                missing <= watches@.len(),
                missing == 0 ==> forall|t: int| 0 <= t < watches@.len() ==> found@[t] != 0,
                missing > 0 ==> exists|t: int| 0 <= t < watches@.len() && found@[t] == 0,
                forall|t: int| 0 <= t < watches@.len() && #[trigger] found@[t] == 0 ==> forall|j: nat|
                    1 <= j <= presses ==> !receives_low(#[trigger] log_of(s0, b, j), watches@[t]),
                forall|t: int| 0 <= t < watches@.len() && #[trigger] found@[t] != 0 ==> 1 <= found@[t] <= presses
                    && first_low_at(s0, b, watches@[t], found@[t] as nat),
            decreases max_presses - presses,
        {
            let ghost cur = self.state();
            let ghost f0 = found@;
            match self.press() {
                None => {
                    proof {
                        let t = choose|t: int| 0 <= t < watches@.len() && found@[t] == 0;
                        assert forall|j: nat| 1 <= j <= max_presses implies #[trigger] after(s0, b, j) is None
                            || !receives_low(log_of(s0, b, j), watches@[t]) by {
                            if j > presses {
                                lemma_after_none_stays(s0, b, (presses + 1) as nat, j);
                            }
                        }
                        assert(no_low_within(s0, b, watches@[t], max_presses as nat));
                    }
                    return None;
                },
                Some(log) => {
                    presses += 1;
                    proof {
                        assert(after(s0, b, presses as nat) == Some(self.state()));
                        assert(log_of(s0, b, presses as nat) == log@);
                        assert forall|j: nat| 1 <= j <= presses implies after(s0, b, j) is Some by {
                            lemma_after_some_before(s0, b, j, presses as nat);
                        }
                    }
                    let mut t: usize = 0;
                    let mut left: usize = 0;
                    while t < watches.len()
                        invariant
                            t <= watches@.len(),
                            found@.len() == watches@.len(),
                            f0.len() == watches@.len(),
                            left <= t,
                            presses >= 1,
                            after(s0, b, presses as nat) is Some,
                            log_of(s0, b, presses as nat) == log@,
                            forall|u: int| t <= u < watches@.len() ==> found@[u] == f0[u],
                            left == 0 ==> forall|u: int| 0 <= u < t ==> found@[u] != 0,
                            left > 0 ==> exists|u: int| 0 <= u < t && found@[u] == 0,
                            forall|u: int| 0 <= u < t && #[trigger] found@[u] == 0 ==> forall|j: nat|
                                1 <= j <= presses ==> !receives_low(#[trigger] log_of(s0, b, j), watches@[u]),
                            forall|u: int| 0 <= u < t && #[trigger] found@[u] != 0 ==> 1 <= found@[u] <= presses
                                && first_low_at(s0, b, watches@[u], found@[u] as nat),
                            forall|u: int| 0 <= u < watches@.len() && #[trigger] f0[u] == 0 ==> forall|j: nat|
                                1 <= j < presses ==> !receives_low(#[trigger] log_of(s0, b, j), watches@[u]),
                            forall|u: int| 0 <= u < watches@.len() && #[trigger] f0[u] != 0 ==> 1 <= f0[u] < presses
                                && first_low_at(s0, b, watches@[u], f0[u] as nat),
                        decreases watches@.len() - t,
                    {
                        let ghost w = watches@[t as int];
                        let ghost before = found@;
                        if found[t] == 0 {
                            assert(f0[t as int] == 0);
                            if has_low_to(&log, watches[t]) {
                                found.set(t, presses);
                                assert(first_low_at(s0, b, w, presses as nat));
                            } else {
                                assert forall|j: nat| 1 <= j <= presses implies !receives_low(#[trigger] log_of(s0, b, j), w) by {
                                    if j < presses {
                                        assert(f0[t as int] == 0);
                                    }
                                }
                                left += 1;
                            }
                        } else {
                            assert(f0[t as int] != 0);
                        }
                        proof {
                            assert forall|u: int| 0 <= u < t implies found@[u] == before[u] by {}
                            if left > 0 && found@[t as int] != 0 {
                                let u = choose|u: int| 0 <= u < t && before[u] == 0;
                                assert(found@[u] == 0);
                            }
                        }
                        t += 1;
                    }
                    missing = left;
                },
            }
        }
        if missing > 0 {
            proof {
                let t = choose|t: int| 0 <= t < watches@.len() && found@[t] == 0;
                assert(presses == max_presses);
                assert forall|j: nat| 1 <= j <= max_presses implies #[trigger] after(s0, b, j) is None
                    || !receives_low(log_of(s0, b, j), watches@[t]) by {}
                assert(no_low_within(s0, b, watches@[t], max_presses as nat));
            }
            return None;
        }
        Some(found)
    }
}

/// A flip-flop that receives two low pulses in a row is back in its first
/// state, and sends one level after the first pulse and the opposite level
/// after the second.
pub proof fn lemma_flip_flop_two_lows(m: ModuleView, sender: usize)
    requires
        m.kind is FlipFlop,
    ensures
        receive(receive(m, sender, false).0, sender, false).0 == m,
        receive(m, sender, false).1 is Some,
        receive(receive(m, sender, false).0, sender, false).1 is Some,
        receive(m, sender, false).1.unwrap() != receive(receive(m, sender, false).0, sender, false).1.unwrap(),
{
}

/// A conjunction whose memory after a pulse holds only high levels sends
/// low; any other memory makes it send high.
pub proof fn lemma_conjunction_level(m: ModuleView, sender: usize, high: bool)
    requires
        m.kind is Conjunction,
    ensures
        ({
            let (next, level) = receive(m, sender, high);
            match next.kind {
                KindView::Conjunction(_, memory) => level == Some(!all_high(memory)),
                _ => false,
            }
        }),
{
}

/// For a press count no later than the first return to quiescence, the
/// period-based totals equal the totals of simulating every press.
pub proof fn lemma_shortcut_matches_simulation(ms: Seq<ModuleView>, b: usize, n: nat, high: bool)
    requires
        n >= 1,
        forall|j: nat| 1 <= j < n ==> !quiescent(#[trigger] after(ms, b, j).unwrap()),
    ensures
        shortcut_total(ms, b, n, high) == total(ms, b, n, high),
{
    lemma_rest_skip(ms, b, n, 1, n);
    assert(period(ms, b, n) == n);
    assert(n / n == 1) by (nonlinear_arith)
        requires n >= 1;
    assert(n % n == 0) by (nonlinear_arith)
        requires n >= 1;
}

} // verus!
