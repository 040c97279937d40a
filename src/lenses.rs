//! The holiday hash of a string, and lenses arranged into boxes by it.
use vstd::prelude::*;
use vstd::string::StringSliceAdditionalSpecFns;
use crate::text::{all_digits, dec_value, parse_u64, rows_view, split_bytes, split_on};

verus! {

/// Add each byte, multiply by 17, keep the remainder by 256.
pub open spec fn hash_of(s: Seq<u8>) -> nat
    decreases s.len(),
{
    if s.len() == 0 {
        0
    } else {
        (((hash_of(s.drop_last()) + s.last()) * 17) % 256) as nat
    }
}

/// The hash of a string.
pub fn hash(s: &[u8]) -> (r: u64)
    ensures
        r == hash_of(s@),
        r < 256,
{
    let mut h: u64 = 0;
    let mut i: usize = 0;
    while i < s.len()
        invariant
            i <= s@.len(),
            h == hash_of(s@.take(i as int)),
            h < 256,
        decreases s@.len() - i,
    {
        assert(s@.take(i + 1).drop_last() == s@.take(i as int));
        h = ((h + s[i] as u64) * 17) % 256;
        i += 1;
    }
    assert(s@.take(s@.len() as int) == s@);
    h
}

/// The text with line breaks read as commas.
pub open spec fn flat(text: Seq<u8>) -> Seq<u8> {
    Seq::new(text.len(), |i: int| if text[i] == 10 { 44u8 } else { text[i] })
}

/// The comma-separated steps of the initialization sequence.
pub open spec fn steps(text: Seq<u8>) -> Seq<Seq<u8>> {
    split_on(flat(text), 44)
}

pub open spec fn sum_hashes(ps: Seq<Seq<u8>>, n: nat) -> nat
    decreases n,
{
    if n == 0 {
        0
    } else {
        sum_hashes(ps, (n - 1) as nat) + hash_of(ps[n - 1])
    }
}

/// The steps of `input`.
pub fn split_steps(input: &str) -> (r: Vec<Vec<u8>>)
    ensures
        rows_view(r@) == steps(input.spec_bytes()),
{
    let text = input.as_bytes();
    let mut f: Vec<u8> = Vec::new();
    let mut i: usize = 0;
    while i < text.len()
        invariant
            i <= text@.len(),
            f@ == flat(text@).take(i as int),
        decreases text@.len() - i,
    {
        if text[i] == 10 {
            f.push(44);
        } else {
            f.push(text[i]);
        }
        i += 1;
        assert(f@ == flat(text@).take(i as int));
    }
    assert(f@ == flat(text@));
    split_bytes(f.as_slice(), 44)
}

proof fn lemma_sum_hashes_grows(ps: Seq<Seq<u8>>, i: nat, n: nat)
    requires
        i <= n,
    ensures
        sum_hashes(ps, i) <= sum_hashes(ps, n),
    decreases n - i,
{
    if i < n {
        lemma_sum_hashes_grows(ps, i, (n - 1) as nat);
    }
}

/// Sum of the hashes of the steps; `None` when it exceeds `u64::MAX`.
pub fn part1(input: &str) -> (r: Option<u64>)
    ensures
        r is Some ==> r.unwrap() == sum_hashes(steps(input.spec_bytes()), steps(input.spec_bytes()).len()),
        r is None ==> sum_hashes(steps(input.spec_bytes()), steps(input.spec_bytes()).len()) > u64::MAX,
{
    let ps = split_steps(input);
    let ghost pv = steps(input.spec_bytes());
    let mut acc: u64 = 0;
    let mut i: usize = 0;
    while i < ps.len()
        invariant
            i <= ps@.len(),
            rows_view(ps@) == pv,
            pv == steps(input.spec_bytes()),
            acc == sum_hashes(pv, i as nat),
        decreases ps@.len() - i,
    {
        assert(ps@[i as int]@ == pv[i as int]);
        let h = hash(ps[i].as_slice());
        if acc > u64::MAX - h {
            proof {
                lemma_sum_hashes_grows(pv, (i + 1) as nat, pv.len());
            }
            return None;
        }
        acc = acc + h;
        i += 1;
    }
    Some(acc)
}

/// A step: put the lens of focal length `focal` labelled `label` in its box,
/// or (when `focal` is `None`) take it out.
pub struct Step {
    pub label: Vec<u8>,
    pub focal: Option<u64>,
}

/// `label-` or `label=focal`, with a non-empty label.
pub open spec fn step_ok(p: Seq<u8>) -> bool {
    let parts = split_on(p, 61);
    if parts.len() == 1 {
        p.len() >= 2 && p.last() == 45
    } else {
        parts.len() == 2 && parts[0].len() > 0 && parts[1].len() > 0 && all_digits(parts[1]) && dec_value(parts[1])
            <= u64::MAX
    }
}

pub open spec fn step_label(p: Seq<u8>) -> Seq<u8> {
    let parts = split_on(p, 61);
    if parts.len() == 1 {
        p.drop_last()
    } else {
        parts[0]
    }
}

pub open spec fn step_focal(p: Seq<u8>) -> Option<nat> {
    let parts = split_on(p, 61);
    if parts.len() == 1 {
        None
    } else {
        Some(dec_value(parts[1]))
    }
}

/// Reads one step.
pub fn parse_step(p: &[u8]) -> (r: Option<Step>)
    ensures
        r is Some <==> step_ok(p@),
        r is Some ==> r.unwrap().label@ == step_label(p@) && match r.unwrap().focal {
            Some(f) => step_focal(p@) == Some(f as nat),
            None => step_focal(p@) is None,
        },
{
    let parts = split_bytes(p, 61);
    if parts.len() == 1 {
        if p.len() >= 2 && p[p.len() - 1] == 45 {
            let (label, _) = p.split_at(p.len() - 1);
            assert(label@ == p@.drop_last());
            return Some(Step { label: crate::circuit::copy_bytes(label), focal: None });
        }
        return None;
    }
    if parts.len() != 2 || parts[0].len() == 0 || parts[1].len() == 0 {
        return None;
    }
    assert(parts@[0]@ == split_on(p@, 61)[0]);
    assert(parts@[1]@ == split_on(p@, 61)[1]);
    match parse_u64(parts[1].as_slice()) {
        None => None,
        Some(f) => Some(Step { label: crate::circuit::copy_bytes(parts[0].as_slice()), focal: Some(f) }),
    }
}

/// A box's lenses as labels and focal lengths.
pub open spec fn box_view(b: Seq<(Vec<u8>, u64)>) -> Seq<(Seq<u8>, nat)> {
    Seq::new(b.len(), |i: int| (b[i].0@, b[i].1 as nat))
}

/// Position of the lens labelled `label` in a box, from `i` on (`-1` when
/// absent).
pub open spec fn find_from(b: Seq<(Seq<u8>, nat)>, label: Seq<u8>, i: int) -> int
    decreases b.len() - i,
{
    if i < 0 || i >= b.len() {
        -1
    } else if b[i].0 == label {
        i
    } else {
        find_from(b, label, i + 1)
    }
}

/// A box after one step on it.
pub open spec fn apply_to_box(b: Seq<(Seq<u8>, nat)>, label: Seq<u8>, focal: Option<nat>) -> Seq<(Seq<u8>, nat)> {
    let at = find_from(b, label, 0);
    match focal {
        Some(f) => if at >= 0 {
            b.update(at, (label, f))
        } else {
            b.push((label, f))
        },
        None => if at >= 0 {
            b.remove(at)
        } else {
            b
        },
    }
}

/// The 256 boxes after the first `n` non-empty steps of `ps`.
pub open spec fn boxes_after(ps: Seq<Seq<u8>>, n: nat) -> Seq<Seq<(Seq<u8>, nat)>>
    decreases n,
{
    if n == 0 {
        Seq::new(256, |i: int| Seq::<(Seq<u8>, nat)>::empty())
    } else {
        let prev = boxes_after(ps, (n - 1) as nat);
        let p = ps[n - 1];
        if p.len() == 0 {
            prev
        } else {
            let b = hash_of(step_label(p)) as int;
            prev.update(b, apply_to_box(prev[b], step_label(p), step_focal(p)))
        }
    }
}

proof fn lemma_boxes_len(ps: Seq<Seq<u8>>, n: nat)
    ensures
        boxes_after(ps, n).len() == 256,
    decreases n,
{
    if n > 0 {
        lemma_boxes_len(ps, (n - 1) as nat);
    }
}

/// Focusing power of the first `n` lenses of box number `b`.
pub open spec fn box_power(b: nat, lenses: Seq<(Seq<u8>, nat)>, n: nat) -> nat
    decreases n,
{
    if n == 0 {
        0
    } else {
        box_power(b, lenses, (n - 1) as nat) + (b + 1) * n * lenses[n - 1].1
    }
}

/// Focusing power of the first `n` boxes.
pub open spec fn total_power(boxes: Seq<Seq<(Seq<u8>, nat)>>, n: nat) -> nat
    decreases n,
{
    if n == 0 {
        0
    } else {
        total_power(boxes, (n - 1) as nat) + box_power((n - 1) as nat, boxes[n - 1], boxes[n - 1].len())
    }
}

/// Position of the lens labelled `label`.
fn find_lens(b: &Vec<(Vec<u8>, u64)>, label: &Vec<u8>) -> (r: Option<usize>)
    ensures
        r is Some ==> r.unwrap() < b@.len() && find_from(box_view(b@), label@, 0) == r.unwrap(),
        r is None ==> find_from(box_view(b@), label@, 0) == -1,
{
    let ghost bv = box_view(b@);
    let mut i: usize = 0;
    while i < b.len()
        invariant
            i <= b@.len(),
            bv == box_view(b@),
            find_from(bv, label@, 0) == find_from(bv, label@, i as int),
        decreases b@.len() - i,
    {
        if crate::circuit::bytes_eq(b[i].0.as_slice(), label.as_slice()) {
            return Some(i);
        }
        i += 1;
    }
    None
}

/// Applies a step to its box.
pub fn apply_step(boxes: &mut Vec<Vec<(Vec<u8>, u64)>>, step: Step)
    requires
        old(boxes)@.len() == 256,
    ensures
        final(boxes)@.len() == 256,
        ({
            let b = hash_of(step.label@) as int;
            let f = match step.focal {
                Some(f) => Some(f as nat),
                None => None,
            };
            forall|i: int|
                0 <= i < 256 ==> box_view(#[trigger] final(boxes)@[i]@) == if i == b {
                    apply_to_box(box_view(old(boxes)@[i]@), step.label@, f)
                } else {
                    box_view(old(boxes)@[i]@)
                }
        }),
{
    let h = hash(step.label.as_slice()) as usize;
    let ghost f = match step.focal {
        Some(f) => Some(f as nat),
        None => None,
    };
    let ghost before = boxes@[h as int]@;
    let at = find_lens(&boxes[h], &step.label);
    match step.focal {
        Some(focal) => {
            match at {
                Some(i) => {
                    boxes[h].set(i, (step.label, focal));
                },
                None => {
                    boxes[h].push((step.label, focal));
                },
            }
        },
        None => {
            match at {
                Some(i) => {
                    boxes[h].remove(i);
                },
                None => {},
            }
        },
    }
    proof {
        assert(box_view(boxes@[h as int]@) =~= apply_to_box(box_view(before), step.label@, f));
    }
}

/// Total focusing power of the boxes.
proof fn lemma_box_power_grows(b: nat, l: Seq<(Seq<u8>, nat)>, i: nat, n: nat)
    requires
        i <= n,
    ensures
        box_power(b, l, i) <= box_power(b, l, n),
    decreases n - i,
{
    if i < n {
        lemma_box_power_grows(b, l, i, (n - 1) as nat);
    }
}

proof fn lemma_total_power_grows(bs: Seq<Seq<(Seq<u8>, nat)>>, m: nat, n: nat)
    requires
        m <= n,
    ensures
        total_power(bs, m) <= total_power(bs, n),
    decreases n - m,
{
    if m < n {
        lemma_total_power_grows(bs, m, (n - 1) as nat);
    }
}

pub fn focusing_power(boxes: &Vec<Vec<(Vec<u8>, u64)>>) -> (r: Option<u64>)
    requires
        boxes@.len() <= 256,
    ensures
        r is Some ==> r.unwrap() == total_power(
            Seq::new(boxes@.len(), |i: int| box_view(boxes@[i]@)),
            boxes@.len(),
        ),
        r is None ==> total_power(Seq::new(boxes@.len(), |i: int| box_view(boxes@[i]@)), boxes@.len()) > u64::MAX,
{
    let ghost bs = Seq::new(boxes@.len(), |i: int| box_view(boxes@[i]@));
    let mut acc: u64 = 0;
    let mut b: usize = 0;
    while b < boxes.len()
        invariant
            b <= boxes@.len(),
            boxes@.len() <= 256,
            bs == Seq::new(boxes@.len(), |i: int| box_view(boxes@[i]@)),
            acc == total_power(bs, b as nat),
        decreases boxes@.len() - b,
    {
        let lenses = &boxes[b];
        let ghost lv = box_view(lenses@);
        assert(bs[b as int] == lv);
        let mut part: u64 = 0;
        let mut i: usize = 0;
        while i < lenses.len()
            invariant
                i <= lenses@.len(),
                lv == box_view(lenses@),
                b < boxes@.len(),
                bs == Seq::new(boxes@.len(), |i: int| box_view(boxes@[i]@)),
                bs[b as int] == lv,
                acc == total_power(bs, b as nat),
                boxes@.len() <= 256,
                part == box_power(b as nat, lv, i as nat),
            decreases lenses@.len() - i,
        {
            let f = lenses[i].1;
            assert((b + 1) * (i + 1) <= 256 * (usize::MAX as int + 1)) by (nonlinear_arith)
                requires b < 256, i <= usize::MAX, b >= 0, i >= 0;
            let w = (b as u128 + 1) * (i as u128 + 1);
            assert(w > 0) by (nonlinear_arith)
                requires w == (b + 1) * (i + 1), b >= 0, i >= 0;
            assert(w == (b + 1) * (i + 1));
            assert(lv[i as int].1 == f as nat);
            if f != 0 && (w > u64::MAX as u128 || f as u128 > (u64::MAX as u128) / w) {
                proof {
                    assert(w * f > u64::MAX) by (nonlinear_arith)
                        requires f >= 1, w > u64::MAX || f > (u64::MAX as u128) / w, w > 0;
                    assert(box_power(b as nat, lv, (i + 1) as nat) >= w * f);
                    lemma_box_power_grows(b as nat, lv, (i + 1) as nat, lv.len());
                    assert(total_power(bs, (b + 1) as nat) == acc + box_power(b as nat, lv, lv.len()));
                    lemma_total_power_grows(bs, (b + 1) as nat, bs.len());
                }
                return None;
            }
            assert(w * f <= u64::MAX) by (nonlinear_arith)
                requires f == 0 || f <= (u64::MAX as u128) / w, w > 0;
            let term = (w * f as u128) as u64;
            if part > u64::MAX - term {
                proof {
                    assert(term == (b + 1) * (i + 1) * f);
                    lemma_box_power_grows(b as nat, lv, (i + 1) as nat, lv.len());
                    assert(total_power(bs, (b + 1) as nat) == acc + box_power(b as nat, lv, lv.len()));
                    lemma_total_power_grows(bs, (b + 1) as nat, bs.len());
                }
                return None;
            }
            assert(term == (b + 1) * (i + 1) * f);
            part = part + term;
            i += 1;
        }
        if acc > u64::MAX - part {
            proof {
                lemma_total_power_grows(bs, (b + 1) as nat, bs.len());
            }
            return None;
        }
        acc = acc + part;
        b += 1;
    }
    Some(acc)
}

/// Runs the initialization sequence (skipping empty steps) and gives the
/// total focusing power; `None` when a step is malformed or the power
/// exceeds `u64::MAX`.
pub fn part2(input: &str) -> (r: Option<u64>)
    ensures
        r is Some ==> ({
            let ps = steps(input.spec_bytes());
            r.unwrap() == total_power(boxes_after(ps, ps.len()), 256)
        }),
        r is None ==> ({
            let ps = steps(input.spec_bytes());
            (exists|i: int| 0 <= i < ps.len() && (#[trigger] ps[i]).len() > 0 && !step_ok(ps[i])) || total_power(
                boxes_after(ps, ps.len()),
                256,
            ) > u64::MAX
        }),
{
    let ps = split_steps(input);
    let ghost pv = steps(input.spec_bytes());
    let mut boxes: Vec<Vec<(Vec<u8>, u64)>> = Vec::new();
    let mut k: usize = 0;
    while k < 256
        invariant
            k <= 256,
            boxes@.len() == k,
            forall|j: int| 0 <= j < k ==> (#[trigger] boxes@[j])@.len() == 0,
        decreases 256 - k,
    {
        boxes.push(Vec::new());
        k += 1;
    }
    let mut i: usize = 0;
    while i < ps.len()
        invariant
            i <= ps@.len(),
            rows_view(ps@) == pv,
            pv == steps(input.spec_bytes()),
            boxes@.len() == 256,
            forall|j: int| 0 <= j < 256 ==> box_view((#[trigger] boxes@[j])@) == boxes_after(pv, i as nat)[j],
        decreases ps@.len() - i,
    {
        assert(ps@[i as int]@ == pv[i as int]);
        proof {
            lemma_boxes_len(pv, i as nat);
            lemma_boxes_len(pv, (i + 1) as nat);
        }
        if ps[i].len() > 0 {
            let step = match parse_step(ps[i].as_slice()) {
                None => {
                    assert(pv[i as int].len() > 0 && !step_ok(pv[i as int]));
                    return None;
                },
                Some(s) => s,
            };
            let ghost f = match step.focal {
                Some(f) => Some(f as nat),
                None => None,
            };
            assert(f == step_focal(pv[i as int]));
            let ghost label = step.label@;
            let ghost before = boxes@;
            apply_step(&mut boxes, step);
            proof {
                let b = hash_of(label) as int;
                assert forall|j: int| 0 <= j < 256 implies box_view((#[trigger] boxes@[j])@) == boxes_after(pv, (i + 1) as nat)[j] by {
                    assert(box_view(before[j]@) == boxes_after(pv, i as nat)[j]);
                }
            }
        }
        i += 1;
    }
    proof {
        lemma_boxes_len(pv, pv.len());
    }
    assert(Seq::new(boxes@.len(), |j: int| box_view(boxes@[j]@)) =~= boxes_after(pv, pv.len()));
    focusing_power(&boxes)
}

} // verus!
