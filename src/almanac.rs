//! An almanac of number maps taking seeds through soil, water and so on to
//! locations.
use vstd::prelude::*;
use vstd::string::StringSliceAdditionalSpecFns;
use crate::mirrors::{parse_patterns, patterns_of};
use crate::text::{all_digits, dec_value, parse_u64, rows_view, split_words, words};

verus! {

/// A line of numbers separated by spaces, after `skip` leading words.
pub open spec fn numbers_ok(l: Seq<u8>, skip: nat) -> bool {
    let w = words(l);
    w.len() >= skip && forall|k: int| skip <= k < w.len() ==> all_digits(#[trigger] w[k]) && dec_value(w[k]) <= u64::MAX
}

pub open spec fn numbers(l: Seq<u8>, skip: nat) -> Seq<nat> {
    let w = words(l);
    Seq::new((w.len() - skip) as nat, |k: int| dec_value(w[k + skip]))
}

pub open spec fn nats(v: Seq<u64>) -> Seq<nat> {
    Seq::new(v.len(), |i: int| v[i] as nat)
}

/// Reads the numbers of a line after its first `skip` words.
pub fn parse_numbers(l: &[u8], skip: usize) -> (r: Option<Vec<u64>>)
    ensures
        r is Some <==> numbers_ok(l@, skip as nat),
        r is Some ==> nats(r.unwrap()@) == numbers(l@, skip as nat),
{
    let w = split_words(l);
    let ghost wv = words(l@);
    proof {
        crate::text::lemma_words_nonempty(l@);
    }
    if w.len() < skip {
        return None;
    }
    let mut out: Vec<u64> = Vec::new();
    let mut k: usize = skip;
    while k < w.len()
        invariant
            skip <= k <= w@.len(),
            rows_view(w@) == wv,
            wv == words(l@),
            forall|t: int| 0 <= t < wv.len() ==> (#[trigger] wv[t]).len() > 0,
            out@.len() == k - skip,
            forall|t: int| skip <= t < k ==> all_digits(#[trigger] wv[t]) && dec_value(wv[t]) <= u64::MAX,
            forall|t: int| 0 <= t < k - skip ==> out@[t] as nat == #[trigger] dec_value(wv[t + skip]),
        decreases w@.len() - k,
    {
        assert(w@[k as int]@ == wv[k as int]);
        match parse_u64(w[k].as_slice()) {
            None => {
                return None;
            },
            Some(v) => {
                out.push(v);
            },
        }
        k += 1;
    }
    assert(nats(out@) =~= numbers(l@, skip as nat));
    Some(out)
}

/// One line of a map: destination start, source start, length.
pub struct MapRange {
    pub dst: u64,
    pub src: u64,
    pub len: u64,
}

/// The image of `x` under the first range of `m` from `k` on whose source
/// holds it; `x` itself when none does.
pub open spec fn translate_from(m: Seq<(nat, nat, nat)>, x: int, k: int) -> int
    decreases m.len() - k,
{
    if k < 0 || k >= m.len() {
        x
    } else if m[k].1 <= x < m[k].1 + m[k].2 {
        m[k].0 + (x - m[k].1)
    } else {
        translate_from(m, x, k + 1)
    }
}

/// The preimage of `y` under the first range of `m` from `k` on whose
/// destination holds it; `y` itself when none does.
pub open spec fn untranslate_from(m: Seq<(nat, nat, nat)>, y: int, k: int) -> int
    decreases m.len() - k,
{
    if k < 0 || k >= m.len() {
        y
    } else if m[k].0 <= y < m[k].0 + m[k].2 {
        m[k].1 + (y - m[k].0)
    } else {
        untranslate_from(m, y, k + 1)
    }
}

/// `x` taken through the first `n` maps.
pub open spec fn through(ms: Seq<Seq<(nat, nat, nat)>>, x: int, n: nat) -> int
    decreases n,
{
    if n == 0 {
        x
    } else {
        translate_from(ms[n - 1], through(ms, x, (n - 1) as nat), 0)
    }
}

/// `y` taken back through the maps from `n - 1` down to the first.
pub open spec fn back_through(ms: Seq<Seq<(nat, nat, nat)>>, y: int, n: nat) -> int
    decreases n,
{
    if n == 0 {
        y
    } else {
        back_through(ms, untranslate_from(ms[n - 1], y, 0), (n - 1) as nat)
    }
}

pub open spec fn ranges_view(m: Seq<MapRange>) -> Seq<(nat, nat, nat)> {
    Seq::new(m.len(), |i: int| (m[i].dst as nat, m[i].src as nat, m[i].len as nat))
}

pub open spec fn maps_view(ms: Seq<Vec<MapRange>>) -> Seq<Seq<(nat, nat, nat)>> {
    Seq::new(ms.len(), |i: int| ranges_view(ms[i]@))
}

/// Maps `x` by one map.
pub fn translate(m: &Vec<MapRange>, x: i128, back: bool) -> (r: i128)
    requires
        -0x1_0000_0000_0000_0000_0000 <= x <= 0x1_0000_0000_0000_0000_0000,
    ensures
        r == if back {
            untranslate_from(ranges_view(m@), x as int, 0)
        } else {
            translate_from(ranges_view(m@), x as int, 0)
        },
        x - 0x1_0000_0000_0000_0000 <= r <= x + 0x1_0000_0000_0000_0000,
{
    let ghost mv = ranges_view(m@);
    let mut k: usize = 0;
    while k < m.len()
        invariant
            k <= m@.len(),
            mv == ranges_view(m@),
            -0x1_0000_0000_0000_0000_0000 <= x <= 0x1_0000_0000_0000_0000_0000,
            back ==> untranslate_from(mv, x as int, 0) == untranslate_from(mv, x as int, k as int),
            !back ==> translate_from(mv, x as int, 0) == translate_from(mv, x as int, k as int),
        decreases m@.len() - k,
    {
        let rg = &m[k];
        let (from, to) = if back {
            (rg.dst as i128, rg.src as i128)
        } else {
            (rg.src as i128, rg.dst as i128)
        };
        if from <= x && x < from + rg.len as i128 {
            return to + (x - from);
        }
        k += 1;
    }
    x
}

/// Reads a map block: a title line, then one range per line.
pub open spec fn block_ok(b: Seq<Seq<u8>>) -> bool {
    &&& b.len() >= 1
    &&& forall|i: int| 1 <= i < b.len() ==> numbers_ok(#[trigger] b[i], 0) && numbers(b[i], 0).len() == 3
}

pub open spec fn block_ranges(b: Seq<Seq<u8>>) -> Seq<(nat, nat, nat)> {
    Seq::new(
        (b.len() - 1) as nat,
        |i: int| (numbers(b[i + 1], 0)[0], numbers(b[i + 1], 0)[1], numbers(b[i + 1], 0)[2]),
    )
}

pub open spec fn seeds_word() -> Seq<u8> {
    seq![115u8, 101, 101, 100, 115, 58]
}

/// `seeds: ...`, a blank line, then map blocks separated by blank lines.
pub open spec fn almanac_ok(text: Seq<u8>) -> bool {
    let bs = patterns_of(text);
    &&& bs.len() >= 1
    &&& bs[0].len() == 1
    &&& words(bs[0][0]).len() >= 1
    &&& words(bs[0][0])[0] == seeds_word()
    &&& numbers_ok(bs[0][0], 1)
    &&& forall|i: int| 1 <= i < bs.len() ==> block_ok(#[trigger] bs[i])
}

pub open spec fn almanac_seeds(text: Seq<u8>) -> Seq<nat> {
    numbers(patterns_of(text)[0][0], 1)
}

pub open spec fn almanac_maps(text: Seq<u8>) -> Seq<Seq<(nat, nat, nat)>> {
    let bs = patterns_of(text);
    Seq::new((bs.len() - 1) as nat, |i: int| block_ranges(bs[i + 1]))
}

/// Reads an almanac: its seed numbers and its maps in order.
pub fn parse_almanac(input: &str) -> (r: Option<(Vec<u64>, Vec<Vec<MapRange>>)>)
    ensures
        r is Some <==> almanac_ok(input.spec_bytes()),
        r is Some ==> nats(r.unwrap().0@) == almanac_seeds(input.spec_bytes()) && maps_view(r.unwrap().1@)
            == almanac_maps(input.spec_bytes()),
{
    let bs = parse_patterns(input);
    let ghost bv = patterns_of(input.spec_bytes());
    if bs.len() < 1 || bs[0].len() != 1 {
        proof {
            if bs@.len() >= 1 {
                assert(rows_view(bs@[0]@) == bv[0]);
            }
        }
        return None;
    }
    assert(rows_view(bs@[0]@) == bv[0]);
    assert(bs@[0]@[0]@ == bv[0][0]);
    let head = &bs[0][0];
    let w = split_words(head.as_slice());
    let sw: Vec<u8> = vec![115u8, 101, 101, 100, 115, 58];
    assert(sw@ == seeds_word());
    if w.len() < 1 {
        return None;
    }
    assert(w@[0]@ == words(bv[0][0])[0]);
    if !crate::circuit::bytes_eq(w[0].as_slice(), sw.as_slice()) {
        return None;
    }
    let seeds = match parse_numbers(head.as_slice(), 1) {
        None => {
            return None;
        },
        Some(s) => s,
    };
    let mut maps: Vec<Vec<MapRange>> = Vec::new();
    let mut i: usize = 1;
    while i < bs.len()
        invariant
            1 <= i <= bs@.len(),
            bv == patterns_of(input.spec_bytes()),
            bv.len() >= 1,
            bv[0].len() == 1,
            words(bv[0][0]).len() >= 1,
            words(bv[0][0])[0] == seeds_word(),
            numbers_ok(bv[0][0], 1),
            nats(seeds@) == numbers(bv[0][0], 1),
            bs@.len() == bv.len(),
            forall|j: int| 0 <= j < bs@.len() ==> rows_view((#[trigger] bs@[j])@) == bv[j],
            maps@.len() == i - 1,
            forall|j: int| 1 <= j < i ==> block_ok(#[trigger] bv[j]),
            forall|j: int| 0 <= j < i - 1 ==> ranges_view((#[trigger] maps@[j])@) == block_ranges(bv[j + 1]),
        decreases bs@.len() - i,
    {
        let block = &bs[i];
        assert(rows_view(block@) == bv[i as int]);
        if block.len() < 1 {
            assert(!block_ok(bv[i as int]));
            return None;
        }
        let mut ranges: Vec<MapRange> = Vec::new();
        let mut k: usize = 1;
        while k < block.len()
            invariant
                1 <= k <= block@.len(),
                1 <= i < bv.len(),
                bv == patterns_of(input.spec_bytes()),
                rows_view(block@) == bv[i as int],
                ranges@.len() == k - 1,
                forall|t: int| 1 <= t < k ==> numbers_ok(#[trigger] bv[i as int][t], 0) && numbers(bv[i as int][t], 0).len() == 3,
                forall|t: int| 0 <= t < k - 1 ==> #[trigger] ranges_view(ranges@)[t] == block_ranges(bv[i as int])[t],
            decreases block@.len() - k,
        {
            assert(block@[k as int]@ == bv[i as int][k as int]);
            let nums = match parse_numbers(block[k].as_slice(), 0) {
                None => {
                    assert(!block_ok(bv[i as int]));
                    return None;
                },
                Some(n) => n,
            };
            if nums.len() != 3 {
                assert(numbers(bv[i as int][k as int], 0).len() != 3);
                assert(!block_ok(bv[i as int]));
                return None;
            }
            let ghost before = ranges@;
            ranges.push(MapRange { dst: nums[0], src: nums[1], len: nums[2] });
            proof {
                assert forall|t: int| 0 <= t < k implies #[trigger] ranges_view(ranges@)[t] == block_ranges(bv[i as int])[t] by {
                    if t < k - 1 {
                        assert(ranges@[t] == before[t]);
                        assert(ranges_view(ranges@)[t] == ranges_view(before)[t]);
                    } else {
                        assert(bv[i as int][k as int] == block@[k as int]@);
                        assert(nats(nums@) == numbers(bv[i as int][k as int], 0));
                        assert(nats(nums@)[0] == nums@[0] as nat);
                        assert(nats(nums@)[1] == nums@[1] as nat);
                        assert(nats(nums@)[2] == nums@[2] as nat);
                    }
                }
            }
            k += 1;
        }
        assert(ranges_view(ranges@) =~= block_ranges(bv[i as int]));
        maps.push(ranges);
        i += 1;
    }
    proof {
        assert(maps_view(maps@) =~= almanac_maps(input.spec_bytes()));
    }
    Some((seeds, maps))
}

/// Each seed taken through every map.
pub open spec fn location(ms: Seq<Seq<(nat, nat, nat)>>, seed: nat) -> int {
    through(ms, seed as int, ms.len())
}

/// The least location of the first `n` seeds.
pub open spec fn min_location(ms: Seq<Seq<(nat, nat, nat)>>, seeds: Seq<nat>, n: nat) -> int
    decreases n,
{
    if n <= 1 {
        location(ms, seeds[0])
    } else {
        let prev = min_location(ms, seeds, (n - 1) as nat);
        let here = location(ms, seeds[n - 1]);
        if here < prev {
            here
        } else {
            prev
        }
    }
}

/// Takes `x` through all maps (or back through them, last map first).
fn through_all(maps: &Vec<Vec<MapRange>>, x: i128, back: bool) -> (r: i128)
    requires
        0 <= x <= 0x2_0000_0000_0000_0000,
        maps@.len() <= 1000,
    ensures
        r == if back {
            back_through(maps_view(maps@), x as int, maps@.len() as nat)
        } else {
            through(maps_view(maps@), x as int, maps@.len() as nat)
        },
{
    let ghost mv = maps_view(maps@);
    let n = maps.len();
    let mut v = x;
    let mut k: usize = 0;
    while k < n
        invariant
            k <= n,
            n == maps@.len() <= 1000,
            mv == maps_view(maps@),
            -(k * 0x1_0000_0000_0000_0000) <= v <= 0x2_0000_0000_0000_0000 + k * 0x1_0000_0000_0000_0000,
            !back ==> v == through(mv, x as int, k as nat),
            back ==> back_through(mv, x as int, n as nat) == back_through(mv, v as int, (n - k) as nat),
        decreases n - k,
    {
        if back {
            assert(mv[n - 1 - k] == ranges_view(maps@[n - 1 - k as int]@));
            v = translate(&maps[n - 1 - k], v, true);
        } else {
            assert(mv[k as int] == ranges_view(maps@[k as int]@));
            v = translate(&maps[k], v, false);
        }
        k += 1;
    }
    v
}

/// The least location that any seed reaches; `None` when the text is not
/// an almanac, it lists no seed, or it has over a thousand maps.
pub fn part1(input: &str) -> (r: Option<i128>)
    ensures
        r is Some <==> (almanac_ok(input.spec_bytes()) && almanac_seeds(input.spec_bytes()).len() > 0
            && almanac_maps(input.spec_bytes()).len() <= 1000),
        r is Some ==> almanac_seeds(input.spec_bytes()).len() > 0 && r.unwrap() == min_location(
            almanac_maps(input.spec_bytes()),
            almanac_seeds(input.spec_bytes()),
            almanac_seeds(input.spec_bytes()).len(),
        ),
{
    let (seeds, maps) = match parse_almanac(input) {
        None => {
            return None;
        },
        Some(a) => a,
    };
    let ghost sv = almanac_seeds(input.spec_bytes());
    let ghost mv = almanac_maps(input.spec_bytes());
    if seeds.len() == 0 || maps.len() > 1000 {
        return None;
    }
    assert(sv[0] == seeds@[0] as nat);
    let mut best = through_all(&maps, seeds[0] as i128, false);
    let mut i: usize = 1;
    while i < seeds.len()
        invariant
            1 <= i <= seeds@.len(),
            maps@.len() <= 1000,
            nats(seeds@) == sv,
            maps_view(maps@) == mv,
            best == min_location(mv, sv, i as nat),
        decreases seeds@.len() - i,
    {
        assert(sv[i as int] == seeds@[i as int] as nat);
        let here = through_all(&maps, seeds[i] as i128, false);
        if here < best {
            best = here;
        }
        i += 1;
    }
    Some(best)
}

/// `x` lies in one of the seed ranges, given as start and length pairs.
pub open spec fn in_seed_ranges(seeds: Seq<nat>, x: int) -> bool {
    exists|k: int| 0 <= k < seeds.len() / 2 && seeds[2 * k] <= x < #[trigger] seeds[2 * k] + seeds[2 * k + 1]
}

/// Most locations tried when searching for the lowest one.
pub const MAX_LOCATION: u64 = 1000000000;

/// The lowest location whose seed, found by taking it back through the
/// maps, lies in a seed range; `None` when the text is not an almanac with
/// seed ranges or no location up to `MAX_LOCATION` has one.
pub fn part2(input: &str) -> (r: Option<u64>)
    ensures
        !almanac_ok(input.spec_bytes()) ==> r is None,
        r is None ==> !almanac_ok(input.spec_bytes()) || almanac_maps(input.spec_bytes()).len() > 1000 || forall|l: int|
            0 <= l <= MAX_LOCATION ==> !in_seed_ranges(
                almanac_seeds(input.spec_bytes()),
                #[trigger] back_through(almanac_maps(input.spec_bytes()), l, almanac_maps(input.spec_bytes()).len()),
            ),
        r is Some ==> ({
            let sv = almanac_seeds(input.spec_bytes());
            let mv = almanac_maps(input.spec_bytes());
            &&& in_seed_ranges(sv, back_through(mv, r.unwrap() as int, mv.len()))
            &&& forall|l: int| 0 <= l < r.unwrap() ==> !in_seed_ranges(sv, #[trigger] back_through(mv, l, mv.len()))
        }),
{
    let (seeds, maps) = match parse_almanac(input) {
        None => {
            return None;
        },
        Some(a) => a,
    };
    let ghost sv = almanac_seeds(input.spec_bytes());
    let ghost mv = almanac_maps(input.spec_bytes());
    if maps.len() > 1000 {
        return None;
    }
    let slen = seeds.len();
    let pairs = slen / 2;
    let mut loc: u64 = 0;
    while loc <= MAX_LOCATION
        invariant
            almanac_ok(input.spec_bytes()),
            sv == almanac_seeds(input.spec_bytes()),
            mv == almanac_maps(input.spec_bytes()),
            slen == seeds@.len(),
            maps@.len() <= 1000,
            nats(seeds@) == sv,
            maps_view(maps@) == mv,
            pairs == seeds@.len() / 2,
            forall|l: int| 0 <= l < loc ==> !in_seed_ranges(sv, #[trigger] back_through(mv, l, mv.len())),
        decreases MAX_LOCATION + 1 - loc,
    {
        let seed = through_all(&maps, loc as i128, true);
        let mut k: usize = 0;
        while k < pairs
            invariant
                k <= pairs,
                slen == seeds@.len(),
                pairs == seeds@.len() / 2,
                nats(seeds@) == sv,
                almanac_ok(input.spec_bytes()),
                sv == almanac_seeds(input.spec_bytes()),
                mv == almanac_maps(input.spec_bytes()),
                maps_view(maps@) == mv,
                seed == back_through(mv, loc as int, mv.len()),
                forall|l: int| 0 <= l < loc ==> !in_seed_ranges(sv, #[trigger] back_through(mv, l, mv.len())),
                forall|t: int| 0 <= t < k ==> !(sv[2 * t] <= seed < #[trigger] sv[2 * t] + sv[2 * t + 1]),
            decreases pairs - k,
        {
            let start = seeds[2 * k] as i128;
            let len = seeds[2 * k + 1] as i128;
            assert(sv[2 * k as int] == start && sv[2 * k + 1] == len);
            if start <= seed && seed < start + len {
                assert(in_seed_ranges(sv, seed as int));
                return Some(loc);
            }
            k += 1;
        }
        assert(!in_seed_ranges(sv, back_through(mv, loc as int, mv.len())));
        loc += 1;
    }
    None
}

} // verus!
