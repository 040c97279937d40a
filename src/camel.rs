//! Camel cards: hands ranked by type then card by card, and the winnings of
//! their bids.
use vstd::prelude::*;
use vstd::string::StringSliceAdditionalSpecFns;
use crate::text::{all_digits, content_lines, dec_value, lines_of, parse_u64, rows_view, split_words, words};

verus! {

pub open spec fn joker() -> u8 {
    74
}

/// Strength of a card label (higher is stronger), or 13 for no card; with
/// `jokers` the `J` is the weakest card.
pub open spec fn strength(b: u8, jokers: bool) -> nat {
    if b == 50 {
        1
    } else if b == 51 {
        2
    } else if b == 52 {
        3
    } else if b == 53 {
        4
    } else if b == 54 {
        5
    } else if b == 55 {
        6
    } else if b == 56 {
        7
    } else if b == 57 {
        8
    } else if b == 84 {
        9
    } else if b == 74 {
        if jokers {
            0
        } else {
            10
        }
    } else if b == 81 {
        11
    } else if b == 75 {
        12
    } else if b == 65 {
        13
    } else {
        14
    }
}

/// How many of the first `n` cards are `c`.
pub open spec fn count(h: Seq<u8>, c: u8, n: nat) -> nat
    decreases n,
{
    if n == 0 {
        0
    } else {
        count(h, c, (n - 1) as nat) + if h[n - 1] == c {
            1nat
        } else {
            0nat
        }
    }
}

/// The largest count of a card among the first `n` cards, jokers left out
/// when `jokers`.
pub open spec fn most(h: Seq<u8>, jokers: bool, n: nat) -> nat
    decreases n,
{
    if n == 0 {
        0
    } else {
        let prev = most(h, jokers, (n - 1) as nat);
        let c = h[n - 1];
        let here = if jokers && c == joker() {
            0
        } else {
            count(h, c, 5)
        };
        if here > prev {
            here
        } else {
            prev
        }
    }
}

/// Distinct labels among the first `n` cards, jokers left out when
/// `jokers`.
pub open spec fn distinct(h: Seq<u8>, jokers: bool, n: nat) -> nat
    decreases n,
{
    if n == 0 {
        0
    } else {
        let c = h[n - 1];
        distinct(h, jokers, (n - 1) as nat) + if (jokers && c == joker()) || count(h, c, (n - 1) as nat) > 0 {
            0nat
        } else {
            1nat
        }
    }
}

/// 6 five of a kind, 5 four, 4 full house, 3 three, 2 two pair, 1 one
/// pair, 0 high card; with `jokers` each `J` joins the commonest other card.
pub open spec fn hand_type(h: Seq<u8>, jokers: bool) -> nat {
    let m = most(h, jokers, 5) + if jokers {
        count(h, joker(), 5)
    } else {
        0
    };
    let d0 = distinct(h, jokers, 5);
    let d = if d0 == 0 {
        1
    } else {
        d0
    };
    if m >= 5 {
        6
    } else if m == 4 {
        5
    } else if m == 3 && d == 2 {
        4
    } else if m == 3 {
        3
    } else if m == 2 && d == 3 {
        2
    } else if m == 2 {
        1
    } else {
        0
    }
}

/// `a` is weaker than `b` by their cards from position `i` on.
pub open spec fn cards_less(a: Seq<u8>, b: Seq<u8>, jokers: bool, i: nat) -> bool
    decreases 5 - i,
{
    if i >= 5 {
        false
    } else if strength(a[i as int], jokers) != strength(b[i as int], jokers) {
        strength(a[i as int], jokers) < strength(b[i as int], jokers)
    } else {
        cards_less(a, b, jokers, i + 1)
    }
}

/// Hand `a` ranks below hand `b`.
pub open spec fn weaker(a: Seq<u8>, b: Seq<u8>, jokers: bool) -> bool {
    hand_type(a, jokers) < hand_type(b, jokers) || (hand_type(a, jokers) == hand_type(b, jokers) && cards_less(
        a,
        b,
        jokers,
        0,
    ))
}

fn strength_exec(b: u8, jokers: bool) -> (r: u8)
    ensures
        r as nat == strength(b, jokers),
{
    if b == 50 {
        1
    } else if b == 51 {
        2
    } else if b == 52 {
        3
    } else if b == 53 {
        4
    } else if b == 54 {
        5
    } else if b == 55 {
        6
    } else if b == 56 {
        7
    } else if b == 57 {
        8
    } else if b == 84 {
        9
    } else if b == 74 {
        if jokers {
            0
        } else {
            10
        }
    } else if b == 81 {
        11
    } else if b == 75 {
        12
    } else if b == 65 {
        13
    } else {
        14
    }
}

fn count_exec(h: &Vec<u8>, c: u8, n: usize) -> (r: u64)
    requires
        n <= h@.len(),
    ensures
        r == count(h@, c, n as nat),
        r <= n,
{
    let mut k: usize = 0;
    let mut r: u64 = 0;
    while k < n
        invariant
            k <= n <= h@.len(),
            r == count(h@, c, k as nat),
            r <= k,
        decreases n - k,
    {
        if h[k] == c {
            r += 1;
        }
        k += 1;
    }
    r
}

/// The type of a hand of five cards.
pub fn hand_type_exec(h: &Vec<u8>, jokers: bool) -> (r: u8)
    requires
        h@.len() == 5,
    ensures
        r as nat == hand_type(h@, jokers),
{
    let mut m: u64 = 0;
    let mut d: u64 = 0;
    let mut k: usize = 0;
    while k < 5
        invariant
            k <= 5,
            h@.len() == 5,
            m == most(h@, jokers, k as nat),
            d == distinct(h@, jokers, k as nat),
            m <= 5,
            d <= k,
        decreases 5 - k,
    {
        let c = h[k];
        let here = if jokers && c == 74 {
            0
        } else {
            count_exec(h, c, 5)
        };
        if here > m {
            m = here;
        }
        let seen = count_exec(h, c, k);
        if !((jokers && c == 74) || seen > 0) {
            d += 1;
        }
        k += 1;
    }
    if jokers {
        m = m + count_exec(h, 74, 5);
    }
    if d == 0 {
        d = 1;
    }
    if m >= 5 {
        6
    } else if m == 4 {
        5
    } else if m == 3 && d == 2 {
        4
    } else if m == 3 {
        3
    } else if m == 2 && d == 3 {
        2
    } else if m == 2 {
        1
    } else {
        0
    }
}

/// Whether hand `a` ranks below hand `b`.
pub fn weaker_exec(a: &Vec<u8>, b: &Vec<u8>, jokers: bool) -> (r: bool)
    requires
        a@.len() == 5,
        b@.len() == 5,
    ensures
        r == weaker(a@, b@, jokers),
{
    let ta = hand_type_exec(a, jokers);
    let tb = hand_type_exec(b, jokers);
    if ta != tb {
        return ta < tb;
    }
    let mut i: usize = 0;
    while i < 5
        invariant
            i <= 5,
            a@.len() == 5,
            b@.len() == 5,
            ta as nat == hand_type(a@, jokers),
            tb as nat == hand_type(b@, jokers),
            ta == tb,
            cards_less(a@, b@, jokers, 0) == cards_less(a@, b@, jokers, i as nat),
        decreases 5 - i,
    {
        let sa = strength_exec(a[i], jokers);
        let sb = strength_exec(b[i], jokers);
        if sa != sb {
            return sa < sb;
        }
        i += 1;
    }
    false
}

/// `<five cards> <bid>`.
pub open spec fn hand_line_ok(l: Seq<u8>) -> bool {
    let w = words(l);
    &&& w.len() == 2
    &&& w[0].len() == 5
    &&& all_digits(w[1])
    &&& w[1].len() > 0
    &&& dec_value(w[1]) <= u32::MAX
}

pub open spec fn hand_of(l: Seq<u8>) -> Seq<u8> {
    words(l)[0]
}

pub open spec fn bid_of(l: Seq<u8>) -> nat {
    dec_value(words(l)[1])
}

/// Reads a hand and its bid.
pub fn parse_hand(l: &[u8]) -> (r: Option<(Vec<u8>, u64)>)
    ensures
        r is Some <==> hand_line_ok(l@),
        r is Some ==> r.unwrap().0@ == hand_of(l@) && r.unwrap().1 as nat == bid_of(l@),
{
    let w = split_words(l);
    if w.len() != 2 {
        return None;
    }
    assert(w@[0]@ == words(l@)[0] && w@[1]@ == words(l@)[1]);
    if w[0].len() != 5 {
        return None;
    }
    let bid = match parse_u64(w[1].as_slice()) {
        None => {
            return None;
        },
        Some(b) => b,
    };
    if bid > u32::MAX as u64 {
        return None;
    }
    Some((crate::circuit::copy_bytes(w[0].as_slice()), bid))
}

/// Hands below line `n` that rank below line `i`'s hand.
pub open spec fn beaten(ls: Seq<Seq<u8>>, i: int, jokers: bool, n: nat) -> nat
    decreases n,
{
    if n == 0 {
        0
    } else {
        beaten(ls, i, jokers, (n - 1) as nat) + if weaker(hand_of(ls[n - 1]), hand_of(ls[i]), jokers) {
            1nat
        } else {
            0nat
        }
    }
}

/// Sum over the first `n` hands of bid times rank, where a hand's rank is
/// one more than the number of hands below it.
pub open spec fn winnings(ls: Seq<Seq<u8>>, jokers: bool, n: nat) -> nat
    decreases n,
{
    if n == 0 {
        0
    } else {
        winnings(ls, jokers, (n - 1) as nat) + bid_of(ls[n - 1]) * (beaten(ls, n - 1, jokers, ls.len()) + 1)
    }
}

proof fn lemma_winnings_grow(ls: Seq<Seq<u8>>, jokers: bool, i: nat, n: nat)
    requires
        i <= n,
    ensures
        winnings(ls, jokers, i) <= winnings(ls, jokers, n),
    decreases n - i,
{
    if i < n {
        lemma_winnings_grow(ls, jokers, i, (n - 1) as nat);
    }
}

/// Total winnings; `None` when a line is malformed, there are over a
/// million hands, or the total exceeds `u64::MAX`.
pub fn total_winnings(input: &str, jokers: bool) -> (r: Option<u64>)
    ensures
        (forall|i: int|
            0 <= i < content_lines(input.spec_bytes()).len() ==> hand_line_ok(
                #[trigger] content_lines(input.spec_bytes())[i],
            )) || r is None,
        r is Some ==> r.unwrap() == winnings(
            content_lines(input.spec_bytes()),
            jokers,
            content_lines(input.spec_bytes()).len(),
        ),
        r is None ==> (exists|i: int|
            0 <= i < content_lines(input.spec_bytes()).len() && !hand_line_ok(
                #[trigger] content_lines(input.spec_bytes())[i],
            )) || content_lines(input.spec_bytes()).len() > 1000000 || winnings(
            content_lines(input.spec_bytes()),
            jokers,
            content_lines(input.spec_bytes()).len(),
        ) > u64::MAX,
{
    let lines = lines_of(input);
    let ghost ls = content_lines(input.spec_bytes());
    if lines.len() > 1000000 {
        return None;
    }
    let mut hands: Vec<Vec<u8>> = Vec::new();
    let mut bids: Vec<u64> = Vec::new();
    let mut i: usize = 0;
    while i < lines.len()
        invariant
            i <= lines@.len() <= 1000000,
            rows_view(lines@) == ls,
            ls == content_lines(input.spec_bytes()),
            hands@.len() == i,
            bids@.len() == i,
            forall|j: int| 0 <= j < i ==> hand_line_ok(#[trigger] ls[j]),
            forall|j: int| 0 <= j < i ==> (#[trigger] hands@[j])@ == hand_of(ls[j]) && hands@[j]@.len() == 5,
            forall|j: int| 0 <= j < i ==> #[trigger] bids@[j] as nat == bid_of(ls[j]) && bids@[j] <= u32::MAX,
        decreases lines@.len() - i,
    {
        assert(lines@[i as int]@ == ls[i as int]);
        match parse_hand(lines[i].as_slice()) {
            None => {
                assert(!hand_line_ok(ls[i as int]));
                return None;
            },
            Some((h, b)) => {
                hands.push(h);
                bids.push(b);
            },
        }
        i += 1;
    }
    let n = hands.len();
    let mut acc: u64 = 0;
    let mut k: usize = 0;
    while k < n
        invariant
            k <= n == hands@.len() == bids@.len() == ls.len(),
            ls == content_lines(input.spec_bytes()),
            n <= 1000000,
            forall|j: int| 0 <= j < n ==> (#[trigger] hands@[j])@ == hand_of(ls[j]) && hands@[j]@.len() == 5,
            forall|j: int| 0 <= j < n ==> #[trigger] bids@[j] as nat == bid_of(ls[j]) && bids@[j] <= u32::MAX,
            acc == winnings(ls, jokers, k as nat),
        decreases n - k,
    {
        let mut below: u64 = 0;
        let mut t: usize = 0;
        assert(hands@[k as int]@ == hand_of(ls[k as int]));
        while t < n
            invariant
                t <= n,
                k < n,
                n == hands@.len(),
                n == ls.len(),
                forall|j: int| 0 <= j < n ==> (#[trigger] hands@[j])@ == hand_of(ls[j]) && hands@[j]@.len() == 5,
                below == beaten(ls, k as int, jokers, t as nat),
                below <= t,
            decreases n - t,
        {
            assert(hands@[t as int]@ == hand_of(ls[t as int]));
            if weaker_exec(&hands[t], &hands[k], jokers) {
                below += 1;
            }
            t += 1;
        }
        let b = bids[k];
        assert(b * (below + 1) <= (u32::MAX as int) * 1000001) by (nonlinear_arith)
            requires b <= u32::MAX, below <= 1000000;
        let term = b * (below + 1);
        if acc > u64::MAX - term {
            proof {
                lemma_winnings_grow(ls, jokers, (k + 1) as nat, ls.len());
            }
            return None;
        }
        acc = acc + term;
        k += 1;
    }
    Some(acc)
}

/// Total winnings with `J` as a jack.
pub fn part1(input: &str) -> (r: Option<u64>)
    ensures
        r is Some ==> r.unwrap() == winnings(content_lines(input.spec_bytes()), false, content_lines(input.spec_bytes()).len()),
        r is None ==> (exists|i: int|
            0 <= i < content_lines(input.spec_bytes()).len() && !hand_line_ok(
                #[trigger] content_lines(input.spec_bytes())[i],
            )) || content_lines(input.spec_bytes()).len() > 1000000 || winnings(
            content_lines(input.spec_bytes()),
            false,
            content_lines(input.spec_bytes()).len(),
        ) > u64::MAX,
{
    total_winnings(input, false)
}

/// Total winnings with `J` as a joker.
pub fn part2(input: &str) -> (r: Option<u64>)
    ensures
        r is Some ==> r.unwrap() == winnings(content_lines(input.spec_bytes()), true, content_lines(input.spec_bytes()).len()),
        r is None ==> (exists|i: int|
            0 <= i < content_lines(input.spec_bytes()).len() && !hand_line_ok(
                #[trigger] content_lines(input.spec_bytes())[i],
            )) || content_lines(input.spec_bytes()).len() > 1000000 || winnings(
            content_lines(input.spec_bytes()),
            true,
            content_lines(input.spec_bytes()).len(),
        ) > u64::MAX,
{
    total_winnings(input, true)
}

} // verus!
