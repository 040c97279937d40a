//! Scratchcards: matching numbers, points, and cards won as copies.
use vstd::prelude::*;
use vstd::string::StringSliceAdditionalSpecFns;
use crate::text::{all_digits, content_lines, dec_value, lines_of, parse_u64, rows_view, split_words, words};

verus! {

pub open spec fn is_bar(w: Seq<u8>) -> bool {
    w.len() == 1 && w[0] == 124
}

/// Index of the first `|` word at or after `k` (the length when none).
pub open spec fn bar_from(w: Seq<Seq<u8>>, k: int) -> int
    decreases w.len() - k,
{
    if k >= w.len() {
        w.len() as int
    } else if is_bar(w[k]) {
        k
    } else {
        bar_from(w, k + 1)
    }
}

pub open spec fn number_word(w: Seq<u8>) -> bool {
    w.len() > 0 && all_digits(w) && dec_value(w) <= u64::MAX
}

/// `Card <id>: <winning numbers> | <numbers you have>`.
pub open spec fn card_ok(l: Seq<u8>) -> bool {
    let w = words(l);
    let bar = bar_from(w, 2);
    &&& w.len() >= 2
    &&& w[1].len() > 0
    &&& w[1].last() == 58
    &&& bar < w.len()
    &&& forall|k: int| 2 <= k < w.len() && k != bar ==> number_word(#[trigger] w[k])
}

pub open spec fn winning(l: Seq<u8>) -> Seq<nat> {
    let w = words(l);
    Seq::new((bar_from(w, 2) - 2) as nat, |k: int| dec_value(w[k + 2]))
}

pub open spec fn have(l: Seq<u8>) -> Seq<nat> {
    let w = words(l);
    let bar = bar_from(w, 2);
    Seq::new((w.len() - bar - 1) as nat, |k: int| dec_value(w[bar + 1 + k]))
}

/// How many of the first `n` numbers you have are winning numbers.
pub open spec fn matches_upto(win: Seq<nat>, mine: Seq<nat>, n: nat) -> nat
    decreases n,
{
    if n == 0 {
        0
    } else {
        matches_upto(win, mine, (n - 1) as nat) + if win.contains(mine[n - 1]) {
            1nat
        } else {
            0nat
        }
    }
}

pub open spec fn card_matches(l: Seq<u8>) -> nat {
    matches_upto(winning(l), have(l), have(l).len())
}

pub open spec fn pow2(n: nat) -> nat
    decreases n,
{
    if n == 0 {
        1
    } else {
        2 * pow2((n - 1) as nat)
    }
}

/// One point for the first match, doubled for each further one.
pub open spec fn score(m: nat) -> nat {
    if m == 0 {
        0
    } else {
        pow2((m - 1) as nat)
    }
}

/// The winning numbers and the numbers you have on a card.
pub struct Card {
    pub winning_numbers: Vec<u64>,
    pub numbers: Vec<u64>,
}

pub open spec fn nats(s: Seq<u64>) -> Seq<nat> {
    Seq::new(s.len(), |i: int| s[i] as nat)
}

impl Card {
    /// How many of your numbers are winning numbers.
    pub fn matches(&self) -> (r: u64)
        ensures
            r == matches_upto(nats(self.winning_numbers@), nats(self.numbers@), self.numbers@.len()),
            r <= self.numbers@.len(),
    {
        let ghost win = nats(self.winning_numbers@);
        let ghost mine = nats(self.numbers@);
        let mut n: u64 = 0;
        let mut i: usize = 0;
        while i < self.numbers.len()
            invariant
                i <= self.numbers@.len(),
                win == nats(self.winning_numbers@),
                mine == nats(self.numbers@),
                n == matches_upto(win, mine, i as nat),
                n <= i,
            decreases self.numbers@.len() - i,
        {
            let x = self.numbers[i];
            let mut found = false;
            let mut j: usize = 0;
            while j < self.winning_numbers.len()
                invariant
                    j <= self.winning_numbers@.len(),
                    win == nats(self.winning_numbers@),
                    x == self.numbers@[i as int],
                    found == exists|t: int| 0 <= t < j && win[t] == x as nat,
                decreases self.winning_numbers@.len() - j,
            {
                assert(win[j as int] == self.winning_numbers@[j as int] as nat);
                if self.winning_numbers[j] == x {
                    found = true;
                }
                j += 1;
            }
            assert(mine[i as int] == x as nat);
            assert(found == win.contains(x as nat));
            if found {
                n += 1;
            }
            i += 1;
        }
        n
    }

    /// The card's points: zero without matches, else two to the power of
    /// one less than the matches; `None` when that exceeds `u64::MAX`.
    pub fn calc_score(&self) -> (r: Option<u64>)
        ensures
            r is Some <==> score(
                matches_upto(nats(self.winning_numbers@), nats(self.numbers@), self.numbers@.len()),
            ) <= u64::MAX,
            r is Some ==> r.unwrap() == score(
                matches_upto(nats(self.winning_numbers@), nats(self.numbers@), self.numbers@.len()),
            ),
    {
        let m = self.matches();
        if m == 0 {
            return Some(0);
        }
        let mut p: u64 = 1;
        let mut k: u64 = 1;
        while k < m
            invariant
                1 <= k <= m,
                m == matches_upto(nats(self.winning_numbers@), nats(self.numbers@), self.numbers@.len()),
                p == pow2((k - 1) as nat),
            decreases m - k,
        {
            if p > u64::MAX / 2 {
                proof {
                    lemma_pow2_grows((k - 1) as nat, (m - 1) as nat);
                    assert(score(m as nat) == pow2((m - 1) as nat));
                    assert(score(m as nat) > u64::MAX);
                }
                return None;
            }
            p = p * 2;
            k += 1;
        }
        Some(p)
    }
}

proof fn lemma_pow2_grows(a: nat, b: nat)
    requires
        a < b,
    ensures
        pow2(b) >= 2 * pow2(a),
    decreases b - a,
{
    if a + 1 < b {
        lemma_pow2_grows(a, (b - 1) as nat);
        lemma_pow2_positive((b - 1) as nat);
    }
}

proof fn lemma_pow2_positive(n: nat)
    ensures
        pow2(n) >= 1,
    decreases n,
{
    if n > 0 {
        lemma_pow2_positive((n - 1) as nat);
    }
}

/// Reads a card line.
pub fn parse_card(l: &[u8]) -> (r: Option<Card>)
    ensures
        r is Some <==> card_ok(l@),
        r is Some ==> nats(r.unwrap().winning_numbers@) == winning(l@) && nats(r.unwrap().numbers@) == have(l@),
{
    let w = split_words(l);
    let ghost wv = words(l@);
    proof {
        crate::text::lemma_words_nonempty(l@);
    }
    if w.len() < 2 {
        return None;
    }
    assert(w@[1]@ == wv[1]);
    let head = &w[1];
    if head.len() == 0 || head[head.len() - 1] != 58 {
        return None;
    }
    let mut winning_numbers: Vec<u64> = Vec::new();
    let mut k: usize = 2;
    let mut bar_seen = false;
    while k < w.len() && !bar_seen
        invariant
            2 <= k <= w@.len(),
            rows_view(w@) == wv,
            wv == words(l@),
            !bar_seen ==> bar_from(wv, 2) == bar_from(wv, k as int),
            bar_seen ==> k < w@.len() && bar_from(wv, 2) == k,
            winning_numbers@.len() == k - 2,
            forall|j: int| 2 <= j < k ==> number_word(#[trigger] wv[j]),
            forall|j: int| 0 <= j < k - 2 ==> winning_numbers@[j] as nat == #[trigger] dec_value(wv[j + 2]),
        decreases w@.len() - k + if bar_seen { 0int } else { 1int },
    {
        assert(w@[k as int]@ == wv[k as int]);
        if w[k].len() == 1 && w[k][0] == 124 {
            bar_seen = true;
        } else {
            match parse_u64(w[k].as_slice()) {
                None => {
                    assert(!card_ok(l@)) by {
                        assert(k != bar_from(wv, 2)) by {
                            lemma_bar_from_skips(wv, k as int);
                        }
                        assert(!number_word(wv[k as int]));
                    }
                    return None;
                },
                Some(v) => {
                    winning_numbers.push(v);
                },
            }
            k += 1;
        }
    }
    if !bar_seen {
        return None;
    }
    let bar = k;
    let mut numbers: Vec<u64> = Vec::new();
    k = bar + 1;
    while k < w.len()
        invariant
            bar + 1 <= k <= w@.len(),
            2 <= bar < w@.len(),
            rows_view(w@) == wv,
            wv == words(l@),
            bar_from(wv, 2) == bar,
            numbers@.len() == k - bar - 1,
            forall|j: int| bar < j < k ==> number_word(#[trigger] wv[j]),
            forall|j: int| 0 <= j < k - bar - 1 ==> numbers@[j] as nat == #[trigger] dec_value(wv[bar + 1 + j]),
        decreases w@.len() - k,
    {
        assert(w@[k as int]@ == wv[k as int]);
        match parse_u64(w[k].as_slice()) {
            None => {
                assert(!number_word(wv[k as int]));
                assert(!card_ok(l@)) by {
                    assert(k as int != bar_from(wv, 2));
                }
                return None;
            },
            Some(v) => {
                numbers.push(v);
            },
        }
        k += 1;
    }
    let card = Card { winning_numbers, numbers };
    assert(nats(card.winning_numbers@) == winning(l@));
    assert(nats(card.numbers@) == have(l@));
    Some(card)
}

proof fn lemma_bar_from_skips(w: Seq<Seq<u8>>, k: int)
    requires
        0 <= k < w.len(),
        !is_bar(w[k]),
    ensures
        bar_from(w, k) != k,
{
    lemma_bar_from_at_least(w, k + 1);
}

proof fn lemma_bar_from_at_least(w: Seq<Seq<u8>>, k: int)
    requires
        0 <= k,
    ensures
        bar_from(w, k) >= k || (k > w.len() && bar_from(w, k) == w.len()),
    decreases w.len() - k,
{
    if k < w.len() && !is_bar(w[k]) {
        lemma_bar_from_at_least(w, k + 1);
    }
}

/// Reads every card of `input`.
pub fn parse_cards(input: &str) -> (r: Option<Vec<Card>>)
    ensures
        r is Some <==> forall|i: int|
            0 <= i < content_lines(input.spec_bytes()).len() ==> card_ok(
                #[trigger] content_lines(input.spec_bytes())[i],
            ),
        r is Some ==> r.unwrap()@.len() == content_lines(input.spec_bytes()).len() && forall|i: int|
            0 <= i < r.unwrap()@.len() ==> nats((#[trigger] r.unwrap()@[i]).winning_numbers@) == winning(
                content_lines(input.spec_bytes())[i],
            ) && nats(r.unwrap()@[i].numbers@) == have(content_lines(input.spec_bytes())[i]),
{
    let lines = lines_of(input);
    let ghost ls = content_lines(input.spec_bytes());
    let mut cards: Vec<Card> = Vec::new();
    let mut i: usize = 0;
    while i < lines.len()
        invariant
            i <= lines@.len(),
            rows_view(lines@) == ls,
            ls == content_lines(input.spec_bytes()),
            cards@.len() == i,
            forall|j: int| 0 <= j < i ==> card_ok(#[trigger] ls[j]),
            forall|j: int|
                0 <= j < i ==> nats((#[trigger] cards@[j]).winning_numbers@) == winning(ls[j]) && nats(
                    cards@[j].numbers@,
                ) == have(ls[j]),
        decreases lines@.len() - i,
    {
        assert(lines@[i as int]@ == ls[i as int]);
        match parse_card(lines[i].as_slice()) {
            None => {
                return None;
            },
            Some(c) => {
                cards.push(c);
            },
        }
        i += 1;
    }
    Some(cards)
}

/// Sum of the scores of the first `n` cards.
pub open spec fn sum_scores(ls: Seq<Seq<u8>>, n: nat) -> nat
    decreases n,
{
    if n == 0 {
        0
    } else {
        sum_scores(ls, (n - 1) as nat) + score(card_matches(ls[n - 1]))
    }
}

/// Total points of the cards; `None` when a line is not a card or the total
/// exceeds `u64::MAX`.
proof fn lemma_sum_scores_grows(ls: Seq<Seq<u8>>, i: nat, n: nat)
    requires
        i <= n,
    ensures
        sum_scores(ls, i) <= sum_scores(ls, n),
    decreases n - i,
{
    if i < n {
        lemma_sum_scores_grows(ls, i, (n - 1) as nat);
    }
}

pub fn part1(input: &str) -> (r: Option<u64>)
    ensures
        r is Some ==> r.unwrap() == sum_scores(
            content_lines(input.spec_bytes()),
            content_lines(input.spec_bytes()).len(),
        ),
        r is None ==> (exists|i: int|
            0 <= i < content_lines(input.spec_bytes()).len() && !card_ok(#[trigger] content_lines(input.spec_bytes())[i]))
            || sum_scores(content_lines(input.spec_bytes()), content_lines(input.spec_bytes()).len()) > u64::MAX,
{
    let ghost ls = content_lines(input.spec_bytes());
    let cards = match parse_cards(input) {
        None => {
            return None;
        },
        Some(c) => c,
    };
    let mut acc: u64 = 0;
    let mut i: usize = 0;
    while i < cards.len()
        invariant
            i <= cards@.len(),
            cards@.len() == ls.len(),
            ls == content_lines(input.spec_bytes()),
            forall|j: int|
                0 <= j < cards@.len() ==> nats((#[trigger] cards@[j]).winning_numbers@) == winning(ls[j]) && nats(
                    cards@[j].numbers@,
                ) == have(ls[j]),
            acc == sum_scores(ls, i as nat),
        decreases cards@.len() - i,
    {
        let c = &cards[i];
        assert(nats(c.winning_numbers@) == winning(ls[i as int]));
        assert(c.numbers@.len() == have(ls[i as int]).len());
        assert(nats(c.numbers@) == have(ls[i as int]));
        let s = match c.calc_score() {
            None => {
                proof {
                    assert(card_matches(ls[i as int]) == matches_upto(
                        nats(c.winning_numbers@),
                        nats(c.numbers@),
                        c.numbers@.len(),
                    ));
                    lemma_sum_scores_grows(ls, (i + 1) as nat, ls.len());
                }
                return None;
            },
            Some(s) => s,
        };
        if acc > u64::MAX - s {
            proof {
                lemma_sum_scores_grows(ls, (i + 1) as nat, ls.len());
            }
            return None;
        }
        acc = acc + s;
        i += 1;
    }
    Some(acc)
}

/// Copies held of each card after the first `k` cards have handed out their
/// copies: card `i` with `m` matches adds its count to each of the next `m`
/// cards, as far as the cards go.
pub open spec fn counts_after(m: Seq<nat>, k: nat) -> Seq<nat>
    decreases k,
{
    if k == 0 {
        Seq::new(m.len(), |j: int| 1nat)
    } else {
        let prev = counts_after(m, (k - 1) as nat);
        let i = k - 1;
        Seq::new(m.len(), |j: int| if i < j <= i + m[i] { prev[j] + prev[i] } else { prev[j] })
    }
}

pub open spec fn seq_sum(s: Seq<nat>, n: nat) -> nat
    decreases n,
{
    if n == 0 {
        0
    } else {
        seq_sum(s, (n - 1) as nat) + s[n - 1]
    }
}

/// Matches of each card line.
pub open spec fn all_matches(ls: Seq<Seq<u8>>) -> Seq<nat> {
    Seq::new(ls.len(), |i: int| card_matches(ls[i]))
}

/// Total number of cards held once every card has handed out its copies;
/// `None` when a line is not a card or a count exceeds `u64::MAX`.
pub fn part2(input: &str) -> (r: Option<u64>)
    ensures
        r is Some ==> ({
            let m = all_matches(content_lines(input.spec_bytes()));
            r.unwrap() == seq_sum(counts_after(m, m.len()), m.len())
        }),
{
    let ghost ls = content_lines(input.spec_bytes());
    let ghost ms = all_matches(ls);
    let cards = match parse_cards(input) {
        None => {
            return None;
        },
        Some(c) => c,
    };
    let n = cards.len();
    let mut counts: Vec<u64> = Vec::new();
    let mut j: usize = 0;
    while j < n
        invariant
            j <= n,
            counts@.len() == j,
            forall|t: int| 0 <= t < j ==> counts@[t] == 1,
        decreases n - j,
    {
        counts.push(1);
        j += 1;
    }
    assert(nats(counts@) == counts_after(ms, 0));
    let mut i: usize = 0;
    while i < n
        invariant
            i <= n,
            n == cards@.len() == ls.len() == ms.len(),
            ms == all_matches(ls),
            forall|t: int|
                0 <= t < cards@.len() ==> nats((#[trigger] cards@[t]).winning_numbers@) == winning(ls[t]) && nats(
                    cards@[t].numbers@,
                ) == have(ls[t]),
            counts@.len() == n,
            nats(counts@) == counts_after(ms, i as nat),
        decreases n - i,
    {
        let c = &cards[i];
        assert(nats(c.winning_numbers@) == winning(ls[i as int]));
        assert(c.numbers@.len() == have(ls[i as int]).len());
        let m = c.matches();
        assert(m == ms[i as int]);
        let own = counts[i];
        let ghost prev = counts@;
        let mut t: usize = i + 1;
        while t < n && ((t - i) as u64) <= m
            invariant
                i < n,
                n == counts@.len(),
                i + 1 <= t <= n,
                m == ms[i as int],
                ms.len() == n,
                own == prev[i as int],
                prev.len() == n,
                forall|x: int| 0 <= x < t ==> counts@[x] == prev[x] + (if i < x <= i + m { own } else { 0 }),
                forall|x: int| t <= x < n ==> counts@[x] == prev[x],
            decreases n - t,
        {
            let cur = counts[t];
            if cur > u64::MAX - own {
                return None;
            }
            counts.set(t, cur + own);
            t += 1;
        }
        proof {
            assert forall|x: int| 0 <= x < n implies counts@[x] == prev[x] + (if i < x <= i + m { own } else { 0 }) by {
                if x >= t {
                    assert(!(i < x <= i + m));
                }
            }
            assert(nats(counts@) =~= counts_after(ms, (i + 1) as nat));
        }
        i += 1;
    }
    let mut acc: u64 = 0;
    let mut k: usize = 0;
    while k < n
        invariant
            k <= n,
            counts@.len() == n,
            nats(counts@) == counts_after(ms, n as nat),
            acc == seq_sum(counts_after(ms, n as nat), k as nat),
        decreases n - k,
    {
        if acc > u64::MAX - counts[k] {
            return None;
        }
        acc = acc + counts[k];
        k += 1;
    }
    Some(acc)
}

} // verus!
