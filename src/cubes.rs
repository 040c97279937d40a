//! Games of cubes drawn from a bag: which games fit a given bag, and the
//! smallest bag for each game.
use vstd::prelude::*;
use vstd::string::StringSliceAdditionalSpecFns;
use crate::text::{all_digits, content_lines, dec_value, lines_of, parse_u64, rows_view, split_words, words};

verus! {

pub open spec fn game_word() -> Seq<u8> {
    seq![71u8, 97, 109, 101]
}

/// A colour word without a trailing `,` or `;`.
pub open spec fn bare(w: Seq<u8>) -> Seq<u8> {
    if w.len() > 0 && (w.last() == 44 || w.last() == 59) {
        w.drop_last()
    } else {
        w
    }
}

/// 0 for red, 1 for green, 2 for blue, 3 for anything else.
pub open spec fn colour(w: Seq<u8>) -> nat {
    let b = bare(w);
    if b == seq![114u8, 101, 100] {
        0
    } else if b == seq![103u8, 114, 101, 101, 110] {
        1
    } else if b == seq![98u8, 108, 117, 101] {
        2
    } else {
        3
    }
}

/// `Game <id>: <count> <colour>, <count> <colour>; ...`
pub open spec fn game_ok(l: Seq<u8>) -> bool {
    let w = words(l);
    &&& w.len() >= 2
    &&& w.len() % 2 == 0
    &&& w[0] == game_word()
    &&& w[1].len() >= 2
    &&& w[1].last() == 58
    &&& all_digits(w[1].drop_last())
    &&& dec_value(w[1].drop_last()) <= u64::MAX
    &&& forall|k: int|
        1 <= k < w.len() / 2 ==> {
            &&& w[2 * k].len() > 0
            &&& all_digits(#[trigger] w[2 * k])
            &&& dec_value(w[2 * k]) <= u64::MAX
            &&& colour(w[2 * k + 1]) < 3
        }
}

pub open spec fn game_id(l: Seq<u8>) -> nat {
    dec_value(words(l)[1].drop_last())
}

/// Most cubes of colour `c` shown in the first `n` draws of the game.
pub open spec fn most(w: Seq<Seq<u8>>, c: nat, n: nat) -> nat
    decreases n,
{
    if n <= 1 {
        0
    } else {
        let prev = most(w, c, (n - 1) as nat);
        let k = n - 1;
        if colour(w[2 * k + 1]) == c && dec_value(w[2 * k]) > prev {
            dec_value(w[2 * k])
        } else {
            prev
        }
    }
}

pub open spec fn game_most(l: Seq<u8>, c: nat) -> nat {
    most(words(l), c, words(l).len() / 2)
}

proof fn lemma_most_step(w: Seq<Seq<u8>>, c: nat, k: nat)
    requires
        k >= 1,
    ensures
        most(w, c, k + 1) == if colour(w[(2 * k + 1) as int]) == c && dec_value(w[2 * k as int]) > most(w, c, k) {
            dec_value(w[2 * k as int])
        } else {
            most(w, c, k)
        },
{
}

/// The game's id and the most red, green and blue cubes it showed at once.
pub struct Game {
    pub id: u64,
    pub red: u64,
    pub green: u64,
    pub blue: u64,
}

fn colour_of(w: &Vec<u8>) -> (r: u8)
    ensures
        r as nat == colour(w@),
{
    let n = if w.len() > 0 && (w[w.len() - 1] == 44 || w[w.len() - 1] == 59) {
        w.len() - 1
    } else {
        w.len()
    };
    let mut b: Vec<u8> = Vec::new();
    let mut i: usize = 0;
    while i < n
        invariant
            n <= w@.len(),
            i <= n,
            b@ == w@.take(i as int),
        decreases n - i,
    {
        b.push(w[i]);
        i += 1;
        assert(b@ == w@.take(i as int));
    }
    assert(b@ == bare(w@));
    let red: Vec<u8> = vec![114u8, 101, 100];
    let green: Vec<u8> = vec![103u8, 114, 101, 101, 110];
    let blue: Vec<u8> = vec![98u8, 108, 117, 101];
    if crate::circuit::bytes_eq(b.as_slice(), red.as_slice()) {
        0
    } else if crate::circuit::bytes_eq(b.as_slice(), green.as_slice()) {
        1
    } else if crate::circuit::bytes_eq(b.as_slice(), blue.as_slice()) {
        2
    } else {
        3
    }
}

/// Reads a game line.
pub fn parse_game(l: &[u8]) -> (r: Option<Game>)
    ensures
        r is Some <==> game_ok(l@),
        r is Some ==> r.unwrap().id == game_id(l@) && r.unwrap().red == game_most(l@, 0) && r.unwrap().green
            == game_most(l@, 1) && r.unwrap().blue == game_most(l@, 2),
{
    let w = split_words(l);
    let ghost wv = words(l@);
    if w.len() < 2 || w.len() % 2 != 0 {
        return None;
    }
    assert(w@[0]@ == wv[0] && w@[1]@ == wv[1]);
    let gw: Vec<u8> = vec![71u8, 97, 109, 101];
    if !crate::circuit::bytes_eq(w[0].as_slice(), gw.as_slice()) {
        return None;
    }
    let head = &w[1];
    if head.len() < 2 || head[head.len() - 1] != 58 {
        return None;
    }
    let (digits, _) = head.as_slice().split_at(head.len() - 1);
    assert(digits@ == wv[1].drop_last());
    let id = match parse_u64(digits) {
        None => {
            return None;
        },
        Some(v) => v,
    };
    let mut maxes: Vec<u64> = vec![0u64, 0, 0];
    let pairs = w.len() / 2;
    let mut k: usize = 1;
    let mut idx: usize = 2;
    while k < pairs
        invariant
            1 <= k <= pairs,
            pairs == wv.len() / 2,
            2 * pairs == wv.len(),
            idx == 2 * k,
            w@.len() <= usize::MAX,
            id == game_id(l@),
            w@.len() == wv.len(),
            rows_view(w@) == wv,
            wv == words(l@),
            maxes@.len() == 3,
            forall|c: nat| c < 3 ==> maxes@[c as int] == #[trigger] most(wv, c, k as nat),
            forall|j: int|
                1 <= j < k ==> {
                    &&& wv[2 * j].len() > 0
                    &&& all_digits(#[trigger] wv[2 * j])
                    &&& dec_value(wv[2 * j]) <= u64::MAX
                    &&& colour(wv[2 * j + 1]) < 3
                },
        decreases pairs - k,
    {
        assert(w@[idx as int]@ == wv[idx as int]);
        assert(w@[idx + 1]@ == wv[idx + 1]);
        let n = match parse_u64(w[idx].as_slice()) {
            None => {
                return None;
            },
            Some(v) => v,
        };
        let c = colour_of(&w[idx + 1]);
        if c >= 3 {
            return None;
        }
        let ghost before = maxes@;
        if n > maxes[c as usize] {
            maxes.set(c as usize, n);
        }
        proof {
            assert forall|cc: nat| cc < 3 implies maxes@[cc as int] == #[trigger] most(wv, cc, (k + 1) as nat) by {
                assert(before[cc as int] == most(wv, cc, k as nat));
                lemma_most_step(wv, cc, k as nat);
            }
        }
        k += 1;
        idx += 2;
    }
    assert(maxes@[0] == most(wv, 0, k as nat));
    assert(maxes@[1] == most(wv, 1, k as nat));
    assert(maxes@[2] == most(wv, 2, k as nat));
    Some(Game { id, red: maxes[0], green: maxes[1], blue: maxes[2] })
}

/// The bag of the first question: 12 red, 13 green and 14 blue cubes.
pub open spec fn fits_bag(l: Seq<u8>) -> bool {
    game_most(l, 0) <= 12 && game_most(l, 1) <= 13 && game_most(l, 2) <= 14
}

pub open spec fn sum_fitting_ids(ls: Seq<Seq<u8>>, n: nat) -> nat
    decreases n,
{
    if n == 0 {
        0
    } else {
        sum_fitting_ids(ls, (n - 1) as nat) + if fits_bag(ls[n - 1]) {
            game_id(ls[n - 1])
        } else {
            0
        }
    }
}

pub open spec fn sum_powers(ls: Seq<Seq<u8>>, n: nat) -> nat
    decreases n,
{
    if n == 0 {
        0
    } else {
        sum_powers(ls, (n - 1) as nat) + game_most(ls[n - 1], 0) * game_most(ls[n - 1], 1) * game_most(
            ls[n - 1],
            2,
        )
    }
}

pub proof fn lemma_sums_grow(ls: Seq<Seq<u8>>, i: nat, n: nat)
    requires
        i <= n,
    ensures
        sum_powers(ls, i) <= sum_powers(ls, n),
        sum_fitting_ids(ls, i) <= sum_fitting_ids(ls, n),
    decreases n - i,
{
    if i < n {
        lemma_sums_grow(ls, i, (n - 1) as nat);
    }
}

/// Sum over the games of `input` of the id (`powers` false, of the games
/// that fit the bag) or of the product of the three colour maxima
/// (`powers` true). `None` when a line is not a game or a number exceeds
/// `u64::MAX`.
pub fn sum_games(input: &str, powers: bool) -> (r: Option<u64>)
    ensures
        (forall|i: int|
            0 <= i < content_lines(input.spec_bytes()).len() ==> game_ok(
                #[trigger] content_lines(input.spec_bytes())[i],
            )) || r is None,
        r is Some ==> r.unwrap() == if powers {
            sum_powers(content_lines(input.spec_bytes()), content_lines(input.spec_bytes()).len())
        } else {
            sum_fitting_ids(content_lines(input.spec_bytes()), content_lines(input.spec_bytes()).len())
        },
        r is None ==> (exists|i: int|
            0 <= i < content_lines(input.spec_bytes()).len() && !game_ok(#[trigger] content_lines(input.spec_bytes())[i]))
            || (if powers {
            sum_powers(content_lines(input.spec_bytes()), content_lines(input.spec_bytes()).len())
        } else {
            sum_fitting_ids(content_lines(input.spec_bytes()), content_lines(input.spec_bytes()).len())
        }) > u64::MAX,
{
    let lines = lines_of(input);
    let ghost ls = content_lines(input.spec_bytes());
    let mut acc: u64 = 0;
    let mut i: usize = 0;
    while i < lines.len()
        invariant
            i <= lines@.len(),
            rows_view(lines@) == ls,
            ls == content_lines(input.spec_bytes()),
            forall|j: int| 0 <= j < i ==> game_ok(#[trigger] ls[j]),
            acc == if powers {
                sum_powers(ls, i as nat)
            } else {
                sum_fitting_ids(ls, i as nat)
            },
        decreases lines@.len() - i,
    {
        assert(lines@[i as int]@ == ls[i as int]);
        let g = match parse_game(lines[i].as_slice()) {
            None => {
                assert(!game_ok(ls[i as int]));
                return None;
            },
            Some(g) => g,
        };
        let ghost term = game_most(ls[i as int], 0) * game_most(ls[i as int], 1) * game_most(ls[i as int], 2);
        let v: u64 = if powers {
            if g.red == 0 || g.green == 0 || g.blue == 0 {
                assert(term == 0) by (nonlinear_arith)
                    requires term == g.red * g.green * g.blue, g.red == 0 || g.green == 0 || g.blue == 0;
                0
            } else {
                assert(g.red as int * g.green as int <= u64::MAX as int * u64::MAX as int) by (nonlinear_arith)
                    requires g.red <= u64::MAX, g.green <= u64::MAX, g.red >= 0, g.green >= 0;
                assert(u64::MAX as int * u64::MAX as int <= u128::MAX);
                let rg = g.red as u128 * g.green as u128;
                if rg > u64::MAX as u128 {
                    proof {
                        assert(term >= rg) by (nonlinear_arith)
                            requires term == rg * g.blue, g.blue >= 1, rg >= 0;
                        lemma_sums_grow(ls, (i + 1) as nat, ls.len());
                    }
                    return None;
                }
                assert(rg as int * g.blue as int <= u64::MAX as int * u64::MAX as int) by (nonlinear_arith)
                    requires rg <= u64::MAX, g.blue <= u64::MAX, rg >= 0, g.blue >= 0;
                let rgb = rg * g.blue as u128;
                if rgb > u64::MAX as u128 {
                    proof {
                        lemma_sums_grow(ls, (i + 1) as nat, ls.len());
                    }
                    return None;
                }
                rgb as u64
            }
        } else if g.red <= 12 && g.green <= 13 && g.blue <= 14 {
            g.id
        } else {
            0
        };
        if acc > u64::MAX - v {
            proof {
                lemma_sums_grow(ls, (i + 1) as nat, ls.len());
            }
            return None;
        }
        acc = acc + v;
        i += 1;
    }
    Some(acc)
}

/// Sum of the ids of the games that fit the bag.
pub fn part1(input: &str) -> (r: Option<u64>)
    ensures
        r is Some ==> r.unwrap() == sum_fitting_ids(
            content_lines(input.spec_bytes()),
            content_lines(input.spec_bytes()).len(),
        ),
        r is None ==> (exists|i: int|
            0 <= i < content_lines(input.spec_bytes()).len() && !game_ok(#[trigger] content_lines(input.spec_bytes())[i]))
            || sum_fitting_ids(content_lines(input.spec_bytes()), content_lines(input.spec_bytes()).len()) > u64::MAX,
{
    sum_games(input, false)
}

/// Sum of the powers (product of the colour maxima) of the games.
pub fn part2(input: &str) -> (r: Option<u64>)
    ensures
        r is Some ==> r.unwrap() == sum_powers(
            content_lines(input.spec_bytes()),
            content_lines(input.spec_bytes()).len(),
        ),
        r is None ==> (exists|i: int|
            0 <= i < content_lines(input.spec_bytes()).len() && !game_ok(#[trigger] content_lines(input.spec_bytes())[i]))
            || sum_powers(content_lines(input.spec_bytes()), content_lines(input.spec_bytes()).len()) > u64::MAX,
{
    sum_games(input, true)
}

} // verus!
