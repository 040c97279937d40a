//! The lagoon dug by a plan of straight trenches: its area by the shoelace
//! formula plus the trench itself.
use vstd::prelude::*;
use vstd::string::StringSliceAdditionalSpecFns;
use crate::text::{all_digits, content_lines, dec_value, lines_of, parse_u64, rows_view, split_words, words};

verus! {

pub open spec fn is_hex(b: u8) -> bool {
    (48 <= b <= 57) || (97 <= b <= 102)
}

pub open spec fn hex_digit(b: u8) -> nat {
    if 48 <= b <= 57 {
        (b - 48) as nat
    } else {
        (b - 87) as nat
    }
}

/// The number written in lowercase hexadecimal by `s`.
pub open spec fn hex_value(s: Seq<u8>) -> nat
    decreases s.len(),
{
    if s.len() == 0 {
        0
    } else {
        hex_value(s.drop_last()) * 16 + hex_digit(s.last())
    }
}

/// Direction code of a letter: 0 up, 1 right, 2 down, 3 left, 4 none.
pub open spec fn dir_of_letter(b: u8) -> nat {
    if b == 85 {
        0
    } else if b == 82 {
        1
    } else if b == 68 {
        2
    } else if b == 76 {
        3
    } else {
        4
    }
}

/// Direction code of the colour's last digit: 0 right, 1 down, 2 left, 3 up.
pub open spec fn dir_of_code(b: u8) -> nat {
    if b == 48 {
        1
    } else if b == 49 {
        2
    } else if b == 50 {
        3
    } else if b == 51 {
        0
    } else {
        4
    }
}

/// `<U|R|D|L> <metres> (#<five hex digits><0-3>)`
pub open spec fn line_ok(l: Seq<u8>) -> bool {
    let w = words(l);
    &&& w.len() == 3
    &&& w[0].len() == 1
    &&& dir_of_letter(w[0][0]) < 4
    &&& w[1].len() > 0
    &&& all_digits(w[1])
    &&& dec_value(w[1]) <= u32::MAX
    &&& w[2].len() == 9
    &&& w[2][0] == 40
    &&& w[2][1] == 35
    &&& forall|i: int| 2 <= i < 7 ==> is_hex(#[trigger] w[2][i])
    &&& dir_of_code(w[2][7]) < 4
    &&& w[2][8] == 41
}

/// Direction and length of the trench a line asks for, read plainly or
/// (when `swapped`) from its colour.
pub open spec fn dig(l: Seq<u8>, swapped: bool) -> (nat, nat) {
    let w = words(l);
    if swapped {
        (dir_of_code(w[2][7]), hex_value(w[2].subrange(2, 7)))
    } else {
        (dir_of_letter(w[0][0]), dec_value(w[1]))
    }
}

pub open spec fn dx(d: nat) -> int {
    if d == 1 {
        1
    } else if d == 3 {
        -1
    } else {
        0
    }
}

pub open spec fn dy(d: nat) -> int {
    if d == 0 {
        -1
    } else if d == 2 {
        1
    } else {
        0
    }
}

/// Position after the first `k` trenches, starting from the origin.
pub open spec fn pos(ls: Seq<Seq<u8>>, sw: bool, k: nat) -> (int, int)
    decreases k,
{
    if k == 0 {
        (0, 0)
    } else {
        let p = pos(ls, sw, (k - 1) as nat);
        let (d, n) = dig(ls[k - 1], sw);
        (p.0 + dx(d) * n, p.1 + dy(d) * n)
    }
}

/// Twice the signed area swept by the first `k` trenches (shoelace sum).
pub open spec fn shoelace(ls: Seq<Seq<u8>>, sw: bool, k: nat) -> int
    decreases k,
{
    if k == 0 {
        0
    } else {
        let a = pos(ls, sw, (k - 1) as nat);
        let b = pos(ls, sw, k);
        shoelace(ls, sw, (k - 1) as nat) + a.0 * b.1 - a.1 * b.0
    }
}

/// Length of the first `k` trenches.
pub open spec fn boundary(ls: Seq<Seq<u8>>, sw: bool, k: nat) -> nat
    decreases k,
{
    if k == 0 {
        0
    } else {
        boundary(ls, sw, (k - 1) as nat) + dig(ls[k - 1], sw).1
    }
}

pub open spec fn abs(v: int) -> int {
    if v < 0 {
        -v
    } else {
        v
    }
}

/// Cubic metres of the lagoon: inner area by the shoelace formula and
/// Pick's theorem, plus the trench.
pub open spec fn lagoon(ls: Seq<Seq<u8>>, sw: bool) -> int {
    abs(shoelace(ls, sw, ls.len())) / 2 + boundary(ls, sw, ls.len()) as int / 2 + 1
}

/// Reads a plan line as a direction code and a length.
pub fn parse_dig(l: &[u8], swapped: bool) -> (r: Option<(u8, u64)>)
    ensures
        r is Some <==> line_ok(l@),
        r is Some ==> r.unwrap().0 as nat == dig(l@, swapped).0 && r.unwrap().1 as nat == dig(l@, swapped).1
            && r.unwrap().0 < 4 && r.unwrap().1 <= u32::MAX,
{
    let w = split_words(l);
    let ghost wv = words(l@);
    if w.len() != 3 {
        return None;
    }
    assert(w@[0]@ == wv[0] && w@[1]@ == wv[1] && w@[2]@ == wv[2]);
    if w[0].len() != 1 {
        return None;
    }
    let c = w[0][0];
    let d: u8 = if c == 85 {
        0
    } else if c == 82 {
        1
    } else if c == 68 {
        2
    } else if c == 76 {
        3
    } else {
        return None;
    };
    let n = match parse_u64(w[1].as_slice()) {
        None => {
            return None;
        },
        Some(n) => n,
    };
    if n > u32::MAX as u64 {
        return None;
    }
    let col = &w[2];
    if col.len() != 9 || col[0] != 40 || col[1] != 35 || col[8] != 41 {
        return None;
    }
    let hv = match parse_hex5(col) {
        None => {
            assert(!line_ok(l@));
            return None;
        },
        Some(v) => v,
    };
    let code = col[7];
    let cd: u8 = if code == 48 {
        1
    } else if code == 49 {
        2
    } else if code == 50 {
        3
    } else if code == 51 {
        0
    } else {
        return None;
    };
    assert(line_ok(l@));
    if swapped {
        Some((cd, hv))
    } else {
        Some((d, n))
    }
}

/// The five hexadecimal digits after `(#` in a colour word.
fn parse_hex5(col: &Vec<u8>) -> (r: Option<u64>)
    requires
        col@.len() == 9,
    ensures
        r is Some <==> forall|i: int| 2 <= i < 7 ==> is_hex(#[trigger] col@[i]),
        r is Some ==> r.unwrap() == hex_value(col@.subrange(2, 7)) && r.unwrap() <= u32::MAX,
{
    let mut hv: u64 = 0;
    let mut i: usize = 2;
    proof {
        reveal_with_fuel(pow16, 6);
    }
    while i < 7
        invariant
            2 <= i <= 7,
            col@.len() == 9,
            forall|j: int| 2 <= j < i ==> is_hex(#[trigger] col@[j]),
            hv == hex_value(col@.subrange(2, i as int)),
            hv < pow16((i - 2) as nat),
            pow16((i - 2) as nat) <= 1048576,
        decreases 7 - i,
    {
        let b = col[i];
        let v: u64 = if 48 <= b && b <= 57 {
            (b - 48) as u64
        } else if 97 <= b && b <= 102 {
            (b - 87) as u64
        } else {
            assert(!is_hex(col@[i as int]));
            return None;
        };
        assert(col@.subrange(2, i + 1).drop_last() == col@.subrange(2, i as int));
        proof {
            reveal_with_fuel(pow16, 6);
        }
        assert(pow16((i + 1 - 2) as nat) == 16 * pow16((i - 2) as nat));
        assert(hv * 16 + v < 16 * pow16((i - 2) as nat)) by (nonlinear_arith)
            requires hv < pow16((i - 2) as nat), v < 16;
        hv = hv * 16 + v;
        i += 1;
    }
    Some(hv)
}

pub open spec fn pow16(n: nat) -> nat
    decreases n,
{
    if n == 0 {
        1
    } else {
        16 * pow16((n - 1) as nat)
    }
}

/// The lagoon's volume for a plan read plainly or from the colours; `None`
/// when a line is malformed or the plan is longer than a million trenches.
pub fn lagoon_size(input: &str, swapped: bool) -> (r: Option<u64>)
    ensures
        (forall|i: int|
            0 <= i < content_lines(input.spec_bytes()).len() ==> line_ok(
                #[trigger] content_lines(input.spec_bytes())[i],
            )) || r is None,
        r is Some ==> r.unwrap() as int == lagoon(content_lines(input.spec_bytes()), swapped),
        r is None ==> (exists|i: int|
            0 <= i < content_lines(input.spec_bytes()).len() && !line_ok(#[trigger] content_lines(input.spec_bytes())[i]))
            || content_lines(input.spec_bytes()).len() > 1000000 || lagoon(content_lines(input.spec_bytes()), swapped)
            > u64::MAX,
{
    let lines = lines_of(input);
    let ghost ls = content_lines(input.spec_bytes());
    if lines.len() > 1000000 {
        return None;
    }
    let mut x: i128 = 0;
    let mut y: i128 = 0;
    let mut s: i128 = 0;
    let mut b: i128 = 0;
    let mut k: usize = 0;
    while k < lines.len()
        invariant
            k <= lines@.len() <= 1000000,
            rows_view(lines@) == ls,
            ls == content_lines(input.spec_bytes()),
            forall|j: int| 0 <= j < k ==> line_ok(#[trigger] ls[j]),
            (x as int, y as int) == pos(ls, swapped, k as nat),
            s == shoelace(ls, swapped, k as nat),
            b == boundary(ls, swapped, k as nat),
            -(k * 0x1_0000_0000) <= x <= k * 0x1_0000_0000,
            -(k * 0x1_0000_0000) <= y <= k * 0x1_0000_0000,
            0 <= b <= k * 0x1_0000_0000,
            -(k * 0x200_0000_0000_0000_0000_0000_0000) <= s <= k * 0x200_0000_0000_0000_0000_0000_0000,
        decreases lines@.len() - k,
    {
        assert(lines@[k as int]@ == ls[k as int]);
        let (d, n) = match parse_dig(lines[k].as_slice(), swapped) {
            None => {
                assert(!line_ok(ls[k as int]));
                return None;
            },
            Some(v) => v,
        };
        let ghost pk = pos(ls, swapped, k as nat);
        assert(dig(ls[k as int], swapped) == (d as nat, n as nat));
        let n = n as i128;
        let (nx, ny): (i128, i128) = if d == 0 {
            assert(dx(d as nat) == 0 && dy(d as nat) == -1);
            (x, y - n)
        } else if d == 1 {
            assert(dx(d as nat) == 1 && dy(d as nat) == 0);
            (x + n, y)
        } else if d == 2 {
            assert(dx(d as nat) == 0 && dy(d as nat) == 1);
            (x, y + n)
        } else {
            assert(dx(d as nat) == -1 && dy(d as nat) == 0);
            (x - n, y)
        };
        assert((nx as int, ny as int) == pos(ls, swapped, (k + 1) as nat));
        proof {
            let bound = (k + 1) * 0x1_0000_0000;
            assert(-bound <= nx <= bound && -bound <= ny <= bound);
            assert(x * ny <= (k * 0x1_0000_0000) * bound) by (nonlinear_arith)
                requires -(k * 0x1_0000_0000) <= x <= k * 0x1_0000_0000, -bound <= ny <= bound, k >= 0;
            assert(x * ny >= -((k * 0x1_0000_0000) * bound)) by (nonlinear_arith)
                requires -(k * 0x1_0000_0000) <= x <= k * 0x1_0000_0000, -bound <= ny <= bound, k >= 0;
            assert(y * nx <= (k * 0x1_0000_0000) * bound) by (nonlinear_arith)
                requires -(k * 0x1_0000_0000) <= y <= k * 0x1_0000_0000, -bound <= nx <= bound, k >= 0;
            assert(y * nx >= -((k * 0x1_0000_0000) * bound)) by (nonlinear_arith)
                requires -(k * 0x1_0000_0000) <= y <= k * 0x1_0000_0000, -bound <= nx <= bound, k >= 0;
            assert((k * 0x1_0000_0000) * bound <= 0x100_0000_0000_0000_0000_0000_0000) by (nonlinear_arith)
                requires bound == (k + 1) * 0x1_0000_0000, k < 1000000, k >= 0;
        }
        let cross = x * ny - y * nx;
        s = s + cross;
        b = b + n;
        x = nx;
        y = ny;
        k += 1;
    }
    let a = if s < 0 {
        -s
    } else {
        s
    };
    let v = a / 2 + b / 2 + 1;
    if v > u64::MAX as i128 {
        return None;
    }
    Some(v as u64)
}

/// Volume of the lagoon dug by the plain directions and lengths.
pub fn part1(input: &str) -> (r: Option<u64>)
    ensures
        r is Some ==> r.unwrap() as int == lagoon(content_lines(input.spec_bytes()), false),
        r is None ==> (exists|i: int|
            0 <= i < content_lines(input.spec_bytes()).len() && !line_ok(#[trigger] content_lines(input.spec_bytes())[i]))
            || content_lines(input.spec_bytes()).len() > 1000000 || lagoon(content_lines(input.spec_bytes()), false)
            > u64::MAX,
{
    lagoon_size(input, false)
}

/// Volume of the lagoon dug by the directions and lengths in the colours.
pub fn part2(input: &str) -> (r: Option<u64>)
    ensures
        r is Some ==> r.unwrap() as int == lagoon(content_lines(input.spec_bytes()), true),
        r is None ==> (exists|i: int|
            0 <= i < content_lines(input.spec_bytes()).len() && !line_ok(#[trigger] content_lines(input.spec_bytes())[i]))
            || content_lines(input.spec_bytes()).len() > 1000000 || lagoon(content_lines(input.spec_bytes()), true)
            > u64::MAX,
{
    lagoon_size(input, true)
}

} // verus!
