//! Least common multiples of positive integers.
use vstd::prelude::*;
use vstd::arithmetic::div_mod::{
    lemma_fundamental_div_mod,
    lemma_mod_multiples_basic,
    lemma_mod_multiples_vanish,
    lemma_small_mod,
};

verus! {

/// `m` is a multiple of every element of `s`.
pub open spec fn multiple_of_all(s: Seq<u64>, m: int) -> bool {
    forall|k: int| 0 <= k < s.len() ==> #[trigger] (m % (s[k] as int)) == 0
}

pub open spec fn all_positive(s: Seq<u64>) -> bool {
    forall|k: int| 0 <= k < s.len() ==> #[trigger] s[k] > 0
}

pub open spec fn pair(a: u64, b: u64) -> Seq<u64> {
    seq![a, b]
}

/// `m` is the least positive common multiple of the elements of `s`.
pub open spec fn is_lcm_of(s: Seq<u64>, m: int) -> bool {
    &&& m > 0
    &&& multiple_of_all(s, m)
    &&& forall|c: int| 0 < c < m ==> !#[trigger] multiple_of_all(s, c)
}

proof fn lemma_multiple_of_multiple(d: int, m: int, c: int)
    requires
        d > 0,
        m > 0,
        m % d == 0,
        c % m == 0,
    ensures
        c % d == 0,
{
    lemma_fundamental_div_mod(m, d);
    lemma_fundamental_div_mod(c, m);
    let x = m / d;
    let y = c / m;
    assert(c == (x * y) * d) by (nonlinear_arith)
        requires m == d * x, c == m * y;
    lemma_mod_multiples_basic(x * y, d);
}

/// No multiple of `a` lies strictly between consecutive multiples `m` and `m + a`.
proof fn lemma_next_multiple(a: int, m: int, c: int)
    requires
        a > 0,
        m >= 0,
        m % a == 0,
        m <= c < m + a,
        c % a == 0,
    ensures
        c == m,
{
    lemma_fundamental_div_mod(m, a);
    let t = c - m;
    lemma_mod_multiples_vanish(m / a, t, a);
    lemma_small_mod(t as nat, a as nat);
}

/// Every positive common multiple is a multiple of the least one.
pub proof fn lemma_lcm_divides(s: Seq<u64>, m: int, c: int)
    requires
        all_positive(s),
        is_lcm_of(s, m),
        c > 0,
        multiple_of_all(s, c),
    ensures
        c % m == 0,
{
    lemma_fundamental_div_mod(c, m);
    let q = c / m;
    let r = c % m;
    if r > 0 {
        assert forall|k: int| 0 <= k < s.len() implies #[trigger] (r % (s[k] as int)) == 0 by {
            let d = s[k] as int;
            assert(d > 0);
            lemma_fundamental_div_mod(m, d);
            lemma_fundamental_div_mod(c, d);
            let x = m / d;
            let y = c / d;
            assert(m % d == 0);
            assert(c % d == 0);
            assert(r == (y - x * q) * d) by (nonlinear_arith)
                requires m == d * x + 0, c == d * y + 0, c == m * q + r;
            lemma_mod_multiples_basic(y - x * q, d);
        }
        assert(multiple_of_all(s, r));
    }
}

/// The least common multiple of two positive numbers, found among the
/// multiples of `a`; `None` when it exceeds `u64::MAX`.
pub fn lcm(a: u64, b: u64) -> (r: Option<u64>)
    requires
        a > 0,
        b > 0,
    ensures
        r is Some ==> is_lcm_of(pair(a, b), r.unwrap() as int),
        r is None ==> forall|c: int| 0 < c <= u64::MAX ==> !#[trigger] multiple_of_all(pair(a, b), c),
{
    let ghost s = pair(a, b);
    let mut m: u64 = a;
    proof {
        assert forall|c: int| 0 < c < m implies !#[trigger] multiple_of_all(s, c) by {
            assert(s[0] == a);
            lemma_small_mod(c as nat, a as nat);
        }
        assert(a <= a * b) by (nonlinear_arith)
            requires b >= 1;
    }
    while m % b != 0
        invariant
            a > 0,
            b > 0,
            s == pair(a, b),
            0 < m <= a * b,
            m % a == 0,
            forall|c: int| 0 < c < m ==> !#[trigger] multiple_of_all(s, c),
        decreases a * b - m,
    {
        proof {
            assert(multiple_of_all(s, a * b)) by {
                lemma_mod_multiples_basic(b as int, a as int);
                lemma_mod_multiples_basic(a as int, b as int);
                assert(b * a == a * b) by (nonlinear_arith);
            }
            assert(m != a * b) by {
                assert(!multiple_of_all(s, m as int)) by {
                    assert((m as int) % (s[1] as int) != 0);
                }
            }
        }
        if m > u64::MAX - a {
            proof {
                assert forall|c: int| 0 < c <= u64::MAX implies !#[trigger] multiple_of_all(s, c) by {
                    if c >= m && multiple_of_all(s, c) {
                        assert(c % (s[0] as int) == 0);
                        assert((m as int) % (s[1] as int) != 0);
                        lemma_next_multiple(a as int, m as int, c);
                    }
                }
            }
            return None;
        }
        let ghost old_m = m;
        m = m + a;
        proof {
            assert forall|c: int| 0 < c < m implies !#[trigger] multiple_of_all(s, c) by {
                if c >= old_m && multiple_of_all(s, c) {
                    assert(c % (s[0] as int) == 0);
                    assert((old_m as int) % (s[1] as int) != 0);
                    lemma_next_multiple(a as int, old_m as int, c);
                }
            }
            lemma_fundamental_div_mod(old_m as int, a as int);
            lemma_mod_multiples_vanish((old_m / a) as int, a as int, a as int);
            assert(m <= a * b) by {
                if m > a * b {
                    assert(old_m < a * b);
                    assert(a * b < m);
                    assert(!multiple_of_all(s, a * b));
                    lemma_mod_multiples_basic(b as int, a as int);
                    lemma_mod_multiples_basic(a as int, b as int);
                    assert(b * a == a * b) by (nonlinear_arith);
                    assert(multiple_of_all(s, a * b));
                }
            }
        }
    }
    Some(m)
}

/// The least common multiple of positive numbers (one for none); `None`
/// when it exceeds `u64::MAX`.
pub fn lcm_all(ps: &Vec<u64>) -> (r: Option<u64>)
    requires
        all_positive(ps@),
    ensures
        r is Some ==> is_lcm_of(ps@, r.unwrap() as int),
        r is None ==> forall|c: int| 0 < c <= u64::MAX ==> !#[trigger] multiple_of_all(ps@, c),
{
    let mut acc: u64 = 1;
    let mut i: usize = 0;
    assert(ps@.take(0) =~= Seq::<u64>::empty());
    while i < ps.len()
        invariant
            i <= ps@.len(),
            all_positive(ps@),
            is_lcm_of(ps@.take(i as int), acc as int),
        decreases ps@.len() - i,
    {
        let ghost pre = ps@.take(i as int);
        let ghost nxt = ps@.take(i + 1);
        let p = ps[i];
        assert(all_positive(pre));
        proof {
            assert forall|c: int| c > 0 && multiple_of_all(nxt, c) implies #[trigger] multiple_of_all(pair(acc, p), c) by {
                assert forall|k: int| 0 <= k < pre.len() implies #[trigger] (c % (pre[k] as int)) == 0 by {
                    assert(pre[k] == nxt[k]);
                }
                lemma_lcm_divides(pre, acc as int, c);
                assert(nxt[i as int] == p);
                assert(c % (p as int) == 0);
                assert(pair(acc, p)[0] == acc);
                assert(pair(acc, p)[1] == p);
            }
        }
        match lcm(acc, p) {
            None => {
                proof {
                    assert forall|c: int| 0 < c <= u64::MAX implies !#[trigger] multiple_of_all(ps@, c) by {
                        if multiple_of_all(ps@, c) {
                            assert forall|k: int| 0 <= k < nxt.len() implies #[trigger] (c % (nxt[k] as int)) == 0 by {
                                assert(nxt[k] == ps@[k]);
                            }
                            assert(multiple_of_all(nxt, c));
                            assert(multiple_of_all(pair(acc, p), c));
                        }
                    }
                }
                return None;
            },
            Some(m) => {
                proof {
                    let two = pair(acc, p);
                    assert(two[0] == acc && two[1] == p);
                    assert((m as int) % (acc as int) == 0);
                    assert(multiple_of_all(nxt, m as int)) by {
                        assert forall|k: int| 0 <= k < nxt.len() implies #[trigger] ((m as int) % (nxt[k] as int)) == 0 by {
                            if k < i {
                                assert(nxt[k] == pre[k]);
                                assert((acc as int) % (pre[k] as int) == 0);
                                lemma_multiple_of_multiple(pre[k] as int, acc as int, m as int);
                            } else {
                                assert(nxt[k] == p);
                            }
                        }
                    }
                    assert forall|c: int| 0 < c < m implies !#[trigger] multiple_of_all(nxt, c) by {
                        if multiple_of_all(nxt, c) {
                            assert(multiple_of_all(two, c));
                        }
                    }
                }
                acc = m;
            },
        }
        i += 1;
    }
    assert(ps@.take(ps@.len() as int) == ps@);
    Some(acc)
}

} // verus!
