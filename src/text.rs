//! Byte-level helpers shared by the puzzle parsers: splitting on a separator
//! and reading unsigned decimal numbers.
use vstd::prelude::*;
use vstd::string::StringSliceAdditionalSpecFns;

verus! {

/// The pieces of `s` between occurrences of `sep` (always at least one piece).
pub open spec fn split_on(s: Seq<u8>, sep: u8) -> Seq<Seq<u8>>
    decreases s.len(),
{
    if s.len() == 0 {
        seq![Seq::<u8>::empty()]
    } else {
        let prev = split_on(s.drop_last(), sep);
        if s.last() == sep {
            prev.push(Seq::<u8>::empty())
        } else {
            prev.update(prev.len() - 1, prev.last().push(s.last()))
        }
    }
}

pub proof fn lemma_split_nonempty(s: Seq<u8>, sep: u8)
    ensures
        split_on(s, sep).len() >= 1,
    decreases s.len(),
{
    if s.len() > 0 {
        lemma_split_nonempty(s.drop_last(), sep);
    }
}

/// The views of a sequence of byte vectors.
pub open spec fn rows_view(v: Seq<Vec<u8>>) -> Seq<Seq<u8>> {
    Seq::new(v.len(), |i: int| v[i]@)
}

pub open spec fn is_digit(b: u8) -> bool {
    48 <= b <= 57
}

pub open spec fn all_digits(s: Seq<u8>) -> bool {
    forall|i: int| 0 <= i < s.len() ==> is_digit(#[trigger] s[i])
}

/// The number written in decimal by the digits of `s`.
pub open spec fn dec_value(s: Seq<u8>) -> nat
    decreases s.len(),
{
    if s.len() == 0 {
        0
    } else {
        dec_value(s.drop_last()) * 10 + (s.last() - 48) as nat
    }
}

/// Splits `s` at every `sep`.
pub fn split_bytes(s: &[u8], sep: u8) -> (r: Vec<Vec<u8>>)
    ensures
        rows_view(r@) == split_on(s@, sep),
{
    let mut out: Vec<Vec<u8>> = Vec::new();
    let mut cur: Vec<u8> = Vec::new();
    let mut i: usize = 0;
    while i < s.len()
        invariant
            i <= s.len(),
            rows_view(out@).push(cur@) == split_on(s@.take(i as int), sep),
        decreases s.len() - i,
    {
        let ghost prev = split_on(s@.take(i as int), sep);
        let b = s[i];
        proof {
            assert(s@.take(i + 1).drop_last() == s@.take(i as int));
            assert(s@.take(i + 1).last() == b);
        }
        if b == sep {
            let ghost old_out = out@;
            out.push(cur);
            cur = Vec::new();
            assert(rows_view(out@) == rows_view(old_out).push(prev.last()));
            assert(rows_view(out@).push(cur@) == prev.push(Seq::<u8>::empty()));
        } else {
            cur.push(b);
            assert(rows_view(out@).push(cur@) == prev.update(prev.len() - 1, prev.last().push(b)));
        }
        i += 1;
    }
    let ghost before = out@;
    out.push(cur);
    assert(s@.take(s@.len() as int) == s@);
    assert(rows_view(out@) == rows_view(before).push(cur@));
    out
}

/// Reads an unsigned decimal number; `None` when `s` is empty, holds a
/// non-digit, or the value does not fit in a `u64`.
pub fn parse_u64(s: &[u8]) -> (r: Option<u64>)
    ensures
        r.is_some() <==> (s@.len() > 0 && all_digits(s@) && dec_value(s@) <= u64::MAX),
        r.is_some() ==> r.unwrap() == dec_value(s@),
{
    if s.len() == 0 {
        return None;
    }
    let mut v: u64 = 0;
    let mut i: usize = 0;
    while i < s.len()
        invariant
            i <= s.len(),
            all_digits(s@.take(i as int)),
            v == dec_value(s@.take(i as int)),
        decreases s.len() - i,
    {
        let b = s[i];
        proof {
            assert(s@.take(i + 1).drop_last() == s@.take(i as int));
        }
        if b < 48 || b > 57 {
            assert(!all_digits(s@)) by {
                assert(!is_digit(s@[i as int]));
            }
            return None;
        }
        let d = (b - 48) as u64;
        if v > (u64::MAX - d) / 10 {
            proof {
                assert(dec_value(s@.take(i + 1)) == v * 10 + d);
                assert(v * 10 + d > u64::MAX) by (nonlinear_arith)
                    requires v > (u64::MAX - d) / 10, d <= 9;
                if all_digits(s@) {
                    lemma_dec_value_prefix_le(s@, i + 1);
                }
            }
            return None;
        }
        assert(v * 10 + d <= u64::MAX) by (nonlinear_arith)
            requires v <= (u64::MAX - d) / 10, d <= 9;
        v = v * 10 + d;
        i += 1;
    }
    assert(s@.take(s@.len() as int) == s@);
    Some(v)
}

/// A prefix of a digit string never reads as more than the whole string.
pub proof fn lemma_dec_value_prefix_le(s: Seq<u8>, k: int)
    requires
        0 <= k <= s.len(),
        all_digits(s),
    ensures
        dec_value(s.take(k)) <= dec_value(s),
    decreases s.len(),
{
    if k < s.len() {
        assert(s.drop_last().take(k) == s.take(k));
        lemma_dec_value_prefix_le(s.drop_last(), k);
        assert(dec_value(s) == dec_value(s.drop_last()) * 10 + (s.last() - 48) as nat);
    } else {
        assert(s.take(k) == s);
    }
}


/// The lines of a text, without the empty piece after a final newline.
pub open spec fn content_lines(text: Seq<u8>) -> Seq<Seq<u8>> {
    let ls = split_on(text, 10);
    if ls.last().len() == 0 {
        ls.drop_last()
    } else {
        ls
    }
}

/// The lines of `input`.
pub fn lines_of(input: &str) -> (r: Vec<Vec<u8>>)
    ensures
        rows_view(r@) == content_lines(input.spec_bytes()),
{
    let text = input.as_bytes();
    let mut lines = split_bytes(text, 10);
    proof {
        lemma_split_nonempty(text@, 10);
    }
    if lines[lines.len() - 1].len() == 0 {
        lines.pop();
    }
    assert(rows_view(lines@) == content_lines(text@));
    lines
}

/// The maximal runs of `s` that hold no space, in order.
pub open spec fn words(s: Seq<u8>) -> Seq<Seq<u8>>
    decreases s.len(),
{
    if s.len() == 0 {
        Seq::empty()
    } else {
        let w = words(s.drop_last());
        let c = s.last();
        if c == 32 {
            w
        } else if s.len() >= 2 && s[s.len() - 2] != 32 {
            w.update(w.len() - 1, w.last().push(c))
        } else {
            w.push(seq![c])
        }
    }
}

proof fn lemma_words_open(s: Seq<u8>)
    requires
        s.len() > 0,
        s.last() != 32,
    ensures
        words(s).len() > 0,
    decreases s.len(),
{
    if s.len() >= 2 && s[s.len() - 2] != 32 {
        lemma_words_open(s.drop_last());
    }
}

/// No word is empty.
pub proof fn lemma_words_nonempty(s: Seq<u8>)
    ensures
        forall|k: int| 0 <= k < words(s).len() ==> #[trigger] words(s)[k].len() > 0,
    decreases s.len(),
{
    if s.len() > 0 {
        lemma_words_nonempty(s.drop_last());
        let w = words(s.drop_last());
        if s.last() != 32 && s.len() >= 2 && s[s.len() - 2] != 32 {
            lemma_words_open(s.drop_last());
            assert forall|k: int| 0 <= k < words(s).len() implies #[trigger] words(s)[k].len() > 0 by {
                if k < w.len() - 1 {
                    assert(words(s)[k] == w[k]);
                }
            }
        }
    }
}

/// The words of `s`: its maximal runs without a space.
pub fn split_words(s: &[u8]) -> (r: Vec<Vec<u8>>)
    ensures
        rows_view(r@) == words(s@),
{
    let mut out: Vec<Vec<u8>> = Vec::new();
    let mut i: usize = 0;
    while i < s.len()
        invariant
            i <= s.len(),
            rows_view(out@) == words(s@.take(i as int)),
        decreases s.len() - i,
    {
        let c = s[i];
        let ghost pre = s@.take(i as int);
        proof {
            assert(s@.take(i + 1).drop_last() == pre);
            assert(s@.take(i + 1).last() == c);
        }
        if c != 32 {
            if i > 0 && s[i - 1] != 32 {
                proof {
                    assert(pre.last() == s@[i - 1]);
                    lemma_words_open(pre);
                }
                let last = out.len() - 1;
                let ghost before = out@;
                let mut w = out.pop().unwrap();
                w.push(c);
                out.push(w);
                assert(rows_view(out@) == rows_view(before).update(last as int, rows_view(before).last().push(c)));
            } else {
                let ghost before = out@;
                let mut w: Vec<u8> = Vec::new();
                w.push(c);
                out.push(w);
                assert(rows_view(out@) == rows_view(before).push(seq![c]));
            }
        }
        i += 1;
    }
    assert(s@.take(s@.len() as int) == s@);
    out
}

/// `s` is `-` followed by digits, or digits alone.
pub open spec fn is_int_text(s: Seq<u8>) -> bool {
    if s.len() > 0 && s[0] == 45 {
        s.len() > 1 && all_digits(s.drop_first())
    } else {
        s.len() > 0 && all_digits(s)
    }
}

/// The integer written by `s` (meaningful when `is_int_text(s)`).
pub open spec fn int_value(s: Seq<u8>) -> int {
    if s.len() > 0 && s[0] == 45 {
        -dec_value(s.drop_first())
    } else {
        dec_value(s) as int
    }
}

/// Reads an optionally negative decimal integer; `None` when `s` is not one
/// or it does not fit in an `i64`.
pub fn parse_i64(s: &[u8]) -> (r: Option<i64>)
    ensures
        r is Some <==> is_int_text(s@) && i64::MIN < int_value(s@) <= i64::MAX,
        r is Some ==> r.unwrap() == int_value(s@),
{
    if s.len() > 0 && s[0] == 45 {
        let rest = slice_from(s, 1);
        match parse_u64(rest) {
            None => None,
            Some(v) => {
                if v > i64::MAX as u64 {
                    None
                } else {
                    Some(-(v as i64))
                }
            },
        }
    } else {
        match parse_u64(s) {
            None => None,
            Some(v) => {
                if v > i64::MAX as u64 {
                    None
                } else {
                    Some(v as i64)
                }
            },
        }
    }
}

/// The bytes of `s` from position `start` on.
pub fn slice_from(s: &[u8], start: usize) -> (r: &[u8])
    requires
        start <= s@.len(),
    ensures
        r@ == s@.subrange(start as int, s@.len() as int),
{
    let (_, r) = s.split_at(start);
    r
}

} // verus!
