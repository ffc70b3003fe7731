//! Unsigned decimal numerals, as ASCII bytes.
use vstd::prelude::*;

verus! {

/// Whether a byte is an ASCII digit.
pub open spec fn is_digit(b: u8) -> bool {
    48 <= b <= 57
}

/// Whether every byte of `s` is an ASCII digit.
pub open spec fn all_digits(s: Seq<u8>) -> bool {
    forall|i: int| 0 <= i < s.len() ==> is_digit(#[trigger] s[i])
}

/// The shortest decimal numeral of `n`.
pub open spec fn decimal(n: nat) -> Seq<u8>
    decreases n,
{
    if n < 10 {
        seq![(48 + n) as u8]
    } else {
        decimal(n / 10).push((48 + n % 10) as u8)
    }
}

/// The number that a string of digits denotes.
pub open spec fn digits_value(s: Seq<u8>) -> nat
    decreases s.len(),
{
    if s.len() == 0 {
        0
    } else {
        digits_value(s.drop_last()) * 10 + (s.last() - 48) as nat
    }
}

/// Whether `s` is a numeral without leading zeros.
pub open spec fn canonical(s: Seq<u8>) -> bool {
    &&& s.len() >= 1
    &&& all_digits(s)
    &&& (s.len() == 1 || s[0] != 48)
}

/// The number that the numeral `s` writes, where it is canonical and fits
/// in 64 bits.
pub open spec fn numeral_value(s: Seq<u8>) -> Option<u64> {
    if canonical(s) && digits_value(s) <= u64::MAX {
        Some(digits_value(s) as u64)
    } else {
        None
    }
}

/// The numeral of `n` is canonical, denotes `n`, and starts with a nonzero
/// digit where `n` is not zero.
pub proof fn lemma_decimal(n: nat)
    ensures
        canonical(decimal(n)),
        digits_value(decimal(n)) == n,
        n >= 1 ==> decimal(n)[0] != 48,
    decreases n,
{
    assert(digits_value(Seq::<u8>::empty()) == 0);
    if n < 10 {
        let d = decimal(n);
        assert(d.drop_last() =~= Seq::<u8>::empty());
        assert(d.last() == (48 + n) as u8);
        assert(((48 + n) as u8 - 48) as nat == n);
    } else {
        lemma_decimal(n / 10);
        let d = decimal(n);
        let p = decimal(n / 10);
        assert(d.drop_last() =~= p);
        assert(d[0] == p[0]);
        assert(d.last() == (48 + n % 10) as u8);
        assert(((48 + n % 10) as u8 - 48) as nat == n % 10);
        assert(digits_value(d) == digits_value(p) * 10 + (d.last() - 48) as nat);
        assert(n == (n / 10) * 10 + n % 10);
    }
}

/// A prefix of a string of digits denotes no more than the whole.
proof fn lemma_value_prefix(s: Seq<u8>, j: int)
    requires
        all_digits(s),
        0 <= j <= s.len(),
    ensures
        digits_value(s.subrange(0, j)) <= digits_value(s),
    decreases s.len() - j,
{
    if j < s.len() {
        let t = s.subrange(0, j + 1);
        lemma_value_prefix(s, j + 1);
        assert(t.drop_last() =~= s.subrange(0, j));
        assert(is_digit(t.last()));
    } else {
        assert(s.subrange(0, j) =~= s);
    }
}

/// A canonical numeral is the numeral of the number it denotes.
pub proof fn lemma_canonical_is_decimal(s: Seq<u8>)
    requires
        canonical(s),
    ensures
        s == decimal(digits_value(s)),
    decreases s.len(),
{
    let v = digits_value(s);
    assert(is_digit(s.last()));
    if s.len() == 1 {
        assert(s.drop_last() =~= Seq::<u8>::empty());
        assert(digits_value(Seq::<u8>::empty()) == 0);
        assert(v == (s[0] - 48) as nat);
        assert((48 + v) as u8 == s[0]);
        assert(s =~= seq![(48 + v) as u8]);
    } else {
        let t = s.drop_last();
        assert(all_digits(t));
        assert(t[0] == s[0]);
        lemma_canonical_is_decimal(t);
        let w = digits_value(t);
        lemma_value_prefix(t, 1);
        let u = t.subrange(0, 1);
        assert(u.drop_last() =~= Seq::<u8>::empty());
        assert(digits_value(Seq::<u8>::empty()) == 0);
        assert(u.last() == t[0]);
        assert(digits_value(u) == digits_value(u.drop_last()) * 10 + (u.last() - 48) as nat);
        assert(digits_value(u) == (t[0] - 48) as nat);
        assert(w >= 1);
        let d = (s.last() - 48) as nat;
        assert(v == w * 10 + d);
        assert(v / 10 == w && v % 10 == d) by (nonlinear_arith)
            requires
                v == w * 10 + d,
                d < 10,
        ;
        assert(s =~= decimal(w).push((48 + d) as u8));
    }
}

/// Appends the numeral of `n`.
pub fn push_decimal(out: &mut Vec<u8>, n: u64)
    ensures
        final(out)@ == old(out)@ + decimal(n as nat),
    decreases n,
{
    if n >= 10 {
        push_decimal(out, n / 10);
    }
    let digit: u8 = (48 + n % 10) as u8;
    out.push(digit);
    proof {
        if n < 10 {
            assert(final(out)@ =~= old(out)@ + decimal(n as nat));
        } else {
            assert(final(out)@ =~= old(out)@ + decimal(n as nat));
        }
    }
}

/// Reads the numeral `s[start..end]`: its value where it is canonical and
/// fits in 64 bits.
pub fn read_numeral(s: &[u8], start: usize, end: usize) -> (r: Option<u64>)
    requires
        start <= end <= s@.len(),
    ensures
        r == numeral_value(s@.subrange(start as int, end as int)),
{
    let ghost t = s@.subrange(start as int, end as int);
    if start == end {
        return None;
    }
    if end - start > 1 && s[start] == 48 {
        return None;
    }
    let mut acc: u64 = 0;
    let mut i: usize = start;
    while i < end
        invariant
            start <= i <= end <= s@.len(),
            t == s@.subrange(start as int, end as int),
            all_digits(t.subrange(0, i - start)),
            acc as nat == digits_value(t.subrange(0, i - start)),
        decreases end - i,
    {
        let b = s[i];
        let ghost k = i - start;
        proof {
            assert(t.subrange(0, k + 1).drop_last() =~= t.subrange(0, k));
            assert(t.subrange(0, k + 1).last() == b);
        }
        if b < 48 || b > 57 {
            proof {
                assert(!is_digit(t[k]));
            }
            return None;
        }
        let d: u64 = (b - 48) as u64;
        if acc > (u64::MAX - d) / 10 {
            proof {
                assert(acc * 10 + d > u64::MAX) by (nonlinear_arith)
                    requires
                        acc > (u64::MAX - d) / 10,
                        d <= 9,
                ;
                assert(all_digits(t.subrange(0, k + 1)));
                let full = t;
                if canonical(full) {
                    lemma_value_prefix(full, k + 1);
                }
            }
            return None;
        }
        proof {
            assert(acc * 10 + d <= u64::MAX) by (nonlinear_arith)
                requires
                    acc <= (u64::MAX - d) / 10,
                    d <= 9,
            ;
        }
        acc = acc * 10 + d;
        i = i + 1;
        proof {
            assert(all_digits(t.subrange(0, i - start)));
        }
    }
    proof {
        assert(t.subrange(0, end - start) =~= t);
    }
    Some(acc)
}

} // verus!
