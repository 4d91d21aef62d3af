//! Base-10 digit sequences of natural numbers.
//!
//! A number is modelled by its digit sequence, least significant digit first;
//! a decimal palindrome is a number whose digit sequence equals its own
//! reversal.  The lemmas here connect that sequence view to the accumulator
//! style digit-reversal computation `rev_digits`, which the executable code
//! performs.

use vstd::prelude::*;

verus! {

/// The base-10 digits of `n`, least significant first; `0` has no digits.
pub open spec fn digits(n: nat) -> Seq<nat>
    decreases n,
{
    if n == 0 {
        seq![]
    } else {
        seq![n % 10] + digits(n / 10)
    }
}

/// The number written by the digit sequence `s`, least significant first.
pub open spec fn from_digits(s: Seq<nat>) -> nat
    decreases s.len(),
{
    if s.len() == 0 {
        0
    } else {
        s[0] + 10 * from_digits(s.subrange(1, s.len() as int))
    }
}

/// The `k`-th power of ten.
pub open spec fn pow10(k: nat) -> nat
    decreases k,
{
    if k == 0 {
        1
    } else {
        10 * pow10((k - 1) as nat)
    }
}

/// Digit reversal by repeated division: the least significant digit of `n`
/// moves to the accumulator first, so `rev_digits(123, 0) == 321`.
pub open spec fn rev_digits(n: nat, acc: nat) -> nat
    decreases n,
{
    if n == 0 {
        acc
    } else {
        rev_digits(n / 10, acc * 10 + n % 10)
    }
}

/// `n` reads the same forwards and backwards in base 10.
pub open spec fn is_decimal_palindrome(n: nat) -> bool {
    digits(n) == digits(n).reverse()
}

/// Every digit is below the base.
pub proof fn lemma_digits_all_lt_10(n: nat)
    ensures
        forall|i: int| 0 <= i < digits(n).len() ==> #[trigger] digits(n)[i] < 10,
    decreases n,
{
    if n != 0 {
        lemma_digits_all_lt_10(n / 10);
        assert forall|i: int| 0 <= i < digits(n).len() implies #[trigger] digits(n)[i] < 10 by {
            if i == 0 {
                assert(digits(n)[0] == n % 10);
            } else {
                assert(digits(n)[i] == digits(n / 10)[i - 1]);
            }
        }
    }
}

/// Reading the digits of `n` back gives `n`.
pub proof fn lemma_from_digits_digits(n: nat)
    ensures
        from_digits(digits(n)) == n,
    decreases n,
{
    if n != 0 {
        lemma_from_digits_digits(n / 10);
        assert(digits(n).subrange(1, digits(n).len() as int) =~= digits(n / 10));
        assert(digits(n)[0] == n % 10);
    }
}

/// Appending a digit at the most significant end adds `d * pow10(len)`.
pub proof fn lemma_from_digits_push(s: Seq<nat>, d: nat)
    ensures
        from_digits(s.push(d)) == from_digits(s) + d * pow10(s.len()),
    decreases s.len(),
{
    if s.len() == 0 {
        assert(s.push(d) =~= seq![d]);
        assert(s.push(d).subrange(1, 1) =~= Seq::<nat>::empty());
        assert(from_digits(s.push(d).subrange(1, 1)) == 0);
        assert(s.push(d)[0] == d);
        assert(from_digits(s.push(d)) == d + 10 * 0);
        assert(pow10(0) == 1);
    } else {
        let s1 = s.subrange(1, s.len() as int);
        lemma_from_digits_push(s1, d);
        assert(s.push(d).subrange(1, s.push(d).len() as int) =~= s1.push(d));
        assert(pow10(s.len()) == 10 * pow10(s1.len()));
        assert(10 * (from_digits(s1) + d * pow10(s1.len())) == 10 * from_digits(s1) + d * (10
            * pow10(s1.len()))) by (nonlinear_arith);
    }
}

/// `rev_digits` writes the reversed digit sequence in front of the accumulator.
pub proof fn lemma_rev_digits_decomp(n: nat, acc: nat)
    ensures
        rev_digits(n, acc) == from_digits(digits(n).reverse()) + acc * pow10(digits(n).len()),
    decreases n,
{
    if n == 0 {
        assert(digits(0) =~= Seq::<nat>::empty());
        assert(Seq::<nat>::empty().reverse() =~= Seq::<nat>::empty());
    } else {
        let d = n % 10;
        lemma_rev_digits_decomp(n / 10, acc * 10 + d);
        let r1 = digits(n / 10).reverse();
        let len1 = digits(n / 10).len();
        assert(digits(n / 10).reverse().len() == len1);
        assert(digits(n).reverse() =~= r1.push(d)) by {
            assert(digits(n).len() == len1 + 1);
            assert forall|i: int| 0 <= i < len1 + 1 implies digits(n).reverse()[i] == r1.push(d)[i] by {
                assert(digits(n).reverse()[i] == digits(n)[len1 - i]);
                if i < len1 {
                    assert(digits(n)[len1 - i] == digits(n / 10)[len1 - i - 1]);
                    assert(r1[i] == digits(n / 10)[len1 - 1 - i]);
                } else {
                    assert(digits(n)[0] == d);
                }
            }
        }
        lemma_from_digits_push(r1, d);
        assert(pow10(digits(n).len()) == 10 * pow10(len1));
        assert((acc * 10 + d) * pow10(len1) == acc * (10 * pow10(len1)) + d * pow10(len1))
            by (nonlinear_arith);
    }
}

/// A digit sequence below the base writes a number below `pow10` of its length.
pub proof fn lemma_from_digits_bound(s: Seq<nat>)
    requires
        forall|i: int| 0 <= i < s.len() ==> #[trigger] s[i] < 10,
    ensures
        from_digits(s) < pow10(s.len()),
    decreases s.len(),
{
    if s.len() != 0 {
        let s1 = s.subrange(1, s.len() as int);
        assert forall|i: int| 0 <= i < s1.len() implies #[trigger] s1[i] < 10 by {
            assert(s1[i] == s[i + 1]);
        }
        lemma_from_digits_bound(s1);
        assert(pow10(s.len()) == 10 * pow10(s1.len()));
    }
}

/// Powers of ten are at least one.
pub proof fn lemma_pow10_pos(k: nat)
    ensures
        pow10(k) >= 1,
    decreases k,
{
    if k != 0 {
        lemma_pow10_pos((k - 1) as nat);
    }
}

/// Powers of ten grow with the exponent.
pub proof fn lemma_pow10_monotone(a: nat, b: nat)
    requires
        a <= b,
    ensures
        pow10(a) <= pow10(b),
    decreases b,
{
    if a < b {
        lemma_pow10_monotone(a, (b - 1) as nat);
        lemma_pow10_pos((b - 1) as nat);
    }
}

/// A number below `pow10(k)` has at most `k` digits.
pub proof fn lemma_digits_len_bound(n: nat, k: nat)
    requires
        n < pow10(k),
    ensures
        digits(n).len() <= k,
    decreases n,
{
    if n != 0 {
        if k == 0 {
            assert(pow10(0) == 1);
        } else {
            assert(pow10(k) == 10 * pow10((k - 1) as nat));
            assert(n / 10 < pow10((k - 1) as nat));
            lemma_digits_len_bound(n / 10, (k - 1) as nat);
        }
    }
}

/// Digit sequences of equal length that write the same number are equal.
pub proof fn lemma_from_digits_injective(s1: Seq<nat>, s2: Seq<nat>)
    requires
        s1.len() == s2.len(),
        forall|i: int| 0 <= i < s1.len() ==> #[trigger] s1[i] < 10,
        forall|i: int| 0 <= i < s2.len() ==> #[trigger] s2[i] < 10,
        from_digits(s1) == from_digits(s2),
    ensures
        s1 == s2,
    decreases s1.len(),
{
    if s1.len() == 0 {
        assert(s1 =~= s2);
    } else {
        let t1 = s1.subrange(1, s1.len() as int);
        let t2 = s2.subrange(1, s2.len() as int);
        assert(s1[0] + 10 * from_digits(t1) == s2[0] + 10 * from_digits(t2));
        assert(s1[0] < 10 && s2[0] < 10);
        assert(s1[0] == s2[0] && from_digits(t1) == from_digits(t2));
        assert forall|i: int| 0 <= i < t1.len() implies #[trigger] t1[i] < 10 by {
            assert(t1[i] == s1[i + 1]);
        }
        assert forall|i: int| 0 <= i < t2.len() implies #[trigger] t2[i] < 10 by {
            assert(t2[i] == s2[i + 1]);
        }
        lemma_from_digits_injective(t1, t2);
        assert forall|i: int| 0 <= i < s1.len() implies s1[i] == s2[i] by {
            if i > 0 {
                assert(s1[i] == t1[i - 1] && s2[i] == t2[i - 1]);
            }
        }
        assert(s1 =~= s2);
    }
}

/// The digit-reversal computation fixes exactly the decimal palindromes.
pub proof fn lemma_rev_digits_iff_palindrome(n: nat)
    ensures
        rev_digits(n, 0) == n <==> is_decimal_palindrome(n),
{
    lemma_rev_digits_decomp(n, 0);
    lemma_from_digits_digits(n);
    lemma_digits_all_lt_10(n);
    let s = digits(n);
    let r = s.reverse();
    assert(r.len() == s.len());
    assert(rev_digits(n, 0) == from_digits(r));
    assert forall|i: int| 0 <= i < r.len() implies #[trigger] r[i] < 10 by {
        assert(r[i] == s[s.len() - 1 - i]);
    }
    if rev_digits(n, 0) == n {
        lemma_from_digits_injective(r, s);
    }
}

/// Reversal does not grow the digit count: the result stays below `pow10(k)`.
pub proof fn lemma_rev_digits_bound(n: nat, k: nat)
    requires
        n < pow10(k),
    ensures
        rev_digits(n, 0) < pow10(k),
{
    lemma_rev_digits_decomp(n, 0);
    lemma_digits_all_lt_10(n);
    let s = digits(n);
    let r = s.reverse();
    assert(r.len() == s.len());
    assert forall|i: int| 0 <= i < r.len() implies #[trigger] r[i] < 10 by {
        assert(r[i] == s[s.len() - 1 - i]);
    }
    lemma_from_digits_bound(r);
    lemma_digits_len_bound(n, k);
    lemma_pow10_monotone(r.len(), k);
}

/// With a non-empty input the accumulator is shifted up at least once.
pub proof fn lemma_rev_digits_lower(n: nat, acc: nat)
    requires
        n > 0,
    ensures
        rev_digits(n, acc) >= 10 * acc,
    decreases n,
{
    lemma_rev_digits_decomp(n, acc);
    assert(digits(n).len() >= 1);
    lemma_pow10_monotone(1, digits(n).len());
    assert(pow10(1) == 10 * pow10(0));
    assert(acc * pow10(digits(n).len()) >= acc * 10) by (nonlinear_arith)
        requires
            pow10(digits(n).len()) >= 10,
    ;
}

/// Nineteen decimal digits fit a `u64`: the bound the executable code uses.
pub proof fn lemma_pow10_19()
    ensures
        pow10(19) == 10000000000000000000,
{
    reveal_with_fuel(pow10, 20);
}

} // verus!
